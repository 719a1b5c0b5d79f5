//! Approximation theory toolkit: its exact, integer-valued parts, each with a
//! machine-checked contract: the Chebyshev basis and the angles of Chebyshev
//! nodes and extrema, binomial coefficients, factorials and the index pattern of
//! the Padé denominator system, Remez reference selection, and agent-model
//! smoothing windows.
pub mod chebyshev;
pub mod pade;
pub mod remez;
pub mod agent_model;
