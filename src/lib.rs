//! Discrete decisions of reciprocal collision avoidance for one agent: which
//! stationary neighbours merge into line obstacles, in which order the
//! half-plane constraints reach the solver, and when the relaxation loop
//! accepts, retries or gives up.
pub mod clustering;
pub mod plan;
pub mod relax;
