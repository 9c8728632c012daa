//! Verified core of an interactive fractal and cellular-automaton viewer.
pub mod color;
pub mod lsystem;
pub mod progressive;
pub mod life;
pub mod smooth_life;
