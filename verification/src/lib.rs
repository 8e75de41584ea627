//! Verified integer core of an interactive Gaussian-integral visualiser.
pub mod simpson;
pub mod grid;
pub mod painter;
pub mod controls;
