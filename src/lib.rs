pub mod cli;
pub mod controller;
pub mod device;
pub mod frac;
pub mod interpolation;
pub mod policy;
pub mod probe;
