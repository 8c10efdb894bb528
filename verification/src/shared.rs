pub mod emit;
pub mod rng;
