pub mod assembler;
pub mod generator;
pub mod hand;
pub mod pool;
pub mod rng;
pub mod scorer;
pub mod shanten;
pub mod types;
pub mod variants;
