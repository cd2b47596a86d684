pub mod matrix;
pub mod permutations;
pub mod search;
pub mod sponge;
