pub mod clues;
pub mod randomness;
pub mod registry;
pub mod session;
