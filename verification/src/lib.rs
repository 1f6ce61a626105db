pub mod cli;
pub mod dice;
pub mod error;
pub mod roll;
pub mod text;
