pub mod difficulty;
