pub mod attributes;
pub mod object;
