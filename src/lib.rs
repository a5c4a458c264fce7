pub mod common;
pub mod cyk;
pub mod earley;
