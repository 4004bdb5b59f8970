pub mod arithmetic;
pub mod binary;
pub mod formula;
pub mod input;
pub mod logic;
pub mod output;
pub mod reduction;
pub mod solver;
