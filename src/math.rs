pub mod basic;
pub mod combinatorics;
