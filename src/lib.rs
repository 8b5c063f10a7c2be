//! Special functions: the integer combinatorics (factorials, binomial
//! coefficients, rows of Pascal's triangle and the Levi-Civita symbol),
//! each stated over a mathematical model and proved.

pub mod math;
