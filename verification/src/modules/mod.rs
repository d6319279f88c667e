//! Measurement modules. Each module lives in its own file.

pub mod crossover_check;
pub mod left_right_balance;
