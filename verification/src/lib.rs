//! A bounded Game of Life engine: a row-major grid, the update rule, the
//! split of rows among workers, and the run that reports each generation.

pub mod cell;
pub mod channel;
pub mod distributor;
pub mod event;
pub mod grid;
pub mod partition;
pub mod patterns;
pub mod rules;
pub mod runs;
pub mod turn;
