//! The operations on a pool. Each takes what was read from the outside as
//! plain values, changes the pool, and says what has to be done outside.
pub mod create_pool;
pub mod deposit;
pub mod refresh_orders;
pub mod restart_market_making;
pub mod withdraw;
