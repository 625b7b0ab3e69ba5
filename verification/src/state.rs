//! What a pool remembers between operations.
pub mod openamm_pool;

pub use openamm_pool::{empty_slots, Address, OpenAmmPool, PlacedOrder, PoolType, PoolView};
