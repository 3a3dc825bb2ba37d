//! Background jobs: their states, quotas, results and retention.
pub mod cancel;
pub mod entry_state;
pub mod quota;
pub mod registry;
pub mod throttle;
pub mod ttl_gc;
