//! Verified core of a sparse mixture-of-experts inference engine.
//!
//! Two model families share the crate: [`inkling`] (routed and shared experts,
//! expert-parallel workers, device-compiled layers) and [`k3`] (latent experts,
//! block residuals, expert residency). Everything here is placement, planning,
//! bookkeeping and validation over plain values; tensor arithmetic and I/O sit
//! around it.
pub mod arith;
pub mod bytes;
pub mod doubles;
pub mod float_bits;
pub mod id_set;
pub mod inkling;
pub mod k3;
pub mod lru_costs;
pub mod ranges;
pub mod ranking;
pub mod text;
