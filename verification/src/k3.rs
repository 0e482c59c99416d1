//! The K3 family: packed four-bit experts, block residuals, expert residency, the
//! prefix store and the measurements around them.
pub mod attn;
pub mod chess_probe;
pub mod expert_fp4;
pub mod gate_probe;
pub mod kda;
pub mod knobs;
pub mod loader;
pub mod model;
pub mod moe;
pub mod prefix_store;
pub mod prof;
pub mod residency;
pub mod stage;
