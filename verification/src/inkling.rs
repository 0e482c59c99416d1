//! The Inkling family: expert-parallel dispatch, expert caching, sequence state
//! rings, device-compiled layers and the rules that tie them together.
pub mod attn;
pub mod capture;
pub mod conv;
pub mod cpu_overlap;
pub mod ep;
pub mod ep_bank;
pub mod ep_worker;
pub mod expert_cache;
pub mod expert_counts;
pub mod ffn;
pub mod gate;
pub mod loader;
pub mod model;
pub mod moe;
pub mod moe_block;
pub mod ov_attn;
pub mod ov_expert;
pub mod ov_head;
pub mod ov_moe;
pub mod relpos;
pub mod ring;
pub mod stage;
