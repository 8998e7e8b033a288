//! Verified core of a heterogeneous-device LLM inference coordinator: decimal
//! and list text building, device registry helpers, layer placement and the
//! argument vectors handed to `llama-server` and `rpc-server`.

pub mod text;
pub mod registry;
pub mod placement;
pub mod launcher;
pub mod rpc_supervisor;
