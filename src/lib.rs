//! Key-binding and routing engine: one physical keyboard driving several
//! target windows ("controllers"), each with its own key bindings.

pub mod key;
pub mod bitset;
pub mod bindings;
pub mod routes;
pub mod consistency;
pub mod state;
pub mod dispatch;
pub mod json;
