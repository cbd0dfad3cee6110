//! A verified core for a keyboard-macro host: a shortcut registry with
//! persistence and best-effort broadcast, a key/text simulation planner,
//! a single-peer device session state machine, and the control-channel
//! protocol that ties them together.

pub mod codec;
pub mod hotkeys;
pub mod model;
pub mod protocol;
pub mod registry;
pub mod session;
pub mod simulate;
pub mod text;
