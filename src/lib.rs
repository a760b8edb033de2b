//! Per-tick dispatch controller for a multi-elevator simulation: a binary
//! state/command wire codec and a verified dispatch engine.

pub mod wire;
pub mod model;
pub mod dispatch;
pub mod codec;
pub mod driver;
