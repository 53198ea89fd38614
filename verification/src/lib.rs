//! Supervision of a language-server sidecar process: a verified stream
//! decoder for Content-Length framed messages, a dispatch layer that turns
//! decoded bodies into UTF-8 texts, a supervisor state machine for the
//! start / send / stop operations, and the computing side of the
//! surrounding project management.

pub mod decoder;
pub mod frame;
pub mod laws;
pub mod project;
pub mod session;
pub mod supervisor;
