//! Starts named services in the order that their definitions ask for, each at
//! most once, and tells whoever asked whether a service has started or failed.
//!
//! The orchestrator owns the record of every service and changes it only by
//! handling one message at a time. The lifecycle of a service decides what
//! the service does next. Neither waits for anything: a driver outside this
//! library sends the messages, executes the commands, waits for the
//! notifications and reports back what happened.

pub mod channel;
pub mod command;
pub mod definition;
pub mod laws;
pub mod lifecycle;
pub mod orchestrator;
pub mod system;
pub mod unit;
