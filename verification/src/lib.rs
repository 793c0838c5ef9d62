//! Core of a log-structured message broker: the wire protocol, the on-disk log
//! format, partition and topic rules, and the request dispatcher.
//!
//! Nothing here touches a socket or a file. Files are handed in as bytes, bytes
//! to be written are handed out, and the program around the library moves them.

pub mod bigendian;
pub mod broker;
pub mod client;
pub mod error;
pub mod log;
pub mod partition;
pub mod protocol;
pub mod text;
pub mod topic;
