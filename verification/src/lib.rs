//! Converts function-call instrumentation logs into the Chrome Trace Event
//! JSON data model: a binary trace decoder with call-stack reconstruction,
//! a line-text trace parser, and a sorted merge-scan address-to-symbol
//! resolver.

pub mod chrome;
pub mod file;
pub mod iftrace;
pub mod objdump;
pub mod proc_maps;
pub mod text;
