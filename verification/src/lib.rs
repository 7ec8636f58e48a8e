//! viy: process monitoring of a command and its process tree. This library
//! holds what the monitor computes from what it reads of `/proc`: samples
//! and their compression, the run summary, I/O watermarks, process-tree
//! discovery, the decisions of the wait for the command, findings, Python
//! trace reading and the peaks it is asked about, and the text of the
//! report with its charts. Floating-point figures are computed on an exact
//! model of binary64 arithmetic (`binary64`, `rounding`).
pub mod text;
pub mod numfmt;
pub mod binary64;
pub mod rounding;
pub mod insights;
pub mod metrics;
pub mod sampler;
pub mod process_tree;
pub mod colors;
pub mod terminal;
pub mod py_trace;
pub mod parse;
pub mod wait;
