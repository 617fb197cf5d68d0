//! In-memory model of a hierarchical, time-indexed waveform trace.
//!
//! A trace is a tree of scopes that hold typed variables, each backed by a
//! time-ordered sequence of value changes. This library rebuilds the tree and
//! its lookup tables from the flat stream of hierarchy events, decodes and
//! stores the value changes of each signal, answers point queries over them,
//! and keeps loaded signals in a cache keyed by signal identity.
//!
//! The library does no input or output. Whoever drives the trace reader hands
//! it decoded events and scanned samples, and runs the scans that it asks for.
//!
//! - [`codes`]: the numeric codes of the trace format
//! - [`text`]: character-level helpers
//! - [`hierarchy`]: scopes, variables and the hierarchy with its lookups
//! - [`builder`]: building a hierarchy from hierarchy events
//! - [`signal`]: sample values, the store of value changes and its queries
//! - [`source`]: decoding scanned samples and the cache of loaded signals
//! - [`shared`]: the table of shared signals behind the cache
//! - [`waveform`]: a trace with its hierarchy and its signals

pub mod builder;
pub mod codes;
pub mod hierarchy;
pub mod shared;
pub mod signal;
pub mod source;
pub mod text;
pub mod waveform;
