//! A hosts-file block list: a format-preserving parser and serializer for hosts files, an
//! in-memory store of blocked names, the computations of a snapshot history, and the step
//! machine of an atomic commit.
pub mod addr;
pub mod commit;
pub mod domain;
pub mod history;
pub mod hosts;
pub mod platform;
pub mod round_trip;
pub mod store;
pub mod text;
