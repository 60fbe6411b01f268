//! Two key-value storage engines behind one shared contract: an in-memory
//! balanced multi-way search tree and a log-structured merge engine whose
//! segments are ordered snapshots of past memtable contents.

pub mod kv;
pub mod btree;
pub mod lsm;
pub mod engine;
