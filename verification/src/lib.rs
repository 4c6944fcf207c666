//! A gateway between two zenoh meshes: which shards a node serves, what its consumers want, and
//! which messages it forwards.

pub mod big_endian;
pub mod cli;
pub mod clock;
pub mod cluster;
pub mod config;
pub mod discovery;
pub mod event_handlers;
pub mod forwarding;
pub mod hashing;
pub mod interest;
pub mod json5;
pub mod keyspace;
pub mod layers;
pub mod metrics;
pub mod order;
pub mod rounding;
pub mod string_map;
pub mod string_set;
pub mod subscription;
pub mod text;
pub mod workload;
