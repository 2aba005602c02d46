//! A wide-column, eventually-consistent datastore node: wire codecs, partitioned
//! tables, replica placement, gossip membership and the coordinator's decisions.

pub mod notation;
pub mod text;
pub mod consistency_level;
pub mod consistency;
pub mod gossip;
pub mod consistent_hashing;
pub mod replication_strategy;
pub mod custom_error;
pub mod expression;
pub mod table;
pub mod serde_table;
pub mod security;
pub mod encrypted_table;
pub mod row;
pub mod column_option;
pub mod query;
pub mod internal_protocol;
pub mod coordinator;
pub mod authentication;
pub mod error_code;
pub mod frame;
pub mod data_parser;
pub mod reassignment;
pub mod startup_options;
pub mod query_builder;
pub mod node;
