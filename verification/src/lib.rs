//! Verified core of a river-network task system: attribute values, the
//! task-script tokenizer and parsers, markdown tables and the network
//! topology algorithms.
pub mod attrs;
pub mod text;
pub mod tasks;
pub mod parser;
pub mod color;
pub mod values;
pub mod table;
pub mod functions;
pub mod network;
pub mod node;
pub mod convert;
pub mod registry;
pub mod timeseries;
pub mod runner;
pub mod command;
