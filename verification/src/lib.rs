//! Cross-domain automotive log analysis: parsing of system, CAN and Ethernet
//! logs, classification into system events, and frame/event correlation.

pub mod text;
pub mod models;
pub mod classifier;
pub mod pcap;
pub mod rules;
pub mod reporter;
pub mod parser;
pub mod html;
pub mod collector;
pub mod laws;
pub mod order;
pub mod analysis;
pub mod metrics;
pub mod decoder;
pub mod cli;
pub mod properties;
