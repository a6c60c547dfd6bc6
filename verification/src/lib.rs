//! Builds a global configuration from the verified DHT nodes that a crawl of the network finds
//! reachable: reads the seed nodes, steers the crawl from those that the network takes, decides on
//! each candidate, and makes the configuration and the report on it.

pub mod candidate;
pub mod clock;
pub mod config;
pub mod course;
pub mod crawl;
pub mod decision;
pub mod error;
pub mod ipv4;
pub mod json;
pub mod node;
pub mod order;
pub mod output;
pub mod path;
pub mod report;
pub mod roundtrip;
pub mod seed;
pub mod select;
pub mod text;
