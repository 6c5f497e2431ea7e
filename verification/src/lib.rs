//! Derivation of a topologically meaningful railway network from a way/node
//! graph: counting how many ways use each node, classifying nodes as
//! junctions, splitting each way's ordered node list into
//! connectivity-preserving segments at junction boundaries, and resolving a
//! segment's node list against a node store so its length can be computed.

pub mod counts;
pub mod distance;
pub mod kv;
pub mod railway;
pub mod segmentation;
pub mod tags;

pub use railway::decode_node_refs;
pub use railway::OsmRailway;
pub use railway::RailwaySegment;
pub use segmentation::segment_railways;
pub use tags::get_used_tags;
pub use tags::HasTags;
pub use tags::TagMap;
pub use tags::TagTable;
pub use tags::ValueCounts;
