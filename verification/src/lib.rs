//! Decision core of a gossip mesh node.
pub mod a2a;
pub mod advertise;
pub mod agent;
pub mod audit;
pub mod auth;
pub mod bulk;
pub mod capability;
pub mod capauthz;
pub mod capcodec;
pub mod catalog;
pub mod config;
pub mod consensus;
pub mod drops;
pub mod emergent;
pub mod emergent_groups;
pub mod endpoints;
pub mod evidence;
pub mod flap;
pub mod fleet;
pub mod following;
pub mod gateway;
pub mod gc;
pub mod gossip;
pub mod groupdef;
pub mod groups;
pub mod health;
pub mod identity;
pub mod json;
pub mod kv;
pub mod kv_quorum;
pub mod leader;
pub mod llm;
pub mod load;
pub mod log;
pub mod mcp;
pub mod mesh;
pub mod node_id;
pub mod num;
pub mod opacity;
pub mod pairs;
pub mod peers;
pub mod prehashed;
pub mod projection;
pub mod ranking;
pub mod relay;
pub mod resolve;
pub mod roster;
pub mod scan;
pub mod seen;
pub mod sharding;
pub mod signals;
pub mod store;
pub mod subscriptions;
pub mod text;
pub mod textset;
pub mod timing;
pub mod trail;
pub mod wire;
