pub mod gf256;
pub mod linalg;
pub mod poly;
pub mod gauss;
pub mod reed_solomon;
pub mod text;
pub mod types;
pub mod anti_entropy;
pub mod consistent_hash;
pub mod clock;
pub mod gossip;
pub mod tags;
pub mod weaver;
pub mod cli;
pub mod math;
pub mod memory_pool;
pub mod modality;
pub mod importance;
pub mod recovery;
pub mod manifest;
pub mod frame;
pub mod window;
pub mod records;
pub mod node;
pub mod config;
pub mod index;
pub mod tiered;
pub mod wal;
pub mod hash;
pub mod table;
pub mod segment;
pub mod error_text;
pub mod access;
pub mod order;
