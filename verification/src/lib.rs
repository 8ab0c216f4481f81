pub mod asset;
pub mod asset_type;
pub mod csharp;
pub mod database;
pub mod display;
pub mod filter;
pub mod find_types;
pub mod grammar;
pub mod graph;
pub mod id;
pub mod loc;
pub mod locstrings;
pub mod patterns;
pub mod project;
pub mod query;
pub mod qualified_name;
pub mod storage;
pub mod structure;
pub mod syntax;
pub mod text;
pub mod type_broker;
pub mod unity;
pub mod walk;
