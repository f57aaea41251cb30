pub mod access;
pub mod auth;
pub mod change;
pub mod clients;
pub mod database;
pub mod eviction;
pub mod files;
pub mod firebase;
pub mod hash;
pub mod hooks;
pub mod inbox;
pub mod json;
pub mod jwt;
pub mod ledger;
pub mod lifecycle;
pub mod listing;
pub mod node;
pub mod order;
pub mod path;
pub mod plain;
pub mod promotion;
pub mod protocol;
pub mod reads;
pub mod replay;
pub mod rules;
pub mod sentinel;
pub mod server_value;
pub mod sessions;
pub mod settings;
pub mod shape;
pub mod size;
pub mod stats;
pub mod store;
pub mod text;
pub mod transaction;
pub mod tree;
pub mod value;
pub mod wal;
pub mod writes;
