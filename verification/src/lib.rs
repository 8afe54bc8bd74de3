pub mod kv;
pub mod resp;
pub mod command;
pub mod connection;
pub mod server;
