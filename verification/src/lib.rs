pub mod config;
pub mod error;
pub mod graph;
pub mod ipc;
pub mod outside;
pub mod process;
pub mod resolver;
pub mod utils;
pub mod worker;
