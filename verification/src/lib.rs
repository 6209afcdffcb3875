pub mod error;
pub mod models;
pub mod text;
pub mod hosts_core;
pub mod services;
pub mod utils;
pub mod commands;
