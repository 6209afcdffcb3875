pub mod config;
pub mod hosts;
