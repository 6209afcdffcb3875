pub mod content_parser;
pub mod hosts_manager;
pub mod search;
pub mod trash;
pub mod privilege;
