pub mod cache;
pub mod cli;
pub mod commands;
pub mod date;
pub mod db;
pub mod domain;
pub mod error;
pub mod fetch;
pub mod http;
pub mod order;
pub mod sources;
pub mod text;
pub mod text_map;
