pub mod cli;
pub mod colors;
pub mod config;
pub mod error;
pub mod file_collector;
pub mod graph;
pub mod models;
pub mod nav_laws;
pub mod order_laws;
pub mod order;
pub mod page_id;
pub mod page_laws;
pub mod path;
pub mod processor;
pub mod renderer;
pub mod site_builder;
pub mod sorted_map;
pub mod text;
pub mod walk_laws;
pub mod yaml;
