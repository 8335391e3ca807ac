//! Simple photo album.

pub mod api;
pub mod cache;
pub mod config;
pub mod counts;
pub mod covers;
pub mod db;
pub mod entry;
pub mod html;
pub mod listing;
pub mod models;
pub mod path;
pub mod pool;
pub mod probe;
pub mod scan;
pub mod search;
pub mod share;
pub mod text;
pub mod thumb;
pub mod util;
pub mod watcher;
pub mod worker;
