//! A virtual filesystem that owns a tree of mount points.

pub mod call_laws;
pub mod children;
pub mod fs;
pub mod laws;
pub mod listing;
pub mod model;
pub mod mount;
pub mod open_options;
pub mod operations;
pub mod path;
pub mod path_laws;
pub mod table;
