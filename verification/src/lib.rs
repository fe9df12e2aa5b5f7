pub mod text;
pub mod lists;
pub mod order;
pub mod tree;
pub mod textmap;
pub mod plan;
pub mod paths;
pub mod config;
pub mod digest;
pub mod scan;
pub mod compression;
pub mod archive;
pub mod outcome;
pub mod archive_pass;
pub mod pass;
pub mod pairs;
pub mod scheduler;
pub mod state;
