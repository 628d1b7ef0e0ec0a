//! A small version control library: a repository of content-addressed
//! objects, a staging area and a history of commits, with the decisions of
//! the command line tool (staging, committing, diffing) stated and proved.
pub mod text;
pub mod str_map;
pub mod utils;
pub mod paths;
pub mod repository;
pub mod commands;
pub mod laws;
