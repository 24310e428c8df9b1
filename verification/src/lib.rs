//! Rating of contestants from contest standings.

pub mod cf_system;
pub mod compute_ratings;
pub mod contest_config;
pub mod counting;
pub mod data_processing;
pub mod double;
pub mod means;
pub mod order;
pub mod ratings_table;
pub mod root_search;
pub mod roster;
pub mod standings;
pub mod summary;
pub mod text;
pub mod titles;
