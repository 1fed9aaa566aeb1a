pub mod globs;
pub mod graph;
pub mod db;
pub mod keyed;
pub mod scheduler;
pub mod fs_events;
pub mod tables;
pub mod deps;
