pub mod builder;
pub mod cache;
pub mod extract;
pub mod graph;
pub mod judge;
pub mod query;
pub mod report;
pub mod resolver;
pub mod strutil;
