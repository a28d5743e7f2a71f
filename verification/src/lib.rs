//! Disk-usage tree construction for a treemap disk analyser.
pub mod crawler;
pub mod laws;
pub mod listing;
pub mod navigate;
pub mod order;
pub mod paths;
pub mod tree;
pub mod builder;
pub mod sizes;
