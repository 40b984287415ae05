pub mod crawler;
pub mod entry;
pub mod fuzzy;
pub mod highlight;
pub mod paths;
pub mod ranking;
pub mod scorer;
pub mod search;
pub mod snapshot;
pub mod store;
pub mod text;
pub mod traversal;
