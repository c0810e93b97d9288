//! Verified core of a clipboard history manager: the entry model, the
//! storage row codec, the queries over the history table, the cleanup
//! policy, and the decisions the history service and its window take.

pub mod text;
pub mod png;
pub mod models;
pub mod paths;
pub mod row;
pub mod like;
pub mod order;
pub mod table;
pub mod cleanup;
pub mod history;
pub mod listing;
pub mod actions;
