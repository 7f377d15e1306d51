//! Tournament bracket bookkeeping for a live elimination-match server:
//! the stored records, the bracket tree, navigation through the rounds,
//! session handling and the decisions behind each request.

pub mod text;
pub mod ids;
pub mod model;
pub mod bracket_tree;
pub mod store;
pub mod navigation;
pub mod auth;
pub mod flow;
pub mod live;
pub mod db;
