pub mod engine;
pub mod link;
pub mod page;
pub mod store;
pub mod text;
pub mod traversal;
pub mod url_list;
