//! The kinds of node that come with the core.

pub mod static_list;

pub use static_list::{static_list, StaticList};
