//! Runtime core of a retained-mode, reactive user-interface toolkit.
//!
//! A user interface is a tree of view nodes. What each node looks like is
//! kept in a table of per-node state, keyed by the node's identifier, and is
//! re-derived by four traversals of the tree: style resolution, layout,
//! event dispatch and paint. Reactive signals record which computations read
//! them, and change flags record which traversals have to run again.
//!
//! - [`id`] and [`state`]: node identifiers and the table of per-node state.
//! - [`flags`]: the change flags.
//! - [`signal`]: the signal store.
//! - [`style`]: style properties and how a computed style is merged.
//! - [`geometry`], [`event`], [`paint`]: rectangles, input events, drawing
//!   commands.
//! - [`engine`]: the layout boxes and the engine that solves them.
//! - [`view`]: the contract of a node.
//! - [`context`]: what each traversal carries and does.
//! - [`views`]: the kinds of node that come with the core.
//! - [`driver`]: one turn of the loop around the tree.
//! - [`tree`]: how the tree and the table agree, and what follows from it.
//! - [`mirror`]: how the layout boxes mirror the tree.
//! - [`steady`]: a second style traversal changes nothing.
//! - [`once`]: each tracked read is evaluated once in a traversal.

pub mod context;
pub mod driver;
pub mod engine;
pub mod event;
pub mod flags;
pub mod geometry;
pub mod id;
pub mod mirror;
pub mod once;
pub mod paint;
pub mod signal;
pub mod state;
pub mod steady;
pub mod style;
pub mod tree;
pub mod view;
pub mod views;

pub use views::{static_list, StaticList};
