//! The state that each traversal carries through the tree.

pub mod event;
pub mod layout;
pub mod paint;
pub mod style;
pub mod update;

pub use event::EventCx;
pub use layout::LayoutCx;
pub use paint::PaintCx;
pub use style::StyleCx;
pub use update::UpdateCx;
