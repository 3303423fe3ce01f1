//! What every node of the tree has to provide.
//!
//! A node is known to the traversals by its model: its identifier, what it
//! contains, and what it does of its own when it is painted or receives an
//! event. What a traversal does to a subtree is a function of the subtree's
//! model and of the state it starts from; each method of [`ViewNode`] is
//! held to that function.

use vstd::prelude::*;
use crate::context::event::{event_node, path_of, EventCx, EventModel};
use crate::context::layout::{layout_node, place_node, LayoutCx};
use crate::context::paint::{paint_node, PaintCx};
use crate::context::style::{style_node, StyleCx};
use crate::context::update::UpdateCx;
use crate::engine::LayoutBox;
use crate::event::Event;
use crate::flags::ChangeFlags;
use crate::geometry::Rect;
use crate::id::Id;
use crate::paint::{Appearance, PaintCommand};
use crate::style::Style;

verus! {

/// A change of state that was produced outside a traversal and is handed to
/// the node it is meant for.
#[derive(Debug)]
pub enum Payload {
    Empty,
    Flag(bool),
    Number(i64),
    Text(String),
}

/// The model of a node and of everything below it.
pub struct NodeModel {
    /// The identifier of the node.
    pub id: Id,
    /// The name of the kind of node, for diagnostics.
    pub name: Seq<char>,
    /// The style that the kind of node brings with it.
    pub intrinsic: Option<Style>,
    /// Whether the node is a container. The bounds of a container are those
    /// of what it contains.
    pub composite: bool,
    /// The nodes it contains, in order: the order of layout and of paint,
    /// and the order in which an event is offered.
    pub children: Seq<NodeModel>,
    /// What the node draws of its own, before what it contains.
    pub content: spec_fn(Appearance) -> Seq<PaintCommand>,
    /// What the node does with an event that nothing in it has handled:
    /// whether it handles the event, and the state afterwards.
    pub handler: spec_fn(Event, EventModel) -> (bool, EventModel),
    /// The payloads that the node can take.
    pub accepts: spec_fn(Payload) -> bool,
    /// What has to be done again after the node has taken a payload.
    pub reports: spec_fn(Payload) -> ChangeFlags,
}

/// The contract of a node of the tree.
pub trait ViewNode {
    /// The model of this node and of everything below it. A kind of node
    /// says here what it is; until it does, nothing is known of it.
    open spec fn model(&self) -> NodeModel {
        arbitrary()
    }

    /// The identifier of the node.
    fn id(&self) -> (r: Id)
        ensures
            r == self.model().id,
    ;

    /// The style that the kind of node brings with it. Of all that the node
    /// itself contributes to its computed style it has the lowest
    /// precedence; only what the node inherits is below it.
    fn view_style(&self) -> (r: Option<Style>)
        ensures
            r == self.model().intrinsic,
    ;

    /// A name for diagnostics.
    fn debug_name(&self) -> (r: String)
        ensures
            r@ == self.model().name,
    ;

    /// Applies a change of state that was produced outside a traversal, and
    /// reports what has to be done again because of it. Handing a node a
    /// payload that it cannot take is a mistake of the caller.
    fn update(&mut self, cx: &mut UpdateCx, state: Payload) -> (r: ChangeFlags)
        requires
            old(cx).wf(),
            (old(self).model().accepts)(state),
        ensures
            final(cx).wf(),
            final(self).model().id == old(self).model().id,
            r == (old(self).model().reports)(state),
    ;

    /// Resolves the style of everything below the node.
    fn style(&mut self, cx: &mut StyleCx)
        requires
            old(cx).wf(),
        ensures
            final(cx).wf(),
            final(self).model() == old(self).model(),
            final(cx)@ == style_node(old(self).model(), old(cx)@),
    ;

    /// Brings the layout box of the node up to date, after those of what it
    /// contains, and returns its handle: the box that the node has, or a
    /// new one where it has none.
    fn layout(&mut self, cx: &mut LayoutCx) -> (r: LayoutBox)
        requires
            old(cx).wf(),
        ensures
            final(cx).wf(),
            final(self).model() == old(self).model(),
            (r, final(cx)@) == layout_node(old(self).model(), old(cx)@),
    ;

    /// Places everything below the node, once the engine has solved the
    /// boxes, and returns the bounds of what the node contains: `None` for
    /// a node that is no container.
    fn compute_layout(&mut self, cx: &mut LayoutCx) -> (r: Option<Rect>)
        requires
            old(cx).wf(),
        ensures
            final(cx).wf(),
            final(self).model() == old(self).model(),
            (r, final(cx)@) == place_node(old(self).model(), old(cx)@),
    ;

    /// Offers an event to what the node contains and then to the node
    /// itself; returns whether it was handled. With a path, only the node
    /// it names next is offered the event.
    fn event(&mut self, cx: &mut EventCx, id_path: Option<&[Id]>, event: Event) -> (r: bool)
        requires
            old(cx).wf(),
        ensures
            final(cx).wf(),
            final(self).model() == old(self).model(),
            (r, final(cx)@) == event_node(old(self).model(), path_of(id_path), event, old(cx)@),
    ;

    /// Emits the node's own drawing and then that of what it contains.
    fn paint(&mut self, cx: &mut PaintCx)
        requires
            old(cx).wf(),
        ensures
            final(cx).wf(),
            final(self).model() == old(self).model(),
            final(cx)@ == paint_node(old(self).model(), old(cx)@),
    ;
}

/// The models of a sequence of nodes.
pub open spec fn models(views: Seq<Box<dyn ViewNode>>) -> Seq<NodeModel> {
    Seq::new(views.len(), |i: int| views[i].model())
}

} // verus!
