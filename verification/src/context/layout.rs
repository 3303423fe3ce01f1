//! Layout, in two phases: first the layout boxes are made, from the leaves
//! up; then, when the engine has solved them, every node is given its
//! rectangle in window coordinates, from the root down.

use vstd::prelude::*;
use crate::engine::{
    added, can_update, is_below, same_boxes, updated, valid_kids, BoxFrame, BoxModel, LayoutBox,
    LayoutEngine, MAX_BOXES,
};
use crate::flags::ChangeFlags;
use crate::geometry::{bounding, Point, Rect};
use crate::id::Id;
use crate::state::{
    asked_below, cleared, is_live, owner, lemma_cleared_wf, lemma_update_keeps_wf, table_wf, AppState,
    NodeState,
};
use crate::style::BoxStyle;
use crate::view::{NodeModel, ViewNode};

verus! {

/// The state of a layout traversal.
pub struct LayoutModel {
    pub nodes: Seq<NodeState>,
    pub boxes: Seq<BoxModel>,
    /// The first corner of the node that contains the one being placed, in
    /// window coordinates.
    pub origin: Point,
}

/// What a layout traversal carries.
pub struct LayoutCx {
    pub app: AppState,
    pub engine: LayoutEngine,
    pub origin: Point,
}

impl View for LayoutCx {
    type V = LayoutModel;

    open spec fn view(&self) -> LayoutModel {
        LayoutModel { nodes: self.app@, boxes: self.engine@, origin: self.origin }
    }
}

/// The flag that layout takes from a node whose box it has made.
pub open spec fn layout_only() -> ChangeFlags {
    ChangeFlags { style: false, layout: true, paint: false }
}

/// The box of the node `id`: the box that the node remembers, where the
/// node is live and the box is one that was made for it, with the node's
/// identifier as its order.
pub open spec fn own_box(st: LayoutModel, id: Id) -> Option<LayoutBox> {
    if is_live(st.nodes, id) {
        match st.nodes[id.0 as int].layout_box {
            Some(b) => if can_update(st.boxes, b) && st.boxes[b.0 as int].order == id.0 {
                Some(b)
            } else {
                None
            },
            None => None,
        }
    } else {
        None
    }
}

/// The box of the node `id` that can be used as it is: the node has a box
/// and did not ask for layout.
pub open spec fn cached(st: LayoutModel, id: Id) -> Option<LayoutBox> {
    if is_live(st.nodes, id) && !st.nodes[id.0 as int].flags.layout {
        own_box(st, id)
    } else {
        None
    }
}

/// The box of the node `id`, brought up to date. A node keeps the box it
/// has: the box is given the box style of the node's computed style and
/// the kids `kids`, in place, and no box is added. Only a node without a
/// box gets a new one, which it remembers from then on. The order of the
/// box is the node's identifier: the box holds those of `kids` that are
/// boxes of nodes created before this one, as all the nodes are that it
/// owns. The node no longer
/// asks for layout, unless a live node that it owns directly still does. A
/// node that is not live has the empty box, and nothing changes.
pub open spec fn boxed(st: LayoutModel, id: Id, kids: Seq<LayoutBox>) -> (LayoutBox, LayoutModel) {
    if is_live(st.nodes, id) {
        let node = st.nodes[id.0 as int];
        let style = node.computed.spec_box_style();
        let made = match own_box(st, id) {
            Some(b) => (b, st.boxes),
            None => added(st.boxes, style, id.0),
        };
        (
            made.0,
            LayoutModel {
                nodes: cleared(
                    st.nodes.update(id.0 as int, NodeState { layout_box: Some(made.0), ..node }),
                    id.0 as int,
                    layout_only(),
                ),
                boxes: updated(made.1, made.0, style, kids),
                origin: st.origin,
            },
        )
    } else {
        (LayoutBox(0), st)
    }
}

/// The layout of the node of `m`; see [`layout_node`].
pub open spec fn layout_view(m: NodeModel, st: LayoutModel) -> (LayoutBox, LayoutModel)
    decreases m, 1int,
{
    layout_node(m, st)
}

/// The layout box of the node of `m`, and the state afterwards. A box that
/// can be used as it is, is; nothing below the node is visited then.
/// Otherwise the boxes of what the node contains are brought up to date
/// first, and then its own.
pub open spec fn layout_node(m: NodeModel, st: LayoutModel) -> (LayoutBox, LayoutModel)
    decreases m, 0int,
{
    match cached(st, m.id) {
        Some(b) => (b, st),
        None => {
            let r = layout_children(m.children, m.children.len(), st);
            boxed(r.1, m.id, r.0)
        },
    }
}

/// The layout boxes of the first `k` of the nodes `ms`, in order.
pub open spec fn layout_children(ms: Seq<NodeModel>, k: nat, st: LayoutModel) -> (
    Seq<LayoutBox>,
    LayoutModel,
)
    decreases ms, k,
{
    if k == 0 || k > ms.len() {
        (Seq::empty(), st)
    } else {
        let before = layout_children(ms, (k - 1) as nat, st);
        let r = layout_view(ms[k - 1], before.1);
        (before.0.push(r.0), r.1)
    }
}

/// The rectangle of a frame, relative to the box that contains it.
pub open spec fn frame_rect(frame: BoxFrame) -> Rect {
    Rect::spec_from_origin_size(
        frame.x as i64,
        frame.y as i64,
        frame.width as i64,
        frame.height as i64,
    )
}

/// The rectangle of the box of the node `id`, in window coordinates: the
/// frame of its box, moved by the origin of the node that contains it. A
/// node without a box has the empty rectangle.
pub open spec fn own_rect(st: LayoutModel, id: Id) -> Rect {
    match st.nodes[id.0 as int].layout_box {
        Some(b) => if b.0 < st.boxes.len() {
            frame_rect(st.boxes[b.0 as int].frame).spec_offset(st.origin)
        } else {
            Rect::spec_zero()
        },
        None => Rect::spec_zero(),
    }
}

/// The table after the node `id`, if it is live, has been given the
/// rectangle `rect`.
pub open spec fn placed(nodes: Seq<NodeState>, id: Id, rect: Rect) -> Seq<NodeState> {
    if is_live(nodes, id) {
        nodes.update(id.0 as int, NodeState { layout_rect: rect, ..nodes[id.0 as int] })
    } else {
        nodes
    }
}

/// Placement of the node of `m` and of everything below it: the rectangle
/// of the node, and the state afterwards. The rectangle is that of the
/// node's box, widened to hold the bounds of what the node contains. A
/// node that is not live has the empty rectangle, and nothing below it is
/// visited.
pub open spec fn place_view(m: NodeModel, st: LayoutModel) -> (Rect, LayoutModel)
    decreases m, 1int,
{
    if !is_live(st.nodes, m.id) {
        (Rect::spec_zero(), st)
    } else {
        let own = own_rect(st, m.id);
        let r = place_node(m, LayoutModel { origin: own.spec_origin(), ..st });
        let rect = match r.0 {
            Some(content) => own.spec_union(content),
            None => own,
        };
        (rect, LayoutModel { nodes: placed(r.1.nodes, m.id, rect), boxes: r.1.boxes, origin: st.origin })
    }
}

/// Placement of everything below the node of `m`: the bounds of what it
/// contains, and the state afterwards. The bounds of a container are the
/// smallest rectangle that holds the rectangles of the nodes it contains,
/// and the empty rectangle where it contains none; a node that is no
/// container has no such bounds.
pub open spec fn place_node(m: NodeModel, st: LayoutModel) -> (Option<Rect>, LayoutModel)
    decreases m, 0int,
{
    if m.composite {
        let r = place_children(m.children, m.children.len(), st);
        (Some(bounding(r.0, r.0.len())), r.1)
    } else {
        (None, st)
    }
}

/// Placement of the first `k` of the nodes `ms`, in order: their
/// rectangles, and the state afterwards.
pub open spec fn place_children(ms: Seq<NodeModel>, k: nat, st: LayoutModel) -> (
    Seq<Rect>,
    LayoutModel,
)
    decreases ms, k,
{
    if k == 0 || k > ms.len() {
        (Seq::empty(), st)
    } else {
        let before = place_children(ms, (k - 1) as nat, st);
        let r = place_view(ms[k - 1], before.1);
        (before.0.push(r.0), r.1)
    }
}

/// Nothing differs between the two tables but which box each node
/// remembers and whether it asks for layout.
pub open spec fn only_boxes_differ(before: Seq<NodeState>, after: Seq<NodeState>) -> bool {
    &&& after.len() == before.len()
    &&& forall|j: int|
        0 <= j < before.len() ==> (#[trigger] after[j]) == (NodeState {
            layout_box: after[j].layout_box,
            flags: ChangeFlags { layout: after[j].flags.layout, ..before[j].flags },
            ..before[j]
        })
}

/// Nothing differs between the two tables but the rectangles of the nodes.
pub open spec fn only_rects_differ(before: Seq<NodeState>, after: Seq<NodeState>) -> bool {
    &&& after.len() == before.len()
    &&& forall|j: int|
        0 <= j < before.len() ==> (#[trigger] after[j]) == (NodeState {
            layout_rect: after[j].layout_rect,
            ..before[j]
        })
}

/// Layout only adds boxes, returns the handle of a box, and hands back
/// the origin it was given. In the table it changes nothing but which box a
/// node remembers and whether it asks for layout, and the node it was asked
/// to lay out no longer does, unless a live node that it owns directly
/// still does.
pub proof fn lemma_layout_view_adds_boxes(m: NodeModel, st: LayoutModel)
    requires
        st.boxes.len() >= 1,
    ensures
        layout_view(m, st).1.origin == st.origin,
        layout_view(m, st).1.boxes.len() >= st.boxes.len(),
        layout_view(m, st).0.0 < layout_view(m, st).1.boxes.len(),
        only_boxes_differ(st.nodes, layout_view(m, st).1.nodes),
        is_live(st.nodes, m.id) && layout_view(m, st).1.nodes[m.id.0 as int].flags.layout
            ==> asked_below(layout_view(m, st).1.nodes, m.id.0 as int),
        table_wf(st.nodes) ==> table_wf(layout_view(m, st).1.nodes),
    decreases m, 1int,
{
    lemma_layout_node_adds_boxes(m, st);
}

/// See [`lemma_layout_view_adds_boxes`].
pub proof fn lemma_layout_node_adds_boxes(m: NodeModel, st: LayoutModel)
    requires
        st.boxes.len() >= 1,
    ensures
        layout_node(m, st).1.origin == st.origin,
        layout_node(m, st).1.boxes.len() >= st.boxes.len(),
        layout_node(m, st).0.0 < layout_node(m, st).1.boxes.len(),
        only_boxes_differ(st.nodes, layout_node(m, st).1.nodes),
        is_live(st.nodes, m.id) && layout_node(m, st).1.nodes[m.id.0 as int].flags.layout
            ==> asked_below(layout_node(m, st).1.nodes, m.id.0 as int),
        table_wf(st.nodes) ==> table_wf(layout_node(m, st).1.nodes),
    decreases m, 0int,
{
    if cached(st, m.id) is None {
        lemma_layout_children_adds_boxes(m.children, m.children.len(), st);
        let below = layout_children(m.children, m.children.len(), st).1;
        if is_live(below.nodes, m.id) {
            let made = layout_node(m, st).1.nodes;
            let node = below.nodes[m.id.0 as int];
            let kept = below.nodes.update(
                m.id.0 as int,
                NodeState { layout_box: made[m.id.0 as int].layout_box, ..node },
            );
            assert(made == cleared(kept, m.id.0 as int, layout_only()));
            assert forall|j: int| owner(kept, j) == owner(made, j) by {
                if 0 <= j < kept.len() {
                    assert(kept[j].parent == made[j].parent);
                }
            }
            if made[m.id.0 as int].flags.layout {
                let j = choose|j: int| #[trigger]
                    owner(kept, j) == Some(m.id.0 as int) && kept[j].alive && kept[j].flags.layout;
                assert(made[j] == kept[j]);
                assert(owner(made, j) == Some(m.id.0 as int));
            }
            if table_wf(st.nodes) {
                lemma_update_keeps_wf(below.nodes, m.id.0 as int, kept[m.id.0 as int]);
                lemma_cleared_wf(kept, m.id.0 as int, layout_only());
            }
        }
        let after = layout_node(m, st).1.nodes;
        assert forall|j: int| 0 <= j < st.nodes.len() implies (#[trigger] after[j]) == (NodeState {
            layout_box: after[j].layout_box,
            flags: ChangeFlags { layout: after[j].flags.layout, ..st.nodes[j].flags },
            ..st.nodes[j]
        }) by {
            assert(below.nodes[j] == (NodeState {
                layout_box: below.nodes[j].layout_box,
                flags: ChangeFlags { layout: below.nodes[j].flags.layout, ..st.nodes[j].flags },
                ..st.nodes[j]
            }));
        }
        if is_live(st.nodes, m.id) {
            assert(below.nodes[m.id.0 as int].alive == st.nodes[m.id.0 as int].alive);
        }
    }
}

/// See [`lemma_layout_view_adds_boxes`].
pub proof fn lemma_layout_children_adds_boxes(ms: Seq<NodeModel>, k: nat, st: LayoutModel)
    requires
        st.boxes.len() >= 1,
    ensures
        layout_children(ms, k, st).1.origin == st.origin,
        layout_children(ms, k, st).1.boxes.len() >= st.boxes.len(),
        only_boxes_differ(st.nodes, layout_children(ms, k, st).1.nodes),
        table_wf(st.nodes) ==> table_wf(layout_children(ms, k, st).1.nodes),
    decreases ms, k,
{
    if k == 0 || k > ms.len() {
    } else {
        let before = layout_children(ms, (k - 1) as nat, st).1;
        lemma_layout_children_adds_boxes(ms, (k - 1) as nat, st);
        lemma_layout_view_adds_boxes(ms[k - 1], before);
        let after = layout_children(ms, k, st).1.nodes;
        assert forall|j: int| 0 <= j < st.nodes.len() implies (#[trigger] after[j]) == (NodeState {
            layout_box: after[j].layout_box,
            flags: ChangeFlags { layout: after[j].flags.layout, ..st.nodes[j].flags },
            ..st.nodes[j]
        }) by {
            assert(before.nodes[j] == (NodeState {
                layout_box: before.nodes[j].layout_box,
                flags: ChangeFlags { layout: before.nodes[j].flags.layout, ..st.nodes[j].flags },
                ..st.nodes[j]
            }));
            assert(after[j] == (NodeState {
                layout_box: after[j].layout_box,
                flags: ChangeFlags { layout: after[j].flags.layout, ..before.nodes[j].flags },
                ..before.nodes[j]
            }));
        }
    }
}

/// Handles that all name boxes of lower order are all kept.
pub proof fn lemma_valid_kids_all(boxes: Seq<BoxModel>, kids: Seq<LayoutBox>, order: u64, k: nat)
    requires
        k <= kids.len(),
        forall|i: int| 0 <= i < k ==> is_below(boxes, #[trigger] kids[i], order),
    ensures
        valid_kids(boxes, kids, order, k) == kids.take(k as int),
    decreases k,
{
    if k == 0 {
        assert(kids.take(0) =~= Seq::empty());
    } else {
        lemma_valid_kids_all(boxes, kids, order, (k - 1) as nat);
        assert(kids.take(k as int) =~= kids.take(k - 1).push(kids[k - 1]));
    }
}

/// The handles that layout returns for the first `k` nodes are one for each
/// node, and each names a box.
pub proof fn lemma_layout_children_handles(ms: Seq<NodeModel>, k: nat, st: LayoutModel)
    requires
        st.boxes.len() >= 1,
        k <= ms.len(),
    ensures
        layout_children(ms, k, st).0.len() == k,
        forall|i: int|
            0 <= i < k ==> (#[trigger] layout_children(ms, k, st).0[i]).0 < layout_children(
                ms,
                k,
                st,
            ).1.boxes.len(),
    decreases k,
{
    if k > 0 {
        let before = layout_children(ms, (k - 1) as nat, st);
        lemma_layout_children_handles(ms, (k - 1) as nat, st);
        lemma_layout_children_adds_boxes(ms, (k - 1) as nat, st);
        lemma_layout_view_adds_boxes(ms[k - 1], before.1);
    }
}

/// A node keeps its box. Where a live node has a box, bringing the box up
/// to date returns the handle the node had, adds no box, and changes no
/// other box: the box has the box style of the node's computed style and
/// those of the kids it was given that are of lower order, and the order
/// and the frame it had.
pub proof fn lemma_boxed_keeps_box(st: LayoutModel, id: Id, kids: Seq<LayoutBox>, b: LayoutBox)
    requires
        own_box(st, id) == Some(b),
    ensures
        boxed(st, id, kids).0 == b,
        boxed(st, id, kids).1.boxes.len() == st.boxes.len(),
        boxed(st, id, kids).1.nodes[id.0 as int].layout_box == Some(b),
        boxed(st, id, kids).1.boxes[b.0 as int] == (BoxModel {
            order: id.0,
            style: st.nodes[id.0 as int].computed.spec_box_style(),
            kids: valid_kids(st.boxes, kids, id.0, kids.len()),
            frame: st.boxes[b.0 as int].frame,
        }),
        forall|i: int|
            0 <= i < st.boxes.len() && i != b.0 ==> (#[trigger] boxed(st, id, kids).1.boxes[i])
                == st.boxes[i],
{
}

/// Every node that had a box has the same box; no box is lost.
pub open spec fn keeps_own_boxes(before: LayoutModel, after: LayoutModel) -> bool {
    &&& after.boxes.len() >= before.boxes.len()
    &&& forall|j: int|
        0 <= j <= u64::MAX && #[trigger] own_box(before, Id(j as u64)) is Some ==> own_box(
            after,
            Id(j as u64),
        ) == own_box(before, Id(j as u64))
}

/// Layout takes no box from a node: a node that had a box has the same box
/// afterwards, whether it was visited or not.
pub proof fn lemma_layout_view_keeps_own_boxes(m: NodeModel, st: LayoutModel)
    requires
        st.boxes.len() >= 1,
    ensures
        keeps_own_boxes(st, layout_view(m, st).1),
    decreases m, 1int,
{
    lemma_layout_node_keeps_own_boxes(m, st);
}

/// See [`lemma_layout_view_keeps_own_boxes`].
pub proof fn lemma_layout_node_keeps_own_boxes(m: NodeModel, st: LayoutModel)
    requires
        st.boxes.len() >= 1,
    ensures
        keeps_own_boxes(st, layout_node(m, st).1),
    decreases m, 0int,
{
    if cached(st, m.id) is None {
        let below = layout_children(m.children, m.children.len(), st);
        lemma_layout_children_keeps_own_boxes(m.children, m.children.len(), st);
        lemma_layout_children_adds_boxes(m.children, m.children.len(), st);
        let made = boxed(below.1, m.id, below.0);
        assert forall|j: int|
            0 <= j <= u64::MAX && #[trigger] own_box(st, Id(j as u64)) is Some implies own_box(
            made.1,
            Id(j as u64),
        ) == own_box(st, Id(j as u64)) by {
            assert(own_box(below.1, Id(j as u64)) == own_box(st, Id(j as u64)));
        }
    }
}

/// See [`lemma_layout_view_keeps_own_boxes`].
pub proof fn lemma_layout_children_keeps_own_boxes(ms: Seq<NodeModel>, k: nat, st: LayoutModel)
    requires
        st.boxes.len() >= 1,
    ensures
        keeps_own_boxes(st, layout_children(ms, k, st).1),
    decreases ms, k,
{
    if k == 0 || k > ms.len() {
    } else {
        let before = layout_children(ms, (k - 1) as nat, st).1;
        lemma_layout_children_keeps_own_boxes(ms, (k - 1) as nat, st);
        lemma_layout_children_adds_boxes(ms, (k - 1) as nat, st);
        lemma_layout_view_keeps_own_boxes(ms[k - 1], before);
        let after = layout_children(ms, k, st).1;
        assert forall|j: int|
            0 <= j <= u64::MAX && #[trigger] own_box(st, Id(j as u64)) is Some implies own_box(
            after,
            Id(j as u64),
        ) == own_box(st, Id(j as u64)) by {
            assert(own_box(before, Id(j as u64)) == own_box(st, Id(j as u64)));
        }
    }
}

/// A node has one box for life. Where a node has a box, layout returns the
/// handle of that box, whether the node asked for layout or not, and the
/// node has the same box afterwards.
pub proof fn lemma_layout_keeps_box(m: NodeModel, st: LayoutModel, b: LayoutBox)
    requires
        st.boxes.len() >= 1,
        own_box(st, m.id) == Some(b),
    ensures
        layout_node(m, st).0 == b,
        own_box(layout_node(m, st).1, m.id) == Some(b),
{
    lemma_layout_node_keeps_own_boxes(m, st);
    assert(own_box(st, Id(m.id.0 as int as u64)) is Some);
    if cached(st, m.id) is None {
        let below = layout_children(m.children, m.children.len(), st);
        lemma_layout_children_keeps_own_boxes(m.children, m.children.len(), st);
        assert(own_box(below.1, Id(m.id.0 as int as u64)) == Some(b));
        lemma_boxed_keeps_box(below.1, m.id, below.0, b);
    }
}

/// A node that is laid out has a box from then on. Where the node of `m` is
/// live and the engine had room, the handle that layout returns is the box
/// that the node has afterwards; by [`lemma_layout_keeps_box`] every later
/// layout returns the same handle.
pub proof fn lemma_layout_gives_box(m: NodeModel, st: LayoutModel)
    requires
        st.boxes.len() >= 1,
        is_live(st.nodes, m.id),
        layout_node(m, st).1.boxes.len() < MAX_BOXES,
    ensures
        own_box(layout_node(m, st).1, m.id) == Some(layout_node(m, st).0),
{
    if cached(st, m.id) is None {
        lemma_layout_children_adds_boxes(m.children, m.children.len(), st);
        let below = layout_children(m.children, m.children.len(), st);
        assert(below.1.nodes[m.id.0 as int].alive == st.nodes[m.id.0 as int].alive);
    }
}

/// Each of the nodes that were laid out has the box that layout returned
/// for it, where the nodes are live and the engine had room.
pub proof fn lemma_layout_children_give_boxes(ms: Seq<NodeModel>, k: nat, st: LayoutModel)
    requires
        st.boxes.len() >= 1,
        k <= ms.len(),
        forall|i: int| 0 <= i < k ==> is_live(st.nodes, (#[trigger] ms[i]).id),
        layout_children(ms, k, st).1.boxes.len() < MAX_BOXES,
    ensures
        layout_children(ms, k, st).0.len() == k,
        forall|i: int|
            0 <= i < k ==> own_box(layout_children(ms, k, st).1, ms[i].id) == Some(
                #[trigger] layout_children(ms, k, st).0[i],
            ),
    decreases k,
{
    if k > 0 {
        let before = layout_children(ms, (k - 1) as nat, st);
        let last = ms[k - 1];
        let after = layout_view(last, before.1);
        lemma_layout_children_adds_boxes(ms, (k - 1) as nat, st);
        lemma_layout_view_adds_boxes(last, before.1);
        lemma_layout_children_give_boxes(ms, (k - 1) as nat, st);
        assert(before.1.nodes[last.id.0 as int].alive == st.nodes[last.id.0 as int].alive);
        lemma_layout_gives_box(last, before.1);
        lemma_layout_view_keeps_own_boxes(last, before.1);
        assert forall|i: int| 0 <= i < k implies own_box(after.1, ms[i].id) == Some(
            #[trigger] layout_children(ms, k, st).0[i],
        ) by {
            if i < k - 1 {
                assert(own_box(before.1, Id(ms[i].id.0 as int as u64)) == Some(before.0[i]));
            }
        }
    }
}

/// The boxes mirror the tree. Take a live node that has to be laid out,
/// and that contains live nodes created before it, as all the nodes are
/// that a node owns. After its layout, where the engine had room, the node
/// has the box that layout returned; the box contains exactly the boxes of
/// the nodes that the node contains, in their order, none missing and none
/// added; and it has the box style of the node's computed style. This
/// holds whichever of the boxes was made first.
pub proof fn lemma_layout_mirrors_tree(m: NodeModel, st: LayoutModel)
    requires
        st.boxes.len() >= 1,
        cached(st, m.id) is None,
        is_live(st.nodes, m.id),
        forall|i: int|
            0 <= i < m.children.len() ==> is_live(st.nodes, (#[trigger] m.children[i]).id)
                && m.children[i].id.0 < m.id.0,
        layout_node(m, st).1.boxes.len() < MAX_BOXES,
    ensures
        ({
            let made = layout_node(m, st);
            let own = made.1.boxes[made.0.0 as int];
            &&& own_box(made.1, m.id) == Some(made.0)
            &&& own.kids == layout_children(m.children, m.children.len(), st).0
            &&& own.kids.len() == m.children.len()
            &&& forall|i: int|
                0 <= i < m.children.len() ==> own_box(made.1, m.children[i].id) == Some(
                    #[trigger] own.kids[i],
                )
            &&& own.style == made.1.nodes[m.id.0 as int].computed.spec_box_style()
        }),
{
    let ms = m.children;
    let below = layout_children(ms, ms.len(), st);
    let made = layout_node(m, st);
    lemma_layout_children_adds_boxes(ms, ms.len(), st);
    assert(below.1.nodes[m.id.0 as int].alive == st.nodes[m.id.0 as int].alive);
    lemma_layout_children_give_boxes(ms, ms.len(), st);
    let order = m.id.0;
    let held = match own_box(below.1, m.id) {
        Some(b) => below.1.boxes,
        None => added(below.1.boxes, below.1.nodes[m.id.0 as int].computed.spec_box_style(), order).1,
    };
    assert forall|i: int| 0 <= i < ms.len() implies is_below(held, #[trigger] below.0[i], order) by {
        assert(own_box(below.1, ms[i].id) == Some(below.0[i]));
    }
    lemma_valid_kids_all(held, below.0, order, below.0.len());
    assert(below.0.take(below.0.len() as int) =~= below.0);
    assert forall|i: int| 0 <= i < ms.len() implies own_box(made.1, ms[i].id) == Some(
        #[trigger] below.0[i],
    ) by {
        assert(own_box(below.1, ms[i].id) == Some(below.0[i]));
    }
}

/// Placement changes no box and hands back the origin it was given. In
/// the table it changes nothing but the rectangles of the nodes.
pub proof fn lemma_place_view_keeps_boxes(m: NodeModel, st: LayoutModel)
    ensures
        place_view(m, st).1.boxes == st.boxes,
        place_view(m, st).1.origin == st.origin,
        only_rects_differ(st.nodes, place_view(m, st).1.nodes),
    decreases m, 1int,
{
    if is_live(st.nodes, m.id) {
        let own = own_rect(st, m.id);
        let inner = LayoutModel { origin: own.spec_origin(), ..st };
        lemma_place_node_keeps_boxes(m, inner);
        let below = place_node(m, inner).1.nodes;
        let after = place_view(m, st).1.nodes;
        assert forall|j: int| 0 <= j < st.nodes.len() implies (#[trigger] after[j]) == (NodeState {
            layout_rect: after[j].layout_rect,
            ..st.nodes[j]
        }) by {
            assert(below[j] == (NodeState { layout_rect: below[j].layout_rect, ..st.nodes[j] }));
        }
    }
}

/// See [`lemma_place_view_keeps_boxes`].
pub proof fn lemma_place_node_keeps_boxes(m: NodeModel, st: LayoutModel)
    ensures
        place_node(m, st).1.boxes == st.boxes,
        place_node(m, st).1.origin == st.origin,
        only_rects_differ(st.nodes, place_node(m, st).1.nodes),
    decreases m, 0int,
{
    if m.composite {
        lemma_place_children_keeps_boxes(m.children, m.children.len(), st);
    }
}

/// See [`lemma_place_view_keeps_boxes`].
pub proof fn lemma_place_children_keeps_boxes(ms: Seq<NodeModel>, k: nat, st: LayoutModel)
    ensures
        place_children(ms, k, st).1.boxes == st.boxes,
        place_children(ms, k, st).1.origin == st.origin,
        place_children(ms, k, st).0.len() == (if k <= ms.len() {
            k
        } else {
            0
        }),
        only_rects_differ(st.nodes, place_children(ms, k, st).1.nodes),
    decreases ms, k,
{
    if k == 0 || k > ms.len() {
    } else {
        let before = place_children(ms, (k - 1) as nat, st).1;
        lemma_place_children_keeps_boxes(ms, (k - 1) as nat, st);
        lemma_place_view_keeps_boxes(ms[k - 1], before);
        let after = place_children(ms, k, st).1.nodes;
        assert forall|j: int| 0 <= j < st.nodes.len() implies (#[trigger] after[j]) == (NodeState {
            layout_rect: after[j].layout_rect,
            ..st.nodes[j]
        }) by {
            assert(before.nodes[j] == (NodeState {
                layout_rect: before.nodes[j].layout_rect,
                ..st.nodes[j]
            }));
            assert(after[j] == (NodeState {
                layout_rect: after[j].layout_rect,
                ..before.nodes[j]
            }));
        }
    }
}

impl LayoutCx {
    pub open spec fn wf(&self) -> bool {
        self.app.wf() && self.engine.wf()
    }

    /// A traversal that starts at the origin of the window.
    pub fn new(app: AppState, engine: LayoutEngine) -> (cx: LayoutCx)
        requires
            app.wf(),
            engine.wf(),
        ensures
            cx.wf(),
            cx.app == app,
            cx.engine == engine,
            cx.origin == Point::spec_zero(),
    {
        LayoutCx { app, engine, origin: Point::zero() }
    }

    /// The box that the node `id` has, if it has one; see [`own_box`].
    pub fn own_box(&self, id: Id) -> (r: Option<LayoutBox>)
        requires
            self.wf(),
        ensures
            r == own_box(self@, id),
    {
        match self.app.node(id) {
            Some(node) => match node.layout_box {
                Some(b) => match self.engine.order(b) {
                    Some(order) => if b.0 > 0 && order == id.0 {
                        Some(b)
                    } else {
                        None
                    },
                    None => None,
                },
                None => None,
            },
            None => None,
        }
    }

    /// The box of the node `id` that can be used as it is, if there is one.
    pub fn cached_box(&self, id: Id) -> (r: Option<LayoutBox>)
        requires
            self.wf(),
        ensures
            r == cached(self@, id),
    {
        match self.app.node(id) {
            Some(node) => {
                if node.flags.layout {
                    None
                } else {
                    self.own_box(id)
                }
            },
            None => None,
        }
    }

    /// Brings the box of the node `id` up to date; see [`boxed`]. The box
    /// contains the boxes `kids` if `has_children`, and nothing otherwise.
    pub fn layout_node(&mut self, id: Id, has_children: bool, kids: Vec<LayoutBox>) -> (r: LayoutBox)
        requires
            old(self).wf(),
        ensures
            final(self).wf(),
            (r, final(self)@) == boxed(
                old(self)@,
                id,
                if has_children {
                    kids@
                } else {
                    Seq::empty()
                },
            ),
    {
        let node: NodeState = match self.app.node(id) {
            Some(n) => n,
            None => {
                return LayoutBox(0);
            },
        };
        let style = node.computed.box_style();
        let b: LayoutBox = match self.own_box(id) {
            Some(b) => b,
            None => self.engine.add(style, id.0),
        };
        if has_children {
            self.engine.update(b, style, &kids);
        } else {
            let none: Vec<LayoutBox> = Vec::new();
            self.engine.update(b, style, &none);
        }
        let mut next: NodeState = node;
        next.layout_box = Some(b);
        self.app.put(id, next);
        self.app.clear(id, ChangeFlags { style: false, layout: true, paint: false });
        b
    }

    /// Brings the layout box of `view` up to date, and those of what it
    /// contains: a node without a box gets one, a node with a box keeps it.
    pub fn layout_view<V: ViewNode + ?Sized>(&mut self, view: &mut V) -> (r: LayoutBox)
        requires
            old(self).wf(),
        ensures
            final(self).wf(),
            final(view).model() == old(view).model(),
            (r, final(self)@) == layout_view(old(view).model(), old(self)@),
    {
        view.layout(self)
    }

    /// Has the engine size and place the box `root` and all that it
    /// contains, within the width and height given (`None` for as much as
    /// the content wants). Only the frames of the boxes change: they become
    /// the engine's solution. Returns `false`, and changes nothing, where
    /// `root` is no box.
    pub fn solve(&mut self, root: LayoutBox, width: Option<u16>, height: Option<u16>) -> (solved: bool)
        requires
            old(self).wf(),
        ensures
            final(self).wf(),
            final(self)@.nodes == old(self)@.nodes,
            final(self)@.origin == old(self)@.origin,
            same_boxes(old(self)@.boxes, final(self)@.boxes),
            solved == (root.0 < old(self)@.boxes.len()),
            !solved ==> final(self)@ == old(self)@,
            solved ==> forall|i: int|
                0 <= i < old(self)@.boxes.len() ==> (#[trigger] final(self)@.boxes[i]).frame == old(
                    self,
                ).engine.solution(root, width, height)[i],
    {
        self.engine.solve(root, width, height)
    }

    /// Places `view` and everything below it, and returns its rectangle in
    /// window coordinates.
    pub fn compute_view_layout<V: ViewNode + ?Sized>(&mut self, view: &mut V) -> (rect: Rect)
        requires
            old(self).wf(),
        ensures
            final(self).wf(),
            final(view).model() == old(view).model(),
            (rect, final(self)@) == place_view(old(view).model(), old(self)@),
    {
        let id = view.id();
        let node: NodeState = match self.app.node(id) {
            Some(n) => n,
            None => {
                return Rect::zero();
            },
        };
        let frame: Option<BoxFrame> = match node.layout_box {
            Some(b) => self.engine.frame(b),
            None => None,
        };
        let own: Rect = match frame {
            Some(f) => Rect::from_origin_size(f.x as i64, f.y as i64, f.width as i64, f.height as i64).offset(
                self.origin,
            ),
            None => Rect::zero(),
        };
        let outer: Point = self.origin;
        self.origin = own.origin();
        let content: Option<Rect> = view.compute_layout(self);
        self.origin = outer;
        let rect: Rect = match content {
            Some(r) => own.union(r),
            None => own,
        };
        match self.app.node(id) {
            Some(now) => {
                let mut next: NodeState = now;
                next.layout_rect = rect;
                self.app.put(id, next);
            },
            None => {},
        }
        rect
    }
}

} // verus!
