//! How the layout boxes mirror the tree. The table, the engine and the tree
//! agree where every node of the tree that can use its box as it is has a
//! box that contains exactly the boxes of the nodes it contains, in order.
//! Layout keeps that, and leaves the boxes mirroring the whole tree.

use vstd::prelude::*;
use crate::context::layout::{
    boxed, cached, layout_children, layout_view, lemma_layout_children_adds_boxes,
    lemma_layout_mirrors_tree, lemma_layout_view_adds_boxes, lemma_place_view_keeps_boxes,
    own_box, place_view, LayoutModel,
};
use crate::context::paint::{lemma_paint_view, paint_view, PaintModel};
use crate::context::style::{
    lemma_style_view_settles, observed, restyled, style_children, style_only, style_view,
    StyleModel,
};
use crate::driver::{at_root, laid_out, styled};
use crate::engine::{same_boxes, BoxModel, LayoutBox, MAX_BOXES};
use crate::flags::ChangeFlags;
use crate::geometry::Point;
use crate::id::Id;
use crate::signal::SignalModel;
use crate::state::{
    is_live, lemma_owners_come_later, lemma_owns_up, lemma_requested, owner, owns, table_wf,
    NodeState,
};
use crate::style::{resolved, Interaction, Style};
use crate::tree::{
    lemma_layout_keeps_shape, lemma_registered_by_shape, lemma_siblings_apart, registered,
    same_shape,
};
use crate::view::NodeModel;

verus! {

/// `id` is the identifier of the node of `m` or of a node below it.
pub open spec fn in_tree(m: NodeModel, id: Id) -> bool
    decreases m,
{
    m.id == id || exists|i: int| 0 <= i < m.children.len() && in_tree(#[trigger] m.children[i], id)
}

/// `id` is the identifier of a node in the tree of one of the first `k` of
/// the nodes `ms`.
pub open spec fn in_trees(ms: Seq<NodeModel>, k: nat, id: Id) -> bool {
    exists|i: int| 0 <= i < k && i < ms.len() && in_tree(#[trigger] ms[i], id)
}

/// Nothing differs between the two states but what belongs to the nodes
/// `ids`: their entries in the table, their boxes, and the boxes that were
/// added, which are theirs. No box has changed its order.
pub open spec fn touches_only(before: LayoutModel, after: LayoutModel, ids: Set<Id>) -> bool {
    &&& after.nodes.len() == before.nodes.len()
    &&& after.boxes.len() >= before.boxes.len()
    &&& forall|id: Id|
        id.0 < before.nodes.len() && !(#[trigger] ids.contains(id)) ==> after.nodes[id.0 as int]
            == before.nodes[id.0 as int]
    &&& forall|b: int|
        0 <= b < before.boxes.len() ==> (#[trigger] after.boxes[b]).order == before.boxes[b].order
    &&& forall|b: int|
        0 <= b < before.boxes.len() && !ids.contains(Id(before.boxes[b].order))
            ==> #[trigger] after.boxes[b] == before.boxes[b]
    &&& forall|b: int|
        before.boxes.len() <= b < after.boxes.len() ==> ids.contains(
            Id((#[trigger] after.boxes[b]).order),
        )
}

/// What two steps touch, one after the other, is what either touches.
pub proof fn lemma_touches_chain(
    a: LayoutModel,
    b: LayoutModel,
    c: LayoutModel,
    first: Set<Id>,
    second: Set<Id>,
    both: Set<Id>,
)
    requires
        touches_only(a, b, first),
        touches_only(b, c, second),
        first.subset_of(both),
        second.subset_of(both),
    ensures
        touches_only(a, c, both),
{
    assert forall|id: Id| id.0 < a.nodes.len() && !(#[trigger] both.contains(id)) implies c.nodes[id.0 as int]
        == a.nodes[id.0 as int] by {
        assert(!first.contains(id) && !second.contains(id));
    }
    assert forall|x: int| 0 <= x < a.boxes.len() implies (#[trigger] c.boxes[x]).order
        == a.boxes[x].order by {
        assert(b.boxes[x].order == a.boxes[x].order);
    }
    assert forall|x: int|
        0 <= x < a.boxes.len() && !both.contains(Id(a.boxes[x].order)) implies #[trigger] c.boxes[x]
        == a.boxes[x] by {
        assert(b.boxes[x] == a.boxes[x]);
    }
    assert forall|x: int| a.boxes.len() <= x < c.boxes.len() implies both.contains(
        Id((#[trigger] c.boxes[x]).order),
    ) by {
        if x < b.boxes.len() {
            assert(first.contains(Id(b.boxes[x].order)));
            assert(c.boxes[x].order == b.boxes[x].order);
        } else {
            assert(second.contains(Id(c.boxes[x].order)));
        }
    }
}

/// The identifiers of the tree of `m`.
pub open spec fn tree_ids(m: NodeModel) -> Set<Id> {
    Set::new(|id: Id| in_tree(m, id))
}

/// The identifiers of the trees of the first `k` of the nodes `ms`.
pub open spec fn trees_ids(ms: Seq<NodeModel>, k: nat) -> Set<Id> {
    Set::new(|id: Id| in_trees(ms, k, id))
}

/// Bringing the box of one node up to date touches that node alone.
pub proof fn lemma_boxed_touches(st: LayoutModel, id: Id, kids: Seq<LayoutBox>)
    requires
        st.boxes.len() >= 1,
    ensures
        touches_only(st, boxed(st, id, kids).1, set![id]),
{
    let after = boxed(st, id, kids).1;
    if is_live(st.nodes, id) {
        assert forall|x: Id| x.0 < st.nodes.len() && !(#[trigger] set![id].contains(x)) implies after.nodes[x.0 as int]
            == st.nodes[x.0 as int] by {
            assert(x.0 != id.0);
        }
    }
}

/// Layout touches the nodes of the tree it was asked to lay out, and no
/// other.
pub proof fn lemma_layout_view_touches(m: NodeModel, st: LayoutModel)
    requires
        st.boxes.len() >= 1,
    ensures
        touches_only(st, layout_view(m, st).1, tree_ids(m)),
    decreases m, 1int,
{
    if cached(st, m.id) is None {
        let below = layout_children(m.children, m.children.len(), st);
        lemma_layout_children_touches(m.children, m.children.len(), st);
        lemma_layout_children_adds_boxes(m.children, m.children.len(), st);
        lemma_boxed_touches(below.1, m.id, below.0);
        assert(set![m.id].subset_of(tree_ids(m)));
        assert(trees_ids(m.children, m.children.len()).subset_of(tree_ids(m))) by {
            assert forall|id: Id| trees_ids(m.children, m.children.len()).contains(id) implies tree_ids(
                m,
            ).contains(id) by {
                let i = choose|i: int|
                    0 <= i < m.children.len() && in_tree(#[trigger] m.children[i], id);
                assert(in_tree(m, id));
            }
        }
        lemma_touches_chain(
            st,
            below.1,
            boxed(below.1, m.id, below.0).1,
            trees_ids(m.children, m.children.len()),
            set![m.id],
            tree_ids(m),
        );
    }
}

/// See [`lemma_layout_view_touches`].
pub proof fn lemma_layout_children_touches(ms: Seq<NodeModel>, k: nat, st: LayoutModel)
    requires
        st.boxes.len() >= 1,
    ensures
        touches_only(st, layout_children(ms, k, st).1, trees_ids(ms, k)),
    decreases ms, k,
{
    if k == 0 || k > ms.len() {
    } else {
        let before = layout_children(ms, (k - 1) as nat, st);
        lemma_layout_children_touches(ms, (k - 1) as nat, st);
        lemma_layout_children_adds_boxes(ms, (k - 1) as nat, st);
        lemma_layout_view_touches(ms[k - 1], before.1);
        assert(trees_ids(ms, (k - 1) as nat).subset_of(trees_ids(ms, k))) by {
            assert forall|id: Id| trees_ids(ms, (k - 1) as nat).contains(id) implies trees_ids(
                ms,
                k,
            ).contains(id) by {
                let i = choose|i: int| 0 <= i < k - 1 && i < ms.len() && in_tree(#[trigger] ms[i], id);
                assert(in_trees(ms, k, id));
            }
        }
        assert(tree_ids(ms[k - 1]).subset_of(trees_ids(ms, k))) by {
            assert forall|id: Id| tree_ids(ms[k - 1]).contains(id) implies trees_ids(ms, k).contains(
                id,
            ) by {
                assert(in_tree(ms[k - 1], id));
                assert(in_trees(ms, k, id));
            }
        }
        lemma_touches_chain(
            st,
            before.1,
            layout_view(ms[k - 1], before.1).1,
            trees_ids(ms, (k - 1) as nat),
            tree_ids(ms[k - 1]),
            trees_ids(ms, k),
        );
    }
}

/// Every node of the tree of `m` is live.
pub open spec fn tree_live(m: NodeModel, nodes: Seq<NodeState>) -> bool
    decreases m,
{
    is_live(nodes, m.id) && forall|i: int|
        0 <= i < m.children.len() ==> tree_live(#[trigger] m.children[i], nodes)
}

/// The box of the node of `m` mirrors the node: the node has a box, each
/// node that it contains has a box, and the box contains exactly those
/// boxes, in the order of the nodes.
pub open spec fn box_mirrors(m: NodeModel, st: LayoutModel) -> bool {
    match own_box(st, m.id) {
        Some(b) => {
            &&& st.boxes[b.0 as int].kids.len() == m.children.len()
            &&& forall|i: int|
                0 <= i < m.children.len() ==> own_box(st, (#[trigger] m.children[i]).id) == Some(
                    st.boxes[b.0 as int].kids[i],
                )
        },
        None => false,
    }
}

/// The boxes mirror the tree of `m`: the box of every node of the tree
/// mirrors the node.
pub open spec fn mirrored(m: NodeModel, st: LayoutModel) -> bool
    decreases m,
{
    box_mirrors(m, st) && forall|i: int|
        0 <= i < m.children.len() ==> mirrored(#[trigger] m.children[i], st)
}

/// The table, the engine and the tree of `m` agree: every node of the tree
/// that can use its box as it is has a box that mirrors it. A new engine
/// agrees with every table and tree, asking for layout keeps the
/// agreement, and so does layout.
pub open spec fn tidy(m: NodeModel, st: LayoutModel) -> bool
    decreases m,
{
    (cached(st, m.id) is Some ==> box_mirrors(m, st)) && forall|i: int|
        0 <= i < m.children.len() ==> tidy(#[trigger] m.children[i], st)
}

/// Boxes that mirror a tree agree with it.
pub proof fn lemma_mirrored_is_tidy(m: NodeModel, st: LayoutModel)
    requires
        mirrored(m, st),
    ensures
        tidy(m, st),
    decreases m,
{
    assert forall|i: int| 0 <= i < m.children.len() implies tidy(#[trigger] m.children[i], st) by {
        lemma_mirrored_is_tidy(m.children[i], st);
    }
}

/// An engine in which no box was made agrees with every table and tree.
pub proof fn lemma_new_engine_is_tidy(m: NodeModel, st: LayoutModel)
    requires
        st.boxes.len() <= 1,
    ensures
        tidy(m, st),
    decreases m,
{
    assert forall|i: int| 0 <= i < m.children.len() implies tidy(#[trigger] m.children[i], st) by {
        lemma_new_engine_is_tidy(m.children[i], st);
    }
}

/// The two states have the same boxes but for their frames, and the same
/// nodes are live in both and remember the same boxes.
pub open spec fn same_layout_boxes(before: LayoutModel, after: LayoutModel) -> bool {
    &&& same_boxes(before.boxes, after.boxes)
    &&& after.nodes.len() == before.nodes.len()
    &&& forall|j: int|
        0 <= j < before.nodes.len() ==> (#[trigger] after.nodes[j]).alive == before.nodes[j].alive
            && after.nodes[j].layout_box == before.nodes[j].layout_box
}

/// Which box a node has does not depend on the frames of the boxes, nor on
/// anything in the table but which nodes are live and which box each
/// remembers.
pub proof fn lemma_same_own_boxes(before: LayoutModel, after: LayoutModel)
    requires
        same_layout_boxes(before, after),
    ensures
        forall|id: Id| own_box(after, id) == own_box(before, id),
{
    assert forall|id: Id| own_box(after, id) == own_box(before, id) by {
        if id.0 < before.nodes.len() {
            assert(after.nodes[id.0 as int].alive == before.nodes[id.0 as int].alive);
            match before.nodes[id.0 as int].layout_box {
                Some(b) => {
                    if b.0 < before.boxes.len() {
                        assert(after.boxes[b.0 as int].order == before.boxes[b.0 as int].order);
                    }
                },
                None => {},
            }
        }
    }
}

/// Boxes that mirror a tree go on doing so until the next layout: solving
/// the boxes, placing the nodes, painting, resolving styles and asking for
/// traversals change neither what a box contains nor which box a node has.
pub proof fn lemma_mirrored_is_kept(m: NodeModel, before: LayoutModel, after: LayoutModel)
    requires
        mirrored(m, before),
        same_layout_boxes(before, after),
    ensures
        mirrored(m, after),
    decreases m,
{
    lemma_same_own_boxes(before, after);
    let b = own_box(before, m.id).unwrap();
    assert(after.boxes[b.0 as int].kids == before.boxes[b.0 as int].kids);
    assert forall|i: int| 0 <= i < m.children.len() implies mirrored(#[trigger] m.children[i], after) by {
        lemma_mirrored_is_kept(m.children[i], before, after);
    }
}

/// The agreement is kept by whatever changes no box but for its frame, and
/// in the table changes neither which nodes are live nor which box a node
/// remembers, and takes no request for layout back.
pub proof fn lemma_tidy_is_kept(m: NodeModel, before: LayoutModel, after: LayoutModel)
    requires
        tidy(m, before),
        same_layout_boxes(before, after),
        forall|j: int|
            0 <= j < before.nodes.len() && before.nodes[j].flags.layout ==> (
            #[trigger] after.nodes[j]).flags.layout,
    ensures
        tidy(m, after),
    decreases m,
{
    lemma_same_own_boxes(before, after);
    if cached(after, m.id) is Some {
        assert(after.nodes[m.id.0 as int].alive == before.nodes[m.id.0 as int].alive);
        assert(cached(before, m.id) is Some);
        let b = own_box(before, m.id).unwrap();
        assert(after.boxes[b.0 as int].kids == before.boxes[b.0 as int].kids);
    }
    assert forall|i: int| 0 <= i < m.children.len() implies tidy(#[trigger] m.children[i], after) by {
        lemma_tidy_is_kept(m.children[i], before, after);
    }
}

/// A node of a tree that the table knows is owned by the root of the tree.
pub proof fn lemma_in_tree_owned(m: NodeModel, nodes: Seq<NodeState>, id: Id)
    requires
        registered(m, nodes),
        in_tree(m, id),
    ensures
        owns(nodes, m.id.0 as int, id.0 as int),
    decreases m,
{
    if m.id == id {
        assert(owns(nodes, m.id.0 as int, m.id.0 as int));
    } else {
        let i = choose|i: int| 0 <= i < m.children.len() && in_tree(#[trigger] m.children[i], id);
        lemma_in_tree_owned(m.children[i], nodes, id);
        lemma_owns_up(nodes, m.id.0 as int, m.children[i].id.0 as int, id.0 as int);
    }
}

/// The trees of two nodes with the same owner have no node in common, in a
/// table that knows both.
pub proof fn lemma_trees_apart(a: NodeModel, b: NodeModel, nodes: Seq<NodeState>, root: int, id: Id)
    requires
        registered(a, nodes),
        registered(b, nodes),
        owner(nodes, a.id.0 as int) == Some(root),
        owner(nodes, b.id.0 as int) == Some(root),
        a.id != b.id,
        in_tree(a, id),
    ensures
        !in_tree(b, id),
{
    if in_tree(b, id) {
        lemma_in_tree_owned(a, nodes, id);
        lemma_in_tree_owned(b, nodes, id);
        lemma_siblings_apart(nodes, root, a.id.0 as int, b.id.0 as int, id.0 as int);
    }
}

/// The node of `m` is not among the nodes below it, in a tree that the
/// table knows.
pub proof fn lemma_root_is_not_below(m: NodeModel, nodes: Seq<NodeState>)
    requires
        registered(m, nodes),
    ensures
        !in_trees(m.children, m.children.len(), m.id),
        forall|i: int| 0 <= i < m.children.len() ==> !in_tree(#[trigger] m.children[i], m.id),
{
    let ms = m.children;
    assert forall|i: int| 0 <= i < ms.len() implies !in_tree(#[trigger] ms[i], m.id) by {
        if in_tree(ms[i], m.id) {
            lemma_in_tree_owned(ms[i], nodes, m.id);
            lemma_owners_come_later(nodes, ms[i].id.0 as int, m.id.0 as int);
            assert(owner(nodes, ms[i].id.0 as int) == Some(m.id.0 as int));
        }
    }
}

/// Whether every node of a tree is live depends on the table only in which
/// nodes are live.
pub proof fn lemma_tree_live_by_shape(m: NodeModel, a: Seq<NodeState>, b: Seq<NodeState>)
    requires
        tree_live(m, a),
        same_shape(a, b),
    ensures
        tree_live(m, b),
    decreases m,
{
    assert(b[m.id.0 as int].alive == a[m.id.0 as int].alive);
    assert forall|i: int| 0 <= i < m.children.len() implies tree_live(#[trigger] m.children[i], b) by {
        lemma_tree_live_by_shape(m.children[i], a, b);
    }
}

/// A step that touches none of the nodes of a tree leaves each of them
/// with the box it had.
pub proof fn lemma_untouched_box(before: LayoutModel, after: LayoutModel, ids: Set<Id>, id: Id)
    requires
        touches_only(before, after, ids),
        !ids.contains(id),
    ensures
        own_box(after, id) == own_box(before, id),
        cached(after, id) == cached(before, id),
        own_box(before, id) matches Some(b) ==> after.boxes[b.0 as int] == before.boxes[b.0 as int],
{
    if id.0 < before.nodes.len() {
        assert(after.nodes[id.0 as int] == before.nodes[id.0 as int]);
        match before.nodes[id.0 as int].layout_box {
            Some(b) => {
                if b.0 < before.boxes.len() {
                    assert(after.boxes[b.0 as int].order == before.boxes[b.0 as int].order);
                    if before.boxes[b.0 as int].order == id.0 {
                        assert(!ids.contains(Id(before.boxes[b.0 as int].order)));
                        assert(after.boxes[b.0 as int] == before.boxes[b.0 as int]);
                    }
                } else if b.0 < after.boxes.len() {
                    assert(ids.contains(Id(after.boxes[b.0 as int].order)));
                }
            },
            None => {},
        }
    }
}

/// A step that touches none of the nodes of a tree leaves the tree
/// mirrored where it was, and in agreement where it was.
pub proof fn lemma_untouched_tree(t: NodeModel, before: LayoutModel, after: LayoutModel, ids: Set<Id>)
    requires
        touches_only(before, after, ids),
        forall|id: Id| in_tree(t, id) ==> !ids.contains(id),
    ensures
        mirrored(t, before) ==> mirrored(t, after),
        tidy(t, before) ==> tidy(t, after),
    decreases t,
{
    assert(in_tree(t, t.id));
    lemma_untouched_box(before, after, ids, t.id);
    assert forall|i: int| 0 <= i < t.children.len() implies own_box(
        after,
        (#[trigger] t.children[i]).id,
    ) == own_box(before, t.children[i].id) by {
        assert(in_tree(t.children[i], t.children[i].id));
        assert(in_tree(t, t.children[i].id));
        lemma_untouched_box(before, after, ids, t.children[i].id);
    }
    assert(box_mirrors(t, before) ==> box_mirrors(t, after));
    assert forall|i: int| 0 <= i < t.children.len() implies (mirrored(
        #[trigger] t.children[i],
        before,
    ) ==> mirrored(t.children[i], after)) && (tidy(t.children[i], before) ==> tidy(
        t.children[i],
        after,
    )) by {
        assert forall|id: Id| in_tree(t.children[i], id) implies !ids.contains(id) by {
            assert(in_tree(t, id));
        }
        lemma_untouched_tree(t.children[i], before, after, ids);
    }
}

/// A tree whose root can use its box as it is, is mirrored, where the
/// table, the engine and the tree agree: no node of it asks for layout.
pub proof fn lemma_clean_is_mirrored(m: NodeModel, st: LayoutModel)
    requires
        table_wf(st.nodes),
        registered(m, st.nodes),
        tree_live(m, st.nodes),
        tidy(m, st),
        cached(st, m.id) is Some,
    ensures
        mirrored(m, st),
    decreases m,
{
    assert forall|i: int| 0 <= i < m.children.len() implies mirrored(#[trigger] m.children[i], st) by {
        let c = m.children[i];
        assert(owner(st.nodes, c.id.0 as int) == Some(m.id.0 as int));
        assert(tree_live(c, st.nodes));
        assert(st.nodes[c.id.0 as int].alive);
        assert(!st.nodes[c.id.0 as int].flags.layout);
        assert(own_box(st, c.id) is Some);
        lemma_clean_is_mirrored(c, st);
    }
}

/// The boxes mirror the tree. Take a tree that the table knows and whose
/// nodes are live, and a table and an engine that agree with it. After the
/// layout of the tree, where the engine had room, the boxes mirror the
/// whole tree: every node of it has a box, and the box contains exactly the
/// boxes of the nodes that the node contains, in their order.
pub proof fn lemma_layout_view_mirrors(m: NodeModel, st: LayoutModel)
    requires
        table_wf(st.nodes),
        st.boxes.len() >= 1,
        registered(m, st.nodes),
        tree_live(m, st.nodes),
        tidy(m, st),
        layout_view(m, st).1.boxes.len() < MAX_BOXES,
    ensures
        mirrored(m, layout_view(m, st).1),
        tidy(m, layout_view(m, st).1),
    decreases m, 1int,
{
    if cached(st, m.id) is Some {
        lemma_clean_is_mirrored(m, st);
    } else {
        let ms = m.children;
        let below = layout_children(ms, ms.len(), st);
        let made = boxed(below.1, m.id, below.0);
        lemma_layout_children_adds_boxes(ms, ms.len(), st);
        assert(below.1.nodes[m.id.0 as int].alive == st.nodes[m.id.0 as int].alive);
        assert forall|i: int| 0 <= i < ms.len() implies is_live(st.nodes, (#[trigger] ms[i]).id)
            && ms[i].id.0 < m.id.0 by {
            assert(tree_live(ms[i], st.nodes));
            assert(owner(st.nodes, ms[i].id.0 as int) == Some(m.id.0 as int));
        }
        lemma_layout_children_mirror(ms, ms.len(), st, m.id);
        lemma_boxed_touches(below.1, m.id, below.0);
        lemma_root_is_not_below(m, st.nodes);
        assert forall|i: int| 0 <= i < ms.len() implies mirrored(#[trigger] ms[i], made.1) by {
            lemma_untouched_tree(ms[i], below.1, made.1, set![m.id]);
        }
        lemma_layout_mirrors_tree(m, st);
    }
    lemma_mirrored_is_tidy(m, layout_view(m, st).1);
}

/// See [`lemma_layout_view_mirrors`]: the same of the first `k` of the
/// nodes `ms`, which all have the owner `root`. The others still agree.
pub proof fn lemma_layout_children_mirror(ms: Seq<NodeModel>, k: nat, st: LayoutModel, root: Id)
    requires
        table_wf(st.nodes),
        st.boxes.len() >= 1,
        k <= ms.len(),
        forall|j: int|
            0 <= j < ms.len() ==> {
                &&& registered(#[trigger] ms[j], st.nodes)
                &&& owner(st.nodes, ms[j].id.0 as int) == Some(root.0 as int)
                &&& tree_live(ms[j], st.nodes)
                &&& tidy(ms[j], st)
            },
        forall|i: int, j: int|
            0 <= i < j < ms.len() ==> (#[trigger] ms[i]).id != (#[trigger] ms[j]).id,
        layout_children(ms, k, st).1.boxes.len() < MAX_BOXES,
    ensures
        forall|j: int| 0 <= j < k ==> mirrored(#[trigger] ms[j], layout_children(ms, k, st).1),
        forall|j: int| k <= j < ms.len() ==> tidy(#[trigger] ms[j], layout_children(ms, k, st).1),
    decreases ms, k,
{
    if k > 0 {
        let before = layout_children(ms, (k - 1) as nat, st).1;
        let c = ms[k - 1];
        let after = layout_view(c, before).1;
        lemma_layout_children_adds_boxes(ms, (k - 1) as nat, st);
        lemma_layout_view_adds_boxes(c, before);
        lemma_layout_children_mirror(ms, (k - 1) as nat, st, root);
        lemma_layout_keeps_shape(st.nodes, before.nodes);
        lemma_registered_by_shape(c, st.nodes, before.nodes);
        lemma_tree_live_by_shape(c, st.nodes, before.nodes);
        lemma_layout_view_mirrors(c, before);
        lemma_layout_view_touches(c, before);
        assert forall|j: int| 0 <= j < ms.len() && j != k - 1 implies (mirrored(
            #[trigger] ms[j],
            before,
        ) ==> mirrored(ms[j], after)) && (tidy(ms[j], before) ==> tidy(ms[j], after)) by {
            assert forall|id: Id| in_tree(ms[j], id) implies !tree_ids(c).contains(id) by {
                if j < k - 1 {
                    assert(ms[j].id != ms[k - 1].id);
                } else {
                    assert(ms[k - 1].id != ms[j].id);
                }
                lemma_trees_apart(ms[j], c, st.nodes, root.0 as int, id);
            }
            lemma_untouched_tree(ms[j], before, after, tree_ids(c));
        }
    }
}

/// Giving a node its computed style changes neither which box a node
/// remembers nor which nodes are live, and takes no request for layout
/// back.
pub proof fn lemma_restyled_keeps_boxes(nodes: Seq<NodeState>, id: Id, state: Interaction, computed: Style)
    requires
        id.0 < nodes.len(),
    ensures
        restyled(nodes, id, state, computed).len() == nodes.len(),
        forall|j: int|
            0 <= j < nodes.len() ==> {
                &&& (#[trigger] restyled(nodes, id, state, computed)[j]).alive == nodes[j].alive
                &&& restyled(nodes, id, state, computed)[j].layout_box == nodes[j].layout_box
                &&& nodes[j].flags.layout ==> restyled(nodes, id, state, computed)[j].flags.layout
            },
{
    let node = nodes[id.0 as int];
    let stored = nodes.update(
        id.0 as int,
        NodeState {
            interaction: state,
            computed,
            flags: node.flags.spec_difference(style_only()),
            ..node
        },
    );
    lemma_requested(stored, id.0 as int, ChangeFlags::spec_layout());
    lemma_requested(stored, id.0 as int, ChangeFlags::spec_paint());
    let after = restyled(nodes, id, state, computed);
    assert forall|j: int| 0 <= j < nodes.len() implies {
        &&& (#[trigger] after[j]).alive == nodes[j].alive
        &&& after[j].layout_box == nodes[j].layout_box
        &&& nodes[j].flags.layout ==> after[j].flags.layout
    } by {
        assert(stored[j].alive == nodes[j].alive);
        assert(stored[j].layout_box == nodes[j].layout_box);
        assert(nodes[j].flags.layout ==> stored[j].flags.layout);
    }
}

/// A style traversal changes neither which box a node remembers nor which
/// nodes are live, and takes no request for layout back.
pub proof fn lemma_style_view_keeps_boxes(m: NodeModel, st: StyleModel)
    ensures
        style_view(m, st).nodes.len() == st.nodes.len(),
        forall|j: int|
            0 <= j < st.nodes.len() ==> {
                &&& (#[trigger] style_view(m, st).nodes[j]).alive == st.nodes[j].alive
                &&& style_view(m, st).nodes[j].layout_box == st.nodes[j].layout_box
                &&& st.nodes[j].flags.layout ==> style_view(m, st).nodes[j].flags.layout
            },
    decreases m, 1int,
{
    if !is_live(st.nodes, m.id) || (!st.nodes[m.id.0 as int].flags.style && !st.forced) {
    } else {
        let node = st.nodes[m.id.0 as int];
        let found = observed(node, st.signals);
        let computed = resolved(st.inherited, m.intrinsic, node.sheet, found.0);
        let inner = StyleModel {
            nodes: restyled(st.nodes, m.id, found.0, computed),
            signals: found.1,
            inherited: computed.spec_inheritable(),
            forced: st.forced || computed.spec_inheritable() != node.computed.spec_inheritable(),
        };
        lemma_restyled_keeps_boxes(st.nodes, m.id, found.0, computed);
        lemma_style_children_keep_boxes(m.children, m.children.len(), inner);
        let after = style_view(m, st).nodes;
        assert forall|j: int| 0 <= j < st.nodes.len() implies {
            &&& (#[trigger] after[j]).alive == st.nodes[j].alive
            &&& after[j].layout_box == st.nodes[j].layout_box
            &&& st.nodes[j].flags.layout ==> after[j].flags.layout
        } by {
            assert(inner.nodes[j].alive == st.nodes[j].alive);
        }
    }
}

/// See [`lemma_style_view_keeps_boxes`].
pub proof fn lemma_style_children_keep_boxes(ms: Seq<NodeModel>, k: nat, st: StyleModel)
    ensures
        style_children(ms, k, st).nodes.len() == st.nodes.len(),
        forall|j: int|
            0 <= j < st.nodes.len() ==> {
                &&& (#[trigger] style_children(ms, k, st).nodes[j]).alive == st.nodes[j].alive
                &&& style_children(ms, k, st).nodes[j].layout_box == st.nodes[j].layout_box
                &&& st.nodes[j].flags.layout ==> style_children(ms, k, st).nodes[j].flags.layout
            },
    decreases ms, k,
{
    if k == 0 || k > ms.len() {
    } else {
        let before = style_children(ms, (k - 1) as nat, st);
        lemma_style_children_keep_boxes(ms, (k - 1) as nat, st);
        lemma_style_view_keeps_boxes(ms[k - 1], before);
        let after = style_children(ms, k, st).nodes;
        assert forall|j: int| 0 <= j < st.nodes.len() implies {
            &&& (#[trigger] after[j]).alive == st.nodes[j].alive
            &&& after[j].layout_box == st.nodes[j].layout_box
            &&& st.nodes[j].flags.layout ==> after[j].flags.layout
        } by {
            assert(before.nodes[j].alive == st.nodes[j].alive);
        }
    }
}

/// A refresh leaves the boxes mirroring the tree. Take a tree that the
/// table knows and whose nodes are live, and a table and an engine that
/// agree with it. When the styles have been resolved and the root then
/// asks for layout, the boxes are brought up to date, solved and placed,
/// and the tree is painted. Where the engine had room, the boxes then
/// mirror the whole tree, before the tree is painted and after.
pub proof fn lemma_refresh_mirrors(
    m: NodeModel,
    nodes: Seq<NodeState>,
    signals: SignalModel,
    boxes: Seq<BoxModel>,
    solved: Seq<BoxModel>,
)
    requires
        table_wf(nodes),
        boxes.len() >= 1,
        registered(m, nodes),
        tree_live(m, nodes),
        tidy(m, LayoutModel { nodes, boxes, origin: Point::spec_zero() }),
        laid_out(m, styled(m, nodes, signals).nodes, boxes).1.boxes.len() < MAX_BOXES,
        same_boxes(laid_out(m, styled(m, nodes, signals).nodes, boxes).1.boxes, solved),
    ensures
        ({
            let laid = laid_out(m, styled(m, nodes, signals).nodes, boxes);
            let placed = place_view(
                m,
                LayoutModel { nodes: laid.1.nodes, boxes: solved, origin: Point::spec_zero() },
            ).1.nodes;
            let painted = paint_view(m, PaintModel { nodes: placed, commands: Seq::empty() }).nodes;
            &&& mirrored(m, LayoutModel { nodes: placed, boxes: solved, origin: Point::spec_zero() })
            &&& mirrored(m, LayoutModel { nodes: painted, boxes: solved, origin: Point::spec_zero() })
        }),
{
    let zero = Point::spec_zero();
    let start = LayoutModel { nodes, boxes, origin: zero };
    let first = styled(m, nodes, signals).nodes;
    let styles = LayoutModel { nodes: first, boxes, origin: zero };
    lemma_style_view_keeps_boxes(m, at_root(nodes, signals));
    lemma_style_view_settles(m, at_root(nodes, signals));
    assert(same_shape(nodes, first)) by {
        assert forall|j: int| 0 <= j < nodes.len() implies (#[trigger] nodes[j]).parent
            == first[j].parent && nodes[j].alive == first[j].alive by {
            assert(first[j].alive == nodes[j].alive);
        }
    }
    lemma_tidy_is_kept(m, start, styles);
    lemma_registered_by_shape(m, nodes, first);
    lemma_tree_live_by_shape(m, nodes, first);
    lemma_layout_view_mirrors(m, styles);
    let laid = laid_out(m, first, boxes);
    let ready = LayoutModel { nodes: laid.1.nodes, boxes: solved, origin: zero };
    lemma_mirrored_is_kept(m, laid.1, ready);
    lemma_place_view_keeps_boxes(m, ready);
    let placed = LayoutModel { nodes: place_view(m, ready).1.nodes, boxes: solved, origin: zero };
    assert(same_layout_boxes(ready, placed)) by {
        assert forall|j: int| 0 <= j < ready.nodes.len() implies (#[trigger] placed.nodes[j]).alive
            == ready.nodes[j].alive && placed.nodes[j].layout_box == ready.nodes[j].layout_box by {
            assert(placed.nodes[j] == (NodeState {
                layout_rect: placed.nodes[j].layout_rect,
                ..ready.nodes[j]
            }));
        }
    }
    lemma_mirrored_is_kept(m, ready, placed);
    let start_paint = PaintModel { nodes: placed.nodes, commands: Seq::empty() };
    lemma_paint_view(m, start_paint);
    let painted = LayoutModel { nodes: paint_view(m, start_paint).nodes, boxes: solved, origin: zero };
    assert(same_layout_boxes(placed, painted)) by {
        assert forall|j: int| 0 <= j < placed.nodes.len() implies (#[trigger] painted.nodes[j]).alive
            == placed.nodes[j].alive && painted.nodes[j].layout_box == placed.nodes[j].layout_box by {
            assert(painted.nodes[j] == (NodeState {
                flags: ChangeFlags { paint: painted.nodes[j].flags.paint, ..placed.nodes[j].flags },
                ..placed.nodes[j]
            }));
        }
    }
    lemma_mirrored_is_kept(m, placed, painted);
}

} // verus!
