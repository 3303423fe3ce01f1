//! How the tree of nodes and the table of their state agree, and what the
//! traversals guarantee where they do: when the style traversal has run, no
//! live node of the tree asks for its style, and when the layout traversal
//! has run, none asks for layout.

use vstd::prelude::*;
use crate::context::layout::{
    boxed, cached, layout_children, layout_view, lemma_layout_children_adds_boxes,
    lemma_layout_view_adds_boxes, only_boxes_differ, LayoutModel,
};
use crate::context::style::{
    lemma_restyled, lemma_style_children_settles, lemma_style_view_settles, observed, restyled,
    style_children, style_only, style_view, StyleModel,
};
use crate::flags::ChangeFlags;
use crate::state::{
    is_live, lemma_owners_come_later, lemma_owns_by_links, lemma_owns_up, lemma_requested, owner,
    owns, released, requested, table_wf, NodeState,
};
use crate::style::{resolved, Interaction, Style};
use crate::id::Id;
use crate::view::NodeModel;
use crate::views::static_list::{
    adopted_each, is_among, lemma_adopted_each, lemma_position, list_model, position,
};

verus! {

/// The table knows the tree below `m`: the nodes that `m` contains are
/// exactly the nodes that the entry of `m` owns directly, no two of them
/// share an identifier, and the same holds for each of them.
pub open spec fn registered(m: NodeModel, nodes: Seq<NodeState>) -> bool
    decreases m,
{
    &&& m.id.0 < nodes.len()
    &&& forall|k: int|
        0 <= k < m.children.len() ==> owner(nodes, (#[trigger] m.children[k]).id.0 as int) == Some(
            m.id.0 as int,
        ) && registered(m.children[k], nodes)
    &&& forall|j: int, k: int|
        0 <= j < k < m.children.len() ==> (#[trigger] m.children[j]).id != (#[trigger] m.children[k]).id
    &&& forall|x: int|
        0 <= x < nodes.len() && #[trigger] owner(nodes, x) == Some(m.id.0 as int) ==> exists|k: int|
            0 <= k < m.children.len() && (#[trigger] m.children[k]).id.0 == x
}

/// Requests have reached up: among the nodes that `a` owns, a live node
/// asks for its style only if its owner does.
pub open spec fn asks_reach_up(nodes: Seq<NodeState>, a: int) -> bool {
    forall|x: int|
        #[trigger] owns(nodes, a, x) && x != a && nodes[x].alive && nodes[x].flags.style ==> owner(
            nodes,
            x,
        ) is Some && nodes[owner(nodes, x).unwrap()].flags.style
}

/// The owner of a live node is live.
pub open spec fn owners_live(nodes: Seq<NodeState>) -> bool {
    forall|x: int|
        0 <= x < nodes.len() && (#[trigger] nodes[x]).alive && owner(nodes, x) is Some
            ==> nodes[owner(nodes, x).unwrap()].alive
}

/// The two tables hold the same nodes, with the same owners, and the same
/// of them are live.
pub open spec fn same_shape(a: Seq<NodeState>, b: Seq<NodeState>) -> bool {
    &&& a.len() == b.len()
    &&& forall|j: int|
        0 <= j < a.len() ==> (#[trigger] a[j]).parent == b[j].parent && a[j].alive == b[j].alive
}

/// One of the first `k` of the nodes `ms` owns node `x`.
pub open spec fn under_one_of(ms: Seq<NodeModel>, k: nat, nodes: Seq<NodeState>, x: int) -> bool {
    exists|j: int| 0 <= j < k && j < ms.len() && owns(nodes, (#[trigger] ms[j]).id.0 as int, x)
}

/// What a node owns besides itself is owned by one of the nodes it owns
/// directly.
pub proof fn lemma_owns_down(nodes: Seq<NodeState>, a: int, x: int) -> (c: int)
    requires
        owns(nodes, a, x),
        x != a,
    ensures
        owner(nodes, c) == Some(a),
        owns(nodes, c, x),
    decreases nodes.len() - x,
{
    let p = owner(nodes, x).unwrap();
    if p == a {
        x
    } else {
        lemma_owns_down(nodes, a, p)
    }
}

/// Two nodes with the same owner own nothing in common.
pub proof fn lemma_siblings_apart(nodes: Seq<NodeState>, r: int, c: int, d: int, x: int)
    requires
        owner(nodes, c) == Some(r),
        owner(nodes, d) == Some(r),
        c != d,
        owns(nodes, c, x),
    ensures
        !owns(nodes, d, x),
    decreases nodes.len() - x,
{
    if owns(nodes, d, x) {
        if x == c {
            lemma_owners_come_later(nodes, d, r);
        } else if x == d {
            lemma_owners_come_later(nodes, c, r);
        } else {
            lemma_siblings_apart(nodes, r, c, d, owner(nodes, x).unwrap());
        }
    }
}

/// Below a node that does not ask for its style, no live node does, where
/// requests have reached up.
pub proof fn lemma_clean_chain(nodes: Seq<NodeState>, a: int, x: int)
    requires
        asks_reach_up(nodes, a),
        owners_live(nodes),
        0 <= a < nodes.len(),
        !nodes[a].flags.style,
        owns(nodes, a, x),
        nodes[x].alive,
    ensures
        !nodes[x].flags.style,
    decreases nodes.len() - x,
{
    if x != a {
        lemma_clean_chain(nodes, a, owner(nodes, x).unwrap());
    }
}

/// A node that owns a live node is live, where the owner of a live node is.
pub proof fn lemma_alive_chain(nodes: Seq<NodeState>, a: int, x: int)
    requires
        owners_live(nodes),
        owns(nodes, a, x),
        nodes[x].alive,
    ensures
        nodes[a].alive,
    decreases nodes.len() - x,
{
    if x != a {
        lemma_alive_chain(nodes, a, owner(nodes, x).unwrap());
    }
}

/// Whether the table knows a tree depends on the owners alone.
pub proof fn lemma_registered_by_shape(m: NodeModel, a: Seq<NodeState>, b: Seq<NodeState>)
    requires
        same_shape(a, b),
        registered(m, a),
    ensures
        registered(m, b),
    decreases m,
{
    assert forall|x: int| 0 <= x < a.len() implies owner(a, x) == owner(b, x) by {
        assert(a[x].parent == b[x].parent);
    }
    assert forall|k: int| 0 <= k < m.children.len() implies owner(
        b,
        (#[trigger] m.children[k]).id.0 as int,
    ) == Some(m.id.0 as int) && registered(m.children[k], b) by {
        assert(owner(a, m.children[k].id.0 as int) == Some(m.id.0 as int));
        lemma_registered_by_shape(m.children[k], a, b);
    }
    assert forall|x: int|
        0 <= x < b.len() && #[trigger] owner(b, x) == Some(m.id.0 as int) implies exists|k: int|
        0 <= k < m.children.len() && (#[trigger] m.children[k]).id.0 == x by {
        assert(owner(a, x) == Some(m.id.0 as int));
    }
}

/// Who owns whom is the same in two tables of the same shape.
pub proof fn lemma_owns_by_shape(a: Seq<NodeState>, b: Seq<NodeState>, r: int, x: int)
    requires
        same_shape(a, b),
    ensures
        owns(a, r, x) == owns(b, r, x),
        0 <= x < a.len() ==> owner(a, x) == owner(b, x),
{
    lemma_owns_by_links(a, b, r, x);
    if 0 <= x < a.len() {
        assert(a[x].parent == b[x].parent);
    }
}

/// What a node contains is untouched by a change to the node itself. Where
/// the table keeps its shape and no node but the root of a tree that the
/// table knows asks otherwise for its style than before, the table knows
/// the trees of the nodes that the root contains as before, and requests
/// have reached up in each of them.
pub proof fn lemma_children_untouched(m: NodeModel, nodes: Seq<NodeState>, first: Seq<NodeState>)
    requires
        table_wf(nodes),
        owners_live(nodes),
        registered(m, nodes),
        asks_reach_up(nodes, m.id.0 as int),
        same_shape(nodes, first),
        forall|x: int|
            0 <= x < nodes.len() && x != m.id.0 ==> (#[trigger] first[x]).flags.style
                == nodes[x].flags.style,
    ensures
        owners_live(first),
        forall|j: int|
            0 <= j < m.children.len() ==> registered(#[trigger] m.children[j], first) && owner(
                first,
                m.children[j].id.0 as int,
            ) == Some(m.id.0 as int) && asks_reach_up(first, m.children[j].id.0 as int),
{
    let root = m.id.0 as int;
    let ms = m.children;
    assert(owners_live(first)) by {
        assert forall|x: int|
            0 <= x < first.len() && (#[trigger] first[x]).alive && owner(first, x) is Some implies first[owner(
            first,
            x,
        ).unwrap()].alive by {
            lemma_owns_by_shape(nodes, first, root, x);
            assert(nodes[x].alive);
        }
    }
    assert forall|j: int| 0 <= j < ms.len() implies registered(#[trigger] ms[j], first) && owner(
        first,
        ms[j].id.0 as int,
    ) == Some(root) && asks_reach_up(first, ms[j].id.0 as int) by {
        let c = ms[j].id.0 as int;
        assert(owner(nodes, c) == Some(root));
        lemma_registered_by_shape(ms[j], nodes, first);
        lemma_owns_by_shape(nodes, first, root, c);
        assert forall|x: int|
            #[trigger] owns(first, c, x) && x != c && first[x].alive && first[x].flags.style implies owner(
            first,
            x,
        ) is Some && first[owner(first, x).unwrap()].flags.style by {
            lemma_owns_by_shape(nodes, first, c, x);
            assert(nodes[x].alive == first[x].alive);
            lemma_owners_come_later(nodes, c, x);
            lemma_owns_up(nodes, root, c, x);
            let p = owner(nodes, x).unwrap();
            assert(owns(nodes, c, p));
            lemma_owners_come_later(nodes, c, p);
            assert(first[x].flags.style == nodes[x].flags.style);
            assert(first[p].flags.style == nodes[p].flags.style);
        }
    }
}

/// The tree of the next node is untouched by what was done to the nodes
/// before it. Take nodes with one owner, whose trees the table knows.
/// Where the table has kept its shape and no node outside the trees of the
/// first `k - 1` of them asks otherwise for its style than before, the
/// table knows the tree of the next node as before, requests have reached
/// up in it, and it has no node in common with the trees before it.
pub proof fn lemma_next_child_untouched(
    ms: Seq<NodeModel>,
    k: nat,
    nodes: Seq<NodeState>,
    before: Seq<NodeState>,
    root: int,
)
    requires
        table_wf(nodes),
        owners_live(nodes),
        0 < k <= ms.len(),
        forall|j: int|
            0 <= j < ms.len() ==> registered(#[trigger] ms[j], nodes) && owner(
                nodes,
                ms[j].id.0 as int,
            ) == Some(root) && asks_reach_up(nodes, ms[j].id.0 as int),
        forall|i: int, j: int|
            0 <= i < j < ms.len() ==> (#[trigger] ms[i]).id != (#[trigger] ms[j]).id,
        same_shape(nodes, before),
        forall|x: int|
            0 <= x < nodes.len() && !under_one_of(ms, (k - 1) as nat, nodes, x) ==> (
            #[trigger] before[x]).flags.style == nodes[x].flags.style,
    ensures
        registered(ms[k - 1], before),
        owners_live(before),
        asks_reach_up(before, ms[k - 1].id.0 as int),
        forall|x: int| #[trigger]
            owns(nodes, ms[k - 1].id.0 as int, x) ==> !under_one_of(ms, (k - 1) as nat, nodes, x),
{
    let c = ms[k - 1].id.0 as int;
    lemma_registered_by_shape(ms[k - 1], nodes, before);
    assert(owners_live(before)) by {
        assert forall|x: int|
            0 <= x < before.len() && (#[trigger] before[x]).alive && owner(before, x) is Some implies before[owner(
            before,
            x,
        ).unwrap()].alive by {
            lemma_owns_by_shape(nodes, before, root, x);
            assert(nodes[x].alive);
        }
    }
    assert forall|x: int| #[trigger] owns(nodes, c, x) implies !under_one_of(
        ms,
        (k - 1) as nat,
        nodes,
        x,
    ) by {
        if under_one_of(ms, (k - 1) as nat, nodes, x) {
            let j = choose|j: int|
                0 <= j < k - 1 && j < ms.len() && owns(nodes, (#[trigger] ms[j]).id.0 as int, x);
            assert(ms[j].id != ms[k - 1].id);
            assert(owner(nodes, ms[j].id.0 as int) == Some(root));
            lemma_siblings_apart(nodes, root, c, ms[j].id.0 as int, x);
        }
    }
    assert(asks_reach_up(before, c)) by {
        assert forall|x: int|
            #[trigger] owns(before, c, x) && x != c && before[x].alive && before[x].flags.style implies owner(
            before,
            x,
        ) is Some && before[owner(before, x).unwrap()].flags.style by {
            lemma_owns_by_shape(nodes, before, c, x);
            assert(nodes[x].alive == before[x].alive);
            lemma_owners_come_later(nodes, c, x);
            let p = owner(nodes, x).unwrap();
            assert(owns(nodes, c, p));
            lemma_owners_come_later(nodes, c, p);
            assert(before[x].flags.style == nodes[x].flags.style);
            assert(before[p].flags.style == nodes[p].flags.style);
        }
    }
}

/// A style traversal of a tree that the table knows leaves no live node of
/// the tree asking for its style, changes the style flag of no node outside
/// the tree, and keeps the shape of the table.
pub proof fn lemma_style_view_cleans(m: NodeModel, st: StyleModel)
    requires
        table_wf(st.nodes),
        registered(m, st.nodes),
        asks_reach_up(st.nodes, m.id.0 as int),
        owners_live(st.nodes),
    ensures
        same_shape(st.nodes, style_view(m, st).nodes),
        forall|x: int|
            #[trigger] owns(st.nodes, m.id.0 as int, x) && st.nodes[x].alive ==> !style_view(
                m,
                st,
            ).nodes[x].flags.style,
        forall|x: int|
            0 <= x < st.nodes.len() && !owns(st.nodes, m.id.0 as int, x) ==> (#[trigger] style_view(
                m,
                st,
            ).nodes[x]).flags.style == st.nodes[x].flags.style,
    decreases m, 1int,
{
    let root = m.id.0 as int;
    let after = style_view(m, st).nodes;
    lemma_style_view_settles(m, st);
    if !is_live(st.nodes, m.id) {
        assert forall|x: int| #[trigger] owns(st.nodes, root, x) && st.nodes[x].alive implies !after[x].flags.style by {
            lemma_alive_chain(st.nodes, root, x);
        }
    } else if !st.nodes[root].flags.style && !st.forced {
        assert forall|x: int| #[trigger] owns(st.nodes, root, x) && st.nodes[x].alive implies !after[x].flags.style by {
            lemma_clean_chain(st.nodes, root, x);
        }
    } else {
        let node = st.nodes[root];
        let found = observed(node, st.signals);
        let computed = resolved(st.inherited, m.intrinsic, node.sheet, found.0);
        let first = restyled(st.nodes, m.id, found.0, computed);
        lemma_restyled(st.nodes, m.id, found.0, computed);
        lemma_restyled_touches_one(st.nodes, m.id, found.0, computed);
        let inner = StyleModel {
            nodes: first,
            signals: found.1,
            inherited: computed.spec_inheritable(),
            forced: st.forced || computed.spec_inheritable() != node.computed.spec_inheritable(),
        };
        let ms = m.children;
        assert(same_shape(st.nodes, first));
        lemma_children_untouched(m, st.nodes, first);
        lemma_style_children_clean(ms, ms.len(), inner, root);
        let below = style_children(ms, ms.len(), inner).nodes;
        assert(after == below);
        assert forall|x: int| #[trigger] owns(st.nodes, root, x) && st.nodes[x].alive implies !after[x].flags.style by {
            lemma_owners_come_later(st.nodes, root, x);
            if x == root {
                assert(!under_one_of(ms, ms.len(), first, x)) by {
                    if under_one_of(ms, ms.len(), first, x) {
                        let j = choose|j: int|
                            0 <= j < ms.len() && owns(first, (#[trigger] ms[j]).id.0 as int, x);
                        lemma_owners_come_later(first, ms[j].id.0 as int, x);
                        assert(owner(st.nodes, ms[j].id.0 as int) == Some(root));
                    }
                }
            } else {
                let c = lemma_owns_down(st.nodes, root, x);
                let k = choose|k: int| 0 <= k < ms.len() && (#[trigger] ms[k]).id.0 == c;
                lemma_owns_by_shape(st.nodes, first, c, x);
                assert(owns(first, ms[k].id.0 as int, x));
                assert(first[x].alive);
            }
        }
        assert forall|x: int|
            0 <= x < st.nodes.len() && !owns(st.nodes, root, x) implies (#[trigger] after[x]).flags.style
            == st.nodes[x].flags.style by {
            assert(!under_one_of(ms, ms.len(), first, x)) by {
                if under_one_of(ms, ms.len(), first, x) {
                    let j = choose|j: int|
                        0 <= j < ms.len() && owns(first, (#[trigger] ms[j]).id.0 as int, x);
                    lemma_owns_by_shape(st.nodes, first, ms[j].id.0 as int, x);
                    assert(owner(st.nodes, ms[j].id.0 as int) == Some(root));
                    lemma_owns_up(st.nodes, root, ms[j].id.0 as int, x);
                }
            }
            assert(x != root);
        }
        assert(same_shape(st.nodes, after)) by {
            assert forall|j: int| 0 <= j < st.nodes.len() implies (#[trigger] st.nodes[j]).parent
                == after[j].parent && st.nodes[j].alive == after[j].alive by {
                assert(first[j].parent == st.nodes[j].parent);
                assert(below[j].parent == first[j].parent);
            }
        }
    }
}

/// Giving a node its computed style changes the style flag of no other
/// node.
pub proof fn lemma_restyled_touches_one(
    nodes: Seq<NodeState>,
    id: Id,
    state: Interaction,
    computed: Style,
)
    requires
        table_wf(nodes),
        id.0 < nodes.len(),
    ensures
        same_shape(nodes, restyled(nodes, id, state, computed)),
        forall|x: int|
            0 <= x < nodes.len() && x != id.0 ==> (#[trigger] restyled(
                nodes,
                id,
                state,
                computed,
            )[x]).flags.style == nodes[x].flags.style,
{
    let node = nodes[id.0 as int];
    let next = NodeState {
        interaction: state,
        computed,
        flags: node.flags.spec_difference(style_only()),
        ..node
    };
    let stored = nodes.update(id.0 as int, next);
    lemma_requested(stored, id.0 as int, ChangeFlags::spec_layout());
    lemma_requested(stored, id.0 as int, ChangeFlags::spec_paint());
    let after = restyled(nodes, id, state, computed);
    assert forall|j: int| 0 <= j < nodes.len() implies (#[trigger] nodes[j]).parent == after[j].parent
        && nodes[j].alive == after[j].alive by {
        assert(stored[j].alive == nodes[j].alive);
    }
    assert forall|x: int| 0 <= x < nodes.len() && x != id.0 implies (#[trigger] after[x]).flags.style
        == nodes[x].flags.style by {
        assert(stored[x] == nodes[x]);
    }
}

/// See [`lemma_style_view_cleans`]: the same of the first `k` of the nodes
/// `ms`, which all have the owner `root`.
pub proof fn lemma_style_children_clean(ms: Seq<NodeModel>, k: nat, st: StyleModel, root: int)
    requires
        table_wf(st.nodes),
        owners_live(st.nodes),
        k <= ms.len(),
        forall|j: int|
            0 <= j < ms.len() ==> registered(#[trigger] ms[j], st.nodes) && owner(
                st.nodes,
                ms[j].id.0 as int,
            ) == Some(root) && asks_reach_up(st.nodes, ms[j].id.0 as int),
        forall|i: int, j: int|
            0 <= i < j < ms.len() ==> (#[trigger] ms[i]).id != (#[trigger] ms[j]).id,
    ensures
        same_shape(st.nodes, style_children(ms, k, st).nodes),
        forall|x: int|
            0 <= x < st.nodes.len() && st.nodes[x].alive && under_one_of(ms, k, st.nodes, x)
                ==> !(#[trigger] style_children(ms, k, st).nodes[x]).flags.style,
        forall|x: int|
            0 <= x < st.nodes.len() && !under_one_of(ms, k, st.nodes, x) ==> (#[trigger] style_children(
                ms,
                k,
                st,
            ).nodes[x]).flags.style == st.nodes[x].flags.style,
    decreases ms, k,
{
    if k > 0 {
        let before = style_children(ms, (k - 1) as nat, st);
        let after = style_children(ms, k, st).nodes;
        let c = ms[k - 1].id.0 as int;
        lemma_style_children_clean(ms, (k - 1) as nat, st, root);
        lemma_style_children_settles(ms, (k - 1) as nat, st);
        // The tree of the next node is as it was: the nodes before it have
        // touched nothing in it.
        lemma_next_child_untouched(ms, k, st.nodes, before.nodes, root);
        lemma_style_view_cleans(ms[k - 1], before);
        assert(same_shape(st.nodes, after)) by {
            assert forall|j: int| 0 <= j < st.nodes.len() implies (#[trigger] st.nodes[j]).parent
                == after[j].parent && st.nodes[j].alive == after[j].alive by {
                assert(before.nodes[j].parent == st.nodes[j].parent);
                assert(after[j].parent == before.nodes[j].parent);
            }
        }
        assert forall|x: int|
            0 <= x < st.nodes.len() && st.nodes[x].alive && under_one_of(ms, k, st.nodes, x) implies !(
        #[trigger] after[x]).flags.style by {
            lemma_owns_by_shape(st.nodes, before.nodes, c, x);
            assert(before.nodes[x].alive == st.nodes[x].alive);
            if owns(st.nodes, c, x) {
            } else {
                let j = choose|j: int|
                    0 <= j < k && j < ms.len() && owns(st.nodes, (#[trigger] ms[j]).id.0 as int, x);
                assert(j < k - 1);
                assert(under_one_of(ms, (k - 1) as nat, st.nodes, x));
                assert(!before.nodes[x].flags.style);
            }
        }
        assert forall|x: int|
            0 <= x < st.nodes.len() && !under_one_of(ms, k, st.nodes, x) implies (#[trigger] after[x]).flags.style
            == st.nodes[x].flags.style by {
            lemma_owns_by_shape(st.nodes, before.nodes, c, x);
            assert(!owns(st.nodes, c, x)) by {
                if owns(st.nodes, c, x) {
                    assert(owns(st.nodes, ms[k - 1].id.0 as int, x));
                }
            }
            assert(!under_one_of(ms, (k - 1) as nat, st.nodes, x)) by {
                if under_one_of(ms, (k - 1) as nat, st.nodes, x) {
                    let j = choose|j: int|
                        0 <= j < k - 1 && j < ms.len() && owns(
                            st.nodes,
                            (#[trigger] ms[j]).id.0 as int,
                            x,
                        );
                    assert(owns(st.nodes, ms[j].id.0 as int, x));
                }
            }
            assert(before.nodes[x].flags.style == st.nodes[x].flags.style);
        }
    }
}

/// No stale style. Where the table knows the tree, requests have reached
/// up and the owner of a live node is live, a style traversal from the root
/// leaves no live node of the tree asking for its style, and requests have
/// then again reached up.
pub proof fn lemma_style_leaves_nothing_stale(m: NodeModel, st: StyleModel)
    requires
        table_wf(st.nodes),
        registered(m, st.nodes),
        asks_reach_up(st.nodes, m.id.0 as int),
        owners_live(st.nodes),
    ensures
        forall|x: int|
            #[trigger] owns(st.nodes, m.id.0 as int, x) && st.nodes[x].alive ==> !style_view(
                m,
                st,
            ).nodes[x].flags.style,
        registered(m, style_view(m, st).nodes),
        owners_live(style_view(m, st).nodes),
        asks_reach_up(style_view(m, st).nodes, m.id.0 as int),
{
    let after = style_view(m, st).nodes;
    lemma_style_view_cleans(m, st);
    lemma_registered_by_shape(m, st.nodes, after);
    assert forall|x: int|
        0 <= x < after.len() && (#[trigger] after[x]).alive && owner(after, x) is Some implies after[owner(
        after,
        x,
    ).unwrap()].alive by {
        lemma_owns_by_shape(st.nodes, after, m.id.0 as int, x);
        assert(st.nodes[x].alive);
    }
    assert forall|x: int|
        #[trigger] owns(after, m.id.0 as int, x) && x != m.id.0 && after[x].alive
            && after[x].flags.style implies owner(after, x) is Some && after[owner(
        after,
        x,
    ).unwrap()].flags.style by {
        lemma_owns_by_shape(st.nodes, after, m.id.0 as int, x);
        lemma_owners_come_later(st.nodes, m.id.0 as int, x);
        assert(st.nodes[x].alive == after[x].alive);
    }
}

/// Requests for layout have reached up: among the nodes that `a` owns, a
/// live node asks for layout only if its owner does.
pub open spec fn layout_asks_reach_up(nodes: Seq<NodeState>, a: int) -> bool {
    forall|x: int|
        #[trigger] owns(nodes, a, x) && x != a && nodes[x].alive && nodes[x].flags.layout ==> owner(
            nodes,
            x,
        ) is Some && nodes[owner(nodes, x).unwrap()].flags.layout
}

/// Below a node that does not ask for layout, no live node does, where
/// requests for layout have reached up.
pub proof fn lemma_layout_clean_chain(nodes: Seq<NodeState>, a: int, x: int)
    requires
        layout_asks_reach_up(nodes, a),
        owners_live(nodes),
        0 <= a < nodes.len(),
        !nodes[a].flags.layout,
        owns(nodes, a, x),
        nodes[x].alive,
    ensures
        !nodes[x].flags.layout,
    decreases nodes.len() - x,
{
    if x != a {
        lemma_layout_clean_chain(nodes, a, owner(nodes, x).unwrap());
    }
}

/// Layout keeps the shape of the table.
pub proof fn lemma_layout_keeps_shape(before: Seq<NodeState>, after: Seq<NodeState>)
    requires
        only_boxes_differ(before, after),
    ensures
        same_shape(before, after),
{
    assert forall|j: int| 0 <= j < before.len() implies (#[trigger] before[j]).parent
        == after[j].parent && before[j].alive == after[j].alive by {
        assert(after[j].alive == before[j].alive);
    }
}

/// No stale layout. A layout traversal of a tree that the table knows
/// leaves no live node of the tree asking for layout, where requests for
/// layout had reached up and the owner of a live node was live. It changes
/// the layout flag of no node outside the tree.
pub proof fn lemma_layout_view_cleans(m: NodeModel, st: LayoutModel)
    requires
        table_wf(st.nodes),
        st.boxes.len() >= 1,
        registered(m, st.nodes),
        layout_asks_reach_up(st.nodes, m.id.0 as int),
        owners_live(st.nodes),
    ensures
        same_shape(st.nodes, layout_view(m, st).1.nodes),
        forall|x: int|
            #[trigger] owns(st.nodes, m.id.0 as int, x) && st.nodes[x].alive ==> !layout_view(
                m,
                st,
            ).1.nodes[x].flags.layout,
        forall|x: int|
            0 <= x < st.nodes.len() && !owns(st.nodes, m.id.0 as int, x) ==> (#[trigger] layout_view(
                m,
                st,
            ).1.nodes[x]).flags.layout == st.nodes[x].flags.layout,
    decreases m, 1int,
{
    let root = m.id.0 as int;
    let after = layout_view(m, st).1.nodes;
    lemma_layout_view_adds_boxes(m, st);
    lemma_layout_keeps_shape(st.nodes, after);
    if cached(st, m.id) is Some {
        assert forall|x: int| #[trigger] owns(st.nodes, root, x) && st.nodes[x].alive implies !after[x].flags.layout by {
            lemma_layout_clean_chain(st.nodes, root, x);
        }
    } else {
        let ms = m.children;
        assert forall|j: int| 0 <= j < ms.len() implies registered(#[trigger] ms[j], st.nodes) && owner(
            st.nodes,
            ms[j].id.0 as int,
        ) == Some(root) && layout_asks_reach_up(st.nodes, ms[j].id.0 as int) by {
            let c = ms[j].id.0 as int;
            assert forall|x: int|
                #[trigger] owns(st.nodes, c, x) && x != c && st.nodes[x].alive
                    && st.nodes[x].flags.layout implies owner(st.nodes, x) is Some
                && st.nodes[owner(st.nodes, x).unwrap()].flags.layout by {
                lemma_owners_come_later(st.nodes, c, x);
                lemma_owns_up(st.nodes, root, c, x);
            }
        }
        lemma_layout_children_clean(ms, ms.len(), st, root);
        let below = layout_children(ms, ms.len(), st);
        assert(after == boxed(below.1, m.id, below.0).1.nodes);
        assert forall|x: int| #[trigger] owns(st.nodes, root, x) && st.nodes[x].alive implies !after[x].flags.layout by {
            lemma_owners_come_later(st.nodes, root, x);
            assert(below.1.nodes[x].alive == st.nodes[x].alive);
            if x != root {
                let c = lemma_owns_down(st.nodes, root, x);
                let k = choose|k: int| 0 <= k < ms.len() && (#[trigger] ms[k]).id.0 == c;
                assert(owns(st.nodes, ms[k].id.0 as int, x));
                assert(under_one_of(ms, ms.len(), st.nodes, x));
                assert(!below.1.nodes[x].flags.layout);
                assert(after[x] == below.1.nodes[x]);
            }
        }
        assert forall|x: int|
            0 <= x < st.nodes.len() && !owns(st.nodes, root, x) implies (#[trigger] after[x]).flags.layout
            == st.nodes[x].flags.layout by {
            assert(!under_one_of(ms, ms.len(), st.nodes, x)) by {
                if under_one_of(ms, ms.len(), st.nodes, x) {
                    let j = choose|j: int|
                        0 <= j < ms.len() && owns(st.nodes, (#[trigger] ms[j]).id.0 as int, x);
                    assert(owner(st.nodes, ms[j].id.0 as int) == Some(root));
                    lemma_owns_up(st.nodes, root, ms[j].id.0 as int, x);
                }
            }
            assert(x != root);
            assert(after[x] == below.1.nodes[x]);
            assert(below.1.nodes[x].flags.layout == st.nodes[x].flags.layout);
        }
    }
}

/// See [`lemma_layout_view_cleans`]: the same of the first `k` of the nodes
/// `ms`, which all have the owner `root`.
pub proof fn lemma_layout_children_clean(ms: Seq<NodeModel>, k: nat, st: LayoutModel, root: int)
    requires
        table_wf(st.nodes),
        st.boxes.len() >= 1,
        owners_live(st.nodes),
        k <= ms.len(),
        forall|j: int|
            0 <= j < ms.len() ==> registered(#[trigger] ms[j], st.nodes) && owner(
                st.nodes,
                ms[j].id.0 as int,
            ) == Some(root) && layout_asks_reach_up(st.nodes, ms[j].id.0 as int),
        forall|i: int, j: int|
            0 <= i < j < ms.len() ==> (#[trigger] ms[i]).id != (#[trigger] ms[j]).id,
    ensures
        same_shape(st.nodes, layout_children(ms, k, st).1.nodes),
        forall|x: int|
            0 <= x < st.nodes.len() && st.nodes[x].alive && under_one_of(ms, k, st.nodes, x)
                ==> !(#[trigger] layout_children(ms, k, st).1.nodes[x]).flags.layout,
        forall|x: int|
            0 <= x < st.nodes.len() && !under_one_of(ms, k, st.nodes, x) ==> (#[trigger] layout_children(
                ms,
                k,
                st,
            ).1.nodes[x]).flags.layout == st.nodes[x].flags.layout,
    decreases ms, k,
{
    lemma_layout_children_adds_boxes(ms, k, st);
    let after = layout_children(ms, k, st).1.nodes;
    lemma_layout_keeps_shape(st.nodes, after);
    if k > 0 {
        let before = layout_children(ms, (k - 1) as nat, st).1;
        let c = ms[k - 1].id.0 as int;
        lemma_layout_children_clean(ms, (k - 1) as nat, st, root);
        lemma_layout_children_adds_boxes(ms, (k - 1) as nat, st);
        lemma_registered_by_shape(ms[k - 1], st.nodes, before.nodes);
        assert(owners_live(before.nodes)) by {
            assert forall|x: int|
                0 <= x < before.nodes.len() && (#[trigger] before.nodes[x]).alive && owner(
                    before.nodes,
                    x,
                ) is Some implies before.nodes[owner(before.nodes, x).unwrap()].alive by {
                lemma_owns_by_shape(st.nodes, before.nodes, root, x);
                assert(st.nodes[x].alive);
            }
        }
        assert forall|x: int| owns(st.nodes, c, x) implies !under_one_of(
            ms,
            (k - 1) as nat,
            st.nodes,
            x,
        ) by {
            if under_one_of(ms, (k - 1) as nat, st.nodes, x) {
                let j = choose|j: int|
                    0 <= j < k - 1 && j < ms.len() && owns(st.nodes, (#[trigger] ms[j]).id.0 as int, x);
                assert(ms[j].id != ms[k - 1].id);
                assert(owner(st.nodes, ms[j].id.0 as int) == Some(root));
                lemma_siblings_apart(st.nodes, root, c, ms[j].id.0 as int, x);
            }
        }
        assert(layout_asks_reach_up(before.nodes, c)) by {
            assert forall|x: int|
                #[trigger] owns(before.nodes, c, x) && x != c && before.nodes[x].alive
                    && before.nodes[x].flags.layout implies owner(before.nodes, x) is Some
                && before.nodes[owner(before.nodes, x).unwrap()].flags.layout by {
                lemma_owns_by_shape(st.nodes, before.nodes, c, x);
                lemma_owners_come_later(st.nodes, c, x);
                assert(st.nodes[x].alive == before.nodes[x].alive);
                let p = owner(st.nodes, x).unwrap();
                assert(owns(st.nodes, c, p));
                lemma_owners_come_later(st.nodes, c, p);
                assert(before.nodes[x].flags.layout == st.nodes[x].flags.layout);
                assert(before.nodes[p].flags.layout == st.nodes[p].flags.layout);
            }
        }
        lemma_layout_view_cleans(ms[k - 1], before);
        assert forall|x: int|
            0 <= x < st.nodes.len() && st.nodes[x].alive && under_one_of(ms, k, st.nodes, x) implies !(
        #[trigger] after[x]).flags.layout by {
            lemma_owns_by_shape(st.nodes, before.nodes, c, x);
            assert(before.nodes[x].alive == st.nodes[x].alive);
            if owns(st.nodes, c, x) {
            } else {
                let j = choose|j: int|
                    0 <= j < k && j < ms.len() && owns(st.nodes, (#[trigger] ms[j]).id.0 as int, x);
                assert(j < k - 1);
                assert(under_one_of(ms, (k - 1) as nat, st.nodes, x));
                assert(!before.nodes[x].flags.layout);
            }
        }
        assert forall|x: int|
            0 <= x < st.nodes.len() && !under_one_of(ms, k, st.nodes, x) implies (#[trigger] after[x]).flags.layout
            == st.nodes[x].flags.layout by {
            lemma_owns_by_shape(st.nodes, before.nodes, c, x);
            assert(!owns(st.nodes, c, x)) by {
                if owns(st.nodes, c, x) {
                    assert(owns(st.nodes, ms[k - 1].id.0 as int, x));
                }
            }
            assert(!under_one_of(ms, (k - 1) as nat, st.nodes, x)) by {
                if under_one_of(ms, (k - 1) as nat, st.nodes, x) {
                    let j = choose|j: int|
                        0 <= j < k - 1 && j < ms.len() && owns(
                            st.nodes,
                            (#[trigger] ms[j]).id.0 as int,
                            x,
                        );
                    assert(owns(st.nodes, ms[j].id.0 as int, x));
                }
            }
            assert(before.nodes[x].flags.layout == st.nodes[x].flags.layout);
        }
    }
}

/// In a well-formed table the owner of a live node is live, and requests
/// for layout have reached up.
pub proof fn lemma_wf_reaches_up(nodes: Seq<NodeState>, a: int)
    requires
        table_wf(nodes),
    ensures
        owners_live(nodes),
        layout_asks_reach_up(nodes, a),
{
    assert forall|x: int|
        0 <= x < nodes.len() && (#[trigger] nodes[x]).alive && owner(nodes, x) is Some implies nodes[owner(
        nodes,
        x,
    ).unwrap()].alive by {
        assert(nodes[x].parent is Some);
    }
    assert forall|x: int|
        #[trigger] owns(nodes, a, x) && x != a && nodes[x].alive && nodes[x].flags.layout implies owner(
        nodes,
        x,
    ) is Some && nodes[owner(nodes, x).unwrap()].flags.layout by {
        assert(nodes[x].parent is Some);
    }
}

/// A request keeps what earlier requests have reached: where requests had
/// reached up among the nodes that `a` owns, they still have after flags
/// were added to a node and its owners.
pub proof fn lemma_request_reaches_up(
    nodes: Seq<NodeState>,
    a: int,
    i: int,
    flags: ChangeFlags,
)
    requires
        asks_reach_up(nodes, a),
    ensures
        asks_reach_up(requested(nodes, i, flags), a),
{
    let after = requested(nodes, i, flags);
    if 0 <= i < nodes.len() {
        lemma_requested(nodes, i, flags);
        assert forall|j: int| 0 <= j < nodes.len() implies (#[trigger] nodes[j]).parent
            == after[j].parent && nodes[j].alive == after[j].alive by {}
        assert forall|x: int|
            #[trigger] owns(after, a, x) && x != a && after[x].alive && after[x].flags.style implies owner(
            after,
            x,
        ) is Some && after[owner(after, x).unwrap()].flags.style by {
            lemma_owns_by_links(nodes, after, a, x);
            lemma_owners_come_later(nodes, a, x);
            let p = owner(nodes, x).unwrap();
            assert(nodes[x].parent == after[x].parent);
            assert(owner(after, x) == Some(p));
            if nodes[x].flags.style {
                assert(nodes[p].flags.style);
            } else {
                // The flag is new: the request went through `x`, and so
                // through its owner.
                assert(owns(nodes, x, i));
                lemma_owns_up(nodes, p, x, i);
            }
        }
    }
}

/// The second table is the first with one more node, `f`, which has no
/// owner and has become the owner of some nodes that had none.
pub open spec fn grafted(a: Seq<NodeState>, b: Seq<NodeState>, f: int) -> bool {
    &&& f == a.len()
    &&& b.len() == a.len() + 1
    &&& owner(b, f) is None
    &&& b[f].alive
    &&& forall|x: int|
        0 <= x < a.len() ==> {
            &&& (#[trigger] b[x]).alive == a[x].alive
            &&& b[x].flags == a[x].flags
            &&& owner(b, x) == owner(a, x) || (owner(a, x) is None && owner(b, x) == Some(f))
        }
}

/// Under a new owner, the older nodes own what they owned.
pub proof fn lemma_owns_grafted(a: Seq<NodeState>, b: Seq<NodeState>, f: int, c: int, x: int)
    requires
        grafted(a, b, f),
        0 <= c < f,
    ensures
        owns(b, c, x) == owns(a, c, x),
    decreases b.len() - x,
{
    if 0 <= x < f && x != c {
        assert(b[x].alive == a[x].alive);
        if owner(b, x) == owner(a, x) {
            match owner(a, x) {
                Some(p) => {
                    lemma_owns_grafted(a, b, f, c, p);
                },
                None => {},
            }
        } else {
            assert(!owns(b, c, f));
        }
    }
}

/// Under a new owner, the table knows the older trees as it did.
pub proof fn lemma_registered_grafted(m: NodeModel, a: Seq<NodeState>, b: Seq<NodeState>, f: int)
    requires
        grafted(a, b, f),
        registered(m, a),
    ensures
        registered(m, b),
    decreases m,
{
    assert forall|k: int| 0 <= k < m.children.len() implies owner(
        b,
        (#[trigger] m.children[k]).id.0 as int,
    ) == Some(m.id.0 as int) && registered(m.children[k], b) by {
        let c = m.children[k].id.0 as int;
        assert(owner(a, c) == Some(m.id.0 as int));
        assert(b[c].alive == a[c].alive);
        lemma_registered_grafted(m.children[k], a, b, f);
    }
    assert forall|x: int|
        0 <= x < b.len() && #[trigger] owner(b, x) == Some(m.id.0 as int) implies exists|k: int|
        0 <= k < m.children.len() && (#[trigger] m.children[k]).id.0 == x by {
        assert(x != f);
        assert(b[x].alive == a[x].alive);
        assert(owner(a, x) == Some(m.id.0 as int));
    }
}

/// The table knows a new list. Take trees that the table knows, whose roots
/// are live, have no owner, and differ from each other. A list made of them
/// is a tree that the table knows; and where requests for style and for
/// layout had reached up in each of the trees and the owner of a live node
/// was live, the same holds with the list.
pub proof fn lemma_list_is_registered(nodes: Seq<NodeState>, ms: Seq<NodeModel>)
    requires
        table_wf(nodes),
        owners_live(nodes),
        nodes.len() < u64::MAX,
        forall|j: int|
            0 <= j < ms.len() ==> {
                &&& registered(#[trigger] ms[j], nodes)
                &&& is_live(nodes, ms[j].id)
                &&& owner(nodes, ms[j].id.0 as int) is None
                &&& asks_reach_up(nodes, ms[j].id.0 as int)
                &&& layout_asks_reach_up(nodes, ms[j].id.0 as int)
            },
        forall|i: int, j: int|
            0 <= i < j < ms.len() ==> (#[trigger] ms[i]).id != (#[trigger] ms[j]).id,
    ensures
        ({
            let id = Id(nodes.len() as u64);
            let made = adopted_each(nodes.push(NodeState::fresh()), ms, id, ms.len());
            &&& table_wf(made)
            &&& owners_live(made)
            &&& registered(list_model(id, ms), made)
            &&& asks_reach_up(made, id.0 as int)
            &&& layout_asks_reach_up(made, id.0 as int)
        }),
{
    let id = Id(nodes.len() as u64);
    let f = nodes.len() as int;
    let wider = nodes.push(NodeState::fresh());
    let made = adopted_each(wider, ms, id, ms.len());
    let m = list_model(id, ms);
    assert(table_wf(wider)) by {
        assert forall|i: int| 0 <= i < wider.len() implies (#[trigger] wider[i]).flags.wf() && (
        wider[i].parent matches Some(p) ==> i < p.0 < wider.len()) by {
            if i < f {
                assert(wider[i] == nodes[i]);
            }
        }
    }
    assert forall|j: int| 0 <= j < ms.len() implies is_live(wider, (#[trigger] ms[j]).id)
        && ms[j].id.0 < id.0 by {
        assert(wider[ms[j].id.0 as int] == nodes[ms[j].id.0 as int]);
    }
    lemma_adopted_each(wider, ms, id, ms.len());
    assert(grafted(nodes, made, f)) by {
        assert(!is_among(ms, ms.len(), f)) by {
            if is_among(ms, ms.len(), f) {
                let j = choose|j: int| 0 <= j < ms.len() && (#[trigger] ms[j]).id.0 == f;
                assert(is_live(nodes, ms[j].id));
            }
        }
        assert(made[f].parent == wider[f].parent);
        assert forall|x: int| 0 <= x < nodes.len() implies {
            &&& (#[trigger] made[x]).alive == nodes[x].alive
            &&& made[x].flags == nodes[x].flags
            &&& owner(made, x) == owner(nodes, x) || (owner(nodes, x) is None && owner(made, x)
                == Some(f))
        } by {
            assert(wider[x] == nodes[x]);
            assert(made[x].alive == wider[x].alive);
            if is_among(ms, ms.len(), x) {
                let j = choose|j: int| 0 <= j < ms.len() && (#[trigger] ms[j]).id.0 == x;
                assert(owner(nodes, ms[j].id.0 as int) is None);
            } else {
                assert(made[x].parent == nodes[x].parent);
                assert(nodes[x].flags.wf() && (nodes[x].parent matches Some(p) ==> x < p.0
                    < nodes.len()));
            }
        }
    }
    assert(owners_live(made)) by {
        assert forall|x: int|
            0 <= x < made.len() && (#[trigger] made[x]).alive && owner(made, x) is Some implies made[owner(
            made,
            x,
        ).unwrap()].alive by {
            if x < f {
                assert(made[x].alive == nodes[x].alive);
                if owner(made, x) == owner(nodes, x) {
                    let p = owner(nodes, x).unwrap();
                    assert(made[p].alive == nodes[p].alive);
                }
            }
        }
    }
    assert(registered(m, made)) by {
        assert forall|k: int| 0 <= k < m.children.len() implies owner(
            made,
            (#[trigger] m.children[k]).id.0 as int,
        ) == Some(m.id.0 as int) && registered(m.children[k], made) by {
            let c = ms[k].id.0 as int;
            assert(is_among(ms, ms.len(), c));
            assert(made[c].parent == Some(id));
            lemma_registered_grafted(ms[k], nodes, made, f);
        }
        assert forall|x: int|
            0 <= x < made.len() && #[trigger] owner(made, x) == Some(m.id.0 as int) implies exists|k: int|
            0 <= k < m.children.len() && (#[trigger] m.children[k]).id.0 == x by {
            assert(x != f);
            if !is_among(ms, ms.len(), x) {
                assert(made[x].parent == wider[x].parent);
                assert(wider[x] == nodes[x]);
                assert(nodes[x].flags.wf() && (nodes[x].parent matches Some(p) ==> x < p.0
                    < nodes.len()));
            }
            let j = choose|j: int| 0 <= j < ms.len() && (#[trigger] ms[j]).id.0 == x;
            assert(m.children[j].id.0 == x);
        }
    }
    assert(asks_reach_up(made, f)) by {
        assert forall|x: int|
            #[trigger] owns(made, f, x) && x != f && made[x].alive && made[x].flags.style implies owner(
            made,
            x,
        ) is Some && made[owner(made, x).unwrap()].flags.style by {
            lemma_owners_come_later(made, f, x);
            assert(made[x].flags == nodes[x].flags);
            assert(made[x].alive == nodes[x].alive);
            if owner(made, x) == Some(f) {
                assert(wider[f].flags.style);
            } else {
                let c = lemma_owns_down(made, f, x);
                assert(c != f);
                lemma_owners_come_later(made, c, x);
                assert(made[c].alive == nodes[c].alive);
                assert(owner(nodes, c) is None);
                if !is_among(ms, ms.len(), c) {
                    assert(made[c].parent == wider[c].parent);
                    assert(wider[c] == nodes[c]);
                    assert(nodes[c].flags.wf() && (nodes[c].parent matches Some(p) ==> c < p.0
                        < nodes.len()));
                }
                let j = choose|j: int| 0 <= j < ms.len() && (#[trigger] ms[j]).id.0 == c;
                lemma_owns_grafted(nodes, made, f, c, x);
                assert(owns(nodes, ms[j].id.0 as int, x));
                let p = owner(nodes, x).unwrap();
                assert(nodes[p].flags.style);
                lemma_owners_come_later(nodes, c, p);
                assert(made[p].flags == nodes[p].flags);
            }
        }
    }
    assert(layout_asks_reach_up(made, f)) by {
        assert forall|x: int|
            #[trigger] owns(made, f, x) && x != f && made[x].alive && made[x].flags.layout implies owner(
            made,
            x,
        ) is Some && made[owner(made, x).unwrap()].flags.layout by {
            lemma_owners_come_later(made, f, x);
            assert(made[x].flags == nodes[x].flags);
            assert(made[x].alive == nodes[x].alive);
            if owner(made, x) == Some(f) {
                assert(wider[f].flags.layout);
            } else {
                let c = lemma_owns_down(made, f, x);
                assert(c != f);
                lemma_owners_come_later(made, c, x);
                assert(made[c].alive == nodes[c].alive);
                assert(owner(nodes, c) is None);
                if !is_among(ms, ms.len(), c) {
                    assert(made[c].parent == wider[c].parent);
                    assert(wider[c] == nodes[c]);
                    assert(nodes[c].flags.wf() && (nodes[c].parent matches Some(p) ==> c < p.0
                        < nodes.len()));
                }
                let j = choose|j: int| 0 <= j < ms.len() && (#[trigger] ms[j]).id.0 == c;
                lemma_owns_grafted(nodes, made, f, c, x);
                assert(owns(nodes, ms[j].id.0 as int, x));
                let p = owner(nodes, x).unwrap();
                assert(nodes[p].flags.layout);
                lemma_owners_come_later(nodes, c, p);
                assert(made[p].flags == nodes[p].flags);
            }
        }
    }
}

/// A stale identifier finds nothing. Take a tree that the table knows, and
/// a node that its root does not own directly, such as a sibling of the
/// root. The root has no child under the identifier of that node. When the
/// node has been released and another node has been created, the new
/// identifier differs from the released one, the released identifier names
/// no live node, and the root has no child under either: not one of its
/// own children, and not the new node.
pub proof fn lemma_stale_id_is_not_found(nodes: Seq<NodeState>, m: NodeModel, gone: Id)
    requires
        table_wf(nodes),
        nodes.len() < u64::MAX,
        registered(m, nodes),
        gone.0 < nodes.len(),
        owner(nodes, gone.0 as int) != Some(m.id.0 as int),
    ensures
        ({
            let made = Id(nodes.len() as u64);
            let after = released(nodes, gone.0 as int).push(NodeState::fresh());
            &&& made != gone
            &&& position(m.children, gone, 0) is None
            &&& position(m.children, made, 0) is None
            &&& !is_live(after, gone)
            &&& is_live(after, made)
        }),
{
    let made = Id(nodes.len() as u64);
    lemma_position(m.children, gone, 0);
    lemma_position(m.children, made, 0);
    assert forall|j: int| 0 <= j < m.children.len() implies (#[trigger] m.children[j]).id != gone
        && m.children[j].id != made by {
        assert(owner(nodes, m.children[j].id.0 as int) == Some(m.id.0 as int));
    }
    assert(owns(nodes, gone.0 as int, gone.0 as int));
}

} // verus!
