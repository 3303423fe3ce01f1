//! A second style traversal changes nothing. When the styles of a tree
//! that the table knows have been resolved, resolving them again, with
//! nothing written in between, leaves every entry of the table as it was:
//! also where the traversal is forced, and every node is resolved again
//! whether it asked for it or not.

use vstd::prelude::*;
use crate::context::style::{
    lemma_requested_only_flags, lemma_restyled, lemma_style_children_settles,
    lemma_style_is_idempotent, lemma_style_node_is_idempotent, lemma_style_view_settles, observed,
    restyled, settles, style_children, style_node, style_only, style_view, StyleModel,
};
use crate::flags::ChangeFlags;
use crate::id::Id;
use crate::mirror::{in_tree, in_trees, lemma_root_is_not_below, lemma_trees_apart};
use crate::signal::SignalModel;
use crate::state::{is_live, owner, table_wf, NodeState};
use crate::style::{resolved, Interaction, Style};
use crate::tree::{lemma_registered_by_shape, registered, same_shape};
use crate::view::NodeModel;

verus! {

/// The two stores hold the same values and computations, and the same
/// evaluation is in progress in both: they differ at most in which
/// computation read which signal.
pub open spec fn alike(a: SignalModel, b: SignalModel) -> bool {
    a.values == b.values && a.computations == b.computations && a.running == b.running
}

/// What the traversal finds a node's pseudo-states to be depends on the
/// store only in what two stores that are alike have in common, and leaves
/// the store like it was.
pub proof fn lemma_observed_alike(node: NodeState, a: SignalModel, b: SignalModel)
    requires
        alike(a, b),
    ensures
        observed(node, a).0 == observed(node, b).0,
        alike(observed(node, a).1, a),
{
}

/// A node that is in the pseudo-states that the traversal found is found
/// in them again.
pub proof fn lemma_observed_again(node: NodeState, again: NodeState, a: SignalModel, b: SignalModel)
    requires
        alike(a, b),
        again.tracker == node.tracker,
        again.watch == node.watch,
        again.interaction == observed(node, a).0,
    ensures
        observed(again, b).0 == again.interaction,
{
}

/// Giving a node its computed style changes the pseudo-states and the
/// computed style of no other node.
pub proof fn lemma_restyled_touches(nodes: Seq<NodeState>, id: Id, state: Interaction, computed: Style)
    requires
        id.0 < nodes.len(),
    ensures
        restyled(nodes, id, state, computed).len() == nodes.len(),
        forall|j: int|
            0 <= j < nodes.len() && j != id.0 ==> (#[trigger] restyled(
                nodes,
                id,
                state,
                computed,
            )[j]).computed == nodes[j].computed && restyled(nodes, id, state, computed)[j].interaction
                == nodes[j].interaction,
{
    let node = nodes[id.0 as int];
    let stored = nodes.update(
        id.0 as int,
        NodeState {
            interaction: state,
            computed,
            flags: node.flags.spec_difference(style_only()),
            ..node
        },
    );
    lemma_requested_only_flags(stored, id.0 as int, ChangeFlags::spec_layout());
    lemma_requested_only_flags(stored, id.0 as int, ChangeFlags::spec_paint());
}

/// Style resolution gives other pseudo-states or another computed style
/// to the nodes of the tree it was asked to resolve, and to no other; the
/// store is afterwards like it was.
pub proof fn lemma_style_view_touches(m: NodeModel, st: StyleModel)
    ensures
        style_view(m, st).nodes.len() == st.nodes.len(),
        alike(style_view(m, st).signals, st.signals),
        forall|id: Id|
            id.0 < st.nodes.len() && !(#[trigger] in_tree(m, id)) ==> style_view(
                m,
                st,
            ).nodes[id.0 as int].computed == st.nodes[id.0 as int].computed && style_view(
                m,
                st,
            ).nodes[id.0 as int].interaction == st.nodes[id.0 as int].interaction,
    decreases m, 1int,
{
    if !is_live(st.nodes, m.id) || (!st.nodes[m.id.0 as int].flags.style && !st.forced) {
    } else {
        let node = st.nodes[m.id.0 as int];
        let found = observed(node, st.signals);
        let computed = resolved(st.inherited, m.intrinsic, node.sheet, found.0);
        let inner = StyleModel {
            nodes: restyled(st.nodes, m.id, found.0, computed),
            signals: found.1,
            inherited: computed.spec_inheritable(),
            forced: st.forced || computed.spec_inheritable() != node.computed.spec_inheritable(),
        };
        lemma_observed_alike(node, st.signals, st.signals);
        lemma_restyled_touches(st.nodes, m.id, found.0, computed);
        lemma_style_children_touches(m.children, m.children.len(), inner);
        let after = style_view(m, st);
        assert forall|id: Id| id.0 < st.nodes.len() && !(#[trigger] in_tree(m, id)) implies after.nodes[id.0 as int].computed
            == st.nodes[id.0 as int].computed && after.nodes[id.0 as int].interaction
            == st.nodes[id.0 as int].interaction by {
            assert(id != m.id);
            assert(!in_trees(m.children, m.children.len(), id)) by {
                if in_trees(m.children, m.children.len(), id) {
                    let i = choose|i: int|
                        0 <= i < m.children.len() && in_tree(#[trigger] m.children[i], id);
                    assert(in_tree(m, id));
                }
            }
            assert(inner.nodes[id.0 as int].computed == st.nodes[id.0 as int].computed);
        }
    }
}

/// See [`lemma_style_view_touches`].
pub proof fn lemma_style_children_touches(ms: Seq<NodeModel>, k: nat, st: StyleModel)
    ensures
        style_children(ms, k, st).nodes.len() == st.nodes.len(),
        alike(style_children(ms, k, st).signals, st.signals),
        forall|id: Id|
            id.0 < st.nodes.len() && !(#[trigger] in_trees(ms, k, id)) ==> style_children(
                ms,
                k,
                st,
            ).nodes[id.0 as int].computed == st.nodes[id.0 as int].computed && style_children(
                ms,
                k,
                st,
            ).nodes[id.0 as int].interaction == st.nodes[id.0 as int].interaction,
    decreases ms, k,
{
    if k == 0 || k > ms.len() {
    } else {
        let before = style_children(ms, (k - 1) as nat, st);
        lemma_style_children_touches(ms, (k - 1) as nat, st);
        lemma_style_view_touches(ms[k - 1], before);
        let after = style_children(ms, k, st);
        assert forall|id: Id| id.0 < st.nodes.len() && !(#[trigger] in_trees(ms, k, id)) implies after.nodes[id.0 as int].computed
            == st.nodes[id.0 as int].computed && after.nodes[id.0 as int].interaction
            == st.nodes[id.0 as int].interaction by {
            assert(!in_tree(ms[k - 1], id)) by {
                if in_tree(ms[k - 1], id) {
                    assert(in_trees(ms, k, id));
                }
            }
            assert(!in_trees(ms, (k - 1) as nat, id)) by {
                if in_trees(ms, (k - 1) as nat, id) {
                    let i = choose|i: int| 0 <= i < k - 1 && i < ms.len() && in_tree(#[trigger] ms[i], id);
                    assert(in_trees(ms, k, id));
                }
            }
            assert(before.nodes[id.0 as int].computed == st.nodes[id.0 as int].computed);
        }
    }
}

/// The tree of `m` is at rest in the table: every live node of it that a
/// forced traversal reaches from `m`, inheriting `inherited` there, does
/// not ask for its style, is in the pseudo-states that the traversal would
/// find, and has the computed style that the traversal would give it.
pub open spec fn at_rest(m: NodeModel, nodes: Seq<NodeState>, signals: SignalModel, inherited: Style) -> bool
    decreases m,
{
    if !is_live(nodes, m.id) {
        true
    } else {
        let node = nodes[m.id.0 as int];
        &&& !node.flags.style
        &&& observed(node, signals).0 == node.interaction
        &&& resolved(inherited, m.intrinsic, node.sheet, node.interaction) == node.computed
        &&& forall|i: int|
            0 <= i < m.children.len() ==> at_rest(
                #[trigger] m.children[i],
                nodes,
                signals,
                node.computed.spec_inheritable(),
            )
    }
}

/// Whether a tree is at rest depends on the store only in what two stores
/// that are alike have in common.
pub proof fn lemma_rest_alike(
    m: NodeModel,
    nodes: Seq<NodeState>,
    a: SignalModel,
    b: SignalModel,
    inherited: Style,
)
    requires
        at_rest(m, nodes, a, inherited),
        alike(a, b),
    ensures
        at_rest(m, nodes, b, inherited),
    decreases m,
{
    if is_live(nodes, m.id) {
        let node = nodes[m.id.0 as int];
        lemma_observed_alike(node, a, b);
        assert forall|i: int| 0 <= i < m.children.len() implies at_rest(
            #[trigger] m.children[i],
            nodes,
            b,
            node.computed.spec_inheritable(),
        ) by {
            lemma_rest_alike(m.children[i], nodes, a, b, node.computed.spec_inheritable());
        }
    }
}

/// A tree at rest stays at rest while the table is settled further and no
/// node of the tree gets other pseudo-states or another computed style.
pub proof fn lemma_rest_frame(
    t: NodeModel,
    a: Seq<NodeState>,
    b: Seq<NodeState>,
    signals: SignalModel,
    inherited: Style,
)
    requires
        at_rest(t, a, signals, inherited),
        settles(a, b),
        forall|id: Id|
            id.0 < a.len() && #[trigger] in_tree(t, id) ==> b[id.0 as int].computed
                == a[id.0 as int].computed && b[id.0 as int].interaction == a[id.0 as int].interaction,
    ensures
        at_rest(t, b, signals, inherited),
    decreases t,
{
    if is_live(b, t.id) {
        assert(in_tree(t, t.id));
        let node = a[t.id.0 as int];
        let next = b[t.id.0 as int];
        assert(next.alive == node.alive);
        assert(next.tracker == node.tracker && next.watch == node.watch && next.sheet == node.sheet);
        assert(observed(next, signals).0 == observed(node, signals).0);
        assert forall|i: int| 0 <= i < t.children.len() implies at_rest(
            #[trigger] t.children[i],
            b,
            signals,
            next.computed.spec_inheritable(),
        ) by {
            assert forall|id: Id| id.0 < a.len() && #[trigger] in_tree(t.children[i], id) implies b[id.0 as int].computed
                == a[id.0 as int].computed && b[id.0 as int].interaction
                == a[id.0 as int].interaction by {
                assert(in_tree(t, id));
            }
            lemma_rest_frame(t.children[i], a, b, signals, node.computed.spec_inheritable());
        }
    }
}

/// A forced traversal of a tree at rest changes nothing in the table.
pub proof fn lemma_rest_view_stays(m: NodeModel, st: StyleModel)
    requires
        table_wf(st.nodes),
        st.forced,
        at_rest(m, st.nodes, st.signals, st.inherited),
    ensures
        style_view(m, st).nodes == st.nodes,
        alike(style_view(m, st).signals, st.signals),
    decreases m, 1int,
{
    if is_live(st.nodes, m.id) {
        let node = st.nodes[m.id.0 as int];
        let found = observed(node, st.signals);
        let computed = resolved(st.inherited, m.intrinsic, node.sheet, found.0);
        lemma_observed_alike(node, st.signals, st.signals);
        assert(node.flags.spec_difference(style_only()) == node.flags);
        assert(restyled(st.nodes, m.id, found.0, computed) =~= st.nodes);
        let inner = StyleModel {
            nodes: st.nodes,
            signals: found.1,
            inherited: computed.spec_inheritable(),
            forced: true,
        };
        assert forall|i: int| 0 <= i < m.children.len() implies at_rest(
            #[trigger] m.children[i],
            inner.nodes,
            inner.signals,
            inner.inherited,
        ) by {
            lemma_rest_alike(m.children[i], st.nodes, st.signals, found.1, inner.inherited);
        }
        lemma_rest_children_stay(m.children, m.children.len(), inner);
    }
}

/// See [`lemma_rest_view_stays`].
pub proof fn lemma_rest_children_stay(ms: Seq<NodeModel>, k: nat, st: StyleModel)
    requires
        table_wf(st.nodes),
        st.forced,
        k <= ms.len(),
        forall|i: int| 0 <= i < k ==> at_rest(#[trigger] ms[i], st.nodes, st.signals, st.inherited),
    ensures
        style_children(ms, k, st).nodes == st.nodes,
        alike(style_children(ms, k, st).signals, st.signals),
    decreases ms, k,
{
    if k > 0 {
        let before = style_children(ms, (k - 1) as nat, st);
        lemma_rest_children_stay(ms, (k - 1) as nat, st);
        lemma_style_children_settles(ms, (k - 1) as nat, st);
        lemma_rest_alike(ms[k - 1], st.nodes, st.signals, before.signals, st.inherited);
        lemma_rest_view_stays(ms[k - 1], before);
    }
}

/// A forced traversal of a tree that the table knows leaves the tree at
/// rest.
pub proof fn lemma_forced_view_rests(m: NodeModel, st: StyleModel)
    requires
        table_wf(st.nodes),
        registered(m, st.nodes),
        st.forced,
    ensures
        at_rest(m, style_view(m, st).nodes, st.signals, st.inherited),
    decreases m, 1int,
{
    lemma_style_view_settles(m, st);
    if is_live(st.nodes, m.id) {
        let ms = m.children;
        let node = st.nodes[m.id.0 as int];
        let found = observed(node, st.signals);
        let computed = resolved(st.inherited, m.intrinsic, node.sheet, found.0);
        let inner = StyleModel {
            nodes: restyled(st.nodes, m.id, found.0, computed),
            signals: found.1,
            inherited: computed.spec_inheritable(),
            forced: true,
        };
        lemma_restyled(st.nodes, m.id, found.0, computed);
        lemma_observed_alike(node, st.signals, st.signals);
        assert(same_shape(st.nodes, inner.nodes));
        assert forall|j: int| 0 <= j < ms.len() implies registered(#[trigger] ms[j], inner.nodes)
            && owner(inner.nodes, ms[j].id.0 as int) == Some(m.id.0 as int) by {
            lemma_registered_by_shape(ms[j], st.nodes, inner.nodes);
            assert(owner(st.nodes, ms[j].id.0 as int) == Some(m.id.0 as int));
            assert(inner.nodes[ms[j].id.0 as int].parent == st.nodes[ms[j].id.0 as int].parent);
        }
        lemma_forced_children_rest(ms, ms.len(), inner, m.id.0 as int);
        let below = style_children(ms, ms.len(), inner);
        lemma_style_children_settles(ms, ms.len(), inner);
        lemma_style_children_touches(ms, ms.len(), inner);
        lemma_root_is_not_below(m, st.nodes);
        let last = below.nodes[m.id.0 as int];
        assert(last.computed == computed && last.interaction == found.0);
        assert(last.alive == inner.nodes[m.id.0 as int].alive);
        assert(last.tracker == node.tracker && last.watch == node.watch && last.sheet == node.sheet) by {
            assert(inner.nodes[m.id.0 as int].tracker == node.tracker);
        }
        assert(!last.flags.style);
        lemma_observed_again(node, last, st.signals, st.signals);
        assert forall|i: int| 0 <= i < ms.len() implies at_rest(
            #[trigger] ms[i],
            below.nodes,
            st.signals,
            last.computed.spec_inheritable(),
        ) by {
            lemma_rest_alike(ms[i], below.nodes, inner.signals, st.signals, inner.inherited);
        }
        assert(style_view(m, st).nodes == below.nodes);
    }
}

/// See [`lemma_forced_view_rests`]: the same of the first `k` of the nodes
/// `ms`, which all have the owner `root`.
pub proof fn lemma_forced_children_rest(ms: Seq<NodeModel>, k: nat, st: StyleModel, root: int)
    requires
        table_wf(st.nodes),
        st.forced,
        k <= ms.len(),
        forall|j: int|
            0 <= j < ms.len() ==> registered(#[trigger] ms[j], st.nodes) && owner(
                st.nodes,
                ms[j].id.0 as int,
            ) == Some(root),
        forall|i: int, j: int|
            0 <= i < j < ms.len() ==> (#[trigger] ms[i]).id != (#[trigger] ms[j]).id,
    ensures
        forall|j: int|
            0 <= j < k ==> at_rest(
                #[trigger] ms[j],
                style_children(ms, k, st).nodes,
                st.signals,
                st.inherited,
            ),
    decreases ms, k,
{
    if k > 0 {
        let before = style_children(ms, (k - 1) as nat, st);
        let c = ms[k - 1];
        let after = style_view(c, before);
        lemma_forced_children_rest(ms, (k - 1) as nat, st, root);
        lemma_style_children_settles(ms, (k - 1) as nat, st);
        lemma_style_children_touches(ms, (k - 1) as nat, st);
        assert(same_shape(st.nodes, before.nodes));
        lemma_registered_by_shape(c, st.nodes, before.nodes);
        lemma_forced_view_rests(c, before);
        lemma_rest_alike(c, after.nodes, before.signals, st.signals, st.inherited);
        lemma_style_view_settles(c, before);
        lemma_style_view_touches(c, before);
        assert forall|j: int| 0 <= j < k - 1 implies at_rest(
            #[trigger] ms[j],
            after.nodes,
            st.signals,
            st.inherited,
        ) by {
            assert forall|id: Id| id.0 < before.nodes.len() && #[trigger] in_tree(ms[j], id) implies after.nodes[id.0 as int].computed
                == before.nodes[id.0 as int].computed && after.nodes[id.0 as int].interaction
                == before.nodes[id.0 as int].interaction by {
                assert(ms[j].id != ms[k - 1].id);
                lemma_trees_apart(ms[j], c, st.nodes, root, id);
            }
            lemma_rest_frame(ms[j], before.nodes, after.nodes, st.signals, st.inherited);
        }
    }
}

/// Style resolution is idempotent, forced or not. Take a tree that the
/// table knows. Resolving it and then resolving it again, with nothing
/// written in between, leaves every entry of the table, and with it every
/// computed style, as the first resolution left it: also where the
/// traversal is forced, and resolves every node again.
pub proof fn lemma_style_twice(m: NodeModel, st: StyleModel)
    requires
        table_wf(st.nodes),
        registered(m, st.nodes),
    ensures
        style_view(m, style_view(m, st)).nodes == style_view(m, st).nodes,
{
    if st.forced {
        let once = style_view(m, st);
        lemma_forced_view_rests(m, st);
        lemma_style_view_settles(m, st);
        lemma_style_view_touches(m, st);
        lemma_rest_alike(m, once.nodes, st.signals, once.signals, st.inherited);
        lemma_rest_view_stays(m, once);
    } else {
        lemma_style_is_idempotent(m, st);
    }
}

/// Resolving what a node contains is idempotent, forced or not. Take a
/// node whose tree the table knows. When the styles below it have been
/// resolved, resolving them again, with nothing written in between, visits
/// the nodes that it contains once more, each once and in their order, and
/// leaves every entry of the table, and with it every computed style, as
/// the first resolution left it.
pub proof fn lemma_style_node_twice(m: NodeModel, st: StyleModel)
    requires
        table_wf(st.nodes),
        registered(m, st.nodes),
    ensures
        style_node(m, style_node(m, st)).nodes == style_node(m, st).nodes,
{
    if st.forced {
        let ms = m.children;
        let once = style_children(ms, ms.len(), st);
        lemma_forced_children_rest(ms, ms.len(), st, m.id.0 as int);
        lemma_style_children_settles(ms, ms.len(), st);
        lemma_style_children_touches(ms, ms.len(), st);
        assert forall|i: int| 0 <= i < ms.len() implies at_rest(
            #[trigger] ms[i],
            once.nodes,
            once.signals,
            once.inherited,
        ) by {
            lemma_rest_alike(ms[i], once.nodes, st.signals, once.signals, st.inherited);
        }
        lemma_rest_children_stay(ms, ms.len(), once);
    } else {
        lemma_style_node_is_idempotent(m, st);
    }
}

} // verus!
