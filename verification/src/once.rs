//! Each tracked read is evaluated once. The store counts the evaluations
//! of every computation. In one style traversal of a tree that the table
//! knows, the tracker of a node that asks for its style is evaluated
//! exactly once, however often the signals it follows were written before,
//! and the tracker of a node that the traversal does not reach is not
//! evaluated at all.

use vstd::prelude::*;
use crate::context::style::{
    lemma_restyled, lemma_style_children_settles, lemma_style_view_settles, observed, restyled,
    style_children, style_view, StyleModel,
};
use crate::id::Id;
use crate::mirror::{
    in_tree, in_trees, lemma_in_tree_owned, lemma_root_is_not_below, lemma_trees_apart,
};
use crate::signal::{counted, Computation, SignalModel};
use crate::state::{is_live, owner, owns, table_wf, NodeState};
use crate::style::resolved;
use crate::tree::{
    asks_reach_up, lemma_alive_chain, lemma_children_untouched, lemma_clean_chain,
    lemma_next_child_untouched, lemma_restyled_touches_one, lemma_style_children_clean,
    lemma_wf_reaches_up, registered, under_one_of,
};
use crate::view::NodeModel;

verus! {

/// The store counts each of its computations, and no evaluation is in
/// progress.
pub open spec fn idle(signals: SignalModel) -> bool {
    signals.evaluations.len() == signals.computations && signals.running is None
}

/// No node of the tree of `m` has the tracker `t`, but perhaps the node
/// `but`.
pub open spec fn untracked(m: NodeModel, nodes: Seq<NodeState>, t: Computation, but: Option<Id>) -> bool {
    forall|id: Id|
        #[trigger] in_tree(m, id) && id.0 < nodes.len() && Some(id) != but ==> nodes[id.0 as int].tracker
            != Some(t)
}

/// What one visit does to the count of `t`: finding the pseudo-states of a
/// node evaluates the node's tracker once, where it can be evaluated, and
/// no other computation.
pub proof fn lemma_observed_counts(node: NodeState, signals: SignalModel, t: Computation)
    requires
        idle(signals),
        t.0 < signals.computations,
    ensures
        idle(observed(node, signals).1),
        observed(node, signals).1.computations == signals.computations,
        node.tracker != Some(t) ==> observed(node, signals).1.evaluations[t.0 as int]
            == signals.evaluations[t.0 as int],
        node.tracker == Some(t) ==> observed(node, signals).1.evaluations[t.0 as int] == counted(
            signals.evaluations[t.0 as int],
        ),
{
}

/// A style traversal evaluates no computation that is the tracker of none
/// of the nodes of the tree.
pub proof fn lemma_style_view_counts(m: NodeModel, st: StyleModel, t: Computation)
    requires
        table_wf(st.nodes),
        idle(st.signals),
        t.0 < st.signals.computations,
    ensures
        idle(style_view(m, st).signals),
        style_view(m, st).signals.computations == st.signals.computations,
        untracked(m, st.nodes, t, None) ==> style_view(m, st).signals.evaluations[t.0 as int]
            == st.signals.evaluations[t.0 as int],
    decreases m, 1int,
{
    if !is_live(st.nodes, m.id) || (!st.nodes[m.id.0 as int].flags.style && !st.forced) {
    } else {
        let node = st.nodes[m.id.0 as int];
        let found = observed(node, st.signals);
        let computed = resolved(st.inherited, m.intrinsic, node.sheet, found.0);
        let inner = StyleModel {
            nodes: restyled(st.nodes, m.id, found.0, computed),
            signals: found.1,
            inherited: computed.spec_inheritable(),
            forced: st.forced || computed.spec_inheritable() != node.computed.spec_inheritable(),
        };
        lemma_observed_counts(node, st.signals, t);
        lemma_restyled(st.nodes, m.id, found.0, computed);
        lemma_style_children_counts(m.children, m.children.len(), inner, t);
        if untracked(m, st.nodes, t, None) {
            assert(in_tree(m, m.id));
            assert forall|i: int| 0 <= i < m.children.len() implies untracked(
                #[trigger] m.children[i],
                inner.nodes,
                t,
                None,
            ) by {
                assert forall|id: Id|
                    #[trigger] in_tree(m.children[i], id) && id.0 < inner.nodes.len() implies inner.nodes[id.0 as int].tracker
                    != Some(t) by {
                    assert(in_tree(m, id));
                    assert(inner.nodes[id.0 as int].tracker == st.nodes[id.0 as int].tracker);
                }
            }
        }
    }
}

/// See [`lemma_style_view_counts`].
pub proof fn lemma_style_children_counts(ms: Seq<NodeModel>, k: nat, st: StyleModel, t: Computation)
    requires
        table_wf(st.nodes),
        idle(st.signals),
        t.0 < st.signals.computations,
    ensures
        idle(style_children(ms, k, st).signals),
        style_children(ms, k, st).signals.computations == st.signals.computations,
        (forall|i: int| 0 <= i < k && i < ms.len() ==> untracked(#[trigger] ms[i], st.nodes, t, None))
            ==> style_children(ms, k, st).signals.evaluations[t.0 as int]
            == st.signals.evaluations[t.0 as int],
    decreases ms, k,
{
    if k == 0 || k > ms.len() {
    } else {
        let before = style_children(ms, (k - 1) as nat, st);
        lemma_style_children_counts(ms, (k - 1) as nat, st, t);
        lemma_style_children_settles(ms, (k - 1) as nat, st);
        lemma_style_view_counts(ms[k - 1], before, t);
        if forall|i: int| 0 <= i < k && i < ms.len() ==> untracked(#[trigger] ms[i], st.nodes, t, None) {
            assert(untracked(ms[k - 1], st.nodes, t, None));
            assert forall|id: Id|
                #[trigger] in_tree(ms[k - 1], id) && id.0 < before.nodes.len() implies before.nodes[id.0 as int].tracker
                != Some(t) by {
                assert(before.nodes[id.0 as int].tracker == st.nodes[id.0 as int].tracker);
            }
            assert(untracked(ms[k - 1], before.nodes, t, None));
        }
    }
}

/// The tracker of the node that a traversal starts at is evaluated exactly
/// once. Take a tree that the table knows, whose root is live and asks for
/// its style or is forced, and whose root alone has the tracker `t`. The
/// traversal of the tree counts one more evaluation of `t`.
pub proof fn lemma_root_is_evaluated_once(m: NodeModel, st: StyleModel, t: Computation)
    requires
        table_wf(st.nodes),
        registered(m, st.nodes),
        idle(st.signals),
        t.0 < st.signals.computations,
        is_live(st.nodes, m.id),
        st.nodes[m.id.0 as int].flags.style || st.forced,
        st.nodes[m.id.0 as int].tracker == Some(t),
        untracked(m, st.nodes, t, Some(m.id)),
    ensures
        style_view(m, st).signals.evaluations[t.0 as int] == counted(
            st.signals.evaluations[t.0 as int],
        ),
{
    let ms = m.children;
    let node = st.nodes[m.id.0 as int];
    let found = observed(node, st.signals);
    let computed = resolved(st.inherited, m.intrinsic, node.sheet, found.0);
    let inner = StyleModel {
        nodes: restyled(st.nodes, m.id, found.0, computed),
        signals: found.1,
        inherited: computed.spec_inheritable(),
        forced: st.forced || computed.spec_inheritable() != node.computed.spec_inheritable(),
    };
    lemma_observed_counts(node, st.signals, t);
    lemma_restyled(st.nodes, m.id, found.0, computed);
    lemma_root_is_not_below(m, st.nodes);
    assert forall|i: int| 0 <= i < ms.len() implies untracked(#[trigger] ms[i], inner.nodes, t, None) by {
        assert forall|id: Id|
            #[trigger] in_tree(ms[i], id) && id.0 < inner.nodes.len() implies inner.nodes[id.0 as int].tracker
            != Some(t) by {
            assert(in_tree(m, id));
            assert(in_trees(ms, ms.len(), id));
            assert(id != m.id);
            assert(inner.nodes[id.0 as int].tracker == st.nodes[id.0 as int].tracker);
        }
    }
    lemma_style_children_counts(ms, ms.len(), inner, t);
}

/// The tracker of a node that asks is evaluated exactly once. Take a tree
/// that the table knows, in which requests have reached up, and a live node
/// of it that asks for its style and alone in the tree has the tracker `t`.
/// One traversal of the tree counts one more evaluation of `t`: the node's
/// tracked read is evaluated once, and not once for each write that made
/// the node ask.
pub proof fn lemma_asker_is_evaluated_once(m: NodeModel, st: StyleModel, x: Id, t: Computation)
    requires
        table_wf(st.nodes),
        registered(m, st.nodes),
        asks_reach_up(st.nodes, m.id.0 as int),
        idle(st.signals),
        t.0 < st.signals.computations,
        in_tree(m, x),
        is_live(st.nodes, x),
        st.nodes[x.0 as int].flags.style,
        st.nodes[x.0 as int].tracker == Some(t),
        untracked(m, st.nodes, t, Some(x)),
    ensures
        style_view(m, st).signals.evaluations[t.0 as int] == counted(
            st.signals.evaluations[t.0 as int],
        ),
    decreases m, 1int,
{
    if x == m.id {
        lemma_root_is_evaluated_once(m, st, t);
    } else {
        let root = m.id.0 as int;
        let ms = m.children;
        lemma_wf_reaches_up(st.nodes, root);
        lemma_in_tree_owned(m, st.nodes, x);
        lemma_alive_chain(st.nodes, root, x.0 as int);
        if !st.nodes[root].flags.style {
            lemma_clean_chain(st.nodes, root, x.0 as int);
        }
        let node = st.nodes[root];
        let found = observed(node, st.signals);
        let computed = resolved(st.inherited, m.intrinsic, node.sheet, found.0);
        let inner = StyleModel {
            nodes: restyled(st.nodes, m.id, found.0, computed),
            signals: found.1,
            inherited: computed.spec_inheritable(),
            forced: st.forced || computed.spec_inheritable() != node.computed.spec_inheritable(),
        };
        assert(in_tree(m, m.id));
        lemma_observed_counts(node, st.signals, t);
        lemma_restyled(st.nodes, m.id, found.0, computed);
        lemma_restyled_touches_one(st.nodes, m.id, found.0, computed);
        lemma_children_untouched(m, st.nodes, inner.nodes);
        let i = choose|i: int| 0 <= i < ms.len() && in_tree(#[trigger] ms[i], x);
        assert forall|j: int| 0 <= j < ms.len() implies untracked(
            #[trigger] ms[j],
            inner.nodes,
            t,
            Some(x),
        ) by {
            assert forall|id: Id|
                #[trigger] in_tree(ms[j], id) && id.0 < inner.nodes.len() && Some(id) != Some(
                    x,
                ) implies inner.nodes[id.0 as int].tracker != Some(t) by {
                assert(in_tree(m, id));
                assert(inner.nodes[id.0 as int].tracker == st.nodes[id.0 as int].tracker);
            }
        }
        assert(inner.nodes[x.0 as int].tracker == st.nodes[x.0 as int].tracker);
        assert(inner.nodes[x.0 as int].alive == st.nodes[x.0 as int].alive);
        lemma_children_evaluate_once(ms, ms.len(), inner, root, i, x, t);
    }
}

/// See [`lemma_asker_is_evaluated_once`]: the same of the first `k` of the
/// nodes `ms`, which all have the owner `root`, where the node that asks is
/// in the tree of `ms[i]`. Up to that tree the tracker is not evaluated,
/// and from then on it has been evaluated once.
pub proof fn lemma_children_evaluate_once(
    ms: Seq<NodeModel>,
    k: nat,
    st: StyleModel,
    root: int,
    i: int,
    x: Id,
    t: Computation,
)
    requires
        table_wf(st.nodes),
        idle(st.signals),
        t.0 < st.signals.computations,
        k <= ms.len(),
        0 <= i < ms.len(),
        forall|j: int|
            0 <= j < ms.len() ==> registered(#[trigger] ms[j], st.nodes) && owner(
                st.nodes,
                ms[j].id.0 as int,
            ) == Some(root) && asks_reach_up(st.nodes, ms[j].id.0 as int),
        forall|a: int, b: int|
            0 <= a < b < ms.len() ==> (#[trigger] ms[a]).id != (#[trigger] ms[b]).id,
        in_tree(ms[i], x),
        is_live(st.nodes, x),
        st.nodes[x.0 as int].flags.style,
        st.nodes[x.0 as int].tracker == Some(t),
        forall|j: int| 0 <= j < ms.len() ==> untracked(#[trigger] ms[j], st.nodes, t, Some(x)),
    ensures
        k <= i ==> style_children(ms, k, st).signals.evaluations[t.0 as int]
            == st.signals.evaluations[t.0 as int],
        k > i ==> style_children(ms, k, st).signals.evaluations[t.0 as int] == counted(
            st.signals.evaluations[t.0 as int],
        ),
    decreases ms, k,
{
    if k > 0 {
        let before = style_children(ms, (k - 1) as nat, st);
        let c = ms[k - 1];
        lemma_children_evaluate_once(ms, (k - 1) as nat, st, root, i, x, t);
        lemma_style_children_settles(ms, (k - 1) as nat, st);
        lemma_style_children_counts(ms, (k - 1) as nat, st, t);
        lemma_wf_reaches_up(st.nodes, root);
        lemma_style_children_clean(ms, (k - 1) as nat, st, root);
        lemma_next_child_untouched(ms, k, st.nodes, before.nodes, root);
        lemma_in_tree_owned(ms[i], st.nodes, x);
        assert(untracked(c, before.nodes, t, Some(x))) by {
            assert forall|id: Id|
                #[trigger] in_tree(c, id) && id.0 < before.nodes.len() && Some(id) != Some(
                    x,
                ) implies before.nodes[id.0 as int].tracker != Some(t) by {
                assert(before.nodes[id.0 as int].tracker == st.nodes[id.0 as int].tracker);
            }
        }
        if k - 1 == i {
            assert(owns(st.nodes, c.id.0 as int, x.0 as int));
            assert(!under_one_of(ms, (k - 1) as nat, st.nodes, x.0 as int));
            assert(before.nodes[x.0 as int].flags.style == st.nodes[x.0 as int].flags.style);
            assert(before.nodes[x.0 as int].alive == st.nodes[x.0 as int].alive);
            assert(before.nodes[x.0 as int].tracker == st.nodes[x.0 as int].tracker);
            lemma_asker_is_evaluated_once(c, before, x, t);
        } else {
            assert(!in_tree(c, x)) by {
                if k - 1 < i {
                    assert(ms[k - 1].id != ms[i].id);
                } else {
                    assert(ms[i].id != ms[k - 1].id);
                }
                lemma_trees_apart(ms[i], c, st.nodes, root, x);
            }
            assert(untracked(c, before.nodes, t, None));
            lemma_style_view_counts(c, before, t);
        }
    }
}

} // verus!
