//! Style resolution: from the root down, the computed style of each node
//! that asked for it.

use vstd::prelude::*;
use crate::flags::ChangeFlags;
use crate::id::Id;
use crate::signal::{ReadSignal, SignalModel, SignalStore};
use crate::state::{
    is_live, lemma_owns_by_links, lemma_requested, lemma_requested_wf, lemma_update_keeps_wf,
    owns, requested, restyle_flags, table_wf, with_interaction, AppState, NodeState,
};
use crate::style::{lemma_states_keep_box, resolve, resolved, Interaction, Style};
use crate::view::{NodeModel, ViewNode};

verus! {

/// The state of a style traversal.
pub struct StyleModel {
    pub nodes: Seq<NodeState>,
    pub signals: SignalModel,
    /// What the node being visited inherits from above.
    pub inherited: Style,
    /// The nodes below are resolved whether they asked for it or not,
    /// because what they inherit has changed.
    pub forced: bool,
}

/// What a style traversal carries.
pub struct StyleCx {
    pub app: AppState,
    pub signals: SignalStore,
    pub inherited: Style,
    pub forced: bool,
}

impl View for StyleCx {
    type V = StyleModel;

    open spec fn view(&self) -> StyleModel {
        StyleModel {
            nodes: self.app@,
            signals: self.signals@,
            inherited: self.inherited,
            forced: self.forced,
        }
    }
}

/// The flag that style resolution takes from a node it has visited.
pub open spec fn style_only() -> ChangeFlags {
    ChangeFlags { style: true, layout: false, paint: false }
}

/// One pseudo-state as the traversal finds it: where it follows a signal of
/// the store, it is on while the signal is not 0, and the signal has been
/// read; else it is as it was.
pub open spec fn seen(watch: Option<ReadSignal>, current: bool, signals: SignalModel) -> (
    bool,
    SignalModel,
) {
    match watch {
        Some(r) => (
            if r.index < signals.values.len() {
                signals.values[r.index as int] != 0
            } else {
                current
            },
            signals.read(r.index as int),
        ),
        None => (current, signals),
    }
}

/// The pseudo-states of a node as the traversal finds them, and the store
/// afterwards. The signals that the pseudo-states follow are read in one
/// evaluation of the node's tracker, so that the store knows afresh which of
/// them the node's style depends on. A node without a tracker, or one whose
/// tracker cannot be evaluated now, is in the pseudo-states it was in.
pub open spec fn observed(node: NodeState, signals: SignalModel) -> (Interaction, SignalModel) {
    match node.tracker {
        Some(tracker) => if signals.can_begin(tracker) {
            let disabled = seen(node.watch.disabled, node.interaction.disabled, signals.began(tracker));
            let focus = seen(node.watch.focus_visible, node.interaction.focus_visible, disabled.1);
            let hovered = seen(node.watch.hovered, node.interaction.hovered, focus.1);
            let active = seen(node.watch.active, node.interaction.active, hovered.1);
            (
                Interaction {
                    disabled: disabled.0,
                    focus_visible: focus.0,
                    hovered: hovered.0,
                    active: active.0,
                },
                active.1.ended(),
            )
        } else {
            (node.interaction, signals)
        },
        None => (node.interaction, signals),
    }
}

/// The table after the node `id` has been found in the pseudo-states
/// `state` and given the computed style `computed`: it no longer asks for
/// its style; where the box properties have changed, it and its owners ask
/// for layout and paint; where anything else has changed, for paint.
pub open spec fn restyled(nodes: Seq<NodeState>, id: Id, state: Interaction, computed: Style) -> Seq<
    NodeState,
> {
    let node = nodes[id.0 as int];
    let stored = nodes.update(
        id.0 as int,
        NodeState {
            interaction: state,
            computed,
            flags: node.flags.spec_difference(style_only()),
            ..node
        },
    );
    if computed.spec_box_style() != node.computed.spec_box_style() {
        requested(stored, id.0 as int, ChangeFlags::spec_layout())
    } else if computed != node.computed {
        requested(stored, id.0 as int, ChangeFlags::spec_paint())
    } else {
        stored
    }
}

/// Style resolution of the node of `m` and of everything below it. A node
/// that is not live, or that did not ask for its style and is not forced,
/// is passed over with everything below it.
pub open spec fn style_view(m: NodeModel, st: StyleModel) -> StyleModel
    decreases m, 1int,
{
    if !is_live(st.nodes, m.id) || (!st.nodes[m.id.0 as int].flags.style && !st.forced) {
        st
    } else {
        let node = st.nodes[m.id.0 as int];
        let found = observed(node, st.signals);
        let computed = resolved(st.inherited, m.intrinsic, node.sheet, found.0);
        let inner = StyleModel {
            nodes: restyled(st.nodes, m.id, found.0, computed),
            signals: found.1,
            inherited: computed.spec_inheritable(),
            forced: st.forced || computed.spec_inheritable() != node.computed.spec_inheritable(),
        };
        let below = style_node(m, inner);
        StyleModel { nodes: below.nodes, signals: below.signals, ..st }
    }
}

/// Style resolution of everything below the node of `m`.
pub open spec fn style_node(m: NodeModel, st: StyleModel) -> StyleModel
    decreases m, 0int,
{
    style_children(m.children, m.children.len(), st)
}

/// Style resolution of the first `k` of the nodes `ms`, in order.
pub open spec fn style_children(ms: Seq<NodeModel>, k: nat, st: StyleModel) -> StyleModel
    decreases ms, k,
{
    if k == 0 || k > ms.len() {
        st
    } else {
        style_view(ms[k - 1], style_children(ms, (k - 1) as nat, st))
    }
}

/// Reads one pseudo-state; see [`seen`].
fn see(signals: &mut SignalStore, watch: Option<ReadSignal>, current: bool) -> (on: bool)
    requires
        old(signals).wf(),
    ensures
        final(signals).wf(),
        (on, final(signals)@) == seen(watch, current, old(signals)@),
{
    match watch {
        Some(r) => match r.get(signals) {
            Some(value) => value != 0,
            None => current,
        },
        None => current,
    }
}

impl StyleCx {
    pub open spec fn wf(&self) -> bool {
        self.app.wf() && self.signals.wf()
    }

    /// A traversal that starts at the root: nothing is inherited, nothing is
    /// forced.
    pub fn new(app: AppState, signals: SignalStore) -> (cx: StyleCx)
        requires
            app.wf(),
            signals.wf(),
        ensures
            cx.wf(),
            cx.app == app,
            cx.signals == signals,
            cx.inherited == Style::spec_new(),
            !cx.forced,
    {
        StyleCx { app, signals, inherited: Style::new(), forced: false }
    }

    /// Finds the pseudo-states that `node` is in; see [`observed`].
    fn observe(&mut self, node: NodeState) -> (state: Interaction)
        requires
            old(self).wf(),
        ensures
            final(self).wf(),
            final(self).app == old(self).app,
            final(self).inherited == old(self).inherited,
            final(self).forced == old(self).forced,
            (state, final(self).signals@) == observed(node, old(self).signals@),
    {
        match node.tracker {
            Some(tracker) => {
                if !self.signals.begin(tracker) {
                    return node.interaction;
                }
                let disabled = see(&mut self.signals, node.watch.disabled, node.interaction.disabled);
                let focus_visible = see(
                    &mut self.signals,
                    node.watch.focus_visible,
                    node.interaction.focus_visible,
                );
                let hovered = see(&mut self.signals, node.watch.hovered, node.interaction.hovered);
                let active = see(&mut self.signals, node.watch.active, node.interaction.active);
                self.signals.end();
                Interaction { disabled, focus_visible, hovered, active }
            },
            None => node.interaction,
        }
    }

    /// Resolves the style of `view` and of everything below it.
    pub fn style_view<V: ViewNode + ?Sized>(&mut self, view: &mut V)
        requires
            old(self).wf(),
        ensures
            final(self).wf(),
            final(view).model() == old(view).model(),
            final(self)@ == style_view(old(view).model(), old(self)@),
    {
        let id = view.id();
        let node: NodeState = match self.app.node(id) {
            Some(n) => n,
            None => {
                return ;
            },
        };
        if !node.flags.style && !self.forced {
            return ;
        }
        let state: Interaction = self.observe(node);
        let computed: Style = resolve(self.inherited, view.view_style(), node.sheet, state);
        let mut next: NodeState = node;
        next.interaction = state;
        next.computed = computed;
        next.flags = node.flags.difference(ChangeFlags { style: true, layout: false, paint: false });
        self.app.put(id, next);
        if computed.box_style() != node.computed.box_style() {
            self.app.request(id, ChangeFlags::layout());
        } else if computed != node.computed {
            self.app.request(id, ChangeFlags::paint());
        }
        let outer_inherited: Style = self.inherited;
        let outer_forced: bool = self.forced;
        self.forced = outer_forced || computed.inheritable() != node.computed.inheritable();
        self.inherited = computed.inheritable();
        view.style(self);
        self.inherited = outer_inherited;
        self.forced = outer_forced;
    }
}

/// What style resolution may do to the table: it keeps which nodes there
/// are, which are live, who owns whom, what their explicit styles are and
/// which signals they follow, and it never makes a node ask for its style.
pub open spec fn settles(before: Seq<NodeState>, after: Seq<NodeState>) -> bool {
    &&& after.len() == before.len()
    &&& table_wf(after)
    &&& forall|j: int|
        0 <= j < before.len() ==> {
            &&& (#[trigger] after[j]).alive == before[j].alive
            &&& after[j].parent == before[j].parent
            &&& after[j].sheet == before[j].sheet
            &&& after[j].watch == before[j].watch
            &&& after[j].tracker == before[j].tracker
            &&& after[j].flags.style ==> before[j].flags.style
        }
}

/// Giving a node its computed style settles the table, and the node no
/// longer asks for its style. Where the box properties are the ones it had,
/// no node is asked for layout that was not asked before.
pub proof fn lemma_restyled(nodes: Seq<NodeState>, id: Id, state: Interaction, computed: Style)
    requires
        table_wf(nodes),
        id.0 < nodes.len(),
    ensures
        settles(nodes, restyled(nodes, id, state, computed)),
        !restyled(nodes, id, state, computed)[id.0 as int].flags.style,
        restyled(nodes, id, state, computed)[id.0 as int].computed == computed,
        restyled(nodes, id, state, computed)[id.0 as int].interaction == state,
        computed.spec_box_style() == nodes[id.0 as int].computed.spec_box_style() ==> forall|j: int|
            0 <= j < nodes.len() ==> (#[trigger] restyled(nodes, id, state, computed)[j]).flags.layout
                == nodes[j].flags.layout,
        computed != nodes[id.0 as int].computed ==> restyled(
            nodes,
            id,
            state,
            computed,
        )[id.0 as int].flags.paint,
{
    let node = nodes[id.0 as int];
    let next = NodeState {
        interaction: state,
        computed,
        flags: node.flags.spec_difference(style_only()),
        ..node
    };
    let stored = nodes.update(id.0 as int, next);
    lemma_update_keeps_wf(nodes, id.0 as int, next);
    lemma_requested(stored, id.0 as int, ChangeFlags::spec_layout());
    lemma_requested_wf(stored, id.0 as int, ChangeFlags::spec_layout());
    lemma_requested(stored, id.0 as int, ChangeFlags::spec_paint());
    lemma_requested_wf(stored, id.0 as int, ChangeFlags::spec_paint());
    assert(owns(stored, id.0 as int, id.0 as int));
    let after = restyled(nodes, id, state, computed);
    assert forall|j: int| 0 <= j < nodes.len() implies {
        &&& (#[trigger] after[j]).alive == nodes[j].alive
        &&& after[j].parent == nodes[j].parent
        &&& after[j].sheet == nodes[j].sheet
        &&& after[j].watch == nodes[j].watch
        &&& after[j].tracker == nodes[j].tracker
        &&& after[j].flags.style ==> nodes[j].flags.style
    } by {
        assert(stored[j].alive == nodes[j].alive);
    }
}

/// Style resolution settles the table and hands back what it was handed to
/// inherit.
pub proof fn lemma_style_view_settles(m: NodeModel, st: StyleModel)
    requires
        table_wf(st.nodes),
    ensures
        settles(st.nodes, style_view(m, st).nodes),
        style_view(m, st).inherited == st.inherited,
        style_view(m, st).forced == st.forced,
    decreases m, 1int,
{
    if !is_live(st.nodes, m.id) || (!st.nodes[m.id.0 as int].flags.style && !st.forced) {
    } else {
        let node = st.nodes[m.id.0 as int];
        let found = observed(node, st.signals);
        let computed = resolved(st.inherited, m.intrinsic, node.sheet, found.0);
        lemma_restyled(st.nodes, m.id, found.0, computed);
        let inner = StyleModel {
            nodes: restyled(st.nodes, m.id, found.0, computed),
            signals: found.1,
            inherited: computed.spec_inheritable(),
            forced: st.forced || computed.spec_inheritable() != node.computed.spec_inheritable(),
        };
        lemma_style_node_settles(m, inner);
    }
}

/// See [`lemma_style_view_settles`].
pub proof fn lemma_style_node_settles(m: NodeModel, st: StyleModel)
    requires
        table_wf(st.nodes),
    ensures
        settles(st.nodes, style_node(m, st).nodes),
        style_node(m, st).inherited == st.inherited,
        style_node(m, st).forced == st.forced,
    decreases m, 0int,
{
    lemma_style_children_settles(m.children, m.children.len(), st);
}

/// See [`lemma_style_view_settles`].
pub proof fn lemma_style_children_settles(ms: Seq<NodeModel>, k: nat, st: StyleModel)
    requires
        table_wf(st.nodes),
    ensures
        settles(st.nodes, style_children(ms, k, st).nodes),
        style_children(ms, k, st).inherited == st.inherited,
        style_children(ms, k, st).forced == st.forced,
    decreases ms, k,
{
    if k == 0 || k > ms.len() {
    } else {
        lemma_style_children_settles(ms, (k - 1) as nat, st);
        lemma_style_view_settles(ms[k - 1], style_children(ms, (k - 1) as nat, st));
    }
}

/// Style resolution is idempotent. Resolving a tree from the root and then
/// resolving it again, with nothing written in between, leaves every
/// computed style, the whole table and the signal store as the first
/// resolution left them: the root no longer asks for its style.
pub proof fn lemma_style_is_idempotent(m: NodeModel, st: StyleModel)
    requires
        table_wf(st.nodes),
        !st.forced,
    ensures
        style_view(m, style_view(m, st)) == style_view(m, st),
        is_live(st.nodes, m.id) ==> !style_view(m, st).nodes[m.id.0 as int].flags.style,
{
    if !is_live(st.nodes, m.id) || (!st.nodes[m.id.0 as int].flags.style && !st.forced) {
    } else {
        let node = st.nodes[m.id.0 as int];
        let found = observed(node, st.signals);
        let computed = resolved(st.inherited, m.intrinsic, node.sheet, found.0);
        lemma_restyled(st.nodes, m.id, found.0, computed);
        let inner = StyleModel {
            nodes: restyled(st.nodes, m.id, found.0, computed),
            signals: found.1,
            inherited: computed.spec_inheritable(),
            forced: st.forced || computed.spec_inheritable() != node.computed.spec_inheritable(),
        };
        lemma_style_node_settles(m, inner);
        let once = style_view(m, st);
        assert(once.nodes == style_node(m, inner).nodes);
        assert(!inner.nodes[m.id.0 as int].flags.style);
        assert(!once.nodes[m.id.0 as int].flags.style);
    }
}

/// After the first `k` of the nodes `ms` have been resolved, none of them
/// that is live asks for its style.
pub proof fn lemma_style_children_leaves_clean(ms: Seq<NodeModel>, k: nat, st: StyleModel)
    requires
        table_wf(st.nodes),
        !st.forced,
        k <= ms.len(),
    ensures
        forall|j: int|
            0 <= j < k && is_live(st.nodes, (#[trigger] ms[j]).id) ==> !style_children(
                ms,
                k,
                st,
            ).nodes[ms[j].id.0 as int].flags.style,
    decreases k,
{
    if k > 0 {
        let before = style_children(ms, (k - 1) as nat, st);
        lemma_style_children_leaves_clean(ms, (k - 1) as nat, st);
        lemma_style_children_settles(ms, (k - 1) as nat, st);
        lemma_style_view_settles(ms[k - 1], before);
        lemma_style_is_idempotent(ms[k - 1], before);
        let after = style_children(ms, k, st).nodes;
        assert forall|j: int| 0 <= j < k && is_live(st.nodes, (#[trigger] ms[j]).id) implies !after[ms[j].id.0 as int].flags.style by {
            let x = ms[j].id.0 as int;
            assert(before.nodes[x].alive == st.nodes[x].alive);
            assert(after[x].flags.style ==> before.nodes[x].flags.style);
        }
    }
}

/// Where none of the nodes `ms` that is live asks for its style and
/// nothing is forced, resolving them changes nothing.
pub proof fn lemma_style_children_at_rest(ms: Seq<NodeModel>, k: nat, st: StyleModel)
    requires
        !st.forced,
        k <= ms.len(),
        forall|j: int|
            0 <= j < ms.len() && is_live(st.nodes, (#[trigger] ms[j]).id)
                ==> !st.nodes[ms[j].id.0 as int].flags.style,
    ensures
        style_children(ms, k, st) == st,
    decreases k,
{
    if k > 0 {
        lemma_style_children_at_rest(ms, (k - 1) as nat, st);
        assert(is_live(st.nodes, ms[k - 1].id) ==> !st.nodes[ms[k - 1].id.0 as int].flags.style);
        assert(style_children(ms, (k - 1) as nat, st) == st);
        assert(style_view(ms[k - 1], st) == st);
        assert(style_children(ms, k, st) == style_view(
            ms[k - 1],
            style_children(ms, (k - 1) as nat, st),
        ));
    } else {
        assert(style_children(ms, 0, st) == st);
    }
}

/// Resolving what a node contains is idempotent. When the styles below a
/// node have been resolved, resolving them again, with nothing written in
/// between, visits each of the nodes it contains once more, finds none of
/// them asking, and leaves every computed style, the whole table and the
/// signal store as they were.
pub proof fn lemma_style_node_is_idempotent(m: NodeModel, st: StyleModel)
    requires
        table_wf(st.nodes),
        !st.forced,
    ensures
        style_node(m, style_node(m, st)) == style_node(m, st),
{
    let ms = m.children;
    let once = style_children(ms, ms.len(), st);
    lemma_style_children_leaves_clean(ms, ms.len(), st);
    lemma_style_children_settles(ms, ms.len(), st);
    assert forall|j: int| 0 <= j < ms.len() && is_live(once.nodes, (#[trigger] ms[j]).id) implies !once.nodes[ms[j].id.0 as int].flags.style by {
        let x = ms[j].id.0 as int;
        assert(once.nodes[x].alive == st.nodes[x].alive);
    }
    lemma_style_children_at_rest(ms, ms.len(), once);
}

/// The traversal of the node of `m` and of everything below it gives no
/// node that it visits other box properties than the node had.
pub open spec fn box_steady_view(m: NodeModel, st: StyleModel) -> bool
    decreases m, 1int,
{
    if !is_live(st.nodes, m.id) || (!st.nodes[m.id.0 as int].flags.style && !st.forced) {
        true
    } else {
        let node = st.nodes[m.id.0 as int];
        let found = observed(node, st.signals);
        let computed = resolved(st.inherited, m.intrinsic, node.sheet, found.0);
        let inner = StyleModel {
            nodes: restyled(st.nodes, m.id, found.0, computed),
            signals: found.1,
            inherited: computed.spec_inheritable(),
            forced: st.forced || computed.spec_inheritable() != node.computed.spec_inheritable(),
        };
        computed.spec_box_style() == node.computed.spec_box_style() && box_steady_node(m, inner)
    }
}

/// See [`box_steady_view`]: the same of everything below the node of `m`.
pub open spec fn box_steady_node(m: NodeModel, st: StyleModel) -> bool
    decreases m, 0int,
{
    box_steady_children(m.children, m.children.len(), st)
}

/// See [`box_steady_view`]: the same of the first `k` of the nodes `ms`.
pub open spec fn box_steady_children(ms: Seq<NodeModel>, k: nat, st: StyleModel) -> bool
    decreases ms, k,
{
    if k == 0 || k > ms.len() {
        true
    } else {
        box_steady_children(ms, (k - 1) as nat, st) && box_steady_view(
            ms[k - 1],
            style_children(ms, (k - 1) as nat, st),
        )
    }
}

/// The two tables ask for layout in the same nodes, and every node
/// remembers the same layout box in both.
pub open spec fn same_layout(before: Seq<NodeState>, after: Seq<NodeState>) -> bool {
    &&& after.len() == before.len()
    &&& forall|j: int|
        0 <= j < before.len() ==> (#[trigger] after[j]).flags.layout == before[j].flags.layout
            && after[j].layout_box == before[j].layout_box
}

/// A style traversal that changes no box property spares the layout: no
/// node is asked for layout that was not asked before, and no node's layout
/// box is touched.
pub proof fn lemma_style_view_spares_layout(m: NodeModel, st: StyleModel)
    requires
        table_wf(st.nodes),
        box_steady_view(m, st),
    ensures
        same_layout(st.nodes, style_view(m, st).nodes),
    decreases m, 1int,
{
    if !is_live(st.nodes, m.id) || (!st.nodes[m.id.0 as int].flags.style && !st.forced) {
    } else {
        let node = st.nodes[m.id.0 as int];
        let found = observed(node, st.signals);
        let computed = resolved(st.inherited, m.intrinsic, node.sheet, found.0);
        lemma_restyled(st.nodes, m.id, found.0, computed);
        let first = restyled(st.nodes, m.id, found.0, computed);
        let inner = StyleModel {
            nodes: first,
            signals: found.1,
            inherited: computed.spec_inheritable(),
            forced: st.forced || computed.spec_inheritable() != node.computed.spec_inheritable(),
        };
        assert forall|j: int| 0 <= j < st.nodes.len() implies (#[trigger] first[j]).layout_box
            == st.nodes[j].layout_box by {
            let stored = st.nodes.update(
                m.id.0 as int,
                NodeState {
                    interaction: found.0,
                    computed,
                    flags: node.flags.spec_difference(style_only()),
                    ..node
                },
            );
            lemma_requested_only_flags(stored, m.id.0 as int, ChangeFlags::spec_paint());
        }
        lemma_style_node_spares_layout(m, inner);
        let after = style_view(m, st).nodes;
        assert forall|j: int| 0 <= j < st.nodes.len() implies (#[trigger] after[j]).flags.layout
            == st.nodes[j].flags.layout && after[j].layout_box == st.nodes[j].layout_box by {
            assert(first[j].flags.layout == st.nodes[j].flags.layout);
            assert(first[j].layout_box == st.nodes[j].layout_box);
        }
    }
}

/// See [`lemma_style_view_spares_layout`]; this is what the `style` of a
/// container does.
pub proof fn lemma_style_node_spares_layout(m: NodeModel, st: StyleModel)
    requires
        table_wf(st.nodes),
        box_steady_node(m, st),
    ensures
        same_layout(st.nodes, style_node(m, st).nodes),
    decreases m, 0int,
{
    lemma_style_children_spare_layout(m.children, m.children.len(), st);
}

/// See [`lemma_style_view_spares_layout`].
pub proof fn lemma_style_children_spare_layout(ms: Seq<NodeModel>, k: nat, st: StyleModel)
    requires
        table_wf(st.nodes),
        box_steady_children(ms, k, st),
    ensures
        same_layout(st.nodes, style_children(ms, k, st).nodes),
    decreases ms, k,
{
    if k == 0 || k > ms.len() {
    } else {
        let before = style_children(ms, (k - 1) as nat, st);
        lemma_style_children_spare_layout(ms, (k - 1) as nat, st);
        lemma_style_children_settles(ms, (k - 1) as nat, st);
        lemma_style_view_spares_layout(ms[k - 1], before);
        let after = style_children(ms, k, st).nodes;
        assert forall|j: int| 0 <= j < st.nodes.len() implies (#[trigger] after[j]).flags.layout
            == st.nodes[j].flags.layout && after[j].layout_box == st.nodes[j].layout_box by {
            assert(before.nodes[j].flags.layout == st.nodes[j].flags.layout);
        }
    }
}

/// A request changes nothing in a node but its flags.
pub proof fn lemma_requested_only_flags(nodes: Seq<NodeState>, i: int, flags: ChangeFlags)
    ensures
        requested(nodes, i, flags).len() == nodes.len(),
        forall|j: int|
            0 <= j < nodes.len() ==> (#[trigger] requested(nodes, i, flags)[j]) == nodes[j].with_flags(
                requested(nodes, i, flags)[j].flags,
            ),
{
    if 0 <= i < nodes.len() {
        lemma_requested(nodes, i, flags);
    }
}

/// A change that touches no box property spares the layout. Take a node
/// whose computed style is up to date and whose pseudo-states set colours
/// only. When its pseudo-states are set to something else, the node and
/// each of its owners are asked to restyle and to repaint, and no node is
/// asked for layout that was not asked before. When the style of the node
/// is then resolved, that is still so, and the node is left asking for paint
/// and no longer for its style.
pub proof fn lemma_paint_only_change_spares_layout(
    nodes: Seq<NodeState>,
    id: Id,
    state: Interaction,
    inherited: Style,
    intrinsic: Option<Style>,
)
    requires
        table_wf(nodes),
        is_live(nodes, id),
        nodes[id.0 as int].interaction != state,
        nodes[id.0 as int].sheet.states_paint_only(),
        nodes[id.0 as int].computed == resolved(
            inherited,
            intrinsic,
            nodes[id.0 as int].sheet,
            nodes[id.0 as int].interaction,
        ),
    ensures
        ({
            let asked = with_interaction(nodes, id, state);
            let computed = resolved(inherited, intrinsic, nodes[id.0 as int].sheet, state);
            let after = restyled(asked, id, state, computed);
            &&& asked.len() == nodes.len()
            &&& after.len() == nodes.len()
            &&& forall|j: int|
                0 <= j < nodes.len() && owns(nodes, j, id.0 as int) ==> (#[trigger] asked[j]).flags.style
                    && asked[j].flags.paint
            &&& forall|j: int|
                0 <= j < nodes.len() ==> (#[trigger] asked[j]).flags.layout == nodes[j].flags.layout
            &&& forall|j: int|
                0 <= j < nodes.len() ==> (#[trigger] after[j]).flags.layout == nodes[j].flags.layout
            &&& !after[id.0 as int].flags.style
            &&& after[id.0 as int].flags.paint
        }),
{
    let computed = resolved(inherited, intrinsic, nodes[id.0 as int].sheet, state);
    lemma_states_keep_box(
        inherited,
        intrinsic,
        nodes[id.0 as int].sheet,
        nodes[id.0 as int].interaction,
        state,
    );
    let next = NodeState { interaction: state, ..nodes[id.0 as int] };
    let stored = nodes.update(id.0 as int, next);
    lemma_update_keeps_wf(nodes, id.0 as int, next);
    lemma_requested(stored, id.0 as int, restyle_flags());
    lemma_requested_wf(stored, id.0 as int, restyle_flags());
    let asked = with_interaction(nodes, id, state);
    assert(asked == requested(stored, id.0 as int, restyle_flags()));
    assert forall|j: int| 0 <= j < nodes.len() implies owns(stored, j, id.0 as int) == owns(
        nodes,
        j,
        id.0 as int,
    ) by {
        lemma_owns_by_links(nodes, stored, j, id.0 as int);
    }
    assert(owns(stored, id.0 as int, id.0 as int));
    assert(asked[id.0 as int].computed == nodes[id.0 as int].computed);
    lemma_restyled(asked, id, state, computed);
    let after = restyled(asked, id, state, computed);
    let kept = NodeState {
        interaction: state,
        computed,
        flags: asked[id.0 as int].flags.spec_difference(style_only()),
        ..asked[id.0 as int]
    };
    let kept_all = asked.update(id.0 as int, kept);
    lemma_requested(kept_all, id.0 as int, ChangeFlags::spec_paint());
    assert(owns(kept_all, id.0 as int, id.0 as int));
}

} // verus!
