//! The table of per-node state, and the registry of node identifiers.
//!
//! An identifier is the position of its node's entry in the table. Entries
//! are only ever appended, so an identifier is handed out once; releasing a
//! node marks its entry, and a lookup of a released identifier finds
//! nothing.
//!
//! The table keeps the change flags in order: a node that asks for layout
//! asks for paint, and so does every node that owns it. No operation on the
//! table breaks this: a request goes up to every owner, and layout cannot
//! be taken from a node while a live node that it owns directly still asks
//! for it.

use vstd::prelude::*;
use crate::engine::LayoutBox;
use crate::flags::ChangeFlags;
use crate::geometry::Rect;
use crate::id::Id;
use crate::signal::{Computation, ReadSignal};
use crate::style::{Interaction, Style, StyleSheet};

verus! {

/// The signals that the pseudo-states of a node follow. A pseudo-state
/// that follows a signal is on while the signal is not 0.
#[derive(Clone, Copy, PartialEq, Eq, Structural, Debug)]
pub struct Watch {
    pub disabled: Option<ReadSignal>,
    pub focus_visible: Option<ReadSignal>,
    pub hovered: Option<ReadSignal>,
    pub active: Option<ReadSignal>,
}

impl Watch {
    pub open spec fn spec_none() -> Watch {
        Watch { disabled: None, focus_visible: None, hovered: None, active: None }
    }

    /// No pseudo-state follows a signal.
    #[verifier::when_used_as_spec(spec_none)]
    pub fn none() -> (r: Watch)
        ensures
            r == Watch::spec_none(),
    {
        Watch { disabled: None, focus_visible: None, hovered: None, active: None }
    }
}

/// What is kept for one node.
#[derive(Clone, Copy, PartialEq, Eq, Structural, Debug)]
pub struct NodeState {
    /// The node has not been released.
    pub alive: bool,
    /// The node that owns this one.
    pub parent: Option<Id>,
    /// Which traversals have to visit the node again.
    pub flags: ChangeFlags,
    /// The node's explicit style.
    pub sheet: StyleSheet,
    /// The pseudo-states the node is in.
    pub interaction: Interaction,
    /// The signals that the pseudo-states follow.
    pub watch: Watch,
    /// The tracked evaluation under which the style traversal reads those
    /// signals.
    pub tracker: Option<Computation>,
    /// The style that the last style traversal computed.
    pub computed: Style,
    /// The layout box that the last layout traversal made.
    pub layout_box: Option<LayoutBox>,
    /// The rectangle of the node and its content, in window coordinates.
    pub layout_rect: Rect,
}

impl NodeState {
    /// The state of a node that was just created: every traversal has to
    /// visit it.
    pub open spec fn fresh() -> NodeState {
        NodeState {
            alive: true,
            parent: None,
            flags: ChangeFlags { style: true, layout: true, paint: true },
            sheet: StyleSheet::spec_new(),
            interaction: Interaction::spec_idle(),
            watch: Watch::spec_none(),
            tracker: None,
            computed: Style::spec_new(),
            layout_box: None,
            layout_rect: Rect::spec_zero(),
        }
    }

    pub open spec fn with_flags(self, flags: ChangeFlags) -> NodeState {
        NodeState { flags, ..self }
    }
}

/// Every entry's flags are well-formed, and the owner of a node is an
/// entry of the table that was created after the node.
pub open spec fn links_wf(nodes: Seq<NodeState>) -> bool {
    forall|i: int|
        0 <= i < nodes.len() ==> (#[trigger] nodes[i]).flags.wf() && (nodes[i].parent matches Some(p)
            ==> i < p.0 < nodes.len())
}

/// The owner of a live node is live, and asks for layout where the node
/// does.
pub open spec fn reaches_up(nodes: Seq<NodeState>) -> bool {
    forall|i: int|
        0 <= i < nodes.len() && (#[trigger] nodes[i]).alive && nodes[i].parent is Some ==> {
            &&& nodes[nodes[i].parent.unwrap().0 as int].alive
            &&& nodes[i].flags.layout ==> nodes[nodes[i].parent.unwrap().0 as int].flags.layout
        }
}

/// The table is well-formed. Every entry's flags are: a node that asks for
/// layout asks for paint. The owner of a node is an entry of the table that
/// was created after the node. The owner of a live node is live, and asks
/// for layout where the node does: so a live node that asks for layout has
/// every node that owns it asking for layout and for paint.
pub open spec fn table_wf(nodes: Seq<NodeState>) -> bool {
    links_wf(nodes) && reaches_up(nodes)
}

/// `id` names a node of the table that has not been released.
pub open spec fn is_live(nodes: Seq<NodeState>, id: Id) -> bool {
    id.0 < nodes.len() && nodes[id.0 as int].alive
}

/// The entry of the owner of node `i`, if `i` has one that is in the table
/// and was created after it.
pub open spec fn owner(nodes: Seq<NodeState>, i: int) -> Option<int> {
    if 0 <= i < nodes.len() {
        match nodes[i].parent {
            Some(p) => if i < p.0 < nodes.len() {
                Some(p.0 as int)
            } else {
                None
            },
            None => None,
        }
    } else {
        None
    }
}

/// Node `a` is node `i` or one of the nodes that own it, directly or not.
pub open spec fn owns(nodes: Seq<NodeState>, a: int, i: int) -> bool
    decreases nodes.len() - i,
{
    if 0 <= i < nodes.len() {
        i == a || match owner(nodes, i) {
            Some(p) => owns(nodes, a, p),
            None => false,
        }
    } else {
        false
    }
}

/// The table after `flags` have been added to node `i` and to every node
/// that owns it.
pub open spec fn requested(nodes: Seq<NodeState>, i: int, flags: ChangeFlags) -> Seq<NodeState>
    decreases nodes.len() - i,
{
    if 0 <= i < nodes.len() {
        let marked = nodes.update(i, nodes[i].with_flags(nodes[i].flags.spec_union(flags)));
        match owner(nodes, i) {
            Some(p) => requested(marked, p, flags),
            None => marked,
        }
    } else {
        nodes
    }
}

/// A live node that node `i` owns directly asks for layout.
pub open spec fn asked_below(nodes: Seq<NodeState>, i: int) -> bool {
    exists|j: int| #[trigger] owner(nodes, j) == Some(i) && nodes[j].alive && nodes[j].flags.layout
}

/// What node `i` asks for after `flags` have been taken from it. Layout,
/// and paint with it, cannot be taken while a live node that `i` owns
/// directly still asks for layout.
pub open spec fn taken(nodes: Seq<NodeState>, i: int, flags: ChangeFlags) -> ChangeFlags {
    if flags.layout && nodes[i].flags.layout && asked_below(nodes, i) {
        ChangeFlags { style: nodes[i].flags.style && !flags.style, ..nodes[i].flags }
    } else {
        nodes[i].flags.spec_difference(flags)
    }
}

/// The table after `flags` have been taken from node `i`; see [`taken`].
pub open spec fn cleared(nodes: Seq<NodeState>, i: int, flags: ChangeFlags) -> Seq<NodeState> {
    if 0 <= i < nodes.len() {
        nodes.update(i, nodes[i].with_flags(taken(nodes, i, flags)))
    } else {
        nodes
    }
}

/// The table after node `root` and every node it owns, directly or not,
/// have been released.
pub open spec fn released(nodes: Seq<NodeState>, root: int) -> Seq<NodeState> {
    Seq::new(
        nodes.len(),
        |i: int|
            if owns(nodes, root, i) {
                NodeState { alive: false, ..nodes[i] }
            } else {
                nodes[i]
            },
    )
}

/// Whether `parent` can adopt `child`: both are live, and `child` was
/// created first.
pub open spec fn can_adopt(nodes: Seq<NodeState>, child: Id, parent: Id) -> bool {
    is_live(nodes, child) && is_live(nodes, parent) && child.0 < parent.0
}

/// The table after `parent` has adopted `child`, where it can: `parent`
/// is the owner of `child`, and what `child` asks for, `parent` and its
/// owners ask for too.
pub open spec fn adopted(nodes: Seq<NodeState>, child: Id, parent: Id) -> Seq<NodeState> {
    if can_adopt(nodes, child, parent) {
        let asked = requested(nodes, parent.0 as int, nodes[child.0 as int].flags);
        asked.update(child.0 as int, NodeState { parent: Some(parent), ..asked[child.0 as int] })
    } else {
        nodes
    }
}

/// The flags that a change of style asks for: the style has to be resolved
/// again and the node repainted. Whether the layout has to follow is for the
/// style traversal to find out.
pub open spec fn restyle_flags() -> ChangeFlags {
    ChangeFlags { style: true, layout: false, paint: true }
}

/// The table after the pseudo-states of node `id` have been set. Where
/// they change, the node and its owners are asked to restyle.
pub open spec fn with_interaction(nodes: Seq<NodeState>, id: Id, state: Interaction) -> Seq<
    NodeState,
> {
    if is_live(nodes, id) && nodes[id.0 as int].interaction != state {
        requested(
            nodes.update(id.0 as int, NodeState { interaction: state, ..nodes[id.0 as int] }),
            id.0 as int,
            restyle_flags(),
        )
    } else {
        nodes
    }
}

/// The table after the explicit style of node `id` has been set. Where it
/// changes, the node and its owners are asked to restyle.
pub open spec fn with_sheet(nodes: Seq<NodeState>, id: Id, sheet: StyleSheet) -> Seq<NodeState> {
    if is_live(nodes, id) && nodes[id.0 as int].sheet != sheet {
        requested(
            nodes.update(id.0 as int, NodeState { sheet, ..nodes[id.0 as int] }),
            id.0 as int,
            restyle_flags(),
        )
    } else {
        nodes
    }
}

/// The table after the pseudo-states of node `id` have been bound to the
/// signals of `watch`, to be read under `tracker`. The node and its owners
/// are asked to restyle.
pub open spec fn watching(nodes: Seq<NodeState>, id: Id, watch: Watch, tracker: Computation) -> Seq<
    NodeState,
> {
    if is_live(nodes, id) {
        requested(
            nodes.update(
                id.0 as int,
                NodeState { watch, tracker: Some(tracker), ..nodes[id.0 as int] },
            ),
            id.0 as int,
            restyle_flags(),
        )
    } else {
        nodes
    }
}

/// The table after each live node among the first `k` whose style is read
/// under `stale` has been asked to restyle, with its owners.
pub open spec fn invalidated_by(nodes: Seq<NodeState>, stale: Computation, k: nat) -> Seq<NodeState>
    decreases k,
{
    if k == 0 || k > nodes.len() {
        nodes
    } else {
        let before = invalidated_by(nodes, stale, (k - 1) as nat);
        if before[k - 1].alive && before[k - 1].tracker == Some(stale) {
            requested(before, k - 1, restyle_flags())
        } else {
            before
        }
    }
}

/// The table after every live node whose style is read under one of the
/// first `b` computations of `batch` has been asked to restyle.
pub open spec fn invalidated(nodes: Seq<NodeState>, batch: Seq<Computation>, b: nat) -> Seq<NodeState>
    decreases b,
{
    if b == 0 || b > batch.len() {
        nodes
    } else {
        let before = invalidated(nodes, batch, (b - 1) as nat);
        invalidated_by(before, batch[b - 1], before.len())
    }
}

/// The nodes of the tree, by identifier.
pub struct AppState {
    nodes: Vec<NodeState>,
}

impl View for AppState {
    type V = Seq<NodeState>;

    closed spec fn view(&self) -> Seq<NodeState> {
        self.nodes@
    }
}

impl AppState {
    pub open spec fn wf(&self) -> bool {
        table_wf(self@)
    }

    /// A table without nodes.
    pub fn new() -> (r: AppState)
        ensures
            r.wf(),
            r@.len() == 0,
    {
        AppState { nodes: Vec::new() }
    }

    /// How many identifiers have been handed out.
    pub fn len(&self) -> (n: usize)
        ensures
            n == self@.len(),
    {
        self.nodes.len()
    }

    /// Creates a node and returns its identifier, which is greater than
    /// every identifier handed out before.
    pub fn create_node(&mut self) -> (id: Id)
        requires
            old(self).wf(),
        ensures
            final(self).wf(),
            id.0 == old(self)@.len(),
            final(self)@ == old(self)@.push(NodeState::fresh()),
    {
        let id = Id(self.nodes.len() as u64);
        self.nodes.push(
            NodeState {
                alive: true,
                parent: None,
                flags: ChangeFlags { style: true, layout: true, paint: true },
                sheet: StyleSheet::new(),
                interaction: Interaction::idle(),
                watch: Watch::none(),
                tracker: None,
                computed: Style::new(),
                layout_box: None,
                layout_rect: Rect::zero(),
            },
        );
        proof {
            assert forall|i: int| 0 <= i < self@.len() implies (#[trigger] self@[i]).flags.wf() && (
            self@[i].parent matches Some(p) ==> i < p.0 < self@.len()) by {
                if i < old(self)@.len() {
                    assert(self@[i] == old(self)@[i]);
                }
            }
            assert forall|i: int|
                0 <= i < self@.len() && (#[trigger] self@[i]).alive && self@[i].parent is Some implies {
                &&& self@[self@[i].parent.unwrap().0 as int].alive
                &&& self@[i].flags.layout ==> self@[self@[i].parent.unwrap().0 as int].flags.layout
            } by {
                assert(self@[i] == old(self)@[i]);
                let p = old(self)@[i].parent.unwrap().0 as int;
                assert(self@[p] == old(self)@[p]);
            }
        }
        id
    }

    /// The state of the node `id`, or `None` where `id` names no node or
    /// one that was released.
    pub fn node(&self, id: Id) -> (r: Option<NodeState>)
        ensures
            r == (if is_live(self@, id) {
                Some(self@[id.0 as int])
            } else {
                None
            }),
    {
        if id.0 >= self.nodes.len() as u64 {
            return None;
        }
        let node: NodeState = self.nodes[id.0 as usize];
        if node.alive {
            Some(node)
        } else {
            None
        }
    }

    /// Whether `id` names a node that has not been released.
    pub fn is_alive(&self, id: Id) -> (r: bool)
        ensures
            r == is_live(self@, id),
            r ==> id.0 <= usize::MAX,
    {
        id.0 < self.nodes.len() as u64 && self.nodes[id.0 as usize].alive
    }

    /// What has to be done again for the tree below `root`: the flags of
    /// `root`, which every request below it has reached. Nothing where
    /// `root` is not live.
    pub fn pending(&self, root: Id) -> (flags: ChangeFlags)
        ensures
            flags == (if is_live(self@, root) {
                self@[root.0 as int].flags
            } else {
                ChangeFlags::spec_empty()
            }),
    {
        match self.node(root) {
            Some(node) => node.flags,
            None => ChangeFlags::empty(),
        }
    }

    /// Records `parent` as the owner of `child`, and hands what `child` asks
    /// for on to `parent` and its owners. Returns whether it did: both must
    /// be live, and `child` must have been created first.
    pub fn adopt(&mut self, child: Id, parent: Id) -> (done: bool)
        requires
            old(self).wf(),
        ensures
            final(self).wf(),
            done == can_adopt(old(self)@, child, parent),
            final(self)@ == adopted(old(self)@, child, parent),
    {
        if !self.is_alive(child) || !self.is_alive(parent) || child.0 >= parent.0 {
            return false;
        }
        let flags: ChangeFlags = self.nodes[child.0 as usize].flags;
        self.request(parent, flags);
        proof {
            lemma_requested(old(self)@, parent.0 as int, flags);
            lemma_requested_wf(old(self)@, parent.0 as int, flags);
        }
        let mut node: NodeState = self.nodes[child.0 as usize];
        node.parent = Some(parent);
        self.nodes.set(child.0 as usize, node);
        proof {
            lemma_adopted_wf(old(self)@, child, parent);
        }
        true
    }

    /// Adds `flags` to the node `id` and to every node that owns it.
    pub fn request(&mut self, id: Id, flags: ChangeFlags)
        requires
            old(self).wf(),
        ensures
            final(self).wf(),
            final(self)@ == requested(old(self)@, id.0 as int, flags),
    {
        let n: usize = self.nodes.len();
        if id.0 >= n as u64 {
            return;
        }
        let mut cur: usize = id.0 as usize;
        let mut going: bool = true;
        while going
            invariant
                n == self.nodes@.len(),
                cur < n,
                links_wf(self.nodes@),
                going ==> requested(self.nodes@, cur as int, flags) == requested(
                    old(self)@,
                    id.0 as int,
                    flags,
                ),
                !going ==> self.nodes@ == requested(old(self)@, id.0 as int, flags),
            decreases n - cur, going as int,
        {
            let ghost before = self.nodes@;
            let mut node: NodeState = self.nodes[cur];
            node.flags = node.flags.union(flags);
            self.nodes.set(cur, node);
            proof {
                assert forall|i: int| 0 <= i < self.nodes@.len() implies (
                #[trigger] self.nodes@[i]).flags.wf() && (self.nodes@[i].parent matches Some(p)
                    ==> i < p.0 < self.nodes@.len()) by {
                    if i != cur {
                        assert(self.nodes@[i] == before[i]);
                    }
                }
            }
            match node.parent {
                Some(p) => {
                    assert(owner(before, cur as int) == Some(p.0 as int));
                    cur = p.0 as usize;
                },
                None => {
                    going = false;
                },
            }
        }
        proof {
            lemma_requested_wf(old(self)@, id.0 as int, flags);
        }
    }

    /// Whether a live node that the node `id` owns directly asks for layout.
    pub fn asked_below(&self, id: Id) -> (r: bool)
        requires
            self.wf(),
        ensures
            r == asked_below(self@, id.0 as int),
    {
        let n: usize = self.nodes.len();
        let mut j: usize = 0;
        while j < n
            invariant
                j <= n,
                n == self.nodes@.len(),
                links_wf(self.nodes@),
                forall|k: int|
                    0 <= k < j ==> !(#[trigger] owner(self.nodes@, k) == Some(id.0 as int)
                        && self.nodes@[k].alive && self.nodes@[k].flags.layout),
            decreases n - j,
        {
            let node: NodeState = self.nodes[j];
            let owned: bool = match node.parent {
                Some(p) => p.0 == id.0,
                None => false,
            };
            if owned && node.alive && node.flags.layout {
                assert(owner(self.nodes@, j as int) == Some(id.0 as int));
                return true;
            }
            j += 1;
        }
        proof {
            assert forall|k: int|
                !(#[trigger] owner(self.nodes@, k) == Some(id.0 as int) && self.nodes@[k].alive
                    && self.nodes@[k].flags.layout) by {
                if 0 <= k < n {
                } else {
                    assert(owner(self.nodes@, k) is None);
                }
            }
        }
        false
    }

    /// Takes `flags` from the node `id`. Layout, and paint with it, stays
    /// while a live node that `id` owns directly still asks for layout.
    pub fn clear(&mut self, id: Id, flags: ChangeFlags)
        requires
            old(self).wf(),
        ensures
            final(self).wf(),
            final(self)@ == cleared(old(self)@, id.0 as int, flags),
    {
        if id.0 >= self.nodes.len() as u64 {
            return;
        }
        let mut node: NodeState = self.nodes[id.0 as usize];
        let blocked: bool = flags.layout && node.flags.layout && self.asked_below(id);
        if blocked {
            node.flags = ChangeFlags {
                style: node.flags.style && !flags.style,
                layout: node.flags.layout,
                paint: node.flags.paint,
            };
        } else {
            node.flags = node.flags.difference(flags);
        }
        self.nodes.set(id.0 as usize, node);
        proof {
            lemma_cleared_wf(old(self)@, id.0 as int, flags);
        }
    }

    /// Releases the node `id` and every node it owns. Returns whether `id`
    /// named a live node; where it did not, nothing changes.
    pub fn release(&mut self, id: Id) -> (done: bool)
        requires
            old(self).wf(),
        ensures
            final(self).wf(),
            done == is_live(old(self)@, id),
            done ==> final(self)@ == released(old(self)@, id.0 as int),
            !done ==> final(self)@ == old(self)@,
    {
        if !self.is_alive(id) {
            return false;
        }
        let n: usize = self.nodes.len();
        let root: usize = id.0 as usize;
        let mut gone: Vec<bool> = Vec::new();
        let mut k: usize = 0;
        while k < n
            invariant
                k <= n,
                gone@.len() == k,
                forall|j: int| 0 <= j < k ==> !(#[trigger] gone@[j]),
            decreases n - k,
        {
            gone.push(false);
            k += 1;
        }
        let mut i: usize = n;
        while i > 0
            invariant
                i <= n,
                n == self.nodes@.len(),
                n == old(self)@.len(),
                gone@.len() == n,
                root < n,
                table_wf(old(self)@),
                forall|j: int| 0 <= j < i ==> !(#[trigger] gone@[j]),
                forall|j: int| i <= j < n ==> (#[trigger] gone@[j]) == owns(old(self)@, root as int, j),
                forall|j: int| i <= j < n ==> (#[trigger] self.nodes@[j]) == released(old(self)@, root as int)[j],
                forall|j: int| 0 <= j < i ==> (#[trigger] self.nodes@[j]) == old(self)@[j],
            decreases i,
        {
            i -= 1;
            let mut node: NodeState = self.nodes[i];
            let mut mine: bool = i == root;
            match node.parent {
                Some(p) => {
                    assert(owner(old(self)@, i as int) == Some(p.0 as int));
                    if gone[p.0 as usize] {
                        mine = true;
                    }
                },
                None => {},
            }
            assert(mine == owns(old(self)@, root as int, i as int));
            if mine {
                node.alive = false;
                self.nodes.set(i, node);
                gone.set(i, true);
            }
        }
        proof {
            assert(self@ =~= released(old(self)@, id.0 as int));
            lemma_released_wf(old(self)@, id.0 as int);
        }
        true
    }

    /// Sets the pseudo-states of the node `id`. Where they change, the node
    /// and its owners are asked to restyle and repaint; the layout is not
    /// asked for. Returns whether anything changed.
    pub fn set_interaction(&mut self, id: Id, state: Interaction) -> (changed: bool)
        requires
            old(self).wf(),
        ensures
            final(self).wf(),
            changed == (is_live(old(self)@, id) && old(self)@[id.0 as int].interaction != state),
            final(self)@ == with_interaction(old(self)@, id, state),
    {
        if !self.is_alive(id) {
            return false;
        }
        let mut node: NodeState = self.nodes[id.0 as usize];
        if node.interaction == state {
            return false;
        }
        node.interaction = state;
        self.nodes.set(id.0 as usize, node);
        proof {
            lemma_update_keeps_wf(old(self)@, id.0 as int, node);
        }
        self.request(id, ChangeFlags { style: true, layout: false, paint: true });
        true
    }

    /// Disables or enables the node `id`; see
    /// [`set_interaction`](Self::set_interaction).
    pub fn set_disabled(&mut self, id: Id, disabled: bool) -> (changed: bool)
        requires
            old(self).wf(),
        ensures
            final(self).wf(),
            changed == (is_live(old(self)@, id) && old(self)@[id.0 as int].interaction.disabled
                != disabled),
            is_live(old(self)@, id) ==> final(self)@ == with_interaction(
                old(self)@,
                id,
                (Interaction { disabled, ..old(self)@[id.0 as int].interaction }),
            ),
            !is_live(old(self)@, id) ==> final(self)@ == old(self)@,
    {
        match self.node(id) {
            Some(node) => {
                let state = Interaction { disabled, ..node.interaction };
                self.set_interaction(id, state)
            },
            None => false,
        }
    }

    /// Sets the explicit style of the node `id`. Where it changes, the node
    /// and its owners are asked to restyle and repaint. Returns whether
    /// anything changed.
    pub fn set_sheet(&mut self, id: Id, sheet: StyleSheet) -> (changed: bool)
        requires
            old(self).wf(),
        ensures
            final(self).wf(),
            changed == (is_live(old(self)@, id) && old(self)@[id.0 as int].sheet != sheet),
            final(self)@ == with_sheet(old(self)@, id, sheet),
    {
        if !self.is_alive(id) {
            return false;
        }
        let mut node: NodeState = self.nodes[id.0 as usize];
        if node.sheet == sheet {
            return false;
        }
        node.sheet = sheet;
        self.nodes.set(id.0 as usize, node);
        proof {
            lemma_update_keeps_wf(old(self)@, id.0 as int, node);
        }
        self.request(id, ChangeFlags { style: true, layout: false, paint: true });
        true
    }

    /// Binds the pseudo-states of the node `id` to the signals of `watch`.
    /// The style traversal reads them under `tracker`, so that a write to
    /// one of them makes `tracker` stale. The node and its owners are asked
    /// to restyle. Returns whether `id` names a live node; where it does
    /// not, nothing changes.
    pub fn watch(&mut self, id: Id, watch: Watch, tracker: Computation) -> (done: bool)
        requires
            old(self).wf(),
        ensures
            final(self).wf(),
            done == is_live(old(self)@, id),
            final(self)@ == watching(old(self)@, id, watch, tracker),
    {
        if !self.is_alive(id) {
            return false;
        }
        let mut node: NodeState = self.nodes[id.0 as usize];
        node.watch = watch;
        node.tracker = Some(tracker);
        self.nodes.set(id.0 as usize, node);
        proof {
            lemma_update_keeps_wf(old(self)@, id.0 as int, node);
        }
        self.request(id, ChangeFlags { style: true, layout: false, paint: true });
        true
    }

    /// Asks every live node whose style is read under one of the
    /// computations of `batch` to restyle, with its owners.
    pub fn invalidate(&mut self, batch: &Vec<Computation>)
        requires
            old(self).wf(),
        ensures
            final(self).wf(),
            final(self)@ == invalidated(old(self)@, batch@, batch@.len()),
    {
        let n: usize = self.nodes.len();
        let m: usize = batch.len();
        let mut b: usize = 0;
        while b < m
            invariant
                b <= m,
                m == batch@.len(),
                n == self.nodes@.len(),
                table_wf(self.nodes@),
                self.nodes@ == invalidated(old(self)@, batch@, b as nat),
            decreases m - b,
        {
            let stale: Computation = batch[b];
            let ghost start = self.nodes@;
            let mut k: usize = 0;
            while k < n
                invariant
                    k <= n,
                    n == self.nodes@.len(),
                    n == start.len(),
                    table_wf(self.nodes@),
                    self.nodes@ == invalidated_by(start, stale, k as nat),
                decreases n - k,
            {
                let node: NodeState = self.nodes[k];
                let hit: bool = match node.tracker {
                    Some(c) => node.alive && c.0 == stale.0,
                    None => false,
                };
                if hit {
                    proof {
                        lemma_requested_wf(self.nodes@, k as int, restyle_flags());
                    }
                    self.request(Id(k as u64), ChangeFlags { style: true, layout: false, paint: true });
                }
                k += 1;
            }
            b += 1;
        }
    }

    /// Replaces the state of the node at `id` by `node`, which keeps its
    /// owner.
    pub(crate) fn put(&mut self, id: Id, node: NodeState)
        requires
            old(self).wf(),
            id.0 < old(self)@.len(),
            node.flags.wf(),
            node.parent == old(self)@[id.0 as int].parent,
            node.alive == old(self)@[id.0 as int].alive,
            node.flags.layout == old(self)@[id.0 as int].flags.layout,
        ensures
            final(self).wf(),
            final(self)@ == old(self)@.update(id.0 as int, node),
    {
        let n: usize = self.nodes.len();
        assert(id.0 < n);
        self.nodes.set(id.0 as usize, node);
        proof {
            lemma_update_keeps_wf(old(self)@, id.0 as int, node);
        }
    }
}

/// Replacing an entry by one with well-formed flags and the same owner
/// keeps the table well-formed, where the node is live as before and asks
/// for layout as before, or no longer asks while no live node that it owns
/// directly does.
pub proof fn lemma_update_keeps_wf(nodes: Seq<NodeState>, i: int, node: NodeState)
    requires
        table_wf(nodes),
        0 <= i < nodes.len(),
        node.flags.wf(),
        node.parent == nodes[i].parent,
        node.alive == nodes[i].alive,
        node.flags.layout == nodes[i].flags.layout || (!node.flags.layout && !asked_below(nodes, i)),
    ensures
        table_wf(nodes.update(i, node)),
{
    let after = nodes.update(i, node);
    assert forall|j: int| 0 <= j < after.len() implies (#[trigger] after[j]).flags.wf() && (
    after[j].parent matches Some(p) ==> j < p.0 < after.len()) by {
        if j != i {
            assert(after[j] == nodes[j]);
        } else {
            assert(nodes[i].flags.wf() && (nodes[i].parent matches Some(p) ==> i < p.0 < nodes.len()));
        }
    }
    assert forall|j: int|
        0 <= j < after.len() && (#[trigger] after[j]).alive && after[j].parent is Some implies {
        &&& after[after[j].parent.unwrap().0 as int].alive
        &&& after[j].flags.layout ==> after[after[j].parent.unwrap().0 as int].flags.layout
    } by {
        let p = after[j].parent.unwrap().0 as int;
        assert(nodes[j].flags.wf() && (nodes[j].parent matches Some(q) ==> j < q.0 < nodes.len()));
        assert(nodes[j].alive);
        assert(nodes[p].alive);
        if j == i {
            assert(after[p] == nodes[p]);
        } else {
            assert(after[j] == nodes[j]);
            if p == i {
                if nodes[j].flags.layout && !node.flags.layout {
                    assert(owner(nodes, j) == Some(i));
                    assert(asked_below(nodes, i));
                }
            } else {
                assert(after[p] == nodes[p]);
            }
        }
    }
}

/// Taking flags from a node keeps the table well-formed.
pub proof fn lemma_cleared_wf(nodes: Seq<NodeState>, i: int, flags: ChangeFlags)
    requires
        table_wf(nodes),
    ensures
        table_wf(cleared(nodes, i, flags)),
{
    if 0 <= i < nodes.len() {
        assert(nodes[i].flags.wf());
        lemma_update_keeps_wf(nodes, i, nodes[i].with_flags(taken(nodes, i, flags)));
    }
}

/// Releasing a node with all that it owns keeps the table well-formed.
pub proof fn lemma_released_wf(nodes: Seq<NodeState>, root: int)
    requires
        table_wf(nodes),
    ensures
        table_wf(released(nodes, root)),
{
    let after = released(nodes, root);
    assert forall|j: int| 0 <= j < after.len() implies (#[trigger] after[j]).flags.wf() && (
    after[j].parent matches Some(p) ==> j < p.0 < after.len()) by {
        assert(nodes[j].flags.wf() && (nodes[j].parent matches Some(q) ==> j < q.0 < nodes.len()));
    }
    assert forall|j: int|
        0 <= j < after.len() && (#[trigger] after[j]).alive && after[j].parent is Some implies {
        &&& after[after[j].parent.unwrap().0 as int].alive
        &&& after[j].flags.layout ==> after[after[j].parent.unwrap().0 as int].flags.layout
    } by {
        let p = after[j].parent.unwrap().0 as int;
        assert(nodes[j].flags.wf() && (nodes[j].parent matches Some(q) ==> j < q.0 < nodes.len()));
        assert(nodes[j].alive && !owns(nodes, root, j));
        assert(owner(nodes, j) == Some(p));
        assert(!owns(nodes, root, p));
        assert(nodes[p].alive);
    }
}

/// What a node owns, its owner owns too.
pub proof fn lemma_owns_up(nodes: Seq<NodeState>, a: int, c: int, x: int)
    requires
        owner(nodes, c) == Some(a),
        owns(nodes, c, x),
    ensures
        owns(nodes, a, x),
    decreases nodes.len() - x,
{
    if x == c {
        assert(owns(nodes, a, a));
    } else {
        lemma_owns_up(nodes, a, c, owner(nodes, x).unwrap());
    }
}

/// Adoption keeps the table well-formed.
pub proof fn lemma_adopted_wf(nodes: Seq<NodeState>, child: Id, parent: Id)
    requires
        table_wf(nodes),
    ensures
        table_wf(adopted(nodes, child, parent)),
{
    if can_adopt(nodes, child, parent) {
        let flags = nodes[child.0 as int].flags;
        let asked = requested(nodes, parent.0 as int, flags);
        lemma_requested(nodes, parent.0 as int, flags);
        lemma_requested_wf(nodes, parent.0 as int, flags);
        let after = adopted(nodes, child, parent);
        if owns(nodes, child.0 as int, parent.0 as int) {
            lemma_owners_come_later(nodes, child.0 as int, parent.0 as int);
        }
        assert(owns(nodes, parent.0 as int, parent.0 as int));
        assert(asked[child.0 as int] == nodes[child.0 as int]);
        assert forall|j: int| 0 <= j < after.len() implies (#[trigger] after[j]).flags.wf() && (
        after[j].parent matches Some(p) ==> j < p.0 < after.len()) by {
            assert(asked[j].flags.wf() && (asked[j].parent matches Some(q) ==> j < q.0
                < asked.len()));
        }
        assert forall|j: int|
            0 <= j < after.len() && (#[trigger] after[j]).alive && after[j].parent is Some implies {
            &&& after[after[j].parent.unwrap().0 as int].alive
            &&& after[j].flags.layout ==> after[after[j].parent.unwrap().0 as int].flags.layout
        } by {
            let p = after[j].parent.unwrap().0 as int;
            if j == child.0 {
                assert(after[p] == asked[p]);
            } else {
                assert(after[j] == asked[j]);
                assert(asked[j].flags.wf() && (asked[j].parent matches Some(q) ==> j < q.0
                    < asked.len()));
                assert(asked[j].alive);
                if p == child.0 {
                    assert(after[p].alive == asked[p].alive);
                    assert(after[p].flags == asked[p].flags);
                } else {
                    assert(after[p] == asked[p]);
                }
            }
        }
    }
}

/// A node is owned only by itself and by nodes created after it.
pub proof fn lemma_owners_come_later(nodes: Seq<NodeState>, a: int, i: int)
    requires
        owns(nodes, a, i),
    ensures
        0 <= i <= a < nodes.len(),
    decreases nodes.len() - i,
{
    if i != a {
        lemma_owners_come_later(nodes, a, owner(nodes, i).unwrap());
    }
}

/// Who owns whom depends on the owner links alone.
pub proof fn lemma_owns_by_links(before: Seq<NodeState>, after: Seq<NodeState>, a: int, i: int)
    requires
        before.len() == after.len(),
        forall|j: int| 0 <= j < before.len() ==> (#[trigger] before[j]).parent == after[j].parent,
    ensures
        owns(before, a, i) == owns(after, a, i),
    decreases before.len() - i,
{
    if 0 <= i < before.len() {
        assert(before[i].parent == after[i].parent);
        if i != a {
            match owner(before, i) {
                Some(p) => {
                    lemma_owns_by_links(before, after, a, p);
                },
                None => {},
            }
        }
    }
}

/// What a request changes: the node and each of its owners gain the flags,
/// and nothing else in the table changes.
pub proof fn lemma_requested(nodes: Seq<NodeState>, i: int, flags: ChangeFlags)
    requires
        0 <= i < nodes.len(),
    ensures
        requested(nodes, i, flags).len() == nodes.len(),
        forall|j: int|
            0 <= j < nodes.len() ==> (#[trigger] requested(nodes, i, flags)[j]) == (if owns(
                nodes,
                j,
                i,
            ) {
                nodes[j].with_flags(nodes[j].flags.spec_union(flags))
            } else {
                nodes[j]
            }),
    decreases nodes.len() - i,
{
    let marked = nodes.update(i, nodes[i].with_flags(nodes[i].flags.spec_union(flags)));
    match owner(nodes, i) {
        Some(p) => {
            lemma_requested(marked, p, flags);
            assert forall|j: int| 0 <= j < nodes.len() implies (#[trigger] requested(
                nodes,
                i,
                flags,
            )[j]) == (if owns(nodes, j, i) {
                nodes[j].with_flags(nodes[j].flags.spec_union(flags))
            } else {
                nodes[j]
            }) by {
                assert forall|k: int| 0 <= k < nodes.len() implies (#[trigger] nodes[k]).parent
                    == marked[k].parent by {}
                lemma_owns_by_links(nodes, marked, j, p);
                if owns(nodes, j, p) {
                    lemma_owners_come_later(nodes, j, p);
                }
            }
        },
        None => {},
    }
}

/// A request keeps the table well-formed, and changes neither which nodes
/// are live nor who owns whom.
pub proof fn lemma_requested_wf(nodes: Seq<NodeState>, i: int, flags: ChangeFlags)
    requires
        table_wf(nodes),
    ensures
        table_wf(requested(nodes, i, flags)),
        requested(nodes, i, flags).len() == nodes.len(),
        forall|j: int|
            0 <= j < nodes.len() ==> (#[trigger] requested(nodes, i, flags)[j]) == nodes[j].with_flags(
                requested(nodes, i, flags)[j].flags,
            ),
{
    if 0 <= i < nodes.len() {
        lemma_requested(nodes, i, flags);
        let after = requested(nodes, i, flags);
        assert forall|j: int| 0 <= j < after.len() implies (#[trigger] after[j]).flags.wf() && (
        after[j].parent matches Some(p) ==> j < p.0 < after.len()) by {
            assert(nodes[j].flags.wf() && (nodes[j].parent matches Some(p) ==> j < p.0 < nodes.len()));
        }
        assert forall|j: int|
            0 <= j < after.len() && (#[trigger] after[j]).alive && after[j].parent is Some implies {
            &&& after[after[j].parent.unwrap().0 as int].alive
            &&& after[j].flags.layout ==> after[after[j].parent.unwrap().0 as int].flags.layout
        } by {
            let p = after[j].parent.unwrap().0 as int;
            assert(nodes[j].flags.wf() && (nodes[j].parent matches Some(q) ==> j < q.0 < nodes.len()));
            assert(nodes[j].alive);
            assert(owner(nodes, j) == Some(p));
            assert(after[p].alive == nodes[p].alive);
            if after[j].flags.layout && !nodes[j].flags.layout {
                assert(owns(nodes, j, i));
                lemma_owns_up(nodes, p, j, i);
            }
        }
    }
}

/// A change that concerns the style alone spares the layout: the node and
/// each of its owners are asked to restyle and to repaint, the layout flag
/// of every node is what it was, and no other node changes.
pub proof fn lemma_restyle_spares_layout(nodes: Seq<NodeState>, id: Id)
    requires
        table_wf(nodes),
        id.0 < nodes.len(),
    ensures
        ({
            let after = requested(nodes, id.0 as int, restyle_flags());
            &&& after.len() == nodes.len()
            &&& forall|j: int|
                0 <= j < nodes.len() && owns(nodes, j, id.0 as int) ==> (#[trigger] after[j]).flags.style
                    && after[j].flags.paint
            &&& forall|j: int|
                0 <= j < nodes.len() ==> (#[trigger] after[j]).flags.layout == nodes[j].flags.layout
            &&& forall|j: int|
                0 <= j < nodes.len() && !owns(nodes, j, id.0 as int) ==> (#[trigger] after[j])
                    == nodes[j]
        }),
{
    lemma_requested(nodes, id.0 as int, restyle_flags());
}

/// A change of geometry forces a repaint all the way up. In a well-formed
/// table, where a live node asks for layout, the node and every node that
/// owns it, directly or not, are live and ask for layout and for paint.
pub proof fn lemma_layout_asks_paint_above(nodes: Seq<NodeState>, a: int, i: int)
    requires
        table_wf(nodes),
        owns(nodes, a, i),
        nodes[i].alive,
        nodes[i].flags.layout,
    ensures
        nodes[a].alive,
        nodes[a].flags.layout,
        nodes[a].flags.paint,
    decreases nodes.len() - i,
{
    assert(nodes[i].flags.wf() && (nodes[i].parent matches Some(p) ==> i < p.0 < nodes.len()));
    if i != a {
        lemma_layout_asks_paint_above(nodes, a, owner(nodes, i).unwrap());
    } else {
        assert(nodes[a].flags.wf());
    }
}

/// A change of geometry forces a repaint all the way up: after a request
/// that holds the layout flag, the node and each of its owners ask for
/// layout and for paint.
pub proof fn lemma_layout_request_reaches_owners(nodes: Seq<NodeState>, id: Id, flags: ChangeFlags)
    requires
        id.0 < nodes.len(),
        flags.layout,
    ensures
        forall|j: int|
            0 <= j < nodes.len() && owns(nodes, j, id.0 as int) ==> (#[trigger] requested(
                nodes,
                id.0 as int,
                flags,
            )[j]).flags.layout && requested(nodes, id.0 as int, flags)[j].flags.paint,
{
    lemma_requested(nodes, id.0 as int, flags);
}

/// What invalidation changes: nothing but flags, and never the layout
/// flag. A node gains no flag but style and paint, and every live node
/// among the first `k` whose style is read under `stale` asks for both,
/// with each of its owners.
pub proof fn lemma_invalidated_by(nodes: Seq<NodeState>, stale: Computation, k: nat)
    requires
        table_wf(nodes),
        k <= nodes.len(),
    ensures
        table_wf(invalidated_by(nodes, stale, k)),
        invalidated_by(nodes, stale, k).len() == nodes.len(),
        forall|j: int|
            0 <= j < nodes.len() ==> {
                let after = #[trigger] invalidated_by(nodes, stale, k)[j];
                &&& after == nodes[j].with_flags(after.flags)
                &&& after.flags.layout == nodes[j].flags.layout
                &&& nodes[j].flags.style ==> after.flags.style
                &&& nodes[j].flags.paint ==> after.flags.paint
            },
        forall|i: int, j: int|
            0 <= i < k && nodes[i].alive && nodes[i].tracker == Some(stale) && #[trigger] owns(
                nodes,
                j,
                i,
            ) ==> invalidated_by(nodes, stale, k)[j].flags.style && invalidated_by(
                nodes,
                stale,
                k,
            )[j].flags.paint,
    decreases k,
{
    if k > 0 {
        lemma_invalidated_by(nodes, stale, (k - 1) as nat);
        let before = invalidated_by(nodes, stale, (k - 1) as nat);
        let after = invalidated_by(nodes, stale, k);
        assert(before[k - 1] == nodes[k - 1].with_flags(before[k - 1].flags));
        if before[k - 1].alive && before[k - 1].tracker == Some(stale) {
            lemma_requested(before, k - 1, restyle_flags());
            lemma_requested_wf(before, k - 1, restyle_flags());
        }
        assert forall|j: int| 0 <= j < nodes.len() implies {
            let node = #[trigger] after[j];
            &&& node == nodes[j].with_flags(node.flags)
            &&& node.flags.layout == nodes[j].flags.layout
            &&& nodes[j].flags.style ==> node.flags.style
            &&& nodes[j].flags.paint ==> node.flags.paint
        } by {
            assert(before[j] == nodes[j].with_flags(before[j].flags));
        }
        assert forall|i: int, j: int|
            0 <= i < k && nodes[i].alive && nodes[i].tracker == Some(stale) && #[trigger] owns(
                nodes,
                j,
                i,
            ) implies after[j].flags.style && after[j].flags.paint by {
            lemma_owners_come_later(nodes, j, i);
            assert(before[j] == nodes[j].with_flags(before[j].flags));
            assert forall|x: int| 0 <= x < nodes.len() implies (#[trigger] nodes[x]).parent
                == before[x].parent by {
                assert(before[x] == nodes[x].with_flags(before[x].flags));
            }
            lemma_owns_by_links(nodes, before, j, i);
            if i < k - 1 {
                assert(before[j].flags.style && before[j].flags.paint);
            }
        }
    }
}

/// What invalidation by a batch changes: nothing but flags, and never the
/// layout flag. Every live node whose style is read under one of the first
/// `b` computations of the batch asks to restyle and to repaint, with each
/// of its owners.
pub proof fn lemma_invalidated(nodes: Seq<NodeState>, batch: Seq<Computation>, b: nat)
    requires
        table_wf(nodes),
        b <= batch.len(),
    ensures
        table_wf(invalidated(nodes, batch, b)),
        invalidated(nodes, batch, b).len() == nodes.len(),
        forall|j: int|
            0 <= j < nodes.len() ==> {
                let after = #[trigger] invalidated(nodes, batch, b)[j];
                &&& after == nodes[j].with_flags(after.flags)
                &&& after.flags.layout == nodes[j].flags.layout
                &&& nodes[j].flags.style ==> after.flags.style
                &&& nodes[j].flags.paint ==> after.flags.paint
            },
        forall|x: int, i: int, j: int|
            0 <= x < b && 0 <= i < nodes.len() && nodes[i].alive && nodes[i].tracker == Some(
                #[trigger] batch[x],
            ) && #[trigger] owns(nodes, j, i) ==> invalidated(nodes, batch, b)[j].flags.style
                && invalidated(nodes, batch, b)[j].flags.paint,
    decreases b,
{
    if b > 0 {
        lemma_invalidated(nodes, batch, (b - 1) as nat);
        let before = invalidated(nodes, batch, (b - 1) as nat);
        let after = invalidated(nodes, batch, b);
        lemma_invalidated_by(before, batch[b - 1], before.len());
        assert forall|j: int| 0 <= j < nodes.len() implies {
            let node = #[trigger] after[j];
            &&& node == nodes[j].with_flags(node.flags)
            &&& node.flags.layout == nodes[j].flags.layout
            &&& nodes[j].flags.style ==> node.flags.style
            &&& nodes[j].flags.paint ==> node.flags.paint
        } by {
            assert(before[j] == nodes[j].with_flags(before[j].flags));
            assert(after[j] == before[j].with_flags(after[j].flags));
        }
        assert forall|x: int, i: int, j: int|
            0 <= x < b && 0 <= i < nodes.len() && nodes[i].alive && nodes[i].tracker == Some(
                #[trigger] batch[x],
            ) && #[trigger] owns(nodes, j, i) implies after[j].flags.style
            && after[j].flags.paint by {
            lemma_owners_come_later(nodes, j, i);
            assert(before[j] == nodes[j].with_flags(before[j].flags));
            assert(after[j] == before[j].with_flags(after[j].flags));
            if x < b - 1 {
                assert(before[j].flags.style && before[j].flags.paint);
            } else {
                assert(before[i] == nodes[i].with_flags(before[i].flags));
                assert forall|y: int| 0 <= y < nodes.len() implies (#[trigger] nodes[y]).parent
                    == before[y].parent by {
                    assert(before[y] == nodes[y].with_flags(before[y].flags));
                }
                lemma_owns_by_links(nodes, before, j, i);
                assert(owns(before, j, i));
            }
        }
    }
}

/// Identifiers are not handed out twice. Two nodes created one after the
/// other have different identifiers; after the first is released, its
/// identifier finds nothing, the second node is found as before, and the
/// next identifier handed out is neither of the two.
pub proof fn lemma_ids_are_not_reissued(nodes: Seq<NodeState>)
    requires
        table_wf(nodes),
        nodes.len() + 2 <= u64::MAX,
    ensures
        ({
            let first = Id(nodes.len() as u64);
            let one = nodes.push(NodeState::fresh());
            let second = Id(one.len() as u64);
            let two = one.push(NodeState::fresh());
            let gone = released(two, first.0 as int);
            let third = Id(gone.len() as u64);
            let three = gone.push(NodeState::fresh());
            &&& first != second
            &&& third != first
            &&& third != second
            &&& is_live(two, first)
            &&& is_live(two, second)
            &&& !is_live(three, first)
            &&& is_live(three, second)
            &&& is_live(three, third)
        }),
{
    let first = Id(nodes.len() as u64);
    let one = nodes.push(NodeState::fresh());
    let second = Id(one.len() as u64);
    let two = one.push(NodeState::fresh());
    assert(owns(two, first.0 as int, first.0 as int));
    assert(owner(two, second.0 as int) is None);
    assert(!owns(two, first.0 as int, second.0 as int));
}

} // verus!
