//! Paint: the drawing commands of the tree, back to front.

use vstd::prelude::*;
use crate::flags::ChangeFlags;
use crate::geometry::Rect;
use crate::id::Id;
use crate::paint::{Appearance, PaintCommand};
use crate::state::{cleared, is_live, lemma_update_keeps_wf, table_wf, AppState, NodeState};
use crate::style::Style;
use crate::view::{NodeModel, ViewNode};

verus! {

/// The state of a paint traversal.
pub struct PaintModel {
    pub nodes: Seq<NodeState>,
    /// The commands emitted so far.
    pub commands: Seq<PaintCommand>,
}

/// What a paint traversal carries.
pub struct PaintCx {
    pub app: AppState,
    pub commands: Vec<PaintCommand>,
}

impl View for PaintCx {
    type V = PaintModel;

    open spec fn view(&self) -> PaintModel {
        PaintModel { nodes: self.app@, commands: self.commands@ }
    }
}

/// The flag that paint takes from a node it has visited.
pub open spec fn paint_only() -> ChangeFlags {
    ChangeFlags { style: false, layout: false, paint: true }
}

/// What the drawing of the node `id` depends on. For a node that is not
/// live it is the empty style and the empty rectangle.
pub open spec fn appearance_of(nodes: Seq<NodeState>, id: Id) -> Appearance {
    if is_live(nodes, id) {
        Appearance { style: nodes[id.0 as int].computed, rect: nodes[id.0 as int].layout_rect }
    } else {
        Appearance { style: Style::spec_new(), rect: Rect::spec_zero() }
    }
}

/// The background of a node: its rectangle filled, where the style sets a
/// background colour.
pub open spec fn background_of(look: Appearance) -> Seq<PaintCommand> {
    match look.style.background {
        Some(color) => seq![PaintCommand::Fill { rect: look.rect, color }],
        None => Seq::empty(),
    }
}

/// Paint of the node of `m` and of everything below it: the node's
/// background, its own drawing, then what it contains. A node that is not
/// live is passed over with everything below it.
pub open spec fn paint_view(m: NodeModel, st: PaintModel) -> PaintModel
    decreases m, 1int,
{
    if !is_live(st.nodes, m.id) {
        st
    } else {
        paint_node(
            m,
            PaintModel {
                nodes: cleared(st.nodes, m.id.0 as int, paint_only()),
                commands: st.commands + background_of(appearance_of(st.nodes, m.id)),
            },
        )
    }
}

/// The node's own drawing, then the paint of what it contains.
pub open spec fn paint_node(m: NodeModel, st: PaintModel) -> PaintModel
    decreases m, 0int,
{
    paint_children(
        m.children,
        m.children.len(),
        PaintModel {
            nodes: st.nodes,
            commands: st.commands + (m.content)(appearance_of(st.nodes, m.id)),
        },
    )
}

/// Paint of the first `k` of the nodes `ms`, in order.
pub open spec fn paint_children(ms: Seq<NodeModel>, k: nat, st: PaintModel) -> PaintModel
    decreases ms, k,
{
    if k == 0 || k > ms.len() {
        st
    } else {
        paint_view(ms[k - 1], paint_children(ms, (k - 1) as nat, st))
    }
}

impl PaintCx {
    pub open spec fn wf(&self) -> bool {
        self.app.wf()
    }

    /// A traversal that has emitted nothing yet.
    pub fn new(app: AppState) -> (cx: PaintCx)
        requires
            app.wf(),
        ensures
            cx.wf(),
            cx.app == app,
            cx.commands@.len() == 0,
    {
        PaintCx { app, commands: Vec::new() }
    }

    /// What the drawing of the node `id` depends on.
    pub fn appearance(&self, id: Id) -> (look: Appearance)
        ensures
            look == appearance_of(self@.nodes, id),
    {
        match self.app.node(id) {
            Some(node) => Appearance { style: node.computed, rect: node.layout_rect },
            None => Appearance { style: Style::new(), rect: Rect::zero() },
        }
    }

    /// Emits one command.
    pub fn emit(&mut self, command: PaintCommand)
        ensures
            final(self).app == old(self).app,
            final(self).commands@ == old(self).commands@.push(command),
    {
        self.commands.push(command);
    }

    /// Paints `view` and everything below it.
    pub fn paint_view<V: ViewNode + ?Sized>(&mut self, view: &mut V)
        requires
            old(self).wf(),
        ensures
            final(self).wf(),
            final(view).model() == old(view).model(),
            final(self)@ == paint_view(old(view).model(), old(self)@),
    {
        let id = view.id();
        let node: NodeState = match self.app.node(id) {
            Some(n) => n,
            None => {
                return ;
            },
        };
        self.app.clear(id, ChangeFlags { style: false, layout: false, paint: true });
        match node.computed.background {
            Some(color) => {
                self.commands.push(PaintCommand::Fill { rect: node.layout_rect, color });
                proof {
                    assert(self.commands@ =~= old(self).commands@ + background_of(
                        appearance_of(old(self)@.nodes, id),
                    ));
                }
            },
            None => {
                proof {
                    assert(self.commands@ =~= old(self).commands@ + background_of(
                        appearance_of(old(self)@.nodes, id),
                    ));
                }
            },
        }
        view.paint(self);
    }
}

/// Two tables show the same: they hold the same nodes, and each node is
/// live in both or in neither and has the same computed style and the same
/// rectangle in both.
pub open spec fn same_look(a: Seq<NodeState>, b: Seq<NodeState>) -> bool {
    &&& a.len() == b.len()
    &&& forall|j: int|
        0 <= j < a.len() ==> (#[trigger] a[j]).alive == b[j].alive && a[j].computed
            == b[j].computed && a[j].layout_rect == b[j].layout_rect
}

/// Paint changes nothing in the table but paint flags.
pub open spec fn only_paint_flags_differ(before: Seq<NodeState>, after: Seq<NodeState>) -> bool {
    &&& after.len() == before.len()
    &&& forall|j: int|
        0 <= j < before.len() ==> (#[trigger] after[j]) == (NodeState {
            flags: ChangeFlags { paint: after[j].flags.paint, ..before[j].flags },
            ..before[j]
        })
}

/// The second table is well-formed, and no node asks for paint in it that
/// did not in the first.
pub open spec fn paint_settles(before: Seq<NodeState>, after: Seq<NodeState>) -> bool {
    &&& table_wf(after)
    &&& forall|j: int|
        0 <= j < before.len() && j < after.len() ==> ((#[trigger] after[j]).flags.paint
            ==> before[j].flags.paint)
}

/// The commands that painting the node of `m` and everything below it
/// emits.
pub open spec fn painted_view(m: NodeModel, nodes: Seq<NodeState>) -> Seq<PaintCommand>
    decreases m, 1int,
{
    if !is_live(nodes, m.id) {
        Seq::empty()
    } else {
        background_of(appearance_of(nodes, m.id)) + painted_node(m, nodes)
    }
}

/// The commands of the node's own drawing and of what it contains.
pub open spec fn painted_node(m: NodeModel, nodes: Seq<NodeState>) -> Seq<PaintCommand>
    decreases m, 0int,
{
    (m.content)(appearance_of(nodes, m.id)) + painted_children(m.children, m.children.len(), nodes)
}

/// The commands of the first `k` of the nodes `ms`, in order.
pub open spec fn painted_children(ms: Seq<NodeModel>, k: nat, nodes: Seq<NodeState>) -> Seq<
    PaintCommand,
>
    decreases ms, k,
{
    if k == 0 || k > ms.len() {
        Seq::empty()
    } else {
        painted_children(ms, (k - 1) as nat, nodes) + painted_view(ms[k - 1], nodes)
    }
}

/// What is painted depends only on what the table shows.
pub proof fn lemma_painted_view_by_look(m: NodeModel, a: Seq<NodeState>, b: Seq<NodeState>)
    requires
        same_look(a, b),
    ensures
        painted_view(m, a) == painted_view(m, b),
    decreases m, 1int,
{
    if is_live(a, m.id) {
        assert(a[m.id.0 as int].alive == b[m.id.0 as int].alive);
        lemma_painted_node_by_look(m, a, b);
    } else {
        if m.id.0 < a.len() {
            assert(a[m.id.0 as int].alive == b[m.id.0 as int].alive);
        }
    }
}

/// See [`lemma_painted_view_by_look`].
pub proof fn lemma_painted_node_by_look(m: NodeModel, a: Seq<NodeState>, b: Seq<NodeState>)
    requires
        same_look(a, b),
    ensures
        painted_node(m, a) == painted_node(m, b),
        appearance_of(a, m.id) == appearance_of(b, m.id),
    decreases m, 0int,
{
    if m.id.0 < a.len() {
        assert(a[m.id.0 as int].alive == b[m.id.0 as int].alive);
    }
    lemma_painted_children_by_look(m.children, m.children.len(), a, b);
}

/// See [`lemma_painted_view_by_look`].
pub proof fn lemma_painted_children_by_look(
    ms: Seq<NodeModel>,
    k: nat,
    a: Seq<NodeState>,
    b: Seq<NodeState>,
)
    requires
        same_look(a, b),
    ensures
        painted_children(ms, k, a) == painted_children(ms, k, b),
    decreases ms, k,
{
    if k == 0 || k > ms.len() {
    } else {
        lemma_painted_children_by_look(ms, (k - 1) as nat, a, b);
        lemma_painted_view_by_look(ms[k - 1], a, b);
    }
}

/// Paint appends [`painted_view`] to the commands and changes nothing in
/// the table but paint flags.
pub proof fn lemma_paint_view(m: NodeModel, st: PaintModel)
    ensures
        paint_view(m, st).commands == st.commands + painted_view(m, st.nodes),
        same_look(st.nodes, paint_view(m, st).nodes),
        only_paint_flags_differ(st.nodes, paint_view(m, st).nodes),
        table_wf(st.nodes) ==> paint_settles(st.nodes, paint_view(m, st).nodes),
        table_wf(st.nodes) && is_live(st.nodes, m.id) && !st.nodes[m.id.0 as int].flags.layout
            ==> !paint_view(m, st).nodes[m.id.0 as int].flags.paint,
    decreases m, 1int,
{
    if !is_live(st.nodes, m.id) {
        assert(st.commands + Seq::<PaintCommand>::empty() =~= st.commands);
    } else {
        if table_wf(st.nodes) {
            let cleared_nodes = cleared(st.nodes, m.id.0 as int, paint_only());
            lemma_update_keeps_wf(
                st.nodes,
                m.id.0 as int,
                cleared_nodes[m.id.0 as int],
            );
            assert(cleared_nodes =~= st.nodes.update(m.id.0 as int, cleared_nodes[m.id.0 as int]));
        }
        let own = background_of(appearance_of(st.nodes, m.id));
        let inner = PaintModel {
            nodes: cleared(st.nodes, m.id.0 as int, paint_only()),
            commands: st.commands + own,
        };
        lemma_paint_node(m, inner);
        lemma_painted_node_by_look(m, st.nodes, inner.nodes);
        assert((st.commands + own) + painted_node(m, st.nodes) =~= st.commands + (own + painted_node(
            m,
            st.nodes,
        )));
        let after = paint_view(m, st).nodes;
        assert forall|j: int| 0 <= j < st.nodes.len() implies (#[trigger] after[j]) == (NodeState {
            flags: ChangeFlags { paint: after[j].flags.paint, ..st.nodes[j].flags },
            ..st.nodes[j]
        }) by {
            assert(inner.nodes[j].alive == st.nodes[j].alive);
            assert(after[j] == (NodeState {
                flags: ChangeFlags { paint: after[j].flags.paint, ..inner.nodes[j].flags },
                ..inner.nodes[j]
            }));
        }
        assert forall|j: int| 0 <= j < st.nodes.len() implies (#[trigger] st.nodes[j]).alive
            == after[j].alive && st.nodes[j].computed == after[j].computed && st.nodes[j].layout_rect
            == after[j].layout_rect by {
            assert(after[j].alive == st.nodes[j].alive);
        }
    }
}

/// See [`lemma_paint_view`].
pub proof fn lemma_paint_node(m: NodeModel, st: PaintModel)
    ensures
        paint_node(m, st).commands == st.commands + painted_node(m, st.nodes),
        same_look(st.nodes, paint_node(m, st).nodes),
        only_paint_flags_differ(st.nodes, paint_node(m, st).nodes),
        table_wf(st.nodes) ==> paint_settles(st.nodes, paint_node(m, st).nodes),
    decreases m, 0int,
{
    let own = (m.content)(appearance_of(st.nodes, m.id));
    let inner = PaintModel { nodes: st.nodes, commands: st.commands + own };
    lemma_paint_children(m.children, m.children.len(), inner);
    assert((st.commands + own) + painted_children(m.children, m.children.len(), st.nodes)
        =~= st.commands + (own + painted_children(m.children, m.children.len(), st.nodes)));
}

/// See [`lemma_paint_view`].
pub proof fn lemma_paint_children(ms: Seq<NodeModel>, k: nat, st: PaintModel)
    ensures
        paint_children(ms, k, st).commands == st.commands + painted_children(ms, k, st.nodes),
        same_look(st.nodes, paint_children(ms, k, st).nodes),
        only_paint_flags_differ(st.nodes, paint_children(ms, k, st).nodes),
        table_wf(st.nodes) ==> paint_settles(st.nodes, paint_children(ms, k, st).nodes),
    decreases ms, k,
{
    if k == 0 || k > ms.len() {
        assert(st.commands + Seq::<PaintCommand>::empty() =~= st.commands);
    } else {
        let before = paint_children(ms, (k - 1) as nat, st);
        lemma_paint_children(ms, (k - 1) as nat, st);
        lemma_paint_view(ms[k - 1], before);
        lemma_painted_view_by_look(ms[k - 1], st.nodes, before.nodes);
        assert((st.commands + painted_children(ms, (k - 1) as nat, st.nodes)) + painted_view(
            ms[k - 1],
            st.nodes,
        ) =~= st.commands + (painted_children(ms, (k - 1) as nat, st.nodes) + painted_view(
            ms[k - 1],
            st.nodes,
        )));
        let after = paint_children(ms, k, st).nodes;
        assert forall|j: int| 0 <= j < st.nodes.len() implies (#[trigger] after[j]) == (NodeState {
            flags: ChangeFlags { paint: after[j].flags.paint, ..st.nodes[j].flags },
            ..st.nodes[j]
        }) by {
            assert(before.nodes[j].alive == st.nodes[j].alive);
            assert(after[j] == (NodeState {
                flags: ChangeFlags { paint: after[j].flags.paint, ..before.nodes[j].flags },
                ..before.nodes[j]
            }));
        }
        assert forall|j: int| 0 <= j < st.nodes.len() implies (#[trigger] st.nodes[j]).alive
            == after[j].alive && st.nodes[j].computed == after[j].computed && st.nodes[j].layout_rect
            == after[j].layout_rect by {
            assert(after[j].alive == st.nodes[j].alive);
        }
    }
}

/// Paint is repeatable. Painting a tree and painting it again, with
/// nothing written in between, emits the same commands both times, and
/// neither changes a computed style or a rectangle.
pub proof fn lemma_paint_is_repeatable(m: NodeModel, nodes: Seq<NodeState>)
    ensures
        ({
            let first = paint_view(m, PaintModel { nodes, commands: Seq::empty() });
            let second = paint_view(m, PaintModel { nodes: first.nodes, commands: Seq::empty() });
            &&& second.commands == first.commands
            &&& first.commands == painted_view(m, nodes)
            &&& same_look(nodes, first.nodes)
            &&& same_look(nodes, second.nodes)
        }),
{
    let start = PaintModel { nodes, commands: Seq::empty() };
    let first = paint_view(m, start);
    let again = PaintModel { nodes: first.nodes, commands: Seq::empty() };
    let second = paint_view(m, again);
    lemma_paint_view(m, start);
    lemma_paint_view(m, again);
    lemma_painted_view_by_look(m, nodes, first.nodes);
    assert(Seq::<PaintCommand>::empty() + painted_view(m, nodes) =~= painted_view(m, nodes));
    assert forall|j: int| 0 <= j < nodes.len() implies (#[trigger] nodes[j]).alive
        == second.nodes[j].alive && nodes[j].computed == second.nodes[j].computed
        && nodes[j].layout_rect == second.nodes[j].layout_rect by {
        assert(first.nodes[j].alive == nodes[j].alive);
        assert(first.nodes[j].alive == second.nodes[j].alive);
    }
}

} // verus!
