//! One turn of the loop around the tree: an event is dispatched and the
//! queue of stale computations is taken; the traversals that the change
//! flags of the root ask for are run, in order.

use vstd::prelude::*;
use crate::context::event::{event_node, path_of, view_event, EventModel};
use crate::context::layout::{
    layout_view, lemma_layout_view_adds_boxes, lemma_place_view_keeps_boxes, place_view,
    LayoutModel,
};
use crate::context::paint::{
    lemma_paint_view, lemma_painted_view_by_look, paint_view, painted_view, PaintModel,
};
use crate::context::style::{
    lemma_restyled, lemma_style_is_idempotent, lemma_style_view_settles, observed, restyled,
    style_view, StyleModel,
};
use crate::context::{EventCx, LayoutCx, PaintCx, StyleCx};
use crate::engine::{same_boxes, BoxModel, LayoutBox, LayoutEngine};
use crate::event::Event;
use crate::flags::ChangeFlags;
use crate::geometry::Point;
use crate::id::Id;
use crate::paint::PaintCommand;
use crate::signal::{
    lemma_enqueue_readers, lemma_writes_coalesce, Computation, ReadSignal, SignalModel, SignalStore,
};
use crate::state::{
    asked_below, invalidated, is_live, lemma_invalidated, owner, owns, table_wf, AppState,
    NodeState,
};
use crate::style::{lemma_states_keep_box, resolved, Style};
use crate::view::{NodeModel, ViewNode};

verus! {

/// What a dispatch leaves behind.
pub struct Dispatched {
    pub app: AppState,
    pub signals: SignalStore,
    /// Whether a node handled the event.
    pub handled: bool,
    /// The nodes that the event was delivered to, in order.
    pub trace: Vec<Id>,
    /// The computations that the handlers made stale, each once.
    pub batch: Vec<Computation>,
}

/// What a refresh leaves behind.
pub struct Frame {
    pub app: AppState,
    pub signals: SignalStore,
    pub engine: LayoutEngine,
    /// Whether the tree was painted.
    pub painted: bool,
    /// The drawing commands, where it was.
    pub commands: Vec<PaintCommand>,
}

/// What the node `id` asks for; nothing where it is not live.
pub open spec fn pending_of(nodes: Seq<NodeState>, id: Id) -> ChangeFlags {
    if is_live(nodes, id) {
        nodes[id.0 as int].flags
    } else {
        ChangeFlags::spec_empty()
    }
}

/// The state of a style traversal that starts at the root.
pub open spec fn at_root(nodes: Seq<NodeState>, signals: SignalModel) -> StyleModel {
    StyleModel { nodes, signals, inherited: Style::spec_new(), forced: false }
}

/// The table and the signals after the styles have been resolved, where the
/// root asks for it.
pub open spec fn styled(m: NodeModel, nodes: Seq<NodeState>, signals: SignalModel) -> StyleModel {
    if pending_of(nodes, m.id).style {
        style_view(m, at_root(nodes, signals))
    } else {
        at_root(nodes, signals)
    }
}

/// The box of the root and the state after the boxes have been made.
pub open spec fn laid_out(m: NodeModel, nodes: Seq<NodeState>, boxes: Seq<BoxModel>) -> (
    LayoutBox,
    LayoutModel,
) {
    layout_view(m, LayoutModel { nodes, boxes, origin: Point::spec_zero() })
}

/// Hands `event` to the tree below `root`, along `id_path` if there is one,
/// and takes the queue of the computations that became stale. The nodes
/// whose style is read under one of them are asked to restyle. None of the
/// computations has been evaluated: that is for the caller to do, before
/// the next refresh.
pub fn dispatch<V: ViewNode + ?Sized>(
    root: &mut V,
    app: AppState,
    signals: SignalStore,
    id_path: Option<&[Id]>,
    event: Event,
) -> (done: Dispatched)
    requires
        app.wf(),
        signals.wf(),
    ensures
        done.app.wf(),
        done.signals.wf(),
        final(root).model() == old(root).model(),
        ({
            let r = view_event(
                old(root).model(),
                path_of(id_path),
                event,
                EventModel { nodes: app@, signals: signals@, trace: Seq::empty() },
            );
            &&& done.handled == r.0
            &&& done.app@ == invalidated(r.1.nodes, done.batch@, done.batch@.len())
            &&& done.trace@ == r.1.trace
            &&& done.signals@ == r.1.signals.drained()
            &&& done.batch@.len() == r.1.signals.pending.len()
            &&& forall|i: int|
                0 <= i < done.batch@.len() ==> (#[trigger] done.batch@[i]).0 == r.1.signals.pending[i]
            &&& forall|i: int, j: int|
                0 <= i < j < done.batch@.len() ==> (#[trigger] done.batch@[i]) != (
                #[trigger] done.batch@[j])
        }),
{
    let mut cx = EventCx::new(app, signals);
    proof {
        assert(cx@.trace =~= Seq::empty());
    }
    let handled = cx.view_event(root, id_path, event);
    let EventCx { mut app, mut signals, trace } = cx;
    let batch = signals.drain();
    app.invalidate(&batch);
    Dispatched { app, signals, handled, trace, batch }
}

/// Runs the traversals that the root asks for, in order: style, then
/// layout, then paint. The styles are resolved where the root asks for its
/// style. Where it then asks for layout, the boxes are brought up to date,
/// the engine solves them within the width and height given (`None` for as
/// much as the content wants), and every node is placed. Where it then asks
/// for paint, the tree is painted. Afterwards the root asks for nothing,
/// unless a live node that it owns directly still asks for layout: then it
/// asks for layout and paint.
pub fn refresh<V: ViewNode + ?Sized>(
    root: &mut V,
    app: AppState,
    signals: SignalStore,
    engine: LayoutEngine,
    width: Option<u16>,
    height: Option<u16>,
) -> (frame: Frame)
    requires
        app.wf(),
        signals.wf(),
        engine.wf(),
    ensures
        frame.app.wf(),
        frame.signals.wf(),
        frame.engine.wf(),
        final(root).model() == old(root).model(),
        frame.signals@ == styled(old(root).model(), app@, signals@).signals,
        !pending_of(frame.app@, old(root).model().id).style,
        pending_of(frame.app@, old(root).model().id).paint == pending_of(
            frame.app@,
            old(root).model().id,
        ).layout,
        pending_of(frame.app@, old(root).model().id).layout ==> asked_below(
            frame.app@,
            old(root).model().id.0 as int,
        ),
        is_live(frame.app@, old(root).model().id) == is_live(app@, old(root).model().id),
        ({
            let m = old(root).model();
            let restyled = styled(m, app@, signals@).nodes;
            let laid = laid_out(m, restyled, engine@);
            let relayout = pending_of(restyled, m.id).layout;
            let placed = if relayout {
                place_view(
                    m,
                    LayoutModel {
                        nodes: laid.1.nodes,
                        boxes: frame.engine@,
                        origin: Point::spec_zero(),
                    },
                ).1.nodes
            } else {
                restyled
            };
            &&& relayout ==> same_boxes(laid.1.boxes, frame.engine@)
            &&& relayout ==> exists|solved: LayoutEngine| #[trigger]
                solved@ == laid.1.boxes && solved.wf() && forall|i: int|
                    0 <= i < laid.1.boxes.len() ==> (#[trigger] frame.engine@[i]).frame
                        == solved.solution(laid.0, width, height)[i]
            &&& !relayout ==> frame.engine@ == engine@
            &&& frame.painted == pending_of(placed, m.id).paint
            &&& frame.painted ==> frame.commands@ == painted_view(m, placed) && frame.app@
                == paint_view(m, PaintModel { nodes: placed, commands: Seq::empty() }).nodes
            &&& !frame.painted ==> frame.commands@.len() == 0 && frame.app@ == placed
        }),
{
    let id = root.id();
    let ghost m = old(root).model();
    let ghost live = is_live(app@, id);
    let ghost old_app = app@;
    let ghost old_signals = signals@;
    let ghost old_boxes = engine@;
    let mut app = app;
    let mut signals = signals;
    let mut engine = engine;
    if app.pending(id).style {
        proof {
            lemma_style_is_idempotent(m, at_root(app@, signals@));
            lemma_style_view_settles(m, at_root(app@, signals@));
        }
        let mut cx = StyleCx::new(app, signals);
        cx.style_view(root);
        app = cx.app;
        signals = cx.signals;
    }
    assert(is_live(app@, id) == live);
    assert(!pending_of(app@, id).style);
    if app.pending(id).layout {
        let mut cx = LayoutCx::new(app, engine);
        proof {
            lemma_layout_view_adds_boxes(m, cx@);
        }
        let top = cx.layout_view(root);
        let ghost made = cx.engine;
        let solved = cx.solve(top, width, height);
        assert(solved);
        proof {
            lemma_place_view_keeps_boxes(m, cx@);
        }
        let ghost laid_nodes = cx@.nodes;
        let _ = cx.compute_view_layout(root);
        proof {
            assert forall|j: int| owner(laid_nodes, j) == owner(cx@.nodes, j) by {
                if 0 <= j < laid_nodes.len() {
                    assert(cx@.nodes[j].parent == laid_nodes[j].parent);
                }
            }
            if pending_of(cx@.nodes, id).layout {
                let j = choose|j: int| #[trigger]
                    owner(laid_nodes, j) == Some(id.0 as int) && laid_nodes[j].alive
                        && laid_nodes[j].flags.layout;
                assert(cx@.nodes[j].flags == laid_nodes[j].flags);
                assert(asked_below(cx@.nodes, id.0 as int));
            }
        }
        proof {
            assert(made@ == laid_out(m, styled(m, old_app, old_signals).nodes, old_boxes).1.boxes);
            assert(forall|i: int|
                0 <= i < made@.len() ==> (#[trigger] cx.engine@[i]).frame == made.solution(
                    top,
                    width,
                    height,
                )[i]);
        }
        app = cx.app;
        engine = cx.engine;
    }
    assert(is_live(app@, id) == live);
    assert(!pending_of(app@, id).style);
    assert(pending_of(app@, id).layout ==> asked_below(app@, id.0 as int));
    let ghost placed_nodes = app@;
    if app.pending(id).paint {
        let mut cx = PaintCx::new(app);
        let ghost start = cx@;
        proof {
            assert(start.commands =~= Seq::empty());
            lemma_paint_view(m, start);
            assert(Seq::<PaintCommand>::empty() + painted_view(m, start.nodes) =~= painted_view(
                m,
                start.nodes,
            ));
        }
        cx.paint_view(root);
        proof {
            assert forall|j: int| owner(placed_nodes, j) == owner(cx@.nodes, j) by {
                if 0 <= j < placed_nodes.len() {
                    assert(cx@.nodes[j].parent == placed_nodes[j].parent);
                }
            }
            if pending_of(cx@.nodes, id).layout {
                let j = choose|j: int| #[trigger]
                    owner(placed_nodes, j) == Some(id.0 as int) && placed_nodes[j].alive
                        && placed_nodes[j].flags.layout;
                assert(cx@.nodes[j].flags.layout == placed_nodes[j].flags.layout);
                assert(asked_below(cx@.nodes, id.0 as int));
            }
        }
        Frame { app: cx.app, signals, engine, painted: true, commands: cx.commands }
    } else {
        Frame { app, signals, engine, painted: false, commands: Vec::new() }
    }
}

/// Style and paint are idempotent. Resolve the styles of a tree and paint
/// it; then, with nothing written in between, resolve and paint again. The
/// second round computes the same styles and emits the same commands as the
/// first, and leaves the signal store as the first left it.
pub proof fn lemma_style_then_paint_twice(m: NodeModel, nodes: Seq<NodeState>, signals: SignalModel)
    requires
        table_wf(nodes),
    ensures
        ({
            let blank = |table: Seq<NodeState>| PaintModel { nodes: table, commands: Seq::empty() };
            let styled_once = style_view(m, at_root(nodes, signals));
            let painted_once = paint_view(m, blank(styled_once.nodes));
            let styled_twice = style_view(m, at_root(painted_once.nodes, styled_once.signals));
            let painted_twice = paint_view(m, blank(styled_twice.nodes));
            &&& painted_twice.commands == painted_once.commands
            &&& styled_twice.signals == styled_once.signals
            &&& styled_twice.nodes.len() == styled_once.nodes.len()
            &&& forall|j: int|
                0 <= j < styled_once.nodes.len() ==> (#[trigger] styled_twice.nodes[j]).computed
                    == styled_once.nodes[j].computed
            &&& forall|j: int|
                0 <= j < styled_once.nodes.len() ==> (#[trigger] painted_twice.nodes[j]).computed
                    == styled_once.nodes[j].computed
        }),
{
    let start = at_root(nodes, signals);
    let once = style_view(m, start);
    lemma_style_view_settles(m, start);
    lemma_style_is_idempotent(m, start);
    let first = paint_view(m, PaintModel { nodes: once.nodes, commands: Seq::empty() });
    lemma_paint_view(m, PaintModel { nodes: once.nodes, commands: Seq::empty() });
    let again = at_root(first.nodes, once.signals);
    // Paint left the style flags alone, so the second resolution visits
    // nothing.
    assert(style_view(m, again) == again) by {
        if is_live(once.nodes, m.id) {
            assert(once.nodes[m.id.0 as int].alive == nodes[m.id.0 as int].alive);
            assert(first.nodes[m.id.0 as int].flags.style == once.nodes[m.id.0 as int].flags.style);
            assert(first.nodes[m.id.0 as int].alive == once.nodes[m.id.0 as int].alive);
        } else if m.id.0 < once.nodes.len() {
            assert(first.nodes[m.id.0 as int].alive == once.nodes[m.id.0 as int].alive);
        }
    }
    lemma_paint_view(m, PaintModel { nodes: first.nodes, commands: Seq::empty() });
    lemma_painted_view_by_look(m, once.nodes, first.nodes);
    let second = paint_view(m, PaintModel { nodes: first.nodes, commands: Seq::empty() });
    assert forall|j: int| 0 <= j < once.nodes.len() implies (#[trigger] first.nodes[j]).computed
        == once.nodes[j].computed by {
        assert(first.nodes[j].alive == once.nodes[j].alive);
    }
    assert forall|j: int| 0 <= j < once.nodes.len() implies (#[trigger] second.nodes[j]).computed
        == once.nodes[j].computed by {
        assert(second.nodes[j].alive == first.nodes[j].alive);
        assert(first.nodes[j].alive == once.nodes[j].alive);
    }
}

/// The queue of a store as a batch of computations.
pub open spec fn batch_of(pending: Seq<usize>) -> Seq<Computation> {
    Seq::new(pending.len(), |i: int| Computation(pending[i]))
}

/// A write that changes a colour only spares the layout. Take a node whose
/// computed style is up to date, whose pseudo-states set colours only, and
/// whose style read the signal `source` when it was last resolved. When the
/// signal is written and the queue is taken, the node and each of its
/// owners are asked to restyle and to repaint, and no node is asked for
/// layout that was not asked before. When the style of the node is then
/// resolved, that is still so, and the node no longer asks for its style.
pub proof fn lemma_signal_write_spares_layout(
    nodes: Seq<NodeState>,
    signals: SignalModel,
    id: Id,
    source: ReadSignal,
    value: i64,
    inherited: Style,
    intrinsic: Option<Style>,
)
    requires
        table_wf(nodes),
        signals.wf(),
        is_live(nodes, id),
        source.index < signals.values.len(),
        nodes[id.0 as int].tracker matches Some(tracker) && tracker.0 < signals.computations
            && signals.reads[source.index as int][tracker.0 as int],
        nodes[id.0 as int].sheet.states_paint_only(),
        nodes[id.0 as int].computed == resolved(
            inherited,
            intrinsic,
            nodes[id.0 as int].sheet,
            nodes[id.0 as int].interaction,
        ),
    ensures
        ({
            let wrote = signals.written(source.index as int, value);
            let batch = batch_of(wrote.pending);
            let asked = invalidated(nodes, batch, batch.len());
            let found = observed(asked[id.0 as int], wrote.drained());
            let computed = resolved(inherited, intrinsic, asked[id.0 as int].sheet, found.0);
            let after = restyled(asked, id, found.0, computed);
            &&& asked.len() == nodes.len()
            &&& after.len() == nodes.len()
            &&& forall|j: int|
                0 <= j < nodes.len() && owns(nodes, j, id.0 as int) ==> (#[trigger] asked[j]).flags.style
                    && asked[j].flags.paint
            &&& forall|j: int|
                0 <= j < nodes.len() ==> (#[trigger] asked[j]).flags.layout == nodes[j].flags.layout
            &&& forall|j: int|
                0 <= j < nodes.len() ==> (#[trigger] after[j]).flags.layout == nodes[j].flags.layout
            &&& !after[id.0 as int].flags.style
        }),
{
    let tracker = nodes[id.0 as int].tracker.unwrap();
    let wrote = signals.written(source.index as int, value);
    let batch = batch_of(wrote.pending);
    lemma_enqueue_readers(signals.pending, signals.reads[source.index as int], signals.computations);
    assert(wrote.pending.contains(tracker.0));
    let x = choose|x: int| 0 <= x < wrote.pending.len() && wrote.pending[x] == tracker.0;
    assert(batch[x] == tracker);
    lemma_invalidated(nodes, batch, batch.len());
    let asked = invalidated(nodes, batch, batch.len());
    assert forall|j: int| 0 <= j < nodes.len() && owns(nodes, j, id.0 as int) implies (
    #[trigger] asked[j]).flags.style && asked[j].flags.paint by {
        assert(nodes[id.0 as int].tracker == Some(batch[x]));
    }
    assert(asked[id.0 as int] == nodes[id.0 as int].with_flags(asked[id.0 as int].flags));
    let found = observed(asked[id.0 as int], wrote.drained());
    let computed = resolved(inherited, intrinsic, asked[id.0 as int].sheet, found.0);
    lemma_states_keep_box(
        inherited,
        intrinsic,
        nodes[id.0 as int].sheet,
        nodes[id.0 as int].interaction,
        found.0,
    );
    lemma_restyled(asked, id, found.0, computed);
    let after = restyled(asked, id, found.0, computed);
    assert forall|j: int| 0 <= j < nodes.len() implies (#[trigger] after[j]).flags.layout
        == nodes[j].flags.layout by {
        assert(asked[j].flags.layout == nodes[j].flags.layout);
    }
}

/// Writes in a handler queue a reader once and ask its node for style and
/// paint, not for layout. Take an event that a node hands on, where all
/// that the handlers below it do is write the signal `source`, once or
/// more; and a live node `d` whose style read `source` when it was last
/// resolved. When the event has been handled and the queue is taken, the
/// tracker of `d` is in the batch exactly once. After the invalidation that
/// follows, `d` and every node that owns it ask to restyle and to repaint,
/// and no node is asked for layout that was not asked before.
pub proof fn lemma_event_writes_ask_once(
    m: NodeModel,
    path: Option<Seq<Id>>,
    ev: Event,
    st: EventModel,
    d: Id,
    source: ReadSignal,
    values: Seq<i64>,
)
    requires
        table_wf(st.nodes),
        st.signals.wf(),
        source.index < st.signals.values.len(),
        values.len() >= 1,
        is_live(st.nodes, d),
        st.nodes[d.0 as int].tracker matches Some(tracker) && tracker.0 < st.signals.computations
            && st.signals.reads[source.index as int][tracker.0 as int],
        event_node(m, path, ev, st).1.nodes == st.nodes,
        event_node(m, path, ev, st).1.signals == st.signals.written_each(source.index as int, values),
    ensures
        ({
            let after = event_node(m, path, ev, st).1;
            let tracker = st.nodes[d.0 as int].tracker.unwrap();
            let batch = batch_of(after.signals.pending);
            let asked = invalidated(after.nodes, batch, batch.len());
            &&& exists|x: int|
                0 <= x < batch.len() && #[trigger] batch[x] == tracker && forall|y: int|
                    0 <= y < batch.len() && #[trigger] batch[y] == tracker ==> y == x
            &&& asked.len() == st.nodes.len()
            &&& forall|j: int|
                0 <= j < st.nodes.len() && owns(st.nodes, j, d.0 as int) ==> (#[trigger] asked[j]).flags.style
                    && asked[j].flags.paint
            &&& forall|j: int|
                0 <= j < st.nodes.len() ==> (#[trigger] asked[j]).flags.layout
                    == st.nodes[j].flags.layout
        }),
{
    let after = event_node(m, path, ev, st).1;
    let tracker = st.nodes[d.0 as int].tracker.unwrap();
    lemma_writes_coalesce(st.signals, source.index as int, values);
    let pending = after.signals.pending;
    let batch = batch_of(pending);
    assert(pending.contains(tracker.0));
    let x = choose|x: int| 0 <= x < pending.len() && pending[x] == tracker.0;
    assert(batch[x] == tracker);
    assert forall|y: int| 0 <= y < batch.len() && #[trigger] batch[y] == tracker implies y == x by {
        assert(pending[y] == tracker.0);
    }
    lemma_invalidated(st.nodes, batch, batch.len());
    let asked = invalidated(st.nodes, batch, batch.len());
    assert forall|j: int| 0 <= j < st.nodes.len() && owns(st.nodes, j, d.0 as int) implies (
    #[trigger] asked[j]).flags.style && asked[j].flags.paint by {
        assert(st.nodes[d.0 as int].tracker == Some(batch[x]));
    }
}

} // verus!
