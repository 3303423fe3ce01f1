//! Event dispatch: an event is offered to the nodes in order until one of
//! them handles it.

use vstd::prelude::*;
use vstd::slice::slice_subrange;
use crate::event::Event;
use crate::id::Id;
use crate::signal::{SignalModel, SignalStore};
use crate::state::{is_live, AppState, NodeState};
use crate::view::{NodeModel, ViewNode};

verus! {

/// The state of a dispatch.
pub struct EventModel {
    pub nodes: Seq<NodeState>,
    pub signals: SignalModel,
    /// The nodes that the event has been delivered to, in order.
    pub trace: Seq<Id>,
}

/// What a dispatch carries: the state that handlers may change.
pub struct EventCx {
    pub app: AppState,
    pub signals: SignalStore,
    pub trace: Vec<Id>,
}

impl View for EventCx {
    type V = EventModel;

    open spec fn view(&self) -> EventModel {
        EventModel { nodes: self.app@, signals: self.signals@, trace: self.trace@ }
    }
}

/// The path that a targeted dispatch follows, if there is one: the
/// identifiers of the nodes from the one that is offered the event next
/// down to the target.
pub open spec fn path_of(id_path: Option<&[Id]>) -> Option<Seq<Id>> {
    match id_path {
        Some(path) => Some(path@),
        None => None,
    }
}

/// Whether the node of `m` is offered the event at all: it is live, it is
/// not disabled unless the event is one that disabled nodes still receive,
/// and the path, if there is one, names it next.
pub open spec fn receives(m: NodeModel, path: Option<Seq<Id>>, ev: Event, st: EventModel) -> bool {
    &&& is_live(st.nodes, m.id)
    &&& !(st.nodes[m.id.0 as int].interaction.disabled && !ev.spec_allow_disabled())
    &&& path matches Some(p) ==> p.len() > 0 && p[0] == m.id
}

/// The rest of the path below the node it names next.
pub open spec fn below(path: Option<Seq<Id>>) -> Option<Seq<Id>> {
    match path {
        Some(p) => Some(p.skip(1)),
        None => None,
    }
}

/// Delivery of an event to the node of `m`: whether it was handled, and the
/// state afterwards. A node that does not receive the event leaves the
/// state as it is.
pub open spec fn view_event(m: NodeModel, path: Option<Seq<Id>>, ev: Event, st: EventModel) -> (
    bool,
    EventModel,
)
    decreases m, 1int,
{
    if receives(m, path, ev, st) {
        event_node(m, below(path), ev, EventModel { trace: st.trace.push(m.id), ..st })
    } else {
        (false, st)
    }
}

/// What a node does with an event: it offers it to what it contains, and
/// handles it itself if nothing there did.
pub open spec fn event_node(m: NodeModel, path: Option<Seq<Id>>, ev: Event, st: EventModel) -> (
    bool,
    EventModel,
)
    decreases m, 0int,
{
    let r = event_children(m.children, m.children.len(), path, ev, st);
    if r.0 {
        r
    } else {
        (m.handler)(ev, r.1)
    }
}

/// The event is offered to the first `k` of the nodes `ms`, in order, until
/// one of them handles it; the nodes after that one are not offered it.
pub open spec fn event_children(
    ms: Seq<NodeModel>,
    k: nat,
    path: Option<Seq<Id>>,
    ev: Event,
    st: EventModel,
) -> (bool, EventModel)
    decreases ms, k,
{
    if k == 0 || k > ms.len() {
        (false, st)
    } else {
        let r = event_children(ms, (k - 1) as nat, path, ev, st);
        if r.0 {
            r
        } else {
            view_event(ms[k - 1], path, ev, r.1)
        }
    }
}

/// Once a node has handled the event, offering it to more nodes changes
/// nothing.
pub proof fn lemma_handled_stops(
    ms: Seq<NodeModel>,
    k: nat,
    n: nat,
    path: Option<Seq<Id>>,
    ev: Event,
    st: EventModel,
)
    requires
        k <= n <= ms.len(),
        event_children(ms, k, path, ev, st).0,
    ensures
        event_children(ms, n, path, ev, st) == event_children(ms, k, path, ev, st),
    decreases n - k,
{
    if k < n {
        lemma_handled_stops(ms, k, (n - 1) as nat, path, ev, st);
    }
}

/// A disabled node takes no part in a dispatch: an event that disabled
/// nodes do not receive is not handled by it, reaches nothing below it,
/// and leaves every signal and every node as it was.
pub proof fn lemma_disabled_receives_nothing(
    m: NodeModel,
    path: Option<Seq<Id>>,
    ev: Event,
    st: EventModel,
)
    requires
        is_live(st.nodes, m.id),
        st.nodes[m.id.0 as int].interaction.disabled,
        !ev.spec_allow_disabled(),
    ensures
        view_event(m, path, ev, st) == (false, st),
{
}

impl EventCx {
    pub open spec fn wf(&self) -> bool {
        self.app.wf() && self.signals.wf()
    }

    /// A dispatch that has delivered nothing yet.
    pub fn new(app: AppState, signals: SignalStore) -> (cx: EventCx)
        requires
            app.wf(),
            signals.wf(),
        ensures
            cx.wf(),
            cx.app == app,
            cx.signals == signals,
            cx.trace@.len() == 0,
    {
        EventCx { app, signals, trace: Vec::new() }
    }

    /// Delivers `event` to `view`, and through it to what it contains;
    /// returns whether it was handled.
    pub fn view_event<V: ViewNode + ?Sized>(
        &mut self,
        view: &mut V,
        id_path: Option<&[Id]>,
        event: Event,
    ) -> (handled: bool)
        requires
            old(self).wf(),
        ensures
            final(self).wf(),
            final(view).model() == old(view).model(),
            (handled, final(self)@) == view_event(
                old(view).model(),
                path_of(id_path),
                event,
                old(self)@,
            ),
    {
        let id = view.id();
        let node: NodeState = match self.app.node(id) {
            Some(n) => n,
            None => {
                return false;
            },
        };
        if node.interaction.disabled && !event.allow_disabled() {
            return false;
        }
        match id_path {
            Some(path) => {
                if path.len() == 0 {
                    return false;
                }
                if path[0] != id {
                    return false;
                }
                self.trace.push(id);
                let rest = slice_subrange(path, 1, path.len());
                proof {
                    assert(rest@ =~= path@.skip(1));
                }
                view.event(self, Some(rest), event)
            },
            None => {
                self.trace.push(id);
                view.event(self, None, event)
            },
        }
    }
}

} // verus!
