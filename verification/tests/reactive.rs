use floem::context::{EventCx, LayoutCx, PaintCx, StyleCx, UpdateCx};
use floem::driver::{dispatch, refresh};
use floem::engine::{LayoutBox, LayoutEngine};
use floem::event::{Event, Modifiers, PointerButton, PointerEvent};
use floem::flags::ChangeFlags;
use floem::geometry::{Point, Rect};
use floem::id::Id;
use floem::paint::PaintCommand;
use floem::signal::{create_signal, Computation, ReadSignal, SignalStore, WriteSignal};
use floem::state::{AppState, Watch};
use floem::style::{Color, Interaction, Style, StyleSheet};
use floem::view::{Payload, ViewNode};
use floem::views::static_list;

const WHITE: Color = Color(0xffffffff);
const GREEN: Color = Color(0x00ff00ff);
const GRAY: Color = Color(0x808080ff);

/// A leaf that writes `value` to a signal when it is clicked.
struct Switch {
    id: Id,
    target: WriteSignal,
    value: i64,
}

impl ViewNode for Switch {
    fn id(&self) -> Id {
        self.id
    }

    fn view_style(&self) -> Option<Style> {
        Some(Style::new().width(30).height(10).background(WHITE))
    }

    fn debug_name(&self) -> String {
        String::from("Switch")
    }

    fn update(&mut self, _cx: &mut UpdateCx, _state: Payload) -> ChangeFlags {
        ChangeFlags::empty()
    }

    fn style(&mut self, _cx: &mut StyleCx) {
    }

    fn layout(&mut self, cx: &mut LayoutCx) -> LayoutBox {
        match cx.cached_box(self.id) {
            Some(b) => b,
            None => cx.layout_node(self.id, false, Vec::new()),
        }
    }

    fn compute_layout(&mut self, _cx: &mut LayoutCx) -> Option<Rect> {
        None
    }

    fn event(&mut self, cx: &mut EventCx, _id_path: Option<&[Id]>, event: Event) -> bool {
        if let Event::PointerUp(_) = event {
            let value = self.value;
            self.target.update(&mut cx.signals, move |_| value);
            return true;
        }
        false
    }

    fn paint(&mut self, _cx: &mut PaintCx) {
    }
}

fn click() -> Event {
    Event::PointerUp(PointerEvent {
        pos: Point { x: 0, y: 0 },
        button: PointerButton::Primary,
        modifiers: Modifiers::empty(),
    })
}

fn quiet(app: &mut AppState, ids: &[Id]) {
    let all = ChangeFlags { style: true, layout: true, paint: true };
    for id in ids {
        app.clear(*id, all);
    }
}

fn fill(x0: i64, y0: i64, x1: i64, y1: i64, color: Color) -> PaintCommand {
    PaintCommand::Fill { rect: Rect { x0, y0, x1, y1 }, color }
}

struct Scene {
    app: AppState,
    signals: SignalStore,
    lamp: Id,
    lit: ReadSignal,
    set_lit: WriteSignal,
    tracker: Computation,
}

/// One node whose hover state follows the signal `lit`.
fn scene() -> Scene {
    let mut app = AppState::new();
    let mut signals = SignalStore::new();
    let (lit, set_lit) = create_signal(&mut signals, 0);
    let tracker = signals.create_computation();
    let lamp = app.create_node();
    app.set_sheet(lamp, StyleSheet::new().hover(Style::new().background(GREEN)));
    assert!(app.watch(lamp, Watch { hovered: Some(lit), ..Watch::none() }, tracker));
    Scene { app, signals, lamp, lit, set_lit, tracker }
}

#[test]
fn watch_binds_and_asks_for_style() {
    let mut app = AppState::new();
    let id = app.create_node();
    quiet(&mut app, &[id]);
    let watch = Watch { disabled: Some(ReadSignal { index: 3 }), ..Watch::none() };
    assert!(app.watch(id, watch, Computation(2)));
    let node = app.node(id).unwrap();
    assert_eq!(node.watch, watch);
    assert_eq!(node.tracker, Some(Computation(2)));
    assert_eq!(node.flags, ChangeFlags { style: true, layout: false, paint: true });
    assert!(!app.watch(Id(7), watch, Computation(2)));
    assert_eq!(
        Watch::none(),
        Watch { disabled: None, focus_visible: None, hovered: None, active: None }
    );
}

#[test]
fn style_pass_reads_the_signals_a_node_follows() {
    let Scene { app, signals, lamp, set_lit, tracker, .. } = scene();
    let mut leaf = Switch { id: lamp, target: set_lit, value: 1 };
    let mut cx = StyleCx::new(app, signals);
    cx.style_view(&mut leaf);
    assert_eq!(cx.app.node(lamp).unwrap().interaction, Interaction::idle());
    assert_eq!(cx.app.node(lamp).unwrap().computed.background, Some(WHITE));

    // The read was recorded: a write makes the tracker stale.
    assert!(set_lit.update(&mut cx.signals, |_| 5));
    assert_eq!(cx.signals.drain(), vec![tracker]);

    // The pass sees the new value when the node asks for its style.
    cx.app.request(lamp, ChangeFlags::style());
    cx.style_view(&mut leaf);
    assert!(cx.app.node(lamp).unwrap().interaction.hovered);
    assert_eq!(cx.app.node(lamp).unwrap().computed.background, Some(GREEN));
}

#[test]
fn invalidate_asks_the_nodes_that_read_under_a_stale_tracker() {
    let Scene { mut app, lamp, tracker, .. } = scene();
    let other = app.create_node();
    let owner = app.create_node();
    assert!(app.adopt(lamp, owner));
    quiet(&mut app, &[lamp, other, owner]);

    app.invalidate(&vec![Computation(9)]);
    assert_eq!(app.pending(lamp), ChangeFlags::empty());

    app.invalidate(&vec![Computation(9), tracker]);
    let asked = ChangeFlags { style: true, layout: false, paint: true };
    assert_eq!(app.pending(lamp), asked);
    assert_eq!(app.pending(owner), asked);
    assert_eq!(app.pending(other), ChangeFlags::empty());
}

#[test]
fn invalidate_passes_over_released_nodes() {
    let Scene { mut app, lamp, tracker, .. } = scene();
    let owner = app.create_node();
    assert!(app.adopt(lamp, owner));
    quiet(&mut app, &[lamp, owner]);
    let kept = app.create_node();
    quiet(&mut app, &[kept]);
    assert!(app.release(lamp));
    app.invalidate(&vec![tracker]);
    assert_eq!(app.pending(owner), ChangeFlags::empty());
    assert_eq!(app.pending(kept), ChangeFlags::empty());
}

#[test]
fn write_in_a_handler_restyles_and_repaints_without_layout() {
    let Scene { mut app, signals, lamp, set_lit, tracker, lit } = scene();
    let switch = app.create_node();
    let children: Vec<Box<dyn ViewNode>> = vec![
        Box::new(Switch { id: lamp, target: set_lit, value: 0 }),
        Box::new(Switch { id: switch, target: set_lit, value: 1 }),
    ];
    let mut list = static_list(&mut app, children);
    let root = list.id();

    let frame = refresh(&mut list, app, signals, LayoutEngine::new(), None, None);
    assert!(frame.painted);
    assert_eq!(frame.commands, vec![fill(0, 0, 30, 10, WHITE), fill(0, 10, 30, 20, WHITE)]);
    let boxes = frame.engine.len();

    // Three writes in one handler run would still queue the tracker once.
    let path = [root, switch];
    let done = dispatch(&mut list, frame.app, frame.signals, Some(&path), click());
    assert!(done.handled);
    assert_eq!(done.batch, vec![tracker]);
    let asked = ChangeFlags { style: true, layout: false, paint: true };
    assert_eq!(done.app.pending(lamp), asked);
    assert_eq!(done.app.pending(root), asked);
    assert_eq!(done.app.pending(switch), ChangeFlags::empty());

    let mut signals = done.signals;
    assert_eq!(lit.get(&mut signals), Some(1));
    let frame = refresh(&mut list, done.app, signals, frame.engine, None, None);
    assert!(frame.painted);
    assert_eq!(frame.commands, vec![fill(0, 0, 30, 10, GREEN), fill(0, 10, 30, 20, WHITE)]);
    assert_eq!(frame.engine.len(), boxes);
    assert!(frame.app.node(lamp).unwrap().interaction.hovered);
    assert_eq!(frame.app.pending(root), ChangeFlags::empty());
}

/// A leaf that writes to a signal three times when it is clicked.
struct Triple {
    id: Id,
    target: WriteSignal,
}

impl ViewNode for Triple {
    fn id(&self) -> Id {
        self.id
    }

    fn view_style(&self) -> Option<Style> {
        Some(Style::new().width(30).height(10).background(WHITE))
    }

    fn debug_name(&self) -> String {
        String::from("Triple")
    }

    fn update(&mut self, _cx: &mut UpdateCx, _state: Payload) -> ChangeFlags {
        ChangeFlags::empty()
    }

    fn style(&mut self, _cx: &mut StyleCx) {
    }

    fn layout(&mut self, cx: &mut LayoutCx) -> LayoutBox {
        match cx.cached_box(self.id) {
            Some(b) => b,
            None => cx.layout_node(self.id, false, Vec::new()),
        }
    }

    fn compute_layout(&mut self, _cx: &mut LayoutCx) -> Option<Rect> {
        None
    }

    fn event(&mut self, cx: &mut EventCx, _id_path: Option<&[Id]>, event: Event) -> bool {
        if let Event::PointerUp(_) = event {
            self.target.update(&mut cx.signals, |v| v + 1);
            self.target.update(&mut cx.signals, |v| v + 1);
            self.target.update(&mut cx.signals, |v| v + 1);
            return true;
        }
        false
    }

    fn paint(&mut self, _cx: &mut PaintCx) {
    }
}

#[test]
fn three_writes_in_one_handler_evaluate_the_tracker_once() {
    let Scene { mut app, signals, lamp, set_lit, tracker, lit } = scene();
    let button = app.create_node();
    let children: Vec<Box<dyn ViewNode>> = vec![
        Box::new(Switch { id: lamp, target: set_lit, value: 0 }),
        Box::new(Triple { id: button, target: set_lit }),
    ];
    let mut list = static_list(&mut app, children);
    let root = list.id();
    assert_eq!(signals.evaluations(tracker), Some(0));
    assert_eq!(signals.evaluations(Computation(9)), None);

    let frame = refresh(&mut list, app, signals, LayoutEngine::new(), None, None);
    assert_eq!(frame.signals.evaluations(tracker), Some(1));

    let path = [root, button];
    let done = dispatch(&mut list, frame.app, frame.signals, Some(&path), click());
    assert!(done.handled);
    assert_eq!(done.batch, vec![tracker]);
    assert_eq!(done.signals.evaluations(tracker), Some(1));
    let mut signals = done.signals;
    assert_eq!(lit.get(&mut signals), Some(3));

    // The list's own traversal of its children, as the style pass makes
    // it when it has visited the list: the tracked read of the lamp is
    // evaluated once, not once for each write.
    let mut cx = StyleCx::new(done.app, signals);
    list.style(&mut cx);
    assert_eq!(cx.signals.evaluations(tracker), Some(2));
    assert!(cx.app.node(lamp).unwrap().interaction.hovered);

    // Nothing asks any more: no further evaluation.
    list.style(&mut cx);
    cx.style_view(&mut list);
    assert_eq!(cx.signals.evaluations(tracker), Some(2));
}

#[test]
fn evaluations_are_counted_when_they_begin() {
    let mut signals = SignalStore::new();
    let a = signals.create_computation();
    let b = signals.create_computation();
    assert!(signals.begin(a));
    // Another evaluation cannot begin, and is not counted.
    assert!(!signals.begin(b));
    signals.end();
    assert!(signals.begin(a));
    signals.end();
    assert!(signals.begin(b));
    signals.end();
    assert_eq!(signals.evaluations(a), Some(2));
    assert_eq!(signals.evaluations(b), Some(1));
    assert!(!signals.begin(Computation(2)));
    assert_eq!(signals.evaluations(Computation(2)), None);
}

#[test]
fn a_disabled_state_that_follows_a_signal_gates_events() {
    let mut app = AppState::new();
    let mut signals = SignalStore::new();
    let (off, set_off) = create_signal(&mut signals, 1);
    let tracker = signals.create_computation();
    let id = app.create_node();
    app.set_sheet(id, StyleSheet::new().disabled(Style::new().background(GRAY)));
    app.watch(id, Watch { disabled: Some(off), ..Watch::none() }, tracker);
    let mut leaf = Switch { id, target: set_off, value: 1 };

    let frame = refresh(&mut leaf, app, signals, LayoutEngine::new(), None, None);
    assert_eq!(frame.commands, vec![fill(0, 0, 30, 10, GRAY)]);
    assert!(frame.app.node(id).unwrap().interaction.disabled);
    let done = dispatch(&mut leaf, frame.app, frame.signals, None, click());
    assert!(!done.handled);
    assert!(done.trace.is_empty());

    // Enabled from outside, it handles the click.
    let mut signals = done.signals;
    let mut app = done.app;
    assert!(set_off.update(&mut signals, |_| 0));
    let batch = signals.drain();
    assert_eq!(batch, vec![tracker]);
    app.invalidate(&batch);
    let frame = refresh(&mut leaf, app, signals, frame.engine, None, None);
    assert_eq!(frame.commands, vec![fill(0, 0, 30, 10, WHITE)]);
    let done = dispatch(&mut leaf, frame.app, frame.signals, None, click());
    assert!(done.handled);
    assert_eq!(done.trace, vec![id]);
}

#[test]
fn a_tracker_unknown_to_the_store_reads_nothing() {
    let mut app = AppState::new();
    let mut signals = SignalStore::new();
    let (lit, set_lit) = create_signal(&mut signals, 1);
    let id = app.create_node();
    app.set_sheet(id, StyleSheet::new().hover(Style::new().background(GREEN)));
    app.watch(id, Watch { hovered: Some(lit), ..Watch::none() }, Computation(4));
    let mut leaf = Switch { id, target: set_lit, value: 1 };
    let mut cx = StyleCx::new(app, signals);
    cx.style_view(&mut leaf);
    assert!(!cx.app.node(id).unwrap().interaction.hovered);
    assert_eq!(cx.app.node(id).unwrap().computed.background, Some(WHITE));
}
