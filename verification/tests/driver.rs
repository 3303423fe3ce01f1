use floem::context::{EventCx, LayoutCx, PaintCx, StyleCx, UpdateCx};
use floem::driver::{dispatch, refresh};
use floem::engine::{LayoutBox, LayoutEngine};
use floem::event::{Event, Modifiers, PointerButton, PointerEvent};
use floem::flags::ChangeFlags;
use floem::geometry::{Point, Rect};
use floem::id::Id;
use floem::paint::PaintCommand;
use floem::signal::{create_signal, Computation, ReadSignal, SignalStore, WriteSignal};
use floem::state::AppState;
use floem::style::{Color, Interaction, Style, StyleSheet};
use floem::view::{Payload, ViewNode};
use floem::views::{static_list, StaticList};

const WHITE: Color = Color(0xffffffff);
const GRAY: Color = Color(0x808080ff);
const GREEN: Color = Color(0x00ff00ff);

/// A button that adds `step` to the counter, or sets it to 0 for step 0.
struct Button {
    id: Id,
    target: WriteSignal,
    step: i64,
}

impl ViewNode for Button {
    fn id(&self) -> Id {
        self.id
    }

    fn view_style(&self) -> Option<Style> {
        Some(Style::new().width(30).height(10).background(WHITE))
    }

    fn debug_name(&self) -> String {
        String::from("Button")
    }

    fn update(&mut self, _cx: &mut UpdateCx, _state: Payload) -> ChangeFlags {
        ChangeFlags::empty()
    }

    fn style(&mut self, _cx: &mut StyleCx) {
    }

    fn layout(&mut self, cx: &mut LayoutCx) -> LayoutBox {
        match cx.cached_box(self.id) {
            Some(b) => b,
            None => cx.layout_node(self.id, false, Vec::new()),
        }
    }

    fn compute_layout(&mut self, _cx: &mut LayoutCx) -> Option<Rect> {
        None
    }

    fn event(&mut self, cx: &mut EventCx, _id_path: Option<&[Id]>, event: Event) -> bool {
        if let Event::PointerUp(_) = event {
            let step = self.step;
            self.target.update(&mut cx.signals, move |v| if step == 0 { 0 } else { v + step });
            return true;
        }
        false
    }

    fn paint(&mut self, _cx: &mut PaintCx) {
    }
}

struct World {
    app: AppState,
    signals: SignalStore,
    engine: LayoutEngine,
    list: StaticList,
    counter: ReadSignal,
    rule: Computation,
    increment: Id,
    reset: Id,
}

fn world() -> World {
    let mut app = AppState::new();
    let mut signals = SignalStore::new();
    let (counter, set_counter) = create_signal(&mut signals, 0);
    let rule = signals.create_computation();
    let increment = app.create_node();
    let reset = app.create_node();
    let hover = StyleSheet::new().hover(Style::new().background(GREEN));
    app.set_sheet(increment, hover);
    app.set_sheet(reset, hover.disabled(Style::new().background(GRAY).width(20)));
    let children: Vec<Box<dyn ViewNode>> = vec![
        Box::new(Button { id: increment, target: set_counter, step: 1 }),
        Box::new(Button { id: reset, target: set_counter, step: 0 }),
    ];
    let list = static_list(&mut app, children);
    let mut world =
        World { app, signals, engine: LayoutEngine::new(), list, counter, rule, increment, reset };
    evaluate(&mut world);
    world
}

/// "Reset is disabled exactly when the counter is 0."
fn evaluate(world: &mut World) {
    assert!(world.signals.begin(world.rule));
    let value = world.counter.get(&mut world.signals).unwrap();
    world.signals.end();
    world.app.set_disabled(world.reset, value == 0);
}

fn click(world: World, target: Id) -> (World, bool) {
    let World { app, signals, engine, mut list, counter, rule, increment, reset } = world;
    let path = [list.id(), target];
    let event = Event::PointerUp(PointerEvent {
        pos: Point { x: 0, y: 0 },
        button: PointerButton::Primary,
        modifiers: Modifiers::empty(),
    });
    let done = dispatch(&mut list, app, signals, Some(&path), event);
    let mut world = World {
        app: done.app,
        signals: done.signals,
        engine,
        list,
        counter,
        rule,
        increment,
        reset,
    };
    for computation in done.batch {
        assert_eq!(computation, world.rule);
        evaluate(&mut world);
    }
    (world, done.handled)
}

fn paint(world: World) -> (World, bool, Vec<PaintCommand>) {
    let World { app, signals, engine, mut list, counter, rule, increment, reset } = world;
    let frame = refresh(&mut list, app, signals, engine, None, None);
    let world = World {
        app: frame.app,
        signals: frame.signals,
        engine: frame.engine,
        list,
        counter,
        rule,
        increment,
        reset,
    };
    (world, frame.painted, frame.commands)
}

fn fill(x0: i64, y0: i64, x1: i64, y1: i64, color: Color) -> PaintCommand {
    PaintCommand::Fill { rect: Rect { x0, y0, x1, y1 }, color }
}

#[test]
fn first_refresh_runs_every_traversal() {
    let (world, painted, commands) = paint(world());
    assert!(painted);
    assert_eq!(commands, vec![fill(0, 0, 30, 10, WHITE), fill(0, 10, 20, 20, GRAY)]);
    let root = world.list.id();
    assert_eq!(world.app.pending(root), ChangeFlags::empty());
    assert_eq!(world.app.node(root).unwrap().layout_rect, Rect { x0: 0, y0: 0, x1: 30, y1: 20 });
    assert_eq!(world.engine.len(), 4);
}

#[test]
fn refresh_with_nothing_pending_does_nothing() {
    let (world, _, _) = paint(world());
    let before = world.app.node(world.reset).unwrap();
    let (world, painted, commands) = paint(world);
    assert!(!painted);
    assert!(commands.is_empty());
    assert_eq!(world.app.node(world.reset).unwrap(), before);
    assert_eq!(world.engine.len(), 4);
}

#[test]
fn counter_and_reset_end_to_end() {
    let (world, _, _) = paint(world());

    // Reset is disabled: the click is not handled and nothing is pending.
    let (mut world, handled) = click(world, world_reset());
    assert!(!handled);
    assert_eq!(world.counter.get(&mut world.signals), Some(0));
    let root = world.list.id();
    assert_eq!(world.app.pending(root), ChangeFlags::empty());

    // Increment: the rule runs once, reset is enabled, and its box grows
    // back to the width that the kind of node brings, so layout is asked.
    let target = world.increment;
    let (mut world, handled) = click(world, target);
    assert!(handled);
    assert_eq!(world.counter.get(&mut world.signals), Some(1));
    assert!(!world.app.node(world.reset).unwrap().interaction.disabled);
    assert_eq!(world.app.pending(root), ChangeFlags { style: true, layout: false, paint: true });
    let (world, painted, commands) = paint(world);
    assert!(painted);
    assert_eq!(commands, vec![fill(0, 0, 30, 10, WHITE), fill(0, 10, 30, 20, WHITE)]);
    assert_eq!(world.engine.len(), 4);

    // Now reset fires.
    let target = world.reset;
    let (mut world, handled) = click(world, target);
    assert!(handled);
    assert_eq!(world.counter.get(&mut world.signals), Some(0));
    assert!(world.app.node(world.reset).unwrap().interaction.disabled);
    let (_, painted, commands) = paint(world);
    assert!(painted);
    assert_eq!(commands, vec![fill(0, 0, 30, 10, WHITE), fill(0, 10, 20, 20, GRAY)]);
}

fn world_reset() -> Id {
    Id(1)
}

#[test]
fn hover_repaints_without_layout() {
    let (mut world, _, _) = paint(world());
    let boxes = world.engine.len();
    let hovered = Interaction { hovered: true, ..Interaction::idle() };
    assert!(world.app.set_interaction(world.increment, hovered));
    let (world, painted, commands) = paint(world);
    assert!(painted);
    assert_eq!(commands, vec![fill(0, 0, 30, 10, GREEN), fill(0, 10, 20, 20, GRAY)]);
    assert_eq!(world.engine.len(), boxes);
}

#[test]
fn dispatch_reports_the_trace_and_the_batch() {
    let world = world();
    let World { app, signals, mut list, increment, rule, .. } = world;
    let path = [list.id(), increment];
    let event = Event::PointerUp(PointerEvent {
        pos: Point { x: 0, y: 0 },
        button: PointerButton::Primary,
        modifiers: Modifiers::empty(),
    });
    let done = dispatch(&mut list, app, signals, Some(&path), event);
    assert!(done.handled);
    assert_eq!(done.trace, vec![list.id(), increment]);
    assert_eq!(done.batch, vec![rule]);
    let mut signals = done.signals;
    assert!(signals.drain().is_empty());
}

#[test]
fn relayout_keeps_every_box() {
    let (mut world, _, _) = paint(world());
    let root = world.list.id();
    let expected = world.app.node(root).unwrap().layout_rect;
    let boxes: Vec<_> = [world.increment, world.reset, root]
        .iter()
        .map(|id| world.app.node(*id).unwrap().layout_box)
        .collect();
    assert_eq!(boxes, vec![Some(LayoutBox(1)), Some(LayoutBox(2)), Some(LayoutBox(3))]);
    for _ in 0..20 {
        world.app.request(world.increment, ChangeFlags::layout());
        let (next, painted, _) = paint(world);
        world = next;
        assert!(painted);
        assert_eq!(world.engine.len(), 4);
        let now: Vec<_> = [world.increment, world.reset, root]
            .iter()
            .map(|id| world.app.node(*id).unwrap().layout_box)
            .collect();
        assert_eq!(now, boxes);
        assert_eq!(world.app.node(root).unwrap().layout_rect, expected);
        assert_eq!(
            world.app.node(world.reset).unwrap().layout_rect,
            Rect { x0: 0, y0: 10, x1: 20, y1: 20 }
        );
    }
}
