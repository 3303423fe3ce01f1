use std::cell::Cell;
use std::rc::Rc;

use floem::context::{EventCx, LayoutCx, PaintCx, StyleCx, UpdateCx};
use floem::engine::LayoutBox;
use floem::event::{Event, Modifiers, PointerButton, PointerEvent};
use floem::flags::ChangeFlags;
use floem::geometry::{Point, Rect};
use floem::id::Id;
use floem::signal::{create_signal, Computation, ReadSignal, SignalStore, WriteSignal};
use floem::state::AppState;
use floem::style::Style;
use floem::view::{Payload, ViewNode};
use floem::views::static_list;

/// What a button does to the counter when it is clicked.
#[derive(Clone, Copy)]
enum Action {
    Nothing,
    Add(i64),
    Put(i64),
}

/// A leaf that counts the events it is offered and may handle clicks.
struct Button {
    id: Id,
    takes: bool,
    offered: Rc<Cell<u32>>,
    fired: Rc<Cell<u32>>,
    target: Option<WriteSignal>,
    action: Action,
}

impl Button {
    fn new(id: Id, takes: bool) -> Button {
        Button {
            id,
            takes,
            offered: Rc::new(Cell::new(0)),
            fired: Rc::new(Cell::new(0)),
            target: None,
            action: Action::Nothing,
        }
    }

    fn acting(id: Id, target: WriteSignal, action: Action) -> Button {
        Button { target: Some(target), action, ..Button::new(id, true) }
    }
}

impl ViewNode for Button {
    fn id(&self) -> Id {
        self.id
    }

    fn view_style(&self) -> Option<Style> {
        None
    }

    fn debug_name(&self) -> String {
        String::from("Button")
    }

    fn update(&mut self, _cx: &mut UpdateCx, _state: Payload) -> ChangeFlags {
        ChangeFlags::empty()
    }

    fn style(&mut self, _cx: &mut StyleCx) {
    }

    fn layout(&mut self, cx: &mut LayoutCx) -> LayoutBox {
        match cx.cached_box(self.id) {
            Some(b) => b,
            None => cx.layout_node(self.id, false, Vec::new()),
        }
    }

    fn compute_layout(&mut self, _cx: &mut LayoutCx) -> Option<Rect> {
        None
    }

    fn event(&mut self, cx: &mut EventCx, _id_path: Option<&[Id]>, event: Event) -> bool {
        self.offered.set(self.offered.get() + 1);
        if !self.takes {
            return false;
        }
        if let Event::PointerUp(_) = event {
            self.fired.set(self.fired.get() + 1);
            if let Some(target) = self.target {
                let action = self.action;
                target.update(&mut cx.signals, move |v| match action {
                    Action::Nothing => v,
                    Action::Add(d) => v + d,
                    Action::Put(to) => to,
                });
            }
            return true;
        }
        false
    }

    fn paint(&mut self, _cx: &mut PaintCx) {
    }
}

fn click() -> Event {
    Event::PointerUp(PointerEvent {
        pos: Point { x: 1, y: 1 },
        button: PointerButton::Primary,
        modifiers: Modifiers::empty(),
    })
}

/// Evaluates "the reset control is disabled exactly when the counter is 0".
fn evaluate_disabled(
    app: &mut AppState,
    signals: &mut SignalStore,
    rule: Computation,
    counter: ReadSignal,
    reset: Id,
) {
    assert!(signals.begin(rule));
    let value = counter.get(signals).unwrap();
    signals.end();
    app.set_disabled(reset, value == 0);
}

#[test]
fn second_of_three_leaves_stops_the_scan() {
    let mut app = AppState::new();
    let ids = [app.create_node(), app.create_node(), app.create_node()];
    let leaves = [Button::new(ids[0], false), Button::new(ids[1], true), Button::new(ids[2], false)];
    let offered: Vec<Rc<Cell<u32>>> = leaves.iter().map(|l| l.offered.clone()).collect();
    let children: Vec<Box<dyn ViewNode>> =
        leaves.into_iter().map(|l| Box::new(l) as Box<dyn ViewNode>).collect();
    let mut list = static_list(&mut app, children);
    let list_id = list.id();

    let mut cx = EventCx::new(app, SignalStore::new());
    let handled = cx.view_event(&mut list, None, click());

    assert!(handled);
    assert_eq!(offered[0].get(), 1);
    assert_eq!(offered[1].get(), 1);
    assert_eq!(offered[2].get(), 0);
    assert_eq!(cx.trace, vec![list_id, ids[0], ids[1]]);
}

#[test]
fn unhandled_event_visits_every_leaf() {
    let mut app = AppState::new();
    let ids = [app.create_node(), app.create_node()];
    let children: Vec<Box<dyn ViewNode>> =
        vec![Box::new(Button::new(ids[0], false)), Box::new(Button::new(ids[1], false))];
    let mut list = static_list(&mut app, children);
    let list_id = list.id();
    let mut cx = EventCx::new(app, SignalStore::new());
    assert!(!cx.view_event(&mut list, None, click()));
    assert_eq!(cx.trace, vec![list_id, ids[0], ids[1]]);
}

#[test]
fn targeted_event_reaches_only_the_path() {
    let mut app = AppState::new();
    let ids = [app.create_node(), app.create_node(), app.create_node()];
    let leaves = [Button::new(ids[0], true), Button::new(ids[1], true), Button::new(ids[2], true)];
    let offered: Vec<Rc<Cell<u32>>> = leaves.iter().map(|l| l.offered.clone()).collect();
    let children: Vec<Box<dyn ViewNode>> =
        leaves.into_iter().map(|l| Box::new(l) as Box<dyn ViewNode>).collect();
    let mut list = static_list(&mut app, children);
    let list_id = list.id();
    let mut cx = EventCx::new(app, SignalStore::new());

    let path = [list_id, ids[2]];
    assert!(cx.view_event(&mut list, Some(&path), click()));
    assert_eq!(offered[0].get(), 0);
    assert_eq!(offered[1].get(), 0);
    assert_eq!(offered[2].get(), 1);
    assert_eq!(cx.trace, vec![list_id, ids[2]]);

    // A path that does not start at the node it is handed to goes nowhere.
    let stray = [ids[2]];
    assert!(!cx.view_event(&mut list, Some(&stray), click()));
    let empty: [Id; 0] = [];
    assert!(!cx.view_event(&mut list, Some(&empty), click()));
    assert_eq!(cx.trace, vec![list_id, ids[2]]);
}

#[test]
fn disabled_reset_does_not_fire() {
    let mut app = AppState::new();
    let mut signals = SignalStore::new();
    let (counter, set_counter) = create_signal(&mut signals, 0);
    let rule = signals.create_computation();

    let increment_id = app.create_node();
    let reset_id = app.create_node();
    let increment = Button::acting(increment_id, set_counter, Action::Add(1));
    let reset = Button::acting(reset_id, set_counter, Action::Put(0));
    let reset_fired = reset.fired.clone();
    let children: Vec<Box<dyn ViewNode>> = vec![Box::new(increment), Box::new(reset)];
    let mut list = static_list(&mut app, children);
    let list_id = list.id();

    evaluate_disabled(&mut app, &mut signals, rule, counter, reset_id);
    assert!(app.node(reset_id).unwrap().interaction.disabled);

    // Clicking reset while the counter is 0 does nothing.
    let to_reset = [list_id, reset_id];
    let mut cx = EventCx::new(app, signals);
    assert!(!cx.view_event(&mut list, Some(&to_reset), click()));
    assert_eq!(reset_fired.get(), 0);
    assert_eq!(counter.get(&mut cx.signals), Some(0));
    assert!(cx.signals.drain().is_empty());

    // Incrementing makes the rule out of date; evaluating it enables reset.
    let to_increment = [list_id, increment_id];
    assert!(cx.view_event(&mut list, Some(&to_increment), click()));
    assert_eq!(counter.get(&mut cx.signals), Some(1));
    let EventCx { mut app, mut signals, .. } = cx;
    assert_eq!(signals.drain(), vec![rule]);
    evaluate_disabled(&mut app, &mut signals, rule, counter, reset_id);
    assert!(!app.node(reset_id).unwrap().interaction.disabled);

    // Now the click fires and the counter is back at 0.
    let mut cx = EventCx::new(app, signals);
    assert!(cx.view_event(&mut list, Some(&to_reset), click()));
    assert_eq!(reset_fired.get(), 1);
    assert_eq!(counter.get(&mut cx.signals), Some(0));
}

#[test]
fn disabled_node_still_loses_focus() {
    let mut app = AppState::new();
    let id = app.create_node();
    app.set_disabled(id, true);
    let mut leaf = Button::new(id, true);
    let offered = leaf.offered.clone();
    let mut cx = EventCx::new(app, SignalStore::new());
    assert!(!cx.view_event(&mut leaf, None, click()));
    assert_eq!(offered.get(), 0);
    assert!(!cx.view_event(&mut leaf, None, Event::FocusLost));
    assert_eq!(offered.get(), 1);
}

#[test]
fn released_node_receives_nothing() {
    let mut app = AppState::new();
    let id = app.create_node();
    assert!(app.release(id));
    let mut leaf = Button::new(id, true);
    let offered = leaf.offered.clone();
    let mut cx = EventCx::new(app, SignalStore::new());
    assert!(!cx.view_event(&mut leaf, None, click()));
    assert_eq!(offered.get(), 0);
    assert!(cx.trace.is_empty());
}
