use floem::context::{EventCx, LayoutCx, PaintCx, StyleCx, UpdateCx};
use floem::engine::LayoutBox;
use floem::event::Event;
use floem::flags::ChangeFlags;
use floem::geometry::Rect;
use floem::id::Id;
use floem::state::AppState;
use floem::style::Style;
use floem::view::{Payload, ViewNode};
use floem::views::{static_list, StaticList};

/// A leaf that remembers the last number it was handed.
struct Cell {
    id: Id,
    value: i64,
}

impl ViewNode for Cell {
    fn id(&self) -> Id {
        self.id
    }

    fn view_style(&self) -> Option<Style> {
        None
    }

    fn debug_name(&self) -> String {
        format!("Cell({})", self.value)
    }

    fn update(&mut self, _cx: &mut UpdateCx, state: Payload) -> ChangeFlags {
        match state {
            Payload::Number(n) => {
                self.value = n;
                ChangeFlags::paint()
            }
            other => panic!("a cell takes a number, not {:?}", other),
        }
    }

    fn style(&mut self, _cx: &mut StyleCx) {
    }

    fn layout(&mut self, cx: &mut LayoutCx) -> LayoutBox {
        match cx.cached_box(self.id) {
            Some(b) => b,
            None => cx.layout_node(self.id, false, Vec::new()),
        }
    }

    fn compute_layout(&mut self, _cx: &mut LayoutCx) -> Option<Rect> {
        None
    }

    fn event(&mut self, _cx: &mut EventCx, _id_path: Option<&[Id]>, _event: Event) -> bool {
        false
    }

    fn paint(&mut self, _cx: &mut PaintCx) {
    }
}

fn cells(app: &mut AppState, n: usize) -> Vec<Box<dyn ViewNode>> {
    (0..n)
        .map(|i| Box::new(Cell { id: app.create_node(), value: i as i64 }) as Box<dyn ViewNode>)
        .collect()
}

fn three() -> (AppState, StaticList) {
    let mut app = AppState::new();
    let children = cells(&mut app, 3);
    let list = static_list(&mut app, children);
    (app, list)
}

#[test]
fn list_gets_a_new_identifier_and_adopts_its_children() {
    let (app, list) = three();
    assert_eq!(list.id(), Id(3));
    for i in 0..3 {
        assert_eq!(app.node(Id(i)).unwrap().parent, Some(Id(3)));
    }
    assert_eq!(app.node(Id(3)).unwrap().parent, None);
    assert_eq!(app.len(), 4);
}

#[test]
fn list_does_not_adopt_what_it_cannot() {
    let mut app = AppState::new();
    let mut children = cells(&mut app, 2);
    app.release(Id(1));
    // A child whose identifier the table never handed out.
    children.push(Box::new(Cell { id: Id(40), value: 0 }));
    let list = static_list(&mut app, children);
    assert_eq!(list.id(), Id(2));
    assert_eq!(list.children().len(), 3);
    assert_eq!(app.node(Id(0)).unwrap().parent, Some(Id(2)));
    assert!(app.node(Id(1)).is_none());
    assert!(app.node(Id(40)).is_none());
}

#[test]
fn siblings_get_different_identifiers() {
    let mut app = AppState::new();
    let left = static_list(&mut app, Vec::new());
    let right = static_list(&mut app, Vec::new());
    assert!(left.id() != right.id());
    assert_eq!((left.id(), right.id()), (Id(0), Id(1)));
}

#[test]
fn a_released_identifier_finds_no_child_of_the_survivor() {
    let mut app = AppState::new();
    let survivor_children = cells(&mut app, 2);
    let survivor = static_list(&mut app, survivor_children);
    let doomed_children = cells(&mut app, 1);
    let doomed = static_list(&mut app, doomed_children);
    let old = doomed.id();
    let old_child = Id(3);
    assert!(survivor.child(old).is_none());

    assert!(doomed.release(&mut app));
    let fresh = app.create_node();
    assert!(fresh != old);
    assert!(fresh != old_child);
    assert!(survivor.child(old).is_none());
    assert!(survivor.child(old_child).is_none());
    assert!(survivor.child(fresh).is_none());
    assert!(app.node(old).is_none());
    assert!(app.node(old_child).is_none());
    assert!(survivor.child(Id(0)).is_some());
}

#[test]
fn releasing_a_list_twice_does_nothing_more() {
    let mut app = AppState::new();
    let inner = static_list(&mut app, Vec::new());
    let inner_id = inner.id();
    let outer = static_list(&mut app, vec![Box::new(inner) as Box<dyn ViewNode>]);
    let outer_id = outer.id();
    assert!(app.release(inner_id));
    assert!(outer.release(&mut app));
    assert!(!app.is_alive(inner_id));
    assert!(!app.is_alive(outer_id));
    assert!(!app.release(outer_id));
    assert_eq!(app.len(), 2);
}

#[test]
fn child_finds_the_first_with_the_identifier() {
    let mut app = AppState::new();
    let id = app.create_node();
    let children: Vec<Box<dyn ViewNode>> =
        vec![Box::new(Cell { id, value: 10 }), Box::new(Cell { id, value: 20 })];
    let list = static_list(&mut app, children);
    assert_eq!(list.child(id).unwrap().debug_name(), "Cell(10)");
    assert!(list.child(Id(7)).is_none());
    assert!(list.child(list.id()).is_none());
}

#[test]
fn child_mut_changes_the_child_in_place() {
    let (app, mut list) = three();
    let mut cx = UpdateCx::new(app);
    let flags = list.child_mut(Id(1)).unwrap().update(&mut cx, Payload::Number(41));
    assert_eq!(flags, ChangeFlags::paint());
    assert_eq!(list.child(Id(1)).unwrap().debug_name(), "Cell(41)");
    assert_eq!(list.child(Id(0)).unwrap().debug_name(), "Cell(0)");
    assert!(list.child_mut(Id(9)).is_none());
}

#[test]
fn children_come_in_order() {
    let (_, list) = three();
    let names: Vec<String> = list.children().iter().map(|c| c.debug_name()).collect();
    assert_eq!(names, vec!["Cell(0)", "Cell(1)", "Cell(2)"]);
    let ids: Vec<Id> = list.children().iter().map(|c| c.id()).collect();
    assert_eq!(ids, vec![Id(0), Id(1), Id(2)]);
}

#[test]
fn children_mut_reaches_every_child() {
    let (app, mut list) = three();
    let mut cx = UpdateCx::new(app);
    let each = list.children_mut();
    assert_eq!(each.len(), 3);
    for (i, child) in each.into_iter().enumerate() {
        child.update(&mut cx, Payload::Number(100 + i as i64));
    }
    let names: Vec<String> = list.children().iter().map(|c| c.debug_name()).collect();
    assert_eq!(names, vec!["Cell(100)", "Cell(101)", "Cell(102)"]);
}

#[test]
fn list_is_named_and_keeps_no_state() {
    let (app, mut list) = three();
    assert_eq!(list.debug_name(), "StaticList");
    let mut cx = UpdateCx::new(app);
    assert_eq!(list.update(&mut cx, Payload::Empty), ChangeFlags::empty());
    assert_eq!(list.update(&mut cx, Payload::Flag(true)), ChangeFlags::empty());
    assert_eq!(list.update(&mut cx, Payload::Text(String::from("x"))), ChangeFlags::empty());
    assert_eq!(list.children().len(), 3);
    assert_eq!(cx.app.len(), 4);
}

#[test]
fn empty_list_handles_nothing() {
    let mut app = AppState::new();
    let mut list = static_list(&mut app, Vec::new());
    assert!(list.children().is_empty());
    assert!(list.children_mut().is_empty());
    let mut cx = EventCx::new(app, floem::signal::SignalStore::new());
    assert!(!list.event(&mut cx, None, Event::FocusGained));
    assert!(cx.trace.is_empty());
}
