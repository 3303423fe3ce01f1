use floem::context::{EventCx, LayoutCx, PaintCx, StyleCx, UpdateCx};
use floem::engine::{BoxFrame, LayoutBox, LayoutEngine, MAX_BOXES};
use floem::event::Event;
use floem::flags::ChangeFlags;
use floem::geometry::{Point, Rect};
use floem::id::Id;
use floem::signal::SignalStore;
use floem::state::AppState;
use floem::style::{BoxStyle, FlexDirection, Style, StyleSheet};
use floem::view::{Payload, ViewNode};
use floem::views::static_list;

/// A leaf with a box of its own and nothing in it.
struct Block {
    id: Id,
}

impl ViewNode for Block {
    fn id(&self) -> Id {
        self.id
    }

    fn view_style(&self) -> Option<Style> {
        None
    }

    fn debug_name(&self) -> String {
        String::from("Block")
    }

    fn update(&mut self, _cx: &mut UpdateCx, _state: Payload) -> ChangeFlags {
        ChangeFlags::empty()
    }

    fn style(&mut self, _cx: &mut StyleCx) {
    }

    fn layout(&mut self, cx: &mut LayoutCx) -> LayoutBox {
        match cx.cached_box(self.id) {
            Some(b) => b,
            None => cx.layout_node(self.id, false, Vec::new()),
        }
    }

    fn compute_layout(&mut self, _cx: &mut LayoutCx) -> Option<Rect> {
        None
    }

    fn event(&mut self, _cx: &mut EventCx, _id_path: Option<&[Id]>, _event: Event) -> bool {
        false
    }

    fn paint(&mut self, _cx: &mut PaintCx) {
    }
}

fn block(app: &mut AppState, width: u16, height: u16) -> Box<dyn ViewNode> {
    let id = app.create_node();
    app.set_sheet(id, StyleSheet::new().base(Style::new().width(width).height(height)));
    Box::new(Block { id })
}

fn rect(x0: i64, y0: i64, x1: i64, y1: i64) -> Rect {
    Rect { x0, y0, x1, y1 }
}

fn sized(direction: FlexDirection, width: u16, height: u16) -> BoxStyle {
    BoxStyle { direction, width: Some(width), height: Some(height) }
}

#[test]
fn engine_starts_with_the_empty_box() {
    let engine = LayoutEngine::new();
    assert_eq!(engine.len(), 1);
    assert_eq!(engine.frame(LayoutBox(0)), Some(BoxFrame::zero()));
    assert_eq!(engine.frame(LayoutBox(1)), None);
}

/// A box with the given order, style and kids.
fn boxed(engine: &mut LayoutEngine, order: u64, style: BoxStyle, kids: Vec<LayoutBox>) -> LayoutBox {
    let b = engine.add(style, order);
    assert!(engine.update(b, style, &kids));
    b
}

#[test]
fn engine_places_a_row_and_a_column() {
    let mut engine = LayoutEngine::new();
    let a = boxed(&mut engine, 1, sized(FlexDirection::Row, 30, 10), Vec::new());
    let b = boxed(&mut engine, 2, sized(FlexDirection::Row, 40, 20), Vec::new());
    let row = boxed(&mut engine, 3, sized(FlexDirection::Row, 100, 50), vec![a, b]);
    assert_eq!((a, b, row), (LayoutBox(1), LayoutBox(2), LayoutBox(3)));
    assert_eq!(engine.frame(row), Some(BoxFrame::zero()));
    assert_eq!(engine.kids(row), Some(vec![a, b]));
    assert_eq!(engine.kids(a), Some(Vec::new()));
    assert_eq!(engine.kids(LayoutBox(4)), None);

    assert!(engine.solve(row, Some(200), Some(200)));
    assert_eq!(engine.frame(row), Some(BoxFrame { x: 0, y: 0, width: 100, height: 50 }));
    assert_eq!(engine.frame(a), Some(BoxFrame { x: 0, y: 0, width: 30, height: 10 }));
    assert_eq!(engine.frame(b), Some(BoxFrame { x: 30, y: 0, width: 40, height: 20 }));

    // The same box, turned into a column, and then into a column upside
    // down with the kids in the other order.
    assert!(engine.update(row, sized(FlexDirection::Column, 100, 50), &vec![a, b]));
    assert!(engine.solve(row, None, None));
    assert_eq!(engine.frame(a), Some(BoxFrame { x: 0, y: 0, width: 30, height: 10 }));
    assert_eq!(engine.frame(b), Some(BoxFrame { x: 0, y: 10, width: 40, height: 20 }));

    assert!(engine.update(row, sized(FlexDirection::ColumnReverse, 100, 50), &vec![b, a]));
    assert!(engine.solve(row, None, None));
    assert_eq!(engine.frame(b), Some(BoxFrame { x: 0, y: 30, width: 40, height: 20 }));
    assert_eq!(engine.frame(a), Some(BoxFrame { x: 0, y: 20, width: 30, height: 10 }));
    assert_eq!(engine.len(), 4);
}

#[test]
fn engine_changes_a_style_in_place() {
    let mut engine = LayoutEngine::new();
    let a = boxed(&mut engine, 1, sized(FlexDirection::Row, 30, 10), Vec::new());
    let root = boxed(&mut engine, 2, sized(FlexDirection::Row, 100, 50), vec![a]);
    assert!(engine.solve(root, None, None));
    assert_eq!(engine.frame(a), Some(BoxFrame { x: 0, y: 0, width: 30, height: 10 }));

    assert!(engine.update(a, sized(FlexDirection::Row, 45, 15), &Vec::new()));
    // The frame is the old one until the engine solves again.
    assert_eq!(engine.frame(a), Some(BoxFrame { x: 0, y: 0, width: 30, height: 10 }));
    assert!(engine.solve(root, None, None));
    assert_eq!(engine.frame(a), Some(BoxFrame { x: 0, y: 0, width: 45, height: 15 }));

    // A box that loses its kids is placed without them.
    assert!(engine.update(root, BoxStyle::initial(), &Vec::new()));
    assert!(engine.solve(root, None, None));
    assert_eq!(engine.frame(root), Some(BoxFrame::zero()));
    assert_eq!(engine.len(), 3);
}

#[test]
fn engine_sizes_a_box_to_its_content() {
    let mut engine = LayoutEngine::new();
    let auto = BoxStyle { direction: FlexDirection::Row, width: None, height: None };
    let a = boxed(&mut engine, 1, sized(FlexDirection::Row, 30, 10), Vec::new());
    let b = boxed(&mut engine, 2, sized(FlexDirection::Row, 5, 25), Vec::new());
    let root = boxed(&mut engine, 3, auto, vec![a, b]);
    assert!(engine.solve(root, None, None));
    assert_eq!(engine.frame(root), Some(BoxFrame { x: 0, y: 0, width: 35, height: 25 }));
    assert_eq!(engine.frame(b), Some(BoxFrame { x: 30, y: 0, width: 5, height: 25 }));
    // With room to spare the result is the same.
    assert!(engine.solve(root, Some(500), Some(400)));
    assert_eq!(engine.frame(root), Some(BoxFrame { x: 0, y: 0, width: 35, height: 25 }));
}

#[test]
fn engine_leaves_out_kids_that_are_not_of_lower_order() {
    let mut engine = LayoutEngine::new();
    let a = boxed(&mut engine, 1, sized(FlexDirection::Row, 30, 10), Vec::new());
    let row = engine.add(sized(FlexDirection::Row, 100, 50), 5);
    let same = boxed(&mut engine, 5, sized(FlexDirection::Row, 7, 7), Vec::new());
    let higher = boxed(&mut engine, 9, sized(FlexDirection::Row, 8, 8), Vec::new());
    assert_eq!(engine.order(a), Some(1));
    assert_eq!(engine.order(row), Some(5));
    assert_eq!(engine.order(LayoutBox(0)), Some(0));
    assert_eq!(engine.order(LayoutBox(7)), None);
    // A handle that names no box, the box itself, a box of the same order
    // and a box of higher order are left out.
    assert!(engine.update(
        row,
        sized(FlexDirection::Row, 100, 50),
        &vec![LayoutBox(7), a, row, same, higher]
    ));
    assert_eq!(engine.kids(row), Some(vec![a]));
    assert!(engine.solve(row, None, None));
    assert_eq!(engine.frame(a), Some(BoxFrame { x: 0, y: 0, width: 30, height: 10 }));
    assert_eq!(engine.frame(same), Some(BoxFrame::zero()));
    assert_eq!(engine.frame(higher), Some(BoxFrame::zero()));
    assert_eq!(engine.order(row), Some(5));

    // The empty box and a handle that names no box are not changed.
    assert!(!engine.update(LayoutBox(0), sized(FlexDirection::Row, 1, 1), &Vec::new()));
    assert!(!engine.update(LayoutBox(9), sized(FlexDirection::Row, 1, 1), &Vec::new()));
    assert!(!engine.solve(LayoutBox(9), None, None));
    assert!(engine.solve(LayoutBox(0), None, None));
    assert_eq!(engine.frame(LayoutBox(0)), Some(BoxFrame::zero()));
    assert_eq!(engine.len(), 5);
    assert!(MAX_BOXES > 5);
}

#[test]
fn engine_takes_kids_that_were_made_after_the_box() {
    let mut engine = LayoutEngine::new();
    let row = engine.add(sized(FlexDirection::Row, 100, 50), 7);
    let a = boxed(&mut engine, 3, sized(FlexDirection::Row, 30, 10), Vec::new());
    let b = boxed(&mut engine, 4, sized(FlexDirection::Row, 40, 20), Vec::new());
    assert_eq!((row, a, b), (LayoutBox(1), LayoutBox(2), LayoutBox(3)));
    assert!(engine.update(row, sized(FlexDirection::Row, 100, 50), &vec![a, b]));
    assert!(engine.solve(row, None, None));
    assert_eq!(engine.frame(a), Some(BoxFrame { x: 0, y: 0, width: 30, height: 10 }));
    assert_eq!(engine.frame(b), Some(BoxFrame { x: 30, y: 0, width: 40, height: 20 }));
    // A kid can leave one box for another of higher order.
    let outer = engine.add(sized(FlexDirection::Column, 100, 90), 8);
    assert!(engine.update(row, sized(FlexDirection::Row, 100, 50), &vec![a]));
    assert!(engine.update(outer, sized(FlexDirection::Column, 100, 90), &vec![row, b]));
    assert!(engine.solve(outer, None, None));
    assert_eq!(engine.frame(row), Some(BoxFrame { x: 0, y: 0, width: 100, height: 50 }));
    assert_eq!(engine.frame(b), Some(BoxFrame { x: 0, y: 50, width: 40, height: 20 }));
}

#[test]
fn a_list_that_had_its_box_first_still_holds_its_children() {
    let mut app = AppState::new();
    let children = vec![block(&mut app, 50, 20), block(&mut app, 60, 30)];
    let ids: Vec<Id> = children.iter().map(|c| c.id()).collect();
    let mut list = static_list(&mut app, children);
    let list_id = list.id();

    let mut style = StyleCx::new(app, SignalStore::new());
    style.style_view(&mut list);
    let mut cx = LayoutCx::new(style.app, LayoutEngine::new());
    // The box of the list is made before any child has one.
    let first = cx.layout_node(list_id, true, Vec::new());
    assert_eq!(first, LayoutBox(1));
    assert_eq!(cx.own_box(list_id), Some(first));
    assert_eq!(cx.own_box(ids[0]), None);
    assert!(cx.app.node(list_id).unwrap().flags.layout);

    // The list keeps its box and takes the boxes of its children, though
    // they were made after its own.
    assert_eq!(cx.layout_view(&mut list), first);
    assert_eq!(cx.own_box(ids[0]), Some(LayoutBox(2)));
    assert_eq!(cx.own_box(ids[1]), Some(LayoutBox(3)));
    assert_eq!(cx.engine.len(), 4);
    assert_eq!(cx.engine.kids(first), Some(vec![LayoutBox(2), LayoutBox(3)]));
    assert!(cx.solve(first, None, None));
    let bounds = cx.compute_view_layout(&mut list);
    assert_eq!(bounds, rect(0, 0, 60, 50));
    assert_eq!(cx.app.node(ids[0]).unwrap().layout_rect, rect(0, 0, 50, 20));
    assert_eq!(cx.app.node(ids[1]).unwrap().layout_rect, rect(0, 20, 60, 50));
}

#[test]
fn a_box_made_for_another_node_is_not_taken() {
    let mut app = AppState::new();
    let one = block(&mut app, 50, 20);
    let two = block(&mut app, 60, 30);
    let (a, b) = (one.id(), two.id());
    let mut children = vec![one, two];
    let mut style = StyleCx::new(app, SignalStore::new());
    style.style_view(&mut *children[0]);
    style.style_view(&mut *children[1]);
    let mut cx = LayoutCx::new(style.app, LayoutEngine::new());
    let first = cx.layout_view(&mut *children[0]);
    assert_eq!(first, LayoutBox(1));
    assert_eq!(cx.own_box(a), Some(first));
    assert_eq!(cx.engine.order(first), Some(a.0));

    // In another engine the same handle comes to name the box of the
    // second node: the first node has no box there, and gets one.
    let mut cx = LayoutCx::new(cx.app, LayoutEngine::new());
    assert_eq!(cx.own_box(a), None);
    assert_eq!(cx.layout_view(&mut *children[1]), LayoutBox(1));
    assert_eq!(cx.app.node(a).unwrap().layout_box, Some(LayoutBox(1)));
    assert_eq!(cx.own_box(a), None);
    assert_eq!(cx.own_box(b), Some(LayoutBox(1)));
    cx.app.request(a, ChangeFlags { style: false, layout: true, paint: true });
    assert_eq!(cx.layout_view(&mut *children[0]), LayoutBox(2));
    assert_eq!(cx.own_box(a), Some(LayoutBox(2)));
    assert_eq!(cx.own_box(b), Some(LayoutBox(1)));
}

#[test]
fn the_boxes_mirror_the_tree() {
    let mut app = AppState::new();
    let inner_children = vec![block(&mut app, 10, 10), block(&mut app, 20, 20)];
    let inner_ids: Vec<Id> = inner_children.iter().map(|c| c.id()).collect();
    let inner = static_list(&mut app, inner_children);
    let inner_id = inner.id();
    let leaf = block(&mut app, 30, 30);
    let leaf_id = leaf.id();
    let mut outer = static_list(&mut app, vec![Box::new(inner), leaf]);
    let outer_id = outer.id();

    let mut style = StyleCx::new(app, SignalStore::new());
    style.style_view(&mut outer);
    let mut cx = LayoutCx::new(style.app, LayoutEngine::new());
    let root = cx.layout_view(&mut outer);
    let box_of = |cx: &LayoutCx, id: Id| cx.own_box(id).unwrap();
    assert_eq!(box_of(&cx, outer_id), root);
    assert_eq!(
        cx.engine.kids(root),
        Some(vec![box_of(&cx, inner_id), box_of(&cx, leaf_id)])
    );
    assert_eq!(
        cx.engine.kids(box_of(&cx, inner_id)),
        Some(vec![box_of(&cx, inner_ids[0]), box_of(&cx, inner_ids[1])])
    );
    assert_eq!(cx.engine.kids(box_of(&cx, leaf_id)), Some(Vec::new()));
    assert_eq!(cx.engine.order(root), Some(outer_id.0));
    assert_eq!(cx.engine.order(box_of(&cx, inner_ids[1])), Some(inner_ids[1].0));
    let before = cx.engine.len();
    assert_eq!(before, 6);

    // One leaf asks again: the boxes are the same and mirror the tree as
    // before.
    cx.app.request(inner_ids[0], ChangeFlags { style: false, layout: true, paint: true });
    assert_eq!(cx.cached_box(outer_id), None);
    assert_eq!(cx.layout_view(&mut outer), root);
    assert_eq!(cx.engine.len(), before);
    assert_eq!(
        cx.engine.kids(root),
        Some(vec![box_of(&cx, inner_id), box_of(&cx, leaf_id)])
    );
    assert_eq!(
        cx.engine.kids(box_of(&cx, inner_id)),
        Some(vec![box_of(&cx, inner_ids[0]), box_of(&cx, inner_ids[1])])
    );
    assert_eq!(cx.cached_box(outer_id), Some(root));
}

#[test]
fn list_lays_its_children_out_in_a_column() {
    let mut app = AppState::new();
    let children = vec![block(&mut app, 50, 20), block(&mut app, 60, 30)];
    let ids: Vec<Id> = children.iter().map(|c| c.id()).collect();
    let mut list = static_list(&mut app, children);
    let list_id = list.id();
    app.set_sheet(list_id, StyleSheet::new().base(Style::new().width(200).height(100)));

    let mut style = StyleCx::new(app, SignalStore::new());
    style.style_view(&mut list);
    let mut cx = LayoutCx::new(style.app, LayoutEngine::new());
    let root = cx.layout_view(&mut list);
    assert_eq!(root, LayoutBox(3));
    assert!(cx.solve(root, None, None));
    let bounds = cx.compute_view_layout(&mut list);

    assert_eq!(bounds, rect(0, 0, 200, 100));
    assert_eq!(cx.app.node(ids[0]).unwrap().layout_rect, rect(0, 0, 50, 20));
    assert_eq!(cx.app.node(ids[1]).unwrap().layout_rect, rect(0, 20, 60, 50));
    assert_eq!(cx.app.node(list_id).unwrap().layout_rect, rect(0, 0, 200, 100));
    assert_eq!(cx.app.node(list_id).unwrap().layout_box, Some(root));
    assert!(!cx.app.pending(list_id).layout);
    assert_eq!(cx.origin, Point::zero());
}

#[test]
fn bounds_of_a_list_are_the_hull_of_its_children() {
    let mut app = AppState::new();
    let children = vec![block(&mut app, 50, 20), block(&mut app, 60, 30)];
    let mut list = static_list(&mut app, children);

    let mut style = StyleCx::new(app, SignalStore::new());
    style.style_view(&mut list);
    let mut cx = LayoutCx::new(style.app, LayoutEngine::new());
    let root = cx.layout_view(&mut list);
    assert!(cx.solve(root, None, None));

    // Placed at an offset, the children do not touch the origin, and
    // neither does their hull.
    cx.origin = Point { x: 100, y: 200 };
    let bounds = list.compute_layout(&mut cx);
    assert_eq!(bounds, Some(rect(100, 200, 160, 250)));
}

#[test]
fn bounds_of_an_empty_list_are_the_empty_rectangle() {
    let mut app = AppState::new();
    let mut list = static_list(&mut app, Vec::new());
    let mut cx = LayoutCx::new(app, LayoutEngine::new());
    cx.origin = Point { x: 5, y: 5 };
    assert_eq!(list.compute_layout(&mut cx), Some(Rect::zero()));
}

#[test]
fn nested_lists_accumulate_their_origins() {
    let mut app = AppState::new();
    let inner_children = vec![block(&mut app, 50, 20), block(&mut app, 60, 30)];
    let inner_ids: Vec<Id> = inner_children.iter().map(|c| c.id()).collect();
    let inner = static_list(&mut app, inner_children);
    let inner_id = inner.id();
    let head = block(&mut app, 10, 10);
    let mut outer = static_list(&mut app, vec![head, Box::new(inner)]);
    let outer_id = outer.id();
    app.set_sheet(outer_id, StyleSheet::new().base(Style::new().width(200).height(100)));

    let mut style = StyleCx::new(app, SignalStore::new());
    style.style_view(&mut outer);
    let mut cx = LayoutCx::new(style.app, LayoutEngine::new());
    let root = cx.layout_view(&mut outer);
    assert!(cx.solve(root, None, None));
    let bounds = cx.compute_view_layout(&mut outer);

    assert_eq!(bounds, rect(0, 0, 200, 100));
    assert_eq!(cx.app.node(inner_id).unwrap().layout_rect, rect(0, 10, 200, 60));
    assert_eq!(cx.app.node(inner_ids[0]).unwrap().layout_rect, rect(0, 10, 50, 30));
    assert_eq!(cx.app.node(inner_ids[1]).unwrap().layout_rect, rect(0, 30, 60, 60));
}

#[test]
fn a_node_keeps_its_box() {
    let mut app = AppState::new();
    let children = vec![block(&mut app, 50, 20), block(&mut app, 60, 30)];
    let ids: Vec<Id> = children.iter().map(|c| c.id()).collect();
    let mut list = static_list(&mut app, children);
    let list_id = list.id();

    let mut style = StyleCx::new(app, SignalStore::new());
    style.style_view(&mut list);
    let mut cx = LayoutCx::new(style.app, LayoutEngine::new());
    let first = cx.layout_view(&mut list);
    assert_eq!(first, LayoutBox(3));
    assert_eq!(cx.engine.len(), 4);
    assert_eq!(cx.cached_box(list_id), Some(first));
    assert_eq!(cx.own_box(list_id), Some(first));

    // Nothing asked for layout: the same box.
    assert_eq!(cx.layout_view(&mut list), first);
    assert_eq!(cx.engine.len(), 4);

    // One child asks again, with a new size: every node keeps its box, no
    // box is added, and the child's box has the new size.
    cx.app.set_sheet(ids[0], StyleSheet::new().base(Style::new().width(70).height(25)));
    let mut style = StyleCx::new(cx.app, SignalStore::new());
    style.style_view(&mut list);
    let mut cx = LayoutCx::new(style.app, cx.engine);
    assert!(cx.app.node(ids[0]).unwrap().flags.layout);
    assert_eq!(cx.cached_box(list_id), None);
    assert_eq!(cx.own_box(list_id), Some(first));
    assert_eq!(cx.layout_view(&mut list), first);
    assert_eq!(cx.engine.len(), 4);
    assert_eq!(cx.app.node(ids[0]).unwrap().layout_box, Some(LayoutBox(1)));
    assert_eq!(cx.app.node(ids[1]).unwrap().layout_box, Some(LayoutBox(2)));
    assert!(cx.solve(first, None, None));
    cx.compute_view_layout(&mut list);
    assert_eq!(cx.app.node(ids[0]).unwrap().layout_rect, rect(0, 0, 70, 25));
    assert_eq!(cx.app.node(ids[1]).unwrap().layout_rect, rect(0, 25, 60, 55));
}

#[test]
fn an_empty_list_keeps_its_box() {
    let mut app = AppState::new();
    let mut list = static_list(&mut app, Vec::new());
    let id = list.id();
    let mut cx = LayoutCx::new(app, LayoutEngine::new());
    let first = cx.layout_view(&mut list);
    assert_eq!(first, LayoutBox(1));
    cx.app.request(id, ChangeFlags::layout());
    assert_eq!(cx.layout_view(&mut list), first);
    assert_eq!(cx.engine.len(), 2);
}

#[test]
fn released_node_is_placed_nowhere() {
    let mut app = AppState::new();
    let id = app.create_node();
    app.release(id);
    let mut leaf = Block { id };
    let mut cx = LayoutCx::new(app, LayoutEngine::new());
    assert_eq!(cx.cached_box(id), None);
    assert_eq!(cx.own_box(id), None);
    let b = cx.layout_view(&mut leaf);
    assert_eq!(b, LayoutBox(0));
    assert_eq!(cx.engine.len(), 1);
    assert_eq!(cx.compute_view_layout(&mut leaf), Rect::zero());
}

#[test]
fn layout_pass_leaves_no_node_of_the_tree_asking() {
    let mut app = AppState::new();
    let inner_children = vec![block(&mut app, 50, 20), block(&mut app, 60, 30)];
    let inner = static_list(&mut app, inner_children);
    let inner_id = inner.id();
    let tail = block(&mut app, 10, 10);
    let tail_id = tail.id();
    let mut outer = static_list(&mut app, vec![Box::new(inner), tail]);
    let all = [Id(0), Id(1), tail_id, inner_id, outer.id()];

    let mut style = StyleCx::new(app, SignalStore::new());
    style.style_view(&mut outer);
    let mut cx = LayoutCx::new(style.app, LayoutEngine::new());
    cx.layout_view(&mut outer);
    for id in all {
        assert!(!cx.app.node(id).unwrap().flags.layout);
    }

    // A request deep in the tree reaches the root, and the next pass
    // answers it everywhere.
    cx.app.request(Id(1), ChangeFlags::layout());
    for id in [Id(1), inner_id, outer.id()] {
        assert!(cx.app.node(id).unwrap().flags.layout);
    }
    cx.layout_view(&mut outer);
    for id in all {
        assert!(!cx.app.node(id).unwrap().flags.layout);
    }
}
