use floem::context::{EventCx, LayoutCx, PaintCx, StyleCx, UpdateCx};
use floem::engine::LayoutBox;
use floem::event::Event;
use floem::flags::ChangeFlags;
use floem::geometry::Rect;
use floem::id::Id;
use floem::signal::SignalStore;
use floem::state::AppState;
use floem::style::{resolve, BoxStyle, Color, FlexDirection, Interaction, Style, StyleSheet};
use floem::view::{Payload, ViewNode};
use floem::views::static_list;

const RED: Color = Color(0xff0000ff);
const GREEN: Color = Color(0x00ff00ff);
const BLUE: Color = Color(0x0000ffff);
const GRAY: Color = Color(0x808080ff);
const WHITE: Color = Color(0xffffffff);

/// A leaf that may bring a style of its own.
struct Plain {
    id: Id,
    own: Option<Style>,
}

impl ViewNode for Plain {
    fn id(&self) -> Id {
        self.id
    }

    fn view_style(&self) -> Option<Style> {
        self.own
    }

    fn debug_name(&self) -> String {
        String::from("Plain")
    }

    fn update(&mut self, _cx: &mut UpdateCx, _state: Payload) -> ChangeFlags {
        ChangeFlags::empty()
    }

    fn style(&mut self, _cx: &mut StyleCx) {
    }

    fn layout(&mut self, cx: &mut LayoutCx) -> LayoutBox {
        match cx.cached_box(self.id) {
            Some(b) => b,
            None => cx.layout_node(self.id, false, Vec::new()),
        }
    }

    fn compute_layout(&mut self, _cx: &mut LayoutCx) -> Option<Rect> {
        None
    }

    fn event(&mut self, _cx: &mut EventCx, _id_path: Option<&[Id]>, _event: Event) -> bool {
        false
    }

    fn paint(&mut self, _cx: &mut PaintCx) {
    }
}

fn sheet() -> StyleSheet {
    StyleSheet::new()
        .base(Style::new().background(WHITE).width(10))
        .disabled(Style::new().background(GRAY))
        .focus_visible(Style::new().background(BLUE))
        .hover(Style::new().background(GREEN))
        .active(Style::new().background(RED).width(20))
}

fn state(disabled: bool, focus_visible: bool, hovered: bool, active: bool) -> Interaction {
    Interaction { disabled, focus_visible, hovered, active }
}

#[test]
fn setters_set_one_property() {
    let style = Style::new()
        .flex_direction(FlexDirection::ColumnReverse)
        .width(1)
        .height(2)
        .background(RED)
        .color(BLUE);
    assert_eq!(
        style,
        Style {
            flex_direction: Some(FlexDirection::ColumnReverse),
            width: Some(1),
            height: Some(2),
            background: Some(RED),
            color: Some(BLUE),
        }
    );
    assert_eq!(
        Style::new(),
        Style { flex_direction: None, width: None, height: None, background: None, color: None }
    );
}

#[test]
fn apply_takes_what_the_override_sets() {
    let under = Style::new().width(1).height(2).color(RED);
    let over = Style::new().width(5).background(BLUE);
    assert_eq!(under.apply(over), Style::new().width(5).height(2).color(RED).background(BLUE));
    assert_eq!(under.apply(Style::new()), under);
    assert_eq!(Style::new().apply(over), over);
}

#[test]
fn only_the_text_colour_is_inherited() {
    let style = Style::new().width(1).height(2).color(RED).background(BLUE);
    assert_eq!(style.inheritable(), Style::new().color(RED));
}

#[test]
fn box_style_fills_in_the_defaults() {
    assert_eq!(Style::new().box_style(), BoxStyle::initial());
    assert_eq!(
        BoxStyle::initial(),
        BoxStyle { direction: FlexDirection::Row, width: None, height: None }
    );
    assert_eq!(
        Style::new().flex_direction(FlexDirection::Column).width(3).background(RED).box_style(),
        BoxStyle { direction: FlexDirection::Column, width: Some(3), height: None }
    );
}

#[test]
fn pseudo_states_override_in_order_of_precedence() {
    let none = Style::new();
    let bg = |s: Interaction| resolve(none, None, sheet(), s).background;
    assert_eq!(bg(state(false, false, false, false)), Some(WHITE));
    assert_eq!(bg(state(true, false, false, false)), Some(GRAY));
    assert_eq!(bg(state(true, true, false, false)), Some(BLUE));
    assert_eq!(bg(state(true, true, true, false)), Some(GREEN));
    assert_eq!(bg(state(true, true, true, true)), Some(RED));
    assert_eq!(bg(state(false, false, true, true)), Some(RED));
    assert_eq!(bg(state(true, false, true, false)), Some(GREEN));
    // A state that does not set a property lets the one below show.
    let width = |s: Interaction| resolve(none, None, sheet(), s).width;
    assert_eq!(width(state(true, true, true, false)), Some(10));
    assert_eq!(width(state(false, false, false, true)), Some(20));
}

#[test]
fn explicit_style_wins_over_intrinsic_over_inherited() {
    let inherited = Style::new().color(RED).width(99);
    let intrinsic = Style::new().flex_direction(FlexDirection::Column).color(GREEN).height(7);
    let explicit = StyleSheet::new().base(Style::new().height(8));
    let idle = Interaction::idle();
    assert_eq!(
        resolve(inherited, Some(intrinsic), explicit, idle),
        Style::new().flex_direction(FlexDirection::Column).color(GREEN).height(8)
    );
    // Box properties of the parent are not handed down.
    assert_eq!(resolve(inherited, None, StyleSheet::new(), idle), Style::new().color(RED));
}

#[test]
fn list_brings_the_column_direction() {
    let mut app = AppState::new();
    let list = static_list(&mut app, Vec::new());
    assert_eq!(list.view_style(), Some(Style::new().flex_direction(FlexDirection::Column)));
}

#[test]
fn style_pass_computes_and_clears() {
    let mut app = AppState::new();
    let a = app.create_node();
    let b = app.create_node();
    app.set_sheet(a, sheet());
    app.set_sheet(b, StyleSheet::new().base(Style::new().color(BLUE)));
    let children: Vec<Box<dyn ViewNode>> =
        vec![Box::new(Plain { id: a, own: None }), Box::new(Plain { id: b, own: Some(Style::new().height(4)) })];
    let mut list = static_list(&mut app, children);
    let list_id = list.id();
    app.set_sheet(list_id, StyleSheet::new().base(Style::new().color(RED)));

    let mut cx = StyleCx::new(app, SignalStore::new());
    cx.style_view(&mut list);

    let column = Style::new().flex_direction(FlexDirection::Column).color(RED);
    assert_eq!(cx.app.node(list_id).unwrap().computed, column);
    assert_eq!(cx.app.node(a).unwrap().computed, Style::new().background(WHITE).width(10).color(RED));
    assert_eq!(cx.app.node(b).unwrap().computed, Style::new().height(4).color(BLUE));
    for id in [a, b, list_id] {
        let flags = cx.app.node(id).unwrap().flags;
        assert!(!flags.style);
        assert!(flags.layout);
        assert!(flags.paint);
    }
    assert_eq!(cx.inherited, Style::new());
    assert!(!cx.forced);
}

#[test]
fn style_pass_twice_changes_nothing() {
    let mut app = AppState::new();
    let a = app.create_node();
    app.set_sheet(a, sheet());
    let children: Vec<Box<dyn ViewNode>> = vec![Box::new(Plain { id: a, own: None })];
    let mut list = static_list(&mut app, children);
    let list_id = list.id();

    let mut cx = StyleCx::new(app, SignalStore::new());
    cx.style_view(&mut list);
    let once = [cx.app.node(a).unwrap(), cx.app.node(list_id).unwrap()];
    cx.style_view(&mut list);
    let twice = [cx.app.node(a).unwrap(), cx.app.node(list_id).unwrap()];
    assert_eq!(once, twice);
}

#[test]
fn forced_style_pass_twice_changes_nothing() {
    let mut app = AppState::new();
    let a = app.create_node();
    app.set_sheet(a, sheet());
    let b = app.create_node();
    let inner_children: Vec<Box<dyn ViewNode>> = vec![Box::new(Plain { id: b, own: None })];
    let inner = static_list(&mut app, inner_children);
    let inner_id = inner.id();
    let children: Vec<Box<dyn ViewNode>> =
        vec![Box::new(Plain { id: a, own: Some(Style::new().width(7)) }), Box::new(inner)];
    let mut list = static_list(&mut app, children);
    let list_id = list.id();
    let ids = [a, b, inner_id, list_id];

    // The list's own traversal of its children, forced by a colour handed
    // down from above.
    let mut cx = StyleCx::new(app, SignalStore::new());
    cx.forced = true;
    cx.inherited = Style::new().color(GREEN);
    list.style(&mut cx);
    let once: Vec<_> = ids.iter().map(|id| cx.app.node(*id).unwrap()).collect();
    assert_eq!(cx.app.node(b).unwrap().computed.color, Some(GREEN));
    assert!(!cx.app.node(a).unwrap().flags.style);
    assert!(!cx.app.node(inner_id).unwrap().flags.style);
    // The list itself was not visited.
    assert!(cx.app.node(list_id).unwrap().flags.style);

    list.style(&mut cx);
    let twice: Vec<_> = ids.iter().map(|id| cx.app.node(*id).unwrap()).collect();
    assert_eq!(once, twice);

    // The same from the list down.
    cx.style_view(&mut list);
    let once: Vec<_> = ids.iter().map(|id| cx.app.node(*id).unwrap()).collect();
    cx.style_view(&mut list);
    let twice: Vec<_> = ids.iter().map(|id| cx.app.node(*id).unwrap()).collect();
    assert_eq!(once, twice);
    assert!(cx.forced);
}

#[test]
fn clean_subtree_is_passed_over() {
    let mut app = AppState::new();
    let a = app.create_node();
    let children: Vec<Box<dyn ViewNode>> = vec![Box::new(Plain { id: a, own: None })];
    let mut list = static_list(&mut app, children);
    let list_id = list.id();
    let mut cx = StyleCx::new(app, SignalStore::new());
    cx.style_view(&mut list);
    assert_eq!(cx.app.node(a).unwrap().computed, Style::new());

    // Nobody asks for style: a pass that would hand down another colour
    // visits nothing.
    cx.inherited = Style::new().color(RED);
    cx.style_view(&mut list);
    assert_eq!(cx.app.node(list_id).unwrap().computed.color, None);
    assert_eq!(cx.app.node(a).unwrap().computed, Style::new());

    // Forced, it visits everything.
    cx.forced = true;
    cx.style_view(&mut list);
    assert_eq!(cx.app.node(list_id).unwrap().computed.color, Some(RED));
    assert_eq!(cx.app.node(a).unwrap().computed, Style::new().color(RED));
    assert!(cx.forced);
    assert_eq!(cx.inherited, Style::new().color(RED));
}

#[test]
fn hover_colour_asks_for_paint_and_not_for_layout() {
    let mut app = AppState::new();
    let a = app.create_node();
    app.set_sheet(a, sheet());
    let children: Vec<Box<dyn ViewNode>> = vec![Box::new(Plain { id: a, own: None })];
    let mut list = static_list(&mut app, children);
    let list_id = list.id();
    let mut cx = StyleCx::new(app, SignalStore::new());
    cx.style_view(&mut list);
    let all = ChangeFlags { style: true, layout: true, paint: true };
    cx.app.clear(a, all);
    cx.app.clear(list_id, all);

    // Hover changes the background only.
    assert!(cx.app.set_interaction(a, state(false, false, true, false)));
    let asked = ChangeFlags { style: true, layout: false, paint: true };
    assert_eq!(cx.app.node(a).unwrap().flags, asked);
    assert_eq!(cx.app.node(list_id).unwrap().flags, asked);
    cx.style_view(&mut list);
    assert_eq!(cx.app.node(a).unwrap().computed.background, Some(GREEN));
    assert_eq!(cx.app.node(a).unwrap().flags, ChangeFlags::paint());
    assert_eq!(cx.app.node(list_id).unwrap().flags, ChangeFlags::paint());
}

#[test]
fn active_width_asks_for_layout() {
    let mut app = AppState::new();
    let a = app.create_node();
    app.set_sheet(a, sheet());
    let children: Vec<Box<dyn ViewNode>> = vec![Box::new(Plain { id: a, own: None })];
    let mut list = static_list(&mut app, children);
    let list_id = list.id();
    let mut cx = StyleCx::new(app, SignalStore::new());
    cx.style_view(&mut list);
    let all = ChangeFlags { style: true, layout: true, paint: true };
    cx.app.clear(a, all);
    cx.app.clear(list_id, all);

    // The active state changes the width too.
    assert!(cx.app.set_interaction(a, state(false, false, false, true)));
    cx.style_view(&mut list);
    assert_eq!(cx.app.node(a).unwrap().computed.width, Some(20));
    assert_eq!(cx.app.node(a).unwrap().flags, ChangeFlags::layout());
    assert_eq!(cx.app.node(list_id).unwrap().flags, ChangeFlags::layout());
}

#[test]
fn new_inherited_colour_reaches_clean_children() {
    let mut app = AppState::new();
    let a = app.create_node();
    let children: Vec<Box<dyn ViewNode>> = vec![Box::new(Plain { id: a, own: None })];
    let mut list = static_list(&mut app, children);
    let list_id = list.id();
    app.set_sheet(list_id, StyleSheet::new().base(Style::new().color(RED)));
    let mut cx = StyleCx::new(app, SignalStore::new());
    cx.style_view(&mut list);
    assert_eq!(cx.app.node(a).unwrap().computed.color, Some(RED));

    // Only the list asks for style, but what it hands down has changed.
    assert!(cx.app.set_sheet(list_id, StyleSheet::new().base(Style::new().color(BLUE))));
    assert!(!cx.app.node(a).unwrap().flags.style);
    cx.style_view(&mut list);
    assert_eq!(cx.app.node(a).unwrap().computed.color, Some(BLUE));
    assert!(!cx.forced);
}

#[test]
fn released_node_is_not_styled() {
    let mut app = AppState::new();
    let a = app.create_node();
    app.set_sheet(a, sheet());
    app.release(a);
    let mut leaf = Plain { id: a, own: None };
    let mut cx = StyleCx::new(app, SignalStore::new());
    cx.style_view(&mut leaf);
    assert!(cx.app.node(a).is_none());
}

#[test]
fn style_pass_leaves_no_node_of_the_tree_asking() {
    let mut app = AppState::new();
    let leaves: Vec<Id> = (0..3).map(|_| app.create_node()).collect();
    let inner_children: Vec<Box<dyn ViewNode>> = vec![
        Box::new(Plain { id: leaves[0], own: None }),
        Box::new(Plain { id: leaves[1], own: None }),
    ];
    let inner = static_list(&mut app, inner_children);
    let inner_id = inner.id();
    let outer_children: Vec<Box<dyn ViewNode>> =
        vec![Box::new(inner), Box::new(Plain { id: leaves[2], own: None })];
    let mut outer = static_list(&mut app, outer_children);
    let all = [leaves[0], leaves[1], leaves[2], inner_id, outer.id()];

    let mut cx = StyleCx::new(app, SignalStore::new());
    cx.style_view(&mut outer);
    for id in all {
        assert!(!cx.app.node(id).unwrap().flags.style);
    }

    // A request deep in the tree reaches the root, and the next pass
    // answers it everywhere.
    assert!(cx.app.set_sheet(leaves[1], StyleSheet::new().base(Style::new().color(RED))));
    for id in [leaves[1], inner_id, outer.id()] {
        assert!(cx.app.node(id).unwrap().flags.style);
    }
    for id in [leaves[0], leaves[2]] {
        assert!(!cx.app.node(id).unwrap().flags.style);
    }
    cx.style_view(&mut outer);
    for id in all {
        assert!(!cx.app.node(id).unwrap().flags.style);
    }
    assert_eq!(cx.app.node(leaves[1]).unwrap().computed.color, Some(RED));
}
