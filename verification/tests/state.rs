use floem::engine::LayoutBox;
use floem::flags::ChangeFlags;
use floem::geometry::Rect;
use floem::id::Id;
use floem::state::AppState;
use floem::style::{Color, Interaction, Style, StyleSheet};

fn quiet(app: &mut AppState, ids: &[Id]) {
    let all = ChangeFlags { style: true, layout: true, paint: true };
    for id in ids {
        app.clear(*id, all);
    }
}

#[test]
fn identifiers_increase_and_are_not_reissued() {
    let mut app = AppState::new();
    assert_eq!(app.len(), 0);
    let a = app.create_node();
    let b = app.create_node();
    assert_eq!((a, b), (Id(0), Id(1)));
    assert_eq!(a.to_raw(), 0);
    assert!(a != b);
    assert!(app.release(a));
    assert!(!app.release(a));
    let c = app.create_node();
    assert_eq!(c, Id(2));
    assert!(!app.is_alive(a));
    assert!(app.node(a).is_none());
    assert!(app.is_alive(b));
    assert!(app.is_alive(c));
    assert_eq!(app.len(), 3);
}

#[test]
fn new_node_asks_for_everything() {
    let mut app = AppState::new();
    let id = app.create_node();
    let node = app.node(id).unwrap();
    assert!(node.alive);
    assert_eq!(node.parent, None);
    assert_eq!(node.flags, ChangeFlags { style: true, layout: true, paint: true });
    assert_eq!(node.sheet, StyleSheet::new());
    assert_eq!(node.interaction, Interaction::idle());
    assert_eq!(node.computed, Style::new());
    assert_eq!(node.layout_box, None::<LayoutBox>);
    assert_eq!(node.layout_rect, Rect::zero());
    assert_eq!(app.pending(id), node.flags);
    assert_eq!(app.pending(Id(9)), ChangeFlags::empty());
}

#[test]
fn lookup_of_an_unknown_identifier_finds_nothing() {
    let mut app = AppState::new();
    app.create_node();
    assert!(app.node(Id(1)).is_none());
    assert!(app.node(Id(u64::MAX)).is_none());
    assert!(!app.is_alive(Id(1)));
    assert!(!app.release(Id(1)));
    assert!(!app.set_disabled(Id(1), true));
    assert!(!app.set_sheet(Id(1), StyleSheet::new()));
    app.request(Id(1), ChangeFlags::layout());
    app.clear(Id(1), ChangeFlags::layout());
    assert_eq!(app.len(), 1);
}

#[test]
fn a_node_is_adopted_only_by_a_later_live_node() {
    let mut app = AppState::new();
    let child = app.create_node();
    let parent = app.create_node();
    assert!(!app.adopt(parent, child));
    assert!(!app.adopt(child, child));
    assert!(!app.adopt(child, Id(5)));
    assert!(app.adopt(child, parent));
    assert_eq!(app.node(child).unwrap().parent, Some(parent));
    let gone = app.create_node();
    app.release(gone);
    assert!(!app.adopt(child, gone));
    assert_eq!(app.node(child).unwrap().parent, Some(parent));
}

#[test]
fn a_request_reaches_every_owner_and_no_one_else() {
    let mut app = AppState::new();
    let leaf = app.create_node();
    let sibling = app.create_node();
    let middle = app.create_node();
    let root = app.create_node();
    assert!(app.adopt(leaf, middle));
    assert!(app.adopt(sibling, middle));
    assert!(app.adopt(middle, root));
    quiet(&mut app, &[leaf, sibling, middle, root]);

    app.request(leaf, ChangeFlags::layout());
    let asked = ChangeFlags { style: false, layout: true, paint: true };
    assert_eq!(app.node(leaf).unwrap().flags, asked);
    assert_eq!(app.node(middle).unwrap().flags, asked);
    assert_eq!(app.node(root).unwrap().flags, asked);
    assert_eq!(app.node(sibling).unwrap().flags, ChangeFlags::empty());
    assert_eq!(app.pending(root), asked);
}

#[test]
fn a_change_of_pseudo_state_asks_for_style_and_paint_only() {
    let mut app = AppState::new();
    let leaf = app.create_node();
    let root = app.create_node();
    assert!(app.adopt(leaf, root));
    app.set_sheet(leaf, StyleSheet::new().hover(Style::new().background(Color(0x00ff00ff))));
    quiet(&mut app, &[leaf, root]);

    let hovered = Interaction { hovered: true, ..Interaction::idle() };
    assert!(app.set_interaction(leaf, hovered));
    let asked = ChangeFlags { style: true, layout: false, paint: true };
    assert_eq!(app.node(leaf).unwrap().flags, asked);
    assert_eq!(app.node(root).unwrap().flags, asked);
    assert_eq!(app.node(leaf).unwrap().interaction, hovered);

    // Setting the same state again changes nothing.
    quiet(&mut app, &[leaf, root]);
    assert!(!app.set_interaction(leaf, hovered));
    assert_eq!(app.node(root).unwrap().flags, ChangeFlags::empty());
}

#[test]
fn disabling_is_a_change_of_pseudo_state() {
    let mut app = AppState::new();
    let id = app.create_node();
    quiet(&mut app, &[id]);
    assert!(app.set_disabled(id, true));
    assert!(app.node(id).unwrap().interaction.disabled);
    assert_eq!(app.node(id).unwrap().flags, ChangeFlags { style: true, layout: false, paint: true });
    assert!(!app.set_disabled(id, true));
    assert!(app.set_disabled(id, false));
    assert!(!app.node(id).unwrap().interaction.disabled);
}

#[test]
fn a_new_sheet_asks_for_style() {
    let mut app = AppState::new();
    let id = app.create_node();
    quiet(&mut app, &[id]);
    let sheet = StyleSheet::new().base(Style::new().width(10));
    assert!(app.set_sheet(id, sheet));
    assert_eq!(app.node(id).unwrap().sheet, sheet);
    assert!(app.node(id).unwrap().flags.style);
    assert!(!app.node(id).unwrap().flags.layout);
    assert!(!app.set_sheet(id, sheet));
}

#[test]
fn release_takes_everything_the_node_owns() {
    let mut app = AppState::new();
    let a = app.create_node();
    let b = app.create_node();
    let inner = app.create_node();
    let other = app.create_node();
    let outer = app.create_node();
    assert!(app.adopt(a, inner));
    assert!(app.adopt(b, inner));
    assert!(app.adopt(inner, outer));
    assert!(app.adopt(other, outer));

    assert!(app.release(inner));
    assert!(!app.is_alive(a));
    assert!(!app.is_alive(b));
    assert!(!app.is_alive(inner));
    assert!(app.is_alive(other));
    assert!(app.is_alive(outer));

    assert!(app.release(outer));
    assert!(!app.is_alive(other));
    assert!(!app.is_alive(outer));
}

#[test]
fn paint_stays_asked_while_layout_is() {
    let mut app = AppState::new();
    let id = app.create_node();
    quiet(&mut app, &[id]);
    app.request(id, ChangeFlags { style: false, layout: true, paint: false });
    assert_eq!(app.node(id).unwrap().flags, ChangeFlags { style: false, layout: true, paint: true });
    app.clear(id, ChangeFlags::paint());
    assert_eq!(app.node(id).unwrap().flags, ChangeFlags { style: false, layout: true, paint: true });
    app.clear(id, ChangeFlags { style: false, layout: true, paint: false });
    assert_eq!(app.node(id).unwrap().flags, ChangeFlags::paint());
    app.clear(id, ChangeFlags::paint());
    assert_eq!(app.node(id).unwrap().flags, ChangeFlags::empty());
}

#[test]
fn layout_cannot_be_taken_from_an_owner_while_an_owned_node_asks() {
    let mut app = AppState::new();
    let child = app.create_node();
    let owner = app.create_node();
    assert!(app.adopt(child, owner));
    let all = ChangeFlags { style: true, layout: true, paint: true };
    assert!(app.asked_below(owner));
    assert!(!app.asked_below(child));

    // The child still asks for layout: the owner keeps layout and paint.
    app.clear(owner, all);
    assert_eq!(app.node(owner).unwrap().flags, ChangeFlags::layout());
    app.clear(owner, ChangeFlags::paint());
    assert_eq!(app.node(owner).unwrap().flags, ChangeFlags::layout());

    // Once the child is answered, the owner can be.
    app.clear(child, all);
    assert!(!app.asked_below(owner));
    app.clear(owner, all);
    assert_eq!(app.node(owner).unwrap().flags, ChangeFlags::empty());
}

#[test]
fn a_released_node_does_not_hold_its_owner_back() {
    let mut app = AppState::new();
    let child = app.create_node();
    let owner = app.create_node();
    assert!(app.adopt(child, owner));
    assert!(app.release(child));
    assert!(!app.asked_below(owner));
    app.clear(owner, ChangeFlags { style: true, layout: true, paint: true });
    assert_eq!(app.node(owner).unwrap().flags, ChangeFlags::empty());
}

#[test]
fn adoption_hands_the_requests_of_the_child_up() {
    let mut app = AppState::new();
    let child = app.create_node();
    let owner = app.create_node();
    let top = app.create_node();
    assert!(app.adopt(owner, top));
    let all = ChangeFlags { style: true, layout: true, paint: true };
    app.clear(owner, all);
    app.clear(top, all);
    assert_eq!(app.pending(top), ChangeFlags::empty());
    assert!(app.adopt(child, owner));
    assert_eq!(app.node(child).unwrap().parent, Some(owner));
    assert_eq!(app.pending(owner), all);
    assert_eq!(app.pending(top), all);
}
