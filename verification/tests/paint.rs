use floem::context::{EventCx, LayoutCx, PaintCx, StyleCx, UpdateCx};
use floem::engine::{LayoutBox, LayoutEngine};
use floem::event::Event;
use floem::flags::ChangeFlags;
use floem::geometry::Rect;
use floem::id::Id;
use floem::paint::{Appearance, PaintCommand};
use floem::signal::SignalStore;
use floem::state::AppState;
use floem::style::{Color, Style, StyleSheet};
use floem::view::{Payload, ViewNode};
use floem::views::static_list;

const WHITE: Color = Color(0xffffffff);
const BLACK: Color = Color(0x000000ff);
const BLUE: Color = Color(0x0000ffff);

/// A leaf that draws one run of text in its rectangle.
struct Label {
    id: Id,
    run: u64,
}

impl ViewNode for Label {
    fn id(&self) -> Id {
        self.id
    }

    fn view_style(&self) -> Option<Style> {
        None
    }

    fn debug_name(&self) -> String {
        String::from("Label")
    }

    fn update(&mut self, _cx: &mut UpdateCx, _state: Payload) -> ChangeFlags {
        ChangeFlags::empty()
    }

    fn style(&mut self, _cx: &mut StyleCx) {
    }

    fn layout(&mut self, cx: &mut LayoutCx) -> LayoutBox {
        match cx.cached_box(self.id) {
            Some(b) => b,
            None => cx.layout_node(self.id, false, Vec::new()),
        }
    }

    fn compute_layout(&mut self, _cx: &mut LayoutCx) -> Option<Rect> {
        None
    }

    fn event(&mut self, _cx: &mut EventCx, _id_path: Option<&[Id]>, _event: Event) -> bool {
        false
    }

    fn paint(&mut self, cx: &mut PaintCx) {
        let look = cx.appearance(self.id);
        let color = look.style.color.unwrap_or(BLACK);
        cx.emit(PaintCommand::Text { rect: look.rect, color, run: self.run });
    }
}

fn label(app: &mut AppState, run: u64, height: u16, background: Option<Color>) -> Box<dyn ViewNode> {
    let id = app.create_node();
    let mut base = Style::new().width(40).height(height);
    if let Some(color) = background {
        base = base.background(color);
    }
    app.set_sheet(id, StyleSheet::new().base(base));
    Box::new(Label { id, run })
}

fn rect(x0: i64, y0: i64, x1: i64, y1: i64) -> Rect {
    Rect { x0, y0, x1, y1 }
}

/// Styles and lays out a list of two labels; returns the table and the list.
fn scene() -> (AppState, Box<dyn ViewNode>, Id) {
    let mut app = AppState::new();
    let children = vec![label(&mut app, 1, 10, None), label(&mut app, 2, 20, Some(WHITE))];
    let mut list = static_list(&mut app, children);
    let list_id = list.id();
    app.set_sheet(list_id, StyleSheet::new().base(Style::new().color(BLUE).background(BLACK)));
    let mut style = StyleCx::new(app, SignalStore::new());
    style.style_view(&mut list);
    let mut layout = LayoutCx::new(style.app, LayoutEngine::new());
    let root = layout.layout_view(&mut list);
    assert!(layout.solve(root, None, None));
    layout.compute_view_layout(&mut list);
    (layout.app, Box::new(list), list_id)
}

fn expected() -> Vec<PaintCommand> {
    vec![
        PaintCommand::Fill { rect: rect(0, 0, 40, 30), color: BLACK },
        PaintCommand::Text { rect: rect(0, 0, 40, 10), color: BLUE, run: 1 },
        PaintCommand::Fill { rect: rect(0, 10, 40, 30), color: WHITE },
        PaintCommand::Text { rect: rect(0, 10, 40, 30), color: BLUE, run: 2 },
    ]
}

#[test]
fn paint_goes_back_to_front_in_child_order() {
    let (app, mut list, _) = scene();
    let mut cx = PaintCx::new(app);
    cx.paint_view(&mut *list);
    assert_eq!(cx.commands, expected());
}

#[test]
fn paint_clears_the_paint_flag() {
    let (app, mut list, list_id) = scene();
    assert!(app.pending(list_id).paint);
    let mut cx = PaintCx::new(app);
    cx.paint_view(&mut *list);
    assert_eq!(cx.app.pending(list_id), ChangeFlags::empty());
    assert_eq!(cx.app.pending(Id(0)), ChangeFlags::empty());
    assert_eq!(cx.app.pending(Id(1)), ChangeFlags::empty());
}

#[test]
fn style_then_paint_twice_gives_the_same() {
    let (app, mut list, list_id) = scene();
    let before = app.node(list_id).unwrap().computed;

    let mut style = StyleCx::new(app, SignalStore::new());
    style.style_view(&mut *list);
    let mut first = PaintCx::new(style.app);
    first.paint_view(&mut *list);

    let mut style = StyleCx::new(first.app, SignalStore::new());
    style.style_view(&mut *list);
    let mut second = PaintCx::new(style.app);
    second.paint_view(&mut *list);

    assert_eq!(first.commands, expected());
    assert_eq!(second.commands, first.commands);
    assert_eq!(second.app.node(list_id).unwrap().computed, before);
}

#[test]
fn paint_appends_to_what_was_emitted() {
    let (app, mut list, _) = scene();
    let mut cx = PaintCx::new(app);
    cx.emit(PaintCommand::PushClip { rect: rect(0, 0, 5, 5) });
    cx.paint_view(&mut *list);
    cx.emit(PaintCommand::PopClip);
    let mut all = vec![PaintCommand::PushClip { rect: rect(0, 0, 5, 5) }];
    all.extend(expected());
    all.push(PaintCommand::PopClip);
    assert_eq!(cx.commands, all);
}

#[test]
fn released_node_is_not_painted() {
    let (mut app, mut list, _) = scene();
    assert!(app.release(Id(1)));
    let mut cx = PaintCx::new(app);
    cx.paint_view(&mut *list);
    assert_eq!(cx.commands, expected()[..2].to_vec());
    assert_eq!(
        cx.appearance(Id(1)),
        Appearance { style: Style::new(), rect: Rect::zero() }
    );
}

#[test]
fn appearance_is_style_and_rectangle() {
    let (app, _list, list_id) = scene();
    let cx = PaintCx::new(app);
    let look = cx.appearance(list_id);
    assert_eq!(look.rect, rect(0, 0, 40, 30));
    assert_eq!(look.style.background, Some(BLACK));
    assert_eq!(look.style.color, Some(BLUE));
}
