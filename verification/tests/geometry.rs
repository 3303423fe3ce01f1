use floem::flags::ChangeFlags;
use floem::geometry::{add_clamped, Point, Rect};

fn rect(x0: i64, y0: i64, x1: i64, y1: i64) -> Rect {
    Rect { x0, y0, x1, y1 }
}

#[test]
fn union_is_the_hull() {
    let a = rect(10, 20, 30, 40);
    let b = rect(25, 5, 60, 35);
    assert_eq!(a.union(b), rect(10, 5, 60, 40));
    assert_eq!(b.union(a), rect(10, 5, 60, 40));
    assert_eq!(a.union(a), a);
    assert_eq!(a.union(Rect::zero()), rect(0, 0, 30, 40));
}

#[test]
fn offset_moves_both_corners() {
    let a = rect(10, 20, 30, 40);
    assert_eq!(a.offset(Point { x: 5, y: -25 }), rect(15, -5, 35, 15));
    assert_eq!(a.offset(Point::zero()), a);
    assert_eq!(a.origin(), Point { x: 10, y: 20 });
}

#[test]
fn sums_stop_at_the_ends_of_the_range() {
    assert_eq!(add_clamped(1, 2), 3);
    assert_eq!(add_clamped(i64::MAX, 1), i64::MAX);
    assert_eq!(add_clamped(i64::MAX - 1, 1), i64::MAX);
    assert_eq!(add_clamped(i64::MIN, -1), i64::MIN);
    assert_eq!(add_clamped(i64::MIN, i64::MAX), -1);
    assert_eq!(add_clamped(-5, -7), -12);
    let far = rect(i64::MAX - 3, 0, i64::MAX - 1, 1);
    assert_eq!(far.offset(Point { x: 2, y: 0 }), rect(i64::MAX - 1, 0, i64::MAX, 1));
}

#[test]
fn rectangle_from_origin_and_size() {
    assert_eq!(Rect::from_origin_size(3, 4, 10, 20), rect(3, 4, 13, 24));
    assert_eq!(Rect::from_origin_size(0, 0, 0, 0), Rect::zero());
    assert_eq!(Rect::from_origin_size(i64::MAX, 0, 5, 5), rect(i64::MAX, 0, i64::MAX, 5));
}

#[test]
fn flag_sets_close_under_layout_implies_paint() {
    assert_eq!(ChangeFlags::layout(), ChangeFlags { style: false, layout: true, paint: true });
    assert_eq!(ChangeFlags::style(), ChangeFlags { style: true, layout: false, paint: false });
    assert_eq!(ChangeFlags::paint(), ChangeFlags { style: false, layout: false, paint: true });
    assert!(ChangeFlags::empty().is_empty());
    assert!(!ChangeFlags::paint().is_empty());
    let bare = ChangeFlags { style: false, layout: true, paint: false };
    assert_eq!(ChangeFlags::empty().union(bare), ChangeFlags::layout());
    assert_eq!(
        ChangeFlags::style().union(ChangeFlags::paint()),
        ChangeFlags { style: true, layout: false, paint: true }
    );
}

#[test]
fn flag_sets_contain_and_subtract() {
    let all = ChangeFlags { style: true, layout: true, paint: true };
    assert!(all.contains(ChangeFlags::layout()));
    assert!(all.contains(ChangeFlags::empty()));
    assert!(!ChangeFlags::paint().contains(ChangeFlags::layout()));
    assert!(ChangeFlags::layout().contains(ChangeFlags::paint()));
    assert_eq!(all.difference(ChangeFlags::style()), ChangeFlags::layout());
    assert_eq!(all.difference(ChangeFlags::paint()), all.difference(ChangeFlags::empty()));
    assert_eq!(all.difference(ChangeFlags::layout()), ChangeFlags::style());

    let mut flags = ChangeFlags::empty();
    flags.insert(ChangeFlags::style());
    flags.insert(ChangeFlags::layout());
    assert_eq!(flags, all);
    flags.remove(ChangeFlags::layout());
    assert_eq!(flags, ChangeFlags::style());
    flags.remove(ChangeFlags::style());
    assert!(flags.is_empty());
}
