//! The layout boxes of the tree, and the engine that sizes and places them.
//!
//! A box is made once and then changed in place: a handle that was handed
//! out names the same box for as long as the engine lives. Each box is made
//! with an order, which it keeps, and contains only boxes of lower order:
//! so no box can come to contain itself, whichever box was made first.

use vstd::prelude::*;
use crate::style::{BoxStyle, FlexDirection};
use slotmap::{Key, KeyData};
use taffy::geometry::Size;
use taffy::node::{Node, Taffy};
use taffy::style::FlexDirection as EngineDirection;
use taffy::style::{AvailableSpace, Dimension, Style};

verus! {

/// The engine's tree of boxes. Nothing inside it is visible here: it is
/// spoken of through [`engine_children`], [`engine_parents`],
/// [`engine_styles`], [`engine_count`] and [`engine_frames`].
#[verifier::external_type_specification]
#[verifier::external_body]
pub struct ExTaffy(taffy::node::Taffy);

/// The error type of the engine.
#[verifier::external_type_specification]
#[verifier::external_body]
pub struct ExTaffyError(taffy::error::TaffyError);

/// Where the engine put a box: the position of its first corner relative to
/// the box that contains it, and its size, in whole pixels.
#[derive(Clone, Copy, PartialEq, Eq, Structural, Debug)]
pub struct BoxFrame {
    pub x: i32,
    pub y: i32,
    pub width: i32,
    pub height: i32,
}

/// For the key of each box that the engine holds, the keys of the boxes it
/// contains, in order.
pub uninterp spec fn engine_children(t: Taffy) -> Map<u64, Seq<u64>>;

/// For the key of each box that the engine has put into another, the key of
/// that other box.
pub uninterp spec fn engine_parents(t: Taffy) -> Map<u64, u64>;

/// For the key of each box, the direction, width and height of its style.
pub uninterp spec fn engine_styles(t: Taffy) -> Map<u64, BoxStyle>;

/// How many boxes the engine holds.
pub uninterp spec fn engine_count(t: Taffy) -> nat;

/// For the key of each box, where the engine last put it.
pub uninterp spec fn engine_frames(t: Taffy) -> Map<u64, BoxFrame>;

/// For the key of each box, where the engine puts it when it is asked to
/// size and place the box `root` within the given width and height (`None`
/// for as much as the content wants).
pub uninterp spec fn engine_solved(t: Taffy, root: u64, width: Option<u16>, height: Option<u16>) -> Map<
    u64,
    BoxFrame,
>;

/// The keys of the boxes that the engine holds.
pub open spec fn engine_nodes(t: Taffy) -> Set<u64> {
    engine_children(t).dom()
}

/// Every box that a box of the engine contains is a box of the engine, and
/// `rank` is smaller on it than on the box that contains it.
pub open spec fn ranks_descend(t: Taffy, rank: Map<u64, nat>) -> bool {
    forall|n: u64, i: int|
        engine_nodes(t).contains(n) && 0 <= i < engine_children(t)[n].len() ==> engine_nodes(
            t,
        ).contains(#[trigger] engine_children(t)[n][i]) && rank[engine_children(t)[n][i]]
            < rank[n]
}

/// No box of the engine contains itself, however indirectly: walking down
/// from any box comes to an end.
pub open spec fn engine_acyclic(t: Taffy) -> bool {
    exists|rank: Map<u64, nat>| ranks_descend(t, rank)
}

/// Every box that has a parent in `parents` has a box among `nodes` as its
/// parent, and `rank` is greater on the parent, and at most `bound`.
pub open spec fn ranks_ascend(parents: Map<u64, u64>, nodes: Set<u64>, bound: nat, rank: Map<u64, nat>) -> bool {
    forall|k: u64| #[trigger]
        parents.dom().contains(k) ==> nodes.contains(parents[k]) && rank[k] < rank[parents[k]]
            && rank[parents[k]] <= bound
}

/// Walking up from any box, from parent to parent, comes to an end: some
/// rank grows on the way and stays within `bound`.
pub open spec fn rooted(parents: Map<u64, u64>, nodes: Set<u64>, bound: nat) -> bool {
    exists|rank: Map<u64, nat>| ranks_ascend(parents, nodes, bound, rank)
}

/// The bound on the ranks by which walking up is shown to end: the
/// greatest order that a box can have.
pub open spec fn highest_order() -> nat {
    0xFFFF_FFFF_FFFF_FFFF
}

/// The parents after a box has been given new kids: the boxes in `gone`
/// have no parent, and then each of `kids` has the parent `parent`.
pub open spec fn reparented(parents: Map<u64, u64>, gone: Seq<u64>, kids: Seq<u64>, parent: u64) -> Map<
    u64,
    u64,
> {
    Map::new(
        |k: u64| kids.contains(k) || (parents.dom().contains(k) && !gone.contains(k)),
        |k: u64|
            if kids.contains(k) {
                parent
            } else {
                parents[k]
            },
    )
}

/// The most boxes an engine is asked to hold.
pub const MAX_BOXES: usize = 0xFFFF_FFF0;

/// `Taffy::new`: an engine that holds no box.
#[verifier::external_body]
fn engine_new() -> (t: Taffy)
    ensures
        engine_children(t).dom() == Set::<u64>::empty(),
        engine_parents(t).dom() == Set::<u64>::empty(),
        engine_count(t) == 0,
{
    Taffy::new()
}

/// `Taffy::new_with_children`, with no children: adds a box and returns its
/// key. The box has the direction, width and height of `style` (a missing
/// length is automatic) and the engine's defaults otherwise; it contains
/// nothing, has no parent, and has the frame of a box that was never
/// placed, all zero. The key is not that of any box the engine held before,
/// and nothing changes for those. The call succeeds while the engine holds
/// fewer boxes than its key space allows.
#[verifier::external_body]
fn engine_add(t: &mut Taffy, style: &BoxStyle) -> (r: Result<u64, taffy::error::TaffyError>)
    requires
        engine_count(*old(t)) < 0xFFFF_FFFE,
    ensures
        r is Ok,
        !engine_nodes(*old(t)).contains(r->Ok_0),
        engine_count(*final(t)) == engine_count(*old(t)) + 1,
        engine_children(*final(t)) == engine_children(*old(t)).insert(r->Ok_0, Seq::empty()),
        engine_parents(*final(t)) == engine_parents(*old(t)),
        engine_styles(*final(t)) == engine_styles(*old(t)).insert(r->Ok_0, *style),
        engine_frames(*final(t)) == engine_frames(*old(t)).insert(
            r->Ok_0,
            (BoxFrame { x: 0, y: 0, width: 0, height: 0 }),
        ),
{
    let length = |v: Option<u16>| v.map_or(Dimension::Auto, |p| Dimension::Points(p.into()));
    let made = Style {
        flex_direction: match style.direction {
            FlexDirection::Row => EngineDirection::Row,
            FlexDirection::Column => EngineDirection::Column,
            FlexDirection::RowReverse => EngineDirection::RowReverse,
            FlexDirection::ColumnReverse => EngineDirection::ColumnReverse,
        },
        size: Size { width: length(style.width), height: length(style.height) },
        ..Style::DEFAULT
    };
    t.new_with_children(made, &[]).map(|n| n.data().as_ffi())
}

/// `Taffy::set_style`: gives the box `node`, which must be a box of the
/// engine, the direction, width and height of `style` and the engine's
/// defaults otherwise. The engine then walks up from the box from parent to
/// parent, which must come to an end. Nothing else changes.
#[verifier::external_body]
fn engine_set_style(t: &mut Taffy, node: u64, style: &BoxStyle) -> (r: Result<(), taffy::error::TaffyError>)
    requires
        engine_nodes(*old(t)).contains(node),
        rooted(engine_parents(*old(t)), engine_nodes(*old(t)), highest_order()),
    ensures
        r is Ok,
        engine_count(*final(t)) == engine_count(*old(t)),
        engine_children(*final(t)) == engine_children(*old(t)),
        engine_parents(*final(t)) == engine_parents(*old(t)),
        engine_frames(*final(t)) == engine_frames(*old(t)),
        engine_styles(*final(t)) == engine_styles(*old(t)).insert(node, *style),
{
    let length = |v: Option<u16>| v.map_or(Dimension::Auto, |p| Dimension::Points(p.into()));
    let made = Style {
        flex_direction: match style.direction {
            FlexDirection::Row => EngineDirection::Row,
            FlexDirection::Column => EngineDirection::Column,
            FlexDirection::RowReverse => EngineDirection::RowReverse,
            FlexDirection::ColumnReverse => EngineDirection::ColumnReverse,
        },
        size: Size { width: length(style.width), height: length(style.height) },
        ..Style::DEFAULT
    };
    t.set_style(KeyData::from_ffi(node).into(), made)
}

/// `Taffy::set_children`: makes the box `parent` contain the boxes `kids`,
/// in order, in place of what it contained. `parent`, the boxes it
/// contained and the boxes `kids` must be boxes of the engine. The boxes
/// that `parent` contained lose their parent, and then each of `kids` has
/// the parent `parent`; the engine then walks up from `parent` from parent
/// to parent, which must come to an end. Nothing else changes.
#[verifier::external_body]
fn engine_set_children(t: &mut Taffy, parent: u64, kids: &Vec<u64>) -> (r: Result<(), taffy::error::TaffyError>)
    requires
        engine_nodes(*old(t)).contains(parent),
        forall|i: int| 0 <= i < kids@.len() ==> engine_nodes(*old(t)).contains(#[trigger] kids@[i]),
        forall|i: int|
            0 <= i < engine_children(*old(t))[parent].len() ==> engine_nodes(*old(t)).contains(
                #[trigger] engine_children(*old(t))[parent][i],
            ),
        rooted(
            reparented(engine_parents(*old(t)), engine_children(*old(t))[parent], kids@, parent),
            engine_nodes(*old(t)),
            highest_order(),
        ),
    ensures
        r is Ok,
        engine_count(*final(t)) == engine_count(*old(t)),
        engine_children(*final(t)) == engine_children(*old(t)).insert(parent, kids@),
        engine_parents(*final(t)) == reparented(
            engine_parents(*old(t)),
            engine_children(*old(t))[parent],
            kids@,
            parent,
        ),
        engine_styles(*final(t)) == engine_styles(*old(t)),
        engine_frames(*final(t)) == engine_frames(*old(t)),
{
    let nodes: Vec<Node> = kids.iter().map(|k| KeyData::from_ffi(*k).into()).collect();
    t.set_children(KeyData::from_ffi(parent).into(), &nodes)
}

/// `Taffy::compute_layout`: sizes and places the box `root` and everything
/// in it, within the width and height given (`None` for as much as the
/// content wants). Which boxes there are, what they contain and what their
/// styles are stays as it was; the frames are what the engine computes from
/// the boxes it holds and the space.
#[verifier::external_body]
fn engine_solve(t: &mut Taffy, root: u64, width: Option<u16>, height: Option<u16>) -> (r: Result<(), taffy::error::TaffyError>)
    requires
        engine_nodes(*old(t)).contains(root),
        engine_acyclic(*old(t)),
    ensures
        engine_count(*final(t)) == engine_count(*old(t)),
        engine_children(*final(t)) == engine_children(*old(t)),
        engine_parents(*final(t)) == engine_parents(*old(t)),
        engine_styles(*final(t)) == engine_styles(*old(t)),
        engine_frames(*final(t)) == engine_solved(*old(t), root, width, height),
{
    let space = |v: Option<u16>| v.map_or(AvailableSpace::MaxContent, |p| AvailableSpace::Definite(p.into()));
    t.compute_layout(KeyData::from_ffi(root).into(), Size { width: space(width), height: space(height) })
}

/// `Taffy::layout`: the frame of the box `node`, which must be a box of the
/// engine, in whole pixels.
#[verifier::external_body]
fn engine_frame(t: &Taffy, node: u64) -> (r: Result<BoxFrame, taffy::error::TaffyError>)
    requires
        engine_nodes(*t).contains(node),
    ensures
        r is Ok,
        r->Ok_0 == engine_frames(*t)[node],
{
    t.layout(KeyData::from_ffi(node).into()).map(|l| BoxFrame {
        x: l.location.x as i32,
        y: l.location.y as i32,
        width: l.size.width as i32,
        height: l.size.height as i32,
    })
}

/// Handle of a layout box.
#[derive(Clone, Copy, PartialEq, Eq, Structural, Debug)]
pub struct LayoutBox(pub usize);

/// What is known of one layout box.
pub struct BoxModel {
    /// Its order, which it was made with and keeps.
    pub order: u64,
    /// Its style.
    pub style: BoxStyle,
    /// The boxes it contains, in order.
    pub kids: Seq<LayoutBox>,
    /// Where the engine last put it.
    pub frame: BoxFrame,
}

struct BoxRecord {
    key: u64,
    order: u64,
    style: BoxStyle,
    kids: Vec<LayoutBox>,
}

/// The layout boxes and the engine that lays them out.
pub struct LayoutEngine {
    taffy: Taffy,
    boxes: Vec<BoxRecord>,
}

impl BoxFrame {
    pub open spec fn spec_zero() -> BoxFrame {
        BoxFrame { x: 0, y: 0, width: 0, height: 0 }
    }

    /// The frame of a box that was never placed.
    #[verifier::when_used_as_spec(spec_zero)]
    pub fn zero() -> (r: BoxFrame)
        ensures
            r == BoxFrame::spec_zero(),
    {
        BoxFrame { x: 0, y: 0, width: 0, height: 0 }
    }
}

/// `kid` names a box of lower order than `order`.
pub open spec fn is_below(boxes: Seq<BoxModel>, kid: LayoutBox, order: u64) -> bool {
    kid.0 < boxes.len() && boxes[kid.0 as int].order < order
}

/// The first `k` handles of `kids` that name a box of lower order than
/// `order`.
pub open spec fn valid_kids(boxes: Seq<BoxModel>, kids: Seq<LayoutBox>, order: u64, k: nat) -> Seq<
    LayoutBox,
>
    decreases k,
{
    if k == 0 || k > kids.len() {
        Seq::empty()
    } else if is_below(boxes, kids[k - 1], order) {
        valid_kids(boxes, kids, order, (k - 1) as nat).push(kids[k - 1])
    } else {
        valid_kids(boxes, kids, order, (k - 1) as nat)
    }
}

/// The boxes of a new engine: the empty box alone, which has the lowest
/// order.
pub open spec fn initial_boxes() -> Seq<BoxModel> {
    seq![
        BoxModel {
            order: 0,
            style: BoxStyle::spec_initial(),
            kids: Seq::empty(),
            frame: BoxFrame::spec_zero(),
        },
    ]
}

/// The boxes are well-formed: there is the empty box with handle 0, and a
/// box contains only boxes of lower order than its own.
pub open spec fn boxes_wf(boxes: Seq<BoxModel>) -> bool {
    &&& 1 <= boxes.len() <= MAX_BOXES
    &&& boxes[0].order == 0
    &&& boxes[0].style == BoxStyle::spec_initial()
    &&& boxes[0].kids.len() == 0
    &&& forall|i: int, j: int|
        0 <= i < boxes.len() && 0 <= j < boxes[i].kids.len() ==> is_below(
            boxes,
            #[trigger] boxes[i].kids[j],
            boxes[i].order,
        )
}

/// The handle that adding a box returns, and the boxes afterwards. The new
/// box has the order `order` and the style `style`, and contains nothing.
/// When there are [`MAX_BOXES`] boxes no box is added, and the handle is
/// that of the empty box.
pub open spec fn added(boxes: Seq<BoxModel>, style: BoxStyle, order: u64) -> (LayoutBox, Seq<BoxModel>) {
    if boxes.len() >= MAX_BOXES {
        (LayoutBox(0), boxes)
    } else {
        (
            LayoutBox(boxes.len() as usize),
            boxes.push(BoxModel { order, style, kids: Seq::empty(), frame: BoxFrame::spec_zero() }),
        )
    }
}

/// `b` names a box that can be changed: any box but the empty one.
pub open spec fn can_update(boxes: Seq<BoxModel>, b: LayoutBox) -> bool {
    0 < b.0 < boxes.len()
}

/// The boxes after the box `b` has been given the style `style` and the
/// kids `kids`, in place. Handles among `kids` that do not name a box of
/// lower order than `b` are left out. The box keeps its order and its
/// frame; no other box changes. Where `b` cannot be changed, nothing
/// changes.
pub open spec fn updated(boxes: Seq<BoxModel>, b: LayoutBox, style: BoxStyle, kids: Seq<LayoutBox>) -> Seq<
    BoxModel,
> {
    if can_update(boxes, b) {
        boxes.update(
            b.0 as int,
            BoxModel {
                order: boxes[b.0 as int].order,
                style,
                kids: valid_kids(boxes, kids, boxes[b.0 as int].order, kids.len()),
                frame: boxes[b.0 as int].frame,
            },
        )
    } else {
        boxes
    }
}

/// Solving changes no box but for its frame.
pub open spec fn same_boxes(before: Seq<BoxModel>, after: Seq<BoxModel>) -> bool {
    &&& after.len() == before.len()
    &&& forall|i: int|
        0 <= i < before.len() ==> (#[trigger] after[i]).style == before[i].style && after[i].kids
            == before[i].kids && after[i].order == before[i].order
}

/// The handles that are kept are at most as many as were given, and each
/// names a box of lower order.
pub proof fn lemma_valid_kids(boxes: Seq<BoxModel>, kids: Seq<LayoutBox>, order: u64, k: nat)
    requires
        k <= kids.len(),
    ensures
        valid_kids(boxes, kids, order, k).len() <= k,
        forall|j: int|
            0 <= j < valid_kids(boxes, kids, order, k).len() ==> is_below(
                boxes,
                #[trigger] valid_kids(boxes, kids, order, k)[j],
                order,
            ),
    decreases k,
{
    if k > 0 {
        lemma_valid_kids(boxes, kids, order, (k - 1) as nat);
    }
}

impl View for LayoutEngine {
    type V = Seq<BoxModel>;

    closed spec fn view(&self) -> Seq<BoxModel> {
        Seq::new(
            self.boxes@.len(),
            |i: int|
                BoxModel {
                    order: self.boxes@[i].order,
                    style: self.boxes@[i].style,
                    kids: self.boxes@[i].kids@,
                    frame: engine_frames(self.taffy)[self.boxes@[i].key],
                },
        )
    }
}

impl LayoutEngine {
    /// The records are keyed by the engine's boxes: each record's key is a
    /// box of the engine, no two records share a key, and the engine holds
    /// no other box.
    pub closed spec fn keyed(&self) -> bool {
        &&& engine_count(self.taffy) == self.boxes@.len()
        &&& forall|i: int|
            0 <= i < self.boxes@.len() ==> engine_nodes(self.taffy).contains(
                (#[trigger] self.boxes@[i]).key,
            )
        &&& forall|i: int, j: int|
            0 <= i < j < self.boxes@.len() ==> (#[trigger] self.boxes@[i]).key != (
            #[trigger] self.boxes@[j]).key
        &&& forall|k: u64| #[trigger]
            engine_nodes(self.taffy).contains(k) ==> 0 <= self.index_of(k) < self.boxes@.len()
                && self.boxes@[self.index_of(k)].key == k
    }

    /// The records mirror the engine: the engine's box has the style and
    /// contains the boxes that the record says, each of lower order, and a
    /// box that has a parent is of lower order than its parent.
    pub closed spec fn mirrors(&self) -> bool {
        &&& self.keyed()
        &&& forall|i: int|
            0 <= i < self.boxes@.len() ==> (#[trigger] engine_children(
                self.taffy,
            )[self.boxes@[i].key]).len() == self.boxes@[i].kids@.len()
        &&& forall|i: int, j: int|
            0 <= i < self.boxes@.len() && 0 <= j < self.boxes@[i].kids@.len() ==> (
            #[trigger] self.boxes@[i].kids@[j]).0 < self.boxes@.len()
                && self.boxes@[self.boxes@[i].kids@[j].0 as int].order < self.boxes@[i].order
                && engine_children(self.taffy)[self.boxes@[i].key][j]
                == self.boxes@[self.boxes@[i].kids@[j].0 as int].key
        &&& forall|i: int|
            0 <= i < self.boxes@.len() ==> engine_styles(self.taffy)[(
            #[trigger] self.boxes@[i]).key] == self.boxes@[i].style
        &&& forall|k: u64| #[trigger]
            engine_parents(self.taffy).dom().contains(k) ==> engine_nodes(self.taffy).contains(k)
                && engine_nodes(self.taffy).contains(engine_parents(self.taffy)[k])
                && self.order_of(k) < self.order_of(engine_parents(self.taffy)[k])
    }

    pub open spec fn wf(&self) -> bool {
        boxes_wf(self@) && self.mirrors()
    }

    /// The frame of each box after the engine has solved the box `root`
    /// within the given width and height. It is a function of the engine as
    /// it stands and of the space.
    pub closed spec fn solution(&self, root: LayoutBox, width: Option<u16>, height: Option<u16>) -> Seq<
        BoxFrame,
    > {
        Seq::new(
            self.boxes@.len(),
            |i: int|
                engine_solved(self.taffy, self.boxes@[root.0 as int].key, width, height)[self.boxes@[i].key],
        )
    }

    /// The index of the record with the key `k`.
    pub closed spec fn index_of(&self, k: u64) -> int {
        choose|i: int| 0 <= i < self.boxes@.len() && self.boxes@[i].key == k
    }

    /// The order of the box with the key `k`.
    pub closed spec fn order_of(&self, k: u64) -> nat {
        self.boxes@[self.index_of(k)].order as nat
    }

    /// The order of each box of the engine, by its key.
    pub closed spec fn ranks(&self) -> Map<u64, nat> {
        Map::new(|k: u64| true, |k: u64| self.order_of(k))
    }

    proof fn lemma_index(&self, i: int)
        requires
            self.keyed(),
            0 <= i < self.boxes@.len(),
        ensures
            self.index_of(self.boxes@[i].key) == i,
    {
        let k = self.boxes@[i].key;
        let a = self.index_of(k);
        assert(engine_nodes(self.taffy).contains(k));
        if a < i {
            assert(self.boxes@[a].key != self.boxes@[i].key);
        }
        if i < a {
            assert(self.boxes@[i].key != self.boxes@[a].key);
        }
    }

    proof fn lemma_acyclic(&self)
        requires
            self.mirrors(),
        ensures
            engine_acyclic(self.taffy),
    {
        let rank = self.ranks();
        assert forall|n: u64, i: int|
            engine_nodes(self.taffy).contains(n) && 0 <= i < engine_children(self.taffy)[n].len() implies engine_nodes(
            self.taffy,
        ).contains(#[trigger] engine_children(self.taffy)[n][i]) && rank[engine_children(
            self.taffy,
        )[n][i]] < rank[n] by {
            let a = self.index_of(n);
            assert(0 <= a < self.boxes@.len() && self.boxes@[a].key == n);
            assert(engine_children(self.taffy)[self.boxes@[a].key].len() == self.boxes@[a].kids@.len());
            let h = self.boxes@[a].kids@[i];
            assert(h.0 < self.boxes@.len());
            self.lemma_index(h.0 as int);
        }
        assert(ranks_descend(self.taffy, rank));
    }

    proof fn lemma_rooted(&self)
        requires
            self.mirrors(),
        ensures
            rooted(engine_parents(self.taffy), engine_nodes(self.taffy), highest_order()),
    {
        let rank = self.ranks();
        assert forall|k: u64| #[trigger]
            engine_parents(self.taffy).dom().contains(k) implies engine_nodes(self.taffy).contains(
            engine_parents(self.taffy)[k],
        ) && rank[k] < rank[engine_parents(self.taffy)[k]] && rank[engine_parents(self.taffy)[k]]
            <= highest_order() by {
            assert(self.order_of(k) < self.order_of(engine_parents(self.taffy)[k]));
        }
        assert(ranks_ascend(engine_parents(self.taffy), engine_nodes(self.taffy), highest_order(), rank));
    }

    /// The order of a box of the engine is that of its record.
    proof fn lemma_order(&self, i: int)
        requires
            self.keyed(),
            0 <= i < self.boxes@.len(),
        ensures
            self.order_of(self.boxes@[i].key) == self.boxes@[i].order,
    {
        self.lemma_index(i);
    }

    /// An engine with the empty box alone.
    pub fn new() -> (r: LayoutEngine)
        ensures
            r.wf(),
            r@ == initial_boxes(),
    {
        let mut taffy = engine_new();
        let style = BoxStyle::initial();
        let key: u64 = match engine_add(&mut taffy, &style) {
            Ok(k) => k,
            Err(_) => 0,
        };
        let mut boxes: Vec<BoxRecord> = Vec::new();
        boxes.push(BoxRecord { key, order: 0, style, kids: Vec::new() });
        let r = LayoutEngine { taffy, boxes };
        proof {
            assert(r.boxes@[0].key == key);
            assert forall|k: u64| #[trigger] engine_nodes(r.taffy).contains(k) implies 0
                <= r.index_of(k) < r.boxes@.len() && r.boxes@[r.index_of(k)].key == k by {
                assert(k == key);
            }
            assert(r.keyed());
            assert(engine_children(r.taffy)[key].len() == 0);
            assert forall|k: u64| #[trigger]
                engine_parents(r.taffy).dom().contains(k) implies engine_nodes(r.taffy).contains(k)
                && engine_nodes(r.taffy).contains(engine_parents(r.taffy)[k]) && r.order_of(k)
                < r.order_of(engine_parents(r.taffy)[k]) by {
                assert(Set::<u64>::empty().contains(k));
            }
            assert(r@[0].kids =~= Seq::empty());
            assert(r@ =~= initial_boxes());
        }
        r
    }

    /// How many boxes there are.
    pub fn len(&self) -> (n: usize)
        ensures
            n == self@.len(),
    {
        self.boxes.len()
    }

    /// The order of the box `b`, or `None` where `b` is no box.
    pub fn order(&self, b: LayoutBox) -> (r: Option<u64>)
        ensures
            r == (if b.0 < self@.len() {
                Some(self@[b.0 as int].order)
            } else {
                None
            }),
    {
        if b.0 >= self.boxes.len() {
            return None;
        }
        Some(self.boxes[b.0].order)
    }

    /// The boxes that the box `b` contains, in order, or `None` where `b`
    /// is no box.
    pub fn kids(&self, b: LayoutBox) -> (r: Option<Vec<LayoutBox>>)
        ensures
            match r {
                Some(kids) => b.0 < self@.len() && kids@ == self@[b.0 as int].kids,
                None => b.0 >= self@.len(),
            },
    {
        if b.0 >= self.boxes.len() {
            return None;
        }
        let n: usize = self.boxes[b.0].kids.len();
        let mut kids: Vec<LayoutBox> = Vec::new();
        let mut i: usize = 0;
        while i < n
            invariant
                b.0 < self.boxes@.len(),
                n == self.boxes@[b.0 as int].kids@.len(),
                i <= n,
                kids@ == self.boxes@[b.0 as int].kids@.take(i as int),
            decreases n - i,
        {
            kids.push(self.boxes[b.0].kids[i]);
            proof {
                assert(self.boxes@[b.0 as int].kids@.take(i + 1) =~= self.boxes@[b.0 as int].kids@.take(
                    i as int,
                ).push(self.boxes@[b.0 as int].kids@[i as int]));
            }
            i += 1;
        }
        proof {
            assert(self.boxes@[b.0 as int].kids@.take(n as int) =~= self.boxes@[b.0 as int].kids@);
        }
        Some(kids)
    }

    /// Adds a box with the order `order` and the style `style` that
    /// contains nothing, and returns its handle.
    pub fn add(&mut self, style: BoxStyle, order: u64) -> (r: LayoutBox)
        requires
            old(self).wf(),
        ensures
            final(self).wf(),
            (r, final(self)@) == added(old(self)@, style, order),
    {
        let len: usize = self.boxes.len();
        if len >= MAX_BOXES {
            return LayoutBox(0);
        }
        let ghost pre = *self;
        let key: u64 = match engine_add(&mut self.taffy, &style) {
            Ok(k) => k,
            Err(_) => 0,
        };
        self.boxes.push(BoxRecord { key, order, style, kids: Vec::new() });
        proof {
            assert forall|i: int| 0 <= i < len implies self.boxes@[i] == pre.boxes@[i] by {}
            assert(self.boxes@[len as int].key == key);
            assert forall|i: int| 0 <= i < len implies (#[trigger] self.boxes@[i]).key != key by {
                assert(engine_nodes(pre.taffy).contains(pre.boxes@[i].key));
            }
            assert forall|k: u64| #[trigger] engine_nodes(self.taffy).contains(k) implies 0
                <= self.index_of(k) < self.boxes@.len() && self.boxes@[self.index_of(k)].key == k by {
                if k == key {
                    assert(self.boxes@[len as int].key == k);
                } else {
                    assert(engine_nodes(pre.taffy).contains(k));
                    let a = pre.index_of(k);
                    assert(self.boxes@[a].key == k);
                }
            }
            assert(self.keyed()) by {
                assert forall|i: int, j: int| 0 <= i < j < self.boxes@.len() implies (
                #[trigger] self.boxes@[i]).key != (#[trigger] self.boxes@[j]).key by {
                    if j < len {
                        assert(pre.boxes@[i].key != pre.boxes@[j].key);
                    }
                }
            }
            assert forall|i: int| 0 <= i < self.boxes@.len() implies (#[trigger] engine_children(
                self.taffy,
            )[self.boxes@[i].key]).len() == self.boxes@[i].kids@.len() by {
                if i < len {
                    assert(engine_children(pre.taffy)[pre.boxes@[i].key].len()
                        == pre.boxes@[i].kids@.len());
                }
            }
            assert forall|i: int, j: int|
                0 <= i < self.boxes@.len() && 0 <= j < self.boxes@[i].kids@.len() implies (
            #[trigger] self.boxes@[i].kids@[j]).0 < self.boxes@.len()
                && self.boxes@[self.boxes@[i].kids@[j].0 as int].order < self.boxes@[i].order
                && engine_children(self.taffy)[self.boxes@[i].key][j]
                == self.boxes@[self.boxes@[i].kids@[j].0 as int].key by {
                assert(i < len);
                let h = pre.boxes@[i].kids@[j];
                assert(h.0 < len);
                assert(self.boxes@[h.0 as int] == pre.boxes@[h.0 as int]);
            }
            assert forall|i: int| 0 <= i < self.boxes@.len() implies engine_styles(self.taffy)[(
            #[trigger] self.boxes@[i]).key] == self.boxes@[i].style by {
                if i < len {
                    assert(engine_styles(pre.taffy)[pre.boxes@[i].key] == pre.boxes@[i].style);
                }
            }
            assert forall|k: u64| #[trigger]
                engine_parents(self.taffy).dom().contains(k) implies engine_nodes(self.taffy).contains(
                k,
            ) && engine_nodes(self.taffy).contains(engine_parents(self.taffy)[k]) && self.order_of(k)
                < self.order_of(engine_parents(self.taffy)[k]) by {
                let p = engine_parents(pre.taffy)[k];
                assert(engine_nodes(pre.taffy).contains(k));
                assert(engine_nodes(pre.taffy).contains(p));
                assert(pre.order_of(k) < pre.order_of(p));
                pre.lemma_index(pre.index_of(k));
                pre.lemma_index(pre.index_of(p));
                self.lemma_index(pre.index_of(k));
                self.lemma_index(pre.index_of(p));
            }
            assert(self.mirrors());
            let want = added(old(self)@, style, order).1;
            assert(self@.len() == want.len());
            assert forall|a: int| 0 <= a < self@.len() implies self@[a] == want[a] by {
                if a < len {
                    assert(self.boxes@[a] == pre.boxes@[a]);
                } else {
                    assert(self@[a].kids =~= Seq::empty());
                }
            }
            assert(self@ =~= want);
            assert(boxes_wf(self@)) by {
                assert(self@[0] == old(self)@[0]);
                assert forall|a: int, j: int|
                    0 <= a < self@.len() && 0 <= j < self@[a].kids.len() implies is_below(
                    self@,
                    #[trigger] self@[a].kids[j],
                    self@[a].order,
                ) by {
                    let h = self.boxes@[a].kids@[j];
                    assert(h.0 < self.boxes@.len());
                }
            }
        }
        LayoutBox(len)
    }

    /// Gives the box `b` the style `style` and the kids `kids`, in place:
    /// the handle names the same box as before, and no box is added. Kids
    /// that are not of lower order than `b` are left out. Returns whether
    /// the box was changed; the empty box and a handle that names no box
    /// are not, and nothing changes then.
    pub fn update(&mut self, b: LayoutBox, style: BoxStyle, kids: &Vec<LayoutBox>) -> (done: bool)
        requires
            old(self).wf(),
        ensures
            final(self).wf(),
            done == can_update(old(self)@, b),
            final(self)@ == updated(old(self)@, b, style, kids@),
    {
        let len: usize = self.boxes.len();
        if b.0 == 0 || b.0 >= len {
            return false;
        }
        let own: u64 = self.boxes[b.0].order;
        let n: usize = kids.len();
        let mut valid: Vec<LayoutBox> = Vec::new();
        let mut keys: Vec<u64> = Vec::new();
        let mut i: usize = 0;
        while i < n
            invariant
                i <= n,
                n == kids@.len(),
                len == self.boxes@.len(),
                b.0 < len,
                own == self.boxes@[b.0 as int].order,
                valid@ == valid_kids(self@, kids@, own, i as nat),
                keys@.len() == valid@.len(),
                forall|j: int|
                    0 <= j < valid@.len() ==> (#[trigger] valid@[j]).0 < len
                        && self.boxes@[valid@[j].0 as int].order < own && keys@[j]
                        == self.boxes@[valid@[j].0 as int].key,
            decreases n - i,
        {
            let kid: LayoutBox = kids[i];
            if kid.0 < len && self.boxes[kid.0].order < own {
                valid.push(kid);
                keys.push(self.boxes[kid.0].key);
            }
            i += 1;
        }
        let ghost pre = *self;
        let key: u64 = self.boxes[b.0].key;
        proof {
            pre.lemma_rooted();
        }
        let _ = engine_set_style(&mut self.taffy, key, &style);
        proof {
            pre.lemma_reparented(b, valid@, keys@);
        }
        let _ = engine_set_children(&mut self.taffy, key, &keys);
        self.boxes.set(b.0, BoxRecord { key, order: own, style, kids: valid });
        proof {
            pre.lemma_updated(*self, b, style, valid@, keys@);
            let want = updated(old(self)@, b, style, kids@);
            assert(self@.len() == want.len());
            assert forall|a: int| 0 <= a < self@.len() implies self@[a] == want[a] by {
                if a != b.0 {
                    assert(self.boxes@[a] == pre.boxes@[a]);
                }
            }
            assert(self@ =~= want);
            lemma_valid_kids(old(self)@, kids@, own, n as nat);
            assert(boxes_wf(self@)) by {
                assert(self@[0] == old(self)@[0]);
                assert forall|a: int, j: int|
                    0 <= a < self@.len() && 0 <= j < self@[a].kids.len() implies is_below(
                    self@,
                    #[trigger] self@[a].kids[j],
                    self@[a].order,
                ) by {
                    if a != b.0 {
                        assert(is_below(old(self)@, old(self)@[a].kids[j], old(self)@[a].order));
                    } else {
                        assert(is_below(old(self)@, valid@[j], own));
                    }
                    let h = self@[a].kids[j];
                    assert(self@[h.0 as int].order == old(self)@[h.0 as int].order);
                }
            }
        }
        true
    }

    /// The engine may be told the new kids of the box `b`: every box has a
    /// parent of higher order, also when the kids `valid`, with the keys
    /// `keys`, have the parent `b`.
    proof fn lemma_reparented(&self, b: LayoutBox, valid: Seq<LayoutBox>, keys: Seq<u64>)
        requires
            self.mirrors(),
            b.0 < self.boxes@.len(),
            keys.len() == valid.len(),
            forall|j: int|
                0 <= j < valid.len() ==> (#[trigger] valid[j]).0 < self.boxes@.len()
                    && self.boxes@[valid[j].0 as int].order < self.boxes@[b.0 as int].order
                    && keys[j] == self.boxes@[valid[j].0 as int].key,
        ensures
            forall|j: int| 0 <= j < keys.len() ==> engine_nodes(self.taffy).contains(#[trigger] keys[j]),
            forall|i: int|
                0 <= i < engine_children(self.taffy)[self.boxes@[b.0 as int].key].len()
                    ==> engine_nodes(self.taffy).contains(
                    #[trigger] engine_children(self.taffy)[self.boxes@[b.0 as int].key][i],
                ),
            ranks_ascend(
                reparented(
                    engine_parents(self.taffy),
                    engine_children(self.taffy)[self.boxes@[b.0 as int].key],
                    keys,
                    self.boxes@[b.0 as int].key,
                ),
                engine_nodes(self.taffy),
                highest_order(),
                self.ranks(),
            ),
            rooted(
                reparented(
                    engine_parents(self.taffy),
                    engine_children(self.taffy)[self.boxes@[b.0 as int].key],
                    keys,
                    self.boxes@[b.0 as int].key,
                ),
                engine_nodes(self.taffy),
                highest_order(),
            ),
    {
        let key = self.boxes@[b.0 as int].key;
        let gone = engine_children(self.taffy)[key];
        let next = reparented(engine_parents(self.taffy), gone, keys, key);
        let rank = self.ranks();
        assert forall|j: int| 0 <= j < keys.len() implies engine_nodes(self.taffy).contains(
            #[trigger] keys[j],
        ) by {
            assert(engine_nodes(self.taffy).contains(self.boxes@[valid[j].0 as int].key));
        }
        assert forall|i: int| 0 <= i < gone.len() implies engine_nodes(self.taffy).contains(
            #[trigger] gone[i],
        ) by {
            assert(gone.len() == self.boxes@[b.0 as int].kids@.len());
            let h = self.boxes@[b.0 as int].kids@[i];
            assert(h.0 < self.boxes@.len());
            assert(engine_nodes(self.taffy).contains(self.boxes@[h.0 as int].key));
        }
        self.lemma_order(b.0 as int);
        assert forall|k: u64| #[trigger] next.dom().contains(k) implies engine_nodes(
            self.taffy,
        ).contains(next[k]) && rank[k] < rank[next[k]] && rank[next[k]] <= highest_order() by {
            if keys.contains(k) {
                let j = choose|j: int| 0 <= j < keys.len() && keys[j] == k;
                assert(valid[j].0 < self.boxes@.len());
                self.lemma_order(valid[j].0 as int);
                assert(engine_nodes(self.taffy).contains(key));
            } else {
                assert(engine_parents(self.taffy).dom().contains(k));
                assert(engine_nodes(self.taffy).contains(engine_parents(self.taffy)[k]));
                assert(self.order_of(k) < self.order_of(engine_parents(self.taffy)[k]));
            }
        }
        assert(ranks_ascend(next, engine_nodes(self.taffy), highest_order(), rank));
    }

    /// The records mirror the engine again after the box `b` has been
    /// changed in both.
    proof fn lemma_updated(
        &self,
        after: LayoutEngine,
        b: LayoutBox,
        style: BoxStyle,
        valid: Seq<LayoutBox>,
        keys: Seq<u64>,
    )
        requires
            self.mirrors(),
            0 < b.0 < self.boxes@.len(),
            keys.len() == valid.len(),
            forall|j: int|
                0 <= j < valid.len() ==> (#[trigger] valid[j]).0 < self.boxes@.len()
                    && self.boxes@[valid[j].0 as int].order < self.boxes@[b.0 as int].order
                    && keys[j] == self.boxes@[valid[j].0 as int].key,
            after.boxes@.len() == self.boxes@.len(),
            forall|i: int|
                0 <= i < self.boxes@.len() && i != b.0 ==> (#[trigger] after.boxes@[i])
                    == self.boxes@[i],
            after.boxes@[b.0 as int].key == self.boxes@[b.0 as int].key,
            after.boxes@[b.0 as int].order == self.boxes@[b.0 as int].order,
            after.boxes@[b.0 as int].style == style,
            after.boxes@[b.0 as int].kids@ == valid,
            engine_count(after.taffy) == engine_count(self.taffy),
            engine_children(after.taffy) == engine_children(self.taffy).insert(
                self.boxes@[b.0 as int].key,
                keys,
            ),
            engine_parents(after.taffy) == reparented(
                engine_parents(self.taffy),
                engine_children(self.taffy)[self.boxes@[b.0 as int].key],
                keys,
                self.boxes@[b.0 as int].key,
            ),
            engine_styles(after.taffy) == engine_styles(self.taffy).insert(
                self.boxes@[b.0 as int].key,
                style,
            ),
            engine_frames(after.taffy) == engine_frames(self.taffy),
        ensures
            after.mirrors(),
    {
        let key = self.boxes@[b.0 as int].key;
        assert forall|i: int| 0 <= i < self.boxes@.len() implies (#[trigger] after.boxes@[i]).key
            == self.boxes@[i].key && after.boxes@[i].order == self.boxes@[i].order by {}
        assert forall|k: u64| engine_nodes(self.taffy).contains(k) implies after.index_of(k)
            == self.index_of(k) && 0 <= self.index_of(k) < self.boxes@.len() && after.order_of(k)
            == self.order_of(k) by {
            let a = self.index_of(k);
            assert(after.boxes@[a].key == k);
            let c = after.index_of(k);
            assert(after.boxes@[c].key == self.boxes@[c].key);
            self.lemma_index(c);
        }
        assert(engine_nodes(after.taffy) =~= engine_nodes(self.taffy)) by {
            assert(engine_nodes(self.taffy).contains(key));
        }
        assert(after.keyed()) by {
            assert forall|i: int, j: int| 0 <= i < j < after.boxes@.len() implies (
            #[trigger] after.boxes@[i]).key != (#[trigger] after.boxes@[j]).key by {
                assert(self.boxes@[i].key != self.boxes@[j].key);
            }
            assert forall|i: int| 0 <= i < after.boxes@.len() implies engine_nodes(
                after.taffy,
            ).contains((#[trigger] after.boxes@[i]).key) by {
                assert(engine_nodes(self.taffy).contains(self.boxes@[i].key));
            }
        }
        assert forall|i: int| 0 <= i < after.boxes@.len() implies (#[trigger] engine_children(
            after.taffy,
        )[after.boxes@[i].key]).len() == after.boxes@[i].kids@.len() by {
            if i != b.0 {
                if i < b.0 {
                    assert(self.boxes@[i].key != self.boxes@[b.0 as int].key);
                } else {
                    assert(self.boxes@[b.0 as int].key != self.boxes@[i].key);
                }
                assert(engine_children(self.taffy)[self.boxes@[i].key].len()
                    == self.boxes@[i].kids@.len());
            }
        }
        assert forall|i: int, j: int|
            0 <= i < after.boxes@.len() && 0 <= j < after.boxes@[i].kids@.len() implies (
        #[trigger] after.boxes@[i].kids@[j]).0 < after.boxes@.len()
            && after.boxes@[after.boxes@[i].kids@[j].0 as int].order < after.boxes@[i].order
            && engine_children(after.taffy)[after.boxes@[i].key][j]
            == after.boxes@[after.boxes@[i].kids@[j].0 as int].key by {
            if i != b.0 {
                if i < b.0 {
                    assert(self.boxes@[i].key != self.boxes@[b.0 as int].key);
                } else {
                    assert(self.boxes@[b.0 as int].key != self.boxes@[i].key);
                }
                let h = self.boxes@[i].kids@[j];
                assert(h.0 < self.boxes@.len());
                assert(after.boxes@[h.0 as int].key == self.boxes@[h.0 as int].key);
            } else {
                let h = valid[j];
                assert(h.0 < self.boxes@.len());
                assert(after.boxes@[h.0 as int].key == self.boxes@[h.0 as int].key);
            }
        }
        assert forall|i: int| 0 <= i < after.boxes@.len() implies engine_styles(after.taffy)[(
        #[trigger] after.boxes@[i]).key] == after.boxes@[i].style by {
            if i != b.0 {
                if i < b.0 {
                    assert(self.boxes@[i].key != self.boxes@[b.0 as int].key);
                } else {
                    assert(self.boxes@[b.0 as int].key != self.boxes@[i].key);
                }
                assert(engine_styles(self.taffy)[self.boxes@[i].key] == self.boxes@[i].style);
            }
        }
        self.lemma_reparented(b, valid, keys);
        let rank = self.ranks();
        let next = engine_parents(after.taffy);
        assert forall|k: u64| #[trigger] next.dom().contains(k) implies engine_nodes(
            after.taffy,
        ).contains(k) && engine_nodes(after.taffy).contains(next[k]) && after.order_of(k)
            < after.order_of(next[k]) by {
            assert(rank[k] < rank[next[k]]);
            if keys.contains(k) {
                let j = choose|j: int| 0 <= j < keys.len() && keys[j] == k;
                assert(engine_nodes(self.taffy).contains(keys[j]));
            } else {
                assert(engine_parents(self.taffy).dom().contains(k));
            }
        }
    }

    /// Has the engine size and place the box `root` and all that it
    /// contains, within the width and height given (`None` for as much as
    /// the content wants). Afterwards the frames are the engine's
    /// [`solution`](Self::solution); nothing else about the boxes has
    /// changed. Returns whether the engine did so: it does not where `root`
    /// is no box, and then nothing has changed.
    pub fn solve(&mut self, root: LayoutBox, width: Option<u16>, height: Option<u16>) -> (solved: bool)
        requires
            old(self).wf(),
        ensures
            final(self).wf(),
            same_boxes(old(self)@, final(self)@),
            solved == (root.0 < old(self)@.len()),
            !solved ==> final(self)@ == old(self)@,
            solved ==> forall|i: int|
                0 <= i < old(self)@.len() ==> (#[trigger] final(self)@[i]).frame == old(self).solution(
                    root,
                    width,
                    height,
                )[i],
    {
        if root.0 >= self.boxes.len() {
            return false;
        }
        proof {
            self.lemma_acyclic();
        }
        let ghost pre = *self;
        let key: u64 = self.boxes[root.0].key;
        let _ = engine_solve(&mut self.taffy, key, width, height);
        proof {
            assert forall|k: u64| engine_nodes(pre.taffy).contains(k) implies self.index_of(k)
                == pre.index_of(k) && self.order_of(k) == pre.order_of(k) by {}
            assert forall|k: u64| #[trigger]
                engine_parents(self.taffy).dom().contains(k) implies self.order_of(k)
                < self.order_of(engine_parents(self.taffy)[k]) by {
                assert(pre.order_of(k) < pre.order_of(engine_parents(pre.taffy)[k]));
                assert(engine_nodes(pre.taffy).contains(k));
                assert(engine_nodes(pre.taffy).contains(engine_parents(pre.taffy)[k]));
            }
            assert(self.mirrors());
            assert(boxes_wf(self@)) by {
                assert(self@[0].style == old(self)@[0].style);
                assert(self@[0].kids == old(self)@[0].kids);
                assert forall|a: int, j: int|
                    0 <= a < self@.len() && 0 <= j < self@[a].kids.len() implies is_below(
                    self@,
                    #[trigger] self@[a].kids[j],
                    self@[a].order,
                ) by {
                    let h = self.boxes@[a].kids@[j];
                    assert(h.0 < self.boxes@.len());
                }
            }
        }
        true
    }

    /// The frame of the box `b`, or `None` where `b` is no box.
    pub fn frame(&self, b: LayoutBox) -> (r: Option<BoxFrame>)
        requires
            self.wf(),
        ensures
            r == (if b.0 < self@.len() {
                Some(self@[b.0 as int].frame)
            } else {
                None
            }),
    {
        if b.0 >= self.boxes.len() {
            return None;
        }
        match engine_frame(&self.taffy, self.boxes[b.0].key) {
            Ok(f) => Some(f),
            Err(_) => None,
        }
    }
}

} // verus!
