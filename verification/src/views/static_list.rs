//! A container with a fixed list of children, laid out in a column.

use vstd::prelude::*;
use crate::context::event::{event_children, lemma_handled_stops, path_of, EventModel};
use crate::context::layout::{layout_children, place_children};
use crate::context::paint::{paint_children, PaintModel};
use crate::context::style::style_children;
use crate::context::{EventCx, LayoutCx, PaintCx, StyleCx, UpdateCx};
use crate::engine::LayoutBox;
use crate::event::Event;
use crate::flags::ChangeFlags;
use crate::geometry::{bounding, lemma_bounding_prefix, Rect};
use crate::id::Id;
use crate::paint::{Appearance, PaintCommand};
use crate::state::{
    adopted, can_adopt, is_live, lemma_adopted_wf, lemma_requested, owner, owns, released,
    requested, table_wf, AppState, NodeState,
};
use crate::style::{FlexDirection, Style};
use crate::view::{models, NodeModel, Payload, ViewNode};

verus! {

/// A list of nodes that is fixed when the list is made.
pub struct StaticList {
    id: Id,
    children: Vec<Box<dyn ViewNode>>,
}

/// The style that every list brings with it: its children form a column.
pub open spec fn list_style() -> Style {
    Style { flex_direction: Some(FlexDirection::Column), ..Style::spec_new() }
}

/// The model of a list with the identifier `id` and the given children: a
/// container that draws nothing and handles nothing of its own, and takes
/// any payload without anything having to be done again.
pub open spec fn list_model(id: Id, children: Seq<NodeModel>) -> NodeModel {
    NodeModel {
        id,
        name: "StaticList"@,
        intrinsic: Some(list_style()),
        composite: true,
        children,
        content: |look: Appearance| Seq::<PaintCommand>::empty(),
        handler: |ev: Event, st: EventModel| (false, st),
        accepts: |state: Payload| true,
        reports: |state: Payload| ChangeFlags::spec_empty(),
    }
}

/// The table after `parent` has adopted the first `k` of the nodes `ms`,
/// each where it can.
pub open spec fn adopted_each(nodes: Seq<NodeState>, ms: Seq<NodeModel>, parent: Id, k: nat) -> Seq<
    NodeState,
>
    decreases k,
{
    if k == 0 || k > ms.len() {
        nodes
    } else {
        adopted(adopted_each(nodes, ms, parent, (k - 1) as nat), ms[k - 1].id, parent)
    }
}

/// The position of the first of the nodes `ms`, from `from` on, that has
/// the identifier `id`.
pub open spec fn position(ms: Seq<NodeModel>, id: Id, from: nat) -> Option<int>
    decreases ms.len() - from,
{
    if from >= ms.len() {
        None
    } else if ms[from as int].id == id {
        Some(from as int)
    } else {
        position(ms, id, from + 1)
    }
}

/// Visiting one child changes no model where the child keeps its own: the
/// models of the children are what they were.
proof fn lemma_models_kept(before: Seq<Box<dyn ViewNode>>, after: Seq<Box<dyn ViewNode>>, i: int)
    requires
        after.len() == before.len(),
        0 <= i < before.len(),
        after[i].model() == before[i].model(),
        forall|j: int| 0 <= j < before.len() && j != i ==> (#[trigger] after[j]) == before[j],
    ensures
        models(after) == models(before),
{
    assert(models(after) =~= models(before)) by {
        assert forall|j: int| 0 <= j < before.len() implies after[j].model() == before[j].model() by {
            if j != i {
                assert(after[j] == before[j]);
            }
        }
    }
}

/// A mutable reference to each element of `items`, in order. The vector
/// keeps its length, and each element ends up as whatever is done to it
/// through its reference.
fn borrow_each<T>(items: &mut Vec<T>) -> (each: Vec<&mut T>)
    ensures
        each@.len() == old(items)@.len(),
        final(items)@.len() == old(items)@.len(),
        forall|i: int| 0 <= i < each@.len() ==> *(#[trigger] each@[i]) == old(items)@[i],
        forall|i: int| 0 <= i < each@.len() ==> final(items)@[i] == *final(#[trigger] each@[i]),
{
    let ghost given: Seq<T> = items@;
    let ghost left: Seq<T> = final(items)@;
    let mut each: Vec<&mut T> = Vec::new();
    let mut open: &mut [T] = items.as_mut_slice();
    // `each` borrows the elements before `open`, which holds the others.
    while open.len() > 0
        invariant
            each@.len() + open@.len() == given.len(),
            each@.len() + final(open)@.len() == left.len(),
            forall|i: int| 0 <= i < each@.len() ==> *(#[trigger] each@[i]) == given[i],
            forall|i: int| 0 <= i < open@.len() ==> open@[i] == given[each@.len() + i],
            forall|i: int| 0 <= i < each@.len() ==> left[i] == *final(#[trigger] each@[i]),
            forall|i: int| 0 <= i < final(open)@.len() ==> left[each@.len() + i] == final(open)@[i],
        decreases open@.len(),
    {
        let ghost taken = each@;
        let ghost done = taken.len() as int;
        let whole = open;
        let ghost whole_after = final(whole)@;
        let (front, back) = whole.split_at_mut(1);
        let ghost front_after = final(front)@;
        let ghost back_after = final(back)@;
        let item = &mut front[0];
        let ghost item_after = *final(item);
        each.push(item);
        open = back;
        proof {
            assert(whole_after == front_after + back_after);
            assert(front_after.len() == 1 && front_after[0] == item_after);
            assert(whole_after[0] == item_after);
            assert(left[done + 0] == whole_after[0]);
            assert forall|i: int| 0 <= i < each@.len() implies left[i] == *final(#[trigger] each@[i]) by {
                if i < done {
                    assert(each@[i] == taken[i]);
                }
            }
            assert forall|i: int| 0 <= i < back_after.len() implies left[each@.len() + i]
                == back_after[i] by {
                assert(whole_after[1 + i] == back_after[i]);
                assert(left[done + (1 + i)] == whole_after[1 + i]);
            }
        }
    }
    each
}

/// Makes a list of the nodes `children`. The list gets a new identifier
/// and adopts each child that is live and was created before it.
pub fn static_list(app: &mut AppState, children: Vec<Box<dyn ViewNode>>) -> (list: StaticList)
    requires
        old(app).wf(),
    ensures
        final(app).wf(),
        list.items() == children@,
        list.model() == list_model(list.model().id, models(children@)),
        list.model().id.0 == old(app)@.len(),
        final(app)@ == adopted_each(
            old(app)@.push(NodeState::fresh()),
            models(children@),
            list.model().id,
            children@.len(),
        ),
{
    let id = app.create_node();
    let n: usize = children.len();
    let ghost ms = models(children@);
    let mut i: usize = 0;
    while i < n
        invariant
            i <= n,
            n == children@.len(),
            ms == models(children@),
            app.wf(),
            app@ == adopted_each(old(app)@.push(NodeState::fresh()), ms, id, i as nat),
        decreases n - i,
    {
        let child = children[i].id();
        assert(child == ms[i as int].id);
        app.adopt(child, id);
        i += 1;
    }
    StaticList { id, children }
}

impl StaticList {
    /// The children of the list, in order.
    pub closed spec fn items(&self) -> Seq<Box<dyn ViewNode>> {
        self.children@
    }

    /// The model of a list is [`list_model`] of its identifier and of the
    /// models of its children.
    pub proof fn lemma_model(&self)
        ensures
            self.model() == list_model(self.model().id, models(self.items())),
    {
    }

    /// Destroys the list: its identifier is released, and with it the
    /// identifier of every node that the list owns, directly or not.
    /// Returns whether the list was live; where it was not, the table is
    /// left as it was.
    pub fn release(self, app: &mut AppState) -> (done: bool)
        requires
            old(app).wf(),
        ensures
            final(app).wf(),
            done == is_live(old(app)@, self.model().id),
            done ==> final(app)@ == released(old(app)@, self.model().id.0 as int),
            !done ==> final(app)@ == old(app)@,
    {
        app.release(self.id)
    }

    fn position_of(&self, id: Id) -> (r: Option<usize>)
        ensures
            match r {
                Some(k) => k < self.items().len() && position(models(self.items()), id, 0) == Some(
                    k as int,
                ),
                None => position(models(self.items()), id, 0) is None,
            },
    {
        let n: usize = self.children.len();
        let ghost ms = models(self.children@);
        let mut i: usize = 0;
        while i < n
            invariant
                i <= n,
                n == self.children@.len(),
                ms == models(self.children@),
                position(ms, id, 0) == position(ms, id, i as nat),
            decreases n - i,
        {
            if self.children[i].id() == id {
                return Some(i);
            }
            i += 1;
        }
        None
    }

    /// The first child with the identifier `id`; `None` where no child has
    /// it.
    pub fn child(&self, id: Id) -> (r: Option<&Box<dyn ViewNode>>)
        ensures
            match position(models(self.items()), id, 0) {
                Some(k) => r matches Some(c) && *c == self.items()[k],
                None => r is None,
            },
    {
        match self.position_of(id) {
            Some(k) => Some(&self.children[k]),
            None => None,
        }
    }

    /// The first child with the identifier `id`, to be changed in place;
    /// `None` where no child has it.
    pub fn child_mut(&mut self, id: Id) -> (r: Option<&mut Box<dyn ViewNode>>)
        ensures
            final(self).model().id == old(self).model().id,
            final(self).items().len() == old(self).items().len(),
            match position(models(old(self).items()), id, 0) {
                Some(k) => r matches Some(c) && *c == old(self).items()[k] && final(self).items()[k]
                    == *final(c) && forall|j: int|
                    0 <= j < old(self).items().len() && j != k ==> final(self).items()[j] == old(
                        self,
                    ).items()[j],
                None => r is None && forall|j: int|
                    0 <= j < old(self).items().len() ==> final(self).items()[j] == old(
                        self,
                    ).items()[j],
            },
    {
        match self.position_of(id) {
            Some(k) => Some(self.nth_mut(k)),
            None => None,
        }
    }

    fn nth_mut(&mut self, k: usize) -> (c: &mut Box<dyn ViewNode>)
        requires
            k < old(self).items().len(),
        ensures
            *c == old(self).items()[k as int],
            final(self).items().len() == old(self).items().len(),
            final(self).items()[k as int] == *final(c),
            forall|j: int|
                0 <= j < old(self).items().len() && j != k ==> final(self).items()[j] == old(
                    self,
                ).items()[j],
            final(self).id == old(self).id,
    {
        &mut self.children[k]
    }

    /// The children, in order, each to be changed in place.
    pub fn children_mut(&mut self) -> (r: Vec<&mut Box<dyn ViewNode>>)
        ensures
            r@.len() == old(self).items().len(),
            forall|i: int| 0 <= i < r@.len() ==> *(#[trigger] r@[i]) == old(self).items()[i],
            final(self).items().len() == old(self).items().len(),
            forall|i: int| 0 <= i < r@.len() ==> final(self).items()[i] == *final(#[trigger] r@[i]),
            final(self).model().id == old(self).model().id,
    {
        borrow_each(&mut self.children)
    }

    /// The children, in order.
    pub fn children(&self) -> (r: Vec<&Box<dyn ViewNode>>)
        ensures
            r@.len() == self.items().len(),
            forall|i: int| 0 <= i < r@.len() ==> *(#[trigger] r@[i]) == self.items()[i],
    {
        let n: usize = self.children.len();
        let mut out: Vec<&Box<dyn ViewNode>> = Vec::new();
        let mut i: usize = 0;
        while i < n
            invariant
                i <= n,
                n == self.children@.len(),
                out@.len() == i,
                forall|j: int| 0 <= j < i ==> *(#[trigger] out@[j]) == self.children@[j],
            decreases n - i,
        {
            out.push(&self.children[i]);
            i += 1;
        }
        out
    }
}

impl ViewNode for StaticList {
    closed spec fn model(&self) -> NodeModel {
        list_model(self.id, models(self.children@))
    }

    fn id(&self) -> (r: Id) {
        self.id
    }

    fn view_style(&self) -> (r: Option<Style>) {
        Some(Style::new().flex_direction(FlexDirection::Column))
    }

    fn debug_name(&self) -> (r: String) {
        "StaticList".to_owned()
    }

    /// A list keeps no state of its own: whatever the payload, nothing
    /// changes and nothing has to be done again.
    fn update(&mut self, cx: &mut UpdateCx, state: Payload) -> (r: ChangeFlags)
        ensures
            r == ChangeFlags::spec_empty(),
            final(self).items() == old(self).items(),
            final(self).model() == old(self).model(),
            final(cx).app == old(cx).app,
    {
        ChangeFlags::empty()
    }

    fn style(&mut self, cx: &mut StyleCx) {
        let n: usize = self.children.len();
        let ghost ms = models(self.children@);
        let mut i: usize = 0;
        while i < n
            invariant
                i <= n,
                n == self.children@.len(),
                self.id == old(self).id,
                models(self.children@) == ms,
                ms == models(old(self).children@),
                cx.wf(),
                cx@ == style_children(ms, i as nat, old(cx)@),
            decreases n - i,
        {
            let ghost before = self.children@;
            cx.style_view(&mut *self.children[i]);
            proof {
                lemma_models_kept(before, self.children@, i as int);
            }
            i += 1;
        }
    }

    fn layout(&mut self, cx: &mut LayoutCx) -> (r: LayoutBox) {
        match cx.cached_box(self.id) {
            Some(b) => {
                return b;
            },
            None => {},
        }
        let n: usize = self.children.len();
        let ghost ms = models(self.children@);
        let mut kids: Vec<LayoutBox> = Vec::new();
        let mut i: usize = 0;
        while i < n
            invariant
                i <= n,
                n == self.children@.len(),
                self.id == old(self).id,
                models(self.children@) == ms,
                ms == models(old(self).children@),
                cx.wf(),
                (kids@, cx@) == layout_children(ms, i as nat, old(cx)@),
            decreases n - i,
        {
            let ghost before = self.children@;
            let b = cx.layout_view(&mut *self.children[i]);
            kids.push(b);
            proof {
                lemma_models_kept(before, self.children@, i as int);
            }
            i += 1;
        }
        cx.layout_node(self.id, true, kids)
    }

    fn compute_layout(&mut self, cx: &mut LayoutCx) -> (r: Option<Rect>) {
        let n: usize = self.children.len();
        let ghost ms = models(self.children@);
        let ghost mut rects: Seq<Rect> = Seq::empty();
        let mut layout_rect: Rect = Rect::zero();
        let mut i: usize = 0;
        while i < n
            invariant
                i <= n,
                n == self.children@.len(),
                self.id == old(self).id,
                models(self.children@) == ms,
                ms == models(old(self).children@),
                cx.wf(),
                rects.len() == i,
                (rects, cx@) == place_children(ms, i as nat, old(cx)@),
                layout_rect == bounding(rects, i as nat),
            decreases n - i,
        {
            let ghost before = self.children@;
            let ghost seen = rects;
            let rect = cx.compute_view_layout(&mut *self.children[i]);
            layout_rect = if i == 0 {
                rect
            } else {
                layout_rect.union(rect)
            };
            proof {
                rects = rects.push(rect);
                lemma_bounding_prefix(seen, rects, i as nat);
                lemma_models_kept(before, self.children@, i as int);
            }
            i += 1;
        }
        Some(layout_rect)
    }

    fn event(&mut self, cx: &mut EventCx, id_path: Option<&[Id]>, event: Event) -> (r: bool) {
        let n: usize = self.children.len();
        let ghost ms = models(self.children@);
        let ghost path = path_of(id_path);
        let mut i: usize = 0;
        while i < n
            invariant
                i <= n,
                n == self.children@.len(),
                self.id == old(self).id,
                models(self.children@) == ms,
                ms == models(old(self).children@),
                path == path_of(id_path),
                cx.wf(),
                (false, cx@) == event_children(ms, i as nat, path, event, old(cx)@),
            decreases n - i,
        {
            let ghost before = self.children@;
            let handled = cx.view_event(&mut *self.children[i], id_path, event);
            proof {
                lemma_models_kept(before, self.children@, i as int);
            }
            if handled {
                proof {
                    lemma_handled_stops(ms, (i + 1) as nat, n as nat, path, event, old(cx)@);
                }
                return true;
            }
            i += 1;
        }
        false
    }

    fn paint(&mut self, cx: &mut PaintCx) {
        let n: usize = self.children.len();
        let ghost ms = models(self.children@);
        let ghost start = PaintModel {
            nodes: old(cx)@.nodes,
            commands: old(cx)@.commands + Seq::<PaintCommand>::empty(),
        };
        proof {
            assert(start.commands =~= old(cx)@.commands);
        }
        let mut i: usize = 0;
        while i < n
            invariant
                i <= n,
                n == self.children@.len(),
                self.id == old(self).id,
                models(self.children@) == ms,
                ms == models(old(self).children@),
                cx.wf(),
                cx@ == paint_children(ms, i as nat, start),
            decreases n - i,
        {
            let ghost before = self.children@;
            cx.paint_view(&mut *self.children[i]);
            proof {
                lemma_models_kept(before, self.children@, i as int);
            }
            i += 1;
        }
    }
}

/// One of the first `k` of the nodes `ms` has the identifier of entry `x`.
pub open spec fn is_among(ms: Seq<NodeModel>, k: nat, x: int) -> bool {
    exists|j: int| 0 <= j < k && j < ms.len() && (#[trigger] ms[j]).id.0 == x
}

/// What adoption by a new node changes. Where `parent` has no owner and
/// each of the nodes `ms` is live and older than `parent`, adopting the
/// first `k` of them makes `parent` their owner and hands what they ask for
/// on to `parent`; nothing else in the table changes.
pub proof fn lemma_adopted_each(nodes: Seq<NodeState>, ms: Seq<NodeModel>, parent: Id, k: nat)
    requires
        table_wf(nodes),
        k <= ms.len(),
        is_live(nodes, parent),
        nodes[parent.0 as int].parent is None,
        forall|j: int|
            0 <= j < ms.len() ==> is_live(nodes, (#[trigger] ms[j]).id) && ms[j].id.0 < parent.0,
    ensures
        ({
            let after = adopted_each(nodes, ms, parent, k);
            &&& table_wf(after)
            &&& after.len() == nodes.len()
            &&& forall|x: int|
                0 <= x < nodes.len() ==> (#[trigger] after[x]).alive == nodes[x].alive && after[x].parent
                    == (if is_among(ms, k, x) {
                    Some(parent)
                } else {
                    nodes[x].parent
                })
            &&& forall|x: int|
                0 <= x < nodes.len() && x != parent.0 ==> (#[trigger] after[x]).flags == nodes[x].flags
            &&& nodes[parent.0 as int].flags.style ==> after[parent.0 as int].flags.style
            &&& nodes[parent.0 as int].flags.layout ==> after[parent.0 as int].flags.layout
        }),
    decreases k,
{
    if k > 0 {
        lemma_adopted_each(nodes, ms, parent, (k - 1) as nat);
        let before = adopted_each(nodes, ms, parent, (k - 1) as nat);
        let child = ms[k - 1].id;
        let after = adopted_each(nodes, ms, parent, k);
        assert(can_adopt(before, child, parent));
        lemma_adopted_wf(before, child, parent);
        assert(!is_among(ms, (k - 1) as nat, parent.0 as int)) by {
            if is_among(ms, (k - 1) as nat, parent.0 as int) {
                let j = choose|j: int|
                    0 <= j < k - 1 && j < ms.len() && (#[trigger] ms[j]).id.0 == parent.0 as int;
                assert(ms[j].id.0 < parent.0);
            }
        }
        assert(owner(before, parent.0 as int) is None);
        let asked = requested(before, parent.0 as int, before[child.0 as int].flags);
        lemma_requested(before, parent.0 as int, before[child.0 as int].flags);
        assert forall|x: int| 0 <= x < nodes.len() implies owns(before, x, parent.0 as int) == (x
            == parent.0) by {}
        assert forall|x: int| 0 <= x < nodes.len() implies (#[trigger] after[x]).alive
            == nodes[x].alive && after[x].parent == (if is_among(ms, k, x) {
            Some(parent)
        } else {
            nodes[x].parent
        }) by {
            assert(before[x].alive == nodes[x].alive);
            assert(asked[x].alive == before[x].alive && asked[x].parent == before[x].parent);
            if x == child.0 {
                assert(ms[k - 1].id.0 == x);
            } else {
                assert(after[x] == asked[x]);
                if is_among(ms, k, x) {
                    let j = choose|j: int| 0 <= j < k && j < ms.len() && (#[trigger] ms[j]).id.0 == x;
                    assert(j < k - 1);
                    assert(is_among(ms, (k - 1) as nat, x));
                }
                if is_among(ms, (k - 1) as nat, x) {
                    let j = choose|j: int|
                        0 <= j < k - 1 && j < ms.len() && (#[trigger] ms[j]).id.0 == x;
                    assert(ms[j].id.0 == x);
                }
            }
        }
        assert forall|x: int| 0 <= x < nodes.len() && x != parent.0 implies (#[trigger] after[x]).flags
            == nodes[x].flags by {
            assert(before[x].flags == nodes[x].flags);
            assert(asked[x] == before[x]);
        }
        assert(after[parent.0 as int] == asked[parent.0 as int]);
    }
}

/// What a lookup by identifier finds: the first of the nodes with that
/// identifier, and nothing where none of them has it.
pub proof fn lemma_position(ms: Seq<NodeModel>, id: Id, from: nat)
    ensures
        match position(ms, id, from) {
            Some(k) => from <= k < ms.len() && ms[k].id == id && forall|j: int|
                from <= j < k ==> (#[trigger] ms[j]).id != id,
            None => forall|j: int| from <= j < ms.len() ==> (#[trigger] ms[j]).id != id,
        },
    decreases ms.len() - from,
{
    if from < ms.len() && ms[from as int].id != id {
        lemma_position(ms, id, from + 1);
    }
}

/// Identifiers isolate. Take a list whose children exist already, and
/// create two more nodes beside it: they get different identifiers, and the
/// list has no child under either. Release the second and create another
/// node: it gets neither identifier, the released identifier names no live
/// node, and the list still has no child under it, nor under the new one.
pub proof fn lemma_ids_isolate(nodes: Seq<NodeState>, ms: Seq<NodeModel>)
    requires
        table_wf(nodes),
        nodes.len() + 3 <= u64::MAX,
        forall|k: int| 0 <= k < ms.len() ==> (#[trigger] ms[k]).id.0 < nodes.len(),
    ensures
        ({
            let first = Id(nodes.len() as u64);
            let second = Id((nodes.len() + 1) as u64);
            let two = nodes.push(NodeState::fresh()).push(NodeState::fresh());
            let third = Id((nodes.len() + 2) as u64);
            let three = released(two, second.0 as int).push(NodeState::fresh());
            &&& first != second
            &&& third != first
            &&& third != second
            &&& position(ms, first, 0) is None
            &&& position(ms, second, 0) is None
            &&& position(ms, third, 0) is None
            &&& !is_live(three, second)
            &&& is_live(three, first)
            &&& is_live(three, third)
        }),
{
    let first = Id(nodes.len() as u64);
    let second = Id((nodes.len() + 1) as u64);
    let third = Id((nodes.len() + 2) as u64);
    lemma_position(ms, first, 0);
    lemma_position(ms, second, 0);
    lemma_position(ms, third, 0);
    let two = nodes.push(NodeState::fresh()).push(NodeState::fresh());
    assert(owns(two, second.0 as int, second.0 as int));
    assert(owner(two, first.0 as int) is None);
    assert(!owns(two, second.0 as int, first.0 as int));
}

} // verus!
