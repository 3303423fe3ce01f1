//! Reactive signals: mutable cells that remember which computations read
//! them, and a queue of the computations that have to run again.
//!
//! The store decides what is out of date; it never runs a computation
//! itself. Whoever drives the tree takes the queue with [`SignalStore::drain`]
//! and evaluates each computation between [`SignalStore::begin`] and
//! [`SignalStore::end`].

use vstd::prelude::*;

verus! {

/// The capability to read one signal.
#[derive(Clone, Copy, PartialEq, Eq, Structural, Debug)]
pub struct ReadSignal {
    pub index: usize,
}

/// The capability to write one signal.
#[derive(Clone, Copy, PartialEq, Eq, Structural, Debug)]
pub struct WriteSignal {
    pub index: usize,
}

/// A tracked evaluation: something that reads signals and has to be
/// evaluated again when one of them is written.
#[derive(Clone, Copy, PartialEq, Eq, Structural, Debug)]
pub struct Computation(pub usize);

/// What a signal store holds.
pub struct SignalModel {
    /// The current value of each signal.
    pub values: Seq<i64>,
    /// `reads[s][c]`: computation `c` read signal `s` when it was last
    /// evaluated.
    pub reads: Seq<Seq<bool>>,
    /// The number of computations.
    pub computations: nat,
    /// The computations that are out of date, in the order in which they
    /// became so.
    pub pending: Seq<usize>,
    /// The evaluation in progress.
    pub running: Option<usize>,
    /// How many times each computation has been evaluated, for as long as
    /// the number fits.
    pub evaluations: Seq<u64>,
}

/// The count of evaluations after one more.
pub open spec fn counted(n: u64) -> u64 {
    if n < u64::MAX {
        (n + 1) as u64
    } else {
        n
    }
}

/// `pending` after each of the first `k` computations that `row` marks as a
/// reader has been appended, unless it was in the queue already.
pub open spec fn enqueue_readers(pending: Seq<usize>, row: Seq<bool>, k: nat) -> Seq<usize>
    decreases k,
{
    if k == 0 || k > row.len() || k > usize::MAX {
        pending
    } else {
        let before = enqueue_readers(pending, row, (k - 1) as nat);
        let c = (k - 1) as usize;
        if row[k - 1] && !before.contains(c) {
            before.push(c)
        } else {
            before
        }
    }
}

impl SignalModel {
    pub open spec fn wf(self) -> bool {
        &&& self.computations <= usize::MAX
        &&& self.reads.len() == self.values.len()
        &&& forall|s: int| 0 <= s < self.reads.len() ==> (#[trigger] self.reads[s]).len() == self.computations
        &&& self.pending.no_duplicates()
        &&& forall|i: int| 0 <= i < self.pending.len() ==> (#[trigger] self.pending[i]) < self.computations
        &&& self.running matches Some(c) ==> c < self.computations
        &&& self.evaluations.len() == self.computations
    }

    pub open spec fn empty() -> SignalModel {
        SignalModel {
            values: Seq::empty(),
            reads: Seq::empty(),
            computations: 0,
            pending: Seq::empty(),
            running: None,
            evaluations: Seq::empty(),
        }
    }

    /// A new signal, which nothing has read yet.
    pub open spec fn with_signal(self, initial: i64) -> SignalModel {
        SignalModel {
            values: self.values.push(initial),
            reads: self.reads.push(Seq::new(self.computations, |c: int| false)),
            ..self
        }
    }

    /// A new computation, which has read nothing yet and was never
    /// evaluated.
    pub open spec fn with_computation(self) -> SignalModel {
        SignalModel {
            reads: Seq::new(self.reads.len(), |s: int| self.reads[s].push(false)),
            computations: self.computations + 1,
            evaluations: self.evaluations.push(0),
            ..self
        }
    }

    /// Whether an evaluation of `c` can begin: `c` exists and nothing else
    /// is being evaluated.
    pub open spec fn can_begin(self, c: Computation) -> bool {
        c.0 < self.computations && self.running is None
    }

    /// The evaluation of `c` begins: what it read last time is forgotten,
    /// and the evaluation is counted.
    pub open spec fn began(self, c: Computation) -> SignalModel {
        if self.can_begin(c) {
            SignalModel {
                reads: Seq::new(self.reads.len(), |s: int| self.reads[s].update(c.0 as int, false)),
                running: Some(c.0),
                evaluations: self.evaluations.update(
                    c.0 as int,
                    counted(self.evaluations[c.0 as int]),
                ),
                ..self
            }
        } else {
            self
        }
    }

    pub open spec fn ended(self) -> SignalModel {
        SignalModel { running: None, ..self }
    }

    /// The signal `s` is read: the evaluation in progress, if there is one,
    /// becomes one of its readers.
    pub open spec fn read(self, s: int) -> SignalModel {
        match self.running {
            Some(c) if 0 <= s < self.reads.len() => SignalModel {
                reads: self.reads.update(s, self.reads[s].update(c as int, true)),
                ..self
            },
            _ => self,
        }
    }

    /// The signal `s` is given the value `v`: each of its readers is put in
    /// the queue, once.
    pub open spec fn written(self, s: int, v: i64) -> SignalModel {
        if 0 <= s < self.values.len() {
            SignalModel {
                values: self.values.update(s, v),
                pending: enqueue_readers(self.pending, self.reads[s], self.computations),
                ..self
            }
        } else {
            self
        }
    }

    pub open spec fn drained(self) -> SignalModel {
        SignalModel { pending: Seq::empty(), ..self }
    }

    /// The store after the signal `s` has been written once for each value
    /// of `values`, in order.
    pub open spec fn written_each(self, s: int, values: Seq<i64>) -> SignalModel
        decreases values.len(),
    {
        if values.len() == 0 {
            self
        } else {
            self.written_each(s, values.drop_last()).written(s, values.last())
        }
    }
}

/// A store of signals.
pub struct SignalStore {
    values: Vec<i64>,
    reads: Vec<Vec<bool>>,
    dirty: Vec<bool>,
    queue: Vec<usize>,
    running: Option<usize>,
    runs: Vec<u64>,
}

impl View for SignalStore {
    type V = SignalModel;

    closed spec fn view(&self) -> SignalModel {
        SignalModel {
            values: self.values@,
            reads: Seq::new(self.reads@.len(), |s: int| self.reads@[s]@),
            computations: self.dirty@.len(),
            pending: self.queue@,
            running: self.running,
            evaluations: self.runs@,
        }
    }
}

impl SignalStore {
    /// The mark of each computation says whether it is in the queue.
    pub closed spec fn marks_agree(&self) -> bool {
        forall|c: usize| c < self.dirty@.len() ==> (#[trigger] self.dirty@[c as int]) == self.queue@.contains(c)
    }

    pub open spec fn wf(&self) -> bool {
        self@.wf() && self.marks_agree()
    }

    /// A store without signals or computations.
    pub fn new() -> (r: SignalStore)
        ensures
            r.wf(),
            r@ == SignalModel::empty(),
    {
        let r = SignalStore {
            values: Vec::new(),
            reads: Vec::new(),
            dirty: Vec::new(),
            queue: Vec::new(),
            running: None,
            runs: Vec::new(),
        };
        assert(r@.reads =~= Seq::empty());
        r
    }

    /// Registers a computation. It has read nothing yet and is not out of
    /// date.
    pub fn create_computation(&mut self) -> (c: Computation)
        requires
            old(self).wf(),
        ensures
            final(self).wf(),
            final(self)@ == old(self)@.with_computation(),
            c.0 == old(self)@.computations,
    {
        let n: usize = self.dirty.len();
        let rows: usize = self.reads.len();
        let mut s: usize = 0;
        proof {
            assert forall|t: int| 0 <= t < rows implies (#[trigger] self.reads@[t])@.len() == n by {
                assert(self@.reads[t] == self.reads@[t]@);
            }
        }
        while s < rows
            invariant
                s <= rows,
                rows == self.reads@.len(),
                rows == old(self).reads@.len(),
                self.values == old(self).values,
                self.dirty == old(self).dirty,
                self.queue == old(self).queue,
                self.running == old(self).running,
                self.runs == old(self).runs,
                n == self.dirty@.len(),
                forall|t: int| 0 <= t < rows ==> (#[trigger] old(self).reads@[t])@.len() == n,
                forall|t: int| 0 <= t < s ==> (#[trigger] self.reads@[t])@ == old(self).reads@[t]@.push(false),
                forall|t: int| s <= t < rows ==> (#[trigger] self.reads@[t]) == old(self).reads@[t],
            decreases rows - s,
        {
            self.reads[s].push(false);
            s += 1;
        }
        self.dirty.push(false);
        self.runs.push(0);
        proof {
            assert(self.dirty@.len() == self.dirty.len());
            assert(self@.reads =~= old(self)@.with_computation().reads);
            assert forall|c: usize| c < self.dirty@.len() implies (#[trigger] self.dirty@[c as int])
                == self.queue@.contains(c) by {
                if c < n {
                    assert(self.dirty@[c as int] == old(self).dirty@[c as int]);
                } else {
                    if self.queue@.contains(c) {
                        let i = choose|i: int| 0 <= i < self.queue@.len() && self.queue@[i] == c;
                        assert(old(self)@.pending[i] < n);
                    }
                }
            }
        }
        Computation(n)
    }

    /// Begins an evaluation of `c`: what `c` read at its last evaluation is
    /// forgotten, and every read up to [`end`](Self::end) is recorded as its
    /// own. Returns whether the evaluation began; it does not where `c` is
    /// unknown to the store or another evaluation is in progress, and the
    /// store is then left as it was.
    pub fn begin(&mut self, c: Computation) -> (began: bool)
        requires
            old(self).wf(),
        ensures
            final(self).wf(),
            began == old(self)@.can_begin(c),
            final(self)@ == old(self)@.began(c),
    {
        if c.0 >= self.dirty.len() || self.running.is_some() {
            return false;
        }
        let rows: usize = self.reads.len();
        let mut s: usize = 0;
        proof {
            assert forall|t: int| 0 <= t < rows implies (#[trigger] self.reads@[t])@.len()
                == self.dirty@.len() by {
                assert(self@.reads[t] == self.reads@[t]@);
            }
        }
        while s < rows
            invariant
                s <= rows,
                rows == self.reads@.len(),
                rows == old(self).reads@.len(),
                self.values == old(self).values,
                self.dirty == old(self).dirty,
                self.queue == old(self).queue,
                self.running == old(self).running,
                self.runs == old(self).runs,
                c.0 < self.dirty@.len(),
                forall|t: int| 0 <= t < rows ==> (#[trigger] old(self).reads@[t])@.len() == self.dirty@.len(),
                forall|t: int| 0 <= t < s ==> (#[trigger] self.reads@[t])@ == old(self).reads@[t]@.update(c.0 as int, false),
                forall|t: int| s <= t < rows ==> (#[trigger] self.reads@[t]) == old(self).reads@[t],
            decreases rows - s,
        {
            self.reads[s].set(c.0, false);
            s += 1;
        }
        self.running = Some(c.0);
        let so_far: u64 = self.runs[c.0];
        let now: u64 = if so_far < u64::MAX {
            so_far + 1
        } else {
            so_far
        };
        self.runs.set(c.0, now);
        proof {
            assert(self@.reads =~= old(self)@.began(c).reads);
        }
        true
    }

    /// How many times the computation `c` has been evaluated, or `None`
    /// where the store does not know `c`.
    pub fn evaluations(&self, c: Computation) -> (r: Option<u64>)
        requires
            self.wf(),
        ensures
            r == (if c.0 < self@.computations {
                Some(self@.evaluations[c.0 as int])
            } else {
                None
            }),
    {
        if c.0 >= self.runs.len() {
            return None;
        }
        Some(self.runs[c.0])
    }

    /// Ends the evaluation in progress, if there is one.
    pub fn end(&mut self)
        requires
            old(self).wf(),
        ensures
            final(self).wf(),
            final(self)@ == old(self)@.ended(),
    {
        self.running = None;
        proof {
            assert(self@.reads =~= old(self)@.reads);
        }
    }

    /// Takes the queue: the computations that are out of date, each once, in
    /// the order in which they became so. The store's queue is empty
    /// afterwards.
    pub fn drain(&mut self) -> (batch: Vec<Computation>)
        requires
            old(self).wf(),
        ensures
            final(self).wf(),
            final(self)@ == old(self)@.drained(),
            batch@.len() == old(self)@.pending.len(),
            forall|i: int| 0 <= i < batch@.len() ==> (#[trigger] batch@[i]).0 == old(self)@.pending[i],
            forall|i: int, j: int|
                0 <= i < j < batch@.len() ==> (#[trigger] batch@[i]) != (#[trigger] batch@[j]),
    {
        let n: usize = self.queue.len();
        let mut batch: Vec<Computation> = Vec::new();
        let mut i: usize = 0;
        proof {
            assert forall|c: usize| c < self.dirty@.len() implies (#[trigger] self.dirty@[c as int]) == (
            exists|j: int| 0 <= j < n && self.queue@[j] == c) by {
                assert(self.dirty@[c as int] == self.queue@.contains(c));
            }
        }
        while i < n
            invariant
                i <= n,
                n == self.queue@.len(),
                self.values == old(self).values,
                self.reads == old(self).reads,
                self.queue == old(self).queue,
                self.running == old(self).running,
                self.runs == old(self).runs,
                self.dirty@.len() == old(self).dirty@.len(),
                old(self).wf(),
                batch@.len() == i,
                forall|j: int| 0 <= j < i ==> (#[trigger] batch@[j]).0 == self.queue@[j],
                forall|c: usize|
                    c < self.dirty@.len() ==> (#[trigger] self.dirty@[c as int]) == (exists|j: int|
                        i <= j < n && self.queue@[j] == c),
            decreases n - i,
        {
            let c: usize = self.queue[i];
            let ghost prev = self.dirty@;
            let ghost q = self.queue@;
            proof {
                assert(q == old(self)@.pending);
                assert(old(self)@.pending[i as int] < old(self)@.computations);
            }
            self.dirty.set(c, false);
            proof {
                assert forall|d: usize| d < self.dirty@.len() implies (#[trigger] self.dirty@[d as int])
                    == (exists|j: int| i + 1 <= j < n && q[j] == d) by {
                    if d == c {
                        if exists|j: int| i + 1 <= j < n && q[j] == d {
                            let j = choose|j: int| i + 1 <= j < n && q[j] == d;
                            assert(q[j] == q[i as int]);
                            assert(false);
                        }
                    } else {
                        assert(self.dirty@[d as int] == prev[d as int]);
                        assert(prev[d as int] == (exists|j: int| i <= j < n && q[j] == d));
                        if prev[d as int] {
                            let j = choose|j: int| i <= j < n && q[j] == d;
                            assert(j != i);
                            assert(i + 1 <= j < n && q[j] == d);
                        }
                    }
                }
            }
            batch.push(Computation(c));
            i += 1;
        }
        self.queue = Vec::new();
        proof {
            assert forall|x: int, y: int| 0 <= x < y < batch@.len() implies (#[trigger] batch@[x])
                != (#[trigger] batch@[y]) by {
                assert(old(self)@.pending[x] != old(self)@.pending[y]);
            }
            assert(self@.reads =~= old(self)@.reads);
            assert(self@.pending =~= Seq::empty());
            assert forall|c: usize| c < self.dirty@.len() implies (#[trigger] self.dirty@[c as int])
                == self.queue@.contains(c) by {
            }
        }
        batch
    }

    /// Reads the signal behind `reader` and records the evaluation in
    /// progress, if there is one, as a reader of it.
    fn read(&mut self, reader: ReadSignal) -> (value: Option<i64>)
        requires
            old(self).wf(),
        ensures
            final(self).wf(),
            final(self)@ == old(self)@.read(reader.index as int),
            value == (if reader.index < old(self)@.values.len() {
                Some(old(self)@.values[reader.index as int])
            } else {
                None
            }),
    {
        let s: usize = reader.index;
        if s >= self.values.len() {
            proof {
                assert(self@.read(s as int) == self@);
            }
            return None;
        }
        match self.running {
            Some(c) => {
                assert(self@.reads[s as int].len() == self@.computations);
                self.reads[s].set(c, true);
                proof {
                    assert(self@.reads =~= old(self)@.read(s as int).reads);
                }
            },
            None => {},
        }
        Some(self.values[s])
    }

    /// Replaces the value of the signal behind `writer` by what `f` makes of
    /// it and puts every reader of the signal in the queue.
    fn write<F: FnOnce(i64) -> i64>(&mut self, writer: WriteSignal, f: F) -> (written: bool)
        requires
            old(self).wf(),
            writer.index < old(self)@.values.len() ==> call_requires(
                f,
                (old(self)@.values[writer.index as int],),
            ),
        ensures
            final(self).wf(),
            written == (writer.index < old(self)@.values.len()),
            !written ==> final(self)@ == old(self)@,
            written ==> call_ensures(
                f,
                (old(self)@.values[writer.index as int],),
                final(self)@.values[writer.index as int],
            ),
            written ==> final(self)@ == old(self)@.written(
                writer.index as int,
                final(self)@.values[writer.index as int],
            ),
    {
        let s: usize = writer.index;
        if s >= self.values.len() {
            return false;
        }
        let v: i64 = f(self.values[s]);
        self.values.set(s, v);
        let n: usize = self.dirty.len();
        let ghost row = self.reads@[s as int]@;
        let ghost start = self.queue@;
        assert(self@.reads[s as int] == row);
        let mut c: usize = 0;
        while c < n
            invariant
                c <= n,
                n == self.dirty@.len(),
                s < self.reads@.len(),
                self.reads == old(self).reads,
                self.values@ == old(self).values@.update(s as int, v),
                self.running == old(self).running,
                self.runs == old(self).runs,
                row == self.reads@[s as int]@,
                row.len() == n,
                start == old(self).queue@,
                self.queue@ == enqueue_readers(start, row, c as nat),
                self.queue@.no_duplicates(),
                forall|i: int| 0 <= i < self.queue@.len() ==> (#[trigger] self.queue@[i]) < n,
                self.marks_agree(),
            decreases n - c,
        {
            if self.reads[s][c] && !self.dirty[c] {
                proof {
                    assert(!self.queue@.contains(c));
                    let q = self.queue@;
                    assert forall|d: usize| d < n implies (#[trigger] self.dirty@.update(
                        c as int,
                        true,
                    )[d as int]) == q.push(c).contains(d) by {
                        if d == c {
                            assert(q.push(c)[q.len() as int] == c);
                        } else {
                            assert(self.dirty@[d as int] == q.contains(d));
                            if q.contains(d) {
                                let i = choose|i: int| 0 <= i < q.len() && q[i] == d;
                                assert(q.push(c)[i] == d);
                            }
                            if q.push(c).contains(d) {
                                let i = choose|i: int| 0 <= i < q.push(c).len() && q.push(c)[i] == d;
                                assert(i < q.len());
                                assert(q[i] == d);
                            }
                        }
                    }
                    assert(q.push(c).no_duplicates()) by {
                        assert forall|i: int, j: int|
                            0 <= i < q.push(c).len() && 0 <= j < q.push(c).len() && i != j implies q.push(c)[i] != q.push(c)[j] by {
                            if i < q.len() && j < q.len() {
                            } else if i < q.len() {
                                assert(q.contains(q[i]));
                            } else {
                                assert(q.contains(q[j]));
                            }
                        }
                    }
                }
                self.dirty.set(c, true);
                self.queue.push(c);
            } else {
                proof {
                    if self.reads@[s as int]@[c as int] {
                        assert(self.dirty@[c as int]);
                        assert(self.queue@.contains(c));
                    }
                }
            }
            c += 1;
        }
        proof {
            assert(self@.reads =~= old(self)@.reads);
            assert(self@.values[s as int] == v);
        }
        true
    }
}

/// Makes a signal in `store` with the value `initial`; returns the two
/// capabilities over it.
pub fn create_signal(store: &mut SignalStore, initial: i64) -> (handles: (ReadSignal, WriteSignal))
    requires
        old(store).wf(),
    ensures
        final(store).wf(),
        final(store)@ == old(store)@.with_signal(initial),
        handles.0.index == old(store)@.values.len(),
        handles.1.index == old(store)@.values.len(),
{
    let s: usize = store.values.len();
    let n: usize = store.dirty.len();
    let mut row: Vec<bool> = Vec::new();
    let mut c: usize = 0;
    while c < n
        invariant
            c <= n,
            row@.len() == c,
            forall|d: int| 0 <= d < c ==> !(#[trigger] row@[d]),
        decreases n - c,
    {
        row.push(false);
        c += 1;
    }
    store.values.push(initial);
    store.reads.push(row);
    proof {
        assert(row@ =~= Seq::new(n as nat, |c: int| false));
        assert(store@.reads =~= old(store)@.with_signal(initial).reads);
    }
    (ReadSignal { index: s }, WriteSignal { index: s })
}

impl ReadSignal {
    /// The current value of the signal, or `None` where the signal is not
    /// one of `store`. Inside an evaluation the read is recorded: the
    /// evaluation will be queued when the signal is written.
    pub fn get(&self, store: &mut SignalStore) -> (value: Option<i64>)
        requires
            old(store).wf(),
        ensures
            final(store).wf(),
            final(store)@ == old(store)@.read(self.index as int),
            value == (if self.index < old(store)@.values.len() {
                Some(old(store)@.values[self.index as int])
            } else {
                None
            }),
    {
        store.read(*self)
    }
}

impl WriteSignal {
    /// Replaces the value of the signal by what `f` makes of it, and queues
    /// every computation that read the signal at its last evaluation. None
    /// of them is evaluated here. Returns `false`, and changes nothing,
    /// where the signal is not one of `store`.
    pub fn update<F: FnOnce(i64) -> i64>(&self, store: &mut SignalStore, f: F) -> (written: bool)
        requires
            old(store).wf(),
            self.index < old(store)@.values.len() ==> call_requires(
                f,
                (old(store)@.values[self.index as int],),
            ),
        ensures
            final(store).wf(),
            written == (self.index < old(store)@.values.len()),
            !written ==> final(store)@ == old(store)@,
            written ==> call_ensures(
                f,
                (old(store)@.values[self.index as int],),
                final(store)@.values[self.index as int],
            ),
            written ==> final(store)@ == old(store)@.written(
                self.index as int,
                final(store)@.values[self.index as int],
            ),
    {
        store.write(*self, f)
    }
}

/// What [`enqueue_readers`] keeps and adds: the queue it was given is a
/// prefix of the result, nothing occurs twice, every reader among the first
/// `k` computations is in the result, and nothing else was added.
pub proof fn lemma_enqueue_readers(pending: Seq<usize>, row: Seq<bool>, k: nat)
    requires
        pending.no_duplicates(),
        k <= row.len(),
        k <= usize::MAX,
    ensures
        enqueue_readers(pending, row, k).no_duplicates(),
        pending.len() <= enqueue_readers(pending, row, k).len(),
        forall|i: int| 0 <= i < pending.len() ==> enqueue_readers(pending, row, k)[i] == pending[i],
        forall|c: usize| c < k && row[c as int] ==> enqueue_readers(pending, row, k).contains(c),
        forall|x: usize| #[trigger]
            enqueue_readers(pending, row, k).contains(x) ==> pending.contains(x) || (x < k && row[x as int]),
    decreases k,
{
    if k == 0 {
    } else {
        lemma_enqueue_readers(pending, row, (k - 1) as nat);
        let before = enqueue_readers(pending, row, (k - 1) as nat);
        let c = (k - 1) as usize;
        let after = enqueue_readers(pending, row, k);
        if row[k - 1] && !before.contains(c) {
            assert(after == before.push(c));
            assert(after.no_duplicates()) by {
                assert forall|i: int, j: int|
                    0 <= i < after.len() && 0 <= j < after.len() && i != j implies after[i] != after[j] by {
                    if i < before.len() && j < before.len() {
                    } else if i < before.len() {
                        assert(before.contains(before[i]));
                    } else {
                        assert(before.contains(before[j]));
                    }
                }
            }
            assert(after[before.len() as int] == c);
            assert forall|d: usize| d < k && row[d as int] implies after.contains(d) by {
                if d < k - 1 {
                    assert(before.contains(d));
                    let i = choose|i: int| 0 <= i < before.len() && before[i] == d;
                    assert(after[i] == d);
                }
            }
            assert forall|x: usize| #[trigger] after.contains(x) implies pending.contains(x) || (x
                < k && row[x as int]) by {
                let i = choose|i: int| 0 <= i < after.len() && after[i] == x;
                if i < before.len() {
                    assert(before.contains(x));
                }
            }
        } else {
            assert(after == before);
            assert forall|d: usize| d < k && row[d as int] implies after.contains(d) by {
                if d < k - 1 {
                    assert(before.contains(d));
                }
            }
        }
    }
}

/// Where every reader is in the queue already, writing adds nothing.
pub proof fn lemma_enqueue_readers_again(pending: Seq<usize>, row: Seq<bool>, k: nat)
    requires
        k <= row.len(),
        forall|c: usize| c < k && row[c as int] ==> pending.contains(c),
    ensures
        enqueue_readers(pending, row, k) == pending,
    decreases k,
{
    if k > 0 && k <= usize::MAX {
        lemma_enqueue_readers_again(pending, row, (k - 1) as nat);
    }
}

/// A write keeps the store well-formed.
pub proof fn lemma_written_wf(m: SignalModel, s: int, v: i64)
    requires
        m.wf(),
    ensures
        m.written(s, v).wf(),
{
    if 0 <= s < m.values.len() {
        lemma_enqueue_readers(m.pending, m.reads[s], m.computations);
        let after = m.written(s, v);
        assert forall|i: int| 0 <= i < after.pending.len() implies (#[trigger] after.pending[i])
            < after.computations by {
            let x = after.pending[i];
            assert(after.pending.contains(x));
            if m.pending.contains(x) {
                let j = choose|j: int| 0 <= j < m.pending.len() && m.pending[j] == x;
                assert(m.pending[j] < m.computations);
            }
        }
    }
}

/// Writes coalesce. However often a signal is written before the queue is
/// taken, at least once, the queue is what the first write left: every
/// reader of the signal is in it exactly once, and the later writes add
/// nothing.
pub proof fn lemma_writes_coalesce(m: SignalModel, s: int, values: Seq<i64>)
    requires
        m.wf(),
        0 <= s < m.values.len(),
        values.len() >= 1,
    ensures
        m.written_each(s, values).pending == m.written(s, values[0]).pending,
        m.written_each(s, values).pending.no_duplicates(),
        m.written_each(s, values).reads == m.reads,
        m.written_each(s, values).computations == m.computations,
        m.written_each(s, values).wf(),
        forall|c: usize| c < m.computations && m.reads[s][c as int] ==> m.written_each(s, values).pending.contains(c),
    decreases values.len(),
{
    lemma_enqueue_readers(m.pending, m.reads[s], m.computations);
    lemma_written_wf(m, s, values[0]);
    if values.len() == 1 {
        assert(values.drop_last().len() == 0);
        assert(m.written_each(s, values.drop_last()) == m);
        assert(values.last() == values[0]);
    } else {
        let init = values.drop_last();
        assert(init[0] == values[0]);
        lemma_writes_coalesce(m, s, init);
        let before = m.written_each(s, init);
        assert(before.values.len() == m.values.len()) by {
            lemma_written_each_len(m, s, init);
        }
        lemma_enqueue_readers_again(before.pending, before.reads[s], before.computations);
        lemma_written_wf(before, s, values.last());
    }
}

/// Writing does not change how many signals there are.
pub proof fn lemma_written_each_len(m: SignalModel, s: int, values: Seq<i64>)
    ensures
        m.written_each(s, values).values.len() == m.values.len(),
    decreases values.len(),
{
    if values.len() > 0 {
        lemma_written_each_len(m, s, values.drop_last());
    }
}

} // verus!
