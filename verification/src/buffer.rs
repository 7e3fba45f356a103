//! A log of results with a mark behind what was handed out already.
//!
//! Results are only ever added behind the others. "Only new" retrieval hands
//! out what lies behind the mark and moves the mark to the end, so that each
//! result is handed out once; "return all" retrieval hands out everything
//! and leaves the mark alone, so that it can be repeated at any time. The
//! count that is asked for without an update is the one of the last update.

use crate::traverse::views;
use vstd::prelude::*;

verus! {

/// A value that can be copied with its mathematical value kept.
pub trait Duplicate: View + Sized {
    /// A copy of the value.
    fn duplicate(&self) -> (r: Self)
        ensures
            r@ == self@,
    ;
}

impl Duplicate for String {
    fn duplicate(&self) -> (r: Self) {
        self.clone()
    }
}

impl<A: Duplicate, B: Duplicate> Duplicate for (A, B) {
    fn duplicate(&self) -> (r: Self) {
        (self.0.duplicate(), self.1.duplicate())
    }
}

/// The mathematical value of a [`Log`].
pub struct LogModel<V> {
    /// Everything that was added, in order.
    pub items: Seq<V>,
    /// How many of the items were handed out as new.
    pub seen: nat,
    /// The count as of the last update.
    pub cached: nat,
}

impl<V> LogModel<V> {
    /// The mark lies within the items.
    pub open spec fn wf(self) -> bool {
        self.seen <= self.items.len()
    }

    /// An empty log.
    pub open spec fn empty() -> LogModel<V> {
        LogModel { items: Seq::empty(), seen: 0, cached: 0 }
    }

    /// The log with one more item.
    pub open spec fn pushed(self, x: V) -> LogModel<V> {
        LogModel { items: self.items.push(x), ..self }
    }

    /// The log with more items.
    pub open spec fn extended(self, xs: Seq<V>) -> LogModel<V> {
        LogModel { items: self.items + xs, ..self }
    }

    /// What was not handed out as new yet.
    pub open spec fn unseen(self) -> Seq<V> {
        if self.seen <= self.items.len() {
            self.items.skip(self.seen as int)
        } else {
            Seq::empty()
        }
    }

    /// What was handed out as new already.
    pub open spec fn handed_out(self) -> Seq<V> {
        if self.seen <= self.items.len() {
            self.items.take(self.seen as int)
        } else {
            self.items
        }
    }

    /// What a retrieval hands out.
    pub open spec fn taken(self, return_all: bool) -> Seq<V> {
        if return_all {
            self.items
        } else {
            self.unseen()
        }
    }

    /// The log after a retrieval.
    pub open spec fn after_take(self, return_all: bool) -> LogModel<V> {
        if return_all {
            self
        } else {
            LogModel { seen: self.items.len(), ..self }
        }
    }

    /// Whether there is anything, or anything new.
    pub open spec fn has(self, only_new: bool) -> bool {
        if only_new {
            self.seen < self.items.len()
        } else {
            self.items.len() > 0
        }
    }

    /// The count that is answered.
    pub open spec fn count(self, update: bool) -> nat {
        if update {
            self.items.len()
        } else {
            self.cached
        }
    }

    /// The log after a count was asked for.
    pub open spec fn after_count(self, update: bool) -> LogModel<V> {
        if update {
            LogModel { cached: self.items.len(), ..self }
        } else {
            self
        }
    }

    /// The next item that was not handed out, if there is one.
    pub open spec fn next(self) -> Option<V> {
        if self.seen < self.items.len() {
            Some(self.items[self.seen as int])
        } else {
            None
        }
    }

    /// The log after its next item was handed out.
    pub open spec fn after_next(self) -> LogModel<V> {
        if self.seen < self.items.len() {
            LogModel { seen: self.seen + 1, ..self }
        } else {
            self
        }
    }
}

/// One thing that happens to a log during a scan.
pub enum LogOp<V> {
    /// The worker adds a result.
    Push(V),
    /// The caller retrieves what is new.
    TakeNew,
    /// The caller retrieves everything.
    TakeAll,
    /// The caller takes the next result, as the iteration does.
    Next,
}

/// What a log and the caller's hands hold: the log, and everything that the
/// retrievals of what is new have handed out, one retrieval after the
/// other.
pub struct Replay<V> {
    pub log: LogModel<V>,
    pub got: Seq<V>,
}

/// The log and the caller's hands after one more thing has happened.
pub open spec fn replay_one<V>(r: Replay<V>, op: LogOp<V>) -> Replay<V> {
    match op {
        LogOp::Push(x) => Replay { log: r.log.pushed(x), got: r.got },
        LogOp::TakeNew => Replay { log: r.log.after_take(false), got: r.got + r.log.taken(false) },
        LogOp::TakeAll => Replay { log: r.log.after_take(true), got: r.got },
        LogOp::Next => Replay {
            log: r.log.after_next(),
            got: match r.log.next() {
                Some(x) => r.got.push(x),
                None => r.got,
            },
        },
    }
}

/// The log and the caller's hands after the first `n` of the things that
/// happen.
pub open spec fn replay<V>(start: LogModel<V>, ops: Seq<LogOp<V>>, n: nat) -> Replay<V>
    decreases n,
{
    if n == 0 || n > ops.len() {
        Replay { log: start, got: Seq::empty() }
    } else {
        replay_one(replay(start, ops, (n - 1) as nat), ops[n - 1])
    }
}

/// Whatever happens to a log, in whatever order: what the retrievals of
/// what is new have handed out so far is, piece by piece, what lies before
/// the mark: nothing twice, nothing left out, nothing out of order. The mark
/// stays within the log, and nothing that was added is ever lost.
pub proof fn lemma_only_new_hands_out_each_once<V>(start: LogModel<V>, ops: Seq<LogOp<V>>, n: nat)
    requires
        start.wf(),
        n <= ops.len(),
    ensures
        ({
            let r = replay(start, ops, n);
            &&& r.log.wf()
            &&& start.handed_out() + r.got == r.log.handed_out()
            &&& start.items.len() <= r.log.items.len()
            &&& r.log.items.take(start.items.len() as int) == start.items
        }),
    decreases n,
{
    if n == 0 {
        assert(start.handed_out() + Seq::<V>::empty() =~= start.handed_out());
        assert(start.items.take(start.items.len() as int) =~= start.items);
    } else {
        lemma_only_new_hands_out_each_once(start, ops, (n - 1) as nat);
        let before = replay(start, ops, (n - 1) as nat);
        let after = replay_one(before, ops[n - 1]);
        assert(after == replay(start, ops, n));
        match ops[n - 1] {
            LogOp::Push(x) => {
                assert(after.log.handed_out() =~= before.log.handed_out());
                assert(after.log.items.take(start.items.len() as int) =~= before.log.items.take(
                    start.items.len() as int,
                ));
            },
            LogOp::TakeNew => {
                assert(after.log.handed_out() =~= before.log.handed_out() + before.log.unseen());
                assert(start.handed_out() + (before.got + before.log.unseen()) =~= (
                start.handed_out() + before.got) + before.log.unseen());
            },
            LogOp::TakeAll => {},
            LogOp::Next => {
                if before.log.next() is Some {
                    let x = before.log.next()->Some_0;
                    assert(after.log.handed_out() =~= before.log.handed_out().push(x));
                    assert(start.handed_out() + before.got.push(x) =~= (start.handed_out()
                        + before.got).push(x));
                }
            },
        }
    }
}

/// Taken to completion, the retrievals of what is new add up to what one
/// retrieval of everything returns at the end: after a last retrieval of
/// what is new, the pieces handed out since the start of the scan are the
/// whole log.
pub proof fn lemma_only_new_adds_up_to_all<V>(ops: Seq<LogOp<V>>)
    ensures
        ({
            let r = replay_one(replay(LogModel::<V>::empty(), ops, ops.len()), LogOp::TakeNew);
            r.got == r.log.taken(true)
        }),
{
    let start = LogModel::<V>::empty();
    lemma_only_new_hands_out_each_once(start, ops, ops.len());
    let before = replay(start, ops, ops.len());
    let r = replay_one(before, LogOp::TakeNew);
    assert(start.handed_out() =~= Seq::<V>::empty());
    assert(start.handed_out() + before.got =~= before.got);
    assert(before.log.handed_out() + before.log.unseen() =~= before.log.items);
}

/// Retrieving everything changes nothing: it can be repeated at any time
/// and returns the same.
pub proof fn lemma_return_all_repeatable<V>(log: LogModel<V>)
    ensures
        log.after_take(true) == log,
        log.after_take(true).taken(true) == log.taken(true),
{
}

/// A log of results.
#[derive(Debug)]
pub struct Log<T> {
    items: Vec<T>,
    seen: usize,
    cached: usize,
}

impl<T: Duplicate> View for Log<T> {
    type V = LogModel<T::V>;

    closed spec fn view(&self) -> LogModel<T::V> {
        LogModel { items: views(self.items@), seen: self.seen as nat, cached: self.cached as nat }
    }
}

/// Copies the items from position `from` on.
fn copy_from<T: Duplicate>(items: &Vec<T>, from: usize) -> (r: Vec<T>)
    requires
        from <= items.len(),
    ensures
        views(r@) == views(items@).skip(from as int),
{
    let mut r: Vec<T> = Vec::new();
    let mut i: usize = from;
    while i < items.len()
        invariant
            from <= i <= items.len(),
            r@.len() == i - from,
            forall|k: int| 0 <= k < r@.len() ==> (#[trigger] r@[k])@ == items@[from + k]@,
        decreases items.len() - i,
    {
        r.push(items[i].duplicate());
        i += 1;
    }
    assert(views(r@) =~= views(items@).skip(from as int));
    r
}

impl<T: Duplicate> Log<T> {
    /// An empty log.
    pub fn new() -> (r: Log<T>)
        ensures
            r@ == LogModel::<T::V>::empty(),
    {
        let r = Log { items: Vec::new(), seen: 0, cached: 0 };
        assert(r@.items =~= Seq::<T::V>::empty());
        r
    }

    /// Drops everything.
    pub fn clear(&mut self)
        ensures
            final(self)@ == LogModel::<T::V>::empty(),
    {
        self.items.clear();
        self.seen = 0;
        self.cached = 0;
        assert(self@.items =~= Seq::<T::V>::empty());
    }

    /// Adds a result behind the others.
    pub fn push(&mut self, x: T)
        ensures
            final(self)@ == old(self)@.pushed(x@),
    {
        self.items.push(x);
        assert(self@.items =~= old(self)@.items.push(x@));
    }

    /// Whether the log holds anything, or with `only_new` anything that was
    /// not handed out as new.
    pub fn has(&self, only_new: bool) -> (r: bool)
        ensures
            r == self@.has(only_new),
    {
        if only_new {
            self.seen < self.items.len()
        } else {
            self.items.len() > 0
        }
    }

    /// How many results the log holds: with `update` as of now, else as of
    /// the last update.
    pub fn count(&mut self, update: bool) -> (r: usize)
        ensures
            r == old(self)@.count(update),
            final(self)@ == old(self)@.after_count(update),
    {
        if update {
            self.cached = self.items.len();
        }
        self.cached
    }

    /// Copies of all results; the mark stays where it is.
    pub fn snapshot(&self) -> (r: Vec<T>)
        ensures
            views(r@) == self@.items,
    {
        let r = copy_from(&self.items, 0);
        assert(views(self.items@).skip(0) =~= views(self.items@));
        r
    }

    /// Hands out copies of the results: with `return_all` of all of them,
    /// else of those that were not handed out as new, which then are.
    pub fn take(&mut self, return_all: bool) -> (r: Vec<T>)
        ensures
            views(r@) == old(self)@.taken(return_all),
            final(self)@ == old(self)@.after_take(return_all),
    {
        if return_all {
            let r = copy_from(&self.items, 0);
            assert(views(self.items@).skip(0) =~= views(self.items@));
            r
        } else {
            let n = self.items.len();
            let r = if self.seen <= n {
                copy_from(&self.items, self.seen)
            } else {
                let e: Vec<T> = Vec::new();
                assert(views(e@) =~= Seq::<T::V>::empty());
                e
            };
            self.seen = n;
            r
        }
    }

    /// Hands out a copy of the next result that was not handed out, if
    /// there is one.
    pub fn next(&mut self) -> (r: Option<T>)
        ensures
            match r {
                Some(x) => old(self)@.next() == Some(x@),
                None => old(self)@.next() is None,
            },
            final(self)@ == old(self)@.after_next(),
    {
        if self.seen < self.items.len() {
            let x = self.items[self.seen].duplicate();
            self.seen = self.seen + 1;
            Some(x)
        } else {
            None
        }
    }
}

} // verus!
