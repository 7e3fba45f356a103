//! The controller of a flat scan: every visited entry becomes one result.
//!
//! The controller does no input or output. Whoever drives a scan asks it
//! for the next directory, lists that directory, and feeds the listing back;
//! this may happen on a worker beside the caller ([`Scandir::start`], then
//! [`Scandir::next_dir`], [`Scandir::feed`] and [`Scandir::worker_exit`]) or
//! on the caller's own thread ([`Scandir::collect`]). Entries and errors are
//! kept in two logs that can be read at any time, in full or only what is
//! new.
//!
//! The root itself is no entry of a scan: the results are what lies below
//! it. Paths are relative to the root.

use crate::buffer::{Duplicate, Log, LogModel};
use crate::config::{
    construction_error, or_default, patterns_compile, ConfigModel, ConstructionError, RootStatus,
    TraversalConfig,
};
use crate::entry::{
    classified, classify, depth_of, Probe, ProbeModel, ResultModel, ReturnType, ScandirResult,
};
use crate::filter::{compiled, texts, FilterModel};
use crate::lifecycle::{Lifecycle, LifecycleError, LifecycleModel, Progress, ScanState};
use crate::traverse::{
    file_visits, lemma_fed_keeps_wf, lemma_sorted_step_order_independent, listing_model,
    names_valid, same_children, sound_step, views, Pending, PendingModel, StepModel, VisitModel,
    WalkCore, WalkModel,
};
use vstd::prelude::*;

verus! {

impl Duplicate for ScandirResult {
    fn duplicate(&self) -> (r: Self) {
        self.clone()
    }
}

/// The entries among the results of some visits, in order: every visit whose
/// result is no error.
pub open spec fn entries_of(vs: Seq<VisitModel>, rt: ReturnType) -> Seq<ResultModel>
    decreases vs.len(),
{
    if vs.len() == 0 {
        Seq::empty()
    } else {
        let before = entries_of(vs.drop_last(), rt);
        let r = classified(vs.last().path, vs.last().stat, rt);
        if r is Error {
            before
        } else {
            before.push(r)
        }
    }
}

/// The errors among the results of some visits, in order, each with its
/// path.
pub open spec fn errors_of(vs: Seq<VisitModel>, rt: ReturnType) -> Seq<(Seq<char>, Seq<char>)>
    decreases vs.len(),
{
    if vs.len() == 0 {
        Seq::empty()
    } else {
        let before = errors_of(vs.drop_last(), rt);
        match classified(vs.last().path, vs.last().stat, rt) {
            ResultModel::Error(p, m) => before.push((p, m)),
            _ => before,
        }
    }
}

/// The failure of a listing as a list of at most one error.
pub open spec fn failure_seq(f: Option<(Seq<char>, Seq<char>)>) -> Seq<(Seq<char>, Seq<char>)> {
    match f {
        Some(e) => seq![e],
        None => Seq::empty(),
    }
}

/// How many of the results are entries of files.
pub open spec fn file_entries(rs: Seq<ResultModel>) -> nat
    decreases rs.len(),
{
    if rs.len() == 0 {
        0
    } else {
        file_entries(rs.drop_last()) + if rs.last().is_file() {
            1nat
        } else {
            0nat
        }
    }
}

/// The mathematical value of a [`Scandir`].
pub struct ScandirModel {
    pub cfg: ConfigModel,
    pub life: LifecycleModel,
    pub walk: WalkModel,
    pub entries: LogModel<ResultModel>,
    pub errors: LogModel<(Seq<char>, Seq<char>)>,
}

/// A count that does not fit is answered as the largest one.
pub open spec fn capped(n: nat) -> usize {
    if n <= usize::MAX {
        n as usize
    } else {
        usize::MAX
    }
}

impl ScandirModel {
    /// The parts are well-formed; with a depth limit no result lies deeper
    /// than the limit; with a limit on files there are no more entries of
    /// files than the walk has counted, which is no more than the limit.
    pub open spec fn wf(self) -> bool {
        &&& self.life.wf()
        &&& self.walk.wf(self.cfg)
        &&& self.entries.wf()
        &&& self.errors.wf()
        &&& self.cfg.max_depth > 0 ==> forall|i: int|
            0 <= i < self.entries.items.len() ==> depth_of((#[trigger] self.entries.items[i]).path())
                <= self.cfg.max_depth
        &&& self.cfg.max_depth > 0 ==> forall|i: int|
            0 <= i < self.errors.items.len() ==> depth_of((#[trigger] self.errors.items[i]).0)
                <= self.cfg.max_depth
        &&& self.cfg.max_file_cnt > 0 ==> file_entries(self.entries.items) <= self.walk.file_cnt
    }

    /// A controller that has not scanned yet.
    pub open spec fn fresh(cfg: ConfigModel) -> ScandirModel {
        ScandirModel {
            cfg,
            life: LifecycleModel::idle(),
            walk: WalkModel::at_root(),
            entries: LogModel::empty(),
            errors: LogModel::empty(),
        }
    }

    /// The controller after `start` at the time `now`: where no worker is
    /// attached a new scan begins at the root with empty logs.
    pub open spec fn started(self, now: u64) -> ScandirModel {
        if self.life.attached {
            self
        } else {
            ScandirModel {
                life: self.life.started(now),
                walk: WalkModel::at_root(),
                entries: LogModel::empty(),
                errors: LogModel::empty(),
                ..self
            }
        }
    }

    /// The directory that the driver of the scan has to list next: the one
    /// that waits, while the scan is running and was not asked to stop.
    pub open spec fn request(self) -> Option<PendingModel> {
        if self.life.state is Running && !self.walk.done() {
            Some(self.walk.pending.last())
        } else {
            None
        }
    }

    /// The controller with the outcome of a step of the walk taken in: the
    /// entries behind the entries, and behind the errors first the failure
    /// of the listing and then the errors of the visits.
    pub open spec fn absorbed(self, st: StepModel) -> ScandirModel {
        ScandirModel {
            walk: st.walk,
            entries: self.entries.extended(entries_of(st.visits, self.cfg.return_type)),
            errors: self.errors.extended(
                failure_seq(st.failure) + errors_of(st.visits, self.cfg.return_type),
            ),
            ..self
        }
    }

    /// The controller after a listing was fed. Without a worker at work the
    /// listing is dropped.
    pub open spec fn fed(self, listing: Result<Seq<ProbeModel>, Seq<char>>) -> ScandirModel {
        if !self.life.busy() {
            self
        } else {
            self.absorbed(self.walk.fed(self.cfg, listing))
        }
    }

    /// The controller after the worker has reported its exit.
    pub open spec fn exited(self, now: u64) -> ScandirModel {
        ScandirModel { life: self.life.exited(now), ..self }
    }

    /// The controller after `stop`.
    pub open spec fn stopped(self) -> ScandirModel {
        ScandirModel { life: self.life.stopped(), ..self }
    }

    /// The controller after `join`.
    pub open spec fn joined(self) -> ScandirModel {
        ScandirModel { life: self.life.joined(), ..self }
    }

    /// The controller after `clear`: idle, with empty logs, unless a worker
    /// is at work.
    pub open spec fn cleared(self) -> ScandirModel {
        if self.life.busy() {
            self
        } else {
            ScandirModel {
                life: self.life.cleared(),
                walk: WalkModel::at_root(),
                entries: LogModel::empty(),
                errors: LogModel::empty(),
                ..self
            }
        }
    }

    /// The controller after a retrieval of entries and errors.
    pub open spec fn after_results(self, return_all: bool) -> ScandirModel {
        ScandirModel {
            entries: self.entries.after_take(return_all),
            errors: self.errors.after_take(return_all),
            ..self
        }
    }

    /// The controller when a scan on the caller's own thread has come to
    /// its end at the time `now`: finished and joined.
    pub open spec fn completed(self, now: u64) -> ScandirModel {
        ScandirModel { life: self.life.exited(now).joined(), ..self }
    }

    /// The controller after one call of `collect`.
    pub open spec fn collected(
        self,
        answer: Option<Result<Seq<ProbeModel>, Seq<char>>>,
        now: u64,
    ) -> ScandirModel {
        match answer {
            None => if self.life.attached {
                self
            } else {
                self.started(now).settled(now)
            },
            Some(l) => if !self.life.busy() {
                self
            } else {
                self.fed(l).settled(now)
            },
        }
    }

    /// A scan on the caller's own thread after a step: completed where
    /// nothing waits to be listed.
    pub open spec fn settled(self, now: u64) -> ScandirModel {
        if self.walk.done() {
            self.completed(now)
        } else {
            self
        }
    }

    /// The controller after one step of the iteration.
    pub open spec fn after_next(self) -> ScandirModel {
        if self.entries.next() is Some {
            ScandirModel { entries: self.entries.after_next(), ..self }
        } else if self.errors.next() is Some {
            ScandirModel { errors: self.errors.after_next(), ..self }
        } else {
            self.joined()
        }
    }

    /// What one step of the iteration yields.
    pub open spec fn next_item(self) -> IterModel {
        if self.entries.next() is Some {
            IterModel::Item(self.entries.next()->Some_0)
        } else if self.errors.next() is Some {
            IterModel::Item(
                ResultModel::Error(self.errors.next()->Some_0.0, self.errors.next()->Some_0.1),
            )
        } else if self.life.busy() {
            IterModel::Wait
        } else {
            IterModel::Done
        }
    }
}

/// What one step of the iteration yields.
#[derive(Debug, PartialEq, Eq)]
pub enum IterStep {
    /// The next result.
    Item(ScandirResult),
    /// Nothing is there yet and the worker is at work: wait a little, then
    /// ask again.
    Wait,
    /// Everything was yielded and the worker has gone.
    Done,
}

/// The mathematical value of an [`IterStep`].
pub enum IterModel {
    Item(ResultModel),
    Wait,
    Done,
}

impl View for IterStep {
    type V = IterModel;

    open spec fn view(&self) -> IterModel {
        match self {
            IterStep::Item(r) => IterModel::Item(r@),
            IterStep::Wait => IterModel::Wait,
            IterStep::Done => IterModel::Done,
        }
    }
}

/// What a call of `collect` answers.
#[derive(Debug, PartialEq, Eq)]
pub enum Collect {
    /// The directory with this path is to be listed and the listing handed
    /// to the next call.
    Need(String),
    /// The scan is complete: all entries and all errors.
    Done((Vec<ScandirResult>, Vec<(String, String)>)),
}

/// The mathematical value of a [`Collect`].
pub enum CollectModel {
    Need(Seq<char>),
    Done(Seq<ResultModel>, Seq<(Seq<char>, Seq<char>)>),
}

impl View for Collect {
    type V = CollectModel;

    open spec fn view(&self) -> CollectModel {
        match self {
            Collect::Need(p) => CollectModel::Need(p@),
            Collect::Done(r) => CollectModel::Done(views(r.0@), views(r.1@)),
        }
    }
}

/// What a scan on the caller's own thread answers after a step.
pub open spec fn collect_answer(m: ScandirModel) -> CollectModel {
    if m.walk.done() {
        CollectModel::Done(m.entries.items, m.errors.items)
    } else {
        CollectModel::Need(m.walk.pending.last().path)
    }
}

/// What `collect` returns.
pub open spec fn collect_result(
    m: ScandirModel,
    answer: Option<Result<Seq<ProbeModel>, Seq<char>>>,
    now: u64,
) -> Result<CollectModel, LifecycleError> {
    match answer {
        None => if m.life.attached {
            Err(LifecycleError::AlreadyRunning)
        } else {
            Ok(collect_answer(m.started(now)))
        },
        Some(l) => if !m.life.busy() {
            Err(LifecycleError::NotRunning)
        } else {
            Ok(collect_answer(m.fed(l)))
        },
    }
}

/// The controller of a flat scan.
#[derive(Debug)]
pub struct Scandir {
    cfg: TraversalConfig,
    life: Lifecycle,
    walk: WalkCore,
    entries: Log<ScandirResult>,
    errors: Log<(String, String)>,
}

impl View for Scandir {
    type V = ScandirModel;

    closed spec fn view(&self) -> ScandirModel {
        ScandirModel {
            cfg: self.cfg@,
            life: self.life@,
            walk: self.walk@,
            entries: self.entries@,
            errors: self.errors@,
        }
    }
}

/// One more result adds one to the count exactly when it is the entry of a
/// file.
proof fn lemma_file_entries_push(rs: Seq<ResultModel>, r: ResultModel)
    ensures
        file_entries(rs.push(r)) == file_entries(rs) + if r.is_file() {
            1nat
        } else {
            0nat
        },
{
    assert(rs.push(r).drop_last() =~= rs);
}

proof fn lemma_file_entries_concat(a: Seq<ResultModel>, b: Seq<ResultModel>)
    ensures
        file_entries(a + b) == file_entries(a) + file_entries(b),
    decreases b.len(),
{
    if b.len() == 0 {
        assert(a + b =~= a);
    } else {
        assert((a + b).drop_last() =~= a + b.drop_last());
        lemma_file_entries_concat(a, b.drop_last());
    }
}

/// The entries of some visits lie where the visits lie, and no more of them
/// are entries of files than there are visits of files.
proof fn lemma_entries_of_props(vs: Seq<VisitModel>, rt: ReturnType, bound: nat)
    requires
        forall|k: int| 0 <= k < vs.len() ==> depth_of((#[trigger] vs[k]).path) <= bound,
    ensures
        forall|i: int|
            0 <= i < entries_of(vs, rt).len() ==> depth_of((#[trigger] entries_of(vs, rt)[i]).path())
                <= bound,
        forall|i: int|
            0 <= i < errors_of(vs, rt).len() ==> depth_of((#[trigger] errors_of(vs, rt)[i]).0)
                <= bound,
        file_entries(entries_of(vs, rt)) <= file_visits(vs),
    decreases vs.len(),
{
    if vs.len() > 0 {
        let t = vs.drop_last();
        assert forall|k: int| 0 <= k < t.len() implies depth_of((#[trigger] t[k]).path)
            <= bound by {
            assert(t[k] == vs[k]);
        }
        lemma_entries_of_props(t, rt, bound);
        let v = vs.last();
        assert(v == vs[vs.len() - 1]);
        let r = classified(v.path, v.stat, rt);
        if !(r is Error) {
            lemma_file_entries_push(entries_of(t, rt), r);
        }
        let xs = errors_of(vs, rt);
        let bx = errors_of(t, rt);
        assert forall|i: int| 0 <= i < xs.len() implies depth_of((#[trigger] xs[i]).0) <= bound by {
            if i < bx.len() {
                assert(xs[i] == bx[i]);
            } else {
                assert(xs[i].0 == v.path);
            }
        }
        let es = entries_of(vs, rt);
        let be = entries_of(t, rt);
        assert forall|i: int| 0 <= i < es.len() implies depth_of((#[trigger] es[i]).path())
            <= bound by {
            if i < be.len() {
                assert(es[i] == be[i]);
            } else {
                assert(es[i].path() == v.path);
            }
        }
    }
}

/// Taking in a sound step of the walk keeps the controller well-formed.
proof fn lemma_absorb_keeps_wf(m: ScandirModel, st: StepModel)
    requires
        m.wf(),
        sound_step(m.walk, m.cfg, st),
    ensures
        m.absorbed(st).wf(),
{
    let rt = m.cfg.return_type;
    let a = m.absorbed(st);
    let es = entries_of(st.visits, rt);
    let xs = errors_of(st.visits, rt);
    if m.cfg.max_depth > 0 {
        lemma_entries_of_props(st.visits, rt, m.cfg.max_depth as nat);
        assert forall|i: int| 0 <= i < a.entries.items.len() implies depth_of(
            (#[trigger] a.entries.items[i]).path(),
        ) <= m.cfg.max_depth by {
            if i < m.entries.items.len() {
                assert(a.entries.items[i] == m.entries.items[i]);
            } else {
                assert(a.entries.items[i] == es[i - m.entries.items.len()]);
            }
        }
        assert forall|i: int| 0 <= i < a.errors.items.len() implies depth_of(
            (#[trigger] a.errors.items[i]).0,
        ) <= m.cfg.max_depth by {
            let n = m.errors.items.len() as int;
            let f = failure_seq(st.failure);
            if i < n {
                assert(a.errors.items[i] == m.errors.items[i]);
            } else if i < n + f.len() {
                assert(a.errors.items[i] == f[i - n]);
            } else {
                assert(a.errors.items[i] == xs[i - n - f.len()]);
            }
        }
    }
    if m.cfg.max_file_cnt > 0 {
        assert forall|k: int| 0 <= k < st.visits.len() implies depth_of(
            (#[trigger] st.visits[k]).path,
        ) <= depth_bound(st.visits) by {
            lemma_depth_bound(st.visits, k);
        }
        lemma_entries_of_props(st.visits, rt, depth_bound(st.visits));
        lemma_file_entries_concat(m.entries.items, es);
    }
}

/// A bound on the depth of some visits.
spec fn depth_bound(vs: Seq<VisitModel>) -> nat
    decreases vs.len(),
{
    if vs.len() == 0 {
        0
    } else {
        let b = depth_bound(vs.drop_last());
        if depth_of(vs.last().path) > b {
            depth_of(vs.last().path)
        } else {
            b
        }
    }
}

proof fn lemma_depth_bound(vs: Seq<VisitModel>, k: int)
    requires
        0 <= k < vs.len(),
    ensures
        depth_of(vs[k].path) <= depth_bound(vs),
    decreases vs.len(),
{
    if k < vs.len() - 1 {
        lemma_depth_bound(vs.drop_last(), k);
    }
}

impl Scandir {
    /// Sets up a scan of `root_path`. `root` tells what the caller found
    /// there. An option that is left out is off, a limit that is left out
    /// is 0, which means none, and the results carry the basic metadata
    /// unless `return_type` asks for more. Fails with `NotFound` where the
    /// root is missing, with `IoError` where it could not be looked at, and
    /// else with `InvalidInput` where a pattern does not compile or the
    /// results are asked for in the shape of a walk.
    pub fn new(
        root_path: &str,
        root: RootStatus,
        sorted: Option<bool>,
        skip_hidden: Option<bool>,
        max_depth: Option<usize>,
        max_file_cnt: Option<usize>,
        dir_include: Option<Vec<String>>,
        dir_exclude: Option<Vec<String>>,
        file_include: Option<Vec<String>>,
        file_exclude: Option<Vec<String>>,
        case_sensitive: Option<bool>,
        return_type: Option<ReturnType>,
    ) -> (r: Result<Scandir, ConstructionError>)
        ensures
            match construction_error(
                root,
                patterns_compile(dir_include, dir_exclude, file_include, file_exclude) && !(
                return_type == Some(ReturnType::Walk)),
            ) {
                Some(e) => r == Err::<Scandir, ConstructionError>(e),
                None => r is Ok && r->Ok_0@ == ScandirModel::fresh(
                    ConfigModel {
                        root_path: root_path@,
                        sorted: or_default(sorted, false),
                        skip_hidden: or_default(skip_hidden, false),
                        max_depth: or_default(max_depth, 0),
                        max_file_cnt: or_default(max_file_cnt, 0),
                        filter: FilterModel {
                            dir_include: compiled(texts(dir_include)),
                            dir_exclude: compiled(texts(dir_exclude)),
                            file_include: compiled(texts(file_include)),
                            file_exclude: compiled(texts(file_exclude)),
                            case_sensitive: or_default(case_sensitive, false),
                        },
                        return_type: or_default(return_type, ReturnType::Base),
                    },
                ) && r->Ok_0@.wf(),
            },
    {
        let rt = match return_type {
            Some(t) => t,
            None => ReturnType::Base,
        };
        let walk_shape = match rt {
            ReturnType::Walk => true,
            _ => false,
        };
        let cfg = match TraversalConfig::new(
            root_path,
            root,
            sorted,
            skip_hidden,
            max_depth,
            max_file_cnt,
            dir_include,
            dir_exclude,
            file_include,
            file_exclude,
            case_sensitive,
            rt,
        ) {
            Ok(c) => c,
            Err(e) => {
                return Err(e);
            },
        };
        if walk_shape {
            return Err(ConstructionError::InvalidInput);
        }
        let r = Scandir {
            cfg,
            life: Lifecycle::new(),
            walk: WalkCore::new(),
            entries: Log::new(),
            errors: Log::new(),
        };
        proof {
            lemma_fresh_wf(r@.cfg);
        }
        Ok(r)
    }

    /// The configuration.
    pub fn config(&self) -> (r: &TraversalConfig)
        ensures
            r@ == self@.cfg,
    {
        &self.cfg
    }

    /// Back to idle, with empty logs. Refused exactly while a worker is at
    /// work.
    pub fn clear(&mut self) -> (r: Result<(), LifecycleError>)
        ensures
            r == old(self)@.life.clear_result(),
            final(self)@ == old(self)@.cleared(),
            old(self)@.wf() ==> final(self)@.wf(),
    {
        match self.life.clear() {
            Err(e) => Err(e),
            Ok(()) => {
                self.walk.reset();
                self.entries.clear();
                self.errors.clear();
                proof {
                    lemma_fresh_wf(self@.cfg);
                }
                Ok(())
            },
        }
    }

    /// Starts a scan at the time `now`, for a worker to drive. Refused
    /// exactly when a worker is attached. The results of an earlier scan are
    /// dropped.
    pub fn start(&mut self, now: u64) -> (r: Result<(), LifecycleError>)
        ensures
            r == old(self)@.life.start_result(),
            final(self)@ == old(self)@.started(now),
            old(self)@.wf() ==> final(self)@.wf(),
    {
        match self.life.start(now) {
            Err(e) => Err(e),
            Ok(()) => {
                self.walk.reset();
                self.entries.clear();
                self.errors.clear();
                proof {
                    lemma_fresh_wf(self@.cfg);
                }
                Ok(())
            },
        }
    }

    /// Joins the worker without asking it to stop. Refused exactly when no
    /// worker is attached. While the worker is at work the caller has to
    /// wait and ask again.
    pub fn join(&mut self) -> (r: Result<Progress, LifecycleError>)
        ensures
            r == old(self)@.life.end_result(),
            final(self)@ == old(self)@.joined(),
            old(self)@.wf() ==> final(self)@.wf(),
    {
        self.life.join()
    }

    /// Asks the worker to stop: it is given no further directory. Refused
    /// exactly when no worker is attached. While the worker is at work the
    /// caller has to wait and ask again; once it has gone it is joined.
    pub fn stop(&mut self) -> (r: Result<Progress, LifecycleError>)
        ensures
            r == old(self)@.life.end_result(),
            final(self)@ == old(self)@.stopped(),
            old(self)@.wf() ==> final(self)@.wf(),
    {
        self.life.stop()
    }

    /// The directory that the driver of the scan has to list next, if the
    /// scan goes on: none when nothing waits, when no scan is running, and
    /// when the scan was asked to stop.
    pub fn next_dir(&self) -> (r: Option<Pending>)
        ensures
            match r {
                Some(p) => self@.request() == Some(p@),
                None => self@.request() is None,
            },
    {
        match self.life.state() {
            ScanState::Running => {},
            _ => {
                return None;
            },
        }
        match self.walk.next_dir() {
            Some(p) => Some(Pending { path: p.path.clone(), depth: p.depth }),
            None => None,
        }
    }

    /// Takes the listing of the directory that was asked for: the visited
    /// children become entries, and what could not be read becomes errors.
    /// Without a worker at work the listing is dropped.
    pub fn feed(&mut self, listing: Result<Vec<Probe>, String>)
        ensures
            final(self)@ == old(self)@.fed(listing_model(listing)),
            old(self)@.wf() ==> final(self)@.wf(),
    {
        if !self.life.busy() {
            return ;
        }
        let ghost start = self@;
        let ghost st = start.walk.fed(start.cfg, listing_model(listing));
        let step = self.walk.feed(&self.cfg, listing);
        let rt = self.cfg.return_type();
        let ghost had_errors = start.errors.items;
        let ghost had_entries = start.entries.items;
        match step.failure {
            Some(f) => {
                self.errors.push(f);
            },
            None => {},
        }
        proof {
            assert(self@.errors.items =~= had_errors + failure_seq(st.failure));
            assert(st.visits.take(0) =~= Seq::<VisitModel>::empty());
            assert(self@.errors.items + errors_of(st.visits.take(0), rt) =~= self@.errors.items);
            assert(self@.entries.items + entries_of(st.visits.take(0), rt) =~= self@.entries.items);
        }
        let visits = step.visits;
        let mut i: usize = 0;
        while i < visits.len()
            invariant
                i <= visits.len(),
                views(visits@) == st.visits,
                rt == self.cfg@.return_type,
                self.cfg@ == start.cfg,
                self.life@ == start.life,
                self.walk@ == st.walk,
                self.entries@ == start.entries.extended(entries_of(st.visits.take(i as int), rt)),
                self.errors@ == start.errors.extended(
                    failure_seq(st.failure) + errors_of(st.visits.take(i as int), rt),
                ),
            decreases visits.len() - i,
        {
            let v = &visits[i];
            let ghost done = st.visits.take(i as int);
            let ghost more = st.visits.take(i + 1);
            proof {
                assert(more.drop_last() =~= done);
                assert(more.last() == v@);
            }
            let r = classify(v.path.clone(), &v.stat, rt);
            match r {
                ScandirResult::Error(e) => {
                    self.errors.push(e);
                    proof {
                        let base = failure_seq(st.failure);
                        assert(had_errors + (base + errors_of(done, rt)).push(e@) =~= (had_errors
                            + (base + errors_of(done, rt))).push(e@));
                        assert(base + errors_of(more, rt) =~= (base + errors_of(done, rt)).push(
                            e@,
                        ));
                    }
                },
                other => {
                    proof {
                        assert(had_entries + entries_of(done, rt).push(other@) =~= (had_entries
                            + entries_of(done, rt)).push(other@));
                    }
                    self.entries.push(other);
                },
            }
            i += 1;
        }
        proof {
            assert(st.visits.take(visits.len() as int) =~= st.visits);
            if start.wf() {
                lemma_absorb_keeps_wf(start, st);
            }
        }
    }

    /// The worker reports at the time `now` that it has gone. From then on
    /// the scan is not busy, whether or not it was asked to stop.
    pub fn worker_exit(&mut self, now: u64)
        ensures
            final(self)@ == old(self)@.exited(now),
            !final(self)@.life.busy(),
            old(self)@.wf() ==> final(self)@.wf(),
    {
        self.life.exit(now);
    }

    /// One step of a scan on the caller's own thread. The first call, with
    /// no answer, begins the scan at the time `now`; it is refused with
    /// `AlreadyRunning` exactly when a worker is attached. Every further
    /// call hands in the listing that the call before asked for; it is
    /// refused with `NotRunning` exactly when no scan is at work. The call
    /// answers with the path of the directory to list next or, when nothing
    /// waits any more, with all entries and all errors of the scan, which is
    /// then finished.
    pub fn collect(&mut self, answer: Option<Result<Vec<Probe>, String>>, now: u64) -> (r: Result<
        Collect,
        LifecycleError,
    >)
        ensures
            match r {
                Ok(c) => collect_result(old(self)@, answer_model(answer), now) == Ok::<
                    CollectModel,
                    LifecycleError,
                >(c@),
                Err(e) => collect_result(old(self)@, answer_model(answer), now) == Err::<
                    CollectModel,
                    LifecycleError,
                >(e),
            },
            final(self)@ == old(self)@.collected(answer_model(answer), now),
            old(self)@.wf() ==> final(self)@.wf(),
    {
        match answer {
            None => {
                match self.start(now) {
                    Err(e) => {
                        return Err(e);
                    },
                    Ok(()) => {},
                }
            },
            Some(l) => {
                if !self.life.busy() {
                    return Err(LifecycleError::NotRunning);
                }
                self.feed(l);
            },
        }
        match self.walk.next_dir() {
            Some(p) => Ok(Collect::Need(p.path.clone())),
            None => {
                self.life.exit(now);
                let _ = self.life.join();
                let es = self.entries.take(true);
                let xs = self.errors.take(true);
                Ok(Collect::Done((es, xs)))
            },
        }
    }

    /// Whether there are results, or with `only_new` results that were not
    /// handed out as new.
    pub fn has_results(&self, only_new: Option<bool>) -> (r: bool)
        ensures
            r == (self@.entries.has(or_default(only_new, false)) || self@.errors.has(
                or_default(only_new, false),
            )),
    {
        let n = match only_new {
            Some(b) => b,
            None => false,
        };
        self.entries.has(n) || self.errors.has(n)
    }

    /// How many results there are: with `update` as of now, else as of the
    /// last update.
    pub fn results_cnt(&mut self, update: Option<bool>) -> (r: usize)
        ensures
            r == capped(
                old(self)@.entries.count(or_default(update, false)) + old(self)@.errors.count(
                    or_default(update, false),
                ),
            ),
            final(self)@ == (ScandirModel {
                entries: old(self)@.entries.after_count(or_default(update, false)),
                errors: old(self)@.errors.after_count(or_default(update, false)),
                ..old(self)@
            }),
    {
        let u = match update {
            Some(b) => b,
            None => false,
        };
        let a = self.entries.count(u);
        let b = self.errors.count(u);
        if a <= usize::MAX - b {
            a + b
        } else {
            usize::MAX
        }
    }

    /// The entries and the errors: with `return_all` all of them, else
    /// those that were not handed out as new, which then are.
    pub fn results(&mut self, return_all: Option<bool>) -> (r: (
        Vec<ScandirResult>,
        Vec<(String, String)>,
    ))
        ensures
            views(r.0@) == old(self)@.entries.taken(or_default(return_all, false)),
            views(r.1@) == old(self)@.errors.taken(or_default(return_all, false)),
            final(self)@ == old(self)@.after_results(or_default(return_all, false)),
            old(self)@.wf() ==> final(self)@.wf(),
    {
        let all = match return_all {
            Some(b) => b,
            None => false,
        };
        let es = self.entries.take(all);
        let xs = self.errors.take(all);
        (es, xs)
    }

    /// Whether there are entries, or with `only_new` entries that were not
    /// handed out as new.
    pub fn has_entries(&self, only_new: Option<bool>) -> (r: bool)
        ensures
            r == self@.entries.has(or_default(only_new, false)),
    {
        let n = match only_new {
            Some(b) => b,
            None => false,
        };
        self.entries.has(n)
    }

    /// How many entries there are: with `update` as of now, else as of the
    /// last update.
    pub fn entries_cnt(&mut self, update: Option<bool>) -> (r: usize)
        ensures
            r == old(self)@.entries.count(or_default(update, false)),
            final(self)@ == (ScandirModel {
                entries: old(self)@.entries.after_count(or_default(update, false)),
                ..old(self)@
            }),
    {
        let u = match update {
            Some(b) => b,
            None => false,
        };
        self.entries.count(u)
    }

    /// The entries: with `return_all` all of them, else those that were not
    /// handed out as new, which then are.
    pub fn entries(&mut self, return_all: Option<bool>) -> (r: Vec<ScandirResult>)
        ensures
            views(r@) == old(self)@.entries.taken(or_default(return_all, false)),
            final(self)@ == (ScandirModel {
                entries: old(self)@.entries.after_take(or_default(return_all, false)),
                ..old(self)@
            }),
            old(self)@.wf() ==> final(self)@.wf(),
    {
        let all = match return_all {
            Some(b) => b,
            None => false,
        };
        self.entries.take(all)
    }

    /// Whether there are errors.
    pub fn has_errors(&self) -> (r: bool)
        ensures
            r == self@.errors.has(false),
    {
        self.errors.has(false)
    }

    /// How many errors there are: with `update` as of now, else as of the
    /// last update.
    pub fn errors_cnt(&mut self, update: Option<bool>) -> (r: usize)
        ensures
            r == old(self)@.errors.count(or_default(update, false)),
            final(self)@ == (ScandirModel {
                errors: old(self)@.errors.after_count(or_default(update, false)),
                ..old(self)@
            }),
    {
        let u = match update {
            Some(b) => b,
            None => false,
        };
        self.errors.count(u)
    }

    /// The errors, each with its path: with `return_all` all of them, else
    /// those that were not handed out as new, which then are.
    pub fn errors(&mut self, return_all: Option<bool>) -> (r: Vec<(String, String)>)
        ensures
            views(r@) == old(self)@.errors.taken(or_default(return_all, false)),
            final(self)@ == (ScandirModel {
                errors: old(self)@.errors.after_take(or_default(return_all, false)),
                ..old(self)@
            }),
            old(self)@.wf() ==> final(self)@.wf(),
    {
        let all = match return_all {
            Some(b) => b,
            None => false,
        };
        self.errors.take(all)
    }

    /// How long the scan has taken at the time `now`, in nanoseconds: still
    /// growing while a worker is at work, fixed once it has gone.
    pub fn duration(&self, now: u64) -> (r: u64)
        ensures
            r == self@.life.duration_at(now),
    {
        self.life.duration(now)
    }

    /// Whether the worker has gone.
    pub fn finished(&self) -> (r: bool)
        ensures
            r == (self@.life.state is Finished),
    {
        self.life.finished()
    }

    /// Whether a worker is at work.
    pub fn busy(&self) -> (r: bool)
        ensures
            r == self@.life.busy(),
    {
        self.life.busy()
    }

    /// All entries, each under its path.
    pub fn as_dict(&self) -> (d: Vec<(String, ScandirResult)>)
        ensures
            d@.len() == self@.entries.items.len(),
            forall|i: int|
                0 <= i < d@.len() ==> (#[trigger] d@[i]).1@ == self@.entries.items[i] && d@[i].0@
                    == self@.entries.items[i].path(),
    {
        let mut d: Vec<(String, ScandirResult)> = Vec::new();
        let es = self.entries.snapshot();
        let mut i: usize = 0;
        while i < es.len()
            invariant
                i <= es.len(),
                views(es@) == self@.entries.items,
                d@.len() == i,
                forall|k: int|
                    0 <= k < i ==> (#[trigger] d@[k]).1@ == self@.entries.items[k] && d@[k].0@
                        == self@.entries.items[k].path(),
            decreases es.len() - i,
        {
            let e = es[i].clone();
            assert(views(es@)[i as int] == es@[i as int]@);
            let path = match &e {
                ScandirResult::DirEntry(x) => x.path.clone(),
                ScandirResult::DirEntryExt(x) => x.path.clone(),
                ScandirResult::Error(x) => x.0.clone(),
            };
            d.push((path, e));
            i += 1;
        }
        d
    }

    /// Begins the iteration over the results of a new scan at the time
    /// `now`. Refused exactly when a worker is attached: an iteration that is
    /// under way cannot be begun again.
    pub fn iter(&mut self, now: u64) -> (r: Result<(), LifecycleError>)
        ensures
            r == old(self)@.life.start_result(),
            final(self)@ == old(self)@.started(now),
            old(self)@.wf() ==> final(self)@.wf(),
    {
        self.start(now)
    }

    /// One step of the iteration: the next entry that was not handed out;
    /// when there is none, the next error; when there is none either, the
    /// word to wait while the worker is at work, and the end when it has
    /// gone. At the end the worker is joined.
    pub fn next(&mut self) -> (r: IterStep)
        ensures
            r@ == old(self)@.next_item(),
            final(self)@ == old(self)@.after_next(),
            old(self)@.wf() ==> final(self)@.wf(),
    {
        match self.entries.next() {
            Some(e) => {
                return IterStep::Item(e);
            },
            None => {},
        }
        match self.errors.next() {
            Some(x) => {
                return IterStep::Item(ScandirResult::Error(x));
            },
            None => {},
        }
        if self.life.busy() {
            IterStep::Wait
        } else {
            let _ = self.life.join();
            IterStep::Done
        }
    }

    /// Enters a scope: starts a scan at the time `now`, as `start` does.
    pub fn enter(&mut self, now: u64) -> (r: Result<(), LifecycleError>)
        ensures
            r == old(self)@.life.start_result(),
            final(self)@ == old(self)@.started(now),
            old(self)@.wf() ==> final(self)@.wf(),
    {
        self.start(now)
    }

    /// Leaves a scope: asks the worker to stop, however the scope is left.
    /// While the worker is at work the caller has to wait and ask again;
    /// without a worker there is nothing to wait for.
    pub fn exit(&mut self) -> (r: Progress)
        ensures
            r == match old(self)@.life.end_result() {
                Ok(p) => p,
                Err(_) => Progress::Done,
            },
            final(self)@ == old(self)@.stopped(),
            old(self)@.wf() ==> final(self)@.wf(),
    {
        match self.life.stop() {
            Ok(p) => p,
            Err(_) => Progress::Done,
        }
    }
}

/// The answer handed to `collect` as a mathematical value.
pub open spec fn answer_model(a: Option<Result<Vec<Probe>, String>>) -> Option<
    Result<Seq<ProbeModel>, Seq<char>>,
> {
    match a {
        Some(l) => Some(listing_model(l)),
        None => None,
    }
}

/// A controller that has not scanned yet is well-formed, and so is one that
/// has just started.
pub proof fn lemma_fresh_wf(cfg: ConfigModel)
    ensures
        ScandirModel::fresh(cfg).wf(),
        WalkModel::at_root().wf(cfg),
        LogModel::<ResultModel>::empty().wf(),
{
    assert(file_entries(Seq::<ResultModel>::empty()) == 0);
}

/// Every step keeps a controller well-formed, provided the listings hold
/// valid names.
pub proof fn lemma_steps_keep_wf(
    m: ScandirModel,
    listing: Result<Seq<ProbeModel>, Seq<char>>,
    now: u64,
    flag: bool,
)
    requires
        m.wf(),
        listing is Ok ==> names_valid(listing->Ok_0),
    ensures
        m.started(now).wf(),
        m.fed(listing).wf(),
        m.exited(now).wf(),
        m.stopped().wf(),
        m.joined().wf(),
        m.cleared().wf(),
        m.after_results(flag).wf(),
        m.after_next().wf(),
        m.collected(None, now).wf(),
        m.collected(Some(listing), now).wf(),
{
    lemma_fresh_wf(m.cfg);
    lemma_fed_keeps_wf(m.walk, m.cfg, listing);
    lemma_absorb_keeps_wf(m, m.walk.fed(m.cfg, listing));
}

/// With a depth limit `d`, no result of a scan has a path with more than
/// `d` separators beyond the root: neither an entry nor an error.
pub proof fn lemma_depth_limit_holds(m: ScandirModel)
    requires
        m.wf(),
        m.cfg.max_depth > 0,
    ensures
        forall|i: int|
            0 <= i < m.entries.items.len() ==> depth_of((#[trigger] m.entries.items[i]).path())
                <= m.cfg.max_depth,
        forall|i: int|
            0 <= i < m.errors.items.len() ==> depth_of((#[trigger] m.errors.items[i]).0)
                <= m.cfg.max_depth,
{
}

/// With a limit `n` on files, a scan returns no more than `n` entries of
/// files.
pub proof fn lemma_file_limit_holds(m: ScandirModel)
    requires
        m.wf(),
        m.cfg.max_file_cnt > 0,
    ensures
        file_entries(m.entries.items) <= m.cfg.max_file_cnt,
{
}

/// The controller after a scan on the caller's own thread over the given
/// listings, one call of `collect` for each.
pub open spec fn collect_run(
    m: ScandirModel,
    listings: Seq<Result<Seq<ProbeModel>, Seq<char>>>,
    n: nat,
    now: u64,
) -> ScandirModel
    decreases n,
{
    if n == 0 || n > listings.len() {
        m.collected(None, now)
    } else {
        collect_run(m, listings, (n - 1) as nat, now).collected(Some(listings[n - 1]), now)
    }
}

/// The controller after a scan by a worker over the given listings, one
/// call of `feed` for each.
pub open spec fn worker_run(
    m: ScandirModel,
    listings: Seq<Result<Seq<ProbeModel>, Seq<char>>>,
    n: nat,
    now: u64,
) -> ScandirModel
    decreases n,
{
    if n == 0 || n > listings.len() {
        m.started(now)
    } else {
        worker_run(m, listings, (n - 1) as nat, now).fed(listings[n - 1])
    }
}

/// A scan on the caller's own thread and a scan by a worker, from the same
/// configuration and over the same listings, come to the same entries and
/// the same errors, in the same order: what `collect` has gathered is what
/// `results` returns in full after `start`, the worker's run and `join`.
pub proof fn lemma_collect_equals_background(
    m: ScandirModel,
    listings: Seq<Result<Seq<ProbeModel>, Seq<char>>>,
    n: nat,
    now: u64,
    end: u64,
)
    requires
        !m.life.attached,
        n <= listings.len(),
    ensures
        ({
            let c = collect_run(m, listings, n, now);
            let w = worker_run(m, listings, n, now).exited(end).joined();
            &&& c.entries.taken(true) == w.entries.taken(true)
            &&& c.errors.taken(true) == w.errors.taken(true)
            &&& c.walk == w.walk
            &&& c.cfg == w.cfg
            &&& worker_run(m, listings, n, now).life.busy()
            &&& c.life.busy() || c.walk.done()
        }),
    decreases n,
{
    if n > 0 {
        lemma_collect_equals_background(m, listings, (n - 1) as nat, now, end);
        let c = collect_run(m, listings, (n - 1) as nat, now);
        let w = worker_run(m, listings, (n - 1) as nat, now);
        let l = listings[n - 1];
        if !c.life.busy() {
            let st = w.walk.fed(w.cfg, l);
            assert(entries_of(st.visits, w.cfg.return_type) =~= Seq::<ResultModel>::empty());
            assert(errors_of(st.visits, w.cfg.return_type) =~= Seq::<
                (Seq<char>, Seq<char>),
            >::empty());
            assert(w.entries.items + Seq::<ResultModel>::empty() =~= w.entries.items);
            assert(w.errors.items + (Seq::<(Seq<char>, Seq<char>)>::empty() + Seq::<
                (Seq<char>, Seq<char>),
            >::empty()) =~= w.errors.items);
        }
    }
}

/// Whether two runs of listings hold, step by step, the same children in
/// whatever order, each name once.
pub open spec fn same_listings(
    la: Seq<Result<Seq<ProbeModel>, Seq<char>>>,
    lb: Seq<Result<Seq<ProbeModel>, Seq<char>>>,
    n: nat,
) -> bool {
    &&& n <= la.len()
    &&& n <= lb.len()
    &&& forall|i: int| 0 <= i < n ==> same_children(#[trigger] la[i], lb[i])
}

/// Where sorting is asked for, a scan does not depend on the order in which
/// the directories list their children: two workers that are fed, step by
/// step, listings of the same children come to the same state.
pub proof fn lemma_sorted_worker_runs_agree(
    m: ScandirModel,
    la: Seq<Result<Seq<ProbeModel>, Seq<char>>>,
    lb: Seq<Result<Seq<ProbeModel>, Seq<char>>>,
    n: nat,
    now: u64,
)
    requires
        m.cfg.sorted,
        same_listings(la, lb, n),
    ensures
        worker_run(m, la, n, now) == worker_run(m, lb, n, now),
        worker_run(m, la, n, now).cfg == m.cfg,
    decreases n,
{
    if n > 0 {
        lemma_sorted_worker_runs_agree(m, la, lb, (n - 1) as nat, now);
        let w = worker_run(m, la, (n - 1) as nat, now);
        assert(same_children(la[n - 1], lb[n - 1]));
        lemma_sorted_step_order_independent(w.walk, w.cfg, la[n - 1], lb[n - 1]);
    }
}

/// With sorting asked for, a scan on the caller's own thread and a scan by a
/// worker over the same tree come to the same entries and the same errors
/// in the same order, even where the directories of the one scan list their
/// children in another order than those of the other.
pub proof fn lemma_sorted_scans_agree(
    m: ScandirModel,
    la: Seq<Result<Seq<ProbeModel>, Seq<char>>>,
    lb: Seq<Result<Seq<ProbeModel>, Seq<char>>>,
    n: nat,
    now: u64,
    end: u64,
)
    requires
        m.cfg.sorted,
        !m.life.attached,
        same_listings(la, lb, n),
    ensures
        ({
            let c = collect_run(m, la, n, now);
            let w = worker_run(m, lb, n, now).exited(end).joined();
            &&& c.entries.taken(true) == w.entries.taken(true)
            &&& c.errors.taken(true) == w.errors.taken(true)
        }),
{
    lemma_collect_equals_background(m, la, n, now, end);
    lemma_sorted_worker_runs_agree(m, la, lb, n, now);
}

} // verus!
