//! The controller of a walk: every listed directory becomes one table of
//! contents, with its children grouped by kind.
//!
//! A walk is driven like a flat scan: by a worker beside the caller, or on
//! the caller's own thread. Besides the tables, one for each directory in
//! the order in which the directories were listed, the controller keeps the
//! table of the whole walk, which holds paths in place of names.
//!
//! The table of a directory is added when the listing of the directory has
//! been taken in, so that it always holds all of its children. Paths are
//! relative to the root, which has the empty path.

use crate::buffer::{Duplicate, Log, LogModel};
use crate::config::{
    construction_error, or_default, patterns_compile, ConfigModel, ConstructionError, RootStatus,
    TraversalConfig,
};
use crate::entry::{depth_of, FileKind, Probe, ProbeModel, ReturnType};
use crate::filter::{compiled, texts, FilterModel};
use crate::lifecycle::{Lifecycle, LifecycleError, LifecycleModel, Progress, ScanState};
use crate::scandir::{answer_model, failure_seq, same_listings};
use crate::stats::{clone_strings, strs};
use crate::traverse::{
    failure_model, file_visits, lemma_fed_keeps_wf, lemma_sorted_step_order_independent,
    listing_model, names_valid, same_children, sound_step, views, Pending, PendingModel, StepModel,
    Visit, VisitModel, WalkCore, WalkModel,
};
use vstd::prelude::*;

verus! {

/// A table of contents: the children of a directory by kind, and what could
/// not be read, each with its path and the reason.
#[derive(Debug, PartialEq, Eq)]
pub struct Toc {
    pub dirs: Vec<String>,
    pub files: Vec<String>,
    pub symlinks: Vec<String>,
    pub other: Vec<String>,
    pub errors: Vec<(String, String)>,
}

/// The mathematical value of a [`Toc`].
pub struct TocModel {
    pub dirs: Seq<Seq<char>>,
    pub files: Seq<Seq<char>>,
    pub symlinks: Seq<Seq<char>>,
    pub other: Seq<Seq<char>>,
    pub errors: Seq<(Seq<char>, Seq<char>)>,
}

impl View for Toc {
    type V = TocModel;

    open spec fn view(&self) -> TocModel {
        TocModel {
            dirs: strs(self.dirs@),
            files: strs(self.files@),
            symlinks: strs(self.symlinks@),
            other: strs(self.other@),
            errors: views(self.errors@),
        }
    }
}

/// Copies a list of errors.
fn clone_errors(v: &Vec<(String, String)>) -> (r: Vec<(String, String)>)
    ensures
        views(r@) == views(v@),
{
    let mut r: Vec<(String, String)> = Vec::new();
    let mut i: usize = 0;
    while i < v.len()
        invariant
            i <= v.len(),
            r@.len() == i,
            forall|k: int| 0 <= k < i ==> (#[trigger] r@[k])@ == v@[k]@,
        decreases v.len() - i,
    {
        r.push((v[i].0.clone(), v[i].1.clone()));
        i += 1;
    }
    assert(views(r@) =~= views(v@));
    r
}

impl Clone for Toc {
    fn clone(&self) -> (r: Self)
        ensures
            r@ == self@,
    {
        Toc {
            dirs: clone_strings(&self.dirs),
            files: clone_strings(&self.files),
            symlinks: clone_strings(&self.symlinks),
            other: clone_strings(&self.other),
            errors: clone_errors(&self.errors),
        }
    }
}

impl Duplicate for Toc {
    fn duplicate(&self) -> (r: Self) {
        self.clone()
    }
}

impl TocModel {
    /// The table that holds nothing.
    pub open spec fn empty() -> TocModel {
        TocModel {
            dirs: Seq::empty(),
            files: Seq::empty(),
            symlinks: Seq::empty(),
            other: Seq::empty(),
            errors: Seq::empty(),
        }
    }

    /// The table with the failure of a listing behind its errors.
    pub open spec fn with_failure(self, f: Option<(Seq<char>, Seq<char>)>) -> TocModel {
        TocModel { errors: self.errors + failure_seq(f), ..self }
    }

    /// The table with one more visited child: under its path or its name
    /// in the list of its kind, or among the errors, under its path, where
    /// it could not be read.
    pub open spec fn with_visit(self, v: VisitModel, use_paths: bool) -> TocModel {
        let label = if use_paths {
            v.path
        } else {
            v.name
        };
        match v.stat {
            Err(m) => TocModel { errors: self.errors.push((v.path, m)), ..self },
            Ok(s) => match s.kind {
                FileKind::Dir => TocModel { dirs: self.dirs.push(label), ..self },
                FileKind::File => TocModel { files: self.files.push(label), ..self },
                FileKind::Symlink => TocModel { symlinks: self.symlinks.push(label), ..self },
                FileKind::Other => TocModel { other: self.other.push(label), ..self },
            },
        }
    }

    /// The table with the visited children behind what it holds.
    pub open spec fn with_visits(self, vs: Seq<VisitModel>, use_paths: bool) -> TocModel
        decreases vs.len(),
    {
        if vs.len() == 0 {
            self
        } else {
            self.with_visits(vs.drop_last(), use_paths).with_visit(vs.last(), use_paths)
        }
    }

    /// How many files the table holds.
    pub open spec fn file_cnt(self) -> nat {
        self.files.len()
    }

    /// Whether every path of the table lies no deeper than `bound`.
    pub open spec fn within(self, bound: nat) -> bool {
        &&& forall|i: int| 0 <= i < self.dirs.len() ==> depth_of(#[trigger] self.dirs[i]) <= bound
        &&& forall|i: int| 0 <= i < self.files.len() ==> depth_of(#[trigger] self.files[i]) <= bound
        &&& forall|i: int|
            0 <= i < self.symlinks.len() ==> depth_of(#[trigger] self.symlinks[i]) <= bound
        &&& forall|i: int| 0 <= i < self.other.len() ==> depth_of(#[trigger] self.other[i]) <= bound
        &&& forall|i: int|
            0 <= i < self.errors.len() ==> depth_of((#[trigger] self.errors[i]).0) <= bound
    }

    /// Whether the table holds an error.
    pub open spec fn has_errors(self) -> bool {
        self.errors.len() > 0
    }
}

/// The table of the directory that a step of the walk has listed.
pub open spec fn table_of(st: StepModel) -> TocModel {
    TocModel::empty().with_failure(st.failure).with_visits(st.visits, false)
}

impl Toc {
    /// The table that holds nothing.
    pub fn new() -> (r: Toc)
        ensures
            r@ == TocModel::empty(),
    {
        let r = Toc {
            dirs: Vec::new(),
            files: Vec::new(),
            symlinks: Vec::new(),
            other: Vec::new(),
            errors: Vec::new(),
        };
        assert(r@.dirs =~= Seq::<Seq<char>>::empty());
        assert(r@.files =~= Seq::<Seq<char>>::empty());
        assert(r@.symlinks =~= Seq::<Seq<char>>::empty());
        assert(r@.other =~= Seq::<Seq<char>>::empty());
        assert(r@.errors =~= Seq::<(Seq<char>, Seq<char>)>::empty());
        r
    }

    /// Drops everything.
    pub fn clear(&mut self)
        ensures
            final(self)@ == TocModel::empty(),
    {
        self.dirs.clear();
        self.files.clear();
        self.symlinks.clear();
        self.other.clear();
        self.errors.clear();
        assert(self@.dirs =~= Seq::<Seq<char>>::empty());
        assert(self@.files =~= Seq::<Seq<char>>::empty());
        assert(self@.symlinks =~= Seq::<Seq<char>>::empty());
        assert(self@.other =~= Seq::<Seq<char>>::empty());
        assert(self@.errors =~= Seq::<(Seq<char>, Seq<char>)>::empty());
    }

    /// Adds the failure of a listing, if there is one.
    pub fn add_failure(&mut self, f: &Option<(String, String)>)
        ensures
            final(self)@ == old(self)@.with_failure(failure_model(*f)),
    {
        match f {
            Some(e) => {
                self.errors.push((e.0.clone(), e.1.clone()));
                assert(self@.errors =~= old(self)@.errors + seq![(e.0@, e.1@)]);
            },
            None => {
                assert(self@.errors =~= old(self)@.errors + Seq::<(Seq<char>, Seq<char>)>::empty());
            },
        }
    }

    /// Adds one visited child.
    pub fn add_visit(&mut self, v: &Visit, use_paths: bool)
        ensures
            final(self)@ == old(self)@.with_visit(v@, use_paths),
    {
        let label = if use_paths {
            v.path.clone()
        } else {
            v.name.clone()
        };
        match &v.stat {
            Err(m) => {
                self.errors.push((v.path.clone(), m.clone()));
                assert(self@.errors =~= old(self)@.errors.push((v@.path, m@)));
            },
            Ok(s) => match s.kind {
                FileKind::Dir => {
                    self.dirs.push(label);
                    assert(self@.dirs =~= old(self)@.dirs.push(label@));
                },
                FileKind::File => {
                    self.files.push(label);
                    assert(self@.files =~= old(self)@.files.push(label@));
                },
                FileKind::Symlink => {
                    self.symlinks.push(label);
                    assert(self@.symlinks =~= old(self)@.symlinks.push(label@));
                },
                FileKind::Other => {
                    self.other.push(label);
                    assert(self@.other =~= old(self)@.other.push(label@));
                },
            },
        }
    }
}

/// The mathematical value of a [`Walk`].
pub struct TocScanModel {
    pub cfg: ConfigModel,
    pub life: LifecycleModel,
    pub walk: WalkModel,
    /// The tables, each with the path of its directory.
    pub items: LogModel<(Seq<char>, TocModel)>,
    /// The table of the whole walk, with paths in place of names.
    pub total: TocModel,
}

impl TocScanModel {
    /// The parts are well-formed; with a depth limit no path of the whole
    /// table lies deeper than the limit; with a limit on files the whole
    /// table holds as many files as the walk has counted, which is no more
    /// than the limit.
    pub open spec fn wf(self) -> bool {
        &&& self.life.wf()
        &&& self.walk.wf(self.cfg)
        &&& self.items.wf()
        &&& self.cfg.max_depth > 0 ==> self.total.within(self.cfg.max_depth as nat)
        &&& self.cfg.max_file_cnt > 0 ==> self.total.file_cnt() == self.walk.file_cnt
    }

    /// A controller that has not walked yet.
    pub open spec fn fresh(cfg: ConfigModel) -> TocScanModel {
        TocScanModel {
            cfg,
            life: LifecycleModel::idle(),
            walk: WalkModel::at_root(),
            items: LogModel::empty(),
            total: TocModel::empty(),
        }
    }

    /// The controller after `start` at the time `now`.
    pub open spec fn started(self, now: u64) -> TocScanModel {
        if self.life.attached {
            self
        } else {
            TocScanModel {
                life: self.life.started(now),
                walk: WalkModel::at_root(),
                items: LogModel::empty(),
                total: TocModel::empty(),
                ..self
            }
        }
    }

    /// The directory that the driver of the walk has to list next.
    pub open spec fn request(self) -> Option<PendingModel> {
        if self.life.state is Running && !self.walk.done() {
            Some(self.walk.pending.last())
        } else {
            None
        }
    }

    /// The controller after a listing was fed: the table of the listed
    /// directory is added, and the whole table grows by what was visited.
    /// Without a worker at work, and when no directory waits, the listing is
    /// dropped.
    pub open spec fn fed(self, listing: Result<Seq<ProbeModel>, Seq<char>>) -> TocScanModel {
        if !self.life.busy() || self.walk.done() {
            self
        } else {
            let st = self.walk.fed(self.cfg, listing);
            TocScanModel {
                walk: st.walk,
                items: self.items.pushed((self.walk.pending.last().path, table_of(st))),
                total: self.total.with_failure(st.failure).with_visits(st.visits, true),
                ..self
            }
        }
    }

    /// The controller after the worker has reported its exit.
    pub open spec fn exited(self, now: u64) -> TocScanModel {
        TocScanModel { life: self.life.exited(now), ..self }
    }

    /// The controller after `stop`.
    pub open spec fn stopped(self) -> TocScanModel {
        TocScanModel { life: self.life.stopped(), ..self }
    }

    /// The controller after `join`.
    pub open spec fn joined(self) -> TocScanModel {
        TocScanModel { life: self.life.joined(), ..self }
    }

    /// The controller after `clear`.
    pub open spec fn cleared(self) -> TocScanModel {
        if self.life.busy() {
            self
        } else {
            TocScanModel {
                life: self.life.cleared(),
                walk: WalkModel::at_root(),
                items: LogModel::empty(),
                total: TocModel::empty(),
                ..self
            }
        }
    }

    /// A walk on the caller's own thread after a step: finished and joined
    /// where nothing waits to be listed.
    pub open spec fn settled(self, now: u64) -> TocScanModel {
        if self.walk.done() {
            TocScanModel { life: self.life.exited(now).joined(), ..self }
        } else {
            self
        }
    }

    /// The controller after one call of `collect`.
    pub open spec fn collected(
        self,
        answer: Option<Result<Seq<ProbeModel>, Seq<char>>>,
        now: u64,
    ) -> TocScanModel {
        match answer {
            None => if self.life.attached {
                self
            } else {
                self.started(now).settled(now)
            },
            Some(l) => if !self.life.busy() {
                self
            } else {
                self.fed(l).settled(now)
            },
        }
    }

    /// What one step of the iteration yields.
    pub open spec fn next_item(self) -> WalkStepModel {
        match self.items.next() {
            Some(item) => if self.cfg.return_type is Walk {
                WalkStepModel::Short(item.0, item.1.dirs, item.1.files)
            } else {
                WalkStepModel::Full(item.0, item.1)
            },
            None => if self.life.busy() {
                WalkStepModel::Wait
            } else {
                WalkStepModel::Done
            },
        }
    }

    /// The controller after one step of the iteration.
    pub open spec fn after_next(self) -> TocScanModel {
        if self.items.next() is Some {
            TocScanModel { items: self.items.after_next(), ..self }
        } else {
            self.joined()
        }
    }
}

/// What one step of the iteration over a walk yields.
#[derive(Debug, PartialEq, Eq)]
pub enum WalkStep {
    /// The path of the next directory with its directories and its files.
    Short(String, Vec<String>, Vec<String>),
    /// The path of the next directory with its whole table.
    Full(String, Toc),
    /// Nothing is there yet and the worker is at work: wait a little, then
    /// ask again.
    Wait,
    /// Everything was yielded and the worker has gone.
    Done,
}

/// The mathematical value of a [`WalkStep`].
pub enum WalkStepModel {
    Short(Seq<char>, Seq<Seq<char>>, Seq<Seq<char>>),
    Full(Seq<char>, TocModel),
    Wait,
    Done,
}

impl View for WalkStep {
    type V = WalkStepModel;

    open spec fn view(&self) -> WalkStepModel {
        match self {
            WalkStep::Short(p, d, f) => WalkStepModel::Short(p@, strs(d@), strs(f@)),
            WalkStep::Full(p, t) => WalkStepModel::Full(p@, t@),
            WalkStep::Wait => WalkStepModel::Wait,
            WalkStep::Done => WalkStepModel::Done,
        }
    }
}

/// What a call of `collect` on a walk answers.
#[derive(Debug, PartialEq, Eq)]
pub enum CollectToc {
    /// The directory with this path is to be listed and the listing handed
    /// to the next call.
    Need(String),
    /// The walk is complete: the table of the whole walk.
    Done(Toc),
}

/// The mathematical value of a [`CollectToc`].
pub enum CollectTocModel {
    Need(Seq<char>),
    Done(TocModel),
}

impl View for CollectToc {
    type V = CollectTocModel;

    open spec fn view(&self) -> CollectTocModel {
        match self {
            CollectToc::Need(p) => CollectTocModel::Need(p@),
            CollectToc::Done(t) => CollectTocModel::Done(t@),
        }
    }
}

/// What a walk on the caller's own thread answers after a step.
pub open spec fn collect_answer(m: TocScanModel) -> CollectTocModel {
    if m.walk.done() {
        CollectTocModel::Done(m.total)
    } else {
        CollectTocModel::Need(m.walk.pending.last().path)
    }
}

/// What `collect` returns.
pub open spec fn collect_result(
    m: TocScanModel,
    answer: Option<Result<Seq<ProbeModel>, Seq<char>>>,
    now: u64,
) -> Result<CollectTocModel, LifecycleError> {
    match answer {
        None => if m.life.attached {
            Err(LifecycleError::AlreadyRunning)
        } else {
            Ok(collect_answer(m.started(now)))
        },
        Some(l) => if !m.life.busy() {
            Err(LifecycleError::NotRunning)
        } else {
            Ok(collect_answer(m.fed(l)))
        },
    }
}

/// The controller of a walk.
#[derive(Debug)]
pub struct Walk {
    cfg: TraversalConfig,
    life: Lifecycle,
    walk: WalkCore,
    items: Log<(String, Toc)>,
    total: Toc,
}

impl View for Walk {
    type V = TocScanModel;

    closed spec fn view(&self) -> TocScanModel {
        TocScanModel {
            cfg: self.cfg@,
            life: self.life@,
            walk: self.walk@,
            items: self.items@,
            total: self.total@,
        }
    }
}

/// What the visits of a sound step add to a table of paths lies within the
/// depth limit, and adds as many files as there are visits of files.
proof fn lemma_with_visits_props(t: TocModel, vs: Seq<VisitModel>, bound: nat, bounded: bool)
    requires
        bounded ==> t.within(bound),
        bounded ==> forall|k: int| 0 <= k < vs.len() ==> depth_of((#[trigger] vs[k]).path) <= bound,
    ensures
        bounded ==> t.with_visits(vs, true).within(bound),
        t.with_visits(vs, true).file_cnt() == t.file_cnt() + file_visits(vs),
    decreases vs.len(),
{
    if vs.len() > 0 {
        let d = vs.drop_last();
        if bounded {
            assert forall|k: int| 0 <= k < d.len() implies depth_of((#[trigger] d[k]).path)
                <= bound by {
                assert(d[k] == vs[k]);
            }
        }
        lemma_with_visits_props(t, d, bound, bounded);
        let b = t.with_visits(d, true);
        let v = vs.last();
        assert(v == vs[vs.len() - 1]);
        let a = b.with_visit(v, true);
        if bounded {
            assert forall|i: int| 0 <= i < a.dirs.len() implies depth_of(#[trigger] a.dirs[i])
                <= bound by {
                if i < b.dirs.len() {
                    assert(a.dirs[i] == b.dirs[i]);
                }
            }
            assert forall|i: int| 0 <= i < a.files.len() implies depth_of(#[trigger] a.files[i])
                <= bound by {
                if i < b.files.len() {
                    assert(a.files[i] == b.files[i]);
                }
            }
            assert forall|i: int| 0 <= i < a.symlinks.len() implies depth_of(
                #[trigger] a.symlinks[i],
            ) <= bound by {
                if i < b.symlinks.len() {
                    assert(a.symlinks[i] == b.symlinks[i]);
                }
            }
            assert forall|i: int| 0 <= i < a.other.len() implies depth_of(#[trigger] a.other[i])
                <= bound by {
                if i < b.other.len() {
                    assert(a.other[i] == b.other[i]);
                }
            }
            assert forall|i: int| 0 <= i < a.errors.len() implies depth_of(
                (#[trigger] a.errors[i]).0,
            ) <= bound by {
                if i < b.errors.len() {
                    assert(a.errors[i] == b.errors[i]);
                }
            }
        }
    }
}

/// Taking in a sound step of the walk keeps the controller well-formed.
proof fn lemma_fed_step_keeps_wf(m: TocScanModel, listing: Result<Seq<ProbeModel>, Seq<char>>)
    requires
        m.wf(),
        sound_step(m.walk, m.cfg, m.walk.fed(m.cfg, listing)),
    ensures
        m.fed(listing).wf(),
{
    if m.life.busy() && !m.walk.done() {
        let st = m.walk.fed(m.cfg, listing);
        let bounded = m.cfg.max_depth > 0;
        let bound = m.cfg.max_depth as nat;
        let t = m.total.with_failure(st.failure);
        if bounded {
            assert forall|i: int| 0 <= i < t.errors.len() implies depth_of(
                (#[trigger] t.errors[i]).0,
            ) <= bound by {
                if i < m.total.errors.len() {
                    assert(t.errors[i] == m.total.errors[i]);
                }
            }
        }
        lemma_with_visits_props(t, st.visits, bound, bounded);
    }
}

impl Walk {
    /// Sets up a walk of `root_path`. `root` tells what the caller found
    /// there. An option that is left out is off, a limit that is left out
    /// is 0, which means none; without a `return_type` the iteration yields
    /// the directories and files of each directory only. Fails with
    /// `NotFound` where the root is missing, with `IoError` where it could
    /// not be looked at, and else with `InvalidInput` where a pattern does
    /// not compile.
    pub fn new(
        root_path: &str,
        root: RootStatus,
        sorted: Option<bool>,
        skip_hidden: Option<bool>,
        max_depth: Option<usize>,
        max_file_cnt: Option<usize>,
        dir_include: Option<Vec<String>>,
        dir_exclude: Option<Vec<String>>,
        file_include: Option<Vec<String>>,
        file_exclude: Option<Vec<String>>,
        case_sensitive: Option<bool>,
        return_type: Option<ReturnType>,
    ) -> (r: Result<Walk, ConstructionError>)
        ensures
            match construction_error(
                root,
                patterns_compile(dir_include, dir_exclude, file_include, file_exclude),
            ) {
                Some(e) => r == Err::<Walk, ConstructionError>(e),
                None => r is Ok && r->Ok_0@ == TocScanModel::fresh(
                    ConfigModel {
                        root_path: root_path@,
                        sorted: or_default(sorted, false),
                        skip_hidden: or_default(skip_hidden, false),
                        max_depth: or_default(max_depth, 0),
                        max_file_cnt: or_default(max_file_cnt, 0),
                        filter: FilterModel {
                            dir_include: compiled(texts(dir_include)),
                            dir_exclude: compiled(texts(dir_exclude)),
                            file_include: compiled(texts(file_include)),
                            file_exclude: compiled(texts(file_exclude)),
                            case_sensitive: or_default(case_sensitive, false),
                        },
                        return_type: or_default(return_type, ReturnType::Walk),
                    },
                ) && r->Ok_0@.wf(),
            },
    {
        let rt = match return_type {
            Some(t) => t,
            None => ReturnType::Walk,
        };
        let cfg = match TraversalConfig::new(
            root_path,
            root,
            sorted,
            skip_hidden,
            max_depth,
            max_file_cnt,
            dir_include,
            dir_exclude,
            file_include,
            file_exclude,
            case_sensitive,
            rt,
        ) {
            Ok(c) => c,
            Err(e) => {
                return Err(e);
            },
        };
        let r = Walk {
            cfg,
            life: Lifecycle::new(),
            walk: WalkCore::new(),
            items: Log::new(),
            total: Toc::new(),
        };
        Ok(r)
    }

    /// The configuration.
    pub fn config(&self) -> (r: &TraversalConfig)
        ensures
            r@ == self@.cfg,
    {
        &self.cfg
    }

    /// Back to idle, with no tables. Refused exactly while a worker is at
    /// work.
    pub fn clear(&mut self) -> (r: Result<(), LifecycleError>)
        ensures
            r == old(self)@.life.clear_result(),
            final(self)@ == old(self)@.cleared(),
            old(self)@.wf() ==> final(self)@.wf(),
    {
        match self.life.clear() {
            Err(e) => Err(e),
            Ok(()) => {
                self.walk.reset();
                self.items.clear();
                self.total.clear();
                Ok(())
            },
        }
    }

    /// Starts a walk at the time `now`, for a worker to drive. Refused
    /// exactly when a worker is attached. The tables of an earlier walk are
    /// dropped.
    pub fn start(&mut self, now: u64) -> (r: Result<(), LifecycleError>)
        ensures
            r == old(self)@.life.start_result(),
            final(self)@ == old(self)@.started(now),
            old(self)@.wf() ==> final(self)@.wf(),
    {
        match self.life.start(now) {
            Err(e) => Err(e),
            Ok(()) => {
                self.walk.reset();
                self.items.clear();
                self.total.clear();
                Ok(())
            },
        }
    }

    /// Joins the worker without asking it to stop. Refused exactly when no
    /// worker is attached. While the worker is at work the caller has to
    /// wait and ask again.
    pub fn join(&mut self) -> (r: Result<Progress, LifecycleError>)
        ensures
            r == old(self)@.life.end_result(),
            final(self)@ == old(self)@.joined(),
            old(self)@.wf() ==> final(self)@.wf(),
    {
        self.life.join()
    }

    /// Asks the worker to stop: it is given no further directory. Refused
    /// exactly when no worker is attached. While the worker is at work the
    /// caller has to wait and ask again; once it has gone it is joined.
    pub fn stop(&mut self) -> (r: Result<Progress, LifecycleError>)
        ensures
            r == old(self)@.life.end_result(),
            final(self)@ == old(self)@.stopped(),
            old(self)@.wf() ==> final(self)@.wf(),
    {
        self.life.stop()
    }

    /// The directory that the driver of the walk has to list next, if the
    /// walk goes on.
    pub fn next_dir(&self) -> (r: Option<Pending>)
        ensures
            match r {
                Some(p) => self@.request() == Some(p@),
                None => self@.request() is None,
            },
    {
        match self.life.state() {
            ScanState::Running => {},
            _ => {
                return None;
            },
        }
        match self.walk.next_dir() {
            Some(p) => Some(Pending { path: p.path.clone(), depth: p.depth }),
            None => None,
        }
    }

    /// Takes the listing of the directory that was asked for and adds the
    /// table of that directory. Without a worker at work, and when no
    /// directory waits, the listing is dropped.
    pub fn feed(&mut self, listing: Result<Vec<Probe>, String>)
        ensures
            final(self)@ == old(self)@.fed(listing_model(listing)),
            old(self)@.wf() ==> final(self)@.wf(),
    {
        if !self.life.busy() {
            return ;
        }
        let dir_path = match self.walk.next_dir() {
            Some(p) => p.path.clone(),
            None => {
                return ;
            },
        };
        let ghost start = self@;
        let ghost st = start.walk.fed(start.cfg, listing_model(listing));
        let step = self.walk.feed(&self.cfg, listing);
        let mut toc = Toc::new();
        toc.add_failure(&step.failure);
        self.total.add_failure(&step.failure);
        let visits = step.visits;
        let ghost base = toc@;
        let ghost total_base = self.total@;
        let mut i: usize = 0;
        assert(st.visits.take(0) =~= Seq::<VisitModel>::empty());
        while i < visits.len()
            invariant
                i <= visits.len(),
                views(visits@) == st.visits,
                self.cfg@ == start.cfg,
                self.life@ == start.life,
                self.walk@ == st.walk,
                self.items@ == start.items,
                toc@ == base.with_visits(st.visits.take(i as int), false),
                self.total@ == total_base.with_visits(st.visits.take(i as int), true),
            decreases visits.len() - i,
        {
            let v = &visits[i];
            proof {
                assert(st.visits.take(i + 1).drop_last() =~= st.visits.take(i as int));
                assert(st.visits.take(i + 1).last() == v@);
            }
            toc.add_visit(v, false);
            self.total.add_visit(v, true);
            i += 1;
        }
        proof {
            assert(st.visits.take(visits.len() as int) =~= st.visits);
        }
        self.items.push((dir_path, toc));
        proof {
            if start.wf() {
                lemma_fed_step_keeps_wf(start, listing_model(listing));
            }
        }
    }

    /// The worker reports at the time `now` that it has gone. From then on
    /// the walk is not busy, whether or not it was asked to stop.
    pub fn worker_exit(&mut self, now: u64)
        ensures
            final(self)@ == old(self)@.exited(now),
            !final(self)@.life.busy(),
            old(self)@.wf() ==> final(self)@.wf(),
    {
        self.life.exit(now);
    }

    /// One step of a walk on the caller's own thread. The first call, with
    /// no answer, begins the walk at the time `now`; it is refused with
    /// `AlreadyRunning` exactly when a worker is attached. Every further
    /// call hands in the listing that the call before asked for; it is
    /// refused with `NotRunning` exactly when no walk is at work. The call
    /// answers with the path of the directory to list next or, when nothing
    /// waits any more, with the table of the whole walk, which is then
    /// finished.
    pub fn collect(&mut self, answer: Option<Result<Vec<Probe>, String>>, now: u64) -> (r: Result<
        CollectToc,
        LifecycleError,
    >)
        ensures
            match r {
                Ok(c) => collect_result(old(self)@, answer_model(answer), now) == Ok::<
                    CollectTocModel,
                    LifecycleError,
                >(c@),
                Err(e) => collect_result(old(self)@, answer_model(answer), now) == Err::<
                    CollectTocModel,
                    LifecycleError,
                >(e),
            },
            final(self)@ == old(self)@.collected(answer_model(answer), now),
            old(self)@.wf() ==> final(self)@.wf(),
    {
        match answer {
            None => {
                match self.start(now) {
                    Err(e) => {
                        return Err(e);
                    },
                    Ok(()) => {},
                }
            },
            Some(l) => {
                if !self.life.busy() {
                    return Err(LifecycleError::NotRunning);
                }
                self.feed(l);
            },
        }
        match self.walk.next_dir() {
            Some(p) => Ok(CollectToc::Need(p.path.clone())),
            None => {
                self.life.exit(now);
                let _ = self.life.join();
                Ok(CollectToc::Done(self.total.clone()))
            },
        }
    }

    /// The tables, each with the path of its directory: with `return_all`
    /// all of them, else those that were not handed out as new, which then
    /// are.
    pub fn results(&mut self, return_all: Option<bool>) -> (r: Vec<(String, Toc)>)
        ensures
            views(r@) == old(self)@.items.taken(or_default(return_all, false)),
            final(self)@ == (TocScanModel {
                items: old(self)@.items.after_take(or_default(return_all, false)),
                ..old(self)@
            }),
            old(self)@.wf() ==> final(self)@.wf(),
    {
        let all = match return_all {
            Some(b) => b,
            None => false,
        };
        self.items.take(all)
    }

    /// How long the walk has taken at the time `now`, in nanoseconds: still
    /// growing while a worker is at work, fixed once it has gone.
    pub fn duration(&self, now: u64) -> (r: u64)
        ensures
            r == self@.life.duration_at(now),
    {
        self.life.duration(now)
    }

    /// Whether the worker has gone.
    pub fn finished(&self) -> (r: bool)
        ensures
            r == (self@.life.state is Finished),
    {
        self.life.finished()
    }

    /// Whether anything could not be read so far.
    pub fn has_errors(&self) -> (r: bool)
        ensures
            r == self@.total.has_errors(),
    {
        self.total.errors.len() > 0
    }

    /// Whether a worker is at work.
    pub fn busy(&self) -> (r: bool)
        ensures
            r == self@.life.busy(),
    {
        self.life.busy()
    }

    /// Begins the iteration over the tables of a new walk at the time
    /// `now`. Refused exactly when a worker is attached: an iteration that is
    /// under way cannot be begun again.
    pub fn iter(&mut self, now: u64) -> (r: Result<(), LifecycleError>)
        ensures
            r == old(self)@.life.start_result(),
            final(self)@ == old(self)@.started(now),
            old(self)@.wf() ==> final(self)@.wf(),
    {
        self.start(now)
    }

    /// One step of the iteration: the next table that was not handed out,
    /// in the shape that the configuration asks for; when there is none,
    /// the word to wait while the worker is at work, and the end when it has
    /// gone. At the end the worker is joined.
    pub fn next(&mut self) -> (r: WalkStep)
        ensures
            r@ == old(self)@.next_item(),
            final(self)@ == old(self)@.after_next(),
            old(self)@.wf() ==> final(self)@.wf(),
    {
        match self.items.next() {
            Some(item) => {
                let short = match self.cfg.return_type() {
                    ReturnType::Walk => true,
                    _ => false,
                };
                if short {
                    let (path, toc) = item;
                    WalkStep::Short(path, toc.dirs, toc.files)
                } else {
                    let (path, toc) = item;
                    WalkStep::Full(path, toc)
                }
            },
            None => {
                if self.life.busy() {
                    WalkStep::Wait
                } else {
                    let _ = self.life.join();
                    WalkStep::Done
                }
            },
        }
    }

    /// Enters a scope: starts a walk at the time `now`, as `start` does.
    pub fn enter(&mut self, now: u64) -> (r: Result<(), LifecycleError>)
        ensures
            r == old(self)@.life.start_result(),
            final(self)@ == old(self)@.started(now),
            old(self)@.wf() ==> final(self)@.wf(),
    {
        self.start(now)
    }

    /// Leaves a scope: asks the worker to stop, however the scope is left.
    /// While the worker is at work the caller has to wait and ask again;
    /// without a worker there is nothing to wait for.
    pub fn exit(&mut self) -> (r: Progress)
        ensures
            r == match old(self)@.life.end_result() {
                Ok(p) => p,
                Err(_) => Progress::Done,
            },
            final(self)@ == old(self)@.stopped(),
            old(self)@.wf() ==> final(self)@.wf(),
    {
        match self.life.stop() {
            Ok(p) => p,
            Err(_) => Progress::Done,
        }
    }
}

/// Every step keeps a walk well-formed, provided the listings hold valid
/// names.
pub proof fn lemma_walk_steps_keep_wf(
    m: TocScanModel,
    listing: Result<Seq<ProbeModel>, Seq<char>>,
    now: u64,
)
    requires
        m.wf(),
        listing is Ok ==> names_valid(listing->Ok_0),
    ensures
        TocScanModel::fresh(m.cfg).wf(),
        m.started(now).wf(),
        m.fed(listing).wf(),
        m.exited(now).wf(),
        m.stopped().wf(),
        m.joined().wf(),
        m.cleared().wf(),
        m.after_next().wf(),
        m.collected(None, now).wf(),
        m.collected(Some(listing), now).wf(),
{
    lemma_fed_keeps_wf(m.walk, m.cfg, listing);
    lemma_fed_step_keeps_wf(m, listing);
}

/// With a depth limit `d`, no path in the table of a whole walk has more
/// than `d` separators beyond the root.
pub proof fn lemma_walk_depth_limit_holds(m: TocScanModel)
    requires
        m.wf(),
        m.cfg.max_depth > 0,
    ensures
        m.total.within(m.cfg.max_depth as nat),
{
}

/// With a limit `n` on files, the table of a whole walk holds no more than
/// `n` files.
pub proof fn lemma_walk_file_limit_holds(m: TocScanModel)
    requires
        m.wf(),
        m.cfg.max_file_cnt > 0,
    ensures
        m.total.file_cnt() <= m.cfg.max_file_cnt,
{
}

/// The controller after a walk on the caller's own thread over the given
/// listings, one call of `collect` for each.
pub open spec fn collect_run(
    m: TocScanModel,
    listings: Seq<Result<Seq<ProbeModel>, Seq<char>>>,
    n: nat,
    now: u64,
) -> TocScanModel
    decreases n,
{
    if n == 0 || n > listings.len() {
        m.collected(None, now)
    } else {
        collect_run(m, listings, (n - 1) as nat, now).collected(Some(listings[n - 1]), now)
    }
}

/// The controller after a walk by a worker over the given listings, one
/// call of `feed` for each.
pub open spec fn worker_run(
    m: TocScanModel,
    listings: Seq<Result<Seq<ProbeModel>, Seq<char>>>,
    n: nat,
    now: u64,
) -> TocScanModel
    decreases n,
{
    if n == 0 || n > listings.len() {
        m.started(now)
    } else {
        worker_run(m, listings, (n - 1) as nat, now).fed(listings[n - 1])
    }
}

/// A walk on the caller's own thread and a walk by a worker, from the same
/// configuration and over the same listings, come to the same tables in
/// the same order, and to the same table of the whole walk.
pub proof fn lemma_walk_collect_equals_background(
    m: TocScanModel,
    listings: Seq<Result<Seq<ProbeModel>, Seq<char>>>,
    n: nat,
    now: u64,
    end: u64,
)
    requires
        !m.life.attached,
        n <= listings.len(),
    ensures
        ({
            let c = collect_run(m, listings, n, now);
            let w = worker_run(m, listings, n, now).exited(end).joined();
            &&& c.items.taken(true) == w.items.taken(true)
            &&& c.total == w.total
            &&& c.walk == w.walk
            &&& c.cfg == w.cfg
            &&& worker_run(m, listings, n, now).life.busy()
            &&& c.life.busy() || c.walk.done()
        }),
    decreases n,
{
    if n > 0 {
        lemma_walk_collect_equals_background(m, listings, (n - 1) as nat, now, end);
    }
}

/// Where sorting is asked for, a walk does not depend on the order in which
/// the directories list their children: two workers that are fed, step by
/// step, listings of the same children come to the same state.
pub proof fn lemma_sorted_walk_runs_agree(
    m: TocScanModel,
    la: Seq<Result<Seq<ProbeModel>, Seq<char>>>,
    lb: Seq<Result<Seq<ProbeModel>, Seq<char>>>,
    n: nat,
    now: u64,
)
    requires
        m.cfg.sorted,
        same_listings(la, lb, n),
    ensures
        worker_run(m, la, n, now) == worker_run(m, lb, n, now),
        worker_run(m, la, n, now).cfg == m.cfg,
    decreases n,
{
    if n > 0 {
        lemma_sorted_walk_runs_agree(m, la, lb, (n - 1) as nat, now);
        let w = worker_run(m, la, (n - 1) as nat, now);
        assert(same_children(la[n - 1], lb[n - 1]));
        lemma_sorted_step_order_independent(w.walk, w.cfg, la[n - 1], lb[n - 1]);
    }
}

/// With sorting asked for, a walk on the caller's own thread and a walk by
/// a worker over the same tree come to the same tables in the same order,
/// even where the directories of the one walk list their children in
/// another order than those of the other.
pub proof fn lemma_sorted_walks_agree(
    m: TocScanModel,
    la: Seq<Result<Seq<ProbeModel>, Seq<char>>>,
    lb: Seq<Result<Seq<ProbeModel>, Seq<char>>>,
    n: nat,
    now: u64,
    end: u64,
)
    requires
        m.cfg.sorted,
        !m.life.attached,
        same_listings(la, lb, n),
    ensures
        ({
            let c = collect_run(m, la, n, now);
            let w = worker_run(m, lb, n, now).exited(end).joined();
            &&& c.items.taken(true) == w.items.taken(true)
            &&& c.total == w.total
        }),
{
    lemma_walk_collect_equals_background(m, la, n, now, end);
    lemma_sorted_walk_runs_agree(m, la, lb, n, now);
}

} // verus!
