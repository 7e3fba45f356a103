//! The controller of a count: the entries of a walk are not kept, only
//! their statistics.
//!
//! The walk itself is not done here. Whoever drives a count walks the tree
//! from the root on, the root included, and hands in the outcome of every
//! probe: one by one from a worker beside the caller ([`Count::start`],
//! [`Count::record`], [`Count::worker_exit`]), or all at once on the
//! caller's own thread ([`Count::collect`]). The root counts like any other
//! entry, so that the count of an empty directory is one directory. Below
//! the root the walk takes what the filters of the count take
//! ([`Count::admits`]).
//!
//! A count comes into being only where its root exists: the caller looks at
//! the root of the walk ([`expand_root`]) and tells what it found.
//!
//! While a worker hands in outcomes, the snapshot that the caller sees is
//! brought up to date in batches; once the worker has gone it is complete.

use crate::config::{
    construction_error, or_default, patterns_compile, ConstructionError, RootStatus,
};
use crate::entry::{stat_model, Stat};
use crate::filter::{compiled, texts, FilterModel, FilterSet};
use crate::lifecycle::{Lifecycle, LifecycleError, LifecycleModel, Progress};
use crate::stats::{
    aligned, categories, count_ok, dict_model, lemma_categories_add_up, lemma_tally_all_aligned,
    lemma_tally_monotone, messages, outcomes_of, rendering, rs_count, tally_all, zero_totals,
    Aggregator, AggregatorModel, Platform, StatValue, Statistics, StatisticsModel, Totals,
};
use vstd::prelude::*;
use vstd::string::StringExecFns;

verus! {

/// Why a root path could not be expanded: the message of the failed lookup,
/// or the expanded path itself where it is no valid text.
#[derive(Debug, PartialEq, Eq)]
pub struct ExpandError {
    pub message: String,
}

/// Whether a path begins with a tilde, which stands for a home directory.
pub open spec fn has_tilde(path: Seq<char>) -> bool {
    path.len() > 0 && path[0] == '~'
}

/// Expands a leading `~` or `~user` of a path to the home directory it
/// stands for, by `expanduser::expanduser`. Which directory that is depends
/// on the environment and on the user database, and the lookup can fail;
/// nothing is claimed of it. What is claimed: a path that does not begin
/// with a tilde comes back as it is, as the last arm of the outside function
/// shows, which makes a path of the text itself.
#[verifier::external_body]
fn expand_home(path: &str) -> (r: Result<String, ExpandError>)
    ensures
        !has_tilde(path@) ==> r is Ok && r->Ok_0@ == path@,
{
    match expanduser::expanduser(path) {
        Ok(p) => match p.into_os_string().into_string() {
            Ok(text) => Ok(text),
            Err(raw) => Err(ExpandError { message: raw.to_string_lossy().into_owned() }),
        },
        Err(e) => Err(ExpandError { message: e.to_string() }),
    }
}

/// The root of a walk for a root path: the path with a leading tilde
/// expanded to the home directory it stands for where the platform knows
/// such, or why it cannot be expanded. A path without a tilde, and every
/// path on a platform without home expansion, is the root as it is.
pub fn expand_root(root_path: &str, platform: Platform) -> (r: Result<String, ExpandError>)
    ensures
        platform is Windows || !has_tilde(root_path@) ==> r is Ok && r->Ok_0@ == root_path@,
{
    match platform {
        Platform::Unix => expand_home(root_path),
        Platform::Windows => Ok(String::from_str(root_path)),
    }
}

/// The mathematical value of a [`Count`].
pub struct CountModel {
    pub root_path: Seq<char>,
    pub skip_hidden: bool,
    pub metadata: bool,
    pub metadata_ext: bool,
    pub max_depth: usize,
    /// The filters on the names of what is walked below the root.
    pub filter: FilterModel,
    pub platform: Platform,
    /// The snapshot that the caller sees.
    pub statistics: StatisticsModel,
    /// What the worker has taken in since it started.
    pub agg: AggregatorModel,
    pub life: LifecycleModel,
    /// Whether a count was brought to its end by `stop` or `collect`.
    pub has_results: bool,
}

/// Whether no total of `a` is larger than that of `b`.
pub open spec fn no_larger(a: Totals, b: Totals) -> bool {
    &&& a.dirs <= b.dirs
    &&& a.files <= b.files
    &&& a.slinks <= b.slinks
    &&& a.hlinks <= b.hlinks
    &&& a.devices <= b.devices
    &&& a.pipes <= b.pipes
    &&& a.size <= b.size
    &&& a.usage <= b.usage
}

impl CountModel {
    /// Whether extended metadata is counted.
    pub open spec fn use_ext(self) -> bool {
        self.metadata && self.metadata_ext
    }

    /// The aggregator of a new count.
    pub open spec fn fresh_agg(self) -> AggregatorModel {
        AggregatorModel {
            totals: zero_totals(),
            pending: Seq::empty(),
            since_flush: 0,
            use_ext: self.use_ext(),
            platform: self.platform,
        }
    }

    /// The snapshot of a new count.
    pub open spec fn zero() -> StatisticsModel {
        StatisticsModel { totals: zero_totals(), errors: Seq::empty() }
    }

    /// The controller after `start` at the time `now`: where no worker is
    /// attached a new count begins at zero.
    pub open spec fn started(self, now: u64) -> CountModel {
        if self.life.attached {
            self
        } else {
            CountModel {
                life: self.life.started(now),
                statistics: Self::zero(),
                agg: self.fresh_agg(),
                ..self
            }
        }
    }

    /// The controller after one outcome was handed in: taken into the
    /// totals of the worker, which are handed over to the snapshot when that
    /// is due. Without a worker at work the outcome is dropped.
    pub open spec fn recorded(self, outcome: Result<Stat, Seq<char>>) -> CountModel {
        if !self.life.busy() {
            self
        } else {
            let a = self.agg.recorded(outcome);
            if a.flush_due() {
                CountModel { statistics: a.handed_to(self.statistics), agg: a.flushed(), ..self }
            } else {
                CountModel { agg: a, ..self }
            }
        }
    }

    /// Whether the worker is to go on after an outcome: while the count is
    /// running and was not asked to stop.
    pub open spec fn goes_on(self) -> bool {
        self.life.state is Running
    }

    /// The controller after the worker has reported its exit: the totals
    /// are handed over once more.
    pub open spec fn exited(self, now: u64) -> CountModel {
        if !self.life.busy() {
            self
        } else {
            CountModel {
                statistics: self.agg.handed_to(self.statistics),
                agg: self.agg.flushed(),
                life: self.life.exited(now),
                ..self
            }
        }
    }

    /// The controller after `stop`.
    pub open spec fn stopped(self) -> CountModel {
        CountModel {
            life: self.life.stopped(),
            has_results: self.has_results || self.life.end_result() == Ok::<
                Progress,
                LifecycleError,
            >(Progress::Done),
            ..self
        }
    }

    /// The controller after a count of a whole stream on the caller's own
    /// thread, begun at `started` and ended at `ended`.
    pub open spec fn collected(
        self,
        outcomes: Seq<Result<Stat, Seq<char>>>,
        started: u64,
        ended: u64,
    ) -> CountModel {
        if self.life.attached {
            self
        } else {
            CountModel {
                statistics: StatisticsModel {
                    totals: tally_all(
                        zero_totals(),
                        outcomes,
                        outcomes.len(),
                        self.use_ext(),
                        self.platform,
                    ),
                    errors: messages(outcomes, outcomes.len()),
                },
                agg: self.fresh_agg(),
                life: self.life.started(started).exited(ended).joined(),
                has_results: true,
                ..self
            }
        }
    }

    /// The controller after the first `n` outcomes of a stream were handed
    /// in by a worker.
    pub open spec fn run(self, outcomes: Seq<Result<Stat, Seq<char>>>, n: nat) -> CountModel
        decreases n,
    {
        if n == 0 || n > outcomes.len() {
            self
        } else {
            self.run(outcomes, (n - 1) as nat).recorded(outcomes[n - 1])
        }
    }
}

/// The controller of a count.
#[derive(Debug)]
pub struct Count {
    root_path: String,
    skip_hidden: bool,
    metadata: bool,
    metadata_ext: bool,
    max_depth: usize,
    filter: FilterSet,
    platform: Platform,
    statistics: Statistics,
    agg: Aggregator,
    life: Lifecycle,
    has_results: bool,
}

impl View for Count {
    type V = CountModel;

    closed spec fn view(&self) -> CountModel {
        CountModel {
            root_path: self.root_path@,
            skip_hidden: self.skip_hidden,
            metadata: self.metadata,
            metadata_ext: self.metadata_ext,
            max_depth: self.max_depth,
            filter: self.filter@,
            platform: self.platform,
            statistics: self.statistics@,
            agg: self.agg@,
            life: self.life@,
            has_results: self.has_results,
        }
    }
}

impl Count {
    /// Sets up a count below `root_path`. `root` tells what the caller found
    /// at the root of the walk, which is the root path with a leading tilde
    /// expanded (see [`expand_root`]). An option that is left out is off;
    /// without a depth limit the walk goes as deep as the tree. Fails with
    /// `NotFound` where the root is missing, with `IoError` where it could
    /// not be looked at, and else with `InvalidInput` where a pattern does
    /// not compile; then no count comes into being.
    pub fn new(
        root_path: &str,
        root: RootStatus,
        skip_hidden: Option<bool>,
        metadata: Option<bool>,
        metadata_ext: Option<bool>,
        max_depth: Option<usize>,
        dir_include: Option<Vec<String>>,
        dir_exclude: Option<Vec<String>>,
        file_include: Option<Vec<String>>,
        file_exclude: Option<Vec<String>>,
        case_sensitive: Option<bool>,
        platform: Platform,
    ) -> (r: Result<Count, ConstructionError>)
        ensures
            match construction_error(
                root,
                patterns_compile(dir_include, dir_exclude, file_include, file_exclude),
            ) {
                Some(e) => r == Err::<Count, ConstructionError>(e),
                None => r is Ok && r->Ok_0@ == (CountModel {
                    root_path: root_path@,
                    skip_hidden: or_default(skip_hidden, false),
                    metadata: or_default(metadata, false),
                    metadata_ext: or_default(metadata_ext, false),
                    max_depth: or_default(max_depth, usize::MAX),
                    filter: FilterModel {
                        dir_include: compiled(texts(dir_include)),
                        dir_exclude: compiled(texts(dir_exclude)),
                        file_include: compiled(texts(file_include)),
                        file_exclude: compiled(texts(file_exclude)),
                        case_sensitive: or_default(case_sensitive, false),
                    },
                    platform,
                    statistics: CountModel::zero(),
                    agg: r->Ok_0@.fresh_agg(),
                    life: LifecycleModel::idle(),
                    has_results: false,
                }),
            },
    {
        match root {
            RootStatus::NotFound => {
                return Err(ConstructionError::NotFound);
            },
            RootStatus::Unreadable => {
                return Err(ConstructionError::IoError);
            },
            RootStatus::Found => {},
        }
        let cs = match case_sensitive {
            Some(b) => b,
            None => false,
        };
        let filter = match FilterSet::new(dir_include, dir_exclude, file_include, file_exclude, cs) {
            Ok(f) => f,
            Err(_) => {
                return Err(ConstructionError::InvalidInput);
            },
        };
        let m = match metadata {
            Some(b) => b,
            None => false,
        };
        let x = match metadata_ext {
            Some(b) => b,
            None => false,
        };
        Ok(
            Count {
                root_path: String::from_str(root_path),
                skip_hidden: match skip_hidden {
                    Some(b) => b,
                    None => false,
                },
                metadata: m,
                metadata_ext: x,
                max_depth: match max_depth {
                    Some(d) => d,
                    None => usize::MAX,
                },
                filter,
                platform,
                statistics: Statistics::new(),
                agg: Aggregator::new(m, x, platform),
                life: Lifecycle::new(),
                has_results: false,
            },
        )
    }

    /// Whether the walk is to take a child of the given name and kind: the
    /// filters let it pass. The walk leaves out what is refused, and what
    /// lies below a directory that is refused. The root itself is not asked
    /// for.
    pub fn admits(&self, name: &str, is_dir: bool) -> (r: bool)
        ensures
            r == self@.filter.accepts(name@, is_dir),
    {
        self.filter.matches(name, is_dir)
    }

    /// The root path as it was given.
    pub fn root_path(&self) -> (r: &String)
        ensures
            r@ == self@.root_path,
    {
        &self.root_path
    }

    /// Whether the walk is to leave out names that start with a dot.
    pub fn skip_hidden(&self) -> (r: bool)
        ensures
            r == self@.skip_hidden,
    {
        self.skip_hidden
    }

    /// Whether the walk is to read metadata.
    pub fn metadata(&self) -> (r: bool)
        ensures
            r == self@.metadata,
    {
        self.metadata
    }

    /// Whether the walk is to read extended metadata.
    pub fn metadata_ext(&self) -> (r: bool)
        ensures
            r == self@.metadata_ext,
    {
        self.metadata_ext
    }

    /// How deep the walk is to go.
    pub fn max_depth(&self) -> (r: usize)
        ensures
            r == self@.max_depth,
    {
        self.max_depth
    }

    /// What the worker does with the outcome of the expansion of the root
    /// path: where it succeeded, the expanded path is the root of the walk;
    /// where it failed, the failure is handed in like that of a probe, and
    /// there is nothing to walk.
    pub fn root_to_walk(&mut self, expanded: Result<String, ExpandError>) -> (r: Option<String>)
        ensures
            match expanded {
                Ok(p) => r == Some(p) && final(self)@ == old(self)@,
                Err(e) => r is None && final(self)@ == old(self)@.recorded(
                    Err::<Stat, Seq<char>>(e.message@),
                ),
            },
    {
        match expanded {
            Ok(p) => Some(p),
            Err(e) => {
                let outcome: Result<Stat, String> = Err(e.message);
                let _ = self.record(&outcome);
                None
            },
        }
    }

    /// The root of the walk: the root path, with a leading tilde expanded
    /// to the home directory it stands for where the platform knows such. A
    /// root path without a tilde is the root of the walk as it is. A failed
    /// expansion is handed in like a failed probe, and there is no root;
    /// nothing else is changed.
    pub fn walk_root(&mut self) -> (r: Option<String>)
        ensures
            old(self)@.platform is Windows || !has_tilde(old(self)@.root_path) ==> r is Some
                && r->Some_0@ == old(self)@.root_path,
            r is Some ==> final(self)@ == old(self)@,
            r is None ==> exists|m: Seq<char>|
                final(self)@ == #[trigger] old(self)@.recorded(Err::<Stat, Seq<char>>(m)),
    {
        let expanded = expand_root(self.root_path.as_str(), self.platform);
        let ghost reason = if expanded is Err {
            expanded->Err_0.message@
        } else {
            Seq::<char>::empty()
        };
        let r = self.root_to_walk(expanded);
        proof {
            if r is None {
                assert(self@ == old(self)@.recorded(Err::<Stat, Seq<char>>(reason)));
            }
        }
        r
    }

    /// Starts a count at the time `now`, for a worker to drive. Refused
    /// exactly when a worker is attached. The statistics begin at zero.
    pub fn start(&mut self, now: u64) -> (r: Result<(), LifecycleError>)
        ensures
            r == old(self)@.life.start_result(),
            final(self)@ == old(self)@.started(now),
    {
        match self.life.start(now) {
            Err(e) => Err(e),
            Ok(()) => {
                self.statistics.reset();
                self.agg = Aggregator::new(self.metadata, self.metadata_ext, self.platform);
                Ok(())
            },
        }
    }

    /// The worker hands in the outcome of one probe. The answer tells
    /// whether it is to go on: not when the count was asked to stop, nor
    /// without a count at work.
    pub fn record(&mut self, outcome: &Result<Stat, String>) -> (go_on: bool)
        ensures
            final(self)@ == old(self)@.recorded(stat_model(*outcome)),
            go_on == old(self)@.goes_on(),
    {
        if !self.life.busy() {
            return false;
        }
        let due = self.agg.record(outcome);
        if due {
            self.agg.flush(&mut self.statistics);
        }
        !self.life.cancelled()
    }

    /// The worker reports at the time `now` that it has gone: what it has
    /// taken in is handed over once more, whatever the batches were. From
    /// then on the count is not busy, whether or not it was asked to stop.
    pub fn worker_exit(&mut self, now: u64)
        ensures
            final(self)@ == old(self)@.exited(now),
            !final(self)@.life.busy(),
    {
        if self.life.busy() {
            self.agg.flush(&mut self.statistics);
            self.life.exit(now);
        }
    }

    /// Asks the worker to stop. Refused exactly when no worker is attached.
    /// While the worker is at work the caller has to wait and ask again;
    /// once it has gone it is joined, and the count has results.
    pub fn stop(&mut self) -> (r: Result<Progress, LifecycleError>)
        ensures
            r == old(self)@.life.end_result(),
            final(self)@ == old(self)@.stopped(),
    {
        let r = self.life.stop();
        match r {
            Ok(Progress::Done) => {
                self.has_results = true;
            },
            _ => {},
        }
        r
    }

    /// Counts a whole stream of outcomes on the caller's own thread, from
    /// the time `started` to the time `ended`, and returns the statistics.
    /// Refused exactly when a worker is attached.
    pub fn collect(&mut self, entries: &Vec<Result<Stat, String>>, started: u64, ended: u64) -> (r:
        Result<Statistics, LifecycleError>)
        ensures
            match r {
                Ok(s) => !old(self)@.life.attached && s@ == final(self)@.statistics,
                Err(e) => old(self)@.life.attached && e == LifecycleError::AlreadyRunning,
            },
            final(self)@ == old(self)@.collected(outcomes_of(entries@), started, ended),
    {
        match self.life.start(started) {
            Err(e) => {
                return Err(e);
            },
            Ok(()) => {},
        }
        self.statistics.reset();
        self.agg = Aggregator::new(self.metadata, self.metadata_ext, self.platform);
        rs_count(entries, self.metadata, self.metadata_ext, self.platform, &mut self.statistics);
        self.life.exit(ended);
        let _ = self.life.join();
        self.has_results = true;
        proof {
            let ms = messages(outcomes_of(entries@), entries@.len() as nat);
            assert(Seq::<Seq<char>>::empty() + ms =~= ms);
        }
        Ok(self.statistics.clone())
    }

    /// The snapshot of the statistics as the caller sees it now.
    pub fn statistics(&self) -> (r: Statistics)
        ensures
            r@ == self@.statistics,
    {
        self.statistics.clone()
    }

    /// How long the count has taken at the time `now`, in nanoseconds.
    pub fn duration(&self, now: u64) -> (r: u64)
        ensures
            r == self@.life.duration_at(now),
    {
        self.life.duration(now)
    }

    /// Whether a count was brought to its end by `stop` or `collect`.
    pub fn has_results(&self) -> (r: bool)
        ensures
            r == self@.has_results,
    {
        self.has_results
    }

    /// The snapshot as keys and values: only the fields that are not zero
    /// or empty.
    pub fn as_dict(&self) -> (d: Vec<(String, StatValue)>)
        ensures
            dict_model(d@) == rendering(self@.statistics),
    {
        self.statistics.as_dict()
    }

    /// Whether a worker is at work.
    pub fn busy(&self) -> (r: bool)
        ensures
            r == self@.life.busy(),
    {
        self.life.busy()
    }

    /// Enters a scope: starts a count at the time `now`, as `start` does.
    pub fn enter(&mut self, now: u64) -> (r: Result<(), LifecycleError>)
        ensures
            r == old(self)@.life.start_result(),
            final(self)@ == old(self)@.started(now),
    {
        self.start(now)
    }

    /// Leaves a scope: asks the worker to stop, however the scope is left.
    /// While the worker is at work the caller has to wait and ask again;
    /// without a worker there is nothing to wait for.
    pub fn exit(&mut self) -> (r: Progress)
        ensures
            r == match old(self)@.life.end_result() {
                Ok(p) => p,
                Err(_) => Progress::Done,
            },
            final(self)@ == old(self)@.stopped(),
    {
        match self.stop() {
            Ok(p) => p,
            Err(_) => Progress::Done,
        }
    }
}

/// While a worker hands in outcomes, what it has taken in and what the
/// snapshot holds add up to the stream so far: the totals of the worker are
/// those of the stream, and the messages of the snapshot followed by the
/// pending ones are those of the failed probes, each once and in order.
pub proof fn lemma_run_accounts_for_all(m: CountModel, outcomes: Seq<Result<Stat, Seq<char>>>, n: nat)
    requires
        !m.life.attached,
        n <= outcomes.len(),
    ensures
        ({
            let r = m.started(0).run(outcomes, n);
            &&& r.agg.totals == tally_all(zero_totals(), outcomes, n, m.use_ext(), m.platform)
            &&& r.statistics.errors + r.agg.pending == messages(outcomes, n)
            &&& r.agg.use_ext == m.use_ext()
            &&& r.agg.platform == m.platform
            &&& r.life == m.life.started(0)
            &&& no_larger(r.statistics.totals, r.agg.totals)
        }),
    decreases n,
{
    let s = m.started(0);
    if n == 0 {
        assert(s.statistics.errors + s.agg.pending =~= messages(outcomes, 0));
    } else {
        lemma_run_accounts_for_all(m, outcomes, (n - 1) as nat);
        let b = s.run(outcomes, (n - 1) as nat);
        let o = outcomes[n - 1];
        let r = b.recorded(o);
        assert(r == s.run(outcomes, n));
        let a = b.agg.recorded(o);
        match o {
            Ok(st) => {
                lemma_tally_monotone(b.agg.totals, st, b.agg.use_ext, b.agg.platform);
                assert(b.statistics.errors + Seq::<Seq<char>>::empty() =~= b.statistics.errors);
                assert(r.statistics.errors + r.agg.pending =~= b.statistics.errors
                    + b.agg.pending);
            },
            Err(msg) => {
                assert(r.statistics.errors + r.agg.pending =~= (b.statistics.errors
                    + b.agg.pending).push(msg));
            },
        }
    }
}

/// Once the worker has gone, the snapshot is complete: it holds the totals
/// of the whole stream and the messages of all failed probes, whatever the
/// batches were in which it was brought up to date. It is what a count of
/// the same stream on the caller's own thread returns.
pub proof fn lemma_snapshot_complete_after_exit(
    m: CountModel,
    outcomes: Seq<Result<Stat, Seq<char>>>,
    started: u64,
    ended: u64,
)
    requires
        !m.life.attached,
    ensures
        ({
            let w = m.started(0).run(outcomes, outcomes.len()).exited(ended);
            &&& w.statistics == m.collected(outcomes, started, ended).statistics
            &&& !w.life.busy()
        }),
{
    lemma_run_accounts_for_all(m, outcomes, outcomes.len());
    let r = m.started(0).run(outcomes, outcomes.len());
    assert(r.life.busy());
}

/// The snapshot never goes back: no total that the caller sees after an
/// outcome was handed in is smaller than the one it saw before.
pub proof fn lemma_snapshot_never_decreases(m: CountModel, outcome: Result<Stat, Seq<char>>)
    requires
        no_larger(m.statistics.totals, m.agg.totals),
    ensures
        no_larger(m.statistics.totals, m.recorded(outcome).statistics.totals),
        no_larger(m.recorded(outcome).statistics.totals, m.recorded(outcome).agg.totals),
        no_larger(m.statistics.totals, m.exited(0).statistics.totals),
{
    match outcome {
        Ok(st) => {
            lemma_tally_monotone(m.agg.totals, st, m.agg.use_ext, m.agg.platform);
        },
        Err(_) => {},
    }
}

/// Once the worker has gone the snapshot is fixed: an outcome that is
/// handed in afterwards changes nothing.
pub proof fn lemma_snapshot_fixed_after_exit(m: CountModel, now: u64, outcome: Result<Stat, Seq<char>>)
    ensures
        m.exited(now).recorded(outcome) == m.exited(now),
        m.exited(now).exited(now) == m.exited(now),
{
}

/// The complete snapshot of a count in which every entry that was read
/// falls in exactly one of the categories directory, file, symlink, device
/// and pipe, and whose entries are no more than a counter holds: the five
/// counters add up to the number of entries that were read, and the usage is
/// a multiple of the platform's block alignment.
pub proof fn lemma_complete_snapshot_adds_up(
    m: CountModel,
    outcomes: Seq<Result<Stat, Seq<char>>>,
    ended: u64,
)
    requires
        !m.life.attached,
        outcomes.len() <= u32::MAX,
        forall|i: int|
            0 <= i < outcomes.len() && (#[trigger] outcomes[i]) is Ok ==> categories(
                outcomes[i]->Ok_0,
                m.use_ext(),
                m.platform,
            ) == 1,
    ensures
        ({
            let t = m.started(0).run(outcomes, outcomes.len()).exited(ended).statistics.totals;
            &&& t.dirs + t.files + t.slinks + t.devices + t.pipes == count_ok(
                outcomes,
                outcomes.len(),
            )
            &&& aligned(t, m.platform)
        }),
{
    lemma_snapshot_complete_after_exit(m, outcomes, 0, ended);
    lemma_categories_add_up(outcomes, outcomes.len(), m.use_ext(), m.platform);
    lemma_tally_all_aligned(outcomes, outcomes.len(), m.use_ext(), m.platform);
}

} // verus!
