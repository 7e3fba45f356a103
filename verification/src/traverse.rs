//! The traversal itself, one directory at a time.
//!
//! A [`WalkCore`] keeps the directories that wait to be listed, the root
//! first. Whoever drives it asks for the next directory, lists it, and feeds
//! the listing back; the core then decides which children are visited and
//! which of them are listed later. Directories are visited depth first, the
//! children of a directory in the order of its listing, or in lexical order
//! of their names where the configuration asks for sorting.
//!
//! A child is visited when it is not hidden (where hidden names are
//! skipped), when the filter of its kind lets its name pass, and, if it is
//! a file, while the limit on files is not reached. A child whose probe
//! failed is visited too, so that the failure is reported. A
//! directory among the visited children is listed later unless the depth
//! limit forbids it: the root has depth 0, and with a limit of `d` no
//! directory at depth `d` or more is listed, so that no entry lies deeper
//! than `d`.

use crate::config::{ConfigModel, TraversalConfig};
use crate::entry::{
    clone_stat, depth_of, join, join_path, lemma_join_separators, stat_model, valid_name,
    FileKind, Probe, ProbeModel, Stat,
};
use crate::filter::any_match;
use crate::text::{
    chars_of, hidden, is_hidden, lemma_lex_le_antisym, lemma_lex_le_refl, lemma_lex_le_total,
    lemma_lex_le_trans, lex_le,
    name_le, separators,
};
use vstd::prelude::*;

verus! {

/// The mathematical values of a list of values.
pub open spec fn views<T: View>(s: Seq<T>) -> Seq<T::V> {
    Seq::new(s.len(), |i: int| s[i]@)
}

/// The values of a list with one more are those of the list with one more.
pub proof fn lemma_views_push<T: View>(s: Seq<T>, x: T)
    ensures
        views(s.push(x)) == views(s).push(x@),
{
    assert(views(s.push(x)) =~= views(s).push(x@));
}

/// A directory that waits to be listed.
#[derive(Debug, PartialEq, Eq)]
pub struct Pending {
    pub path: String,
    pub depth: usize,
}

/// The mathematical value of a [`Pending`].
pub struct PendingModel {
    pub path: Seq<char>,
    pub depth: usize,
}

impl View for Pending {
    type V = PendingModel;

    open spec fn view(&self) -> PendingModel {
        PendingModel { path: self.path@, depth: self.depth }
    }
}

/// A child that is visited.
#[derive(Debug, PartialEq, Eq)]
pub struct Visit {
    pub name: String,
    pub path: String,
    pub stat: Result<Stat, String>,
}

/// The mathematical value of a [`Visit`].
pub struct VisitModel {
    pub name: Seq<char>,
    pub path: Seq<char>,
    pub stat: Result<Stat, Seq<char>>,
}

impl View for Visit {
    type V = VisitModel;

    open spec fn view(&self) -> VisitModel {
        VisitModel { name: self.name@, path: self.path@, stat: stat_model(self.stat) }
    }
}

impl VisitModel {
    /// Whether the visit is of a file that was read.
    pub open spec fn is_file(self) -> bool {
        self.stat is Ok && self.stat->Ok_0.kind is File
    }
}

/// Whether a child is a directory that was read.
pub open spec fn is_dir(c: ProbeModel) -> bool {
    c.stat is Ok && c.stat->Ok_0.kind is Dir
}

/// Whether a child is visited, `file_cnt` files having been visited before
/// it. The limit holds back files only: symlinks and other entries that are
/// no directories pass the file filters and are not counted.
pub open spec fn admits(cfg: ConfigModel, c: ProbeModel, file_cnt: usize) -> bool {
    !(cfg.skip_hidden && is_hidden(c.name)) && match c.stat {
        Err(_) => true,
        Ok(s) => if s.kind is Dir {
            cfg.filter.accepts_dir(c.name)
        } else {
            cfg.filter.accepts_file(c.name) && (!(s.kind is File) || cfg.max_file_cnt == 0
                || file_cnt < cfg.max_file_cnt)
        },
    }
}

/// Whether a visited child counts against the limit on files.
pub open spec fn counts_as_file(cfg: ConfigModel, c: ProbeModel) -> bool {
    cfg.max_file_cnt > 0 && c.stat is Ok && c.stat->Ok_0.kind is File
}

/// Whether a visited child of a directory at `depth` is listed later.
pub open spec fn queues(cfg: ConfigModel, c: ProbeModel, depth: usize) -> bool {
    is_dir(c) && depth < usize::MAX && (cfg.max_depth == 0 || depth + 1 < cfg.max_depth)
}

/// What the children of one directory come to.
pub struct ScanModel {
    /// The children that are visited, in order.
    pub visits: Seq<VisitModel>,
    /// The directories among them that are listed later, in order.
    pub subdirs: Seq<PendingModel>,
    /// How many files count against the limit so far.
    pub file_cnt: usize,
}

/// The scan of a directory after one more child.
pub open spec fn scan_one(cfg: ConfigModel, dir: PendingModel, acc: ScanModel, c: ProbeModel) -> ScanModel {
    if !admits(cfg, c, acc.file_cnt) {
        acc
    } else {
        let path = join(dir.path, c.name);
        ScanModel {
            visits: acc.visits.push(VisitModel { name: c.name, path, stat: c.stat }),
            subdirs: if queues(cfg, c, dir.depth) {
                acc.subdirs.push(PendingModel { path, depth: (dir.depth + 1) as usize })
            } else {
                acc.subdirs
            },
            file_cnt: if counts_as_file(cfg, c) {
                (acc.file_cnt + 1) as usize
            } else {
                acc.file_cnt
            },
        }
    }
}

/// The scan of the first `n` children of a directory.
pub open spec fn scan(
    cfg: ConfigModel,
    dir: PendingModel,
    cs: Seq<ProbeModel>,
    n: nat,
    file_cnt: usize,
) -> ScanModel
    decreases n,
{
    if n == 0 || n > cs.len() {
        ScanModel { visits: Seq::empty(), subdirs: Seq::empty(), file_cnt }
    } else {
        scan_one(cfg, dir, scan(cfg, dir, cs, (n - 1) as nat, file_cnt), cs[n - 1])
    }
}

/// `x` put into a list that is in lexical order of the names, behind every
/// child whose name comes no later than its own.
pub open spec fn insert_by_name(s: Seq<ProbeModel>, x: ProbeModel) -> Seq<ProbeModel>
    decreases s.len(),
{
    if s.len() == 0 {
        seq![x]
    } else if lex_le(s.last().name, x.name) {
        s.push(x)
    } else {
        insert_by_name(s.drop_last(), x).push(s.last())
    }
}

/// The first `n` children in lexical order of their names; children of the
/// same name keep their order.
pub open spec fn sorted_prefix(cs: Seq<ProbeModel>, n: nat) -> Seq<ProbeModel>
    decreases n,
{
    if n == 0 || n > cs.len() {
        Seq::empty()
    } else {
        insert_by_name(sorted_prefix(cs, (n - 1) as nat), cs[n - 1])
    }
}

/// The children in the order in which they are visited.
pub open spec fn arranged(cfg: ConfigModel, cs: Seq<ProbeModel>) -> Seq<ProbeModel> {
    if cfg.sorted {
        sorted_prefix(cs, cs.len())
    } else {
        cs
    }
}

/// Whether the names of a list come in lexical order.
pub open spec fn in_order(s: Seq<ProbeModel>) -> bool {
    forall|i: int, j: int| 0 <= i <= j < s.len() ==> lex_le(s[i].name, s[j].name)
}

/// A list backwards.
pub open spec fn reversed<T>(s: Seq<T>) -> Seq<T> {
    Seq::new(s.len(), |i: int| s[s.len() - 1 - i])
}

/// The mathematical value of a listing: the children, or why the directory
/// could not be read.
pub open spec fn listing_model(l: Result<Vec<Probe>, String>) -> Result<Seq<ProbeModel>, Seq<char>> {
    match l {
        Ok(v) => Ok(views(v@)),
        Err(m) => Err(m@),
    }
}

/// The mathematical value of a [`WalkCore`].
pub struct WalkModel {
    /// The directories that wait, the next one last.
    pub pending: Seq<PendingModel>,
    /// How many files count against the limit so far.
    pub file_cnt: usize,
}

/// What one listing comes to.
pub struct StepModel {
    pub walk: WalkModel,
    /// The children that are visited, in order.
    pub visits: Seq<VisitModel>,
    /// The directory that could not be read, and why.
    pub failure: Option<(Seq<char>, Seq<char>)>,
}

/// Whether a waiting directory is where its path says, and within the depth
/// limit.
pub open spec fn placed(p: PendingModel, cfg: ConfigModel) -> bool {
    &&& if p.depth == 0 {
        p.path.len() == 0
    } else {
        p.path.len() > 0 && separators(p.path) + 1 == p.depth
    }
    &&& cfg.max_depth > 0 ==> p.depth < cfg.max_depth
}

impl WalkModel {
    /// The walk before the root is listed.
    pub open spec fn at_root() -> WalkModel {
        WalkModel { pending: seq![PendingModel { path: Seq::empty(), depth: 0 }], file_cnt: 0 }
    }

    /// Whether nothing waits any more.
    pub open spec fn done(self) -> bool {
        self.pending.len() == 0
    }

    /// Every waiting directory is placed, and the limit on files is kept.
    pub open spec fn wf(self, cfg: ConfigModel) -> bool {
        &&& forall|i: int| 0 <= i < self.pending.len() ==> placed(#[trigger] self.pending[i], cfg)
        &&& cfg.max_file_cnt > 0 ==> self.file_cnt <= cfg.max_file_cnt
    }

    /// The walk after the listing of the next directory, with what is
    /// visited. Where nothing waits the listing is dropped.
    pub open spec fn fed(self, cfg: ConfigModel, listing: Result<Seq<ProbeModel>, Seq<char>>) -> StepModel {
        if self.pending.len() == 0 {
            StepModel { walk: self, visits: Seq::empty(), failure: None }
        } else {
            let dir = self.pending.last();
            let rest = self.pending.drop_last();
            match listing {
                Err(m) => StepModel {
                    walk: WalkModel { pending: rest, file_cnt: self.file_cnt },
                    visits: Seq::empty(),
                    failure: Some((dir.path, m)),
                },
                Ok(cs) => {
                    let a = arranged(cfg, cs);
                    let sc = scan(cfg, dir, a, a.len(), self.file_cnt);
                    StepModel {
                        walk: WalkModel {
                            pending: rest + reversed(sc.subdirs),
                            file_cnt: sc.file_cnt,
                        },
                        visits: sc.visits,
                        failure: None,
                    }
                },
            }
        }
    }
}

/// How many of the visits are of files.
pub open spec fn file_visits(vs: Seq<VisitModel>) -> nat
    decreases vs.len(),
{
    if vs.len() == 0 {
        0
    } else {
        file_visits(vs.drop_last()) + if vs.last().is_file() {
            1nat
        } else {
            0nat
        }
    }
}

/// Whether every child has a valid name.
pub open spec fn names_valid(cs: Seq<ProbeModel>) -> bool {
    forall|i: int| 0 <= i < cs.len() ==> valid_name(#[trigger] cs[i].name)
}

/// The traversal state.
#[derive(Debug)]
pub struct WalkCore {
    pending: Vec<Pending>,
    file_cnt: usize,
}

impl View for WalkCore {
    type V = WalkModel;

    closed spec fn view(&self) -> WalkModel {
        WalkModel { pending: views(self.pending@), file_cnt: self.file_cnt }
    }
}

/// What one listing came to.
#[derive(Debug)]
pub struct Step {
    /// The children that are visited, in order.
    pub visits: Vec<Visit>,
    /// The directory that could not be read, and why.
    pub failure: Option<(String, String)>,
}

/// The failure of a step as a mathematical value.
pub open spec fn failure_model(f: Option<(String, String)>) -> Option<(Seq<char>, Seq<char>)> {
    match f {
        Some(e) => Some((e.0@, e.1@)),
        None => None,
    }
}

proof fn lemma_insert_position(s: Seq<ProbeModel>, x: ProbeModel, j: int)
    requires
        0 <= j <= s.len(),
        forall|k: int| j <= k < s.len() ==> !lex_le(#[trigger] s[k].name, x.name),
        j == 0 || lex_le(s[j - 1].name, x.name),
    ensures
        insert_by_name(s, x) == s.insert(j, x),
    decreases s.len(),
{
    if s.len() == 0 {
        assert(seq![x] =~= s.insert(j, x));
    } else if j == s.len() {
        assert(s.push(x) =~= s.insert(j, x));
    } else {
        assert(!lex_le(s[s.len() - 1].name, x.name));
        let t = s.drop_last();
        assert forall|k: int| j <= k < t.len() implies !lex_le(#[trigger] t[k].name, x.name) by {
            assert(t[k] == s[k]);
        }
        lemma_insert_position(t, x, j);
        assert(t.insert(j, x).push(s.last()) =~= s.insert(j, x));
    }
}

/// The children in lexical order of their names.
fn sort_by_name(children: &Vec<Probe>) -> (out: Vec<Probe>)
    ensures
        views(out@) == sorted_prefix(views(children@), children@.len() as nat),
{
    let mut out: Vec<Probe> = Vec::new();
    let mut keys: Vec<Vec<char>> = Vec::new();
    let ghost cs = views(children@);
    let mut i: usize = 0;
    assert(views(out@) =~= sorted_prefix(cs, 0));
    while i < children.len()
        invariant
            i <= children.len(),
            cs == views(children@),
            views(out@) == sorted_prefix(cs, i as nat),
            keys@.len() == out@.len(),
            forall|k: int| 0 <= k < out@.len() ==> (#[trigger] keys@[k])@ == out@[k]@.name,
        decreases children.len() - i,
    {
        let c = children[i].clone();
        let key = chars_of(c.name().as_str());
        let ghost before = views(out@);
        let mut j: usize = out.len();
        while j > 0 && !name_le(&keys[j - 1], &key)
            invariant
                j <= out.len(),
                keys@.len() == out@.len(),
                key@ == c@.name,
                before == views(out@),
                forall|k: int| 0 <= k < out@.len() ==> (#[trigger] keys@[k])@ == out@[k]@.name,
                forall|k: int| j <= k < before.len() ==> !lex_le(#[trigger] before[k].name, c@.name),
            decreases j,
        {
            j -= 1;
        }
        proof {
            if j > 0 {
                assert(before[j - 1].name == keys@[j - 1]@);
            }
            lemma_insert_position(before, c@, j as int);
            assert(cs[i as int] == c@);
        }
        let ghost old_out = out@;
        let ghost old_keys = keys@;
        out.insert(j, c);
        keys.insert(j, key);
        proof {
            assert(views(out@) =~= before.insert(j as int, c@));
            assert forall|k: int| 0 <= k < out@.len() implies (#[trigger] keys@[k])@
                == out@[k]@.name by {
                if k < j {
                    assert(keys@[k] == old_keys[k]);
                    assert(out@[k] == old_out[k]);
                } else if k > j {
                    assert(keys@[k] == old_keys[k - 1]);
                    assert(out@[k] == old_out[k - 1]);
                }
            }
        }
        i += 1;
    }
    out
}

/// Whether a child is visited.
fn admitted(cfg: &TraversalConfig, c: &Probe, file_cnt: usize) -> (r: bool)
    ensures
        r == admits(cfg@, c@, file_cnt),
{
    let name = c.name();
    if cfg.skip_hidden() && hidden(name.as_str()) {
        return false;
    }
    match c.stat() {
        Err(_) => true,
        Ok(s) => {
            match s.kind {
                FileKind::Dir => cfg.filter().matches(name.as_str(), true),
                FileKind::File => cfg.filter().matches(name.as_str(), false) && (
                cfg.max_file_cnt() == 0 || file_cnt < cfg.max_file_cnt()),
                _ => cfg.filter().matches(name.as_str(), false),
            }
        },
    }
}

/// Whether a child was read and is a file.
fn probe_is_file(c: &Probe) -> (r: bool)
    ensures
        r == (c@.stat is Ok && c@.stat->Ok_0.kind is File),
{
    match c.stat() {
        Ok(s) => match s.kind {
            FileKind::File => true,
            _ => false,
        },
        Err(_) => false,
    }
}

/// Whether a child was read and is a directory.
fn probe_is_dir(c: &Probe) -> (r: bool)
    ensures
        r == is_dir(c@),
{
    match c.stat() {
        Ok(s) => match s.kind {
            FileKind::Dir => true,
            _ => false,
        },
        Err(_) => false,
    }
}

impl WalkCore {
    /// The walk before the root is listed.
    pub fn new() -> (r: WalkCore)
        ensures
            r@ == WalkModel::at_root(),
    {
        let mut pending: Vec<Pending> = Vec::new();
        pending.push(Pending { path: String::new(), depth: 0 });
        let r = WalkCore { pending, file_cnt: 0 };
        assert(r@.pending =~= WalkModel::at_root().pending);
        r
    }

    /// Back to the state before the root is listed.
    pub fn reset(&mut self)
        ensures
            final(self)@ == WalkModel::at_root(),
    {
        self.pending.clear();
        self.pending.push(Pending { path: String::new(), depth: 0 });
        self.file_cnt = 0;
        assert(self@.pending =~= WalkModel::at_root().pending);
    }

    /// The directory to list next, if one waits.
    pub fn next_dir(&self) -> (r: Option<&Pending>)
        ensures
            match r {
                Some(p) => !self@.done() && p@ == self@.pending.last(),
                None => self@.done(),
            },
    {
        let n = self.pending.len();
        if n == 0 {
            None
        } else {
            Some(&self.pending[n - 1])
        }
    }

    /// Takes the listing of the directory that was to be listed next and
    /// tells which of its children are visited. Where nothing waits, the
    /// listing is dropped.
    pub fn feed(&mut self, cfg: &TraversalConfig, listing: Result<Vec<Probe>, String>) -> (r: Step)
        ensures
            final(self)@ == old(self)@.fed(cfg@, listing_model(listing)).walk,
            views(r.visits@) == old(self)@.fed(cfg@, listing_model(listing)).visits,
            failure_model(r.failure) == old(self)@.fed(cfg@, listing_model(listing)).failure,
            old(self)@.wf(cfg@) ==> sound_step(
                old(self)@,
                cfg@,
                old(self)@.fed(cfg@, listing_model(listing)),
            ),
    {
        let ghost start = self@;
        let ghost lm = listing_model(listing);
        let mut visits: Vec<Visit> = Vec::new();
        assert(views(visits@) =~= Seq::<VisitModel>::empty());
        assert(file_visits(Seq::<VisitModel>::empty()) == 0);
        let dir = match self.pending.pop() {
            None => {
                return Step { visits, failure: None };
            },
            Some(d) => d,
        };
        let ghost rest = views(self.pending@);
        proof {
            assert(rest =~= start.pending.drop_last());
            assert(dir@ == start.pending.last());
            if start.wf(cfg@) {
                assert(placed(start.pending[start.pending.len() - 1], cfg@));
                assert forall|i: int| 0 <= i < rest.len() implies placed(
                    #[trigger] rest[i],
                    cfg@,
                ) by {
                    assert(rest[i] == start.pending[i]);
                }
            }
        }
        let children = match listing {
            Err(m) => {
                proof {
                    if start.wf(cfg@) && dir@.depth == 0 {
                        assert(separators(dir@.path) == 0);
                    }
                }
                return Step { visits, failure: Some((dir.path, m)) };
            },
            Ok(v) => v,
        };
        let children = if cfg.sorted() {
            sort_by_name(&children)
        } else {
            children
        };
        let ghost cs = views(children@);
        assert(cs == arranged(cfg@, lm->Ok_0));
        let mut subdirs: Vec<Pending> = Vec::new();
        assert(views(subdirs@) =~= Seq::<PendingModel>::empty());
        let first = self.file_cnt;
        let mut file_cnt = self.file_cnt;
        let mut i: usize = 0;
        while i < children.len()
            invariant
                i <= children.len(),
                cs == views(children@),
                scan(cfg@, dir@, cs, i as nat, first) == (ScanModel {
                    visits: views(visits@),
                    subdirs: views(subdirs@),
                    file_cnt,
                }),
                forall|k: int| 0 <= k < i ==> valid_name(#[trigger] cs[k].name),
            decreases children.len() - i,
        {
            let c = &children[i];
            let name = c.name();
            assert(cs[i as int] == c@);
            if admitted(cfg, c, file_cnt) {
                let path = join_path(dir.path.as_str(), name.as_str());
                let deeper = dir.depth < usize::MAX && (cfg.max_depth() == 0 || dir.depth + 1
                    < cfg.max_depth());
                if probe_is_dir(c) && deeper {
                    let p = Pending { path: path.clone(), depth: dir.depth + 1 };
                    proof {
                        lemma_views_push(subdirs@, p);
                    }
                    subdirs.push(p);
                }
                let is_file = probe_is_file(c);
                if cfg.max_file_cnt() > 0 && is_file {
                    file_cnt = file_cnt + 1;
                }
                let v = Visit { name: name.clone(), path, stat: clone_stat(c.stat()) };
                proof {
                    lemma_views_push(visits@, v);
                }
                visits.push(v);
            }
            i += 1;
        }
        self.file_cnt = file_cnt;
        let ghost all = views(subdirs@);
        proof {
            if start.wf(cfg@) {
                lemma_scan_props(cfg@, dir@, cs, cs.len(), first);
                lemma_visits_sound(cfg@, dir@, scan(cfg@, dir@, cs, cs.len(), first).visits);
            }
        }
        while subdirs.len() > 0
            invariant
                subdirs@.len() <= all.len(),
                views(subdirs@) == all.take(subdirs@.len() as int),
                views(self.pending@) == rest + reversed(all).take(all.len() - subdirs@.len()),
                self.file_cnt == file_cnt,
            decreases subdirs.len(),
        {
            let ghost had = views(self.pending@);
            let ghost n = subdirs@.len();
            let ghost was = subdirs@;
            let p = subdirs.pop().unwrap();
            proof {
                assert(p@ == all[n - 1]) by {
                    assert(views(was)[n - 1] == was[n - 1]@);
                    assert(all.take(n as int)[n - 1] == all[n - 1]);
                }
                lemma_views_push(self.pending@, p);
                assert(views(subdirs@) =~= all.take(subdirs@.len() as int));
                assert(had.push(p@) =~= rest + reversed(all).take(all.len() - subdirs@.len()));
            }
            self.pending.push(p);
        }
        proof {
            assert(reversed(all).take(all.len() as int) =~= reversed(all));
            if start.wf(cfg@) {
                let fin = self@.pending;
                assert forall|k: int| 0 <= k < fin.len() implies placed(#[trigger] fin[k], cfg@) by {
                    if k < rest.len() {
                        assert(fin[k] == rest[k]);
                    } else {
                        assert(fin[k] == all[all.len() - 1 - (k - rest.len())]);
                    }
                }
            }
        }
        Step { visits, failure: None }
    }
}

/// Whether the filter of its kind lets a visited child pass, and the child
/// is not hidden where hidden names are skipped.
pub open spec fn let_through(cfg: ConfigModel, v: VisitModel) -> bool {
    &&& !(cfg.skip_hidden && is_hidden(v.name))
    &&& v.stat is Ok ==> cfg.filter.accepts(v.name, v.stat->Ok_0.kind is Dir)
}

/// What holds of the scan of a directory that is placed, over children with
/// valid names: every visited child lies directly in the directory, one
/// level below it, and was let through by the filters; every directory that
/// is listed later is placed; and the count of files grows, where there is
/// a limit, by the number of visits of files and stays within the limit.
pub proof fn lemma_scan_props(
    cfg: ConfigModel,
    dir: PendingModel,
    cs: Seq<ProbeModel>,
    n: nat,
    file_cnt: usize,
)
    requires
        placed(dir, cfg),
        names_valid(cs),
        n <= cs.len(),
        cfg.max_file_cnt > 0 ==> file_cnt <= cfg.max_file_cnt,
    ensures
        ({
            let sc = scan(cfg, dir, cs, n, file_cnt);
            &&& forall|k: int|
                0 <= k < sc.visits.len() ==> {
                    &&& separators((#[trigger] sc.visits[k]).path) == dir.depth
                    &&& sc.visits[k].path == join(dir.path, sc.visits[k].name)
                    &&& valid_name(sc.visits[k].name)
                    &&& let_through(cfg, sc.visits[k])
                }
            &&& forall|k: int| 0 <= k < sc.subdirs.len() ==> placed(#[trigger] sc.subdirs[k], cfg)
            &&& cfg.max_file_cnt > 0 ==> sc.file_cnt == file_cnt + file_visits(sc.visits)
                && sc.file_cnt <= cfg.max_file_cnt
            &&& cfg.max_file_cnt == 0 ==> sc.file_cnt == file_cnt
        }),
    decreases n,
{
    if n > 0 {
        let before = scan(cfg, dir, cs, (n - 1) as nat, file_cnt);
        lemma_scan_props(cfg, dir, cs, (n - 1) as nat, file_cnt);
        let c = cs[n - 1];
        let sc = scan_one(cfg, dir, before, c);
        assert(sc == scan(cfg, dir, cs, n, file_cnt));
        assert(valid_name(c.name));
        if admits(cfg, c, before.file_cnt) {
            lemma_join_separators(dir.path, c.name);
            let v = VisitModel { name: c.name, path: join(dir.path, c.name), stat: c.stat };
            assert(sc.visits == before.visits.push(v));
            assert(sc.visits.drop_last() =~= before.visits);
            assert forall|k: int| 0 <= k < sc.visits.len() implies {
                &&& separators((#[trigger] sc.visits[k]).path) == dir.depth
                &&& sc.visits[k].path == join(dir.path, sc.visits[k].name)
                &&& valid_name(sc.visits[k].name)
                &&& let_through(cfg, sc.visits[k])
            } by {
                if k < before.visits.len() {
                    assert(sc.visits[k] == before.visits[k]);
                }
            }
            assert forall|k: int| 0 <= k < sc.subdirs.len() implies placed(
                #[trigger] sc.subdirs[k],
                cfg,
            ) by {
                if k < before.subdirs.len() {
                    assert(sc.subdirs[k] == before.subdirs[k]);
                }
            }
        }
    }
}

/// Putting a child into a list keeps the names valid.
pub proof fn lemma_insert_names_valid(s: Seq<ProbeModel>, x: ProbeModel)
    requires
        names_valid(s),
        valid_name(x.name),
    ensures
        names_valid(insert_by_name(s, x)),
        insert_by_name(s, x).len() == s.len() + 1,
    decreases s.len(),
{
    if s.len() > 0 && !lex_le(s.last().name, x.name) {
        let t = s.drop_last();
        assert forall|i: int| 0 <= i < t.len() implies valid_name(#[trigger] t[i].name) by {
            assert(t[i] == s[i]);
        }
        lemma_insert_names_valid(t, x);
        assert(valid_name(s[s.len() - 1].name));
    }
}

/// Sorting keeps the names valid, and loses and adds no child.
pub proof fn lemma_sorted_names_valid(cs: Seq<ProbeModel>, n: nat)
    requires
        names_valid(cs),
        n <= cs.len(),
    ensures
        names_valid(sorted_prefix(cs, n)),
        sorted_prefix(cs, n).len() == n,
    decreases n,
{
    if n > 0 {
        lemma_sorted_names_valid(cs, (n - 1) as nat);
        assert(valid_name(cs[n - 1].name));
        lemma_insert_names_valid(sorted_prefix(cs, (n - 1) as nat), cs[n - 1]);
    }
}

/// Putting a child into a list that is in order leaves it in order.
pub proof fn lemma_insert_in_order(s: Seq<ProbeModel>, x: ProbeModel)
    requires
        in_order(s),
    ensures
        in_order(insert_by_name(s, x)),
        insert_by_name(s, x).len() == s.len() + 1,
        forall|i: int|
            0 <= i < s.len() + 1 ==> (#[trigger] insert_by_name(s, x)[i]) == x || exists|j: int|
                0 <= j < s.len() && insert_by_name(s, x)[i] == s[j],
    decreases s.len(),
{
    let r = insert_by_name(s, x);
    if s.len() == 0 {
        lemma_lex_le_refl(x.name);
    } else if lex_le(s.last().name, x.name) {
        assert forall|i: int, j: int| 0 <= i <= j < r.len() implies lex_le(
            r[i].name,
            r[j].name,
        ) by {
            if j < s.len() {
                assert(r[i] == s[i] && r[j] == s[j]);
            } else if i < s.len() {
                assert(r[i] == s[i]);
                assert(lex_le(s[i].name, s[s.len() - 1].name));
                lemma_lex_le_trans(s[i].name, s.last().name, x.name);
            } else {
                lemma_lex_le_refl(x.name);
            }
        }
        assert forall|i: int| 0 <= i < s.len() + 1 implies (#[trigger] r[i]) == x || exists|j: int|
            0 <= j < s.len() && r[i] == s[j] by {
            if i < s.len() {
                assert(r[i] == s[i]);
            }
        }
    } else {
        let t = s.drop_last();
        assert forall|i: int, j: int| 0 <= i <= j < t.len() implies lex_le(
            t[i].name,
            t[j].name,
        ) by {
            assert(t[i] == s[i] && t[j] == s[j]);
        }
        lemma_insert_in_order(t, x);
        let u = insert_by_name(t, x);
        lemma_lex_le_total(s.last().name, x.name);
        assert forall|i: int| 0 <= i < s.len() + 1 implies (#[trigger] r[i]) == x || exists|j: int|
            0 <= j < s.len() && r[i] == s[j] by {
            if i < u.len() {
                assert(r[i] == u[i]);
                if u[i] != x {
                    let j = choose|j: int| 0 <= j < t.len() && u[i] == t[j];
                    assert(t[j] == s[j]);
                }
            } else {
                assert(r[i] == s[s.len() - 1]);
            }
        }
        assert forall|i: int, j: int| 0 <= i <= j < r.len() implies lex_le(
            r[i].name,
            r[j].name,
        ) by {
            if j < u.len() {
                assert(r[i] == u[i] && r[j] == u[j]);
            } else if i < u.len() {
                assert(r[i] == u[i]);
                assert(r[j] == s.last());
                if u[i] == x {
                    assert(lex_le(x.name, s.last().name));
                } else {
                    let k = choose|k: int| 0 <= k < t.len() && u[i] == t[k];
                    assert(t[k] == s[k]);
                    assert(lex_le(s[k].name, s[s.len() - 1].name));
                }
            } else {
                lemma_lex_le_refl(s.last().name);
            }
        }
    }
}

/// Where sorting is asked for, the children of a directory are visited in
/// lexical order of their names.
pub proof fn lemma_sorted_in_order(cs: Seq<ProbeModel>, n: nat)
    requires
        n <= cs.len(),
    ensures
        in_order(sorted_prefix(cs, n)),
    decreases n,
{
    if n > 0 {
        lemma_sorted_in_order(cs, (n - 1) as nat);
        lemma_insert_in_order(sorted_prefix(cs, (n - 1) as nat), cs[n - 1]);
    }
}

/// Putting a child into a list adds just that child to what the list holds.
pub proof fn lemma_insert_multiset(s: Seq<ProbeModel>, x: ProbeModel)
    ensures
        insert_by_name(s, x).to_multiset() == s.to_multiset().insert(x),
    decreases s.len(),
{
    broadcast use vstd::seq_lib::group_to_multiset_ensures;

    if s.len() == 0 {
        assert(seq![x] =~= s.push(x));
    } else if lex_le(s.last().name, x.name) {
    } else {
        let t = s.drop_last();
        lemma_insert_multiset(t, x);
        assert(t.push(s.last()) =~= s);
        assert(insert_by_name(s, x).to_multiset() =~= s.to_multiset().insert(x));
    }
}

/// Sorting neither loses nor adds nor repeats a child: the sorted children
/// are the listed children in another order.
pub proof fn lemma_sorted_is_permutation(cs: Seq<ProbeModel>, n: nat)
    requires
        n <= cs.len(),
    ensures
        sorted_prefix(cs, n).to_multiset() == cs.take(n as int).to_multiset(),
    decreases n,
{
    broadcast use vstd::seq_lib::group_to_multiset_ensures;

    if n == 0 {
        assert(cs.take(0) =~= Seq::<ProbeModel>::empty());
    } else {
        lemma_sorted_is_permutation(cs, (n - 1) as nat);
        lemma_insert_multiset(sorted_prefix(cs, (n - 1) as nat), cs[n - 1]);
        assert(cs.take(n as int) =~= cs.take(n - 1).push(cs[n - 1]));
    }
}

/// What holds of a step of a well-formed walk: the walk stays well-formed;
/// what is visited lies, with a depth limit, no deeper than the limit, and
/// was let through by the filters; a directory that could not be read lies
/// within the limit too; and the count of files grows, where there is a
/// limit, by the number of visits of files.
pub open spec fn sound_step(w: WalkModel, cfg: ConfigModel, st: StepModel) -> bool {
    &&& st.walk.wf(cfg)
    &&& forall|k: int|
        0 <= k < st.visits.len() ==> {
            &&& (#[trigger] st.visits[k]).path.len() > 0
            &&& cfg.max_depth > 0 ==> depth_of(st.visits[k].path) <= cfg.max_depth
            &&& let_through(cfg, st.visits[k])
        }
    &&& st.failure is Some && cfg.max_depth > 0 ==> depth_of(st.failure->Some_0.0)
        <= cfg.max_depth
    &&& cfg.max_file_cnt > 0 ==> st.walk.file_cnt == w.file_cnt + file_visits(st.visits)
    &&& cfg.max_file_cnt == 0 ==> st.walk.file_cnt == w.file_cnt
}

proof fn lemma_visits_sound(cfg: ConfigModel, dir: PendingModel, visits: Seq<VisitModel>)
    requires
        placed(dir, cfg),
        forall|k: int|
            0 <= k < visits.len() ==> {
                &&& separators((#[trigger] visits[k]).path) == dir.depth
                &&& visits[k].path == join(dir.path, visits[k].name)
                &&& valid_name(visits[k].name)
            },
    ensures
        forall|k: int|
            0 <= k < visits.len() ==> {
                &&& (#[trigger] visits[k]).path.len() > 0
                &&& cfg.max_depth > 0 ==> depth_of(visits[k].path) <= cfg.max_depth
            },
{
    assert forall|k: int| 0 <= k < visits.len() implies {
        &&& (#[trigger] visits[k]).path.len() > 0
        &&& cfg.max_depth > 0 ==> depth_of(visits[k].path) <= cfg.max_depth
    } by {
        lemma_join_separators(dir.path, visits[k].name);
    }
}

/// A step of a walk that is well-formed, over children with valid names,
/// is sound.
pub proof fn lemma_fed_keeps_wf(w: WalkModel, cfg: ConfigModel, listing: Result<Seq<ProbeModel>, Seq<char>>)
    requires
        w.wf(cfg),
        listing is Ok ==> names_valid(listing->Ok_0),
    ensures
        sound_step(w, cfg, w.fed(cfg, listing)),
{
    let st = w.fed(cfg, listing);
    assert(file_visits(Seq::<VisitModel>::empty()) == 0);
    if w.pending.len() > 0 {
        let dir = w.pending.last();
        let rest = w.pending.drop_last();
        assert(placed(w.pending[w.pending.len() - 1], cfg));
        assert forall|i: int| 0 <= i < rest.len() implies placed(#[trigger] rest[i], cfg) by {
            assert(rest[i] == w.pending[i]);
        }
        match listing {
            Err(m) => {
                if dir.depth == 0 {
                    assert(separators(dir.path) == 0);
                }
            },
            Ok(cs) => {
                let a = arranged(cfg, cs);
                if cfg.sorted {
                    lemma_sorted_names_valid(cs, cs.len());
                }
                lemma_scan_props(cfg, dir, a, a.len(), w.file_cnt);
                let sc = scan(cfg, dir, a, a.len(), w.file_cnt);
                lemma_visits_sound(cfg, dir, sc.visits);
                let fin = st.walk.pending;
                assert forall|k: int| 0 <= k < fin.len() implies placed(#[trigger] fin[k], cfg) by {
                    if k < rest.len() {
                        assert(fin[k] == rest[k]);
                    } else {
                        assert(fin[k] == sc.subdirs[sc.subdirs.len() - 1 - (k - rest.len())]);
                    }
                }
            },
        }
    }
}

/// Exclusion wins in the walk as well: a child that was read and whose name
/// an exclude pattern of its kind matches is never visited, whatever the
/// include patterns say.
pub proof fn lemma_excluded_never_visited(cfg: ConfigModel, c: ProbeModel, file_cnt: usize)
    requires
        c.stat is Ok,
        any_match(cfg.filter.excludes(is_dir(c)), c.name, cfg.filter.case_sensitive),
    ensures
        !admits(cfg, c, file_cnt),
{
}

/// Whether the names of some visits come in lexical order.
pub open spec fn visits_in_order(vs: Seq<VisitModel>) -> bool {
    forall|i: int, j: int| 0 <= i <= j < vs.len() ==> lex_le(vs[i].name, vs[j].name)
}

proof fn lemma_scan_keeps_order(
    cfg: ConfigModel,
    dir: PendingModel,
    cs: Seq<ProbeModel>,
    n: nat,
    file_cnt: usize,
)
    requires
        in_order(cs),
        n <= cs.len(),
    ensures
        visits_in_order(scan(cfg, dir, cs, n, file_cnt).visits),
        forall|i: int|
            0 <= i < scan(cfg, dir, cs, n, file_cnt).visits.len() ==> exists|j: int|
                0 <= j < n && (#[trigger] scan(cfg, dir, cs, n, file_cnt).visits[i]).name
                    == cs[j].name,
    decreases n,
{
    if n > 0 {
        lemma_scan_keeps_order(cfg, dir, cs, (n - 1) as nat, file_cnt);
        let before = scan(cfg, dir, cs, (n - 1) as nat, file_cnt);
        let c = cs[n - 1];
        let sc = scan(cfg, dir, cs, n, file_cnt);
        assert(sc == scan_one(cfg, dir, before, c));
        if admits(cfg, c, before.file_cnt) {
            assert forall|i: int| 0 <= i < sc.visits.len() implies exists|j: int|
                0 <= j < n && (#[trigger] sc.visits[i]).name == cs[j].name by {
                if i < before.visits.len() {
                    assert(sc.visits[i] == before.visits[i]);
                    let j = choose|j: int| 0 <= j < n - 1 && before.visits[i].name == cs[j].name;
                    assert(0 <= j < n && sc.visits[i].name == cs[j].name);
                } else {
                    assert(sc.visits[i].name == cs[n - 1].name);
                }
            }
            assert forall|i: int, j: int| 0 <= i <= j < sc.visits.len() implies lex_le(
                sc.visits[i].name,
                sc.visits[j].name,
            ) by {
                if j < before.visits.len() {
                    assert(sc.visits[i] == before.visits[i] && sc.visits[j] == before.visits[j]);
                } else if i < before.visits.len() {
                    assert(sc.visits[i] == before.visits[i]);
                    let k = choose|k: int| 0 <= k < n - 1 && before.visits[i].name == cs[k].name;
                    assert(lex_le(cs[k].name, cs[n - 1].name));
                } else {
                    lemma_lex_le_refl(c.name);
                }
            }
        } else {
            assert forall|i: int| 0 <= i < sc.visits.len() implies exists|j: int|
                0 <= j < n && (#[trigger] sc.visits[i]).name == cs[j].name by {
                let j = choose|j: int| 0 <= j < n - 1 && before.visits[i].name == cs[j].name;
                assert(0 <= j < n && sc.visits[i].name == cs[j].name);
            }
        }
    }
}

/// Where sorting is asked for, what a step of the walk visits comes in
/// lexical order of the names, whatever the order of the listing was.
pub proof fn lemma_sorted_visits_in_order(w: WalkModel, cfg: ConfigModel, listing: Result<Seq<ProbeModel>, Seq<char>>)
    requires
        cfg.sorted,
    ensures
        visits_in_order(w.fed(cfg, listing).visits),
{
    if w.pending.len() > 0 && listing is Ok {
        let cs = listing->Ok_0;
        lemma_sorted_in_order(cs, cs.len());
        lemma_sorted_names_len(cs, cs.len());
        let a = arranged(cfg, cs);
        lemma_scan_keeps_order(cfg, w.pending.last(), a, a.len(), w.file_cnt);
    }
}

proof fn lemma_sorted_names_len(cs: Seq<ProbeModel>, n: nat)
    requires
        n <= cs.len(),
    ensures
        sorted_prefix(cs, n).len() == n,
    decreases n,
{
    if n > 0 {
        lemma_sorted_names_len(cs, (n - 1) as nat);
        lemma_sorted_in_order(cs, (n - 1) as nat);
        lemma_insert_in_order(sorted_prefix(cs, (n - 1) as nat), cs[n - 1]);
    }
}

/// Whether no two children have the same name.
pub open spec fn names_distinct(cs: Seq<ProbeModel>) -> bool {
    forall|i: int, j: int| 0 <= i < j < cs.len() ==> cs[i].name != cs[j].name
}

/// Whether two listings hold the same children, in whatever order, each
/// name once; or tell of the same failure.
pub open spec fn same_children(
    x: Result<Seq<ProbeModel>, Seq<char>>,
    y: Result<Seq<ProbeModel>, Seq<char>>,
) -> bool {
    match (x, y) {
        (Ok(a), Ok(b)) => a.to_multiset() == b.to_multiset() && names_distinct(a)
            && names_distinct(b),
        (Err(m), Err(n)) => m == n,
        _ => false,
    }
}

proof fn lemma_sorted_elements(cs: Seq<ProbeModel>, n: nat)
    requires
        n <= cs.len(),
    ensures
        sorted_prefix(cs, n).len() == n,
        forall|i: int|
            0 <= i < n ==> exists|j: int|
                0 <= j < n && (#[trigger] sorted_prefix(cs, n)[i]) == cs[j],
    decreases n,
{
    if n > 0 {
        lemma_sorted_elements(cs, (n - 1) as nat);
        lemma_sorted_in_order(cs, (n - 1) as nat);
        let s = sorted_prefix(cs, (n - 1) as nat);
        let x = cs[n - 1];
        lemma_insert_in_order(s, x);
        let r = insert_by_name(s, x);
        assert forall|i: int| 0 <= i < n implies exists|j: int|
            0 <= j < n && (#[trigger] r[i]) == cs[j] by {
            if r[i] == x {
                assert(r[i] == cs[n - 1]);
            } else {
                let k = choose|k: int| 0 <= k < s.len() && r[i] == s[k];
                let j = choose|j: int| 0 <= j < n - 1 && s[k] == cs[j];
                assert(r[i] == cs[j]);
            }
        }
    }
}

proof fn lemma_insert_keeps_distinct(s: Seq<ProbeModel>, x: ProbeModel)
    requires
        names_distinct(s),
        forall|i: int| 0 <= i < s.len() ==> (#[trigger] s[i]).name != x.name,
    ensures
        names_distinct(insert_by_name(s, x)),
        insert_by_name(s, x).len() == s.len() + 1,
        forall|i: int|
            0 <= i < s.len() + 1 ==> (#[trigger] insert_by_name(s, x)[i]) == x || exists|j: int|
                0 <= j < s.len() && insert_by_name(s, x)[i] == s[j],
    decreases s.len(),
{
    let r = insert_by_name(s, x);
    if s.len() == 0 {
    } else if lex_le(s.last().name, x.name) {
        assert forall|i: int| 0 <= i < s.len() + 1 implies (#[trigger] r[i]) == x || exists|j: int|
            0 <= j < s.len() && r[i] == s[j] by {
            if i < s.len() {
                assert(r[i] == s[i]);
            }
        }
        assert forall|i: int, j: int| 0 <= i < j < r.len() implies r[i].name != r[j].name by {
            assert(r[i] == s[i]);
            if j < s.len() {
                assert(r[j] == s[j]);
            }
        }
    } else {
        let t = s.drop_last();
        assert forall|i: int, j: int| 0 <= i < j < t.len() implies t[i].name != t[j].name by {
            assert(t[i] == s[i] && t[j] == s[j]);
        }
        assert forall|i: int| 0 <= i < t.len() implies (#[trigger] t[i]).name != x.name by {
            assert(t[i] == s[i]);
        }
        lemma_insert_keeps_distinct(t, x);
        let u = insert_by_name(t, x);
        assert forall|i: int| 0 <= i < s.len() + 1 implies (#[trigger] r[i]) == x || exists|j: int|
            0 <= j < s.len() && r[i] == s[j] by {
            if i < u.len() {
                assert(r[i] == u[i]);
                if u[i] != x {
                    let j = choose|j: int| 0 <= j < t.len() && u[i] == t[j];
                    assert(t[j] == s[j]);
                }
            } else {
                assert(r[i] == s[s.len() - 1]);
            }
        }
        assert forall|i: int, j: int| 0 <= i < j < r.len() implies r[i].name != r[j].name by {
            assert(r[i] == u[i]);
            if j < u.len() {
                assert(r[j] == u[j]);
            } else {
                assert(r[j] == s[s.len() - 1]);
                if u[i] == x {
                    assert(s[s.len() - 1].name != x.name);
                } else {
                    let k = choose|k: int| 0 <= k < t.len() && u[i] == t[k];
                    assert(t[k] == s[k]);
                }
            }
        }
    }
}

proof fn lemma_sorted_distinct(cs: Seq<ProbeModel>, n: nat)
    requires
        names_distinct(cs),
        n <= cs.len(),
    ensures
        names_distinct(sorted_prefix(cs, n)),
    decreases n,
{
    if n > 0 {
        lemma_sorted_distinct(cs, (n - 1) as nat);
        lemma_sorted_elements(cs, (n - 1) as nat);
        let s = sorted_prefix(cs, (n - 1) as nat);
        assert forall|i: int| 0 <= i < s.len() implies (#[trigger] s[i]).name != cs[n - 1].name by {
            let j = choose|j: int| 0 <= j < n - 1 && s[i] == cs[j];
            assert(cs[j].name != cs[n - 1].name);
        }
        lemma_insert_keeps_distinct(s, cs[n - 1]);
    }
}

/// Two lists in lexical order of their names, each name once, that hold
/// the same children are the same list.
pub proof fn lemma_ordered_lists_of_same_children_equal(a: Seq<ProbeModel>, b: Seq<ProbeModel>)
    requires
        in_order(a),
        in_order(b),
        names_distinct(a),
        names_distinct(b),
        a.to_multiset() == b.to_multiset(),
    ensures
        a == b,
    decreases a.len(),
{
    broadcast use vstd::seq_lib::group_to_multiset_ensures;

    assert(a.len() == a.to_multiset().len());
    assert(b.len() == b.to_multiset().len());
    if a.len() == 0 {
        assert(a =~= b);
    } else {
        let n = a.len() as int;
        let x = a[n - 1];
        let y = b[n - 1];
        assert(a.contains(x));
        assert(b.contains(y));
        assert(a.to_multiset().count(x) > 0);
        assert(b.to_multiset().count(y) > 0);
        assert(b.to_multiset().count(x) > 0);
        assert(a.to_multiset().count(y) > 0);
        assert(b.contains(x));
        assert(a.contains(y));
        let k = choose|k: int| 0 <= k < b.len() && b[k] == x;
        let j = choose|j: int| 0 <= j < a.len() && a[j] == y;
        assert(lex_le(a[j].name, a[n - 1].name));
        assert(lex_le(b[k].name, b[n - 1].name));
        lemma_lex_le_antisym(x.name, y.name);
        if k < n - 1 {
            assert(b[k].name != b[n - 1].name);
        }
        assert(x == y);
        let a1 = a.drop_last();
        let b1 = b.drop_last();
        assert(a1.push(x) =~= a);
        assert(b1.push(x) =~= b);
        assert(a1.to_multiset().insert(x) == b1.to_multiset().insert(x));
        assert forall|v: ProbeModel| a1.to_multiset().count(v) == b1.to_multiset().count(v) by {
            assert(a1.to_multiset().insert(x).count(v) == b1.to_multiset().insert(x).count(v));
        }
        assert(a1.to_multiset() =~= b1.to_multiset());
        assert forall|i: int, j: int| 0 <= i <= j < a1.len() implies lex_le(
            a1[i].name,
            a1[j].name,
        ) by {
            assert(a1[i] == a[i] && a1[j] == a[j]);
        }
        assert forall|i: int, j: int| 0 <= i <= j < b1.len() implies lex_le(
            b1[i].name,
            b1[j].name,
        ) by {
            assert(b1[i] == b[i] && b1[j] == b[j]);
        }
        assert forall|i: int, j: int| 0 <= i < j < a1.len() implies a1[i].name != a1[j].name by {
            assert(a1[i] == a[i] && a1[j] == a[j]);
        }
        assert forall|i: int, j: int| 0 <= i < j < b1.len() implies b1[i].name != b1[j].name by {
            assert(b1[i] == b[i] && b1[j] == b[j]);
        }
        lemma_ordered_lists_of_same_children_equal(a1, b1);
        assert(a =~= b);
    }
}

/// Once a listing is sorted its order does not matter: two listings that
/// hold the same children, each name once, are sorted to the same list.
pub proof fn lemma_sorted_order_independent(a: Seq<ProbeModel>, b: Seq<ProbeModel>)
    requires
        a.to_multiset() == b.to_multiset(),
        names_distinct(a),
        names_distinct(b),
    ensures
        sorted_prefix(a, a.len()) == sorted_prefix(b, b.len()),
{
    lemma_sorted_in_order(a, a.len());
    lemma_sorted_in_order(b, b.len());
    lemma_sorted_distinct(a, a.len());
    lemma_sorted_distinct(b, b.len());
    lemma_sorted_is_permutation(a, a.len());
    lemma_sorted_is_permutation(b, b.len());
    assert(a.take(a.len() as int) =~= a);
    assert(b.take(b.len() as int) =~= b);
    lemma_ordered_lists_of_same_children_equal(
        sorted_prefix(a, a.len()),
        sorted_prefix(b, b.len()),
    );
}

/// Where sorting is asked for, a step of the walk does not depend on the
/// order of the listing: two listings that hold the same children lead to
/// the same walk and to the same visits in the same order.
pub proof fn lemma_sorted_step_order_independent(
    w: WalkModel,
    cfg: ConfigModel,
    x: Result<Seq<ProbeModel>, Seq<char>>,
    y: Result<Seq<ProbeModel>, Seq<char>>,
)
    requires
        cfg.sorted,
        same_children(x, y),
    ensures
        w.fed(cfg, x) == w.fed(cfg, y),
{
    if x is Ok {
        lemma_sorted_order_independent(x->Ok_0, y->Ok_0);
    }
}

} // verus!
