//! Scans of a whole tree.
//!
//! A tree is given by the listing of each of its directories. What a
//! complete scan of a tree returns is told here without any order of
//! visiting: the results of a directory are those of its children, and below
//! each child that is descended into, those of that child. The laws at the
//! end say that a scan comes to exactly these results, so that two complete
//! scans of the same tree return the same entries and the same errors,
//! whatever the order in which the directories list their children, and
//! whether they were made on the caller's own thread or by a worker.
//!
//! The laws hold where no limit on files is set: with such a limit the order
//! of the listings decides which files are taken.

use crate::config::ConfigModel;
use crate::entry::{classified, join, ProbeModel, ResultModel};
use crate::scandir::{entries_of, errors_of, failure_seq, ScandirModel};
use crate::traverse::{
    admits, arranged, lemma_sorted_is_permutation, queues, reversed, scan, scan_one,
    PendingModel, VisitModel,
};
use vstd::multiset::Multiset;
use vstd::prelude::*;

verus! {

/// What a part of a tree yields to a scan: entries and errors without
/// regard to order, and whether the part was seen to its end.
pub struct Yield {
    pub entries: Multiset<ResultModel>,
    pub errors: Multiset<(Seq<char>, Seq<char>)>,
    pub closed: bool,
}

impl Yield {
    /// Nothing, seen to its end.
    pub open spec fn nothing() -> Yield {
        Yield { entries: Multiset::empty(), errors: Multiset::empty(), closed: true }
    }

    /// Nothing, and not seen to its end.
    pub open spec fn cut() -> Yield {
        Yield { entries: Multiset::empty(), errors: Multiset::empty(), closed: false }
    }

    /// Two yields together.
    pub open spec fn plus(self, o: Yield) -> Yield {
        Yield {
            entries: self.entries.add(o.entries),
            errors: self.errors.add(o.errors),
            closed: self.closed && o.closed,
        }
    }

    /// Whether two yields hold the same.
    pub open spec fn same(self, o: Yield) -> bool {
        self.entries =~= o.entries && self.errors =~= o.errors && self.closed == o.closed
    }
}

/// The yields of the first `n` children together.
pub open spec fn fsum(cs: Seq<ProbeModel>, f: spec_fn(ProbeModel) -> Yield, n: nat) -> Yield
    decreases n,
{
    if n == 0 || n > cs.len() {
        Yield::nothing()
    } else {
        fsum(cs, f, (n - 1) as nat).plus(f(cs[n - 1]))
    }
}

proof fn lemma_fsum_prefix(a: Seq<ProbeModel>, b: Seq<ProbeModel>, f: spec_fn(ProbeModel) -> Yield, n: nat)
    requires
        n <= a.len(),
        n <= b.len(),
        forall|i: int| 0 <= i < n ==> a[i] == b[i],
    ensures
        fsum(a, f, n) == fsum(b, f, n),
    decreases n,
{
    if n > 0 {
        lemma_fsum_prefix(a, b, f, (n - 1) as nat);
    }
}

proof fn lemma_fsum_pointwise(
    cs: Seq<ProbeModel>,
    f: spec_fn(ProbeModel) -> Yield,
    g: spec_fn(ProbeModel) -> Yield,
    n: nat,
)
    requires
        n <= cs.len(),
        forall|c: ProbeModel| #[trigger] f(c) == g(c),
    ensures
        fsum(cs, f, n) == fsum(cs, g, n),
    decreases n,
{
    if n > 0 {
        lemma_fsum_pointwise(cs, f, g, (n - 1) as nat);
    }
}

proof fn lemma_fsum_remove(cs: Seq<ProbeModel>, f: spec_fn(ProbeModel) -> Yield, k: int)
    requires
        0 <= k < cs.len(),
    ensures
        fsum(cs, f, cs.len()).same(fsum(cs.remove(k), f, (cs.len() - 1) as nat).plus(f(cs[k]))),
    decreases cs.len(),
{
    let n = cs.len();
    let r = cs.remove(k);
    assert(r.len() == n - 1);
    if k == n - 1 {
        assert forall|i: int| 0 <= i < n - 1 implies cs[i] == r[i] by {}
        lemma_fsum_prefix(cs, r, f, (n - 1) as nat);
    } else {
        let d = cs.drop_last();
        let dr = d.remove(k);
        lemma_fsum_remove(d, f, k);
        assert forall|i: int| 0 <= i < n - 1 implies cs[i] == d[i] by {}
        lemma_fsum_prefix(cs, d, f, (n - 1) as nat);
        assert(r =~= dr.push(cs[n - 1]));
        assert forall|i: int| 0 <= i < n - 2 implies r[i] == dr[i] by {}
        lemma_fsum_prefix(r, dr, f, (n - 2) as nat);
        assert(r[n - 2] == cs[n - 1]);
    }
}

/// The yields of some children together do not depend on the order of the
/// children.
proof fn lemma_fsum_perm(a: Seq<ProbeModel>, b: Seq<ProbeModel>, f: spec_fn(ProbeModel) -> Yield)
    requires
        a.to_multiset() == b.to_multiset(),
    ensures
        fsum(a, f, a.len()).same(fsum(b, f, b.len())),
    decreases a.len(),
{
    broadcast use vstd::seq_lib::group_to_multiset_ensures;

    assert(a.len() == a.to_multiset().len());
    assert(b.len() == b.to_multiset().len());
    if a.len() > 0 {
        let n = a.len() as int;
        let x = a[n - 1];
        assert(a.contains(x));
        assert(a.to_multiset().count(x) > 0);
        assert(b.to_multiset().count(x) > 0);
        assert(b.contains(x));
        let k = choose|k: int| 0 <= k < b.len() && b[k] == x;
        let a1 = a.drop_last();
        let b1 = b.remove(k);
        assert(a1.push(x) =~= a);
        assert(a1.to_multiset().insert(x) == a.to_multiset());
        assert(b1.to_multiset() == b.to_multiset().remove(x));
        assert(a1.to_multiset() =~= b1.to_multiset()) by {
            assert forall|v: ProbeModel| a1.to_multiset().count(v) == b1.to_multiset().count(v) by {
                assert(a1.to_multiset().insert(x).count(v) == b.to_multiset().count(v));
            }
        }
        assert(b1.len() == n - 1);
        lemma_fsum_perm(a1, b1, f);
        lemma_fsum_remove(b, f, k);
        assert forall|i: int| 0 <= i < n - 1 implies a[i] == a1[i] by {}
        lemma_fsum_prefix(a, a1, f, (n - 1) as nat);
    }
}

/// Whether two listings hold the same children, in whatever order; or tell
/// of the same failure.
pub open spec fn same_bag(
    x: Result<Seq<ProbeModel>, Seq<char>>,
    y: Result<Seq<ProbeModel>, Seq<char>>,
) -> bool {
    match (x, y) {
        (Ok(a), Ok(b)) => a.to_multiset() == b.to_multiset(),
        (Err(m), Err(n)) => m == n,
        _ => false,
    }
}

/// Whether two trees are the same tree but for the order in which the
/// directories list their children.
pub open spec fn same_tree(
    fa: spec_fn(Seq<char>) -> Result<Seq<ProbeModel>, Seq<char>>,
    fb: spec_fn(Seq<char>) -> Result<Seq<ProbeModel>, Seq<char>>,
) -> bool {
    forall|p: Seq<char>| same_bag(#[trigger] fa(p), fb(p))
}

/// What a child yields by itself: its entry or its error where it is
/// visited, else nothing.
pub open spec fn own_yield(cfg: ConfigModel, dir: PendingModel, c: ProbeModel) -> Yield {
    if !admits(cfg, c, 0) {
        Yield::nothing()
    } else {
        match classified(join(dir.path, c.name), c.stat, cfg.return_type) {
            ResultModel::Error(p, m) => Yield {
                entries: Multiset::empty(),
                errors: Multiset::singleton((p, m)),
                closed: true,
            },
            r => Yield {
                entries: Multiset::singleton(r),
                errors: Multiset::empty(),
                closed: true,
            },
        }
    }
}

/// The child as a directory to list.
pub open spec fn child_dir(dir: PendingModel, c: ProbeModel) -> PendingModel {
    PendingModel { path: join(dir.path, c.name), depth: (dir.depth + 1) as usize }
}

/// Whether a scan goes below the child.
pub open spec fn descends(cfg: ConfigModel, dir: PendingModel, c: ProbeModel) -> bool {
    admits(cfg, c, 0) && queues(cfg, c, dir.depth)
}

/// What the tree below a directory yields, down to `h` levels: the failure
/// of its listing, or what its children yield.
pub open spec fn dir_yield(
    fs: spec_fn(Seq<char>) -> Result<Seq<ProbeModel>, Seq<char>>,
    cfg: ConfigModel,
    dir: PendingModel,
    h: nat,
) -> Yield
    decreases h, 1nat, 0nat,
{
    if h == 0 {
        Yield::cut()
    } else {
        match fs(dir.path) {
            Err(m) => Yield {
                entries: Multiset::empty(),
                errors: Multiset::singleton((dir.path, m)),
                closed: true,
            },
            Ok(cs) => children_yield(fs, cfg, dir, cs, h, cs.len()),
        }
    }
}

/// What the first `n` children of a directory yield, each by itself and
/// with what lies below it where the scan descends.
pub open spec fn children_yield(
    fs: spec_fn(Seq<char>) -> Result<Seq<ProbeModel>, Seq<char>>,
    cfg: ConfigModel,
    dir: PendingModel,
    cs: Seq<ProbeModel>,
    h: nat,
    n: nat,
) -> Yield
    decreases h, 0nat, n,
{
    if h == 0 || n == 0 || n > cs.len() {
        Yield::nothing()
    } else {
        children_yield(fs, cfg, dir, cs, h, (n - 1) as nat).plus(
            child_yield(fs, cfg, dir, cs[n - 1], h),
        )
    }
}

/// What one child yields, by itself and with what lies below it.
pub open spec fn child_yield(
    fs: spec_fn(Seq<char>) -> Result<Seq<ProbeModel>, Seq<char>>,
    cfg: ConfigModel,
    dir: PendingModel,
    c: ProbeModel,
    h: nat,
) -> Yield
    decreases h, 0nat, 0nat,
{
    if h == 0 {
        Yield::nothing()
    } else if descends(cfg, dir, c) {
        own_yield(cfg, dir, c).plus(dir_yield(fs, cfg, child_dir(dir, c), (h - 1) as nat))
    } else {
        own_yield(cfg, dir, c)
    }
}

proof fn lemma_children_as_sum(
    fs: spec_fn(Seq<char>) -> Result<Seq<ProbeModel>, Seq<char>>,
    cfg: ConfigModel,
    dir: PendingModel,
    cs: Seq<ProbeModel>,
    h: nat,
    n: nat,
)
    requires
        h > 0,
        n <= cs.len(),
    ensures
        children_yield(fs, cfg, dir, cs, h, n) == fsum(
            cs,
            |c: ProbeModel| child_yield(fs, cfg, dir, c, h),
            n,
        ),
    decreases n,
{
    if n > 0 {
        lemma_children_as_sum(fs, cfg, dir, cs, h, (n - 1) as nat);
    }
}

/// What the children of a directory yield does not depend on their order.
proof fn lemma_children_yield_perm(
    fs: spec_fn(Seq<char>) -> Result<Seq<ProbeModel>, Seq<char>>,
    cfg: ConfigModel,
    dir: PendingModel,
    a: Seq<ProbeModel>,
    b: Seq<ProbeModel>,
    h: nat,
)
    requires
        a.to_multiset() == b.to_multiset(),
    ensures
        children_yield(fs, cfg, dir, a, h, a.len()) == children_yield(fs, cfg, dir, b, h, b.len()),
{
    if h > 0 {
        let f = |c: ProbeModel| child_yield(fs, cfg, dir, c, h);
        lemma_children_as_sum(fs, cfg, dir, a, h, a.len());
        lemma_children_as_sum(fs, cfg, dir, b, h, b.len());
        lemma_fsum_perm(a, b, f);
    }
}

/// What the tree below a directory yields does not depend on the order in
/// which the directories list their children.
pub proof fn lemma_dir_yield_order_independent(
    fa: spec_fn(Seq<char>) -> Result<Seq<ProbeModel>, Seq<char>>,
    fb: spec_fn(Seq<char>) -> Result<Seq<ProbeModel>, Seq<char>>,
    cfg: ConfigModel,
    dir: PendingModel,
    h: nat,
)
    requires
        same_tree(fa, fb),
    ensures
        dir_yield(fa, cfg, dir, h) == dir_yield(fb, cfg, dir, h),
    decreases h,
{
    if h > 0 {
        assert(same_bag(fa(dir.path), fb(dir.path)));
        match fa(dir.path) {
            Err(_) => {},
            Ok(a) => {
                let b = fb(dir.path)->Ok_0;
                let f = |c: ProbeModel| child_yield(fa, cfg, dir, c, h);
                let g = |c: ProbeModel| child_yield(fb, cfg, dir, c, h);
                assert forall|c: ProbeModel| #[trigger] f(c) == g(c) by {
                    lemma_dir_yield_order_independent(fa, fb, cfg, child_dir(dir, c), (h - 1) as nat);
                }
                lemma_children_as_sum(fa, cfg, dir, a, h, a.len());
                lemma_children_as_sum(fb, cfg, dir, a, h, a.len());
                lemma_fsum_pointwise(a, f, g, a.len());
                lemma_children_yield_perm(fb, cfg, dir, a, b, h);
            },
        }
    }
}

/// What was seen to its end at some depth is the same at any greater depth.
pub proof fn lemma_dir_yield_stable(
    fs: spec_fn(Seq<char>) -> Result<Seq<ProbeModel>, Seq<char>>,
    cfg: ConfigModel,
    dir: PendingModel,
    h: nat,
    h2: nat,
)
    requires
        dir_yield(fs, cfg, dir, h).closed,
        h <= h2,
    ensures
        dir_yield(fs, cfg, dir, h2) == dir_yield(fs, cfg, dir, h),
    decreases h, 1nat, 0nat,
{
    if h > 0 {
        match fs(dir.path) {
            Err(_) => {},
            Ok(cs) => {
                lemma_children_yield_stable(fs, cfg, dir, cs, h, h2, cs.len());
            },
        }
    }
}

proof fn lemma_children_yield_stable(
    fs: spec_fn(Seq<char>) -> Result<Seq<ProbeModel>, Seq<char>>,
    cfg: ConfigModel,
    dir: PendingModel,
    cs: Seq<ProbeModel>,
    h: nat,
    h2: nat,
    n: nat,
)
    requires
        h > 0,
        n <= cs.len(),
        children_yield(fs, cfg, dir, cs, h, n).closed,
        h <= h2,
    ensures
        children_yield(fs, cfg, dir, cs, h2, n) == children_yield(fs, cfg, dir, cs, h, n),
    decreases h, 0nat, n,
{
    if n > 0 {
        let c = cs[n - 1];
        let before = children_yield(fs, cfg, dir, cs, h, (n - 1) as nat);
        let one = child_yield(fs, cfg, dir, c, h);
        assert(children_yield(fs, cfg, dir, cs, h, n) == before.plus(one));
        assert(children_yield(fs, cfg, dir, cs, h2, n) == children_yield(
            fs,
            cfg,
            dir,
            cs,
            h2,
            (n - 1) as nat,
        ).plus(child_yield(fs, cfg, dir, c, h2)));
        lemma_children_yield_stable(fs, cfg, dir, cs, h, h2, (n - 1) as nat);
        if descends(cfg, dir, c) {
            let below = dir_yield(fs, cfg, child_dir(dir, c), (h - 1) as nat);
            assert(one == own_yield(cfg, dir, c).plus(below));
            assert(below.closed);
            lemma_dir_yield_stable(fs, cfg, child_dir(dir, c), (h - 1) as nat, (h2 - 1) as nat);
            assert(child_yield(fs, cfg, dir, c, h2) == own_yield(cfg, dir, c).plus(
                dir_yield(fs, cfg, child_dir(dir, c), (h2 - 1) as nat),
            ));
        } else {
            assert(one == own_yield(cfg, dir, c));
            assert(child_yield(fs, cfg, dir, c, h2) == own_yield(cfg, dir, c));
        }
    }
}

/// What the trees below the waiting directories yield together.
pub open spec fn stack_yield(
    fs: spec_fn(Seq<char>) -> Result<Seq<ProbeModel>, Seq<char>>,
    cfg: ConfigModel,
    s: Seq<PendingModel>,
    h: nat,
) -> Yield
    decreases s.len(),
{
    if s.len() == 0 {
        Yield::nothing()
    } else {
        stack_yield(fs, cfg, s.drop_last(), h).plus(dir_yield(fs, cfg, s.last(), h))
    }
}

/// What a scan holds, without regard to order.
pub open spec fn results_yield(m: ScandirModel) -> Yield {
    Yield {
        entries: m.entries.items.to_multiset(),
        errors: m.errors.items.to_multiset(),
        closed: true,
    }
}

/// What some visits come to, without regard to order.
pub open spec fn visits_yield(cfg: ConfigModel, vs: Seq<VisitModel>) -> Yield {
    Yield {
        entries: entries_of(vs, cfg.return_type).to_multiset(),
        errors: errors_of(vs, cfg.return_type).to_multiset(),
        closed: true,
    }
}

/// The scan of a tree by a worker: after `fuel` listings, or when nothing
/// waits any more.
pub open spec fn tree_run(
    m: ScandirModel,
    fs: spec_fn(Seq<char>) -> Result<Seq<ProbeModel>, Seq<char>>,
    fuel: nat,
) -> ScandirModel
    decreases fuel,
{
    if fuel == 0 || m.walk.done() {
        m
    } else {
        tree_run(m.fed(fs(m.walk.pending.last().path)), fs, (fuel - 1) as nat)
    }
}

proof fn lemma_stack_concat(
    fs: spec_fn(Seq<char>) -> Result<Seq<ProbeModel>, Seq<char>>,
    cfg: ConfigModel,
    s: Seq<PendingModel>,
    t: Seq<PendingModel>,
    h: nat,
)
    ensures
        stack_yield(fs, cfg, s + t, h).same(
            stack_yield(fs, cfg, s, h).plus(stack_yield(fs, cfg, t, h)),
        ),
    decreases t.len(),
{
    if t.len() == 0 {
        assert(s + t =~= s);
    } else {
        assert((s + t).drop_last() =~= s + t.drop_last());
        assert((s + t).last() == t.last());
        lemma_stack_concat(fs, cfg, s, t.drop_last(), h);
    }
}

proof fn lemma_stack_stable(
    fs: spec_fn(Seq<char>) -> Result<Seq<ProbeModel>, Seq<char>>,
    cfg: ConfigModel,
    s: Seq<PendingModel>,
    h: nat,
    h2: nat,
)
    requires
        stack_yield(fs, cfg, s, h).closed,
        h <= h2,
    ensures
        stack_yield(fs, cfg, s, h2) == stack_yield(fs, cfg, s, h),
    decreases s.len(),
{
    if s.len() > 0 {
        lemma_stack_stable(fs, cfg, s.drop_last(), h, h2);
        lemma_dir_yield_stable(fs, cfg, s.last(), h, h2);
    }
}

proof fn lemma_scan_yield(
    fs: spec_fn(Seq<char>) -> Result<Seq<ProbeModel>, Seq<char>>,
    cfg: ConfigModel,
    dir: PendingModel,
    cs: Seq<ProbeModel>,
    h: nat,
    n: nat,
    file_cnt: usize,
)
    requires
        cfg.max_file_cnt == 0,
        h > 0,
        n <= cs.len(),
    ensures
        ({
            let sc = scan(cfg, dir, cs, n, file_cnt);
            visits_yield(cfg, sc.visits).plus(
                stack_yield(fs, cfg, reversed(sc.subdirs), (h - 1) as nat),
            ).same(children_yield(fs, cfg, dir, cs, h, n))
        }),
    decreases n,
{
    broadcast use vstd::seq_lib::group_to_multiset_ensures;

    let rt = cfg.return_type;
    if n == 0 {
        let sc = scan(cfg, dir, cs, n, file_cnt);
        assert(reversed(sc.subdirs) =~= Seq::<PendingModel>::empty());
        assert(entries_of(sc.visits, rt) =~= Seq::<ResultModel>::empty());
        assert(errors_of(sc.visits, rt) =~= Seq::<(Seq<char>, Seq<char>)>::empty());
    } else {
        lemma_scan_yield(fs, cfg, dir, cs, h, (n - 1) as nat, file_cnt);
        let before = scan(cfg, dir, cs, (n - 1) as nat, file_cnt);
        let c = cs[n - 1];
        let sc = scan(cfg, dir, cs, n, file_cnt);
        assert(sc == scan_one(cfg, dir, before, c));
        let one = child_yield(fs, cfg, dir, c, h);
        assert(children_yield(fs, cfg, dir, cs, h, n) == children_yield(
            fs,
            cfg,
            dir,
            cs,
            h,
            (n - 1) as nat,
        ).plus(one));
        assert(admits(cfg, c, before.file_cnt) == admits(cfg, c, 0));
        if admits(cfg, c, 0) {
            let path = join(dir.path, c.name);
            let v = VisitModel { name: c.name, path, stat: c.stat };
            assert(sc.visits == before.visits.push(v));
            assert(sc.visits.drop_last() =~= before.visits);
            assert(sc.visits.last() == v);
            let r = classified(path, c.stat, rt);
            match r {
                ResultModel::Error(p, m) => {
                    assert(errors_of(sc.visits, rt) == errors_of(before.visits, rt).push((p, m)));
                    assert(entries_of(sc.visits, rt) == entries_of(before.visits, rt));
                },
                _ => {
                    assert(entries_of(sc.visits, rt) == entries_of(before.visits, rt).push(r));
                    assert(errors_of(sc.visits, rt) == errors_of(before.visits, rt));
                },
            }
            if queues(cfg, c, dir.depth) {
                let q = child_dir(dir, c);
                assert(sc.subdirs == before.subdirs.push(q));
                assert(reversed(sc.subdirs) =~= seq![q] + reversed(before.subdirs));
                lemma_stack_concat(fs, cfg, seq![q], reversed(before.subdirs), (h - 1) as nat);
                assert(seq![q].drop_last() =~= Seq::<PendingModel>::empty());
                assert(seq![q].last() == q);
                assert(stack_yield(fs, cfg, Seq::<PendingModel>::empty(), (h - 1) as nat)
                    == Yield::nothing());
                assert(stack_yield(fs, cfg, seq![q], (h - 1) as nat) == stack_yield(
                    fs,
                    cfg,
                    seq![q].drop_last(),
                    (h - 1) as nat,
                ).plus(dir_yield(fs, cfg, seq![q].last(), (h - 1) as nat)));
                assert(stack_yield(fs, cfg, seq![q], (h - 1) as nat) == Yield::nothing().plus(
                    dir_yield(fs, cfg, q, (h - 1) as nat),
                ));
                assert(one == own_yield(cfg, dir, c).plus(dir_yield(fs, cfg, q, (h - 1) as nat)));
            } else {
                assert(sc.subdirs == before.subdirs);
                assert(one == own_yield(cfg, dir, c));
            }
        } else {
            assert(sc == before);
            assert(one == own_yield(cfg, dir, c));
        }
    }
}

proof fn lemma_step_yield(
    m: ScandirModel,
    fs: spec_fn(Seq<char>) -> Result<Seq<ProbeModel>, Seq<char>>,
    h: nat,
)
    requires
        m.life.busy(),
        !m.walk.done(),
        m.cfg.max_file_cnt == 0,
        h > 0,
    ensures
        ({
            let top = m.walk.pending.last();
            let m2 = m.fed(fs(top.path));
            &&& m2.life == m.life
            &&& m2.cfg == m.cfg
            &&& results_yield(m2).plus(stack_yield(fs, m.cfg, m2.walk.pending, (h - 1) as nat)).same(
                results_yield(m).plus(
                    stack_yield(fs, m.cfg, m.walk.pending.drop_last(), (h - 1) as nat),
                ).plus(dir_yield(fs, m.cfg, top, h)),
            )
        }),
{
    broadcast use vstd::seq_lib::group_to_multiset_ensures;

    let cfg = m.cfg;
    let rt = cfg.return_type;
    let top = m.walk.pending.last();
    let rest = m.walk.pending.drop_last();
    let listing = fs(top.path);
    let st = m.walk.fed(cfg, listing);
    let m2 = m.fed(listing);
    assert(m2 == m.absorbed(st));
    vstd::seq_lib::lemma_multiset_commutative(m.entries.items, entries_of(st.visits, rt));
    vstd::seq_lib::lemma_multiset_commutative(
        m.errors.items,
        failure_seq(st.failure) + errors_of(st.visits, rt),
    );
    vstd::seq_lib::lemma_multiset_commutative(failure_seq(st.failure), errors_of(st.visits, rt));
    match listing {
        Err(msg) => {
            assert(entries_of(st.visits, rt) =~= Seq::<ResultModel>::empty());
            assert(errors_of(st.visits, rt) =~= Seq::<(Seq<char>, Seq<char>)>::empty());
            let f = failure_seq(st.failure);
            assert(f =~= Seq::<(Seq<char>, Seq<char>)>::empty().push((top.path, msg)));
            assert(f.to_multiset() =~= Multiset::singleton((top.path, msg)));
        },
        Ok(cs) => {
            let a = arranged(cfg, cs);
            let sc = scan(cfg, top, a, a.len(), m.walk.file_cnt);
            lemma_scan_yield(fs, cfg, top, a, h, a.len(), m.walk.file_cnt);
            if cfg.sorted {
                lemma_sorted_is_permutation(cs, cs.len());
                assert(cs.take(cs.len() as int) =~= cs);
            }
            lemma_children_yield_perm(fs, cfg, top, a, cs, h);
            lemma_stack_concat(fs, cfg, rest, reversed(sc.subdirs), (h - 1) as nat);
            assert(failure_seq(st.failure) =~= Seq::<(Seq<char>, Seq<char>)>::empty());
        },
    }
}

/// A scan that has come to its end holds what it held before and what the
/// trees below the directories that waited yield; and those trees were seen
/// to their ends.
proof fn lemma_run_yield(
    m: ScandirModel,
    fs: spec_fn(Seq<char>) -> Result<Seq<ProbeModel>, Seq<char>>,
    fuel: nat,
)
    requires
        m.life.busy(),
        m.cfg.max_file_cnt == 0,
        tree_run(m, fs, fuel).walk.done(),
    ensures
        stack_yield(fs, m.cfg, m.walk.pending, fuel).closed,
        results_yield(tree_run(m, fs, fuel)).same(
            results_yield(m).plus(stack_yield(fs, m.cfg, m.walk.pending, fuel)),
        ),
    decreases fuel,
{
    if m.walk.done() {
        assert(m.walk.pending =~= Seq::<PendingModel>::empty());
    } else {
        let top = m.walk.pending.last();
        let rest = m.walk.pending.drop_last();
        let m2 = m.fed(fs(top.path));
        lemma_step_yield(m, fs, fuel);
        lemma_run_yield(m2, fs, (fuel - 1) as nat);
        let below = stack_yield(fs, m.cfg, rest, (fuel - 1) as nat);
        assert(below.closed);
        lemma_stack_stable(fs, m.cfg, rest, (fuel - 1) as nat, fuel);
    }
}

/// The scan of a tree on the caller's own thread: after `fuel` listings
/// handed to `collect`, or when the scan is complete.
pub open spec fn tree_collect(
    c: ScandirModel,
    fs: spec_fn(Seq<char>) -> Result<Seq<ProbeModel>, Seq<char>>,
    fuel: nat,
    now: u64,
) -> ScandirModel
    decreases fuel,
{
    if fuel == 0 || c.walk.done() || !c.life.busy() {
        c
    } else {
        tree_collect(
            c.collected(Some(fs(c.walk.pending.last().path)), now),
            fs,
            (fuel - 1) as nat,
            now,
        )
    }
}

/// Whether two controllers stand at the same point of the same scan,
/// whatever their lives.
pub open spec fn same_scan(c: ScandirModel, w: ScandirModel) -> bool {
    c.cfg == w.cfg && c.walk == w.walk && c.entries == w.entries && c.errors == w.errors
}

proof fn lemma_collect_follows_run(
    c: ScandirModel,
    w: ScandirModel,
    fs: spec_fn(Seq<char>) -> Result<Seq<ProbeModel>, Seq<char>>,
    fuel: nat,
    now: u64,
)
    requires
        same_scan(c, w),
        w.life.busy(),
        c.life.busy() || c.walk.done(),
    ensures
        same_scan(tree_collect(c, fs, fuel, now), tree_run(w, fs, fuel)),
    decreases fuel,
{
    if fuel > 0 && !w.walk.done() {
        let l = fs(w.walk.pending.last().path);
        lemma_collect_follows_run(c.collected(Some(l), now), w.fed(l), fs, (fuel - 1) as nat, now);
    }
}

/// Two complete scans of the same tree by workers return the same entries
/// and the same errors, whatever the order in which the directories list
/// their children, and whatever the order in which the scans therefore
/// visit them.
pub proof fn lemma_complete_runs_agree(
    m: ScandirModel,
    fa: spec_fn(Seq<char>) -> Result<Seq<ProbeModel>, Seq<char>>,
    fb: spec_fn(Seq<char>) -> Result<Seq<ProbeModel>, Seq<char>>,
    ka: nat,
    kb: nat,
    now: u64,
)
    requires
        !m.life.attached,
        m.cfg.max_file_cnt == 0,
        same_tree(fa, fb),
        tree_run(m.started(now), fa, ka).walk.done(),
        tree_run(m.started(now), fb, kb).walk.done(),
    ensures
        tree_run(m.started(now), fa, ka).entries.items.to_multiset() == tree_run(
            m.started(now),
            fb,
            kb,
        ).entries.items.to_multiset(),
        tree_run(m.started(now), fa, ka).errors.items.to_multiset() == tree_run(
            m.started(now),
            fb,
            kb,
        ).errors.items.to_multiset(),
{
    broadcast use vstd::seq_lib::group_to_multiset_ensures;

    let start = m.started(now);
    let cfg = m.cfg;
    let root = PendingModel { path: Seq::empty(), depth: 0 };
    let stack = start.walk.pending;
    assert(stack =~= seq![root]);
    assert(stack.drop_last() =~= Seq::<PendingModel>::empty());
    assert(stack.last() == root);
    lemma_run_yield(start, fa, ka);
    lemma_run_yield(start, fb, kb);
    assert(stack_yield(fa, cfg, Seq::<PendingModel>::empty(), ka) == Yield::nothing());
    assert(stack_yield(fb, cfg, Seq::<PendingModel>::empty(), kb) == Yield::nothing());
    assert(stack_yield(fa, cfg, stack, ka) == stack_yield(fa, cfg, stack.drop_last(), ka).plus(
        dir_yield(fa, cfg, root, ka),
    ));
    assert(stack_yield(fb, cfg, stack, kb) == stack_yield(fb, cfg, stack.drop_last(), kb).plus(
        dir_yield(fb, cfg, root, kb),
    ));
    let h = ka + kb;
    lemma_dir_yield_stable(fa, cfg, root, ka, h);
    lemma_dir_yield_stable(fb, cfg, root, kb, h);
    lemma_dir_yield_order_independent(fa, fb, cfg, root, h);
    assert(start.entries.items =~= Seq::<ResultModel>::empty());
    assert(start.errors.items =~= Seq::<(Seq<char>, Seq<char>)>::empty());
    assert(start.entries.items.to_multiset() =~= Multiset::<ResultModel>::empty());
    assert(start.errors.items.to_multiset() =~= Multiset::<(Seq<char>, Seq<char>)>::empty());
    let ra = tree_run(start, fa, ka);
    let rb = tree_run(start, fb, kb);
    assert(ra.entries.items.to_multiset() =~= rb.entries.items.to_multiset());
    assert(ra.errors.items.to_multiset() =~= rb.errors.items.to_multiset());
}

/// A complete scan on the caller's own thread and a complete scan by a
/// worker, of the same tree and from the same configuration, return the same
/// entries and the same errors, each as often as the other, even where the
/// directories list their children in another order for the one than for
/// the other.
pub proof fn lemma_complete_scans_of_same_tree_agree(
    m: ScandirModel,
    fa: spec_fn(Seq<char>) -> Result<Seq<ProbeModel>, Seq<char>>,
    fb: spec_fn(Seq<char>) -> Result<Seq<ProbeModel>, Seq<char>>,
    ka: nat,
    kb: nat,
    now: u64,
    end: u64,
)
    requires
        !m.life.attached,
        m.cfg.max_file_cnt == 0,
        same_tree(fa, fb),
        tree_collect(m.collected(None, now), fa, ka, now).walk.done(),
        tree_run(m.started(now), fb, kb).walk.done(),
    ensures
        ({
            let c = tree_collect(m.collected(None, now), fa, ka, now);
            let w = tree_run(m.started(now), fb, kb).exited(end).joined();
            &&& c.entries.taken(true).to_multiset() == w.entries.taken(true).to_multiset()
            &&& c.errors.taken(true).to_multiset() == w.errors.taken(true).to_multiset()
        }),
{
    let start = m.started(now);
    assert(m.collected(None, now) == start);
    lemma_collect_follows_run(start, start, fa, ka, now);
    lemma_complete_runs_agree(m, fa, fb, ka, kb, now);
}

} // verus!
