//! Running statistics of a scan.
//!
//! An [`Aggregator`] keeps the totals of the entries it has seen and hands
//! them over to a shared [`Statistics`] snapshot in batches: whenever
//! [`FLUSH_EVERY`] entries have been recorded since the last hand-over, and
//! once more at the end. Totals never wrap: a counter stays at its largest
//! value, and the disk usage at the largest multiple of the platform's block
//! alignment that fits.

use crate::entry::{stat_model, DirEntryExt, ExtStat, FileKind, Stat};
use vstd::prelude::*;
use vstd::string::StringExecFns;

verus! {

/// How many recorded entries make a hand-over due.
pub const FLUSH_EVERY: u32 = 1000;

/// The bit of the file mode that marks a pipe.
pub const PIPE_BIT: u32 = 4096;

/// How a platform reports what a file takes on disk.
#[derive(Clone, Copy, Debug, PartialEq, Eq, Structural)]
pub enum Platform {
    /// Block counts in units of 512 bytes; devices and pipes are told apart.
    Unix,
    /// No block counts: the size is rounded up to clusters of 4096 bytes; no
    /// devices or pipes.
    Windows,
}

impl Platform {
    /// The block alignment: every disk usage is a multiple of it.
    pub open spec fn spec_alignment(self) -> nat {
        match self {
            Platform::Unix => 512,
            Platform::Windows => 4096,
        }
    }

    /// The largest disk usage that is kept: the largest multiple of the
    /// alignment that fits in 64 bits.
    pub open spec fn usage_cap(self) -> nat {
        match self {
            Platform::Unix => 0xffff_ffff_ffff_fe00,
            Platform::Windows => 0xffff_ffff_ffff_f000,
        }
    }

    /// The block alignment.
    pub fn alignment(self) -> (r: u64)
        ensures
            r == self.spec_alignment(),
    {
        match self {
            Platform::Unix => 512,
            Platform::Windows => 4096,
        }
    }
}

/// What an entry takes on disk: its blocks times 512 where blocks are
/// counted, else its size rounded up to a multiple of 4096.
pub open spec fn disk_usage(p: Platform, x: ExtStat) -> nat {
    match p {
        Platform::Unix => (x.blocks * 512) as nat,
        Platform::Windows => (((x.size + 4095) / 4096) * 4096) as nat,
    }
}

/// Whether the entry has more than one link.
pub open spec fn is_hardlink(x: ExtStat) -> bool {
    x.nlink > 1
}

/// Whether the entry is a device. Never on a platform without devices.
pub open spec fn is_device(p: Platform, x: ExtStat) -> bool {
    p is Unix && x.rdev > 0
}

/// Whether the entry is a pipe. Never on a platform without pipes.
pub open spec fn is_pipe(p: Platform, mode: u32) -> bool {
    p is Unix && (mode & PIPE_BIT) != 0
}

impl DirEntryExt {
    /// Whether the entry has more than one link.
    pub fn is_hardlink(&self) -> (r: bool)
        ensures
            r == is_hardlink(self.spec_ext()),
    {
        self.nlink > 1
    }

    /// Whether the entry is a device; never on a platform without devices.
    pub fn is_device(&self, p: Platform) -> (r: bool)
        ensures
            r == is_device(p, self.spec_ext()),
    {
        match p {
            Platform::Unix => self.rdev > 0,
            Platform::Windows => false,
        }
    }

    /// Whether the entry is a pipe; never on a platform without pipes.
    pub fn is_pipe(&self, p: Platform) -> (r: bool)
        ensures
            r == is_pipe(p, self.mode),
    {
        match p {
            Platform::Unix => (self.mode & PIPE_BIT) != 0,
            Platform::Windows => false,
        }
    }

    /// What the entry takes on disk, kept at the cap of the platform.
    pub fn usage(&self, p: Platform) -> (r: u64)
        ensures
            r as nat == if disk_usage(p, self.spec_ext()) <= p.usage_cap() {
                disk_usage(p, self.spec_ext())
            } else {
                p.usage_cap()
            },
            r as nat % p.spec_alignment() == 0,
    {
        let x = self.ext();
        usage_of(p, &x)
    }
}

/// The numeric totals of a scan.
#[derive(Clone, Copy, Debug, PartialEq, Eq, Structural)]
pub struct Totals {
    pub dirs: u32,
    pub files: u32,
    pub slinks: u32,
    pub hlinks: u32,
    pub devices: u32,
    pub pipes: u32,
    pub size: u64,
    pub usage: u64,
}

/// The statistics of a scan: the totals and the messages of the entries
/// that could not be read.
#[derive(Debug, PartialEq, Eq)]
pub struct Statistics {
    pub dirs: u32,
    pub files: u32,
    pub slinks: u32,
    pub hlinks: u32,
    pub devices: u32,
    pub pipes: u32,
    pub size: u64,
    pub usage: u64,
    pub errors: Vec<String>,
}

/// The mathematical value of a [`Statistics`].
pub struct StatisticsModel {
    pub totals: Totals,
    pub errors: Seq<Seq<char>>,
}

/// The texts of a list of strings.
pub open spec fn strs(v: Seq<String>) -> Seq<Seq<char>> {
    Seq::new(v.len(), |i: int| v[i]@)
}

/// No entry seen yet.
pub open spec fn zero_totals() -> Totals {
    Totals { dirs: 0, files: 0, slinks: 0, hlinks: 0, devices: 0, pipes: 0, size: 0, usage: 0 }
}

impl View for Statistics {
    type V = StatisticsModel;

    open spec fn view(&self) -> StatisticsModel {
        StatisticsModel {
            totals: Totals {
                dirs: self.dirs,
                files: self.files,
                slinks: self.slinks,
                hlinks: self.hlinks,
                devices: self.devices,
                pipes: self.pipes,
                size: self.size,
                usage: self.usage,
            },
            errors: strs(self.errors@),
        }
    }
}

/// Copies a list of strings.
pub fn clone_strings(v: &Vec<String>) -> (r: Vec<String>)
    ensures
        strs(r@) == strs(v@),
{
    let mut r: Vec<String> = Vec::new();
    let mut i: usize = 0;
    while i < v.len()
        invariant
            i <= v.len(),
            r@.len() == i,
            forall|k: int| 0 <= k < i ==> (#[trigger] r@[k])@ == v@[k]@,
        decreases v.len() - i,
    {
        r.push(v[i].clone());
        i += 1;
    }
    assert(strs(r@) =~= strs(v@));
    r
}

impl Clone for Statistics {
    fn clone(&self) -> (r: Self)
        ensures
            r@ == self@,
    {
        Statistics {
            dirs: self.dirs,
            files: self.files,
            slinks: self.slinks,
            hlinks: self.hlinks,
            devices: self.devices,
            pipes: self.pipes,
            size: self.size,
            usage: self.usage,
            errors: clone_strings(&self.errors),
        }
    }
}

/// A counter after one more entry that does (`hit`) or does not count; at
/// its largest value it stays.
pub open spec fn bump(c: u32, hit: bool) -> u32 {
    if hit && c < u32::MAX {
        (c + 1) as u32
    } else {
        c
    }
}

/// A sum after `x` more, kept at `cap` where it would pass it.
pub open spec fn add_capped(total: u64, x: nat, cap: nat) -> u64 {
    if total + x <= cap {
        (total + x) as u64
    } else if total <= cap {
        cap as u64
    } else {
        total
    }
}

/// The extended part that is counted: that of the probe, where extended
/// metadata is in use.
pub open spec fn counted_ext(s: Stat, use_ext: bool) -> Option<ExtStat> {
    if use_ext {
        s.ext
    } else {
        None
    }
}

/// The totals after one more entry.
pub open spec fn tally(t: Totals, s: Stat, use_ext: bool, p: Platform) -> Totals {
    let x = counted_ext(s, use_ext);
    Totals {
        dirs: bump(t.dirs, s.kind is Dir),
        files: bump(t.files, s.kind is File),
        slinks: bump(t.slinks, s.kind is Symlink),
        hlinks: bump(t.hlinks, x is Some && is_hardlink(x->Some_0)),
        devices: bump(t.devices, x is Some && is_device(p, x->Some_0)),
        pipes: bump(t.pipes, x is Some && is_pipe(p, s.mode)),
        size: if x is Some {
            add_capped(t.size, x->Some_0.size as nat, u64::MAX as nat)
        } else {
            t.size
        },
        usage: if x is Some {
            add_capped(t.usage, disk_usage(p, x->Some_0), p.usage_cap())
        } else {
            t.usage
        },
    }
}

/// The totals after the first `n` outcomes of a stream; a failed probe
/// leaves them as they are.
pub open spec fn tally_all(
    t: Totals,
    outcomes: Seq<Result<Stat, Seq<char>>>,
    n: nat,
    use_ext: bool,
    p: Platform,
) -> Totals
    decreases n,
{
    if n == 0 || n > outcomes.len() {
        t
    } else {
        let before = tally_all(t, outcomes, (n - 1) as nat, use_ext, p);
        match outcomes[n - 1] {
            Ok(s) => tally(before, s, use_ext, p),
            Err(_) => before,
        }
    }
}

/// The messages of the failed probes among the first `n` outcomes, in
/// order.
pub open spec fn messages(outcomes: Seq<Result<Stat, Seq<char>>>, n: nat) -> Seq<Seq<char>>
    decreases n,
{
    if n == 0 || n > outcomes.len() {
        Seq::empty()
    } else {
        let before = messages(outcomes, (n - 1) as nat);
        match outcomes[n - 1] {
            Ok(_) => before,
            Err(m) => before.push(m),
        }
    }
}

/// How many of the first `n` outcomes are successful probes.
pub open spec fn count_ok(outcomes: Seq<Result<Stat, Seq<char>>>, n: nat) -> nat
    decreases n,
{
    if n == 0 || n > outcomes.len() {
        0
    } else {
        count_ok(outcomes, (n - 1) as nat) + if outcomes[n - 1] is Ok {
            1nat
        } else {
            0nat
        }
    }
}

/// In how many of the five categories (directory, file, symlink, device,
/// pipe) an entry is counted.
pub open spec fn categories(s: Stat, use_ext: bool, p: Platform) -> nat {
    let x = counted_ext(s, use_ext);
    let a: nat = if s.kind is Dir || s.kind is File || s.kind is Symlink {
        1
    } else {
        0
    };
    let b: nat = if x is Some && is_device(p, x->Some_0) {
        1
    } else {
        0
    };
    let c: nat = if x is Some && is_pipe(p, s.mode) {
        1
    } else {
        0
    };
    a + b + c
}

/// Whether the totals are kept as the aggregator keeps them: the usage a
/// multiple of the alignment, and no more than the cap.
pub open spec fn aligned(t: Totals, p: Platform) -> bool {
    t.usage as nat % p.spec_alignment() == 0 && t.usage as nat <= p.usage_cap()
}

/// The mathematical value of an [`Aggregator`].
pub struct AggregatorModel {
    pub totals: Totals,
    /// The messages recorded since the last hand-over.
    pub pending: Seq<Seq<char>>,
    /// How many entries were recorded since the last hand-over.
    pub since_flush: u32,
    pub use_ext: bool,
    pub platform: Platform,
}

impl AggregatorModel {
    /// The value after one more outcome.
    pub open spec fn recorded(self, outcome: Result<Stat, Seq<char>>) -> AggregatorModel {
        match outcome {
            Ok(s) => AggregatorModel {
                totals: tally(self.totals, s, self.use_ext, self.platform),
                since_flush: bump(self.since_flush, true),
                ..self
            },
            Err(m) => AggregatorModel {
                pending: self.pending.push(m),
                since_flush: bump(self.since_flush, true),
                ..self
            },
        }
    }

    /// Whether a hand-over is due.
    pub open spec fn flush_due(self) -> bool {
        self.since_flush >= FLUSH_EVERY
    }

    /// The value after a hand-over.
    pub open spec fn flushed(self) -> AggregatorModel {
        AggregatorModel { pending: Seq::empty(), since_flush: 0, ..self }
    }

    /// The snapshot after a hand-over into `shared`.
    pub open spec fn handed_to(self, shared: StatisticsModel) -> StatisticsModel {
        StatisticsModel { totals: self.totals, errors: shared.errors + self.pending }
    }
}

/// Totals for one platform, with the usage kept a multiple of its block
/// alignment and within its cap.
#[derive(Clone, Copy, Debug)]
pub struct Running {
    totals: Totals,
    platform: Platform,
}

impl Running {
    #[verifier::type_invariant]
    spec fn inv(self) -> bool {
        aligned(self.totals, self.platform)
    }

    /// The totals.
    pub closed spec fn spec_totals(self) -> Totals {
        self.totals
    }

    /// The platform.
    pub closed spec fn spec_platform(self) -> Platform {
        self.platform
    }

    /// Nothing seen yet.
    pub fn new(platform: Platform) -> (r: Running)
        ensures
            r.spec_totals() == zero_totals(),
            r.spec_platform() == platform,
    {
        proof {
            assert(0nat % 512 == 0 && 0nat % 4096 == 0);
        }
        Running {
            totals: Totals {
                dirs: 0,
                files: 0,
                slinks: 0,
                hlinks: 0,
                devices: 0,
                pipes: 0,
                size: 0,
                usage: 0,
            },
            platform,
        }
    }

    /// The totals, which are aligned.
    pub fn totals(&self) -> (r: Totals)
        ensures
            r == self.spec_totals(),
            aligned(r, self.spec_platform()),
    {
        proof {
            use_type_invariant(self);
        }
        self.totals
    }

    /// The totals after one more entry.
    pub fn with(&self, s: &Stat, use_ext: bool) -> (r: Running)
        ensures
            r.spec_totals() == tally(self.spec_totals(), *s, use_ext, self.spec_platform()),
            r.spec_platform() == self.spec_platform(),
    {
        proof {
            use_type_invariant(self);
        }
        Running { totals: tallied(self.totals, s, use_ext, self.platform), platform: self.platform }
    }
}

/// Keeps the totals of a scan between hand-overs.
#[derive(Debug)]
pub struct Aggregator {
    running: Running,
    errors: Vec<String>,
    since_flush: u32,
    use_ext: bool,
}

impl View for Aggregator {
    type V = AggregatorModel;

    closed spec fn view(&self) -> AggregatorModel {
        AggregatorModel {
            totals: self.running.spec_totals(),
            pending: strs(self.errors@),
            since_flush: self.since_flush,
            use_ext: self.use_ext,
            platform: self.running.spec_platform(),
        }
    }
}

fn bumped(c: u32, hit: bool) -> (r: u32)
    ensures
        r == bump(c, hit),
{
    if hit && c < u32::MAX {
        c + 1
    } else {
        c
    }
}

/// What an entry takes on disk, kept at the cap.
pub fn usage_of(p: Platform, x: &ExtStat) -> (r: u64)
    ensures
        r as nat == if disk_usage(p, *x) <= p.usage_cap() {
            disk_usage(p, *x)
        } else {
            p.usage_cap()
        },
        r as nat % p.spec_alignment() == 0,
{
    match p {
        Platform::Unix => {
            if x.blocks <= 0x007f_ffff_ffff_ffff {
                let r = x.blocks * 512;
                assert((x.blocks * 512) % 512 == 0) by (nonlinear_arith);
                r
            } else {
                assert(x.blocks * 512 > 0xffff_ffff_ffff_fe00) by (nonlinear_arith)
                    requires
                        x.blocks > 0x007f_ffff_ffff_ffff,
                ;
                0xffff_ffff_ffff_fe00
            }
        },
        Platform::Windows => {
            if x.size <= 0xffff_ffff_ffff_f000 {
                let clusters = (x.size + 4095) / 4096;
                let r = clusters * 4096;
                assert((clusters * 4096) % 4096 == 0) by (nonlinear_arith);
                r
            } else {
                0xffff_ffff_ffff_f000
            }
        },
    }
}

fn added(total: u64, x: u64, cap: u64) -> (r: u64)
    ensures
        r == add_capped(total, x as nat, cap as nat),
{
    if total > cap {
        total
    } else if x <= cap - total {
        total + x
    } else {
        cap
    }
}

/// The totals after one more entry.
pub fn tallied(t: Totals, s: &Stat, use_ext: bool, p: Platform) -> (r: Totals)
    ensures
        r == tally(t, *s, use_ext, p),
        aligned(t, p) ==> aligned(r, p),
{
    let x: Option<ExtStat> = if use_ext {
        s.ext
    } else {
        None
    };
    let is_dir = match s.kind {
        FileKind::Dir => true,
        _ => false,
    };
    let is_file = match s.kind {
        FileKind::File => true,
        _ => false,
    };
    let is_symlink = match s.kind {
        FileKind::Symlink => true,
        _ => false,
    };
    let unix = match p {
        Platform::Unix => true,
        Platform::Windows => false,
    };
    let cap: u64 = match p {
        Platform::Unix => 0xffff_ffff_ffff_fe00,
        Platform::Windows => 0xffff_ffff_ffff_f000,
    };
    match x {
        Some(e) => {
            let u = usage_of(p, &e);
            let usage = added(t.usage, u, cap);
            proof {
                if aligned(t, p) {
                    lemma_capped_sum_aligned(t.usage, u, p);
                }
            }
            Totals {
                dirs: bumped(t.dirs, is_dir),
                files: bumped(t.files, is_file),
                slinks: bumped(t.slinks, is_symlink),
                hlinks: bumped(t.hlinks, e.nlink > 1),
                devices: bumped(t.devices, unix && e.rdev > 0),
                pipes: bumped(t.pipes, unix && (s.mode & PIPE_BIT) != 0),
                size: added(t.size, e.size, u64::MAX),
                usage,
            }
        },
        None => Totals {
            dirs: bumped(t.dirs, is_dir),
            files: bumped(t.files, is_file),
            slinks: bumped(t.slinks, is_symlink),
            hlinks: t.hlinks,
            devices: t.devices,
            pipes: t.pipes,
            size: t.size,
            usage: t.usage,
        },
    }
}

proof fn lemma_capped_sum_aligned(total: u64, u: u64, p: Platform)
    requires
        total as nat % p.spec_alignment() == 0,
        u as nat % p.spec_alignment() == 0,
        total as nat <= p.usage_cap(),
    ensures
        add_capped(total, u as nat, p.usage_cap()) as nat % p.spec_alignment() == 0,
        add_capped(total, u as nat, p.usage_cap()) as nat <= p.usage_cap(),
{
    let a = p.spec_alignment() as int;
    assert(0xffff_ffff_ffff_fe00int % 512 == 0);
    assert(0xffff_ffff_ffff_f000int % 4096 == 0);
    if total + u <= p.usage_cap() {
        match p {
            Platform::Unix => {
                assert((total + u) % 512 == 0);
            },
            Platform::Windows => {
                assert((total + u) % 4096 == 0);
            },
        }
    }
}

impl Aggregator {
    /// An aggregator that has seen nothing. Extended metadata is in use
    /// when both `metadata` and `metadata_ext` are set.
    pub fn new(metadata: bool, metadata_ext: bool, platform: Platform) -> (r: Aggregator)
        ensures
            r@ == (AggregatorModel {
                totals: zero_totals(),
                pending: Seq::empty(),
                since_flush: 0,
                use_ext: metadata && metadata_ext,
                platform,
            }),
    {
        let r = Aggregator {
            running: Running::new(platform),
            errors: Vec::new(),
            since_flush: 0,
            use_ext: metadata && metadata_ext,
        };
        assert(strs(r.errors@) =~= Seq::<Seq<char>>::empty());
        r
    }

    /// Takes one more outcome into the totals, or its message into the
    /// pending messages. Tells whether a hand-over is due.
    pub fn record(&mut self, outcome: &Result<Stat, String>) -> (due: bool)
        ensures
            final(self)@ == old(self)@.recorded(stat_model(*outcome)),
            due == final(self)@.flush_due(),
    {
        let ghost before = strs(self.errors@);
        match outcome {
            Ok(s) => {
                self.running = self.running.with(s, self.use_ext);
            },
            Err(m) => {
                self.errors.push(m.clone());
                assert(strs(self.errors@) =~= before.push(m@));
            },
        }
        self.since_flush = bumped(self.since_flush, true);
        self.since_flush >= FLUSH_EVERY
    }

    /// Hands the totals and the pending messages over to the shared
    /// snapshot: the totals replace those of the snapshot, the messages are
    /// added behind those it holds, each once.
    pub fn flush(&mut self, shared: &mut Statistics)
        ensures
            final(shared)@ == old(self)@.handed_to(old(shared)@),
            final(self)@ == old(self)@.flushed(),
            aligned(final(shared)@.totals, final(self)@.platform),
    {
        let ghost had = shared.errors@;
        let ghost new = self.errors@;
        let t = self.running.totals();
        shared.dirs = t.dirs;
        shared.files = t.files;
        shared.slinks = t.slinks;
        shared.hlinks = t.hlinks;
        shared.devices = t.devices;
        shared.pipes = t.pipes;
        shared.size = t.size;
        shared.usage = t.usage;
        shared.errors.append(&mut self.errors);
        self.since_flush = 0;
        proof {
            assert(strs(had + new) =~= strs(had) + strs(new));
            assert(strs(self.errors@) =~= Seq::<Seq<char>>::empty());
        }
    }

    /// The totals so far; the usage among them is a multiple of the
    /// platform's block alignment.
    pub fn totals(&self) -> (r: Totals)
        ensures
            r == self@.totals,
            aligned(r, self@.platform),
    {
        self.running.totals()
    }
}

impl Statistics {
    /// Statistics of nothing.
    pub fn new() -> (r: Statistics)
        ensures
            r@ == (StatisticsModel { totals: zero_totals(), errors: Seq::empty() }),
    {
        let r = Statistics {
            dirs: 0,
            files: 0,
            slinks: 0,
            hlinks: 0,
            devices: 0,
            pipes: 0,
            size: 0,
            usage: 0,
            errors: Vec::new(),
        };
        assert(strs(r.errors@) =~= Seq::<Seq<char>>::empty());
        r
    }

    /// Sets every total to zero and drops the messages.
    pub fn reset(&mut self)
        ensures
            final(self)@ == (StatisticsModel { totals: zero_totals(), errors: Seq::empty() }),
    {
        self.dirs = 0;
        self.files = 0;
        self.slinks = 0;
        self.hlinks = 0;
        self.devices = 0;
        self.pipes = 0;
        self.size = 0;
        self.usage = 0;
        self.errors.clear();
        assert(strs(self.errors@) =~= Seq::<Seq<char>>::empty());
    }
}

/// Takes a whole stream of outcomes into the shared snapshot, handing over
/// whenever that is due and once more at the end. The snapshot then holds
/// the totals of the whole stream and, behind the messages it held, those of
/// every failed probe, in order and each once: the batches leave no trace.
pub fn rs_count(
    entries: &Vec<Result<Stat, String>>,
    metadata: bool,
    metadata_ext: bool,
    platform: Platform,
    statistics: &mut Statistics,
)
    ensures
        final(statistics)@.totals == tally_all(
            zero_totals(),
            outcomes_of(entries@),
            entries@.len() as nat,
            metadata && metadata_ext,
            platform,
        ),
        final(statistics)@.errors == old(statistics)@.errors + messages(
            outcomes_of(entries@),
            entries@.len() as nat,
        ),
        aligned(final(statistics)@.totals, platform),
{
    let mut agg = Aggregator::new(metadata, metadata_ext, platform);
    let ghost os = outcomes_of(entries@);
    let ghost use_ext = metadata && metadata_ext;
    let ghost had = statistics@.errors;
    let mut i: usize = 0;
    assert(had + Seq::<Seq<char>>::empty() =~= had);
    while i < entries.len()
        invariant
            i <= entries.len(),
            os == outcomes_of(entries@),
            agg@.use_ext == use_ext,
            agg@.platform == platform,
            agg@.totals == tally_all(zero_totals(), os, i as nat, use_ext, platform),
            statistics@.errors + agg@.pending == had + messages(os, i as nat),
        decreases entries.len() - i,
    {
        let ghost shared_before = statistics@.errors;
        let ghost pending_before = agg@.pending;
        let due = agg.record(&entries[i]);
        proof {
            assert(os[i as int] == stat_model(entries@[i as int]));
            match os[i as int] {
                Ok(_) => {},
                Err(m) => {
                    assert(shared_before + pending_before.push(m) =~= (shared_before
                        + pending_before).push(m));
                    assert(had + messages(os, i as nat).push(m) =~= (had + messages(
                        os,
                        i as nat,
                    )).push(m));
                },
            }
        }
        if due {
            agg.flush(statistics);
            assert(statistics@.errors + Seq::<Seq<char>>::empty() =~= statistics@.errors);
        }
        i += 1;
    }
    agg.flush(statistics);
}

/// The outcomes of a stream of probes as mathematical values.
pub open spec fn outcomes_of(entries: Seq<Result<Stat, String>>) -> Seq<Result<Stat, Seq<char>>> {
    Seq::new(entries.len(), |i: int| stat_model(entries[i]))
}

/// The statistics of a stream of probe outcomes, as read by a walk from its
/// root on. Without `metadata` or without `metadata_ext` only the kinds are
/// counted.
pub fn count(
    entries: &Vec<Result<Stat, String>>,
    metadata: Option<bool>,
    metadata_ext: Option<bool>,
    platform: Platform,
) -> (r: Statistics)
    ensures
        r@.totals == tally_all(
            zero_totals(),
            outcomes_of(entries@),
            entries@.len() as nat,
            metadata == Some(true) && metadata_ext == Some(true),
            platform,
        ),
        r@.errors == messages(outcomes_of(entries@), entries@.len() as nat),
        aligned(r@.totals, platform),
{
    let mut statistics = Statistics::new();
    let m = match metadata {
        Some(b) => b,
        None => false,
    };
    let x = match metadata_ext {
        Some(b) => b,
        None => false,
    };
    rs_count(entries, m, x, platform, &mut statistics);
    proof {
        let ms = messages(outcomes_of(entries@), entries@.len() as nat);
        assert(Seq::<Seq<char>>::empty() + ms =~= ms);
    }
    statistics
}

/// One value of the rendering of statistics.
#[derive(Debug, PartialEq, Eq)]
pub enum StatValue {
    Count(u32),
    Bytes(u64),
    Messages(Vec<String>),
}

/// The mathematical value of a [`StatValue`].
pub enum StatValueModel {
    Count(u32),
    Bytes(u64),
    Messages(Seq<Seq<char>>),
}

impl View for StatValue {
    type V = StatValueModel;

    open spec fn view(&self) -> StatValueModel {
        match self {
            StatValue::Count(c) => StatValueModel::Count(*c),
            StatValue::Bytes(b) => StatValueModel::Bytes(*b),
            StatValue::Messages(m) => StatValueModel::Messages(strs(m@)),
        }
    }
}

/// `d` with the counter under `key` behind it, where the counter is not
/// zero.
pub open spec fn with_count(
    d: Seq<(Seq<char>, StatValueModel)>,
    key: Seq<char>,
    c: u32,
) -> Seq<(Seq<char>, StatValueModel)> {
    if c > 0 {
        d.push((key, StatValueModel::Count(c)))
    } else {
        d
    }
}

/// `d` with the sum under `key` behind it, where the sum is not zero.
pub open spec fn with_bytes(
    d: Seq<(Seq<char>, StatValueModel)>,
    key: Seq<char>,
    b: u64,
) -> Seq<(Seq<char>, StatValueModel)> {
    if b > 0 {
        d.push((key, StatValueModel::Bytes(b)))
    } else {
        d
    }
}

/// The rendering of statistics: the fields that are not zero or empty, each
/// under its name, in the order of the fields.
pub open spec fn rendering(s: StatisticsModel) -> Seq<(Seq<char>, StatValueModel)> {
    let d0 = Seq::<(Seq<char>, StatValueModel)>::empty();
    let d1 = with_count(d0, "dirs"@, s.totals.dirs);
    let d2 = with_count(d1, "files"@, s.totals.files);
    let d3 = with_count(d2, "slinks"@, s.totals.slinks);
    let d4 = with_count(d3, "hlinks"@, s.totals.hlinks);
    let d5 = with_count(d4, "devices"@, s.totals.devices);
    let d6 = with_count(d5, "pipes"@, s.totals.pipes);
    let d7 = with_bytes(d6, "size"@, s.totals.size);
    let d8 = with_bytes(d7, "usage"@, s.totals.usage);
    if s.errors.len() > 0 {
        d8.push(("errors"@, StatValueModel::Messages(s.errors)))
    } else {
        d8
    }
}

/// The keys and values of a rendering as mathematical values.
pub open spec fn dict_model(d: Seq<(String, StatValue)>) -> Seq<(Seq<char>, StatValueModel)> {
    Seq::new(d.len(), |i: int| (d[i].0@, d[i].1@))
}

fn put_count(d: &mut Vec<(String, StatValue)>, key: &str, c: u32)
    ensures
        dict_model(final(d)@) == with_count(dict_model(old(d)@), key@, c),
{
    if c > 0 {
        d.push((String::from_str(key), StatValue::Count(c)));
        assert(dict_model(d@) =~= dict_model(old(d)@).push((key@, StatValueModel::Count(c))));
    }
}

fn put_bytes(d: &mut Vec<(String, StatValue)>, key: &str, b: u64)
    ensures
        dict_model(final(d)@) == with_bytes(dict_model(old(d)@), key@, b),
{
    if b > 0 {
        d.push((String::from_str(key), StatValue::Bytes(b)));
        assert(dict_model(d@) =~= dict_model(old(d)@).push((key@, StatValueModel::Bytes(b))));
    }
}

impl Statistics {
    /// The rendering of the statistics as keys and values: only the fields
    /// that are not zero or empty.
    pub fn as_dict(&self) -> (d: Vec<(String, StatValue)>)
        ensures
            dict_model(d@) == rendering(self@),
    {
        let mut d: Vec<(String, StatValue)> = Vec::new();
        assert(dict_model(d@) =~= Seq::<(Seq<char>, StatValueModel)>::empty());
        put_count(&mut d, "dirs", self.dirs);
        put_count(&mut d, "files", self.files);
        put_count(&mut d, "slinks", self.slinks);
        put_count(&mut d, "hlinks", self.hlinks);
        put_count(&mut d, "devices", self.devices);
        put_count(&mut d, "pipes", self.pipes);
        put_bytes(&mut d, "size", self.size);
        put_bytes(&mut d, "usage", self.usage);
        if self.errors.len() > 0 {
            let ghost before = dict_model(d@);
            let ms = clone_strings(&self.errors);
            d.push((String::from_str("errors"), StatValue::Messages(ms)));
            assert(dict_model(d@) =~= before.push(
                ("errors"@, StatValueModel::Messages(strs(self.errors@))),
            ));
        }
        d
    }
}

/// Totals never decrease: after one more entry no total is smaller than
/// before.
pub proof fn lemma_tally_monotone(t: Totals, s: Stat, use_ext: bool, p: Platform)
    ensures
        ({
            let r = tally(t, s, use_ext, p);
            &&& t.dirs <= r.dirs
            &&& t.files <= r.files
            &&& t.slinks <= r.slinks
            &&& t.hlinks <= r.hlinks
            &&& t.devices <= r.devices
            &&& t.pipes <= r.pipes
            &&& t.size <= r.size
            &&& t.usage <= r.usage
        }),
{
}

/// The disk usage stays a multiple of the platform's block alignment, and
/// within the cap, whatever entry is added.
pub proof fn lemma_tally_keeps_alignment(t: Totals, s: Stat, use_ext: bool, p: Platform)
    requires
        aligned(t, p),
    ensures
        aligned(tally(t, s, use_ext, p), p),
{
    let x = counted_ext(s, use_ext);
    if x is Some {
        let e = x->Some_0;
        let du = disk_usage(p, e);
        let a = p.spec_alignment() as int;
        assert(du as int % a == 0) by {
            match p {
                Platform::Unix => {
                    assert((e.blocks * 512) % 512 == 0) by (nonlinear_arith);
                },
                Platform::Windows => {
                    let c = (e.size + 4095) / 4096;
                    assert((c * 4096) % 4096 == 0) by (nonlinear_arith);
                },
            }
        }
        assert(0xffff_ffff_ffff_fe00int % 512 == 0);
        assert(0xffff_ffff_ffff_f000int % 4096 == 0);
        if t.usage + du <= p.usage_cap() {
            match p {
                Platform::Unix => {
                    assert((t.usage + du) % 512 == 0);
                },
                Platform::Windows => {
                    assert((t.usage + du) % 4096 == 0);
                },
            }
        }
    }
}

/// The totals of a whole stream have the usage a multiple of the
/// platform's block alignment.
pub proof fn lemma_tally_all_aligned(
    outcomes: Seq<Result<Stat, Seq<char>>>,
    n: nat,
    use_ext: bool,
    p: Platform,
)
    ensures
        aligned(tally_all(zero_totals(), outcomes, n, use_ext, p), p),
    decreases n,
{
    if n == 0 || n > outcomes.len() {
    } else {
        lemma_tally_all_aligned(outcomes, (n - 1) as nat, use_ext, p);
        match outcomes[n - 1] {
            Ok(s) => {
                lemma_tally_keeps_alignment(
                    tally_all(zero_totals(), outcomes, (n - 1) as nat, use_ext, p),
                    s,
                    use_ext,
                    p,
                );
            },
            Err(_) => {},
        }
    }
}

/// Where every entry that was read falls in exactly one of the categories
/// directory, file, symlink, device and pipe, and the entries are no more
/// than a counter holds, the five counters add up to the number of entries
/// that were read; the failed probes are not among them.
pub proof fn lemma_categories_add_up(
    outcomes: Seq<Result<Stat, Seq<char>>>,
    n: nat,
    use_ext: bool,
    p: Platform,
)
    requires
        n <= outcomes.len(),
        n <= u32::MAX,
        forall|i: int|
            0 <= i < n && (#[trigger] outcomes[i]) is Ok ==> categories(
                outcomes[i]->Ok_0,
                use_ext,
                p,
            ) == 1,
    ensures
        ({
            let t = tally_all(zero_totals(), outcomes, n, use_ext, p);
            t.dirs + t.files + t.slinks + t.devices + t.pipes == count_ok(outcomes, n)
        }),
        count_ok(outcomes, n) <= n,
    decreases n,
{
    if n > 0 {
        lemma_categories_add_up(outcomes, (n - 1) as nat, use_ext, p);
        let o = outcomes[n - 1];
        if o is Ok {
            assert(categories(o->Ok_0, use_ext, p) == 1);
        }
    }
}

} // verus!
