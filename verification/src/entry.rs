//! The records of a scan: what a probe of the filesystem reports, and the
//! entries that are made of it.
//!
//! Paths are relative to the root of the scan and use `/` between names.
//! Timestamps are whole seconds and nanoseconds since the epoch.

use crate::text::{char_at, chars_of, separators};
use vstd::prelude::*;
use vstd::string::StringExecFns;

verus! {

/// The kind of a filesystem object.
#[derive(Clone, Copy, Debug, PartialEq, Eq, Structural)]
pub enum FileKind {
    Dir,
    File,
    Symlink,
    Other,
}

/// How much metadata an entry carries, and the shape of what is returned.
#[derive(Clone, Copy, Debug, PartialEq, Eq, Structural)]
pub enum ReturnType {
    /// Entries with type flags, timestamps and mode; for a walk, also the
    /// symlinks, other entries and errors of each directory.
    Base,
    /// Entries with the extended metadata as well.
    Ext,
    /// For a walk: directories and files of each directory only.
    Walk,
}

/// A point in time: seconds since the epoch and nanoseconds within the
/// second.
#[derive(Clone, Copy, Debug, PartialEq, Eq, Structural)]
pub struct Timestamp {
    pub secs: i64,
    pub nanos: u32,
}

/// The extended part of a probe.
#[derive(Clone, Copy, Debug, PartialEq, Eq, Structural)]
pub struct ExtStat {
    pub ino: u64,
    pub dev: u64,
    pub nlink: u64,
    pub size: u64,
    pub blksize: u64,
    pub blocks: u64,
    pub uid: u32,
    pub gid: u32,
    pub rdev: u64,
}

/// What a successful probe of one filesystem object reports.
#[derive(Clone, Copy, Debug, PartialEq, Eq)]
pub struct Stat {
    pub kind: FileKind,
    pub ctime: Timestamp,
    pub mtime: Timestamp,
    pub atime: Timestamp,
    pub mode: u32,
    /// The extended part, where it was read.
    pub ext: Option<ExtStat>,
}

/// A name is valid when it is not empty and holds no separator.
pub open spec fn valid_name(name: Seq<char>) -> bool {
    name.len() > 0 && forall|i: int| 0 <= i < name.len() ==> name[i] != '/'
}

/// The path of `name` inside the directory `dir`; the root has the empty
/// path.
pub open spec fn join(dir: Seq<char>, name: Seq<char>) -> Seq<char> {
    if dir.len() == 0 {
        name
    } else {
        dir + seq!['/'] + name
    }
}

/// How many levels below the root a path lies: the number of separators
/// between the root and its last name.
pub open spec fn depth_of(path: Seq<char>) -> nat {
    separators(path) + 1
}

/// The probe of one child of a directory: its name, and what was read of it
/// or why nothing could be read.
#[derive(Debug)]
pub struct Probe {
    name: String,
    stat: Result<Stat, String>,
}

/// The mathematical value of a [`Probe`].
pub struct ProbeModel {
    pub name: Seq<char>,
    pub stat: Result<Stat, Seq<char>>,
}

/// The mathematical value of the outcome of a probe.
pub open spec fn stat_model(stat: Result<Stat, String>) -> Result<Stat, Seq<char>> {
    match stat {
        Ok(s) => Ok(s),
        Err(m) => Err(m@),
    }
}

impl View for Probe {
    type V = ProbeModel;

    closed spec fn view(&self) -> ProbeModel {
        ProbeModel { name: self.name@, stat: stat_model(self.stat) }
    }
}

/// Copies the outcome of a probe.
pub fn clone_stat(stat: &Result<Stat, String>) -> (r: Result<Stat, String>)
    ensures
        stat_model(r) == stat_model(*stat),
{
    match stat {
        Ok(s) => Ok(*s),
        Err(m) => Err(m.clone()),
    }
}

/// Whether the name is valid.
pub fn check_name(name: &str) -> (r: bool)
    ensures
        r == valid_name(name@),
{
    let cs = chars_of(name);
    if cs.len() == 0 {
        return false;
    }
    let mut i: usize = 0;
    while i < cs.len()
        invariant
            i <= cs.len(),
            cs@ == name@,
            forall|k: int| 0 <= k < i ==> cs@[k] != '/',
        decreases cs.len() - i,
    {
        if char_at(&cs, i) == '/' {
            return false;
        }
        i += 1;
    }
    true
}

impl Probe {
    #[verifier::type_invariant]
    spec fn inv(self) -> bool {
        valid_name(self.name@)
    }

    /// A probe under the given name; `None` exactly when the name is not
    /// valid.
    pub fn new(name: String, stat: Result<Stat, String>) -> (r: Option<Probe>)
        ensures
            r is Some <==> valid_name(name@),
            r is Some ==> r->Some_0@ == (ProbeModel { name: name@, stat: stat_model(stat) }),
    {
        if check_name(name.as_str()) {
            Some(Probe { name, stat })
        } else {
            None
        }
    }

    /// The name, which is valid.
    pub fn name(&self) -> (r: &String)
        ensures
            r@ == self@.name,
            valid_name(r@),
    {
        proof {
            use_type_invariant(self);
        }
        &self.name
    }

    /// What was read, or why nothing could be.
    pub fn stat(&self) -> (r: &Result<Stat, String>)
        ensures
            stat_model(*r) == self@.stat,
    {
        &self.stat
    }
}

impl Clone for Probe {
    fn clone(&self) -> (r: Self)
        ensures
            r@ == self@,
    {
        proof {
            use_type_invariant(self);
        }
        Probe { name: self.name.clone(), stat: clone_stat(&self.stat) }
    }
}

/// The path of `name` inside the directory `dir`.
pub fn join_path(dir: &str, name: &str) -> (r: String)
    ensures
        r@ == join(dir@, name@),
{
    if dir.is_empty() {
        String::from_str(name)
    } else {
        let mut r = String::from_str(dir);
        r.append("/");
        r.append(name);
        proof {
            reveal_strlit("/");
            assert("/"@ =~= seq!['/']);
        }
        r
    }
}

/// An entry with the basic metadata.
#[derive(Debug, PartialEq, Eq)]
pub struct DirEntry {
    pub path: String,
    pub is_symlink: bool,
    pub is_dir: bool,
    pub is_file: bool,
    pub ctime: Timestamp,
    pub mtime: Timestamp,
    pub atime: Timestamp,
    pub mode: u32,
}

/// The mathematical value of a [`DirEntry`].
pub struct DirEntryModel {
    pub path: Seq<char>,
    pub is_symlink: bool,
    pub is_dir: bool,
    pub is_file: bool,
    pub ctime: Timestamp,
    pub mtime: Timestamp,
    pub atime: Timestamp,
    pub mode: u32,
}

impl View for DirEntry {
    type V = DirEntryModel;

    open spec fn view(&self) -> DirEntryModel {
        DirEntryModel {
            path: self.path@,
            is_symlink: self.is_symlink,
            is_dir: self.is_dir,
            is_file: self.is_file,
            ctime: self.ctime,
            mtime: self.mtime,
            atime: self.atime,
            mode: self.mode,
        }
    }
}

impl Clone for DirEntry {
    fn clone(&self) -> (r: Self)
        ensures
            r@ == self@,
    {
        DirEntry {
            path: self.path.clone(),
            is_symlink: self.is_symlink,
            is_dir: self.is_dir,
            is_file: self.is_file,
            ctime: self.ctime,
            mtime: self.mtime,
            atime: self.atime,
            mode: self.mode,
        }
    }
}

/// An entry with the basic and the extended metadata.
#[derive(Debug, PartialEq, Eq)]
pub struct DirEntryExt {
    pub path: String,
    pub is_symlink: bool,
    pub is_dir: bool,
    pub is_file: bool,
    pub ctime: Timestamp,
    pub mtime: Timestamp,
    pub atime: Timestamp,
    pub mode: u32,
    pub ino: u64,
    pub dev: u64,
    pub nlink: u64,
    pub size: u64,
    pub blksize: u64,
    pub blocks: u64,
    pub uid: u32,
    pub gid: u32,
    pub rdev: u64,
}

/// The mathematical value of a [`DirEntryExt`].
pub struct DirEntryExtModel {
    pub basic: DirEntryModel,
    pub ext: ExtStat,
}

impl DirEntryExt {
    /// The extended part of the entry.
    pub open spec fn spec_ext(&self) -> ExtStat {
        ExtStat {
            ino: self.ino,
            dev: self.dev,
            nlink: self.nlink,
            size: self.size,
            blksize: self.blksize,
            blocks: self.blocks,
            uid: self.uid,
            gid: self.gid,
            rdev: self.rdev,
        }
    }

    /// The extended part of the entry.
    #[verifier::when_used_as_spec(spec_ext)]
    pub fn ext(&self) -> (r: ExtStat)
        ensures
            r == self.spec_ext(),
    {
        ExtStat {
            ino: self.ino,
            dev: self.dev,
            nlink: self.nlink,
            size: self.size,
            blksize: self.blksize,
            blocks: self.blocks,
            uid: self.uid,
            gid: self.gid,
            rdev: self.rdev,
        }
    }
}

impl View for DirEntryExt {
    type V = DirEntryExtModel;

    open spec fn view(&self) -> DirEntryExtModel {
        DirEntryExtModel {
            basic: DirEntryModel {
                path: self.path@,
                is_symlink: self.is_symlink,
                is_dir: self.is_dir,
                is_file: self.is_file,
                ctime: self.ctime,
                mtime: self.mtime,
                atime: self.atime,
                mode: self.mode,
            },
            ext: self.spec_ext(),
        }
    }
}

impl Clone for DirEntryExt {
    fn clone(&self) -> (r: Self)
        ensures
            r@ == self@,
    {
        DirEntryExt {
            path: self.path.clone(),
            is_symlink: self.is_symlink,
            is_dir: self.is_dir,
            is_file: self.is_file,
            ctime: self.ctime,
            mtime: self.mtime,
            atime: self.atime,
            mode: self.mode,
            ino: self.ino,
            dev: self.dev,
            nlink: self.nlink,
            size: self.size,
            blksize: self.blksize,
            blocks: self.blocks,
            uid: self.uid,
            gid: self.gid,
            rdev: self.rdev,
        }
    }
}

/// One result of a flat scan.
#[derive(Debug, PartialEq, Eq)]
pub enum ScandirResult {
    DirEntry(DirEntry),
    DirEntryExt(DirEntryExt),
    /// The path of an entry that could not be read, and why.
    Error((String, String)),
}

/// The mathematical value of a [`ScandirResult`].
pub enum ResultModel {
    DirEntry(DirEntryModel),
    DirEntryExt(DirEntryExtModel),
    Error(Seq<char>, Seq<char>),
}

impl View for ScandirResult {
    type V = ResultModel;

    open spec fn view(&self) -> ResultModel {
        match self {
            ScandirResult::DirEntry(e) => ResultModel::DirEntry(e@),
            ScandirResult::DirEntryExt(e) => ResultModel::DirEntryExt(e@),
            ScandirResult::Error(e) => ResultModel::Error(e.0@, e.1@),
        }
    }
}

impl Clone for ScandirResult {
    fn clone(&self) -> (r: Self)
        ensures
            r@ == self@,
    {
        match self {
            ScandirResult::DirEntry(e) => ScandirResult::DirEntry(e.clone()),
            ScandirResult::DirEntryExt(e) => ScandirResult::DirEntryExt(e.clone()),
            ScandirResult::Error(e) => ScandirResult::Error((e.0.clone(), e.1.clone())),
        }
    }
}

impl ResultModel {
    /// The path of the result.
    pub open spec fn path(self) -> Seq<char> {
        match self {
            ResultModel::DirEntry(e) => e.path,
            ResultModel::DirEntryExt(e) => e.basic.path,
            ResultModel::Error(p, _) => p,
        }
    }

    /// Whether the result is the entry of a file.
    pub open spec fn is_file(self) -> bool {
        match self {
            ResultModel::DirEntry(e) => e.is_file,
            ResultModel::DirEntryExt(e) => e.basic.is_file,
            ResultModel::Error(_, _) => false,
        }
    }
}

/// What is said of an entry for which extended metadata was asked and the
/// probe holds none.
pub open spec fn missing_ext_message() -> Seq<char> {
    "extended metadata not available"@
}

/// The basic entry made of a path and a successful probe.
pub open spec fn basic_entry(path: Seq<char>, s: Stat) -> DirEntryModel {
    DirEntryModel {
        path,
        is_symlink: s.kind is Symlink,
        is_dir: s.kind is Dir,
        is_file: s.kind is File,
        ctime: s.ctime,
        mtime: s.mtime,
        atime: s.atime,
        mode: s.mode,
    }
}

/// The result made of a path and the outcome of a probe, at the metadata
/// level asked for: an error for a failed probe, and for one without the
/// extended part where that was asked; else the entry.
pub open spec fn classified(
    path: Seq<char>,
    stat: Result<Stat, Seq<char>>,
    return_type: ReturnType,
) -> ResultModel {
    match stat {
        Err(m) => ResultModel::Error(path, m),
        Ok(s) => if return_type is Ext {
            match s.ext {
                Some(x) => ResultModel::DirEntryExt(
                    DirEntryExtModel { basic: basic_entry(path, s), ext: x },
                ),
                None => ResultModel::Error(path, missing_ext_message()),
            }
        } else {
            ResultModel::DirEntry(basic_entry(path, s))
        },
    }
}

/// Makes the result for one probed entry.
pub fn classify(path: String, stat: &Result<Stat, String>, return_type: ReturnType) -> (r:
    ScandirResult)
    ensures
        r@ == classified(path@, stat_model(*stat), return_type),
{
    match stat {
        Err(m) => ScandirResult::Error((path, m.clone())),
        Ok(s) => {
            let wants_ext = match return_type {
                ReturnType::Ext => true,
                _ => false,
            };
            let is_symlink = match s.kind {
                FileKind::Symlink => true,
                _ => false,
            };
            let is_dir = match s.kind {
                FileKind::Dir => true,
                _ => false,
            };
            let is_file = match s.kind {
                FileKind::File => true,
                _ => false,
            };
            if wants_ext {
                match s.ext {
                    Some(x) => ScandirResult::DirEntryExt(
                        DirEntryExt {
                            path,
                            is_symlink,
                            is_dir,
                            is_file,
                            ctime: s.ctime,
                            mtime: s.mtime,
                            atime: s.atime,
                            mode: s.mode,
                            ino: x.ino,
                            dev: x.dev,
                            nlink: x.nlink,
                            size: x.size,
                            blksize: x.blksize,
                            blocks: x.blocks,
                            uid: x.uid,
                            gid: x.gid,
                            rdev: x.rdev,
                        },
                    ),
                    None => ScandirResult::Error(
                        (path, String::from_str("extended metadata not available")),
                    ),
                }
            } else {
                ScandirResult::DirEntry(
                    DirEntry {
                        path,
                        is_symlink,
                        is_dir,
                        is_file,
                        ctime: s.ctime,
                        mtime: s.mtime,
                        atime: s.atime,
                        mode: s.mode,
                    },
                )
            }
        },
    }
}

/// The separators of two pieces put together are those of the pieces.
pub proof fn lemma_separators_concat(a: Seq<char>, b: Seq<char>)
    ensures
        separators(a + b) == separators(a) + separators(b),
    decreases b.len(),
{
    if b.len() == 0 {
        assert(a + b =~= a);
    } else {
        assert((a + b).drop_last() =~= a + b.drop_last());
        lemma_separators_concat(a, b.drop_last());
    }
}

/// A valid name holds no separator.
pub proof fn lemma_valid_name_no_separator(name: Seq<char>)
    requires
        forall|i: int| 0 <= i < name.len() ==> name[i] != '/',
    ensures
        separators(name) == 0,
    decreases name.len(),
{
    if name.len() > 0 {
        lemma_valid_name_no_separator(name.drop_last());
    }
}

/// A valid name joined to a directory lies one separator deeper than the
/// directory; directly under the root it has no separator.
pub proof fn lemma_join_separators(dir: Seq<char>, name: Seq<char>)
    requires
        valid_name(name),
    ensures
        join(dir, name).len() > 0,
        separators(join(dir, name)) == if dir.len() == 0 {
            0
        } else {
            separators(dir) + 1
        },
{
    lemma_valid_name_no_separator(name);
    if dir.len() > 0 {
        lemma_separators_concat(dir + seq!['/'], name);
        lemma_separators_concat(dir, seq!['/']);
        assert(seq!['/'].drop_last() =~= Seq::<char>::empty());
        assert(separators(seq!['/']) == 1) by {
            assert(separators(Seq::<char>::empty()) == 0);
        }
    }
}

} // verus!
