//! Include and exclude rules on the names of directories and files.
//!
//! A name passes a pair of lists when it matches some includes pattern (or
//! there is none) and no exclude pattern. Directories and files each have
//! their own pair.

use crate::pattern::{compile, glob_matches, Pattern, TokenModel};
use crate::text::chars_of;
use vstd::prelude::*;

verus! {

/// A pattern of a filter could not be compiled.
#[derive(Clone, Copy, Debug, PartialEq, Eq, Structural)]
pub enum FilterError {
    InvalidPattern,
}

/// The compiled rules.
#[derive(Debug)]
pub struct FilterSet {
    dir_include: Vec<Pattern>,
    dir_exclude: Vec<Pattern>,
    file_include: Vec<Pattern>,
    file_exclude: Vec<Pattern>,
    case_sensitive: bool,
}

/// The mathematical value of a [`FilterSet`]: each list as the token
/// sequences of its patterns.
pub struct FilterModel {
    pub dir_include: Seq<Seq<TokenModel>>,
    pub dir_exclude: Seq<Seq<TokenModel>>,
    pub file_include: Seq<Seq<TokenModel>>,
    pub file_exclude: Seq<Seq<TokenModel>>,
    pub case_sensitive: bool,
}

/// The token sequences of a list of compiled patterns.
pub open spec fn models(ps: Seq<Pattern>) -> Seq<Seq<TokenModel>> {
    Seq::new(ps.len(), |i: int| ps[i]@)
}

/// The texts of an optional list of patterns; no list is the empty list.
pub open spec fn texts(list: Option<Vec<String>>) -> Seq<Seq<char>> {
    match list {
        Some(v) => Seq::new(v@.len(), |i: int| v@[i]@),
        None => Seq::empty(),
    }
}

/// Whether every text of the list compiles.
pub open spec fn all_compile(ts: Seq<Seq<char>>) -> bool {
    forall|i: int| 0 <= i < ts.len() ==> (#[trigger] compile(ts[i])) is Ok
}

/// What the texts compile to, one token sequence for each.
pub open spec fn compiled(ts: Seq<Seq<char>>) -> Seq<Seq<TokenModel>> {
    Seq::new(ts.len(), |i: int| compile(ts[i])->Ok_0)
}

/// Whether some pattern of the list matches the name.
pub open spec fn any_match(ps: Seq<Seq<TokenModel>>, name: Seq<char>, case_sensitive: bool) -> bool {
    exists|i: int| 0 <= i < ps.len() && glob_matches(#[trigger] ps[i], name, case_sensitive)
}

/// Whether a name passes an include list and an exclude list.
pub open spec fn passes(
    includes: Seq<Seq<TokenModel>>,
    excludes: Seq<Seq<TokenModel>>,
    name: Seq<char>,
    case_sensitive: bool,
) -> bool {
    (includes.len() == 0 || any_match(includes, name, case_sensitive)) && !any_match(
        excludes,
        name,
        case_sensitive,
    )
}

impl FilterModel {
    /// Whether a directory name passes.
    pub open spec fn accepts_dir(self, name: Seq<char>) -> bool {
        passes(self.dir_include, self.dir_exclude, name, self.case_sensitive)
    }

    /// Whether the name of anything else passes.
    pub open spec fn accepts_file(self, name: Seq<char>) -> bool {
        passes(self.file_include, self.file_exclude, name, self.case_sensitive)
    }

    /// Whether a name of the given kind passes.
    pub open spec fn accepts(self, name: Seq<char>, is_dir: bool) -> bool {
        if is_dir {
            self.accepts_dir(name)
        } else {
            self.accepts_file(name)
        }
    }

    /// The exclude list for the given kind.
    pub open spec fn excludes(self, is_dir: bool) -> Seq<Seq<TokenModel>> {
        if is_dir {
            self.dir_exclude
        } else {
            self.file_exclude
        }
    }

    /// The includes list for the given kind.
    pub open spec fn includes(self, is_dir: bool) -> Seq<Seq<TokenModel>> {
        if is_dir {
            self.dir_include
        } else {
            self.file_include
        }
    }
}

impl View for FilterSet {
    type V = FilterModel;

    closed spec fn view(&self) -> FilterModel {
        FilterModel {
            dir_include: models(self.dir_include@),
            dir_exclude: models(self.dir_exclude@),
            file_include: models(self.file_include@),
            file_exclude: models(self.file_exclude@),
            case_sensitive: self.case_sensitive,
        }
    }
}

/// Compiles every pattern of an optional list, in order.
fn compile_list(list: &Option<Vec<String>>) -> (r: Result<Vec<Pattern>, FilterError>)
    ensures
        r is Ok <==> all_compile(texts(*list)),
        r is Ok ==> models(r->Ok_0@) == compiled(texts(*list)),
{
    let mut out: Vec<Pattern> = Vec::new();
    match list {
        None => {
            assert(models(out@) =~= compiled(texts(*list)));
            Ok(out)
        },
        Some(v) => {
            let ghost ts = texts(*list);
            let mut i: usize = 0;
            while i < v.len()
                invariant
                    i <= v.len(),
                    ts == texts(*list),
                    *list == Some(*v),
                    out@.len() == i,
                    forall|k: int| 0 <= k < i ==> compile(ts[k]) == Ok::<Seq<TokenModel>, int>(
                        (#[trigger] out@[k])@,
                    ),
                decreases v.len() - i,
            {
                match Pattern::new(v[i].as_str()) {
                    Ok(p) => {
                        out.push(p);
                    },
                    Err(_) => {
                        assert(compile(ts[i as int]) is Err);
                        return Err(FilterError::InvalidPattern);
                    },
                }
                i += 1;
            }
            proof {
                assert forall|k: int| 0 <= k < ts.len() implies (#[trigger] compile(ts[k])) is Ok by {
                    assert(compile(ts[k]) == Ok::<Seq<TokenModel>, int>(out@[k]@));
                }
                assert(models(out@) =~= compiled(ts));
            }
            Ok(out)
        },
    }
}

/// Whether some pattern of the list matches the name.
fn matches_any(ps: &Vec<Pattern>, name: &Vec<char>, case_sensitive: bool) -> (r: bool)
    ensures
        r == any_match(models(ps@), name@, case_sensitive),
{
    let mut i: usize = 0;
    while i < ps.len()
        invariant
            i <= ps.len(),
            forall|k: int| 0 <= k < i ==> !glob_matches(#[trigger] models(ps@)[k], name@, case_sensitive),
        decreases ps.len() - i,
    {
        if ps[i].matches_chars(name, case_sensitive) {
            assert(models(ps@)[i as int] == ps@[i as int]@);
            return true;
        }
        assert(models(ps@)[i as int] == ps@[i as int]@);
        i += 1;
    }
    false
}

impl FilterSet {
    /// Compiles the four lists. Fails exactly when one of the patterns does
    /// not compile.
    pub fn new(
        dir_include: Option<Vec<String>>,
        dir_exclude: Option<Vec<String>>,
        file_include: Option<Vec<String>>,
        file_exclude: Option<Vec<String>>,
        case_sensitive: bool,
    ) -> (r: Result<FilterSet, FilterError>)
        ensures
            r is Ok <==> all_compile(texts(dir_include)) && all_compile(texts(dir_exclude))
                && all_compile(texts(file_include)) && all_compile(texts(file_exclude)),
            r is Ok ==> r->Ok_0@ == (FilterModel {
                dir_include: compiled(texts(dir_include)),
                dir_exclude: compiled(texts(dir_exclude)),
                file_include: compiled(texts(file_include)),
                file_exclude: compiled(texts(file_exclude)),
                case_sensitive,
            }),
    {
        let di = match compile_list(&dir_include) {
            Ok(v) => v,
            Err(e) => {
                return Err(e);
            },
        };
        let de = match compile_list(&dir_exclude) {
            Ok(v) => v,
            Err(e) => {
                return Err(e);
            },
        };
        let fi = match compile_list(&file_include) {
            Ok(v) => v,
            Err(e) => {
                return Err(e);
            },
        };
        let fe = match compile_list(&file_exclude) {
            Ok(v) => v,
            Err(e) => {
                return Err(e);
            },
        };
        Ok(
            FilterSet {
                dir_include: di,
                dir_exclude: de,
                file_include: fi,
                file_exclude: fe,
                case_sensitive,
            },
        )
    }

    /// Whether a name of the given kind passes the rules.
    pub fn matches(&self, name: &str, is_dir: bool) -> (r: bool)
        ensures
            r == self@.accepts(name@, is_dir),
    {
        let chars = chars_of(name);
        if is_dir {
            let included = self.dir_include.len() == 0 || matches_any(
                &self.dir_include,
                &chars,
                self.case_sensitive,
            );
            included && !matches_any(&self.dir_exclude, &chars, self.case_sensitive)
        } else {
            let included = self.file_include.len() == 0 || matches_any(
                &self.file_include,
                &chars,
                self.case_sensitive,
            );
            included && !matches_any(&self.file_exclude, &chars, self.case_sensitive)
        }
    }

    /// Whether matching tells capitals from small letters.
    pub fn case_sensitive(&self) -> (r: bool)
        ensures
            r == self@.case_sensitive,
    {
        self.case_sensitive
    }
}

/// Exclusion wins: a name that an exclude pattern of its kind matches does
/// not pass, whether or not an includes pattern matches it too.
pub proof fn lemma_exclude_takes_precedence(f: FilterModel, name: Seq<char>, is_dir: bool)
    requires
        any_match(f.excludes(is_dir), name, f.case_sensitive),
    ensures
        !f.accepts(name, is_dir),
{
}

/// With no include pattern, a name passes exactly when no exclude pattern
/// matches it.
pub proof fn lemma_no_include_passes_all(f: FilterModel, name: Seq<char>, is_dir: bool)
    requires
        f.includes(is_dir).len() == 0,
    ensures
        f.accepts(name, is_dir) == !any_match(f.excludes(is_dir), name, f.case_sensitive),
{
}

} // verus!
