//! What a scan is asked to do: the root, the limits, the filters and the
//! shape of the results. A configuration is made once and never changed.

use crate::entry::ReturnType;
use crate::filter::{all_compile, compiled, texts, FilterModel, FilterSet};
use vstd::prelude::*;
use vstd::string::StringExecFns;

verus! {

/// What was found at the root path when the caller looked for it.
#[derive(Clone, Copy, Debug, PartialEq, Eq, Structural)]
pub enum RootStatus {
    /// The root is there.
    Found,
    /// Nothing is there.
    NotFound,
    /// Whether anything is there could not be told.
    Unreadable,
}

/// Why a scan could not be set up.
#[derive(Clone, Copy, Debug, PartialEq, Eq, Structural)]
pub enum ConstructionError {
    /// The root path does not exist.
    NotFound,
    /// A pattern does not compile, or the configuration contradicts itself.
    InvalidInput,
    /// The root path could not be looked at.
    IoError,
}

/// The configuration of a traversal.
#[derive(Debug)]
pub struct TraversalConfig {
    root_path: String,
    sorted: bool,
    skip_hidden: bool,
    max_depth: usize,
    max_file_cnt: usize,
    filter: FilterSet,
    return_type: ReturnType,
}

/// The mathematical value of a [`TraversalConfig`].
pub struct ConfigModel {
    pub root_path: Seq<char>,
    /// Whether the children of each directory come in lexical order.
    pub sorted: bool,
    /// Whether names that start with a dot are left out.
    pub skip_hidden: bool,
    /// How many levels below the root are visited; 0 is no limit.
    pub max_depth: usize,
    /// How many files are returned; 0 is no limit.
    pub max_file_cnt: usize,
    pub filter: FilterModel,
    pub return_type: ReturnType,
}

impl View for TraversalConfig {
    type V = ConfigModel;

    closed spec fn view(&self) -> ConfigModel {
        ConfigModel {
            root_path: self.root_path@,
            sorted: self.sorted,
            skip_hidden: self.skip_hidden,
            max_depth: self.max_depth,
            max_file_cnt: self.max_file_cnt,
            filter: self.filter@,
            return_type: self.return_type,
        }
    }
}

/// The value of an option that may be left out.
pub open spec fn or_default<T>(o: Option<T>, d: T) -> T {
    match o {
        Some(v) => v,
        None => d,
    }
}

/// Whether the patterns of all four lists compile.
pub open spec fn patterns_compile(
    dir_include: Option<Vec<String>>,
    dir_exclude: Option<Vec<String>>,
    file_include: Option<Vec<String>>,
    file_exclude: Option<Vec<String>>,
) -> bool {
    all_compile(texts(dir_include)) && all_compile(texts(dir_exclude)) && all_compile(
        texts(file_include),
    ) && all_compile(texts(file_exclude))
}

/// What `TraversalConfig::new` answers: the first of the reasons against the
/// configuration, if there is one.
pub open spec fn construction_error(
    root: RootStatus,
    patterns_ok: bool,
) -> Option<ConstructionError> {
    match root {
        RootStatus::NotFound => Some(ConstructionError::NotFound),
        RootStatus::Unreadable => Some(ConstructionError::IoError),
        RootStatus::Found => if patterns_ok {
            None
        } else {
            Some(ConstructionError::InvalidInput)
        },
    }
}

impl TraversalConfig {
    /// Sets up a configuration. `root` tells what the caller found at
    /// `root_path`. An option that is left out is off, a limit that is left
    /// out is 0, which means none. Fails with `NotFound` where the root is
    /// missing, with `IoError` where it could not be looked at, and else
    /// with `InvalidInput` where a pattern does not compile.
    pub fn new(
        root_path: &str,
        root: RootStatus,
        sorted: Option<bool>,
        skip_hidden: Option<bool>,
        max_depth: Option<usize>,
        max_file_cnt: Option<usize>,
        dir_include: Option<Vec<String>>,
        dir_exclude: Option<Vec<String>>,
        file_include: Option<Vec<String>>,
        file_exclude: Option<Vec<String>>,
        case_sensitive: Option<bool>,
        return_type: ReturnType,
    ) -> (r: Result<TraversalConfig, ConstructionError>)
        ensures
            match construction_error(
                root,
                patterns_compile(dir_include, dir_exclude, file_include, file_exclude),
            ) {
                Some(e) => r == Err::<TraversalConfig, ConstructionError>(e),
                None => r is Ok && r->Ok_0@ == (ConfigModel {
                    root_path: root_path@,
                    sorted: or_default(sorted, false),
                    skip_hidden: or_default(skip_hidden, false),
                    max_depth: or_default(max_depth, 0),
                    max_file_cnt: or_default(max_file_cnt, 0),
                    filter: FilterModel {
                        dir_include: compiled(texts(dir_include)),
                        dir_exclude: compiled(texts(dir_exclude)),
                        file_include: compiled(texts(file_include)),
                        file_exclude: compiled(texts(file_exclude)),
                        case_sensitive: or_default(case_sensitive, false),
                    },
                    return_type,
                }),
            },
    {
        match root {
            RootStatus::NotFound => {
                return Err(ConstructionError::NotFound);
            },
            RootStatus::Unreadable => {
                return Err(ConstructionError::IoError);
            },
            RootStatus::Found => {},
        }
        let cs = match case_sensitive {
            Some(b) => b,
            None => false,
        };
        let filter = match FilterSet::new(dir_include, dir_exclude, file_include, file_exclude, cs) {
            Ok(f) => f,
            Err(_) => {
                return Err(ConstructionError::InvalidInput);
            },
        };
        Ok(
            TraversalConfig {
                root_path: String::from_str(root_path),
                sorted: match sorted {
                    Some(b) => b,
                    None => false,
                },
                skip_hidden: match skip_hidden {
                    Some(b) => b,
                    None => false,
                },
                max_depth: match max_depth {
                    Some(d) => d,
                    None => 0,
                },
                max_file_cnt: match max_file_cnt {
                    Some(n) => n,
                    None => 0,
                },
                filter,
                return_type,
            },
        )
    }

    /// The root path as it was given.
    pub fn root_path(&self) -> (r: &String)
        ensures
            r@ == self@.root_path,
    {
        &self.root_path
    }

    /// Whether the children of each directory come in lexical order.
    pub fn sorted(&self) -> (r: bool)
        ensures
            r == self@.sorted,
    {
        self.sorted
    }

    /// Whether names that start with a dot are left out.
    pub fn skip_hidden(&self) -> (r: bool)
        ensures
            r == self@.skip_hidden,
    {
        self.skip_hidden
    }

    /// How many levels below the root are visited; 0 is no limit.
    pub fn max_depth(&self) -> (r: usize)
        ensures
            r == self@.max_depth,
    {
        self.max_depth
    }

    /// How many files are returned; 0 is no limit.
    pub fn max_file_cnt(&self) -> (r: usize)
        ensures
            r == self@.max_file_cnt,
    {
        self.max_file_cnt
    }

    /// The filters.
    pub fn filter(&self) -> (r: &FilterSet)
        ensures
            r@ == self@.filter,
    {
        &self.filter
    }

    /// The shape of the results.
    pub fn return_type(&self) -> (r: ReturnType)
        ensures
            r == self@.return_type,
    {
        self.return_type
    }
}

} // verus!
