//! The search-path store: an ordered list of host directories, probed in
//! order; the first that holds the path wins.
//!
//! Probing the host is the caller's work: the store names the candidate in
//! each root, and picks the winner from what the probes found.

use vstd::prelude::*;

use crate::memory::FsError;
use crate::path::{absolutize_relative_to, resolve, views, PathStyle};
use crate::registry::FeatureRegistry;

verus! {

/// An ordered list of root directories.
pub struct SearchPath {
    style: PathStyle,
    roots: Vec<Vec<u8>>,
    loaded: FeatureRegistry,
}

/// The search-path store as a value: its convention, its roots in order, and
/// the resolved host paths already required.
pub struct SearchPathView {
    pub style: PathStyle,
    pub roots: Seq<Seq<u8>>,
    pub loaded: Set<Seq<u8>>,
}

/// What the search-path store decided.
pub enum SearchRequire {
    /// The winning file was required before; nothing is to run.
    AlreadyLoaded,
    /// The host file at this resolved path is to be read and run.
    ReadHost(Vec<u8>),
}

/// What the search-path store decides, as a value.
pub enum SearchOutcome {
    AlreadyLoaded,
    ReadHost(Seq<u8>),
    NotFound,
}

pub open spec fn search_outcome_of(r: Result<SearchRequire, FsError>) -> SearchOutcome {
    match r {
        Ok(SearchRequire::AlreadyLoaded) => SearchOutcome::AlreadyLoaded,
        Ok(SearchRequire::ReadHost(k)) => SearchOutcome::ReadHost(k@),
        Err(_) => SearchOutcome::NotFound,
    }
}

impl SearchPathView {
    /// The path that `path` names under the root at `i`.
    pub open spec fn candidate(self, path: Seq<u8>, i: int) -> Seq<u8> {
        resolve(self.style, path, self.roots[i])
    }

    /// `found[i]` tells whether the candidate under root `i` exists: the
    /// first that does wins.
    pub open spec fn load_outcome(self, path: Seq<u8>, found: Seq<bool>) -> SearchOutcome {
        if exists|i: int| first_true(found, i) {
            SearchOutcome::ReadHost(self.candidate(path, choose|i: int| first_true(found, i)))
        } else {
            SearchOutcome::NotFound
        }
    }

    pub open spec fn require_outcome(self, path: Seq<u8>, found: Seq<bool>) -> SearchOutcome {
        match self.load_outcome(path, found) {
            SearchOutcome::ReadHost(k) => if self.loaded.contains(k) {
                SearchOutcome::AlreadyLoaded
            } else {
                SearchOutcome::ReadHost(k)
            },
            o => o,
        }
    }
}

impl View for SearchPath {
    type V = SearchPathView;

    closed spec fn view(&self) -> SearchPathView {
        SearchPathView { style: self.style, roots: views(self.roots@), loaded: self.loaded@ }
    }
}

/// The first index at which `found` holds, if any.
pub open spec fn first_true(found: Seq<bool>, i: int) -> bool {
    0 <= i < found.len() && found[i] && forall|j: int| 0 <= j < i ==> !found[j]
}

impl SearchPath {
    /// A store that searches `roots` in the order given.
    pub fn new(roots: Vec<Vec<u8>>, style: PathStyle) -> (r: SearchPath)
        ensures
            r@.style == style,
            r@.roots == views(roots@),
            r@.loaded == Set::<Seq<u8>>::empty(),
    {
        SearchPath { style, roots, loaded: FeatureRegistry::new() }
    }

    /// The path that `path` names under each root, in the order of the roots.
    pub fn candidates(&self, path: &[u8]) -> (r: Vec<Vec<u8>>)
        ensures
            r@.len() == self@.roots.len(),
            forall|i: int|
                0 <= i < r@.len() ==> (#[trigger] r@[i])@ == resolve(
                    self@.style,
                    path@,
                    self@.roots[i],
                ),
    {
        let mut r: Vec<Vec<u8>> = Vec::new();
        let mut i: usize = 0;
        while i < self.roots.len()
            invariant
                i <= self.roots@.len(),
                r@.len() == i,
                forall|j: int|
                    0 <= j < i ==> (#[trigger] r@[j])@ == resolve(
                        self.style,
                        path@,
                        self.roots@[j]@,
                    ),
            decreases self.roots@.len() - i,
        {
            r.push(absolutize_relative_to(path, self.roots[i].as_slice(), self.style));
            i += 1;
        }
        r
    }

    /// Decides what loading `path` reads, given whether each candidate
    /// exists, in the order of `candidates`.
    pub fn load(&self, path: &[u8], found: &[bool]) -> (r: Result<SearchRequire, FsError>)
        requires
            found@.len() == self@.roots.len(),
        ensures
            search_outcome_of(r) == self@.load_outcome(path@, found@),
            r matches Err(e) ==> e == FsError::NotFound,
            !(r matches Ok(SearchRequire::AlreadyLoaded)),
    {
        match Self::first_found(found) {
            Some(i) => {
                proof {
                    let c = choose|c: int| first_true(found@, c);
                    lemma_earlier_root_wins(found@, c, i as int);
                    lemma_earlier_root_wins(found@, i as int, c);
                }
                Ok(SearchRequire::ReadHost(
                    absolutize_relative_to(path, self.roots[i].as_slice(), self.style),
                ))
            },
            None => Err(FsError::NotFound),
        }
    }

    /// Decides what requiring `path` reads: nothing where the winning file
    /// was required before.
    pub fn require(&self, path: &[u8], found: &[bool]) -> (r: Result<SearchRequire, FsError>)
        requires
            found@.len() == self@.roots.len(),
        ensures
            search_outcome_of(r) == self@.require_outcome(path@, found@),
            r matches Err(e) ==> e == FsError::NotFound,
    {
        match self.load(path, found) {
            Ok(SearchRequire::ReadHost(k)) => if self.loaded.contains(k.as_slice()) {
                Ok(SearchRequire::AlreadyLoaded)
            } else {
                Ok(SearchRequire::ReadHost(k))
            },
            other => other,
        }
    }

    /// Whether the host file at `key` was recorded as required.
    pub fn is_loaded(&self, key: &[u8]) -> (r: bool)
        ensures
            r == self@.loaded.contains(key@),
    {
        self.loaded.contains(key)
    }

    /// Records that the host file at `key`, handed out by `require`, ran
    /// without error.
    pub fn mark_loaded(&mut self, key: Vec<u8>)
        ensures
            final(self)@ == (SearchPathView { loaded: old(self)@.loaded.insert(key@), ..old(self)@ }),
    {
        self.loaded.insert(key);
    }

    /// The root that wins, given whether each candidate exists: the first.
    pub fn first_found(found: &[bool]) -> (r: Option<usize>)
        ensures
            match r {
                Some(i) => first_true(found@, i as int),
                None => forall|j: int| 0 <= j < found@.len() ==> !found@[j],
            },
    {
        let mut i: usize = 0;
        while i < found.len()
            invariant
                i <= found@.len(),
                forall|j: int| 0 <= j < i ==> !found@[j],
            decreases found@.len() - i,
        {
            if found[i] {
                return Some(i);
            }
            i += 1;
        }
        None
    }
}

/// Search order is kept: where an earlier root holds the path, no later root
/// wins.
pub proof fn lemma_earlier_root_wins(found: Seq<bool>, winner: int, earlier: int)
    requires
        first_true(found, winner),
        0 <= earlier < found.len(),
        found[earlier],
    ensures
        winner <= earlier,
{
}

/// The search order decides: where the root at `i` is the first that holds the
/// path, what `require` reads is the path under that root.
pub proof fn lemma_search_order(v: SearchPathView, path: Seq<u8>, found: Seq<bool>, i: int)
    requires
        first_true(found, i),
    ensures
        v.require_outcome(path, found) == if v.loaded.contains(v.candidate(path, i)) {
            SearchOutcome::AlreadyLoaded
        } else {
            SearchOutcome::ReadHost(v.candidate(path, i))
        },
{
    let c = choose|c: int| first_true(found, c);
    lemma_earlier_root_wins(found, c, i);
    lemma_earlier_root_wins(found, i, c);
}

} // verus!
