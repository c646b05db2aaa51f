//! The in-memory store: sources and extension hooks keyed by resolved path,
//! and the feature registry that makes `require` load a path at most once.
//!
//! Running a source or a hook is the interpreter's work. `require` and `load`
//! therefore decide what is to run and hand it back; once a required entry has
//! run without error, the caller records it with `mark_loaded`.

use vstd::prelude::*;

use crate::path::{absolutize_relative_to, append_bytes, resolve, PathStyle};
use crate::registry::FeatureRegistry;

verus! {

/// What a path of the store holds.
pub enum Entry<H> {
    /// Source text, handed to the interpreter to run.
    Source(Vec<u8>),
    /// A native callback that runs in place of source text.
    Hook(H),
}

/// The content of an entry, as a value.
pub enum Content<H> {
    Source(Seq<u8>),
    Hook(H),
}

impl<H> Entry<H> {
    pub open spec fn content(&self) -> Content<H> {
        match self {
            Entry::Source(b) => Content::Source(b@),
            Entry::Hook(h) => Content::Hook(*h),
        }
    }
}

/// A failed store operation.
#[derive(Debug, Clone, Copy, PartialEq, Eq, Structural)]
pub enum FsError {
    /// No entry at the resolved path.
    NotFound,
    /// The resolved path names a directory only.
    IsADirectory,
}

/// What `require` decided.
pub enum Require<H> {
    /// The path was required before; nothing is to run.
    AlreadyLoaded,
    /// The entry is to run; after it succeeds the path is marked loaded.
    Run(Entry<H>),
}

/// What `require` or `load` decides, as a value.
pub enum Outcome<H> {
    AlreadyLoaded,
    Run(Content<H>),
    NotFound,
}

struct Slot<H> {
    key: Vec<u8>,
    entry: Entry<H>,
}

/// The store as a value: its convention, its working directory, the content
/// at each resolved path, and the paths already required.
pub struct MemoryView<H> {
    pub style: PathStyle,
    pub cwd: Seq<u8>,
    pub files: Map<Seq<u8>, Content<H>>,
    pub loaded: Set<Seq<u8>>,
}

/// `f` lies strictly below the directory `d`.
pub open spec fn is_below(f: Seq<u8>, d: Seq<u8>) -> bool {
    f.len() > d.len() && f.subrange(0, d.len() as int) == d && (f[d.len() as int] == 0x2fu8 || (
    d.len() > 0 && d.last() == 0x2fu8))
}

impl<H> MemoryView<H> {
    /// The key under which `path` is stored: `path` resolved against the cwd.
    pub open spec fn key(self, path: Seq<u8>) -> Seq<u8> {
        resolve(self.style, path, self.cwd)
    }

    /// A directory is implied by every entry below it.
    pub open spec fn is_dir(self, k: Seq<u8>) -> bool {
        exists|f: Seq<u8>| #[trigger] self.files.contains_key(f) && is_below(f, k)
    }

    pub open spec fn require_outcome(self, path: Seq<u8>) -> Outcome<H> {
        let k = self.key(path);
        if self.loaded.contains(k) {
            Outcome::AlreadyLoaded
        } else {
            self.load_outcome(path)
        }
    }

    pub open spec fn load_outcome(self, path: Seq<u8>) -> Outcome<H> {
        let k = self.key(path);
        if self.files.contains_key(k) {
            Outcome::Run(self.files[k])
        } else {
            Outcome::NotFound
        }
    }

    /// The store after a required `path` ran without error.
    pub open spec fn mark_loaded(self, path: Seq<u8>) -> MemoryView<H> {
        MemoryView { loaded: self.loaded.insert(self.key(path)), ..self }
    }

    /// The store after `content` is stored at `path`.
    pub open spec fn store(self, path: Seq<u8>, content: Content<H>) -> MemoryView<H> {
        MemoryView { files: self.files.insert(self.key(path), content), ..self }
    }
}

/// The meaning of a decision of `require` or `load`.
pub open spec fn outcome_of<H>(r: Result<Require<H>, FsError>) -> Outcome<H> {
    match r {
        Ok(Require::AlreadyLoaded) => Outcome::AlreadyLoaded,
        Ok(Require::Run(e)) => Outcome::Run(e.content()),
        Err(_) => Outcome::NotFound,
    }
}

/// An in-memory store of sources and extension hooks.
pub struct Memory<H> {
    style: PathStyle,
    cwd: Vec<u8>,
    slots: Vec<Slot<H>>,
    loaded: FeatureRegistry,
}

pub(crate) fn bytes_equal(a: &[u8], b: &[u8]) -> (r: bool)
    ensures
        r == (a@ == b@),
{
    if a.len() != b.len() {
        return false;
    }
    let mut i: usize = 0;
    while i < a.len()
        invariant
            i <= a@.len(),
            a@.len() == b@.len(),
            forall|j: int| 0 <= j < i ==> a@[j] == b@[j],
        decreases a@.len() - i,
    {
        if a[i] != b[i] {
            return false;
        }
        i += 1;
    }
    assert(a@ =~= b@);
    true
}

fn copy_bytes(b: &[u8]) -> (r: Vec<u8>)
    ensures
        r@ == b@,
{
    let mut r: Vec<u8> = Vec::new();
    append_bytes(&mut r, b);
    assert(r@ =~= b@);
    r
}

impl<H> View for Memory<H> {
    type V = MemoryView<H>;

    closed spec fn view(&self) -> MemoryView<H> {
        MemoryView {
            style: self.style,
            cwd: self.cwd@,
            files: Map::new(
                |k: Seq<u8>| exists|i: int| 0 <= i < self.slots@.len() && self.slots@[i].key@ == k,
                |k: Seq<u8>|
                    self.slots@[choose|i: int|
                        0 <= i < self.slots@.len() && self.slots@[i].key@ == k].entry.content(),
            ),
            loaded: self.loaded@,
        }
    }
}

impl<H: Copy> Memory<H> {
    /// No two entries share a key.
    pub closed spec fn wf(&self) -> bool {
        forall|i: int, j: int|
            #![trigger self.slots@[i], self.slots@[j]]
            0 <= i < self.slots@.len() && 0 <= j < self.slots@.len() && i != j
                ==> self.slots@[i].key@ != self.slots@[j].key@
    }

    /// An empty store whose relative paths resolve against `cwd`.
    pub fn new(cwd: Vec<u8>, style: PathStyle) -> (r: Memory<H>)
        ensures
            r.wf(),
            r@.style == style,
            r@.cwd == cwd@,
            r@.files == Map::<Seq<u8>, Content<H>>::empty(),
            r@.loaded == Set::<Seq<u8>>::empty(),
    {
        let r = Memory { style, cwd, slots: Vec::new(), loaded: FeatureRegistry::new() };
        assert(r@.files =~= Map::<Seq<u8>, Content<H>>::empty());
        r
    }

    /// The key under which `path` is stored.
    pub fn resolve(&self, path: &[u8]) -> (r: Vec<u8>)
        ensures
            r@ == self@.key(path@),
    {
        absolutize_relative_to(path, self.cwd.as_slice(), self.style)
    }

    fn find(&self, key: &[u8]) -> (r: Option<usize>)
        requires
            self.wf(),
        ensures
            match r {
                Some(i) => i < self.slots@.len() && self.slots@[i as int].key@ == key@
                    && self@.files.contains_key(key@) && self@.files[key@]
                    == self.slots@[i as int].entry.content(),
                None => !self@.files.contains_key(key@),
            },
    {
        let mut i: usize = 0;
        while i < self.slots.len()
            invariant
                self.wf(),
                i <= self.slots@.len(),
                forall|j: int| 0 <= j < i ==> self.slots@[j].key@ != key@,
            decreases self.slots@.len() - i,
        {
            if bytes_equal(self.slots[i].key.as_slice(), key) {
                proof {
                    assert(0 <= i < self.slots@.len() && self.slots@[i as int].key@ == key@);
                    assert(self@.files.contains_key(key@));
                    let j = choose|j: int|
                        0 <= j < self.slots@.len() && self.slots@[j].key@ == key@;
                    assert(0 <= j < self.slots@.len() && self.slots@[j].key@ == key@);
                    assert(self.slots@[j].key@ == self.slots@[i as int].key@);
                    assert(j == i as int);
                }
                return Some(i);
            }
            i += 1;
        }
        None
    }

    proof fn lemma_slot_content(&self, j: int)
        requires
            self.wf(),
            0 <= j < self.slots@.len(),
        ensures
            self@.files.contains_key(self.slots@[j].key@),
            self@.files[self.slots@[j].key@] == self.slots@[j].entry.content(),
    {
        let k = self.slots@[j].key@;
        assert(self@.files.contains_key(k));
        let c = choose|c: int| 0 <= c < self.slots@.len() && self.slots@[c].key@ == k;
        assert(0 <= c < self.slots@.len() && self.slots@[c].key@ == k);
        assert(self.slots@[c].key@ == self.slots@[j].key@);
    }

    /// Stores `entry` under `key`, in place of any entry there.
    fn put(&mut self, key: Vec<u8>, entry: Entry<H>)
        requires
            old(self).wf(),
        ensures
            final(self).wf(),
            final(self)@ == (MemoryView {
                files: old(self)@.files.insert(key@, entry.content()),
                ..old(self)@
            }),
    {
        let ghost k = key@;
        let ghost c = entry.content();
        let ghost before = self.slots@;
        let ghost target = old(self)@.files.insert(k, c);
        match self.find(key.as_slice()) {
            Some(i) => {
                self.slots.set(i, Slot { key, entry });
                proof {
                    assert forall|a: int, b: int|
                        0 <= a < self.slots@.len() && 0 <= b < self.slots@.len() && a != b
                            implies self.slots@[a].key@ != self.slots@[b].key@ by {
                        assert(self.slots@[a].key@ == before[a].key@);
                        assert(self.slots@[b].key@ == before[b].key@);
                    }
                    assert forall|f: Seq<u8>| #[trigger]
                        self@.files.contains_key(f) == target.contains_key(f) by {
                        if self@.files.contains_key(f) {
                            let j = choose|j: int|
                                0 <= j < self.slots@.len() && self.slots@[j].key@ == f;
                            assert(before[j].key@ == f);
                            old(self).lemma_slot_content(j);
                        }
                        if old(self)@.files.contains_key(f) {
                            let j = choose|j: int|
                                0 <= j < before.len() && before[j].key@ == f;
                            assert(self.slots@[j].key@ == f);
                        }
                        if f == k {
                            assert(self.slots@[i as int].key@ == f);
                        }
                    }
                    assert forall|f: Seq<u8>| #[trigger]
                        self@.files.contains_key(f) implies self@.files[f] == target[f] by {
                        let j = choose|j: int|
                            0 <= j < self.slots@.len() && self.slots@[j].key@ == f;
                        self.lemma_slot_content(j);
                        if f != k {
                            assert(j != i);
                            assert(before[j].key@ == f);
                            old(self).lemma_slot_content(j);
                        } else {
                            self.lemma_slot_content(i as int);
                        }
                    }
                    assert(self@.files =~= target);
                }
            },
            None => {
                self.slots.push(Slot { key, entry });
                proof {
                    let n = before.len() as int;
                    assert forall|a: int, b: int|
                        0 <= a < self.slots@.len() && 0 <= b < self.slots@.len() && a != b
                            implies self.slots@[a].key@ != self.slots@[b].key@ by {
                        if a < n && b < n {
                            assert(self.slots@[a] == before[a]);
                            assert(self.slots@[b] == before[b]);
                        } else if a < n {
                            old(self).lemma_slot_content(a);
                            assert(self.slots@[a] == before[a]);
                        } else if b < n {
                            old(self).lemma_slot_content(b);
                            assert(self.slots@[b] == before[b]);
                        }
                    }
                    assert forall|f: Seq<u8>| #[trigger]
                        self@.files.contains_key(f) == target.contains_key(f) by {
                        if self@.files.contains_key(f) {
                            let j = choose|j: int|
                                0 <= j < self.slots@.len() && self.slots@[j].key@ == f;
                            if j < n {
                                assert(self.slots@[j] == before[j]);
                                old(self).lemma_slot_content(j);
                            }
                        }
                        if old(self)@.files.contains_key(f) {
                            let j = choose|j: int|
                                0 <= j < before.len() && before[j].key@ == f;
                            assert(self.slots@[j] == before[j]);
                        }
                        if f == k {
                            assert(self.slots@[n].key@ == f);
                        }
                    }
                    assert forall|f: Seq<u8>| #[trigger]
                        self@.files.contains_key(f) implies self@.files[f] == target[f] by {
                        let j = choose|j: int|
                            0 <= j < self.slots@.len() && self.slots@[j].key@ == f;
                        self.lemma_slot_content(j);
                        if j < n {
                            assert(self.slots@[j] == before[j]);
                            old(self).lemma_slot_content(j);
                        }
                    }
                    assert(self@.files =~= target);
                }
            },
        }
        assert(self@.loaded =~= old(self)@.loaded);
    }


    fn copy_entry(&self, i: usize) -> (r: Entry<H>)
        requires
            i < self.slots@.len(),
        ensures
            r.content() == self.slots@[i as int].entry.content(),
    {
        match &self.slots[i].entry {
            Entry::Source(b) => Entry::Source(copy_bytes(b.as_slice())),
            Entry::Hook(h) => Entry::Hook(*h),
        }
    }

    /// Stores source text at `path`, in place of whatever was there.
    pub fn write(&mut self, path: &[u8], bytes: Vec<u8>)
        requires
            old(self).wf(),
        ensures
            final(self).wf(),
            final(self)@ == old(self)@.store(path@, Content::Source(bytes@)),
    {
        let key = self.resolve(path);
        self.put(key, Entry::Source(bytes));
    }

    /// Stores an extension hook at `path`, in place of whatever was there.
    pub fn register_extension(&mut self, path: &[u8], hook: H)
        requires
            old(self).wf(),
        ensures
            final(self).wf(),
            final(self)@ == old(self)@.store(path@, Content::Hook(hook)),
    {
        let key = self.resolve(path);
        self.put(key, Entry::Hook(hook));
    }

    /// Whether `path` was required and ran without error.
    pub fn is_loaded(&self, path: &[u8]) -> (r: bool)
        ensures
            r == self@.loaded.contains(self@.key(path@)),
    {
        let key = self.resolve(path);
        self.loaded.contains(key.as_slice())
    }

    /// Records that the entry at `path` was required and ran without error.
    pub fn mark_loaded(&mut self, path: &[u8])
        requires
            old(self).wf(),
        ensures
            final(self).wf(),
            final(self)@ == old(self)@.mark_loaded(path@),
    {
        let key = self.resolve(path);
        self.loaded.insert(key);
    }

    /// Decides what loading `path` runs: the entry there, whether or not the
    /// path was required before.
    pub fn load(&self, path: &[u8]) -> (r: Result<Entry<H>, FsError>)
        requires
            self.wf(),
        ensures
            match r {
                Ok(e) => self@.load_outcome(path@) == Outcome::Run(e.content()),
                Err(e) => e == FsError::NotFound && self@.load_outcome(path@) == Outcome::<
                    H,
                >::NotFound,
            },
    {
        let key = self.resolve(path);
        match self.find(key.as_slice()) {
            Some(i) => Ok(self.copy_entry(i)),
            None => Err(FsError::NotFound),
        }
    }

    /// Decides what requiring `path` runs: nothing where it was required
    /// before, else the entry there.
    pub fn require(&self, path: &[u8]) -> (r: Result<Require<H>, FsError>)
        requires
            self.wf(),
        ensures
            outcome_of(r) == self@.require_outcome(path@),
            r matches Err(e) ==> e == FsError::NotFound,
    {
        let key = self.resolve(path);
        if self.loaded.contains(key.as_slice()) {
            Ok(Require::AlreadyLoaded)
        } else {
            match self.find(key.as_slice()) {
                Some(i) => Ok(Require::Run(self.copy_entry(i))),
                None => Err(FsError::NotFound),
            }
        }
    }

    pub(crate) fn below(f: &[u8], d: &[u8]) -> (r: bool)
        ensures
            r == is_below(f@, d@),
    {
        if f.len() <= d.len() {
            return false;
        }
        let mut i: usize = 0;
        while i < d.len()
            invariant
                i <= d@.len(),
                d@.len() < f@.len(),
                forall|j: int| 0 <= j < i ==> f@[j] == d@[j],
            decreases d@.len() - i,
        {
            if f[i] != d[i] {
                assert(f@.subrange(0, d@.len() as int)[i as int] != d@[i as int]);
                return false;
            }
            i += 1;
        }
        assert(f@.subrange(0, d@.len() as int) =~= d@);
        f[d.len()] == 0x2fu8 || (d.len() > 0 && d[d.len() - 1] == 0x2fu8)
    }

    fn implies_directory(&self, key: &[u8]) -> (r: bool)
        requires
            self.wf(),
        ensures
            r == self@.is_dir(key@),
    {
        let mut i: usize = 0;
        while i < self.slots.len()
            invariant
                self.wf(),
                i <= self.slots@.len(),
                forall|j: int| 0 <= j < i ==> !is_below(#[trigger] self.slots@[j].key@, key@),
            decreases self.slots@.len() - i,
        {
            if Self::below(self.slots[i].key.as_slice(), key) {
                proof {
                    self.lemma_slot_content(i as int);
                }
                return true;
            }
            i += 1;
        }
        proof {
            assert forall|f: Seq<u8>| #[trigger] self@.files.contains_key(f) implies !is_below(
                f,
                key@,
            ) by {
                let j = choose|j: int| 0 <= j < self.slots@.len() && self.slots@[j].key@ == f;
                assert(!is_below(self.slots@[j].key@, key@));
            }
        }
        false
    }

    /// Whether `path` names a directory: some entry lies below it.
    pub fn is_directory(&self, path: &[u8]) -> (r: bool)
        requires
            self.wf(),
        ensures
            r == self@.is_dir(self@.key(path@)),
    {
        let key = self.resolve(path);
        self.implies_directory(key.as_slice())
    }

    /// Whether `path` names an entry or a directory.
    pub fn path_exists(&self, path: &[u8]) -> (r: bool)
        requires
            self.wf(),
        ensures
            r == (self@.files.contains_key(self@.key(path@)) || self@.is_dir(self@.key(path@))),
    {
        let key = self.resolve(path);
        self.find(key.as_slice()).is_some() || self.implies_directory(key.as_slice())
    }

    /// The source text at `path`.
    ///
    /// Fails with `IsADirectory` where `path` only names a directory, and with
    /// `NotFound` where it names no source text otherwise.
    pub fn read(&self, path: &[u8]) -> (r: Result<Vec<u8>, FsError>)
        requires
            self.wf(),
        ensures
            ({
                let k = self@.key(path@);
                let is_source = self@.files.contains_key(k) && self@.files[k] is Source;
                match r {
                    Ok(b) => is_source && self@.files[k] == Content::<H>::Source(b@),
                    Err(FsError::IsADirectory) => !is_source && self@.is_dir(k),
                    Err(FsError::NotFound) => !is_source && !self@.is_dir(k),
                }
            }),
    {
        let key = self.resolve(path);
        match self.find(key.as_slice()) {
            Some(i) => {
                match &self.slots[i].entry {
                    Entry::Source(b) => {
                        return Ok(copy_bytes(b.as_slice()));
                    },
                    Entry::Hook(_) => {},
                }
            },
            None => {},
        }
        if self.implies_directory(key.as_slice()) {
            Err(FsError::IsADirectory)
        } else {
            Err(FsError::NotFound)
        }
    }

}

/// `require` runs an entry once: after the entry that a first `require` handed
/// out has run and been recorded, a second `require` of the same path runs
/// nothing and reports it loaded. The recorded store holds the same entries.
pub proof fn lemma_require_once<H>(v: MemoryView<H>, path: Seq<u8>)
    requires
        v.require_outcome(path) is Run,
    ensures
        v.mark_loaded(path).require_outcome(path) == Outcome::<H>::AlreadyLoaded,
        v.mark_loaded(path).files == v.files,
{
}

/// `load` runs the entry every time: what it decides does not depend on the
/// feature registry, and recording a `require` changes nothing of it.
pub proof fn lemma_load_always<H>(v: MemoryView<H>, path: Seq<u8>, loaded: Set<Seq<u8>>)
    ensures
        (MemoryView { loaded, ..v }).load_outcome(path) == v.load_outcome(path),
        v.mark_loaded(path).load_outcome(path) == v.load_outcome(path),
{
}

} // verus!
