//! The hybrid store: paths under a reserved root go to an in-memory store,
//! all others to the host filesystem. Both share one feature registry.
//!
//! Reading the host is the caller's work: where a path goes to the host,
//! `require` and `load` hand back the resolved path to read and run.

use vstd::prelude::*;

use crate::memory::{bytes_equal, is_below, Content, Entry, FsError, Memory, MemoryView, Outcome, Require};
use crate::path::PathStyle;

verus! {

/// Directory at which sources and extensions are stored in memory, on hosts
/// with POSIX paths.
pub const RUBY_LOAD_PATH: &'static str = "/artichoke/virtual_root/src/lib";

/// Directory at which sources and extensions are stored in memory, on hosts
/// with Windows paths.
pub const RUBY_LOAD_PATH_WINDOWS: &'static str = "c:/artichoke/virtual_root/src/lib";

/// What the hybrid store decided.
pub enum HybridRequire<H> {
    /// The path was required before; nothing is to run.
    AlreadyLoaded,
    /// The in-memory entry is to run.
    Run(Entry<H>),
    /// The host file at this resolved path is to be read and run.
    ReadHost(Vec<u8>),
}

/// An answer of the hybrid store: known from memory, or to be asked of the
/// host at this resolved path.
pub enum HostQuery<T> {
    Known(T),
    AskHost(Vec<u8>),
}

/// What the hybrid store decides, as a value.
pub enum HybridOutcome<H> {
    AlreadyLoaded,
    Run(Content<H>),
    NotFound,
    ReadHost(Seq<u8>),
}

/// An in-memory decision, as the hybrid store reports it.
pub open spec fn lift<H>(o: Outcome<H>) -> HybridOutcome<H> {
    match o {
        Outcome::AlreadyLoaded => HybridOutcome::AlreadyLoaded,
        Outcome::Run(c) => HybridOutcome::Run(c),
        Outcome::NotFound => HybridOutcome::NotFound,
    }
}

/// What a store over the host decides on `require` of the resolved `key`.
pub open spec fn host_require<H>(loaded: Set<Seq<u8>>, key: Seq<u8>) -> HybridOutcome<H> {
    if loaded.contains(key) {
        HybridOutcome::AlreadyLoaded
    } else {
        HybridOutcome::ReadHost(key)
    }
}

pub open spec fn hybrid_outcome_of<H>(r: Result<HybridRequire<H>, FsError>) -> HybridOutcome<H> {
    match r {
        Ok(HybridRequire::AlreadyLoaded) => HybridOutcome::AlreadyLoaded,
        Ok(HybridRequire::Run(e)) => HybridOutcome::Run(e.content()),
        Ok(HybridRequire::ReadHost(k)) => HybridOutcome::ReadHost(k@),
        Err(_) => HybridOutcome::NotFound,
    }
}

/// The key `key` lies at or below the directory `root`.
pub open spec fn is_within(key: Seq<u8>, root: Seq<u8>) -> bool {
    key == root || is_below(key, root)
}

/// The hybrid store as a value: the in-memory store and the reserved root.
pub struct HybridView<H> {
    pub memory: MemoryView<H>,
    pub root: Seq<u8>,
}

impl<H> HybridView<H> {
    pub open spec fn goes_to_memory(self, path: Seq<u8>) -> bool {
        is_within(self.memory.key(path), self.root)
    }

    pub open spec fn require_outcome(self, path: Seq<u8>) -> HybridOutcome<H> {
        if self.goes_to_memory(path) {
            lift(self.memory.require_outcome(path))
        } else {
            host_require(self.memory.loaded, self.memory.key(path))
        }
    }

    pub open spec fn load_outcome(self, path: Seq<u8>) -> HybridOutcome<H> {
        if self.goes_to_memory(path) {
            lift(self.memory.load_outcome(path))
        } else {
            HybridOutcome::ReadHost(self.memory.key(path))
        }
    }
}

/// A store that keeps the reserved root in memory and reads the rest from
/// the host.
pub struct Hybrid<H> {
    memory: Memory<H>,
    root: Vec<u8>,
}

impl<H> View for Hybrid<H> {
    type V = HybridView<H>;

    closed spec fn view(&self) -> HybridView<H> {
        HybridView { memory: self.memory@, root: self.root@ }
    }
}

impl<H: Copy> Hybrid<H> {
    pub closed spec fn wf(&self) -> bool {
        self.memory.wf()
    }

    /// An empty store whose in-memory part is rooted at `root`, which is also
    /// the working directory for relative paths.
    pub fn new(root: Vec<u8>, style: PathStyle) -> (r: Hybrid<H>)
        ensures
            r.wf(),
            r@.root == root@,
            r@.memory.cwd == root@,
            r@.memory.style == style,
            r@.memory.files == Map::<Seq<u8>, Content<H>>::empty(),
            r@.memory.loaded == Set::<Seq<u8>>::empty(),
    {
        let mut cwd: Vec<u8> = Vec::new();
        crate::path::append_bytes(&mut cwd, root.as_slice());
        assert(cwd@ =~= root@);
        Hybrid { memory: Memory::new(cwd, style), root }
    }

    fn to_memory(&self, key: &[u8]) -> (r: bool)
        ensures
            r == is_within(key@, self.root@),
    {
        bytes_equal(key, self.root.as_slice()) || Memory::<H>::below(key, self.root.as_slice())
    }

    /// Stores source text in memory at `path`.
    pub fn write(&mut self, path: &[u8], bytes: Vec<u8>)
        requires
            old(self).wf(),
        ensures
            final(self).wf(),
            final(self)@ == (HybridView {
                memory: old(self)@.memory.store(path@, Content::Source(bytes@)),
                ..old(self)@
            }),
    {
        self.memory.write(path, bytes);
    }

    /// Stores an extension hook in memory at `path`.
    pub fn register_extension(&mut self, path: &[u8], hook: H)
        requires
            old(self).wf(),
        ensures
            final(self).wf(),
            final(self)@ == (HybridView {
                memory: old(self)@.memory.store(path@, Content::Hook(hook)),
                ..old(self)@
            }),
    {
        self.memory.register_extension(path, hook);
    }

    /// Records that `path` was required and ran without error, wherever it
    /// was read from.
    pub fn mark_loaded(&mut self, path: &[u8])
        requires
            old(self).wf(),
        ensures
            final(self).wf(),
            final(self)@ == (HybridView { memory: old(self)@.memory.mark_loaded(path@), ..old(self)@ }),
    {
        self.memory.mark_loaded(path);
    }

    /// Whether `path` names an entry or a directory: answered from memory
    /// under the reserved root, else left to the host.
    pub fn path_exists(&self, path: &[u8]) -> (r: HostQuery<bool>)
        requires
            self.wf(),
        ensures
            ({
                let m = self@.memory;
                let k = m.key(path@);
                if self@.goes_to_memory(path@) {
                    r matches HostQuery::Known(b) && b == (m.files.contains_key(k) || m.is_dir(k))
                } else {
                    r matches HostQuery::AskHost(h) && h@ == k
                }
            }),
    {
        let key = self.memory.resolve(path);
        if self.to_memory(key.as_slice()) {
            HostQuery::Known(self.memory.path_exists(path))
        } else {
            HostQuery::AskHost(key)
        }
    }

    /// Whether `path` names a directory: answered from memory under the
    /// reserved root, else left to the host.
    pub fn is_directory(&self, path: &[u8]) -> (r: HostQuery<bool>)
        requires
            self.wf(),
        ensures
            ({
                let m = self@.memory;
                let k = m.key(path@);
                if self@.goes_to_memory(path@) {
                    r matches HostQuery::Known(b) && b == m.is_dir(k)
                } else {
                    r matches HostQuery::AskHost(h) && h@ == k
                }
            }),
    {
        let key = self.memory.resolve(path);
        if self.to_memory(key.as_slice()) {
            HostQuery::Known(self.memory.is_directory(path))
        } else {
            HostQuery::AskHost(key)
        }
    }

    /// The source text at `path`: read from memory under the reserved root,
    /// with the errors of the in-memory store, else left to the host.
    pub fn read(&self, path: &[u8]) -> (r: Result<HostQuery<Vec<u8>>, FsError>)
        requires
            self.wf(),
        ensures
            ({
                let m = self@.memory;
                let k = m.key(path@);
                let is_source = m.files.contains_key(k) && m.files[k] is Source;
                if self@.goes_to_memory(path@) {
                    match r {
                        Ok(HostQuery::Known(b)) => is_source && m.files[k] == Content::<H>::Source(
                            b@,
                        ),
                        Ok(HostQuery::AskHost(_)) => false,
                        Err(FsError::IsADirectory) => !is_source && m.is_dir(k),
                        Err(FsError::NotFound) => !is_source && !m.is_dir(k),
                    }
                } else {
                    r matches Ok(HostQuery::AskHost(h)) && h@ == k
                }
            }),
    {
        let key = self.memory.resolve(path);
        if self.to_memory(key.as_slice()) {
            match self.memory.read(path) {
                Ok(b) => Ok(HostQuery::Known(b)),
                Err(e) => Err(e),
            }
        } else {
            Ok(HostQuery::AskHost(key))
        }
    }

    /// Decides what requiring `path` runs.
    pub fn require(&self, path: &[u8]) -> (r: Result<HybridRequire<H>, FsError>)
        requires
            self.wf(),
        ensures
            hybrid_outcome_of(r) == self@.require_outcome(path@),
            r matches Err(e) ==> e == FsError::NotFound,
    {
        let key = self.memory.resolve(path);
        if self.to_memory(key.as_slice()) {
            match self.memory.require(path) {
                Ok(Require::AlreadyLoaded) => Ok(HybridRequire::AlreadyLoaded),
                Ok(Require::Run(e)) => Ok(HybridRequire::Run(e)),
                Err(e) => Err(e),
            }
        } else if self.memory.is_loaded(path) {
            Ok(HybridRequire::AlreadyLoaded)
        } else {
            Ok(HybridRequire::ReadHost(key))
        }
    }

    /// Decides what loading `path` runs.
    pub fn load(&self, path: &[u8]) -> (r: Result<HybridRequire<H>, FsError>)
        requires
            self.wf(),
        ensures
            hybrid_outcome_of(r) == self@.load_outcome(path@),
            r matches Err(e) ==> e == FsError::NotFound,
            !(r matches Ok(HybridRequire::AlreadyLoaded)),
    {
        let key = self.memory.resolve(path);
        if self.to_memory(key.as_slice()) {
            match self.memory.load(path) {
                Ok(e) => Ok(HybridRequire::Run(e)),
                Err(e) => Err(e),
            }
        } else {
            Ok(HybridRequire::ReadHost(key))
        }
    }
}

/// Under the reserved root the hybrid store decides as a standalone
/// in-memory store with the same entries, working directory and registry;
/// elsewhere it decides as a store over the host with the same registry.
pub proof fn lemma_hybrid_routing<H>(h: HybridView<H>, m: MemoryView<H>, path: Seq<u8>)
    requires
        m == h.memory,
    ensures
        is_within(m.key(path), h.root) ==> h.require_outcome(path) == lift(m.require_outcome(path))
            && h.load_outcome(path) == lift(m.load_outcome(path)),
        !is_within(m.key(path), h.root) ==> h.require_outcome(path) == host_require::<H>(
            m.loaded,
            m.key(path),
        ) && h.load_outcome(path) == HybridOutcome::<H>::ReadHost(m.key(path)),
{
}

} // verus!
