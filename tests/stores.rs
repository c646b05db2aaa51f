use load_path::hybrid::{HostQuery, Hybrid, HybridRequire, RUBY_LOAD_PATH};
use load_path::memory::{Entry, FsError, Memory, Require};
use load_path::path::PathStyle;
use load_path::search::{SearchPath, SearchRequire};

const A_RB: &[u8] = b"/artichoke/virtual_root/src/lib/a.rb";

fn memory() -> Memory<u32> {
    Memory::new(RUBY_LOAD_PATH.as_bytes().to_vec(), PathStyle::Posix)
}

fn source_of(r: Result<Require<u32>, FsError>) -> Vec<u8> {
    match r {
        Ok(Require::Run(Entry::Source(b))) => b,
        _ => panic!("expected source to run"),
    }
}

#[test]
fn memory_require_then_already_loaded_then_load_runs_again() {
    let mut m = memory();
    m.write(A_RB, b"puts 1".to_vec());
    let mut runs = 0;
    assert_eq!(source_of(m.require(A_RB)), b"puts 1");
    runs += 1;
    m.mark_loaded(A_RB);
    assert!(matches!(m.require(A_RB), Ok(Require::AlreadyLoaded)));
    match m.load(A_RB) {
        Ok(Entry::Source(b)) => {
            assert_eq!(b, b"puts 1");
            runs += 1;
        }
        _ => panic!("expected source to run"),
    }
    match m.load(A_RB) {
        Ok(Entry::Source(_)) => runs += 1,
        _ => panic!("expected source to run"),
    }
    assert_eq!(runs, 3);
}

#[test]
fn relative_paths_resolve_against_the_load_path() {
    let mut m = memory();
    m.write(b"a.rb", b"puts 1".to_vec());
    assert!(m.path_exists(A_RB));
    assert_eq!(m.read(b"./x/../a.rb"), Ok(b"puts 1".to_vec()));
    m.mark_loaded(b"a.rb");
    assert!(m.is_loaded(A_RB));
}

#[test]
fn failed_require_leaves_path_unloaded() {
    let mut m = memory();
    m.register_extension(A_RB, 7);
    match m.require(A_RB) {
        Ok(Require::Run(Entry::Hook(h))) => assert_eq!(h, 7),
        _ => panic!("expected hook to run"),
    }
    // the hook failed: nothing is recorded, and the next require runs it again
    assert!(!m.is_loaded(A_RB));
    assert!(matches!(m.require(A_RB), Ok(Require::Run(Entry::Hook(7)))));
}

#[test]
fn last_write_wins() {
    let mut m = memory();
    m.register_extension(A_RB, 1);
    m.write(A_RB, b"puts 2".to_vec());
    assert_eq!(m.read(A_RB), Ok(b"puts 2".to_vec()));
    m.register_extension(A_RB, 3);
    assert_eq!(m.read(A_RB), Err(FsError::NotFound));
    assert!(matches!(m.load(A_RB), Ok(Entry::Hook(3))));
}

#[test]
fn missing_paths_and_directories() {
    let mut m = memory();
    m.write(b"/artichoke/virtual_root/src/lib/json/ext.rb", b"x".to_vec());
    assert!(m.is_directory(b"/artichoke/virtual_root/src/lib/json"));
    assert!(m.is_directory(b"/artichoke"));
    assert!(m.path_exists(b"json"));
    assert!(!m.is_directory(b"/artichoke/virtual_root/src/lib/json/ext.rb"));
    assert!(!m.is_directory(b"/artichoke/virtual_root/src/lib/js"));
    assert_eq!(m.read(b"json"), Err(FsError::IsADirectory));
    assert_eq!(m.read(b"nope.rb"), Err(FsError::NotFound));
    assert!(!m.path_exists(b"nope.rb"));
    assert!(matches!(m.require(b"nope.rb"), Err(FsError::NotFound)));
    assert!(matches!(m.load(b"nope.rb"), Err(FsError::NotFound)));
}

#[test]
fn hybrid_routes_by_reserved_root() {
    let mut h: Hybrid<u32> = Hybrid::new(RUBY_LOAD_PATH.as_bytes().to_vec(), PathStyle::Posix);
    h.write(A_RB, b"puts 1".to_vec());
    match h.require(b"/tmp/b.rb") {
        Ok(HybridRequire::ReadHost(p)) => assert_eq!(p, b"/tmp/b.rb"),
        _ => panic!("expected a host read"),
    }
    match h.require(A_RB) {
        Ok(HybridRequire::Run(Entry::Source(b))) => assert_eq!(b, b"puts 1"),
        _ => panic!("expected the in-memory source"),
    }
    h.mark_loaded(b"/tmp/b.rb");
    h.mark_loaded(A_RB);
    assert!(matches!(h.require(b"/tmp/b.rb"), Ok(HybridRequire::AlreadyLoaded)));
    assert!(matches!(h.require(A_RB), Ok(HybridRequire::AlreadyLoaded)));
    assert!(matches!(h.load(b"/tmp/b.rb"), Ok(HybridRequire::ReadHost(_))));
    assert!(matches!(h.load(A_RB), Ok(HybridRequire::Run(_))));
}

#[test]
fn hybrid_matches_standalone_memory_under_root() {
    let mut h: Hybrid<u32> = Hybrid::new(RUBY_LOAD_PATH.as_bytes().to_vec(), PathStyle::Posix);
    let mut m = memory();
    h.write(b"a.rb", b"puts 1".to_vec());
    m.write(b"a.rb", b"puts 1".to_vec());
    assert!(matches!(h.require(b"c.rb"), Err(FsError::NotFound)));
    assert!(matches!(m.require(b"c.rb"), Err(FsError::NotFound)));
    h.register_extension(b"c.rb", 4);
    m.register_extension(b"c.rb", 4);
    assert!(matches!(h.require(b"c.rb"), Ok(HybridRequire::Run(Entry::Hook(4)))));
    assert!(matches!(m.require(b"c.rb"), Ok(Require::Run(Entry::Hook(4)))));
    match h.require(b"../../../../tmp/x.rb") {
        Ok(HybridRequire::ReadHost(p)) => assert_eq!(p, b"/tmp/x.rb"),
        _ => panic!("expected a host read"),
    }
}

#[test]
fn search_path_takes_first_root_holding_the_file() {
    let roots = vec![b"/r1".to_vec(), b"/r2".to_vec()];
    let s = SearchPath::new(roots, PathStyle::Posix);
    let c = s.candidates(b"x.rb");
    assert_eq!(c, vec![b"/r1/x.rb".to_vec(), b"/r2/x.rb".to_vec()]);
    assert_eq!(SearchPath::first_found(&[true, true]), Some(0));
    assert_eq!(SearchPath::first_found(&[false, true]), Some(1));
    assert_eq!(SearchPath::first_found(&[false, false]), None);
    assert_eq!(SearchPath::first_found(&[]), None);
}

#[test]
fn search_path_require_once_from_first_root() {
    let roots = vec![b"/r1".to_vec(), b"/r2".to_vec()];
    let mut s = SearchPath::new(roots, PathStyle::Posix);
    let key = match s.require(b"x.rb", &[true, true]) {
        Ok(SearchRequire::ReadHost(k)) => k,
        _ => panic!("expected a host read"),
    };
    assert_eq!(key, b"/r1/x.rb");
    s.mark_loaded(key);
    assert!(matches!(s.require(b"x.rb", &[true, true]), Ok(SearchRequire::AlreadyLoaded)));
    match s.require(b"x.rb", &[false, true]) {
        Ok(SearchRequire::ReadHost(k)) => assert_eq!(k, b"/r2/x.rb"),
        _ => panic!("expected a host read"),
    }
    match s.load(b"x.rb", &[true, false]) {
        Ok(SearchRequire::ReadHost(k)) => assert_eq!(k, b"/r1/x.rb"),
        _ => panic!("expected a host read"),
    }
    assert!(matches!(s.require(b"x.rb", &[false, false]), Err(FsError::NotFound)));
}

#[test]
fn hybrid_queries_route_by_reserved_root() {
    let mut h: Hybrid<u32> = Hybrid::new(RUBY_LOAD_PATH.as_bytes().to_vec(), PathStyle::Posix);
    h.write(b"json/ext.rb", b"x".to_vec());
    assert!(matches!(h.path_exists(b"json/ext.rb"), HostQuery::Known(true)));
    assert!(matches!(h.path_exists(b"nope.rb"), HostQuery::Known(false)));
    assert!(matches!(h.is_directory(b"json"), HostQuery::Known(true)));
    assert!(matches!(h.is_directory(b"json/ext.rb"), HostQuery::Known(false)));
    match h.read(b"json/ext.rb") {
        Ok(HostQuery::Known(b)) => assert_eq!(b, b"x"),
        _ => panic!("expected in-memory bytes"),
    }
    assert!(matches!(h.read(b"json"), Err(FsError::IsADirectory)));
    assert!(matches!(h.read(b"nope.rb"), Err(FsError::NotFound)));
    match h.read(b"/tmp/b.rb") {
        Ok(HostQuery::AskHost(k)) => assert_eq!(k, b"/tmp/b.rb"),
        _ => panic!("expected a host read"),
    }
    match h.is_directory(b"/tmp") {
        HostQuery::AskHost(k) => assert_eq!(k, b"/tmp"),
        _ => panic!("expected a host query"),
    }
    assert!(matches!(h.path_exists(b"/tmp/b.rb"), HostQuery::AskHost(_)));
}
