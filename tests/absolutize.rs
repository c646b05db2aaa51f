use load_path::path::{absolutize_relative_to, PathStyle};

fn posix(path: &str, cwd: &str) -> Vec<u8> {
    absolutize_relative_to(path.as_bytes(), cwd.as_bytes(), PathStyle::Posix)
}

fn windows(path: &str, cwd: &str) -> Vec<u8> {
    absolutize_relative_to(path.as_bytes(), cwd.as_bytes(), PathStyle::Windows)
}

#[test]
fn absolutize_absolute_path() {
    let path = "/foo/bar";
    assert_eq!(posix(path, "/home/artichoke"), path.as_bytes());
    assert_eq!(posix(path, "relative/path"), path.as_bytes());
}

#[test]
fn absolutize_absolute_path_dedot_current_dir() {
    let path = "/././foo/./bar/./././.";
    assert_eq!(posix(path, "/home/artichoke"), b"/foo/bar");
    assert_eq!(posix(path, "relative/path"), b"/foo/bar");
}

#[test]
fn absolutize_absolute_path_dedot_parent_dir() {
    let path = "/foo/bar/..";
    assert_eq!(posix(path, "/home/artichoke"), b"/foo");
    assert_eq!(posix(path, "relative/path"), b"/foo");

    let path = "/foo/../../../../bar/../../../";
    assert_eq!(posix(path, "/home/artichoke"), b"/");
    assert_eq!(posix(path, "relative/path"), b"/");

    let path = "/foo/../../../../bar/../../../boom/baz";
    assert_eq!(posix(path, "/home/artichoke"), b"/boom/baz");
    assert_eq!(posix(path, "relative/path"), b"/boom/baz");
}

#[test]
fn absolutize_relative_path() {
    let path = "foo/bar";
    assert_eq!(posix(path, "/home/artichoke"), b"/home/artichoke/foo/bar");
    assert_eq!(posix(path, "relative/path"), b"relative/path/foo/bar");
}

#[test]
fn absolutize_relative_path_dedot_current_dir() {
    let path = "././././foo/./bar/./././.";
    assert_eq!(posix(path, "/home/artichoke"), b"/home/artichoke/foo/bar");
    assert_eq!(posix(path, "relative/path"), b"relative/path/foo/bar");
}

#[test]
fn absolutize_relative_path_dedot_parent_dir_unix() {
    let path = "foo/bar/..";
    assert_eq!(posix(path, "/home/artichoke"), b"/home/artichoke/foo");
    assert_eq!(posix(path, "relative/path"), b"relative/path/foo");

    let path = "foo/../../../../bar/../../../";
    assert_eq!(posix(path, "/home/artichoke"), b"/");
    assert_eq!(posix(path, "relative/path"), b"");

    let path = "foo/../../../../bar/../../../boom/baz";
    assert_eq!(posix(path, "/home/artichoke"), b"/boom/baz");
    assert_eq!(posix(path, "relative/path"), b"boom/baz");
}

#[test]
fn absolutize_relative_path_dedot_parent_dir_windows_forward_slash() {
    let path = "foo/bar/..";
    assert_eq!(windows(path, "C:/Users/artichoke"), b"C:/Users/artichoke/foo");
    assert_eq!(windows(path, "relative/path"), b"relative/path/foo");

    let path = "foo/../../../../bar/../../../";
    assert_eq!(windows(path, "C:/Users/artichoke"), b"/");
    assert_eq!(windows(path, "relative/path"), b"");

    let path = "foo/../../../../bar/../../../boom/baz";
    assert_eq!(windows(path, "C:/Users/artichoke"), b"/boom/baz");
    assert_eq!(windows(path, "relative/path"), b"boom/baz");
}

#[test]
fn absolutize_relative_path_dedot_parent_dir_windows_backward_slash() {
    let path = r"foo\bar\..";
    assert_eq!(windows(path, r"C:\Users\artichoke"), b"C:/Users/artichoke/foo");
    assert_eq!(windows(path, r"relative\path"), b"relative/path/foo");

    let path = r"foo\..\..\..\..\bar\..\..\..\";
    assert_eq!(windows(path, r"C:\Users\artichoke"), b"/");
    assert_eq!(windows(path, r"relative\path"), b"");

    let path = r"foo\..\..\..\..\bar\..\..\..\boom\baz";
    assert_eq!(windows(path, r"C:\Users\artichoke"), b"/boom/baz");
    assert_eq!(windows(path, r"relative\path"), b"boom/baz");
}

#[test]
fn dedot_inside_absolute_path() {
    assert_eq!(posix("/foo/./bar/./.", "/home/x"), b"/foo/bar");
}

#[test]
fn absolute_path_ignores_relative_cwd() {
    assert_eq!(posix("/foo/bar/..", "relative/path"), b"/foo");
}

#[test]
fn relative_path_joins_absolute_cwd() {
    assert_eq!(posix("foo/bar", "/home/x"), b"/home/x/foo/bar");
}

#[test]
fn parent_never_climbs_above_root() {
    assert_eq!(posix("/foo/../../../bar", "/home/x"), b"/bar");
    assert_eq!(posix("/foo/../../../bar", "rel"), b"/bar");
    assert_eq!(posix("/foo/../../../bar", ""), b"/bar");
}

#[test]
fn relative_underflow_stays_empty() {
    assert_eq!(posix("a/..", ""), b"");
    assert_eq!(posix("a/../..", ""), b"");
    assert_eq!(posix("../x", ""), b"x");
}

#[test]
fn same_result_for_any_cwd_when_absolute() {
    for cwd in ["", "/", "/a/b", "rel/dir", "../up"] {
        assert_eq!(posix("/x/./y/../z", cwd), b"/x/z");
    }
}

#[test]
fn resolving_a_resolved_path_changes_nothing() {
    let once = posix("/a/./b/../c//d/", "/home/x");
    assert_eq!(once, b"/a/c/d");
    let twice = absolutize_relative_to(&once, b"/elsewhere", PathStyle::Posix);
    assert_eq!(twice, once);
    let rel = posix("a/./b/../c", "");
    assert_eq!(rel, b"a/c");
    assert_eq!(absolutize_relative_to(&rel, b"", PathStyle::Posix), rel);
}

#[test]
fn empty_path_resolves_to_cwd() {
    assert_eq!(posix("", "/home/x"), b"/home/x");
    assert_eq!(posix("", ""), b"");
    assert_eq!(posix(".", "/"), b"/");
}

#[test]
fn cwd_is_resolved_too() {
    assert_eq!(posix("foo", "../up"), b"up/foo");
    assert_eq!(posix("foo", "./a/./b/.."), b"a/foo");
    assert_eq!(posix("foo", "/a/../b"), b"/b/foo");
}

#[test]
fn windows_drive_relative_path_stays_relative() {
    assert_eq!(windows("C:..", ""), b"");
    assert_eq!(windows(r"C:a\..\..", "rel"), b"rel");
    assert_eq!(windows(r"C:a\..\..\..", "rel"), b"");
}

#[test]
fn backslash_is_an_ordinary_byte_on_posix() {
    assert_eq!(posix(r"a\b", "/r"), br"/r/a\b");
}

#[test]
fn windows_drive_path_ignores_cwd() {
    assert_eq!(windows(r"D:\x\..\y", r"C:\Users"), b"D:/y");
    assert_eq!(windows(r"\x\y", r"C:\Users"), b"/x/y");
}

#[test]
fn windows_rootless_cwd_is_relative() {
    assert_eq!(windows("../../a", r"\top"), b"a");
}
