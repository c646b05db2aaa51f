use std::path::PathBuf;

use load_path::error::{ComponentOutOfRangeError, ConvertBytesError};
use load_path::path::{absolutize_relative_to, PathStyle};
use load_path::slashes::{forward_slashes, normalize_slashes};

#[test]
fn windows_backslashes_become_forward_slashes() {
    let r = normalize_slashes(PathBuf::from(r"C:\Users\artichoke\a.rb"), PathStyle::Windows);
    assert_eq!(r, Ok(b"C:/Users/artichoke/a.rb".to_vec()));
}

#[test]
fn posix_backslashes_are_kept() {
    let r = normalize_slashes(PathBuf::from(r"/tmp/a\b.rb"), PathStyle::Posix);
    assert_eq!(r, Ok(br"/tmp/a\b.rb".to_vec()));
}

#[test]
fn forward_slashes_on_bytes() {
    assert_eq!(forward_slashes(br"a\b/c\".to_vec(), PathStyle::Windows), b"a/b/c/");
    assert_eq!(forward_slashes(br"a\b/c\".to_vec(), PathStyle::Posix), br"a\b/c\");
    assert_eq!(forward_slashes(Vec::new(), PathStyle::Windows), b"");
}

#[test]
fn component_error_messages() {
    assert_eq!(
        ComponentOutOfRangeError::Date.message(),
        "Date component (year, month, day) out of range"
    );
    assert_eq!(
        ComponentOutOfRangeError::Time.message(),
        "Time component (hour, minute, second) out of range"
    );
    assert_ne!(ComponentOutOfRangeError::Date, ComponentOutOfRangeError::Time);
}

#[test]
fn convert_bytes_error_message() {
    assert_eq!(
        ConvertBytesError::new().message(),
        "Could not convert between bytes and platform string"
    );
}

#[test]
fn resolved_paths_are_already_normalized() {
    let r = absolutize_relative_to(br"foo\bar\..", br"C:\Users\artichoke", PathStyle::Windows);
    assert_eq!(r, b"C:/Users/artichoke/foo");
    assert_eq!(forward_slashes(r.clone(), PathStyle::Windows), r);
    let p = PathBuf::from(String::from_utf8(r.clone()).unwrap());
    assert_eq!(normalize_slashes(p, PathStyle::Windows), Ok(r));
}
