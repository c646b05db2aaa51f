//! Rewriting host separators into the canonical `/`.

use bstr::ByteVec;
use std::path::PathBuf;
use vstd::prelude::*;

use crate::error::ConvertBytesError;
use crate::path::{is_separator, lemma_resolve_slash_only, resolve, PathStyle};

verus! {

/// std's `PathBuf`, carried through as an opaque value.
#[verifier::external_type_specification]
#[verifier::external_body]
pub struct ExPathBuf(PathBuf);

/// `s` with every separator of `style` written as `/`.
pub open spec fn with_forward_slashes(style: PathStyle, s: Seq<u8>) -> Seq<u8> {
    s.map_values(
        |b: u8|
            if is_separator(style, b) {
                0x2fu8
            } else {
                b
            },
    )
}

/// The bytes of a host path, where the host can give them: always on Unix,
/// elsewhere where the path is valid UTF-8.
pub uninterp spec fn host_path_bytes(p: PathBuf) -> Option<Seq<u8>>;

/// Relies on bstr's `ByteVec::from_path_buf`: the bytes of the path, or the
/// path handed back where the host cannot give them as bytes. What it gives
/// depends on the path alone.
#[verifier::external_body]
fn path_buf_into_bytes(path: PathBuf) -> (r: Result<Vec<u8>, PathBuf>)
    ensures
        match host_path_bytes(path) {
            Some(b) => r matches Ok(v) && v@ == b,
            None => r is Err,
        },
{
    <Vec<u8> as ByteVec>::from_path_buf(path)
}

/// Rewrites every separator of `style` in `bytes` as `/`.
pub fn forward_slashes(bytes: Vec<u8>, style: PathStyle) -> (r: Vec<u8>)
    ensures
        r@ == with_forward_slashes(style, bytes@),
{
    let mut out = bytes;
    let mut i: usize = 0;
    while i < out.len()
        invariant
            i <= out@.len(),
            out@.len() == bytes@.len(),
            forall|j: int| 0 <= j < i ==> out@[j] == with_forward_slashes(style, bytes@)[j],
            forall|j: int| i <= j < out@.len() ==> out@[j] == bytes@[j],
        decreases out@.len() - i,
    {
        if style == PathStyle::Windows && out[i] == 0x5cu8 {
            out.set(i, 0x2fu8);
        }
        i += 1;
    }
    assert(out@ =~= with_forward_slashes(style, bytes@));
    out
}

/// The bytes of a host path with its separators written as `/`.
///
/// Fails exactly where the host path has no byte representation.
pub fn normalize_slashes(path: PathBuf, style: PathStyle) -> (r: Result<Vec<u8>, ConvertBytesError>)
    ensures
        match host_path_bytes(path) {
            Some(b) => r matches Ok(v) && v@ == with_forward_slashes(style, b),
            None => r is Err,
        },
{
    match path_buf_into_bytes(path) {
        Ok(bytes) => Ok(forward_slashes(bytes, style)),
        Err(_) => Err(ConvertBytesError::new()),
    }
}

/// A resolved path is already in canonical form: the store keys that path
/// resolution gives are left unchanged by the slash normalizer.
pub proof fn lemma_resolved_is_normalized(style: PathStyle, path: Seq<u8>, cwd: Seq<u8>)
    ensures
        with_forward_slashes(style, resolve(style, path, cwd)) == resolve(style, path, cwd),
{
    let r = resolve(style, path, cwd);
    lemma_resolve_slash_only(style, path, cwd);
    assert(with_forward_slashes(style, r) =~= r);
}

} // verus!
