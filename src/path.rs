//! Path algebra: resolving a path against a working directory.
//!
//! A path is a byte string. It is read as an optional drive prefix (Windows
//! only), an optional root separator, and a list of segments between
//! separators. Empty segments and `.` are dropped while reading. Resolution
//! then walks the segments left to right, letting `..` remove the segment
//! before it, and joins what is left with `/`.

use vstd::prelude::*;

verus! {

/// The path convention of a host.
#[derive(Debug, Clone, Copy, PartialEq, Eq, Structural)]
pub enum PathStyle {
    /// `/` separates segments; a leading `/` is the root.
    Posix,
    /// `/` and `\` separate segments; a path may begin with a drive such as `C:`.
    Windows,
}

/// How a `..` segment acts on the segments collected so far.
#[derive(Debug, Clone, Copy, PartialEq, Eq, Structural)]
pub enum ParentRule {
    /// `..` removes the last segment, if there is one.
    Pop,
    /// `..` removes the last segment; when nothing is left the root returns.
    PopToRoot,
}

pub open spec fn is_separator(style: PathStyle, b: u8) -> bool {
    b == 0x2f || (style == PathStyle::Windows && b == 0x5c)
}

pub open spec fn is_ascii_letter(b: u8) -> bool {
    (0x41 <= b && b <= 0x5a) || (0x61 <= b && b <= 0x7a)
}

/// A Windows path that begins with a drive letter and a colon.
pub open spec fn has_drive(style: PathStyle, s: Seq<u8>) -> bool {
    style == PathStyle::Windows && s.len() >= 2 && is_ascii_letter(s[0]) && s[1] == 0x3a
}

pub open spec fn prefix_len(style: PathStyle, s: Seq<u8>) -> int {
    if has_drive(style, s) {
        2
    } else {
        0
    }
}

/// A separator follows the drive prefix (or starts the path).
pub open spec fn has_root(style: PathStyle, s: Seq<u8>) -> bool {
    s.len() > prefix_len(style, s) && is_separator(style, s[prefix_len(style, s)])
}

/// The path starts at a root marker (after its drive, if any): the working
/// directory plays no part.
pub open spec fn is_anchored(style: PathStyle, s: Seq<u8>) -> bool {
    has_root(style, s)
}

/// The path is absolute under the host's convention.
pub open spec fn is_absolute(style: PathStyle, s: Seq<u8>) -> bool {
    match style {
        PathStyle::Posix => has_root(style, s),
        PathStyle::Windows => has_drive(style, s) && has_root(style, s),
    }
}

pub open spec fn root() -> Seq<u8> {
    seq![0x2fu8]
}

pub open spec fn dot() -> Seq<u8> {
    seq![0x2eu8]
}

pub open spec fn dot_dot() -> Seq<u8> {
    seq![0x2eu8, 0x2eu8]
}

/// The drive prefix and the root, as the first components of a path.
pub open spec fn head(style: PathStyle, s: Seq<u8>) -> Seq<Seq<u8>> {
    (if has_drive(style, s) {
        seq![s.subrange(0, 2)]
    } else {
        Seq::empty()
    }) + (if has_root(style, s) {
        seq![root()]
    } else {
        Seq::empty()
    })
}

/// What follows the drive prefix.
pub open spec fn body(style: PathStyle, s: Seq<u8>) -> Seq<u8> {
    s.subrange(prefix_len(style, s), s.len() as int)
}

/// Ends the segment being read: an empty segment or `.` is dropped.
pub open spec fn flush(done: Seq<Seq<u8>>, cur: Seq<u8>) -> Seq<Seq<u8>> {
    if cur.len() == 0 || cur == dot() {
        done
    } else {
        done.push(cur)
    }
}

/// The segments finished so far and the one being read, after reading `s`.
pub open spec fn scan(style: PathStyle, s: Seq<u8>) -> (Seq<Seq<u8>>, Seq<u8>)
    decreases s.len(),
{
    if s.len() == 0 {
        (Seq::empty(), Seq::empty())
    } else {
        let (done, cur) = scan(style, s.drop_last());
        if is_separator(style, s.last()) {
            (flush(done, cur), Seq::empty())
        } else {
            (done, cur.push(s.last()))
        }
    }
}

/// The non-empty segments of `s` other than `.`, in order.
pub open spec fn segments(style: PathStyle, s: Seq<u8>) -> Seq<Seq<u8>> {
    flush(scan(style, s).0, scan(style, s).1)
}

/// Drive prefix, root and segments of a path.
pub open spec fn components(style: PathStyle, s: Seq<u8>) -> Seq<Seq<u8>> {
    head(style, s) + segments(style, body(style, s))
}

/// One segment added to the collected components.
pub open spec fn step(acc: Seq<Seq<u8>>, c: Seq<u8>, rule: ParentRule) -> Seq<Seq<u8>> {
    if c != dot_dot() {
        acc.push(c)
    } else {
        let popped = if acc.len() > 0 {
            acc.drop_last()
        } else {
            acc
        };
        if rule == ParentRule::PopToRoot && popped.len() == 0 {
            seq![root()]
        } else {
            popped
        }
    }
}

/// The segments `cs` added one after another to `acc`.
pub open spec fn fold(acc: Seq<Seq<u8>>, cs: Seq<Seq<u8>>, rule: ParentRule) -> Seq<Seq<u8>>
    decreases cs.len(),
{
    if cs.len() == 0 {
        acc
    } else {
        step(fold(acc, cs.drop_last(), rule), cs.last(), rule)
    }
}

/// How `..` acts when resolving against `cwd`: it sticks at the root only
/// where `cwd` is absolute.
pub open spec fn rule_of(style: PathStyle, cwd: Seq<u8>) -> ParentRule {
    if is_absolute(style, cwd) {
        ParentRule::PopToRoot
    } else {
        ParentRule::Pop
    }
}

/// An anchored path starts from its own drive and root, and `..` never climbs
/// above the root. Any other path starts from `cwd`, itself resolved by the
/// rule of `cwd`; the path's own drive, if any, then follows, and then its
/// segments, by the same rule.
pub open spec fn resolved(style: PathStyle, path: Seq<u8>, cwd: Seq<u8>) -> Seq<Seq<u8>> {
    if is_anchored(style, path) {
        fold(head(style, path), segments(style, body(style, path)), ParentRule::PopToRoot)
    } else {
        fold(
            fold(head(style, cwd), segments(style, body(style, cwd)), rule_of(style, cwd)) + head(
                style,
                path,
            ),
            segments(style, body(style, path)),
            rule_of(style, cwd),
        )
    }
}

/// No `/` is written after the root or after a leading drive prefix.
pub open spec fn glued(style: PathStyle, cs: Seq<Seq<u8>>, k: int) -> bool {
    cs[k] == root() || (k == 0 && cs[0].len() == 2 && has_drive(style, cs[0]))
}

/// The components written out with `/` between them.
pub open spec fn join(style: PathStyle, cs: Seq<Seq<u8>>) -> Seq<u8>
    decreases cs.len(),
{
    if cs.len() == 0 {
        Seq::empty()
    } else if cs.len() == 1 {
        cs[0]
    } else if glued(style, cs, cs.len() - 2) {
        join(style, cs.drop_last()) + cs.last()
    } else {
        join(style, cs.drop_last()) + root() + cs.last()
    }
}

/// `path` resolved against `cwd`, with every `.` and `..` removed.
pub open spec fn resolve(style: PathStyle, path: Seq<u8>, cwd: Seq<u8>) -> Seq<u8> {
    join(style, resolved(style, path, cwd))
}

pub open spec fn views(v: Seq<Vec<u8>>) -> Seq<Seq<u8>> {
    v.map_values(|x: Vec<u8>| x@)
}

fn is_separator_byte(style: PathStyle, b: u8) -> (r: bool)
    ensures
        r == is_separator(style, b),
{
    match style {
        PathStyle::Posix => b == 0x2fu8,
        PathStyle::Windows => b == 0x2fu8 || b == 0x5cu8,
    }
}

fn drive_len(style: PathStyle, s: &[u8]) -> (n: usize)
    ensures
        n == prefix_len(style, s@),
{
    match style {
        PathStyle::Posix => 0,
        PathStyle::Windows => {
            if s.len() >= 2 && ((0x41u8 <= s[0] && s[0] <= 0x5au8) || (0x61u8 <= s[0] && s[0] <= 0x7au8))
                && s[1] == 0x3au8 {
                2
            } else {
                0
            }
        },
    }
}

fn root_follows(style: PathStyle, s: &[u8]) -> (r: bool)
    ensures
        r == has_root(style, s@),
{
    let n = drive_len(style, s);
    n < s.len() && is_separator_byte(style, s[n])
}

fn is_dot_dot(c: &Vec<u8>) -> (r: bool)
    ensures
        r == (c@ == dot_dot()),
{
    if c.len() == 2 && c[0] == 0x2eu8 && c[1] == 0x2eu8 {
        assert(c@ =~= dot_dot());
        true
    } else {
        false
    }
}

fn is_dot(c: &Vec<u8>) -> (r: bool)
    ensures
        r == (c@ == dot()),
{
    if c.len() == 1 && c[0] == 0x2eu8 {
        assert(c@ =~= dot());
        true
    } else {
        false
    }
}

fn root_component() -> (r: Vec<u8>)
    ensures
        r@ == root(),
{
    let mut r: Vec<u8> = Vec::new();
    r.push(0x2fu8);
    assert(r@ =~= root());
    r
}

fn apply_step(acc: &mut Vec<Vec<u8>>, c: Vec<u8>, rule: ParentRule)
    ensures
        views(final(acc)@) == step(views(old(acc)@), c@, rule),
{
    let parent = is_dot_dot(&c);
    if !parent {
        acc.push(c);
        assert(views(acc@) =~= views(old(acc)@).push(c@));
    } else {
        let ghost before = views(acc@);
        acc.pop();
        assert(views(acc@) =~= if before.len() > 0 {
            before.drop_last()
        } else {
            before
        });
        if rule == ParentRule::PopToRoot && acc.len() == 0 {
            acc.push(root_component());
            assert(views(acc@) =~= seq![root()]);
        }
    }
}

pub(crate) fn append_bytes(out: &mut Vec<u8>, b: &[u8])
    ensures
        final(out)@ == old(out)@ + b@,
{
    let mut i: usize = 0;
    while i < b.len()
        invariant
            i <= b@.len(),
            out@ == old(out)@ + b@.subrange(0, i as int),
        decreases b@.len() - i,
    {
        out.push(b[i]);
        i += 1;
        assert(out@ =~= old(out)@ + b@.subrange(0, i as int));
    }
    assert(b@.subrange(0, b@.len() as int) =~= b@);
}

/// Ends the segment `cur`: unless it is empty or `.`, it is added by `rule`.
fn flush_into(acc: &mut Vec<Vec<u8>>, cur: Vec<u8>, rule: ParentRule, Ghost(
    base,
): Ghost<Seq<Seq<u8>>>, Ghost(done): Ghost<Seq<Seq<u8>>>)
    requires
        views(old(acc)@) == fold(base, done, rule),
    ensures
        views(final(acc)@) == fold(base, flush(done, cur@), rule),
{
    if cur.len() == 0 || is_dot(&cur) {
    } else {
        assert(done.push(cur@).drop_last() =~= done);
        apply_step(acc, cur, rule);
    }
}

/// Adds the segments of `s` from `start` on, one by one by `rule`.
fn append_segments(
    style: PathStyle,
    s: &[u8],
    start: usize,
    acc: &mut Vec<Vec<u8>>,
    rule: ParentRule,
)
    requires
        start <= s@.len(),
    ensures
        views(final(acc)@) == fold(
            views(old(acc)@),
            segments(style, s@.subrange(start as int, s@.len() as int)),
            rule,
        ),
{
    let ghost base = views(acc@);
    let mut cur: Vec<u8> = Vec::new();
    let mut i: usize = start;
    assert(s@.subrange(start as int, i as int).len() == 0);
    while i < s.len()
        invariant
            start <= i <= s@.len(),
            views(acc@) == fold(base, scan(style, s@.subrange(start as int, i as int)).0, rule),
            cur@ == scan(style, s@.subrange(start as int, i as int)).1,
        decreases s@.len() - i,
    {
        let b = s[i];
        let ghost read = s@.subrange(start as int, i as int);
        assert(s@.subrange(start as int, i + 1 as int).drop_last() =~= read);
        if is_separator_byte(style, b) {
            flush_into(acc, cur, rule, Ghost(base), Ghost(scan(style, read).0));
            cur = Vec::new();
        } else {
            cur.push(b);
        }
        i += 1;
    }
    flush_into(acc, cur, rule, Ghost(base), Ghost(scan(style, s@.subrange(start as int, i as int)).0));
}

fn push_head(style: PathStyle, s: &[u8], acc: &mut Vec<Vec<u8>>)
    ensures
        views(final(acc)@) == views(old(acc)@) + head(style, s@),
{
    let n = drive_len(style, s);
    if n == 2 {
        let mut d: Vec<u8> = Vec::new();
        d.push(s[0]);
        d.push(s[1]);
        assert(d@ =~= s@.subrange(0, 2));
        acc.push(d);
    }
    assert(views(acc@) =~= views(old(acc)@) + (if has_drive(style, s@) {
        seq![s@.subrange(0, 2)]
    } else {
        Seq::<Seq<u8>>::empty()
    }));
    if root_follows(style, s) {
        acc.push(root_component());
    }
    assert(views(acc@) =~= views(old(acc)@) + head(style, s@));
}

fn glued_at(style: PathStyle, cs: &Vec<Vec<u8>>, k: usize) -> (r: bool)
    requires
        k < cs@.len(),
    ensures
        r == glued(style, views(cs@), k as int),
{
    let c = &cs[k];
    let is_root = c.len() == 1 && c[0] == 0x2fu8;
    if is_root {
        assert(c@ =~= root());
    }
    is_root || (k == 0 && c.len() == 2 && drive_len(PathStyle::Windows, c.as_slice()) == 2
        && style == PathStyle::Windows)
}

fn join_components(style: PathStyle, cs: &Vec<Vec<u8>>) -> (r: Vec<u8>)
    ensures
        r@ == join(style, views(cs@)),
{
    let ghost v = views(cs@);
    let mut out: Vec<u8> = Vec::new();
    let mut k: usize = 0;
    while k < cs.len()
        invariant
            k <= cs@.len(),
            v == views(cs@),
            out@ == join(style, v.subrange(0, k as int)),
        decreases cs@.len() - k,
    {
        let ghost t = v.subrange(0, k + 1 as int);
        assert(t.drop_last() =~= v.subrange(0, k as int));
        if k > 0 && !glued_at(style, cs, k - 1) {
            out.push(0x2fu8);
            assert(out@ =~= join(style, v.subrange(0, k as int)) + root());
        }
        append_bytes(&mut out, cs[k].as_slice());
        if k == 0 {
            assert(out@ =~= t[0]);
        }
        k += 1;
    }
    assert(v.subrange(0, cs@.len() as int) =~= v);
    out
}

/// Where `..` does not occur, `fold` appends the segments.
proof fn lemma_fold_appends(acc: Seq<Seq<u8>>, cs: Seq<Seq<u8>>, rule: ParentRule)
    requires
        forall|k: int| 0 <= k < cs.len() ==> #[trigger] cs[k] != dot_dot(),
    ensures
        fold(acc, cs, rule) == acc + cs,
    decreases cs.len(),
{
    if cs.len() > 0 {
        lemma_fold_appends(acc, cs.drop_last(), rule);
        assert(acc + cs =~= (acc + cs.drop_last()).push(cs.last()));
    }
}

/// Resolves `path` against the working directory `cwd`.
///
/// A `path` that starts at a root marker ignores `cwd`. `.` segments are dropped and `..`
/// removes the segment before it; above an absolute root it does nothing,
/// above a relative start it leaves nothing. The result uses `/` alone.
pub fn absolutize_relative_to(path: &[u8], cwd: &[u8], style: PathStyle) -> (r: Vec<u8>)
    ensures
        r@ == resolve(style, path@, cwd@),
{
    let mut acc: Vec<Vec<u8>> = Vec::new();
    assert(views(acc@) =~= Seq::<Seq<u8>>::empty());
    let n = drive_len(style, path);
    if root_follows(style, path) {
        push_head(style, path, &mut acc);
        assert(Seq::<Seq<u8>>::empty() + head(style, path@) =~= head(style, path@));
        append_segments(style, path, n, &mut acc, ParentRule::PopToRoot);
    } else {
        let m = drive_len(style, cwd);
        let rule = if root_follows(style, cwd) && (style == PathStyle::Posix || m == 2) {
            ParentRule::PopToRoot
        } else {
            ParentRule::Pop
        };
        push_head(style, cwd, &mut acc);
        assert(Seq::<Seq<u8>>::empty() + head(style, cwd@) =~= head(style, cwd@));
        append_segments(style, cwd, m, &mut acc, rule);
        push_head(style, path, &mut acc);
        append_segments(style, path, n, &mut acc, rule);
    }
    join_components(style, &acc)
}

/// A segment as reading leaves it: not empty, and free of separators.
pub open spec fn is_clean(style: PathStyle, c: Seq<u8>) -> bool {
    c.len() > 0 && forall|i: int| 0 <= i < c.len() ==> !is_separator(style, #[trigger] c[i])
}

/// A segment that names a directory entry: clean, and neither `.` nor `..`.
pub open spec fn is_plain(style: PathStyle, c: Seq<u8>) -> bool {
    is_clean(style, c) && c != dot() && c != dot_dot()
}

proof fn lemma_scan_clean(style: PathStyle, s: Seq<u8>)
    ensures
        forall|k: int|
            0 <= k < scan(style, s).0.len() ==> is_clean(style, #[trigger] scan(style, s).0[k])
                && scan(style, s).0[k] != dot(),
        forall|i: int|
            0 <= i < scan(style, s).1.len() ==> !is_separator(style, #[trigger] scan(style, s).1[i]),
    decreases s.len(),
{
    if s.len() > 0 {
        lemma_scan_clean(style, s.drop_last());
        let (done, cur) = scan(style, s.drop_last());
        if is_separator(style, s.last()) {
            if !(cur.len() == 0 || cur == dot()) {
                let d = done.push(cur);
                assert forall|k: int| 0 <= k < d.len() implies is_clean(style, #[trigger] d[k])
                    && d[k] != dot() by {
                    if k < done.len() {
                        assert(d[k] == done[k]);
                    }
                }
            }
        } else {
            let c = cur.push(s.last());
            assert forall|i: int| 0 <= i < c.len() implies !is_separator(style, #[trigger] c[i]) by {
                if i < cur.len() {
                    assert(c[i] == cur[i]);
                }
            }
        }
    }
}

proof fn lemma_segments_clean(style: PathStyle, s: Seq<u8>)
    ensures
        forall|k: int|
            0 <= k < segments(style, s).len() ==> is_clean(style, #[trigger] segments(style, s)[k])
                && segments(style, s)[k] != dot(),
{
    lemma_scan_clean(style, s);
}

/// From a base of clean segments, `Pop` keeps every component clean.
proof fn lemma_fold_pop_clean(style: PathStyle, acc: Seq<Seq<u8>>, cs: Seq<Seq<u8>>)
    requires
        forall|k: int| 0 <= k < acc.len() ==> is_clean(style, #[trigger] acc[k]),
        forall|k: int| 0 <= k < cs.len() ==> is_clean(style, #[trigger] cs[k]),
    ensures
        forall|k: int|
            0 <= k < fold(acc, cs, ParentRule::Pop).len() ==> is_clean(
                style,
                #[trigger] fold(acc, cs, ParentRule::Pop)[k],
            ),
    decreases cs.len(),
{
    if cs.len() > 0 {
        lemma_fold_pop_clean(style, acc, cs.drop_last());
        let prev = fold(acc, cs.drop_last(), ParentRule::Pop);
        assert(forall|k: int| 0 <= k < prev.len() - 1 ==> prev.drop_last()[k] == prev[k]);
    }
}

/// `PopToRoot` keeps the root in front of the collected components.
proof fn lemma_fold_keeps_root(acc: Seq<Seq<u8>>, cs: Seq<Seq<u8>>)
    requires
        acc.len() > 0,
        acc[0] == root(),
    ensures
        fold(acc, cs, ParentRule::PopToRoot).len() > 0,
        fold(acc, cs, ParentRule::PopToRoot)[0] == root(),
    decreases cs.len(),
{
    if cs.len() > 0 {
        lemma_fold_keeps_root(acc, cs.drop_last());
    }
}

/// The written form of components begins with the first of them.
proof fn lemma_join_starts_with_first(style: PathStyle, cs: Seq<Seq<u8>>)
    requires
        cs.len() > 0,
    ensures
        join(style, cs).len() >= cs[0].len(),
        join(style, cs).subrange(0, cs[0].len() as int) == cs[0],
    decreases cs.len(),
{
    if cs.len() == 1 {
        assert(cs[0].subrange(0, cs[0].len() as int) =~= cs[0]);
    } else {
        let rest = cs.drop_last();
        lemma_join_starts_with_first(style, rest);
        let j = join(style, rest);
        let n = cs[0].len() as int;
        if glued(style, cs, cs.len() - 2) {
            assert((j + cs.last()).subrange(0, n) =~= j.subrange(0, n));
        } else {
            assert((j + root() + cs.last()).subrange(0, n) =~= j.subrange(0, n));
        }
    }
}

/// The working directory plays no part in resolving an anchored path: two
/// working directories give the same result.
pub proof fn lemma_anchored_ignores_cwd(
    style: PathStyle,
    path: Seq<u8>,
    cwd1: Seq<u8>,
    cwd2: Seq<u8>,
)
    requires
        is_anchored(style, path),
    ensures
        resolve(style, path, cwd1) == resolve(style, path, cwd2),
{
}

/// The root is sticky: a path that starts at the root resolves to a path that
/// starts at the root, however many `..` it holds, whatever the working
/// directory.
pub proof fn lemma_root_is_sticky(style: PathStyle, path: Seq<u8>, cwd: Seq<u8>)
    requires
        has_root(style, path),
        !has_drive(style, path),
    ensures
        resolve(style, path, cwd).len() > 0,
        resolve(style, path, cwd)[0] == 0x2fu8,
{
    let h = head(style, path);
    assert(h =~= seq![root()]);
    let cs = resolved(style, path, cwd);
    lemma_fold_keeps_root(h, segments(style, body(style, path)));
    lemma_join_starts_with_first(style, cs);
    assert(join(style, cs)[0] == join(style, cs).subrange(0, 1)[0]);
}

proof fn lemma_head_clean(style: PathStyle, s: Seq<u8>)
    requires
        !has_root(style, s),
    ensures
        forall|k: int| 0 <= k < head(style, s).len() ==> is_clean(style, #[trigger] head(style, s)[k]),
{
    if has_drive(style, s) {
        let d = s.subrange(0, 2);
        assert(head(style, s) =~= seq![d]);
        assert(d[0] == s[0] && d[1] == s[1]);
        assert(is_clean(style, d));
    } else {
        assert(head(style, s) =~= Seq::<Seq<u8>>::empty());
    }
}

/// A path against a working directory, neither with a root marker, stays
/// relative: `..` beyond the start leaves the result empty and never brings
/// in a root.
pub proof fn lemma_relative_stays_relative(style: PathStyle, path: Seq<u8>, cwd: Seq<u8>)
    requires
        !has_root(style, path),
        !has_root(style, cwd),
    ensures
        resolve(style, path, cwd).len() == 0 || !is_separator(
            style,
            resolve(style, path, cwd)[0],
        ),
{
    lemma_head_clean(style, cwd);
    lemma_head_clean(style, path);
    lemma_segments_clean(style, body(style, cwd));
    lemma_segments_clean(style, body(style, path));
    let a = fold(head(style, cwd), segments(style, body(style, cwd)), ParentRule::Pop);
    lemma_fold_pop_clean(style, head(style, cwd), segments(style, body(style, cwd)));
    let b = a + head(style, path);
    assert forall|k: int| 0 <= k < b.len() implies is_clean(style, #[trigger] b[k]) by {
        if k < a.len() {
            assert(b[k] == a[k]);
        } else {
            assert(b[k] == head(style, path)[k - a.len()]);
        }
    }
    lemma_fold_pop_clean(style, b, segments(style, body(style, path)));
    let cs = resolved(style, path, cwd);
    if cs.len() > 0 {
        lemma_join_starts_with_first(style, cs);
        assert(join(style, cs)[0] == join(style, cs).subrange(0, cs[0].len() as int)[0]);
        assert(is_clean(style, cs[0]));
        assert(!is_separator(style, cs[0][0]));
    }
}


proof fn lemma_scan_append_clean(style: PathStyle, x: Seq<u8>, c: Seq<u8>)
    requires
        forall|i: int| 0 <= i < c.len() ==> !is_separator(style, #[trigger] c[i]),
    ensures
        scan(style, x + c) == (scan(style, x).0, scan(style, x).1 + c),
    decreases c.len(),
{
    if c.len() == 0 {
        assert(x + c =~= x);
        assert(scan(style, x).1 + c =~= scan(style, x).1);
    } else {
        lemma_scan_append_clean(style, x, c.drop_last());
        assert((x + c).drop_last() =~= x + c.drop_last());
        assert((scan(style, x).1 + c.drop_last()).push(c.last()) =~= scan(style, x).1 + c);
    }
}

proof fn lemma_scan_append_separator(style: PathStyle, x: Seq<u8>)
    ensures
        scan(style, x + root()) == (flush(scan(style, x).0, scan(style, x).1), Seq::<u8>::empty()),
{
    assert((x + root()).drop_last() =~= x);
}

/// Reading the written form of the root and plain segments: all segments
/// but the last are finished, the last is being read.
proof fn lemma_scan_join(style: PathStyle, segs: Seq<Seq<u8>>)
    requires
        segs.len() > 0,
        forall|k: int| 0 <= k < segs.len() ==> is_plain(style, #[trigger] segs[k]),
    ensures
        scan(style, join(style, seq![root()] + segs)) == (segs.drop_last(), segs.last()),
    decreases segs.len(),
{
    let cs = seq![root()] + segs;
    assert(is_separator(style, root()[0]));
    assert(!is_clean(style, root()));
    lemma_scan_append_separator(style, Seq::empty());
    assert(Seq::<u8>::empty() + root() =~= root());
    if segs.len() == 1 {
        assert(cs.drop_last() =~= seq![root()]);
        assert(glued(style, cs, 0));
        assert(join(style, seq![root()]) == root());
        assert(cs.last() == segs[0]);
        assert(join(style, cs) == root() + segs[0]);
        lemma_scan_append_clean(style, root(), segs[0]);
        assert(Seq::<u8>::empty() + segs[0] =~= segs[0]);
        assert(segs.drop_last() =~= Seq::<Seq<u8>>::empty());
    } else {
        let rest = segs.drop_last();
        lemma_scan_join(style, rest);
        assert(cs.drop_last() =~= seq![root()] + rest);
        assert(cs[cs.len() - 2] == segs[segs.len() - 2]);
        assert(is_plain(style, segs[segs.len() - 2]));
        assert(!glued(style, cs, cs.len() - 2));
        let j = join(style, seq![root()] + rest);
        assert(join(style, cs) == j + root() + segs.last());
        lemma_scan_append_separator(style, j);
        assert(is_plain(style, rest.last()));
        assert(rest.drop_last().push(rest.last()) =~= rest);
        lemma_scan_append_clean(style, j + root(), segs.last());
        assert(Seq::<u8>::empty() + segs.last() =~= segs.last());
    }
}

/// Reading back the written form of the root and plain segments gives the
/// segments.
proof fn lemma_segments_of_join(style: PathStyle, segs: Seq<Seq<u8>>)
    requires
        forall|k: int| 0 <= k < segs.len() ==> is_plain(style, #[trigger] segs[k]),
    ensures
        segments(style, join(style, seq![root()] + segs)) == segs,
{
    if segs.len() == 0 {
        assert(seq![root()] + segs =~= seq![root()]);
        lemma_scan_append_separator(style, Seq::empty());
        assert(Seq::<u8>::empty() + root() =~= root());
    } else {
        lemma_scan_join(style, segs);
        assert(segs.drop_last().push(segs.last()) =~= segs);
    }
}

/// Under `PopToRoot`, a root followed by plain segments keeps that shape.
proof fn lemma_fold_root_plain(style: PathStyle, acc: Seq<Seq<u8>>, cs: Seq<Seq<u8>>)
    requires
        acc.len() > 0,
        acc[0] == root(),
        forall|k: int| 1 <= k < acc.len() ==> is_plain(style, #[trigger] acc[k]),
        forall|k: int| 0 <= k < cs.len() ==> is_clean(style, #[trigger] cs[k]) && cs[k] != dot(),
    ensures
        fold(acc, cs, ParentRule::PopToRoot).len() > 0,
        fold(acc, cs, ParentRule::PopToRoot)[0] == root(),
        forall|k: int|
            1 <= k < fold(acc, cs, ParentRule::PopToRoot).len() ==> is_plain(
                style,
                #[trigger] fold(acc, cs, ParentRule::PopToRoot)[k],
            ),
    decreases cs.len(),
{
    if cs.len() > 0 {
        lemma_fold_root_plain(style, acc, cs.drop_last());
        let prev = fold(acc, cs.drop_last(), ParentRule::PopToRoot);
        let c = cs.last();
        if c != dot_dot() {
            let next = prev.push(c);
            assert forall|k: int| 1 <= k < next.len() implies is_plain(style, #[trigger] next[k]) by {
                if k < prev.len() {
                    assert(next[k] == prev[k]);
                }
            }
        } else {
            let popped = prev.drop_last();
            assert forall|k: int| 1 <= k < popped.len() implies is_plain(
                style,
                #[trigger] popped[k],
            ) by {
                assert(popped[k] == prev[k]);
            }
        }
    }
}

/// A root followed by plain segments, written out, resolves to itself.
proof fn lemma_rooted_plain_fixed(style: PathStyle, cs: Seq<Seq<u8>>, cwd2: Seq<u8>)
    requires
        cs.len() > 0,
        cs[0] == root(),
        forall|k: int| 1 <= k < cs.len() ==> is_plain(style, #[trigger] cs[k]),
    ensures
        resolve(style, join(style, cs), cwd2) == join(style, cs),
{
    let segs = cs.subrange(1, cs.len() as int);
    assert(cs =~= seq![root()] + segs);
    assert forall|k: int| 0 <= k < segs.len() implies is_plain(style, #[trigger] segs[k]) by {
        assert(segs[k] == cs[k + 1]);
    }
    let r = join(style, cs);
    lemma_join_starts_with_first(style, cs);
    assert(r[0] == r.subrange(0, 1)[0]);
    assert(!has_drive(style, r));
    assert(has_root(style, r));
    assert(head(style, r) =~= seq![root()]);
    assert(body(style, r) =~= r);
    lemma_segments_of_join(style, segs);
    assert forall|k: int| 0 <= k < segs.len() implies #[trigger] segs[k] != dot_dot() by {
        assert(is_plain(style, segs[k]));
    }
    lemma_fold_appends(seq![root()], segs, ParentRule::PopToRoot);
}

/// Resolution is idempotent: where the result starts at the root (a path
/// from the root, or a relative POSIX path against a working directory from
/// the root), resolving the result again, against any working directory,
/// gives it back.
pub proof fn lemma_resolve_idempotent(style: PathStyle, path: Seq<u8>, cwd: Seq<u8>, cwd2: Seq<u8>)
    requires
        (has_root(style, path) && !has_drive(style, path)) || (style == PathStyle::Posix
            && has_root(style, cwd)),
    ensures
        resolve(style, resolve(style, path, cwd), cwd2) == resolve(style, path, cwd),
{
    let cs = resolved(style, path, cwd);
    lemma_segments_clean(style, body(style, path));
    if has_root(style, path) && !has_drive(style, path) {
        let h = head(style, path);
        assert(h =~= seq![root()]);
        lemma_fold_root_plain(style, h, segments(style, body(style, path)));
    } else {
        lemma_segments_clean(style, body(style, cwd));
        let hc = head(style, cwd);
        assert(hc =~= seq![root()]);
        let a = fold(hc, segments(style, body(style, cwd)), ParentRule::PopToRoot);
        lemma_fold_root_plain(style, hc, segments(style, body(style, cwd)));
        assert(head(style, path) =~= Seq::<Seq<u8>>::empty());
        assert(a + head(style, path) =~= a);
        lemma_fold_root_plain(style, a, segments(style, body(style, path)));
    }
    lemma_rooted_plain_fixed(style, cs, cwd2);
}

/// Under `Pop`, plain segments stay plain.
proof fn lemma_fold_pop_plain(style: PathStyle, acc: Seq<Seq<u8>>, cs: Seq<Seq<u8>>)
    requires
        forall|k: int| 0 <= k < acc.len() ==> is_plain(style, #[trigger] acc[k]),
        forall|k: int| 0 <= k < cs.len() ==> is_clean(style, #[trigger] cs[k]) && cs[k] != dot(),
    ensures
        forall|k: int|
            0 <= k < fold(acc, cs, ParentRule::Pop).len() ==> is_plain(
                style,
                #[trigger] fold(acc, cs, ParentRule::Pop)[k],
            ),
    decreases cs.len(),
{
    if cs.len() > 0 {
        lemma_fold_pop_plain(style, acc, cs.drop_last());
        let prev = fold(acc, cs.drop_last(), ParentRule::Pop);
        assert(forall|k: int| 0 <= k < prev.len() - 1 ==> prev.drop_last()[k] == prev[k]);
    }
}

/// Reading the written form of plain POSIX segments: all but the last are
/// finished, the last is being read.
proof fn lemma_scan_join_relative(segs: Seq<Seq<u8>>)
    requires
        segs.len() > 0,
        forall|k: int| 0 <= k < segs.len() ==> is_plain(PathStyle::Posix, #[trigger] segs[k]),
    ensures
        scan(PathStyle::Posix, join(PathStyle::Posix, segs)) == (segs.drop_last(), segs.last()),
    decreases segs.len(),
{
    let style = PathStyle::Posix;
    if segs.len() == 1 {
        assert(Seq::<u8>::empty() + segs[0] =~= segs[0]);
        lemma_scan_append_clean(style, Seq::empty(), segs[0]);
        assert(segs.drop_last() =~= Seq::<Seq<u8>>::empty());
    } else {
        let rest = segs.drop_last();
        lemma_scan_join_relative(rest);
        assert(is_plain(style, segs[segs.len() - 2]));
        assert(is_separator(style, root()[0]));
        assert(!glued(style, segs, segs.len() - 2));
        let j = join(style, rest);
        lemma_scan_append_separator(style, j);
        assert(is_plain(style, rest.last()));
        assert(rest.drop_last().push(rest.last()) =~= rest);
        lemma_scan_append_clean(style, j + root(), segs.last());
        assert(Seq::<u8>::empty() + segs.last() =~= segs.last());
    }
}

/// Resolution is idempotent on relative results: a POSIX path against a
/// working directory, neither from the root, resolves to a path that
/// resolves to itself against the empty working directory.
pub proof fn lemma_resolve_idempotent_relative(path: Seq<u8>, cwd: Seq<u8>)
    requires
        !has_root(PathStyle::Posix, path),
        !has_root(PathStyle::Posix, cwd),
    ensures
        resolve(PathStyle::Posix, resolve(PathStyle::Posix, path, cwd), Seq::empty())
            == resolve(PathStyle::Posix, path, cwd),
{
    let style = PathStyle::Posix;
    assert(head(style, cwd) =~= Seq::<Seq<u8>>::empty());
    assert(head(style, path) =~= Seq::<Seq<u8>>::empty());
    lemma_segments_clean(style, body(style, cwd));
    lemma_segments_clean(style, body(style, path));
    let a = fold(Seq::empty(), segments(style, body(style, cwd)), ParentRule::Pop);
    lemma_fold_pop_plain(style, Seq::empty(), segments(style, body(style, cwd)));
    assert(a + head(style, path) =~= a);
    lemma_fold_pop_plain(style, a, segments(style, body(style, path)));
    let cs = resolved(style, path, cwd);
    let r = join(style, cs);
    let e = Seq::<u8>::empty();
    assert(head(style, e) =~= Seq::<Seq<u8>>::empty());
    assert(body(style, e) =~= e);
    assert(segments(style, e) =~= Seq::<Seq<u8>>::empty());
    assert(body(style, r) =~= r);
    if cs.len() == 0 {
        assert(r =~= e);
        assert(Seq::<Seq<u8>>::empty() + head(style, r) =~= Seq::<Seq<u8>>::empty());
    } else {
        lemma_join_starts_with_first(style, cs);
        assert(r[0] == r.subrange(0, cs[0].len() as int)[0]);
        assert(is_plain(style, cs[0]));
        assert(!has_root(style, r));
        assert(Seq::<Seq<u8>>::empty() + head(style, r) =~= Seq::<Seq<u8>>::empty());
        lemma_scan_join_relative(cs);
        assert(cs.drop_last().push(cs.last()) =~= cs);
        assert(segments(style, r) == cs);
        assert forall|k: int| 0 <= k < cs.len() implies #[trigger] cs[k] != dot_dot() by {
            assert(is_plain(style, cs[k]));
        }
        lemma_fold_appends(Seq::empty(), cs, ParentRule::Pop);
        assert(Seq::<Seq<u8>>::empty() + cs =~= cs);
    }
}

/// Every separator in `s` is `/`.
pub open spec fn slash_only(style: PathStyle, s: Seq<u8>) -> bool {
    forall|i: int| 0 <= i < s.len() && is_separator(style, #[trigger] s[i]) ==> s[i] == 0x2fu8
}

proof fn lemma_fold_slash_only(
    style: PathStyle,
    acc: Seq<Seq<u8>>,
    cs: Seq<Seq<u8>>,
    rule: ParentRule,
)
    requires
        forall|k: int| 0 <= k < acc.len() ==> slash_only(style, #[trigger] acc[k]),
        forall|k: int| 0 <= k < cs.len() ==> slash_only(style, #[trigger] cs[k]),
    ensures
        forall|k: int|
            0 <= k < fold(acc, cs, rule).len() ==> slash_only(style, #[trigger] fold(acc, cs, rule)[k]),
    decreases cs.len(),
{
    assert(slash_only(style, root()));
    if cs.len() > 0 {
        lemma_fold_slash_only(style, acc, cs.drop_last(), rule);
        let prev = fold(acc, cs.drop_last(), rule);
        assert(forall|k: int| 0 <= k < prev.len() - 1 ==> prev.drop_last()[k] == prev[k]);
    }
}

proof fn lemma_head_slash_only(style: PathStyle, s: Seq<u8>)
    ensures
        forall|k: int| 0 <= k < head(style, s).len() ==> slash_only(style, #[trigger] head(style, s)[k]),
{
    assert(slash_only(style, root()));
    if has_drive(style, s) {
        let d = s.subrange(0, 2);
        assert(d[0] == s[0] && d[1] == s[1]);
        assert(slash_only(style, d));
    }
    let a = if has_drive(style, s) {
        seq![s.subrange(0, 2)]
    } else {
        Seq::<Seq<u8>>::empty()
    };
    let b = if has_root(style, s) {
        seq![root()]
    } else {
        Seq::<Seq<u8>>::empty()
    };
    assert forall|k: int| 0 <= k < (a + b).len() implies slash_only(style, #[trigger] (a + b)[k]) by {
        if k < a.len() {
            assert((a + b)[k] == a[k]);
        } else {
            assert((a + b)[k] == b[k - a.len()]);
        }
    }
}

proof fn lemma_segments_slash_only(style: PathStyle, s: Seq<u8>)
    ensures
        forall|k: int|
            0 <= k < segments(style, s).len() ==> slash_only(style, #[trigger] segments(style, s)[k]),
{
    lemma_segments_clean(style, s);
    assert forall|k: int| 0 <= k < segments(style, s).len() implies slash_only(
        style,
        #[trigger] segments(style, s)[k],
    ) by {
        assert(is_clean(style, segments(style, s)[k]));
    }
}

proof fn lemma_join_slash_only(style: PathStyle, cs: Seq<Seq<u8>>)
    requires
        forall|k: int| 0 <= k < cs.len() ==> slash_only(style, #[trigger] cs[k]),
    ensures
        slash_only(style, join(style, cs)),
    decreases cs.len(),
{
    if cs.len() > 1 {
        lemma_join_slash_only(style, cs.drop_last());
        let j = join(style, cs.drop_last());
        let c = cs.last();
        assert(slash_only(style, c));
        let x = if glued(style, cs, cs.len() - 2) {
            j + c
        } else {
            j + root() + c
        };
        assert(x == join(style, cs));
        assert forall|i: int| 0 <= i < x.len() && is_separator(style, #[trigger] x[i]) implies x[i]
            == 0x2fu8 by {
            if i < j.len() {
                assert(x[i] == j[i]);
            } else if glued(style, cs, cs.len() - 2) {
                assert(x[i] == c[i - j.len()]);
            } else if i == j.len() {
                assert(x[i] == 0x2fu8);
            } else {
                assert(x[i] == c[i - j.len() - 1]);
            }
        }
    }
}

/// A resolved path writes every separator as `/`.
pub proof fn lemma_resolve_slash_only(style: PathStyle, path: Seq<u8>, cwd: Seq<u8>)
    ensures
        slash_only(style, resolve(style, path, cwd)),
{
    lemma_head_slash_only(style, path);
    lemma_head_slash_only(style, cwd);
    lemma_segments_slash_only(style, body(style, path));
    lemma_segments_slash_only(style, body(style, cwd));
    let rule = rule_of(style, cwd);
    if is_anchored(style, path) {
        lemma_fold_slash_only(
            style,
            head(style, path),
            segments(style, body(style, path)),
            ParentRule::PopToRoot,
        );
    } else {
        let a = fold(head(style, cwd), segments(style, body(style, cwd)), rule);
        lemma_fold_slash_only(style, head(style, cwd), segments(style, body(style, cwd)), rule);
        let b = a + head(style, path);
        assert forall|k: int| 0 <= k < b.len() implies slash_only(style, #[trigger] b[k]) by {
            if k < a.len() {
                assert(b[k] == a[k]);
            } else {
                assert(b[k] == head(style, path)[k - a.len()]);
            }
        }
        lemma_fold_slash_only(style, b, segments(style, body(style, path)), rule);
    }
    lemma_join_slash_only(style, resolved(style, path, cwd));
}

} // verus!
