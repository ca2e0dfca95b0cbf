//! Relative-path string logic: final segment, stem, note extension,
//! directory pruning, and the default vault name.
//!
//! Paths are plain strings relative to the vault root, with `/` as the
//! separator. The final segment is the file name; its stem is the name
//! up to the last `.` that does not begin the name.

use vstd::prelude::*;
use crate::text::run_end;

verus! {

// ---------------------------------------------------------------------------
// Final segment
// ---------------------------------------------------------------------------

/// Start of the segment that ends at `j`: the position after the last `/`
/// before `j`, or `0`.
pub open spec fn seg_start(p: Seq<char>, j: int) -> int
    recommends
        0 <= j <= p.len(),
    decreases j,
{
    if j <= 0 {
        0
    } else if p[j - 1] == '/' {
        j
    } else {
        seg_start(p, j - 1)
    }
}

pub proof fn lemma_seg_start(p: Seq<char>, j: int)
    requires
        0 <= j <= p.len(),
    ensures
        0 <= seg_start(p, j) <= j,
        forall|k: int| seg_start(p, j) <= k < j ==> p[k] != '/',
        seg_start(p, j) > 0 ==> p[seg_start(p, j) - 1] == '/',
    decreases j,
{
    if j > 0 && p[j - 1] != '/' {
        lemma_seg_start(p, j - 1);
    }
}

pub proof fn lemma_seg_start_is(p: Seq<char>, j: int, a: int)
    requires
        0 <= a <= j <= p.len(),
        forall|k: int| a <= k < j ==> p[k] != '/',
        a > 0 ==> p[a - 1] == '/',
    ensures
        seg_start(p, j) == a,
    decreases j - a,
{
    if a < j {
        lemma_seg_start_is(p, j - 1, a);
    }
}

/// The final segment of `p`: everything after the last `/`.
pub open spec fn file_name_of(p: Seq<char>) -> Seq<char> {
    p.subrange(seg_start(p, p.len() as int), p.len() as int)
}

/// Start position of the final segment of `p`.
pub fn file_name_start(p: &str) -> (r: usize)
    ensures
        r as int == seg_start(p@, p@.len() as int),
{
    let n = p.unicode_len();
    let mut a = n;
    while a > 0 && p.get_char(a - 1) != '/'
        invariant
            0 <= a <= n,
            n == p@.len(),
            forall|k: int| a <= k < n ==> p@[k] != '/',
        decreases a,
    {
        a = a - 1;
    }
    proof {
        lemma_seg_start_is(p@, n as int, a as int);
    }
    a
}

// ---------------------------------------------------------------------------
// Stem and extension
// ---------------------------------------------------------------------------

/// Position of the last `.` in `name` at an index of one or more, or `0`
/// if there is none: the end of the stem.
pub open spec fn stem_end(name: Seq<char>, j: int) -> int
    recommends
        0 <= j <= name.len(),
    decreases j,
{
    if j <= 1 {
        0
    } else if name[j - 1] == '.' {
        j - 1
    } else {
        stem_end(name, j - 1)
    }
}

pub proof fn lemma_stem_end(name: Seq<char>, j: int)
    requires
        0 <= j <= name.len(),
    ensures
        0 <= stem_end(name, j) <= j,
        stem_end(name, j) > 0 ==> name[stem_end(name, j)] == '.',
        forall|k: int| stem_end(name, j) < k < j && k >= 1 ==> name[k] != '.',
        stem_end(name, j) == 0 ==> forall|k: int| 1 <= k < j ==> name[k] != '.',
    decreases j,
{
    if j > 1 && name[j - 1] != '.' {
        lemma_stem_end(name, j - 1);
    }
}

pub proof fn lemma_stem_end_is(name: Seq<char>, j: int, e: int)
    requires
        0 <= j <= name.len(),
        e == 0 || (1 <= e < j && name[e] == '.'),
        forall|k: int| e < k < j && k >= 1 ==> name[k] != '.',
    ensures
        stem_end(name, j) == e,
    decreases j,
{
    if j > 1 && name[j - 1] != '.' {
        lemma_stem_end_is(name, j - 1, e);
    }
}

/// The file name up to its last `.` not at the start, or the whole name
/// if there is no such `.`.
pub open spec fn stem_of(name: Seq<char>) -> Seq<char> {
    let e = stem_end(name, name.len() as int);
    if e == 0 {
        name
    } else {
        name.subrange(0, e)
    }
}

/// End position of the stem of `name`, or `0` when the whole name is the stem.
pub fn stem_split(name: &str) -> (r: usize)
    ensures
        r as int == stem_end(name@, name@.len() as int),
{
    let n = name.unicode_len();
    let mut j = n;
    while j > 1 && name.get_char(j - 1) != '.'
        invariant
            (j == n || j >= 1),
            j <= n,
            n == name@.len(),
            forall|k: int| j <= k < n && k >= 1 ==> name@[k] != '.',
        decreases j,
    {
        j = j - 1;
    }
    if j <= 1 {
        proof {
            lemma_stem_end_is(name@, n as int, 0);
        }
        0
    } else {
        proof {
            lemma_stem_end_is(name@, n as int, j - 1);
        }
        j - 1
    }
}

/// Whether `s` ends in the literal characters `.md`.
pub open spec fn has_md_suffix(s: Seq<char>) -> bool {
    s.len() >= 3 && s[s.len() - 3] == '.' && s[s.len() - 2] == 'm' && s[s.len() - 1] == 'd'
}

/// Decides `has_md_suffix`.
pub fn ends_with_md(s: &str) -> (r: bool)
    ensures
        r == has_md_suffix(s@),
{
    let n = s.unicode_len();
    n >= 3 && s.get_char(n - 3) == '.' && s.get_char(n - 2) == 'm' && s.get_char(n - 1) == 'd'
}

/// Whether the final segment of `p` has extension `md`: it ends in `.md`
/// and the `.` does not begin the segment.
pub open spec fn is_md_file(p: Seq<char>) -> bool {
    let name = file_name_of(p);
    let e = stem_end(name, name.len() as int);
    e > 0 && name.len() == e + 3 && name[e + 1] == 'm' && name[e + 2] == 'd'
}

/// Decides `is_md_file`.
pub fn check_md_file(p: &str) -> (r: bool)
    ensures
        r == is_md_file(p@),
{
    let ns = file_name_start(p);
    let n = p.unicode_len();
    proof {
        lemma_seg_start(p@, n as int);
    }
    let name = p.substring_char(ns, n);
    let e = stem_split(name);
    let m = name.unicode_len();
    proof {
        lemma_stem_end(name@, m as int);
    }
    e > 0 && m >= 3 && e == m - 3 && name.get_char(e + 1) == 'm' && name.get_char(e + 2) == 'd'
}

// ---------------------------------------------------------------------------
// Directory pruning
// ---------------------------------------------------------------------------

/// Whether a directory with this name is pruned from a vault walk:
/// its name begins with `.`, or it is `node_modules`.
pub open spec fn is_pruned_dir(seg: Seq<char>) -> bool {
    (seg.len() > 0 && seg[0] == '.') || seg == seq![
        'n',
        'o',
        'd',
        'e',
        '_',
        'm',
        'o',
        'd',
        'u',
        'l',
        'e',
        's',
    ]
}

/// Decides `is_pruned_dir` for the segment `s[lo..hi]`.
fn check_pruned_dir(s: &str, lo: usize, hi: usize) -> (r: bool)
    requires
        lo <= hi <= s@.len(),
    ensures
        r == is_pruned_dir(s@.subrange(lo as int, hi as int)),
{
    let seg = s.substring_char(lo, hi);
    let m = seg.unicode_len();
    if m > 0 && seg.get_char(0) == '.' {
        return true;
    }
    proof {
        reveal_strlit("node_modules");
    }
    let nm: &str = "node_modules";
    if m != nm.unicode_len() {
        proof {
            assert(seg@ != seq!['n', 'o', 'd', 'e', '_', 'm', 'o', 'd', 'u', 'l', 'e', 's']);
        }
        return false;
    }
    let mut k: usize = 0;
    while k < m
        invariant
            0 <= k <= m,
            m == seg@.len(),
            seg@ == s@.subrange(lo as int, hi as int),
            nm@ == seq!['n', 'o', 'd', 'e', '_', 'm', 'o', 'd', 'u', 'l', 'e', 's'],
            m == nm@.len(),
            !(m > 0 && seg@[0] == '.'),
            forall|t: int| 0 <= t < k ==> seg@[t] == nm@[t],
        decreases m - k,
    {
        proof {
            reveal_strlit("node_modules");
        }
        if seg.get_char(k) != nm.get_char(k) {
            proof {
                assert(seg@ != nm@);
            }
            return false;
        }
        k = k + 1;
    }
    proof {
        assert(seg@ =~= nm@);
    }
    true
}

/// The positions `a .. b` delimit a directory segment of `p`: `b` holds a
/// separator, `a` follows one (or starts `p`), and none lies between.
pub open spec fn dir_seg_at(p: Seq<char>, a: int, b: int) -> bool {
    &&& 0 <= a <= b < p.len()
    &&& p[b] == '/'
    &&& (a == 0 || p[a - 1] == '/')
    &&& (forall|k: int| a <= k < b ==> p[k] != '/')
}

/// Every directory segment of `p` (all segments but the last) survives
/// pruning.
pub open spec fn dirs_not_pruned(p: Seq<char>) -> bool {
    forall|a: int, b: int| dir_seg_at(p, a, b) ==> !is_pruned_dir(#[trigger] p.subrange(a, b))
}

/// Whether a file at relative path `p` is listed by a vault walk: its
/// extension is the note extension and no directory on its way is pruned.
pub open spec fn is_listed(p: Seq<char>) -> bool {
    is_md_file(p) && dirs_not_pruned(p)
}

/// Decides `is_listed`.
pub fn check_listed(p: &str) -> (r: bool)
    ensures
        r == is_listed(p@),
{
    if !check_md_file(p) {
        return false;
    }
    let n = p.unicode_len();
    let mut a: usize = 0;
    let mut b: usize = 0;
    while b < n
        invariant
            0 <= a <= b <= n,
            n == p@.len(),
            a == 0 || p@[a as int - 1] == '/',
            forall|k: int| a <= k < b ==> p@[k] != '/',
            forall|x: int, y: int|
                dir_seg_at(p@, x, y) && y < b as int ==> !is_pruned_dir(
                    #[trigger] p@.subrange(x, y),
                ),
        decreases n - b,
    {
        if p.get_char(b) == '/' {
            if check_pruned_dir(p, a, b) {
                proof {
                    assert(dir_seg_at(p@, a as int, b as int));
                    assert(is_pruned_dir(p@.subrange(a as int, b as int)));
                    assert(!dirs_not_pruned(p@));
                }
                return false;
            }
            proof {
                assert forall|x: int, y: int| dir_seg_at(p@, x, y) && y < b + 1 implies
                    !is_pruned_dir(#[trigger] p@.subrange(x, y)) by {
                    if y == b {
                        if x < a as int {
                            assert(p@[a as int - 1] != '/');
                            assert(false);
                        }
                        if x > a as int {
                            assert(p@[x - 1] != '/');
                            assert(false);
                        }
                        assert(x == a as int);
                        assert(p@.subrange(x, y) == p@.subrange(a as int, b as int));
                    }
                }
            }
            a = b + 1;
            b = b + 1;
        } else {
            b = b + 1;
        }
    }
    proof {
        assert forall|x: int, y: int| dir_seg_at(p@, x, y) implies !is_pruned_dir(
            #[trigger] p@.subrange(x, y),
        ) by {
            assert(y < b as int);
        }
    }
    true
}

// ---------------------------------------------------------------------------
// Vault name
// ---------------------------------------------------------------------------

/// End of `p` with trailing `/` characters removed.
pub open spec fn slash_back(p: Seq<char>, j: int) -> int
    recommends
        0 <= j <= p.len(),
    decreases j,
{
    if j <= 0 {
        0
    } else if p[j - 1] == '/' {
        slash_back(p, j - 1)
    } else {
        j
    }
}

/// The name a vault derives from its root path: the final segment after
/// trailing separators are dropped; unavailable (and defaulted by the
/// caller) when that segment is empty, `.`, or `..`.
pub open spec fn vault_name_of(p: Seq<char>) -> Option<Seq<char>> {
    let e = slash_back(p, p.len() as int);
    let a = seg_start(p, e);
    let seg = p.subrange(a, e);
    if seg.len() == 0 || seg == seq!['.'] || seg == seq!['.', '.'] {
        None
    } else {
        Some(seg)
    }
}

proof fn lemma_slash_back_is(p: Seq<char>, j: int, e: int)
    requires
        0 <= e <= j <= p.len(),
        forall|k: int| e <= k < j ==> p[k] == '/',
        e > 0 ==> p[e - 1] != '/',
    ensures
        slash_back(p, j) == e,
    decreases j - e,
{
    if e < j {
        lemma_slash_back_is(p, j - 1, e);
    }
}

/// Computes the derived vault name, or `None` when it is unavailable.
pub fn vault_name(p: &str) -> (r: Option<String>)
    ensures
        r is Some <==> vault_name_of(p@) is Some,
        r matches Some(s) ==> vault_name_of(p@) == Some(s@),
{
    let n = p.unicode_len();
    let mut e = n;
    while e > 0 && p.get_char(e - 1) == '/'
        invariant
            0 <= e <= n,
            n == p@.len(),
            forall|k: int| e <= k < n ==> p@[k] == '/',
        decreases e,
    {
        e = e - 1;
    }
    proof {
        lemma_slash_back_is(p@, n as int, e as int);
    }
    let mut a = e;
    while a > 0 && p.get_char(a - 1) != '/'
        invariant
            0 <= a <= e <= n,
            e == slash_back(p@, n as int),
            n == p@.len(),
            forall|k: int| a <= k < e ==> p@[k] != '/',
        decreases a,
    {
        a = a - 1;
    }
    proof {
        lemma_seg_start_is(p@, e as int, a as int);
    }
    let seg = p.substring_char(a, e);
    let m = seg.unicode_len();
    if m == 0 {
        return None;
    }
    if m == 1 && seg.get_char(0) == '.' {
        proof {
            assert(seg@ =~= seq!['.']);
        }
        return None;
    }
    if m == 2 && seg.get_char(0) == '.' && seg.get_char(1) == '.' {
        proof {
            assert(seg@ =~= seq!['.', '.']);
        }
        return None;
    }
    proof {
        assert(seg@ != seq!['.']);
        assert(seg@ != seq!['.', '.']);
    }
    Some(seg.to_owned())
}

} // verus!
