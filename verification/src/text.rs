//! Character-level text utilities shared by the extractor, the resolver,
//! the parser and the store: whitespace classification and trimming,
//! runs of characters satisfying a predicate, byte offsets of character
//! positions, lexicographic order on strings, and case folding.

use vstd::prelude::*;

verus! {

// ---------------------------------------------------------------------------
// Whitespace
// ---------------------------------------------------------------------------

/// The characters that trimming removes: the Unicode `White_Space` set.
pub open spec fn is_ws(c: char) -> bool {
    ||| c == ' '
    ||| ('\u{09}' <= c && c <= '\u{0d}')
    ||| c == '\u{85}'
    ||| c == '\u{a0}'
    ||| c == '\u{1680}'
    ||| ('\u{2000}' <= c && c <= '\u{200a}')
    ||| c == '\u{2028}'
    ||| c == '\u{2029}'
    ||| c == '\u{202f}'
    ||| c == '\u{205f}'
    ||| c == '\u{3000}'
}

/// Decides `is_ws`.
pub fn is_ws_char(c: char) -> (r: bool)
    ensures
        r == is_ws(c),
{
    c == ' ' || ('\u{09}' <= c && c <= '\u{0d}') || c == '\u{85}' || c == '\u{a0}' || c
        == '\u{1680}' || ('\u{2000}' <= c && c <= '\u{200a}') || c == '\u{2028}' || c == '\u{2029}'
        || c == '\u{202f}' || c == '\u{205f}' || c == '\u{3000}'
}

// ---------------------------------------------------------------------------
// Runs of characters satisfying a predicate
// ---------------------------------------------------------------------------

/// First position at or after `i` whose character fails `p` (or the end
/// of `s`): the end of the run of `p`-characters starting at `i`.
pub open spec fn run_end(s: Seq<char>, i: int, p: spec_fn(char) -> bool) -> int
    recommends
        0 <= i <= s.len(),
    decreases s.len() - i,
{
    if i < 0 || i >= s.len() {
        i
    } else if p(s[i]) {
        run_end(s, i + 1, p)
    } else {
        i
    }
}

pub proof fn lemma_run_end(s: Seq<char>, i: int, p: spec_fn(char) -> bool)
    requires
        0 <= i <= s.len(),
    ensures
        i <= run_end(s, i, p) <= s.len(),
        forall|k: int| i <= k < run_end(s, i, p) ==> p(s[k]),
        run_end(s, i, p) < s.len() ==> !p(s[run_end(s, i, p)]),
    decreases s.len() - i,
{
    if i < s.len() && p(s[i]) {
        lemma_run_end(s, i + 1, p);
    }
}

/// A run end is pinned by its characteristic properties: everything from
/// `i` up to `j` satisfies `p`, and `j` is the end or fails `p`.
pub proof fn lemma_run_end_is(s: Seq<char>, i: int, j: int, p: spec_fn(char) -> bool)
    requires
        0 <= i <= j <= s.len(),
        forall|k: int| i <= k < j ==> p(s[k]),
        j < s.len() ==> !p(s[j]),
    ensures
        run_end(s, i, p) == j,
    decreases j - i,
{
    if i < j {
        lemma_run_end_is(s, i + 1, j, p);
    }
}

// ---------------------------------------------------------------------------
// Trimming
// ---------------------------------------------------------------------------

/// End of the run of trailing whitespace, scanned from `j` leftwards:
/// the position just after the last non-whitespace character before `j`.
pub open spec fn ws_back(s: Seq<char>, j: int) -> int
    recommends
        0 <= j <= s.len(),
    decreases j,
{
    if j <= 0 {
        0
    } else if is_ws(s[j - 1]) {
        ws_back(s, j - 1)
    } else {
        j
    }
}

pub proof fn lemma_ws_back_is(s: Seq<char>, j: int, b: int)
    requires
        0 <= b <= j <= s.len(),
        forall|k: int| b <= k < j ==> is_ws(s[k]),
        b > 0 ==> !is_ws(s[b - 1]),
    ensures
        ws_back(s, j) == b,
    decreases j - b,
{
    if b < j {
        lemma_ws_back_is(s, j - 1, b);
    }
}

/// `s` with leading and trailing whitespace removed.
pub open spec fn trimmed(s: Seq<char>) -> Seq<char> {
    let a = run_end(s, 0, |c: char| is_ws(c));
    if a == s.len() {
        Seq::empty()
    } else {
        s.subrange(a, ws_back(s, s.len() as int))
    }
}

/// The bounds computed by a trimming scan pin down `trimmed` of the window
/// `s[lo..hi]`: `s[a..b]` is that window trimmed.
pub proof fn lemma_trim_window(s: Seq<char>, lo: int, hi: int, a: int, b: int)
    requires
        0 <= lo <= a <= hi <= s.len(),
        a <= b <= hi || (a == hi && b == hi),
        forall|k: int| lo <= k < a ==> is_ws(s[k]),
        a < hi ==> !is_ws(s[a]),
        a < hi ==> (a <= b <= hi && forall|k: int| b <= k < hi ==> is_ws(s[k])),
        a < hi ==> b > a && !is_ws(s[b - 1]),
        a == hi ==> b == hi,
    ensures
        s.subrange(a, if a == hi { a } else { b }) == trimmed(s.subrange(lo, hi)),
{
    let t = s.subrange(lo, hi);
    let ws = |c: char| is_ws(c);
    if a == hi {
        lemma_run_end_is(t, 0, t.len() as int, ws);
        assert(s.subrange(a, a) =~= trimmed(t));
    } else {
        lemma_run_end_is(t, 0, a - lo, ws);
        lemma_ws_back_is(t, t.len() as int, b - lo);
        assert(run_end(t, 0, ws) == a - lo);
        assert(run_end(t, 0, ws) != t.len());
        assert(trimmed(t) == t.subrange(a - lo, b - lo));
        assert(s.subrange(a, b) =~= t.subrange(a - lo, b - lo));
    }
}

/// Bounds of the window `s[lo..hi]` with surrounding whitespace removed.
pub(crate) fn trim_range(s: &str, lo: usize, hi: usize) -> (r: (usize, usize))
    requires
        lo <= hi <= s@.len(),
    ensures
        lo <= r.0 <= r.1 <= hi,
        s@.subrange(r.0 as int, r.1 as int) == trimmed(s@.subrange(lo as int, hi as int)),
{
    let mut a = lo;
    while a < hi && is_ws_char(s.get_char(a))
        invariant
            lo <= a <= hi <= s@.len(),
            forall|k: int| lo <= k < a ==> is_ws(s@[k]),
        decreases hi - a,
    {
        a = a + 1;
    }
    let mut b = hi;
    while b > a && is_ws_char(s.get_char(b - 1))
        invariant
            a <= b <= hi <= s@.len(),
            forall|k: int| b <= k < hi ==> is_ws(s@[k]),
        decreases b,
    {
        b = b - 1;
    }
    proof {
        if a < hi {
            if b == a {
                assert(is_ws(s@[a as int]));
                assert(false);
            }
            lemma_trim_window(s@, lo as int, hi as int, a as int, b as int);
        } else {
            lemma_trim_window(s@, lo as int, hi as int, a as int, hi as int);
        }
    }
    (a, b)
}

/// Copies the window `s[lo..hi]` into an owned string.
pub(crate) fn copy_range(s: &str, lo: usize, hi: usize) -> (r: String)
    requires
        lo <= hi <= s@.len(),
    ensures
        r@ == s@.subrange(lo as int, hi as int),
{
    let sub = s.substring_char(lo, hi);
    sub.to_owned()
}

/// A run end within a suffix, shifted: scanning the suffix from its
/// start is scanning `s` from `i`.
pub proof fn lemma_run_end_shift(s: Seq<char>, i: int, p: spec_fn(char) -> bool)
    requires
        0 <= i <= s.len(),
    ensures
        run_end(s.skip(i), 0, p) == run_end(s, i, p) - i,
{
    lemma_run_end(s, i, p);
    let e = run_end(s, i, p);
    assert forall|k: int| 0 <= k < e - i implies p(s.skip(i)[k]) by {
        assert(s.skip(i)[k] == s[i + k]);
    }
    if e - i < s.skip(i).len() {
        assert(s.skip(i)[e - i] == s[e]);
    }
    lemma_run_end_is(s.skip(i), 0, e - i, p);
}

// ---------------------------------------------------------------------------
// Byte offsets of character positions
// ---------------------------------------------------------------------------

/// Width of one character in the UTF-8 encoding.
pub open spec fn char_width(c: char) -> int {
    vstd::utf8::encode_scalar(c as u32).len() as int
}

/// Byte offset of character position `i` of `s` in the UTF-8 encoding of `s`.
pub open spec fn byte_pos(s: Seq<char>, i: int) -> int
    recommends
        0 <= i <= s.len(),
    decreases i,
{
    if i <= 0 {
        0
    } else {
        byte_pos(s, i - 1) + char_width(s[i - 1])
    }
}

pub proof fn lemma_char_width(c: char)
    ensures
        1 <= char_width(c) <= 4,
{
}

/// Encoding a sequence extended by one character appends that character's
/// encoding.
proof fn lemma_encode_push(t: Seq<char>, c: char)
    ensures
        vstd::utf8::encode_utf8(t.push(c)) == vstd::utf8::encode_utf8(t) + vstd::utf8::encode_scalar(
            c as u32,
        ),
    decreases t.len(),
{
    if t.len() == 0 {
        let tc = t.push(c);
        assert(tc.len() == 1);
        assert(tc[0] == c);
        assert(tc.drop_first() =~= t);
        assert(vstd::utf8::encode_utf8(tc) == vstd::utf8::encode_scalar(tc[0] as u32)
            + vstd::utf8::encode_utf8(tc.drop_first()));
        assert(vstd::utf8::encode_utf8(t) =~= Seq::<u8>::empty());
        assert(vstd::utf8::encode_utf8(tc) =~= vstd::utf8::encode_scalar(c as u32));
        assert(vstd::utf8::encode_utf8(t) + vstd::utf8::encode_scalar(c as u32)
            =~= vstd::utf8::encode_scalar(c as u32));
    } else {
        lemma_encode_push(t.drop_first(), c);
        assert(t.push(c).drop_first() =~= t.drop_first().push(c));
        assert(t.push(c)[0] == t[0]);
        assert(vstd::utf8::encode_utf8(t.push(c)) =~= vstd::utf8::encode_utf8(t)
            + vstd::utf8::encode_scalar(c as u32));
    }
}

/// `byte_pos(s, i)` is the length of the encoding of the first `i`
/// characters of `s`.
pub proof fn lemma_byte_pos_is_prefix_bytes(s: Seq<char>, i: int)
    requires
        0 <= i <= s.len(),
    ensures
        byte_pos(s, i) == vstd::utf8::encode_utf8(s.take(i)).len(),
    decreases i,
{
    if i == 0 {
        assert(s.take(0) =~= Seq::<char>::empty());
    } else {
        lemma_byte_pos_is_prefix_bytes(s, i - 1);
        lemma_encode_push(s.take(i - 1), s[i - 1]);
        assert(s.take(i) =~= s.take(i - 1).push(s[i - 1]));
        lemma_char_width(s[i - 1]);
    }
}

pub proof fn lemma_byte_pos_mono(s: Seq<char>, i: int, j: int)
    requires
        0 <= i <= j <= s.len(),
    ensures
        byte_pos(s, i) <= byte_pos(s, j),
        i < j ==> byte_pos(s, i) + (j - i) <= byte_pos(s, j),
    decreases j - i,
{
    if i < j {
        lemma_byte_pos_mono(s, i, j - 1);
        lemma_char_width(s[j - 1]);
    }
}

/// Width of one character in the UTF-8 encoding.
pub fn char_width_x(c: char) -> (r: usize)
    ensures
        r as int == char_width(c),
{
    let u = c as u32;
    if u < 0x80 {
        1
    } else if u < 0x800 {
        2
    } else if u < 0x10000 {
        3
    } else {
        4
    }
}

/// Total byte length of `s`, which bounds every byte offset within it.
pub fn utf8_total_len(s: &str) -> (r: usize)
    ensures
        r as int == byte_pos(s@, s@.len() as int),
{
    let bytes = s.as_bytes();
    let n = bytes.len();
    proof {
        vstd::slice::axiom_spec_len(bytes);
        lemma_byte_pos_is_prefix_bytes(s@, s@.len() as int);
        assert(s@.take(s@.len() as int) =~= s@);
    }
    n
}

/// Advances a byte offset from character position `from` to `to`.
pub fn advance_byte_pos(s: &str, from: usize, to: usize, bp: usize) -> (r: usize)
    requires
        from <= to <= s@.len(),
        bp as int == byte_pos(s@, from as int),
        byte_pos(s@, s@.len() as int) <= usize::MAX,
    ensures
        r as int == byte_pos(s@, to as int),
{
    let mut k = from;
    let mut b = bp;
    while k < to
        invariant
            from <= k <= to <= s@.len(),
            b as int == byte_pos(s@, k as int),
            byte_pos(s@, s@.len() as int) <= usize::MAX,
        decreases to - k,
    {
        let c = s.get_char(k);
        let w = char_width_x(c);
        proof {
            lemma_byte_pos_mono(s@, k + 1 as int, s@.len() as int);
            lemma_char_width(s@[k as int]);
        }
        b = b + w;
        k = k + 1;
    }
    b
}

// ---------------------------------------------------------------------------
// Lexicographic order
// ---------------------------------------------------------------------------

/// Strict lexicographic order on character sequences, by scalar value.
pub open spec fn lex_lt(a: Seq<char>, b: Seq<char>) -> bool
    decreases a.len(),
{
    if b.len() == 0 {
        false
    } else if a.len() == 0 {
        true
    } else if a[0] < b[0] {
        true
    } else if a[0] > b[0] {
        false
    } else {
        lex_lt(a.drop_first(), b.drop_first())
    }
}

/// Exactly one of `lex_lt(a, b)`, `a == b`, `lex_lt(b, a)` holds.
pub proof fn lemma_lex_trichotomy(a: Seq<char>, b: Seq<char>)
    ensures
        lex_lt(a, b) || lex_lt(b, a) || a == b,
        lex_lt(a, b) ==> !lex_lt(b, a),
        lex_lt(a, b) ==> a != b,
        lex_lt(b, a) ==> a != b,
    decreases a.len(),
{
    if a.len() == 0 && b.len() == 0 {
        assert(a =~= b);
    } else if a.len() > 0 && b.len() > 0 {
        lemma_lex_trichotomy(a.drop_first(), b.drop_first());
        if a[0] == b[0] {
            if a.drop_first() == b.drop_first() {
                assert forall|i: int| 0 <= i < a.len() implies a[i] == b[i] by {
                    if i >= 1 {
                        assert(a[i] == a.drop_first()[i - 1]);
                        assert(b[i] == b.drop_first()[i - 1]);
                    }
                }
                assert(a =~= b);
            }
        }
        if a == b {
            assert(a.drop_first() =~= b.drop_first());
        }
    }
}

pub proof fn lemma_lex_trans(a: Seq<char>, b: Seq<char>, c: Seq<char>)
    requires
        lex_lt(a, b),
        lex_lt(b, c),
    ensures
        lex_lt(a, c),
    decreases a.len(),
{
    if a.len() > 0 && b.len() > 0 && c.len() > 0 {
        if a[0] == b[0] && b[0] == c[0] {
            lemma_lex_trans(a.drop_first(), b.drop_first(), c.drop_first());
        }
    }
}

/// Decides `lex_lt` on the views of two strings.
pub fn str_lt(a: &str, b: &str) -> (r: bool)
    ensures
        r == lex_lt(a@, b@),
{
    let la = a.unicode_len();
    let lb = b.unicode_len();
    let m = if la < lb {
        la
    } else {
        lb
    };
    let mut i: usize = 0;
    proof {
        assert(a@.skip(0) =~= a@);
        assert(b@.skip(0) =~= b@);
    }
    while i < m
        invariant
            0 <= i <= m,
            la == a@.len(),
            lb == b@.len(),
            m == if la < lb {
                la
            } else {
                lb
            },
            lex_lt(a@, b@) == lex_lt(a@.skip(i as int), b@.skip(i as int)),
        decreases m - i,
    {
        let ca = a.get_char(i);
        let cb = b.get_char(i);
        proof {
            assert(a@.skip(i as int)[0] == a@[i as int]);
            assert(b@.skip(i as int)[0] == b@[i as int]);
            assert(a@.skip(i as int).drop_first() =~= a@.skip(i + 1));
            assert(b@.skip(i as int).drop_first() =~= b@.skip(i + 1));
        }
        if ca < cb {
            return true;
        }
        if ca > cb {
            return false;
        }
        i = i + 1;
    }
    proof {
        assert(a@.skip(m as int).len() == la - m);
        assert(b@.skip(m as int).len() == lb - m);
    }
    la < lb
}

/// Decides view equality of two strings.
pub fn str_eq(a: &str, b: &str) -> (r: bool)
    ensures
        r == (a@ == b@),
{
    let la = a.unicode_len();
    let lb = b.unicode_len();
    if la != lb {
        return false;
    }
    let mut i: usize = 0;
    while i < la
        invariant
            0 <= i <= la,
            la == a@.len(),
            la == b@.len(),
            forall|k: int| 0 <= k < i ==> a@[k] == b@[k],
        decreases la - i,
    {
        if a.get_char(i) != b.get_char(i) {
            return false;
        }
        i = i + 1;
    }
    proof {
        assert(a@ =~= b@);
    }
    true
}

// ---------------------------------------------------------------------------
// Case folding
// ---------------------------------------------------------------------------

/// The Unicode lowercase mapping of a character sequence, as `str::to_lowercase`
/// computes it. The mapping depends on the characters alone.
pub uninterp spec fn lower_of(s: Seq<char>) -> Seq<char>;

/// Relies on `str::to_lowercase` from std: the result is the Unicode
/// lowercase mapping of the input characters and depends on them alone.
#[verifier::external_body]
pub(crate) fn lowercase(s: &str) -> (r: String)
    ensures
        r@ == lower_of(s@),
        s@.len() == 0 ==> r@.len() == 0,
{
    s.to_lowercase()
}

// ---------------------------------------------------------------------------
// Decimal rendering
// ---------------------------------------------------------------------------

/// The decimal digit character for `d`.
pub open spec fn digit_char(d: int) -> char
    recommends
        0 <= d <= 9,
{
    if d == 0 {
        '0'
    } else if d == 1 {
        '1'
    } else if d == 2 {
        '2'
    } else if d == 3 {
        '3'
    } else if d == 4 {
        '4'
    } else if d == 5 {
        '5'
    } else if d == 6 {
        '6'
    } else if d == 7 {
        '7'
    } else if d == 8 {
        '8'
    } else {
        '9'
    }
}

/// The decimal digits of `n`, most significant first.
pub open spec fn dec_digits(n: int) -> Seq<char>
    recommends
        n >= 0,
    decreases n,
{
    if n < 10 {
        seq![digit_char(n)]
    } else {
        dec_digits(n / 10).push(digit_char(n % 10))
    }
}

fn append_digit(s: &mut String, d: usize)
    requires
        d <= 9,
    ensures
        final(s)@ == old(s)@ + seq![digit_char(d as int)],
{
    proof {
        reveal_strlit("0");
        reveal_strlit("1");
        reveal_strlit("2");
        reveal_strlit("3");
        reveal_strlit("4");
        reveal_strlit("5");
        reveal_strlit("6");
        reveal_strlit("7");
        reveal_strlit("8");
        reveal_strlit("9");
    }
    match d {
        0 => s.append("0"),
        1 => s.append("1"),
        2 => s.append("2"),
        3 => s.append("3"),
        4 => s.append("4"),
        5 => s.append("5"),
        6 => s.append("6"),
        7 => s.append("7"),
        8 => s.append("8"),
        _ => s.append("9"),
    }
    proof {
        assert(s@ =~= old(s)@ + seq![digit_char(d as int)]);
    }
}

/// Renders `n` in decimal.
pub fn dec_string(n: usize) -> (r: String)
    ensures
        r@ == dec_digits(n as int),
    decreases n,
{
    if n < 10 {
        let mut s = String::new();
        append_digit(&mut s, n);
        proof {
            assert(s@ =~= dec_digits(n as int));
        }
        s
    } else {
        let mut s = dec_string(n / 10);
        append_digit(&mut s, n % 10);
        proof {
            assert(s@ =~= dec_digits(n as int));
        }
        s
    }
}

} // verus!

