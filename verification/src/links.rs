//! Wikilink extraction, target resolution against the vault's file set,
//! forward and backward link indices, and broken-link reporting.
//!
//! A reference is written `[[target]]` or `[[target|display]]`. The
//! target excludes `]` and `|`; the display excludes `]`; both are
//! trimmed of surrounding whitespace. Matching scans left to right and
//! never overlaps; a malformed span simply does not match.

use vstd::prelude::*;
use crate::text::{
    byte_pos, copy_range, lex_lt, lower_of, run_end, trim_range, trimmed, advance_byte_pos,
    lemma_byte_pos_mono, lemma_lex_trichotomy, lemma_run_end, lemma_run_end_is, lowercase, str_eq,
    str_lt, utf8_total_len,
};
use crate::paths::{ends_with_md, file_name_of, file_name_start, has_md_suffix, stem_of, stem_split};

verus! {

/// One reference occurrence: `[[target]]` or `[[target|display]]`.
#[derive(Debug, Clone, PartialEq, Eq, Hash)]
pub struct WikiLink {
    /// The trimmed text between the opening delimiter and the pipe (if
    /// any) or the closing delimiter.
    pub target: String,
    /// The trimmed text after the pipe, when one is present.
    pub display: Option<String>,
    /// Byte offset of the opening delimiter in the source text.
    pub position: usize,
}

/// Mathematical model of a reference.
pub ghost struct LinkV {
    pub target: Seq<char>,
    pub display: Option<Seq<char>>,
    pub position: int,
}

impl View for WikiLink {
    type V = LinkV;

    open spec fn view(&self) -> LinkV {
        LinkV {
            target: self.target@,
            display: match self.display {
                Some(d) => Some(d@),
                None => None,
            },
            position: self.position as int,
        }
    }
}

impl DeepView for WikiLink {
    type V = LinkV;

    open spec fn deep_view(&self) -> LinkV {
        self.view()
    }
}

// ---------------------------------------------------------------------------
// The reference grammar
// ---------------------------------------------------------------------------

/// Characters allowed in a target.
pub open spec fn is_target_char(c: char) -> bool {
    c != ']' && c != '|'
}

/// Characters allowed in a display text.
pub open spec fn is_display_char(c: char) -> bool {
    c != ']'
}

/// A reference matched at a fixed position: its span and raw (untrimmed)
/// captures.
pub ghost struct RawLink {
    pub pos: int,
    pub end: int,
    pub target: Seq<char>,
    pub display: Option<Seq<char>>,
}

/// The reference the grammar matches at position `i` of `s`, if any:
/// `[[`, a non-empty run of target characters, then either `]]`, or a
/// pipe, a non-empty run of display characters, and `]]`.
pub open spec fn match_at(s: Seq<char>, i: int) -> Option<RawLink> {
    if !(0 <= i && i + 2 <= s.len() && s[i] == '[' && s[i + 1] == '[') {
        None
    } else {
        let t_end = run_end(s, i + 2, |c: char| is_target_char(c));
        if t_end == i + 2 {
            None
        } else if t_end < s.len() && s[t_end] == '|' {
            let d_end = run_end(s, t_end + 1, |c: char| is_display_char(c));
            if d_end > t_end + 1 && d_end + 1 < s.len() && s[d_end] == ']' && s[d_end + 1]
                == ']' {
                Some(
                    RawLink {
                        pos: i,
                        end: d_end + 2,
                        target: s.subrange(i + 2, t_end),
                        display: Some(s.subrange(t_end + 1, d_end)),
                    },
                )
            } else {
                None
            }
        } else if t_end + 1 < s.len() && s[t_end] == ']' && s[t_end + 1] == ']' {
            Some(
                RawLink {
                    pos: i,
                    end: t_end + 2,
                    target: s.subrange(i + 2, t_end),
                    display: None,
                },
            )
        } else {
            None
        }
    }
}

pub proof fn lemma_match_at_bounds(s: Seq<char>, i: int)
    ensures
        match_at(s, i) matches Some(m) ==> i + 5 <= m.end <= s.len() && m.pos == i,
{
    if 0 <= i && i + 2 <= s.len() {
        lemma_run_end(s, i + 2, |c: char| is_target_char(c));
        let t_end = run_end(s, i + 2, |c: char| is_target_char(c));
        if i + 2 <= t_end && t_end + 1 <= s.len() {
            lemma_run_end(s, t_end + 1, |c: char| is_display_char(c));
        }
    }
}

/// All references of `s` at or after position `i`, scanning left to
/// right without overlap.
pub open spec fn raw_links_from(s: Seq<char>, i: int) -> Seq<RawLink>
    recommends
        0 <= i <= s.len(),
    decreases s.len() - i
        when 0 <= i <= s.len()
        via raw_links_from_dec
{
    if i >= s.len() {
        Seq::empty()
    } else {
        match match_at(s, i) {
            Some(m) => seq![m] + raw_links_from(s, m.end),
            None => raw_links_from(s, i + 1),
        }
    }
}

#[via_fn]
proof fn raw_links_from_dec(s: Seq<char>, i: int) {
    lemma_match_at_bounds(s, i);
}

/// The finished reference built from a raw match: captures trimmed, the
/// position measured in bytes.
pub open spec fn link_of_raw(s: Seq<char>, m: RawLink) -> LinkV {
    LinkV {
        target: trimmed(m.target),
        display: match m.display {
            Some(d) => Some(trimmed(d)),
            None => None,
        },
        position: byte_pos(s, m.pos),
    }
}

/// Every reference of the text `s`, in order of occurrence.
pub open spec fn links_of(s: Seq<char>) -> Seq<LinkV> {
    raw_links_from(s, 0).map_values(|m: RawLink| link_of_raw(s, m))
}

/// The matches of a scan lie inside `[i, s.len())`, do not overlap, and
/// appear in strictly increasing position order.
pub proof fn lemma_raw_links_bounds(s: Seq<char>, i: int)
    requires
        0 <= i <= s.len(),
    ensures
        forall|k: int|
            0 <= k < raw_links_from(s, i).len() ==> {
                let m = #[trigger] raw_links_from(s, i)[k];
                i <= m.pos && m.pos + 5 <= m.end <= s.len()
            },
        forall|k: int, l: int|
            0 <= k < l < raw_links_from(s, i).len() ==> raw_links_from(s, i)[k].end
                <= raw_links_from(s, i)[l].pos,
    decreases s.len() - i,
{
    if i < s.len() {
        lemma_match_at_bounds(s, i);
        match match_at(s, i) {
            Some(m) => {
                lemma_raw_links_bounds(s, m.end);
                assert forall|k: int| 0 <= k < raw_links_from(s, i).len() implies {
                    let mk = #[trigger] raw_links_from(s, i)[k];
                    i <= mk.pos && mk.pos + 5 <= mk.end <= s.len()
                } by {
                    if k > 0 {
                        assert(raw_links_from(s, i)[k] == raw_links_from(s, m.end)[k - 1]);
                    }
                }
                assert forall|k: int, l: int|
                    0 <= k < l < raw_links_from(s, i).len() implies raw_links_from(s, i)[k].end
                    <= raw_links_from(s, i)[l].pos by {
                    if k > 0 {
                        assert(raw_links_from(s, i)[k] == raw_links_from(s, m.end)[k - 1]);
                        assert(raw_links_from(s, i)[l] == raw_links_from(s, m.end)[l - 1]);
                    } else {
                        assert(raw_links_from(s, i)[l] == raw_links_from(s, m.end)[l - 1]);
                    }
                }
            },
            None => {
                lemma_raw_links_bounds(s, i + 1);
            },
        }
    }
}

/// Law: reference offsets are strictly increasing, and each lies within
/// the byte length of the text.
pub proof fn lemma_offsets_strictly_increasing(s: Seq<char>)
    ensures
        forall|k: int, l: int|
            0 <= k < l < links_of(s).len() ==> #[trigger] links_of(s)[k].position
                < #[trigger] links_of(s)[l].position,
        forall|k: int|
            0 <= k < links_of(s).len() ==> 0 <= #[trigger] links_of(s)[k].position < byte_pos(
                s,
                s.len() as int,
            ),
{
    lemma_raw_links_bounds(s, 0);
    let raw = raw_links_from(s, 0);
    assert forall|k: int, l: int| 0 <= k < l < links_of(s).len() implies #[trigger] links_of(
        s,
    )[k].position < #[trigger] links_of(s)[l].position by {
        assert(raw[k].end <= raw[l].pos);
        lemma_byte_pos_mono(s, raw[k].pos, raw[l].pos);
    }
    assert forall|k: int| 0 <= k < links_of(s).len() implies 0 <= #[trigger] links_of(
        s,
    )[k].position < byte_pos(s, s.len() as int) by {
        lemma_byte_pos_mono(s, 0, raw[k].pos);
        lemma_byte_pos_mono(s, raw[k].pos, s.len() as int);
        assert(raw[k].pos < s.len());
    }
}

// ---------------------------------------------------------------------------
// The extractor
// ---------------------------------------------------------------------------

/// Extracts wikilink references from document text.
pub struct LinkExtractor {}

impl LinkExtractor {
    /// Create a new link extractor.
    pub fn new() -> (r: Self) {
        LinkExtractor {  }
    }

    /// Extract all wikilinks from document text, in order of occurrence.
    pub fn extract(&self, content: &str) -> (r: Vec<WikiLink>)
        ensures
            r.deep_view() == links_of(content@),
    {
        let ghost s = content@;
        let n = content.unicode_len();
        let total = utf8_total_len(content);
        let mut out: Vec<WikiLink> = Vec::new();
        let mut i: usize = 0;
        let mut bpos: usize = 0;
        proof {
            assert(out.deep_view() + raw_links_from(s, 0).map_values(
                |m: RawLink| link_of_raw(s, m),
            ) =~= links_of(s));
        }
        while i < n
            invariant
                n == s.len(),
                s == content@,
                i <= n,
                bpos as int == byte_pos(s, i as int),
                byte_pos(s, s.len() as int) <= usize::MAX,
                out.deep_view() + raw_links_from(s, i as int).map_values(
                    |m: RawLink| link_of_raw(s, m),
                ) == links_of(s),
            decreases n - i,
        {
            proof {
                lemma_match_at_bounds(s, i as int);
            }
            match match_link_at(content, i, n, bpos) {
                Some(pair) => {
                    let (w, end) = pair;
                    let ghost m = match_at(s, i as int)->0;
                    proof {
                        assert(raw_links_from(s, i as int) =~= seq![m] + raw_links_from(
                            s,
                            m.end,
                        ));
                        assert((seq![m] + raw_links_from(s, m.end)).map_values(
                            |x: RawLink| link_of_raw(s, x),
                        ) =~= seq![link_of_raw(s, m)] + raw_links_from(s, m.end).map_values(
                            |x: RawLink| link_of_raw(s, x),
                        ));
                    }
                    bpos = advance_byte_pos(content, i, end, bpos);
                    i = end;
                    let ghost old_out = out.deep_view();
                    out.push(w);
                    proof {
                        assert(out.deep_view() =~= old_out.push(w.deep_view()));
                        assert(out.deep_view() + raw_links_from(s, i as int).map_values(
                            |x: RawLink| link_of_raw(s, x),
                        ) =~= links_of(s));
                    }
                },
                None => {
                    proof {
                        assert(raw_links_from(s, i as int) == raw_links_from(s, i as int + 1));
                    }
                    bpos = advance_byte_pos(content, i, i + 1, bpos);
                    i = i + 1;
                },
            }
        }
        proof {
            assert(raw_links_from(s, n as int).map_values(|x: RawLink| link_of_raw(s, x))
                =~= Seq::<LinkV>::empty());
            assert(out.deep_view() =~= links_of(s));
        }
        out
    }

    /// Resolve a wikilink target to one of the vault's file paths, or to
    /// no match. A stem match is preferred over an extension-qualified
    /// name match; within each stage the first file in list order wins.
    pub fn resolve_link(&self, target: &str, vault_files: &Vec<String>) -> (r: Option<String>)
        ensures
            r is Some <==> resolve_spec(target@, vault_files.deep_view()) is Some,
            r matches Some(f) ==> resolve_spec(target@, vault_files.deep_view()) == Some(f@),
    {
        let ghost files = vault_files.deep_view();
        let ghost sp = |f: Seq<char>| stem_matches(target@, f);
        let ghost np = |f: Seq<char>| name_matches(target@, f);
        let target_lower = lowercase(target);
        let len = vault_files.len();
        let mut k: usize = 0;
        while k < len
            invariant
                0 <= k <= len,
                len == vault_files.len(),
                files == vault_files.deep_view(),
                sp == (|f: Seq<char>| stem_matches(target@, f)),
                target_lower@ == lower_of(target@),
                first_from(files, 0, sp) == first_from(files, k as int, sp),
            decreases len - k,
        {
            let f: &String = &vault_files[k];
            proof {
                assert(f@ == files[k as int]);
            }
            let stem_lower = lower_stem(f.as_str());
            if stem_lower.eq(&target_lower) {
                proof {
                    assert(stem_matches(target@, files[k as int]));
                    assert(first_from(files, k as int, sp) == Some(k as int));
                }
                return Some(f.clone());
            }
            proof {
                assert(!sp(files[k as int]));
                assert(first_from(files, k as int, sp) == first_from(files, k as int + 1, sp));
            }
            k = k + 1;
        }
        proof {
            assert(first_from(files, 0, sp) is None);
        }
        let twe: String = if ends_with_md(target) {
            proof {
                assert(with_md_ext(target@) == target@);
            }
            target.to_owned()
        } else {
            let t0 = target.to_owned();
            let t1 = t0.concat(".md");
            proof {
                reveal_strlit(".md");
                assert(".md"@ =~= seq!['.', 'm', 'd']);
                assert(t1@ == with_md_ext(target@));
            }
            t1
        };
        let twe_lower = lowercase(twe.as_str());
        let mut k: usize = 0;
        while k < len
            invariant
                0 <= k <= len,
                len == vault_files.len(),
                files == vault_files.deep_view(),
                np == (|f: Seq<char>| name_matches(target@, f)),
                twe_lower@ == lower_of(with_md_ext(target@)),
                first_from(files, 0, sp) is None,
                sp == (|f: Seq<char>| stem_matches(target@, f)),
                first_from(files, 0, np) == first_from(files, k as int, np),
            decreases len - k,
        {
            let f: &String = &vault_files[k];
            proof {
                assert(f@ == files[k as int]);
            }
            let name_lower = lower_name(f.as_str());
            if name_lower.eq(&twe_lower) {
                proof {
                    assert(name_matches(target@, files[k as int]));
                    assert(first_from(files, k as int, np) == Some(k as int));
                }
                return Some(f.clone());
            }
            proof {
                assert(!np(files[k as int]));
                assert(first_from(files, k as int, np) == first_from(files, k as int + 1, np));
            }
            k = k + 1;
        }
        proof {
            assert(first_from(files, 0, np) is None);
        }
        None
    }

    /// Build the backward index from a forward index: for every resolved
    /// reference, the source is recorded under the resolved path; every
    /// entry's sources are sorted and deduplicated.
    pub fn build_backlinks_map(&self, links_map: &LinksMap, vault_files: &Vec<String>) -> (r:
        BacklinksMap)
        ensures
            ({
                let b = r.deep_view();
                let lm = links_map.deep_view();
                let fs = vault_files.deep_view();
                &&& forall|e1: int, e2: int|
                    0 <= e1 < e2 < b.len() ==> (#[trigger] b[e1]).0 != (#[trigger] b[e2]).0
                &&& forall|e: int| 0 <= e < b.len() ==> strictly_sorted((#[trigger] b[e]).1)
                &&& forall|e: int| 0 <= e < b.len() ==> (#[trigger] b[e]).1.len() > 0
                &&& forall|e: int| 0 <= e < b.len() ==> fs.contains((#[trigger] b[e]).0)
                &&& forall|e: int, k: int|
                    #![trigger b[e].1[k]]
                    0 <= e < b.len() && 0 <= k < b[e].1.len() ==> is_source_key(lm, b[e].1[k])
                &&& forall|e: int, k: int|
                    #![trigger b[e].1[k]]
                    0 <= e < b.len() && 0 <= k < b[e].1.len() ==> references(
                        lm,
                        fs,
                        b[e].1[k],
                        b[e].0,
                    )
                &&& forall|src: Seq<char>, tgt: Seq<char>|
                    #[trigger] references(lm, fs, src, tgt) ==> exists|e: int|
                        {
                            &&& 0 <= e < b.len()
                            &&& (#[trigger] b[e]).0 == tgt
                            &&& b[e].1.contains(src)
                        }
            }),
    {
        let ghost lm = links_map.deep_view();
        let ghost fs = vault_files.deep_view();
        let mut acc: BacklinksMap = Vec::new();
        let mut ii: usize = 0;
        proof {
            lemma_upto_none(lm, fs);
        }
        while ii < links_map.len()
            invariant
                0 <= ii <= links_map.len(),
                lm == links_map.deep_view(),
                fs == vault_files.deep_view(),
                forall|e1: int, e2: int|
                    0 <= e1 < e2 < acc.deep_view().len() ==> (#[trigger] acc.deep_view()[e1]).0
                        != (#[trigger] acc.deep_view()[e2]).0,
                forall|e: int|
                    0 <= e < acc.deep_view().len() ==> strictly_sorted(
                        (#[trigger] acc.deep_view()[e]).1,
                    ),
                forall|e: int|
                    0 <= e < acc.deep_view().len() ==> (#[trigger] acc.deep_view()[e]).1.len()
                        > 0,
                forall|e: int, k: int|
                    #![trigger acc.deep_view()[e].1[k]]
                    0 <= e < acc.deep_view().len() && 0 <= k < acc.deep_view()[e].1.len()
                        ==> references_upto(
                        lm,
                        fs,
                        acc.deep_view()[e].1[k],
                        acc.deep_view()[e].0,
                        ii as int,
                        0,
                    ),
                forall|src: Seq<char>, tgt: Seq<char>|
                    #[trigger] references_upto(lm, fs, src, tgt, ii as int, 0) ==> exists|e: int|
                        {
                            &&& 0 <= e < acc.deep_view().len()
                            &&& (#[trigger] acc.deep_view()[e]).0 == tgt
                            &&& acc.deep_view()[e].1.contains(src)
                        },
            decreases links_map.len() - ii,
        {
            let entry = &links_map[ii];
            let mut jj: usize = 0;
            proof {
                lemma_upto_mono(lm, fs, ii as int, 0, ii as int, 0);
            }
            while jj < entry.1.len()
                invariant
                    0 <= jj <= entry.1.len(),
                    0 <= ii < links_map.len(),
                    entry == &links_map@[ii as int],
                    lm == links_map.deep_view(),
                    fs == vault_files.deep_view(),
                    entry.1.deep_view() == lm[ii as int].1,
                    entry.0@ == lm[ii as int].0,
                    forall|e1: int, e2: int|
                        0 <= e1 < e2 < acc.deep_view().len() ==> (#[trigger] acc.deep_view()[e1]).0
                            != (#[trigger] acc.deep_view()[e2]).0,
                    forall|e: int|
                        0 <= e < acc.deep_view().len() ==> strictly_sorted(
                            (#[trigger] acc.deep_view()[e]).1,
                        ),
                    forall|e: int|
                        0 <= e < acc.deep_view().len() ==> (#[trigger] acc.deep_view()[e]).1.len()
                            > 0,
                    forall|e: int, k: int|
                        #![trigger acc.deep_view()[e].1[k]]
                        0 <= e < acc.deep_view().len() && 0 <= k < acc.deep_view()[e].1.len()
                            ==> references_upto(
                            lm,
                            fs,
                            acc.deep_view()[e].1[k],
                            acc.deep_view()[e].0,
                            ii as int,
                            jj as int,
                        ),
                    forall|src: Seq<char>, tgt: Seq<char>|
                        #[trigger] references_upto(lm, fs, src, tgt, ii as int, jj as int)
                            ==> exists|e: int|
                            {
                                &&& 0 <= e < acc.deep_view().len()
                                &&& (#[trigger] acc.deep_view()[e]).0 == tgt
                                &&& acc.deep_view()[e].1.contains(src)
                            },
                decreases entry.1.len() - jj,
            {
                let w = &entry.1[jj];
                proof {
                    assert(w@ == lm[ii as int].1[jj as int]);
                }
                match self.resolve_link(w.target.as_str(), vault_files) {
                    Some(t) => {
                        let ghost tgt = t@;
                        let ghost src = lm[ii as int].0;
                        let ghost a0 = acc.deep_view();
                        proof {
                            assert(resolve_spec(lm[ii as int].1[jj as int].target, fs) == Some(
                                tgt,
                            ));
                            assert(references_upto(lm, fs, src, tgt, ii as int, jj as int + 1));
                        }
                        match find_key(&acc, t.as_str()) {
                            Some(e) => {
                                let mut ent = acc.remove(e);
                                let ghost v0 = ent.1.deep_view();
                                insert_sorted_unique(&mut ent.1, entry.0.as_str());
                                acc.insert(e, ent);
                                proof {
                                    let a1 = acc.deep_view();
                                    assert forall|idx: int| 0 <= idx < a1.len() implies (
                                    a1[idx].0 == a0[idx].0 && (idx != e as int ==> a1[idx]
                                        == a0[idx])) by {}
                                    assert(a1[e as int].1.contains(src));
                                    assert(strictly_sorted(a1[e as int].1));
                                    assert(a1.len() == a0.len());
                                    assert forall|e2: int| 0 <= e2 < a1.len() implies (
                                    #[trigger] a1[e2]).1.len() > 0 by {
                                        if e2 == e as int {
                                            let kx = choose|kx: int|
                                                0 <= kx < a1[e2].1.len() && a1[e2].1[kx] == src;
                                        } else {
                                            assert(a1[e2] == a0[e2]);
                                        }
                                    }
                                    lemma_upto_mono(lm, fs, ii as int, jj as int, ii as int, jj as int + 1);
                                    assert forall|e2: int, k: int|
                                        #![trigger a1[e2].1[k]]
                                        0 <= e2 < a1.len() && 0 <= k < a1[e2].1.len()
                                            implies references_upto(
                                        lm,
                                        fs,
                                        a1[e2].1[k],
                                        a1[e2].0,
                                        ii as int,
                                        jj as int + 1,
                                    ) by {
                                        if e2 == e as int {
                                            let y = a1[e2].1[k];
                                            assert(a1[e2].1.contains(y));
                                            if v0.contains(y) {
                                                let k0 = choose|k0: int|
                                                    0 <= k0 < v0.len() && v0[k0] == y;
                                                assert(a0[e as int].1[k0] == y);
                                            } else {
                                                assert(y == src);
                                            }
                                        } else {
                                            assert(a1[e2].1[k] == a0[e2].1[k]);
                                        }
                                    }
                                    assert forall|s2: Seq<char>, t2: Seq<char>|
                                        #[trigger] references_upto(
                                            lm,
                                            fs,
                                            s2,
                                            t2,
                                            ii as int,
                                            jj as int + 1,
                                        ) implies exists|e2: int|
                                        {
                                            &&& 0 <= e2 < a1.len()
                                            &&& (#[trigger] a1[e2]).0 == t2
                                            &&& a1[e2].1.contains(s2)
                                        } by {
                                        let (i, j) = choose|i: int, j: int|
                                            #![trigger lm[i].1[j]]
                                            {
                                                &&& 0 <= i < lm.len()
                                                &&& 0 <= j < lm[i].1.len()
                                                &&& (i < ii as int || (i == ii as int && j < jj
                                                    as int + 1))
                                                &&& lm[i].0 == s2
                                                &&& resolve_spec(lm[i].1[j].target, fs) == Some(
                                                    t2,
                                                )
                                            };
                                        if i == ii as int && j == jj as int {
                                            assert(t2 == tgt && s2 == src);
                                            assert(a1[e as int].0 == t2);
                                            assert(a1[e as int].1.contains(s2));
                                        } else {
                                            assert(references_upto(
                                                lm,
                                                fs,
                                                s2,
                                                t2,
                                                ii as int,
                                                jj as int,
                                            ));
                                            let e3 = choose|e3: int|
                                                {
                                                    &&& 0 <= e3 < a0.len()
                                                    &&& (#[trigger] a0[e3]).0 == t2
                                                    &&& a0[e3].1.contains(s2)
                                                };
                                            if e3 == e as int {
                                                let k0 = choose|k0: int|
                                                    0 <= k0 < v0.len() && v0[k0] == s2;
                                                assert(a1[e3].1.contains(s2));
                                            } else {
                                                assert(a1[e3] == a0[e3]);
                                            }
                                            assert(a1[e3].0 == t2 && a1[e3].1.contains(s2));
                                        }
                                    }
                                }
                            },
                            None => {
                                let mut nv: Vec<String> = Vec::new();
                                nv.push(entry.0.clone());
                                acc.push((t, nv));
                                proof {
                                    let a1 = acc.deep_view();
                                    assert(a1.len() == a0.len() + 1);
                                    assert forall|idx: int| 0 <= idx < a0.len() implies a1[idx]
                                        == a0[idx] by {}
                                    assert(a1[a0.len() as int].0 == tgt);
                                    assert(a1[a0.len() as int].1 =~= seq![src]);
                                    assert(a1[a0.len() as int].1[0] == src);
                                    assert(a1[a0.len() as int].1.contains(src));
                                    assert(strictly_sorted(a1[a0.len() as int].1));
                                    assert forall|e2: int| 0 <= e2 < a1.len() implies (
                                    #[trigger] a1[e2]).1.len() > 0 by {
                                        if e2 < a0.len() as int {
                                            assert(a1[e2] == a0[e2]);
                                        } else {
                                            assert(a1[e2].1.len() == 1);
                                        }
                                    }
                                    lemma_upto_mono(lm, fs, ii as int, jj as int, ii as int, jj as int + 1);
                                    assert forall|e2: int, k: int|
                                        #![trigger a1[e2].1[k]]
                                        0 <= e2 < a1.len() && 0 <= k < a1[e2].1.len()
                                            implies references_upto(
                                        lm,
                                        fs,
                                        a1[e2].1[k],
                                        a1[e2].0,
                                        ii as int,
                                        jj as int + 1,
                                    ) by {
                                        if e2 == a0.len() as int {
                                            assert(a1[e2].1[k] == src);
                                        } else {
                                            assert(a1[e2].1[k] == a0[e2].1[k]);
                                        }
                                    }
                                    assert forall|s2: Seq<char>, t2: Seq<char>|
                                        #[trigger] references_upto(
                                            lm,
                                            fs,
                                            s2,
                                            t2,
                                            ii as int,
                                            jj as int + 1,
                                        ) implies exists|e2: int|
                                        {
                                            &&& 0 <= e2 < a1.len()
                                            &&& (#[trigger] a1[e2]).0 == t2
                                            &&& a1[e2].1.contains(s2)
                                        } by {
                                        let (i, j) = choose|i: int, j: int|
                                            #![trigger lm[i].1[j]]
                                            {
                                                &&& 0 <= i < lm.len()
                                                &&& 0 <= j < lm[i].1.len()
                                                &&& (i < ii as int || (i == ii as int && j < jj
                                                    as int + 1))
                                                &&& lm[i].0 == s2
                                                &&& resolve_spec(lm[i].1[j].target, fs) == Some(
                                                    t2,
                                                )
                                            };
                                        if i == ii as int && j == jj as int {
                                            assert(a1[a0.len() as int].0 == t2);
                                            assert(a1[a0.len() as int].1.contains(s2));
                                        } else {
                                            assert(references_upto(
                                                lm,
                                                fs,
                                                s2,
                                                t2,
                                                ii as int,
                                                jj as int,
                                            ));
                                            let e3 = choose|e3: int|
                                                {
                                                    &&& 0 <= e3 < a0.len()
                                                    &&& (#[trigger] a0[e3]).0 == t2
                                                    &&& a0[e3].1.contains(s2)
                                                };
                                            assert(a1[e3] == a0[e3]);
                                        }
                                    }
                                }
                            },
                        }
                    },
                    None => {
                        proof {
                            assert(resolve_spec(lm[ii as int].1[jj as int].target, fs) is None);
                            lemma_upto_step_none(lm, fs, ii as int, jj as int);
                            let a1 = acc.deep_view();
                            assert forall|e2: int, k: int|
                                #![trigger a1[e2].1[k]]
                                0 <= e2 < a1.len() && 0 <= k < a1[e2].1.len()
                                    implies references_upto(
                                lm,
                                fs,
                                a1[e2].1[k],
                                a1[e2].0,
                                ii as int,
                                jj as int + 1,
                            ) by {
                                assert(references_upto(
                                    lm,
                                    fs,
                                    a1[e2].1[k],
                                    a1[e2].0,
                                    ii as int,
                                    jj as int,
                                ));
                            }
                            assert forall|s2: Seq<char>, t2: Seq<char>|
                                #[trigger] references_upto(lm, fs, s2, t2, ii as int, jj as int + 1)
                                    implies exists|e2: int|
                                {
                                    &&& 0 <= e2 < a1.len()
                                    &&& (#[trigger] a1[e2]).0 == t2
                                    &&& a1[e2].1.contains(s2)
                                } by {
                                assert(references_upto(lm, fs, s2, t2, ii as int, jj as int));
                            }
                        }
                    },
                }
                jj = jj + 1;
            }
            proof {
                assert(jj as int == lm[ii as int].1.len());
                lemma_upto_rollover(lm, fs, ii as int);
                let a1 = acc.deep_view();
                assert forall|e2: int, k: int|
                    #![trigger a1[e2].1[k]]
                    0 <= e2 < a1.len() && 0 <= k < a1[e2].1.len() implies references_upto(
                    lm,
                    fs,
                    a1[e2].1[k],
                    a1[e2].0,
                    ii as int + 1,
                    0,
                ) by {
                    assert(references_upto(lm, fs, a1[e2].1[k], a1[e2].0, ii as int, jj as int));
                    assert(references_upto(
                        lm,
                        fs,
                        a1[e2].1[k],
                        a1[e2].0,
                        ii as int,
                        lm[ii as int].1.len() as int,
                    ));
                }
                assert forall|s2: Seq<char>, t2: Seq<char>|
                    #[trigger] references_upto(lm, fs, s2, t2, ii as int + 1, 0) implies exists|
                    e2: int,
                |
                    {
                        &&& 0 <= e2 < a1.len()
                        &&& (#[trigger] a1[e2]).0 == t2
                        &&& a1[e2].1.contains(s2)
                    } by {
                    assert(references_upto(
                        lm,
                        fs,
                        s2,
                        t2,
                        ii as int,
                        lm[ii as int].1.len() as int,
                    ));
                    assert(references_upto(lm, fs, s2, t2, ii as int, jj as int));
                }
            }
            ii = ii + 1;
        }
        proof {
            lemma_upto_full(lm, fs);
            let b = acc.deep_view();
            assert(ii as int == lm.len());
            assert forall|e: int, k: int|
                #![trigger b[e].1[k]]
                0 <= e < b.len() && 0 <= k < b[e].1.len() implies references(
                lm,
                fs,
                b[e].1[k],
                b[e].0,
            ) by {
                assert(references_upto(lm, fs, b[e].1[k], b[e].0, ii as int, 0));
                assert(references_upto(lm, fs, b[e].1[k], b[e].0, lm.len() as int, 0));
            }
            assert forall|src: Seq<char>, tgt: Seq<char>|
                #[trigger] references(lm, fs, src, tgt) implies exists|e: int|
                {
                    &&& 0 <= e < b.len()
                    &&& (#[trigger] b[e]).0 == tgt
                    &&& b[e].1.contains(src)
                } by {
                assert(references_upto(lm, fs, src, tgt, lm.len() as int, 0));
                assert(references_upto(lm, fs, src, tgt, ii as int, 0));
            }
            assert forall|e: int| 0 <= e < b.len() implies fs.contains((#[trigger] b[e]).0) by {
                assert(b[e].1.len() > 0);
                assert(references(lm, fs, b[e].1[0], b[e].0));
                let (i, j) = choose|i: int, j: int|
                    #![trigger lm[i].1[j]]
                    {
                        &&& 0 <= i < lm.len()
                        &&& 0 <= j < lm[i].1.len()
                        &&& lm[i].0 == b[e].1[0]
                        &&& resolve_spec(lm[i].1[j].target, fs) == Some(b[e].0)
                    };
                lemma_resolve_in_files(lm[i].1[j].target, fs);
            }
            assert forall|e: int, k: int|
                #![trigger b[e].1[k]]
                0 <= e < b.len() && 0 <= k < b[e].1.len() implies is_source_key(
                lm,
                b[e].1[k],
            ) by {
                assert(references(lm, fs, b[e].1[k], b[e].0));
                let (i, j) = choose|i: int, j: int|
                    #![trigger lm[i].1[j]]
                    {
                        &&& 0 <= i < lm.len()
                        &&& 0 <= j < lm[i].1.len()
                        &&& lm[i].0 == b[e].1[k]
                        &&& resolve_spec(lm[i].1[j].target, fs) == Some(b[e].0)
                    };
                assert(0 <= i < lm.len() && lm[i].0 == b[e].1[k]);
            }
        }
        acc
    }

    /// All backlinks recorded for `file`, or none when the index has no
    /// entry for it.
    pub fn get_backlinks(&self, file: &str, backlinks_map: &BacklinksMap) -> (r: Vec<String>)
        ensures
            ({
                let b = backlinks_map.deep_view();
                &&& (exists|e: int| 0 <= e < b.len() && (#[trigger] b[e]).0 == file@) ==> exists|
                    e: int,
                |
                    {
                        &&& 0 <= e < b.len()
                        &&& (#[trigger] b[e]).0 == file@
                        &&& r.deep_view() == b[e].1
                    }
                &&& !(exists|e: int| 0 <= e < b.len() && (#[trigger] b[e]).0 == file@)
                    ==> r.deep_view() == Seq::<Seq<char>>::empty()
            }),
    {
        match find_key(backlinks_map, file) {
            Some(e) => {
                let ghost b = backlinks_map.deep_view();
                let sources = &backlinks_map[e].1;
                let mut out: Vec<String> = Vec::new();
                let mut k: usize = 0;
                while k < sources.len()
                    invariant
                        0 <= k <= sources.len(),
                        out.deep_view() =~= sources.deep_view().take(k as int),
                    decreases sources.len() - k,
                {
                    let ghost before = out.deep_view();
                    out.push(sources[k].clone());
                    proof {
                        assert(out.deep_view() =~= before.push(sources.deep_view()[k as int]));
                        assert(out.deep_view() =~= sources.deep_view().take(k as int + 1));
                    }
                    k = k + 1;
                }
                proof {
                    assert(out.deep_view() =~= sources.deep_view());
                    assert(sources.deep_view() == b[e as int].1);
                }
                out
            },
            None => {
                let r: Vec<String> = Vec::new();
                proof {
                    assert(r.deep_view() =~= Seq::<Seq<char>>::empty());
                }
                r
            },
        }
    }

    /// Build the forward index: the outbound links of every document,
    /// omitting documents without links.
    pub fn build_links_map(&self, files: &Vec<(String, String)>) -> (r: LinksMap)
        ensures
            r.deep_view() == forward_of(files.deep_view()),
    {
        let ghost docs = files.deep_view();
        let mut r: LinksMap = Vec::new();
        let mut ii: usize = 0;
        proof {
            assert(docs.skip(0) =~= docs);
            assert(r.deep_view() + forward_of(docs.skip(0)) =~= forward_of(docs));
        }
        while ii < files.len()
            invariant
                0 <= ii <= files.len(),
                docs == files.deep_view(),
                r.deep_view() + forward_of(docs.skip(ii as int)) == forward_of(docs),
            decreases files.len() - ii,
        {
            let entry = &files[ii];
            let links = self.extract(entry.1.as_str());
            proof {
                assert(docs.skip(ii as int)[0] == docs[ii as int]);
                assert(docs.skip(ii as int).drop_first() =~= docs.skip(ii as int + 1));
            }
            if links.len() > 0 {
                let ghost old_r = r.deep_view();
                r.push((entry.0.clone(), links));
                proof {
                    assert(links_of(docs[ii as int].1).len() > 0);
                    assert(r.deep_view() =~= old_r.push((docs[ii as int].0, links_of(
                        docs[ii as int].1,
                    ))));
                    assert(r.deep_view() + forward_of(docs.skip(ii as int + 1)) =~= forward_of(
                        docs,
                    ));
                }
            } else {
                proof {
                    assert(links_of(docs[ii as int].1).len() == 0);
                    assert(r.deep_view() + forward_of(docs.skip(ii as int + 1)) =~= forward_of(
                        docs,
                    ));
                }
            }
            ii = ii + 1;
        }
        proof {
            assert(docs.skip(docs.len() as int) =~= Seq::<(Seq<char>, Seq<char>)>::empty());
            assert(r.deep_view() =~= forward_of(docs));
        }
        r
    }

    /// Find the links that resolve to no file, per source document,
    /// omitting documents whose links all resolve.
    pub fn find_broken_links(&self, links_map: &LinksMap, vault_files: &Vec<String>) -> (r: Vec<
        (String, Vec<String>),
    >)
        ensures
            r.deep_view() == broken_of(links_map.deep_view(), vault_files.deep_view()),
    {
        let ghost lm = links_map.deep_view();
        let ghost fs = vault_files.deep_view();
        let mut r: Vec<(String, Vec<String>)> = Vec::new();
        let mut ii: usize = 0;
        proof {
            assert(lm.skip(0) =~= lm);
            assert(r.deep_view() + broken_of(lm.skip(0), fs) =~= broken_of(lm, fs));
        }
        while ii < links_map.len()
            invariant
                0 <= ii <= links_map.len(),
                lm == links_map.deep_view(),
                fs == vault_files.deep_view(),
                r.deep_view() + broken_of(lm.skip(ii as int), fs) == broken_of(lm, fs),
            decreases links_map.len() - ii,
        {
            let entry = &links_map[ii];
            let ghost links = lm[ii as int].1;
            let mut bt: Vec<String> = Vec::new();
            let mut jj: usize = 0;
            proof {
                assert(links.skip(0) =~= links);
                assert(bt.deep_view() + failing_targets(links.skip(0), fs) =~= failing_targets(
                    links,
                    fs,
                ));
            }
            while jj < entry.1.len()
                invariant
                    0 <= jj <= entry.1.len(),
                    entry == &links_map@[ii as int],
                    0 <= ii < links_map.len(),
                    lm == links_map.deep_view(),
                    fs == vault_files.deep_view(),
                    links == lm[ii as int].1,
                    bt.deep_view() + failing_targets(links.skip(jj as int), fs)
                        == failing_targets(links, fs),
                decreases entry.1.len() - jj,
            {
                let w = &entry.1[jj];
                proof {
                    assert(links.skip(jj as int)[0] == links[jj as int]);
                    assert(links[jj as int] == entry.1[jj as int]@);
                    assert(links.skip(jj as int).drop_first() =~= links.skip(jj as int + 1));
                }
                let resolved = self.resolve_link(w.target.as_str(), vault_files);
                if resolved.is_none() {
                    let ghost old_bt = bt.deep_view();
                    bt.push(w.target.clone());
                    proof {
                        assert(bt.deep_view() =~= old_bt.push(links[jj as int].target));
                        assert(bt.deep_view() + failing_targets(links.skip(jj as int + 1), fs)
                            =~= failing_targets(links, fs));
                    }
                } else {
                    proof {
                        assert(bt.deep_view() + failing_targets(links.skip(jj as int + 1), fs)
                            =~= failing_targets(links, fs));
                    }
                }
                jj = jj + 1;
            }
            proof {
                assert(links.skip(links.len() as int) =~= Seq::<LinkV>::empty());
                assert(bt.deep_view() =~= failing_targets(links, fs));
                assert(lm.skip(ii as int)[0] == lm[ii as int]);
                assert(lm.skip(ii as int).drop_first() =~= lm.skip(ii as int + 1));
            }
            if bt.len() > 0 {
                let ghost old_r = r.deep_view();
                r.push((entry.0.clone(), bt));
                proof {
                    assert(r.deep_view() =~= old_r.push((lm[ii as int].0, failing_targets(
                        links,
                        fs,
                    ))));
                    assert(r.deep_view() + broken_of(lm.skip(ii as int + 1), fs) =~= broken_of(
                        lm,
                        fs,
                    ));
                }
            } else {
                proof {
                    assert(r.deep_view() + broken_of(lm.skip(ii as int + 1), fs) =~= broken_of(
                        lm,
                        fs,
                    ));
                }
            }
            ii = ii + 1;
        }
        proof {
            assert(lm.skip(lm.len() as int) =~= Seq::<(Seq<char>, Seq<LinkV>)>::empty());
            assert(r.deep_view() =~= broken_of(lm, fs));
        }
        r
    }
}

/// Maps each document path to its outbound links, in order of occurrence.
/// Documents without links carry no entry.
pub type LinksMap = Vec<(String, Vec<WikiLink>)>;

/// Maps each resolved target path to the paths that reference it, sorted
/// and deduplicated.
pub type BacklinksMap = Vec<(String, Vec<String>)>;

// ---------------------------------------------------------------------------
// Resolution
// ---------------------------------------------------------------------------

/// The target equals the file's stem, case-folded.
pub open spec fn stem_matches(target: Seq<char>, file: Seq<char>) -> bool {
    lower_of(stem_of(file_name_of(file))) == lower_of(target)
}

/// The target with the note extension appended, unless already present.
pub open spec fn with_md_ext(target: Seq<char>) -> Seq<char> {
    if has_md_suffix(target) {
        target
    } else {
        target + seq!['.', 'm', 'd']
    }
}

/// The extension-qualified target equals the file's name, case-folded.
pub open spec fn name_matches(target: Seq<char>, file: Seq<char>) -> bool {
    lower_of(file_name_of(file)) == lower_of(with_md_ext(target))
}

/// Index of the first file at or after `i` satisfying `p`, if any.
pub open spec fn first_from(files: Seq<Seq<char>>, i: int, p: spec_fn(Seq<char>) -> bool) -> Option<
    int,
>
    recommends
        0 <= i,
    decreases files.len() - i,
{
    if i < 0 || i >= files.len() {
        None
    } else if p(files[i]) {
        Some(i)
    } else {
        first_from(files, i + 1, p)
    }
}

pub proof fn lemma_first_from_props(files: Seq<Seq<char>>, i: int, p: spec_fn(Seq<char>) -> bool)
    requires
        0 <= i,
    ensures
        first_from(files, i, p) matches Some(j) ==> i <= j < files.len() && p(files[j]) && forall|
            k: int,
        | i <= k < j ==> !p(#[trigger] files[k]),
        first_from(files, i, p) is None ==> forall|k: int|
            i <= k < files.len() ==> !p(#[trigger] files[k]),
    decreases files.len() - i,
{
    if i < files.len() && !p(files[i]) {
        lemma_first_from_props(files, i + 1, p);
    }
}

pub proof fn lemma_first_from_finds(
    files: Seq<Seq<char>>,
    i: int,
    w: int,
    p: spec_fn(Seq<char>) -> bool,
)
    requires
        0 <= i <= w < files.len(),
        p(files[w]),
    ensures
        first_from(files, i, p) is Some,
    decreases w - i,
{
    if i < w && !p(files[i]) {
        lemma_first_from_finds(files, i + 1, w, p);
    }
}

/// The file a target resolves to, if any: the first file whose stem
/// matches, else the first whose extension-qualified name matches.
pub open spec fn resolve_spec(target: Seq<char>, files: Seq<Seq<char>>) -> Option<Seq<char>> {
    match first_from(files, 0, |f: Seq<char>| stem_matches(target, f)) {
        Some(i) => Some(files[i]),
        None => match first_from(files, 0, |f: Seq<char>| name_matches(target, f)) {
            Some(i) => Some(files[i]),
            None => None,
        },
    }
}

/// Law: a target equal, case-insensitively, to some file's stem always
/// resolves, to the first such file, even when a different file would
/// satisfy the extension-qualified stage.
pub proof fn lemma_stem_match_wins(target: Seq<char>, files: Seq<Seq<char>>, w: int)
    requires
        0 <= w < files.len(),
        stem_matches(target, files[w]),
    ensures
        resolve_spec(target, files) is Some,
        exists|j: int|
            {
                &&& 0 <= j <= w
                &&& resolve_spec(target, files) == Some(files[j])
                &&& stem_matches(target, #[trigger] files[j])
                &&& forall|k: int| 0 <= k < j ==> !stem_matches(target, files[k])
            },
{
    let p = |f: Seq<char>| stem_matches(target, f);
    lemma_first_from_finds(files, 0, w, p);
    lemma_first_from_props(files, 0, p);
    let j = first_from(files, 0, p)->0;
    assert(j <= w) by {
        if j > w {
            assert(!p(files[w]));
        }
    }
    assert(forall|k: int| 0 <= k < j ==> !stem_matches(target, #[trigger] files[k]));
    assert(0 <= j <= w && resolve_spec(target, files) == Some(files[j]) && stem_matches(
        target,
        files[j],
    ));
}

/// Law: whatever a target resolves to is one of the vault's files.
pub proof fn lemma_resolve_in_files(target: Seq<char>, files: Seq<Seq<char>>)
    ensures
        resolve_spec(target, files) matches Some(f) ==> files.contains(f),
{
    lemma_first_from_props(files, 0, |f: Seq<char>| stem_matches(target, f));
    lemma_first_from_props(files, 0, |f: Seq<char>| name_matches(target, f));
    match first_from(files, 0, |f: Seq<char>| stem_matches(target, f)) {
        Some(i) => {
            assert(files.contains(files[i]));
        },
        None => {
            match first_from(files, 0, |f: Seq<char>| name_matches(target, f)) {
                Some(i) => {
                    assert(files.contains(files[i]));
                },
                None => {},
            }
        },
    }
}

/// Law: a target matching no stem and no extension-qualified file name
/// does not resolve.
pub proof fn lemma_no_match_resolves_none(target: Seq<char>, files: Seq<Seq<char>>)
    requires
        forall|k: int|
            0 <= k < files.len() ==> !stem_matches(target, #[trigger] files[k]) && !name_matches(
                target,
                files[k],
            ),
    ensures
        resolve_spec(target, files) is None,
{
    lemma_first_from_props(files, 0, |f: Seq<char>| stem_matches(target, f));
    lemma_first_from_props(files, 0, |f: Seq<char>| name_matches(target, f));
    match first_from(files, 0, |f: Seq<char>| stem_matches(target, f)) {
        Some(i) => {
            assert(stem_matches(target, files[i]));
            assert(false);
        },
        None => {},
    }
    match first_from(files, 0, |f: Seq<char>| name_matches(target, f)) {
        Some(i) => {
            assert(name_matches(target, files[i]));
            assert(false);
        },
        None => {},
    }
}

// ---------------------------------------------------------------------------
// The backward index
// ---------------------------------------------------------------------------

/// Strict pairwise lexicographic order: sorted, with no value twice.
pub open spec fn strictly_sorted(v: Seq<Seq<char>>) -> bool {
    forall|a: int, b: int| 0 <= a < b < v.len() ==> lex_lt(#[trigger] v[a], #[trigger] v[b])
}

/// Law: a strictly ordered sequence is sorted and holds no duplicates.
pub proof fn lemma_strictly_sorted_no_dup(v: Seq<Seq<char>>)
    requires
        strictly_sorted(v),
    ensures
        forall|a: int, b: int| 0 <= a < b < v.len() ==> #[trigger] v[a] != #[trigger] v[b],
{
    assert forall|a: int, b: int| 0 <= a < b < v.len() implies #[trigger] v[a] != #[trigger] v[b] by {
        lemma_lex_trichotomy(v[a], v[b]);
    }
}

/// Document `src` holds a reference that resolves to `tgt`, somewhere in
/// the forward index `lm`.
pub open spec fn references(
    lm: Seq<(Seq<char>, Seq<LinkV>)>,
    files: Seq<Seq<char>>,
    src: Seq<char>,
    tgt: Seq<char>,
) -> bool {
    exists|i: int, j: int|
        #![trigger lm[i].1[j]]
        {
            &&& 0 <= i < lm.len()
            &&& 0 <= j < lm[i].1.len()
            &&& lm[i].0 == src
            &&& resolve_spec(lm[i].1[j].target, files) == Some(tgt)
        }
}

/// `src` is one of the forward index's keys.
pub open spec fn is_source_key(lm: Seq<(Seq<char>, Seq<LinkV>)>, src: Seq<char>) -> bool {
    exists|i: int| 0 <= i < lm.len() && (#[trigger] lm[i]).0 == src
}

/// `references`, restricted to the part of `lm` before entry `ii`, plus
/// the first `jj` links of entry `ii`.
pub open spec fn references_upto(
    lm: Seq<(Seq<char>, Seq<LinkV>)>,
    files: Seq<Seq<char>>,
    src: Seq<char>,
    tgt: Seq<char>,
    ii: int,
    jj: int,
) -> bool {
    exists|i: int, j: int|
        #![trigger lm[i].1[j]]
        {
            &&& 0 <= i < lm.len()
            &&& 0 <= j < lm[i].1.len()
            &&& (i < ii || (i == ii && j < jj))
            &&& lm[i].0 == src
            &&& resolve_spec(lm[i].1[j].target, files) == Some(tgt)
        }
}

proof fn lemma_upto_mono(
    lm: Seq<(Seq<char>, Seq<LinkV>)>,
    files: Seq<Seq<char>>,
    ii1: int,
    jj1: int,
    ii2: int,
    jj2: int,
)
    requires
        ii1 < ii2 || (ii1 == ii2 && jj1 <= jj2),
    ensures
        forall|src: Seq<char>, tgt: Seq<char>|
            #[trigger] references_upto(lm, files, src, tgt, ii1, jj1) ==> references_upto(
                lm,
                files,
                src,
                tgt,
                ii2,
                jj2,
            ),
{
    assert forall|src: Seq<char>, tgt: Seq<char>|
        #[trigger] references_upto(lm, files, src, tgt, ii1, jj1) implies references_upto(
        lm,
        files,
        src,
        tgt,
        ii2,
        jj2,
    ) by {
        let (i, j) = choose|i: int, j: int|
            #![trigger lm[i].1[j]]
            {
                &&& 0 <= i < lm.len()
                &&& 0 <= j < lm[i].1.len()
                &&& (i < ii1 || (i == ii1 && j < jj1))
                &&& lm[i].0 == src
                &&& resolve_spec(lm[i].1[j].target, files) == Some(tgt)
            };
        assert(i < ii2 || (i == ii2 && j < jj2));
    }
}

proof fn lemma_upto_none(lm: Seq<(Seq<char>, Seq<LinkV>)>, files: Seq<Seq<char>>)
    ensures
        forall|src: Seq<char>, tgt: Seq<char>|
            !references_upto(lm, files, src, tgt, 0, 0),
{
    assert forall|src: Seq<char>, tgt: Seq<char>|
        !(#[trigger] references_upto(lm, files, src, tgt, 0, 0)) by {
        if references_upto(lm, files, src, tgt, 0, 0) {
            let (i, j) = choose|i: int, j: int|
                #![trigger lm[i].1[j]]
                {
                    &&& 0 <= i < lm.len()
                    &&& 0 <= j < lm[i].1.len()
                    &&& (i < 0 || (i == 0 && j < 0))
                    &&& lm[i].0 == src
                    &&& resolve_spec(lm[i].1[j].target, files) == Some(tgt)
                };
            assert(false);
        }
    }
}

proof fn lemma_upto_step_none(
    lm: Seq<(Seq<char>, Seq<LinkV>)>,
    files: Seq<Seq<char>>,
    ii: int,
    jj: int,
)
    requires
        0 <= ii < lm.len(),
        0 <= jj < lm[ii].1.len(),
        resolve_spec(lm[ii].1[jj].target, files) is None,
    ensures
        forall|src: Seq<char>, tgt: Seq<char>|
            #[trigger] references_upto(lm, files, src, tgt, ii, jj + 1) <==> #[trigger]
            references_upto(lm, files, src, tgt, ii, jj),
{
    lemma_upto_mono(lm, files, ii, jj, ii, jj + 1);
    assert forall|src: Seq<char>, tgt: Seq<char>|
        #[trigger] references_upto(lm, files, src, tgt, ii, jj + 1) implies references_upto(
        lm,
        files,
        src,
        tgt,
        ii,
        jj,
    ) by {
        let (i, j) = choose|i: int, j: int|
            #![trigger lm[i].1[j]]
            {
                &&& 0 <= i < lm.len()
                &&& 0 <= j < lm[i].1.len()
                &&& (i < ii || (i == ii && j < jj + 1))
                &&& lm[i].0 == src
                &&& resolve_spec(lm[i].1[j].target, files) == Some(tgt)
            };
        if i == ii && j == jj {
            assert(false);
        }
        assert(i < ii || (i == ii && j < jj));
    }
}

proof fn lemma_upto_rollover(lm: Seq<(Seq<char>, Seq<LinkV>)>, files: Seq<Seq<char>>, ii: int)
    requires
        0 <= ii < lm.len(),
    ensures
        forall|src: Seq<char>, tgt: Seq<char>|
            #[trigger] references_upto(lm, files, src, tgt, ii, lm[ii].1.len() as int) <==> #[trigger]
            references_upto(lm, files, src, tgt, ii + 1, 0),
{
    assert forall|src: Seq<char>, tgt: Seq<char>|
        #[trigger] references_upto(lm, files, src, tgt, ii, lm[ii].1.len() as int) <==> #[trigger]
        references_upto(lm, files, src, tgt, ii + 1, 0) by {
        if references_upto(lm, files, src, tgt, ii, lm[ii].1.len() as int) {
            let (i, j) = choose|i: int, j: int|
                #![trigger lm[i].1[j]]
                {
                    &&& 0 <= i < lm.len()
                    &&& 0 <= j < lm[i].1.len()
                    &&& (i < ii || (i == ii && j < lm[ii].1.len()))
                    &&& lm[i].0 == src
                    &&& resolve_spec(lm[i].1[j].target, files) == Some(tgt)
                };
            assert(i < ii + 1);
            assert(references_upto(lm, files, src, tgt, ii + 1, 0));
        }
        if references_upto(lm, files, src, tgt, ii + 1, 0) {
            let (i, j) = choose|i: int, j: int|
                #![trigger lm[i].1[j]]
                {
                    &&& 0 <= i < lm.len()
                    &&& 0 <= j < lm[i].1.len()
                    &&& (i < ii + 1 || (i == ii + 1 && j < 0))
                    &&& lm[i].0 == src
                    &&& resolve_spec(lm[i].1[j].target, files) == Some(tgt)
                };
            assert(i < ii || (i == ii && j < lm[ii].1.len()));
            assert(references_upto(lm, files, src, tgt, ii, lm[ii].1.len() as int));
        }
    }
}

proof fn lemma_upto_full(lm: Seq<(Seq<char>, Seq<LinkV>)>, files: Seq<Seq<char>>)
    ensures
        forall|src: Seq<char>, tgt: Seq<char>|
            #[trigger] references_upto(lm, files, src, tgt, lm.len() as int, 0) <==> #[trigger]
            references(lm, files, src, tgt),
{
    assert forall|src: Seq<char>, tgt: Seq<char>|
        #[trigger] references_upto(lm, files, src, tgt, lm.len() as int, 0) <==> #[trigger]
        references(lm, files, src, tgt) by {
        if references_upto(lm, files, src, tgt, lm.len() as int, 0) {
            let (i, j) = choose|i: int, j: int|
                #![trigger lm[i].1[j]]
                {
                    &&& 0 <= i < lm.len()
                    &&& 0 <= j < lm[i].1.len()
                    &&& (i < lm.len() || (i == lm.len() && j < 0))
                    &&& lm[i].0 == src
                    &&& resolve_spec(lm[i].1[j].target, files) == Some(tgt)
                };
            assert(references(lm, files, src, tgt));
        }
        if references(lm, files, src, tgt) {
            let (i, j) = choose|i: int, j: int|
                #![trigger lm[i].1[j]]
                {
                    &&& 0 <= i < lm.len()
                    &&& 0 <= j < lm[i].1.len()
                    &&& lm[i].0 == src
                    &&& resolve_spec(lm[i].1[j].target, files) == Some(tgt)
                };
            assert(references_upto(lm, files, src, tgt, lm.len() as int, 0));
        }
    }
}

/// Inserts `x` into a strictly sorted vector, keeping it strictly sorted:
/// the result holds the old values and `x`, each once.
fn insert_sorted_unique(v: &mut Vec<String>, x: &str)
    requires
        strictly_sorted(old(v).deep_view()),
    ensures
        strictly_sorted(final(v).deep_view()),
        forall|y: Seq<char>|
            #![trigger final(v).deep_view().contains(y)]
            #![trigger old(v).deep_view().contains(y)]
            final(v).deep_view().contains(y) <==> (old(v).deep_view().contains(y) || y == x@),
{
    let ghost dv0 = old(v).deep_view();
    let mut i: usize = 0;
    while i < v.len() && str_lt(v[i].as_str(), x)
        invariant
            0 <= i <= v.len(),
            v == old(v),
            dv0 == v.deep_view(),
            forall|k: int| 0 <= k < i ==> lex_lt(#[trigger] dv0[k], x@),
        decreases v.len() - i,
    {
        i = i + 1;
    }
    if i < v.len() {
        let present = str_eq(v[i].as_str(), x);
        if present {
            proof {
                assert(dv0[i as int] == x@);
                assert(dv0.contains(x@));
            }
            return;
        }
        proof {
            lemma_lex_trichotomy(dv0[i as int], x@);
            assert(lex_lt(x@, dv0[i as int]));
        }
    }
    let xo = x.to_owned();
    let ghost n0 = dv0.len() as int;
    v.insert(i, xo);
    proof {
        let nd = v.deep_view();
        assert forall|idx: int| 0 <= idx < nd.len() implies nd[idx] == (if idx < i as int {
            dv0[idx]
        } else if idx == i as int {
            x@
        } else {
            dv0[idx - 1]
        }) by {}
        assert(nd.len() == n0 + 1);
        assert forall|a: int, b: int| 0 <= a < b < nd.len() implies lex_lt(
            #[trigger] nd[a],
            #[trigger] nd[b],
        ) by {
            if b < i as int {
            } else if a < i as int && b == i as int {
                assert(lex_lt(dv0[a], x@));
            } else if a < i as int && b > i as int {
                assert(lex_lt(dv0[a], dv0[b - 1]));
            } else if a == i as int && b > i as int {
                if b - 1 == i as int {
                    assert(lex_lt(x@, dv0[i as int]));
                } else {
                    assert(lex_lt(x@, dv0[i as int]));
                    assert(lex_lt(dv0[i as int], dv0[b - 1]));
                    crate::text::lemma_lex_trans(x@, dv0[i as int], dv0[b - 1]);
                }
            } else {
                assert(lex_lt(dv0[a - 1], dv0[b - 1]));
            }
        }
        assert forall|y: Seq<char>|
            #![trigger nd.contains(y)]
            #![trigger dv0.contains(y)]
            nd.contains(y) <==> (dv0.contains(y) || y == x@) by {
            if nd.contains(y) {
                let idx = choose|idx: int| 0 <= idx < nd.len() && nd[idx] == y;
                if idx < i as int {
                    assert(dv0[idx] == y);
                    assert(dv0.contains(y));
                } else if idx == i as int {
                } else {
                    assert(dv0[idx - 1] == y);
                    assert(dv0.contains(y));
                }
            }
            if dv0.contains(y) {
                let idx = choose|idx: int| 0 <= idx < dv0.len() && dv0[idx] == y;
                if idx < i as int {
                    assert(nd[idx] == y);
                } else {
                    assert(nd[idx + 1] == y);
                }
                assert(nd.contains(y));
            }
            if y == x@ {
                assert(nd[i as int] == y);
                assert(nd.contains(y));
            }
        }
    }
}

/// Finds the entry of `acc` whose key is `key`, if one exists.
fn find_key(acc: &Vec<(String, Vec<String>)>, key: &str) -> (r: Option<usize>)
    ensures
        r matches Some(e) ==> e < acc.len() && acc.deep_view()[e as int].0 == key@,
        r is None ==> forall|e: int|
            0 <= e < acc.len() ==> (#[trigger] acc.deep_view()[e]).0 != key@,
{
    let mut e: usize = 0;
    while e < acc.len()
        invariant
            0 <= e <= acc.len(),
            forall|k: int| 0 <= k < e ==> (#[trigger] acc.deep_view()[k]).0 != key@,
        decreases acc.len() - e,
    {
        if str_eq(acc[e].0.as_str(), key) {
            return Some(e);
        }
        e = e + 1;
    }
    None
}

// ---------------------------------------------------------------------------
// The forward index and the broken-link report
// ---------------------------------------------------------------------------

/// The forward index of a document sequence: one entry per document with
/// at least one reference, in document order.
pub open spec fn forward_of(docs: Seq<(Seq<char>, Seq<char>)>) -> Seq<(Seq<char>, Seq<LinkV>)>
    decreases docs.len(),
{
    if docs.len() == 0 {
        Seq::empty()
    } else {
        let head: Seq<(Seq<char>, Seq<LinkV>)> = if links_of(docs[0].1).len() == 0 {
            Seq::empty()
        } else {
            seq![(docs[0].0, links_of(docs[0].1))]
        };
        head + forward_of(docs.drop_first())
    }
}

/// The targets of `links` that fail resolution, in order of occurrence.
pub open spec fn failing_targets(links: Seq<LinkV>, files: Seq<Seq<char>>) -> Seq<Seq<char>>
    decreases links.len(),
{
    if links.len() == 0 {
        Seq::empty()
    } else {
        let rest = failing_targets(links.drop_first(), files);
        if resolve_spec(links[0].target, files) is None {
            seq![links[0].target] + rest
        } else {
            rest
        }
    }
}

/// The broken-link report of a forward index: one entry per source with
/// at least one failing target, in index order.
pub open spec fn broken_of(lm: Seq<(Seq<char>, Seq<LinkV>)>, files: Seq<Seq<char>>) -> Seq<
    (Seq<char>, Seq<Seq<char>>),
>
    decreases lm.len(),
{
    if lm.len() == 0 {
        Seq::empty()
    } else {
        let ft = failing_targets(lm[0].1, files);
        let head: Seq<(Seq<char>, Seq<Seq<char>>)> = if ft.len() == 0 {
            Seq::empty()
        } else {
            seq![(lm[0].0, ft)]
        };
        head + broken_of(lm.drop_first(), files)
    }
}

pub proof fn lemma_failing_contains(links: Seq<LinkV>, files: Seq<Seq<char>>, j: int)
    requires
        0 <= j < links.len(),
        resolve_spec(links[j].target, files) is None,
    ensures
        failing_targets(links, files).contains(links[j].target),
    decreases j,
{
    let whole = failing_targets(links, files);
    let rest = failing_targets(links.drop_first(), files);
    if j == 0 {
        assert(whole[0] == links[0].target);
    } else {
        lemma_failing_contains(links.drop_first(), files, j - 1);
        assert(links.drop_first()[j - 1] == links[j]);
        let i = choose|i: int| 0 <= i < rest.len() && rest[i] == links[j].target;
        if resolve_spec(links[0].target, files) is None {
            assert(whole[i + 1] == links[j].target);
        } else {
            assert(whole[i] == links[j].target);
        }
    }
}

/// Law: a target that fails resolution and occurs in a document is
/// reported, for that document, by the broken-link report.
pub proof fn lemma_broken_reported(
    lm: Seq<(Seq<char>, Seq<LinkV>)>,
    files: Seq<Seq<char>>,
    i: int,
    j: int,
)
    requires
        0 <= i < lm.len(),
        0 <= j < lm[i].1.len(),
        resolve_spec(lm[i].1[j].target, files) is None,
    ensures
        exists|e: int|
            {
                &&& 0 <= e < broken_of(lm, files).len()
                &&& (#[trigger] broken_of(lm, files)[e]).0 == lm[i].0
                &&& broken_of(lm, files)[e].1.contains(lm[i].1[j].target)
            },
    decreases i,
{
    let whole = broken_of(lm, files);
    let ft = failing_targets(lm[0].1, files);
    if i == 0 {
        lemma_failing_contains(lm[0].1, files, j);
        assert(ft.len() > 0);
        assert(whole[0] == (lm[0].0, ft));
    } else {
        lemma_broken_reported(lm.drop_first(), files, i - 1, j);
        assert(lm.drop_first()[i - 1] == lm[i]);
        let rest = broken_of(lm.drop_first(), files);
        let e = choose|e: int|
            0 <= e < rest.len() && (#[trigger] rest[e]).0 == lm[i].0 && rest[e].1.contains(
                lm[i].1[j].target,
            );
        let h: int = if ft.len() == 0 {
            0
        } else {
            1
        };
        assert(whole[e + h] == rest[e]);
    }
}

/// Computes the stem of the final segment of `f`, lowercased.
fn lower_stem(f: &str) -> (r: String)
    ensures
        r@ == lower_of(stem_of(file_name_of(f@))),
{
    let ns = file_name_start(f);
    let n = f.unicode_len();
    proof {
        crate::paths::lemma_seg_start(f@, n as int);
    }
    let name = f.substring_char(ns, n);
    let e = stem_split(name);
    let m = name.unicode_len();
    proof {
        crate::paths::lemma_stem_end(name@, m as int);
    }
    if e == 0 {
        lowercase(name)
    } else {
        let stem = name.substring_char(0, e);
        lowercase(stem)
    }
}

/// Computes the final segment of `f`, lowercased.
fn lower_name(f: &str) -> (r: String)
    ensures
        r@ == lower_of(file_name_of(f@)),
{
    let ns = file_name_start(f);
    let n = f.unicode_len();
    proof {
        crate::paths::lemma_seg_start(f@, n as int);
    }
    let name = f.substring_char(ns, n);
    lowercase(name)
}

impl Default for LinkExtractor {
    /// The same extractor `new` creates.
    fn default() -> (r: Self)
        ensures
            r == (LinkExtractor {  }),
    {
        LinkExtractor::new()
    }
}

/// Scans the run of target characters starting at `i`.
fn scan_target_end(s: &str, i: usize, n: usize) -> (r: usize)
    requires
        n == s@.len(),
        i <= n,
    ensures
        i <= r <= n,
        r as int == run_end(s@, i as int, |c: char| is_target_char(c)),
{
    let mut j = i;
    while j < n && s.get_char(j) != ']' && s.get_char(j) != '|'
        invariant
            i <= j <= n,
            n == s@.len(),
            forall|k: int| i <= k < j ==> is_target_char(s@[k]),
        decreases n - j,
    {
        j = j + 1;
    }
    proof {
        lemma_run_end_is(s@, i as int, j as int, |c: char| is_target_char(c));
    }
    j
}

/// Scans the run of display characters starting at `i`.
fn scan_display_end(s: &str, i: usize, n: usize) -> (r: usize)
    requires
        n == s@.len(),
        i <= n,
    ensures
        i <= r <= n,
        r as int == run_end(s@, i as int, |c: char| is_display_char(c)),
{
    let mut j = i;
    while j < n && s.get_char(j) != ']'
        invariant
            i <= j <= n,
            n == s@.len(),
            forall|k: int| i <= k < j ==> is_display_char(s@[k]),
        decreases n - j,
    {
        j = j + 1;
    }
    proof {
        lemma_run_end_is(s@, i as int, j as int, |c: char| is_display_char(c));
    }
    j
}

/// Matches the reference grammar at position `i`, returning the finished
/// reference and the position just past the match.
fn match_link_at(s: &str, i: usize, n: usize, bpos: usize) -> (r: Option<(WikiLink, usize)>)
    requires
        n == s@.len(),
        i < n,
        bpos as int == byte_pos(s@, i as int),
    ensures
        r is Some <==> match_at(s@, i as int) is Some,
        r matches Some(p) ==> {
            &&& match_at(s@, i as int) matches Some(m) && p.0@ == link_of_raw(s@, m) && p.1 as int
                == m.end
        },
{
    if i + 1 >= n {
        return None;
    }
    if s.get_char(i) != '[' || s.get_char(i + 1) != '[' {
        return None;
    }
    let t_start = i + 2;
    let t_end = scan_target_end(s, t_start, n);
    if t_end == t_start {
        return None;
    }
    if t_end < n && s.get_char(t_end) == '|' {
        let d_start = t_end + 1;
        let d_end = scan_display_end(s, d_start, n);
        if d_end > d_start && d_end < n - 1 && s.get_char(d_end) == ']' && s.get_char(d_end + 1)
            == ']' {
            let tr = trim_range(s, t_start, t_end);
            let target = copy_range(s, tr.0, tr.1);
            let dr = trim_range(s, d_start, d_end);
            let display = copy_range(s, dr.0, dr.1);
            let w = WikiLink { target, display: Some(display), position: bpos };
            Some((w, d_end + 2))
        } else {
            None
        }
    } else if t_end < n - 1 && s.get_char(t_end) == ']' && s.get_char(t_end + 1) == ']' {
        let tr = trim_range(s, t_start, t_end);
        let target = copy_range(s, tr.0, tr.1);
        let w = WikiLink { target, display: None, position: bpos };
        Some((w, t_end + 2))
    } else {
        None
    }
}

} // verus!
