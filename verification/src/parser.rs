//! Markdown structure: rendering is delegated to the comrak library;
//! the structural extraction the collaborator contract fixes — headings
//! from leading `#` runs, fenced code blocks from triple-backtick lines
//! — is computed and specified here.

use vstd::prelude::*;
use crate::error::ArkeError;
use crate::text::{
    copy_range, dec_digits, is_ws, lemma_run_end, lemma_run_end_is, lemma_run_end_shift, run_end,
    trim_range, trimmed,
};

verus! {

#[verifier::external_type_specification]
#[verifier::external_body]
pub struct ExComrakOptions<'c>(comrak::Options<'c>);

/// Markdown parser, rendering through comrak.
pub struct MarkdownParser {
    options: comrak::Options<'static>,
}

/// A heading of a document.
#[derive(Debug, Clone)]
pub struct Heading {
    pub level: u8,
    pub text: String,
    pub id: String,
}

/// Mathematical model of a heading.
pub ghost struct HeadingV {
    pub level: int,
    pub text: Seq<char>,
    pub id: Seq<char>,
}

impl View for Heading {
    type V = HeadingV;

    open spec fn view(&self) -> HeadingV {
        HeadingV { level: self.level as int, text: self.text@, id: self.id@ }
    }
}

impl DeepView for Heading {
    type V = HeadingV;

    open spec fn deep_view(&self) -> HeadingV {
        self.view()
    }
}

/// A fenced code block of a document.
#[derive(Debug, Clone)]
pub struct CodeBlock {
    pub language: Option<String>,
    pub code: String,
}

/// Mathematical model of a code block.
pub ghost struct CodeBlockV {
    pub language: Option<Seq<char>>,
    pub code: Seq<char>,
}

impl View for CodeBlock {
    type V = CodeBlockV;

    open spec fn view(&self) -> CodeBlockV {
        CodeBlockV {
            language: match self.language {
                Some(l) => Some(l@),
                None => None,
            },
            code: self.code@,
        }
    }
}

impl DeepView for CodeBlock {
    type V = CodeBlockV;

    open spec fn deep_view(&self) -> CodeBlockV {
        self.view()
    }
}

/// A parsed document: its text, its rendering, and its structure.
#[derive(Debug, Clone)]
pub struct ParsedMarkdown {
    /// Original markdown content.
    pub raw: String,
    /// Rendered HTML.
    pub html: String,
    /// Extracted headings.
    pub headings: Vec<Heading>,
    /// Extracted code blocks.
    pub code_blocks: Vec<CodeBlock>,
}

// ---------------------------------------------------------------------------
// Lines
// ---------------------------------------------------------------------------

/// A line as yielded before a separator: one trailing carriage return
/// is dropped.
pub open spec fn strip_cr(line: Seq<char>) -> Seq<char> {
    if line.len() > 0 && line.last() == '\r' {
        line.drop_last()
    } else {
        line
    }
}

/// The lines of `s`, split at `\n`; a line before a separator loses one
/// trailing `\r`, the final unterminated line is kept as it stands, and
/// a trailing separator yields no extra line.
pub open spec fn lines_of(s: Seq<char>) -> Seq<Seq<char>>
    decreases s.len()
        when true
        via lines_of_dec
{
    if s.len() == 0 {
        Seq::empty()
    } else {
        let e = run_end(s, 0, |c: char| c != '\n');
        if e >= s.len() {
            seq![s]
        } else {
            seq![strip_cr(s.subrange(0, e))] + lines_of(s.skip(e + 1))
        }
    }
}

#[via_fn]
proof fn lines_of_dec(s: Seq<char>) {
    if s.len() > 0 {
        lemma_run_end(s, 0, |c: char| c != '\n');
    }
}

// ---------------------------------------------------------------------------
// Headings
// ---------------------------------------------------------------------------

/// The heading a line carries, if any: the trimmed line must begin with
/// a run of at most six `#` characters; the level is the run's length
/// and the text is the trimmed remainder.
pub open spec fn heading_of_line(line: Seq<char>) -> Option<(int, Seq<char>)> {
    let t = trimmed(line);
    if t.len() > 0 && t[0] == '#' {
        let h = run_end(t, 1, |c: char| c == '#');
        if h <= 6 {
            Some((h, trimmed(t.skip(h))))
        } else {
            None
        }
    } else {
        None
    }
}

/// The anchor assigned to the heading at position `k` of the result.
pub open spec fn heading_id(k: int) -> Seq<char> {
    "heading-"@ + dec_digits(k)
}

/// The headings carried by `ls`, with anchors numbered from `next`.
pub open spec fn headings_of_lines(ls: Seq<Seq<char>>, next: int) -> Seq<HeadingV>
    decreases ls.len(),
{
    if ls.len() == 0 {
        Seq::empty()
    } else {
        match heading_of_line(ls[0]) {
            Some(ht) => seq![HeadingV { level: ht.0, text: ht.1, id: heading_id(next) }]
                + headings_of_lines(ls.drop_first(), next + 1),
            None => headings_of_lines(ls.drop_first(), next),
        }
    }
}

/// Every heading of the text `s`, in order.
pub open spec fn headings_of(s: Seq<char>) -> Seq<HeadingV> {
    headings_of_lines(lines_of(s), 0)
}

// ---------------------------------------------------------------------------
// Code blocks
// ---------------------------------------------------------------------------

/// Whether the line opens or closes a fence: after left trimming it
/// begins with three backticks.
pub open spec fn is_fence(line: Seq<char>) -> bool {
    let u = line.skip(run_end(line, 0, |c: char| is_ws(c)));
    u.len() >= 3 && u[0] == '`' && u[1] == '`' && u[2] == '`'
}

/// Leading triple-backtick groups removed, repeatedly.
pub open spec fn strip_fences(u: Seq<char>) -> Seq<char>
    decreases u.len(),
{
    if u.len() >= 3 && u[0] == '`' && u[1] == '`' && u[2] == '`' {
        strip_fences(u.skip(3))
    } else {
        u
    }
}

/// The language tag of an opening fence line: what remains of the
/// trimmed line after its backtick groups, or none when that is empty.
pub open spec fn fence_lang(line: Seq<char>) -> Option<Seq<char>> {
    let u = line.skip(run_end(line, 0, |c: char| is_ws(c)));
    let w = trimmed(strip_fences(u));
    if w.len() == 0 {
        None
    } else {
        Some(w)
    }
}

/// The code blocks carried by `ls`: a fence line closes an open block
/// (recording it) or opens one; other lines accumulate, each with a
/// newline, while a block is open. An unterminated block is dropped.
pub open spec fn code_blocks_of_lines(
    ls: Seq<Seq<char>>,
    state: Option<(Option<Seq<char>>, Seq<char>)>,
) -> Seq<CodeBlockV>
    decreases ls.len(),
{
    if ls.len() == 0 {
        Seq::empty()
    } else {
        match state {
            None => {
                if is_fence(ls[0]) {
                    code_blocks_of_lines(ls.drop_first(), Some((fence_lang(ls[0]), Seq::empty())))
                } else {
                    code_blocks_of_lines(ls.drop_first(), None)
                }
            },
            Some(lc) => {
                if is_fence(ls[0]) {
                    seq![CodeBlockV { language: lc.0, code: lc.1 }] + code_blocks_of_lines(
                        ls.drop_first(),
                        None,
                    )
                } else {
                    code_blocks_of_lines(
                        ls.drop_first(),
                        Some((lc.0, lc.1 + ls[0] + seq!['\n'])),
                    )
                }
            },
        }
    }
}

/// Every fenced code block of the text `s`, in order.
pub open spec fn code_blocks_of(s: Seq<char>) -> Seq<CodeBlockV> {
    code_blocks_of_lines(lines_of(s), None)
}

// ---------------------------------------------------------------------------
// Executable extraction
// ---------------------------------------------------------------------------

/// End of the line beginning at `start`: the position of the next `\n`,
/// or the end of `s`.
fn scan_line_end(s: &str, start: usize, n: usize) -> (r: usize)
    requires
        n == s@.len(),
        start <= n,
    ensures
        start <= r <= n,
        r as int == run_end(s@, start as int, |c: char| c != '\n'),
{
    let mut j = start;
    while j < n && s.get_char(j) != '\n'
        invariant
            start <= j <= n,
            n == s@.len(),
            forall|k: int| start <= k < j ==> s@[k] != '\n',
        decreases n - j,
    {
        j = j + 1;
    }
    proof {
        lemma_run_end_is(s@, start as int, j as int, |c: char| c != '\n');
    }
    j
}

/// The decomposition of the remaining text at `start` into its first
/// line and the rest, as `lines_of` sees it.
proof fn lemma_line_step(s: Seq<char>, start: int, e: int)
    requires
        0 <= start < s.len(),
        e == run_end(s, start, |c: char| c != '\n'),
    ensures
        e < s.len() ==> lines_of(s.skip(start)) == seq![strip_cr(s.subrange(start, e))]
            + lines_of(s.skip(e + 1)),
        e >= s.len() ==> lines_of(s.skip(start)) == seq![s.subrange(start, s.len() as int)],
{
    let tail = s.skip(start);
    lemma_run_end(s, start, |c: char| c != '\n');
    lemma_run_end_shift(s, start, |c: char| c != '\n');
    assert(run_end(tail, 0, |c: char| c != '\n') == e - start);
    assert(tail.len() == s.len() - start);
    if e < s.len() {
        assert(tail.subrange(0, e - start) =~= s.subrange(start, e));
        assert(tail.skip(e - start + 1) =~= s.skip(e + 1));
        assert(lines_of(tail) == seq![strip_cr(tail.subrange(0, e - start))] + lines_of(
            tail.skip(e - start + 1),
        ));
    } else {
        assert(tail =~= s.subrange(start, s.len() as int));
    }
}

/// The heading of the line `s[lo..hi]`, decided and computed.
fn heading_line_info(s: &str, lo: usize, hi: usize) -> (r: Option<(u8, String)>)
    requires
        lo <= hi <= s@.len(),
    ensures
        r is Some <==> heading_of_line(s@.subrange(lo as int, hi as int)) is Some,
        r matches Some(p) ==> heading_of_line(s@.subrange(lo as int, hi as int)) == Some(
            (p.0 as int, p.1@),
        ),
{
    let ghost line = s@.subrange(lo as int, hi as int);
    let ghost t = trimmed(line);
    let tr = trim_range(s, lo, hi);
    let a = tr.0;
    let b = tr.1;
    proof {
        assert(s@.subrange(a as int, b as int) == t);
        assert(t.len() == b - a);
    }
    if a == b {
        return None;
    }
    proof {
        assert(t[0] == s@[a as int]);
    }
    if s.get_char(a) != '#' {
        return None;
    }
    let mut j = a + 1;
    while j < b && s.get_char(j) == '#'
        invariant
            a + 1 <= j <= b,
            b <= s@.len(),
            forall|k: int| a + 1 <= k < j ==> s@[k] == '#',
        decreases b - j,
    {
        j = j + 1;
    }
    proof {
        assert forall|k: int| 1 <= k < j - a implies t[k] == '#' by {
            assert(t[k] == s@[a + k]);
        }
        if j - a < t.len() {
            assert(t[j - a] == s@[j as int]);
        }
        lemma_run_end_is(t, 1, j as int - a, |c: char| c == '#');
    }
    let h = j - a;
    if h > 6 {
        return None;
    }
    let text_r = trim_range(s, j, b);
    let text = copy_range(s, text_r.0, text_r.1);
    proof {
        assert(t.skip(h as int) =~= s@.subrange(j as int, b as int));
        assert(text@ == trimmed(t.skip(h as int)));
    }
    Some((h as u8, text))
}

/// Renders the anchor for the heading at position `k`.
fn make_heading_id(k: usize) -> (r: String)
    ensures
        r@ == heading_id(k as int),
{
    let mut s = String::from_str("heading-");
    let digits = crate::text::dec_string(k);
    s.append(digits.as_str());
    s
}

/// The fence decision for the line `s[lo..hi]`: no fence, or a fence
/// with its language tag.
fn fence_info(s: &str, lo: usize, hi: usize) -> (r: Option<Option<String>>)
    requires
        lo <= hi <= s@.len(),
    ensures
        r is Some <==> is_fence(s@.subrange(lo as int, hi as int)),
        r matches Some(lang) ==> ({
            let lspec = fence_lang(s@.subrange(lo as int, hi as int));
            match lang {
                Some(l) => lspec == Some(l@),
                None => lspec is None,
            }
        }),
{
    let ghost line = s@.subrange(lo as int, hi as int);
    let mut a = lo;
    while a < hi && crate::text::is_ws_char(s.get_char(a))
        invariant
            lo <= a <= hi <= s@.len(),
            forall|k: int| lo <= k < a ==> is_ws(s@[k]),
        decreases hi - a,
    {
        a = a + 1;
    }
    proof {
        assert forall|k: int| 0 <= k < a - lo implies is_ws(line[k]) by {
            assert(line[k] == s@[lo + k]);
        }
        if a < hi {
            assert(line[a - lo] == s@[a as int]);
        }
        lemma_run_end_is(line, 0, a as int - lo, |c: char| is_ws(c));
        assert(line.skip(a as int - lo) =~= s@.subrange(a as int, hi as int));
    }
    let ghost u = line.skip(a as int - lo);
    if !(hi - a >= 3 && s.get_char(a) == '`' && s.get_char(a + 1) == '`' && s.get_char(a + 2)
        == '`') {
        proof {
            if u.len() >= 3 {
                assert(u[0] == s@[a as int]);
                assert(u[1] == s@[a + 1]);
                assert(u[2] == s@[a + 2]);
            }
        }
        return None;
    }
    proof {
        assert(u[0] == s@[a as int] && u[1] == s@[a + 1] && u[2] == s@[a + 2]);
        assert(is_fence(line));
    }
    let mut j = a;
    while j < hi - 2 && s.get_char(j) == '`' && s.get_char(j + 1) == '`' && s.get_char(j + 2)
        == '`'
        invariant
            a <= j <= hi <= s@.len(),
            3 <= hi,
            strip_fences(u) == strip_fences(s@.subrange(j as int, hi as int)),
        decreases hi - j,
    {
        proof {
            let w = s@.subrange(j as int, hi as int);
            assert(w[0] == s@[j as int] && w[1] == s@[j + 1] && w[2] == s@[j + 2]);
            assert(w.skip(3) =~= s@.subrange(j + 3, hi as int));
            assert(strip_fences(w) == strip_fences(s@.subrange(j + 3, hi as int)));
        }
        j = j + 3;
    }
    proof {
        let w = s@.subrange(j as int, hi as int);
        if w.len() >= 3 {
            assert(w[0] == s@[j as int] && w[1] == s@[j + 1] && w[2] == s@[j + 2]);
        }
        assert(strip_fences(w) == w);
        assert(strip_fences(u) == s@.subrange(j as int, hi as int));
    }
    let wr = trim_range(s, j, hi);
    proof {
        assert(trimmed(strip_fences(u)) == s@.subrange(wr.0 as int, wr.1 as int));
    }
    if wr.0 == wr.1 {
        proof {
            assert(trimmed(strip_fences(u)).len() == 0);
        }
        Some(None)
    } else {
        let l = copy_range(s, wr.0, wr.1);
        Some(Some(l))
    }
}

impl MarkdownParser {
    /// Create a parser with the GitHub-flavored configuration: tables,
    /// strikethrough, autolinks, task lists, footnotes and description
    /// lists on; raw HTML stays off.
    ///
    /// Relies on comrak::Options::default and plain field assignment;
    /// the value carries comrak's configuration and nothing else.
    #[verifier::external_body]
    pub fn new() -> (r: Self) {
        let mut options = comrak::Options::default();
        options.extension.strikethrough = true;
        options.extension.table = true;
        options.extension.autolink = true;
        options.extension.tasklist = true;
        options.extension.footnotes = true;
        options.extension.description_lists = true;
        options.render.github_pre_lang = true;
        options.render.full_info_string = true;
        MarkdownParser { options }
    }

    /// Render markdown to HTML.
    ///
    /// Relies on comrak::markdown_to_html, under the configuration that
    /// `new` fixed. Nothing is claimed of the rendered form: the markup
    /// conversion belongs to the rendering collaborator, and its output
    /// is not a function of the text alone (attribute order within a
    /// tag can vary between calls), so no outcome is promised.
    #[verifier::external_body]
    pub fn parse_to_html(&self, markdown: &str) -> (r: String) {
        comrak::markdown_to_html(markdown, &self.options)
    }

    /// Parse markdown: keep the text, render it, and extract its
    /// headings and fenced code blocks. The rendered form carries no
    /// specification; the kept text and the structure are exact.
    pub fn parse(&self, markdown: &str) -> (r: Result<ParsedMarkdown, ArkeError>)
        ensures
            r matches Ok(p) && {
                &&& p.raw@ == markdown@
                &&& p.headings.deep_view() == headings_of(markdown@)
                &&& p.code_blocks.deep_view() == code_blocks_of(markdown@)
            },
    {
        let html = self.parse_to_html(markdown);
        let headings = self.extract_headings(markdown);
        let code_blocks = self.extract_code_blocks(markdown);
        Ok(ParsedMarkdown { raw: markdown.to_owned(), html, headings, code_blocks })
    }

    /// Extract headings: every line whose trimmed form starts with one
    /// to six `#` characters, numbered anchors in order.
    fn extract_headings(&self, markdown: &str) -> (r: Vec<Heading>)
        ensures
            r.deep_view() == headings_of(markdown@),
    {
        let ghost s = markdown@;
        let n = markdown.unicode_len();
        let mut out: Vec<Heading> = Vec::new();
        let mut start: usize = 0;
        proof {
            assert(s.skip(0) =~= s);
        }
        while start < n
            invariant
                0 <= start <= n,
                n == s.len(),
                s == markdown@,
                out.deep_view() + headings_of_lines(lines_of(s.skip(start as int)), out.deep_view().len() as int)
                    == headings_of(s),
            decreases n - start,
        {
            let e = scan_line_end(markdown, start, n);
            proof {
                lemma_line_step(s, start as int, e as int);
            }
            let line_end = if e < n && e > start && markdown.get_char(e - 1) == '\r' {
                e - 1
            } else {
                e
            };
            proof {
                if e < n {
                    let raw_line = s.subrange(start as int, e as int);
                    if e > start && s[e as int - 1] == '\r' {
                        assert(raw_line.last() == '\r');
                        assert(strip_cr(raw_line) =~= s.subrange(start as int, e as int - 1));
                    } else {
                        assert(strip_cr(raw_line) =~= raw_line);
                    }
                } else {
                    assert(s.subrange(start as int, e as int) =~= s.skip(start as int));
                }
            }
            let ghost line = s.subrange(start as int, line_end as int);
            proof {
                if e < n {
                    assert(lines_of(s.skip(start as int)) == seq![line] + lines_of(
                        s.skip(e as int + 1),
                    ));
                } else {
                    assert(line =~= s.subrange(start as int, e as int));
                    assert(lines_of(s.skip(start as int)) == seq![line]);
                    assert(lines_of(s.skip(n as int)) =~= Seq::<Seq<char>>::empty());
                }
                assert((seq![line] + lines_of(s.skip(if e < n { e as int + 1 } else { n as int })))
                    .drop_first() =~= lines_of(s.skip(if e < n { e as int + 1 } else { n as int })));
            }
            match heading_line_info(markdown, start, line_end) {
                Some(lt) => {
                    let id = make_heading_id(out.len());
                    let ghost before = out.deep_view();
                    out.push(Heading { level: lt.0, text: lt.1, id });
                    proof {
                        let ht = heading_of_line(line)->0;
                        assert(out.deep_view() =~= before.push(HeadingV {
                            level: ht.0,
                            text: ht.1,
                            id: heading_id(before.len() as int),
                        }));
                        assert(out.deep_view() + headings_of_lines(
                            lines_of(s.skip(if e < n { e as int + 1 } else { n as int })),
                            out.deep_view().len() as int,
                        ) =~= headings_of(s));
                    }
                },
                None => {
                    proof {
                        assert(out.deep_view() + headings_of_lines(
                            lines_of(s.skip(if e < n { e as int + 1 } else { n as int })),
                            out.deep_view().len() as int,
                        ) =~= headings_of(s));
                    }
                },
            }
            if e < n {
                start = e + 1;
            } else {
                start = n;
            }
        }
        proof {
            assert(s.skip(n as int) =~= Seq::<char>::empty());
            assert(lines_of(s.skip(n as int)) =~= Seq::<Seq<char>>::empty());
            assert(out.deep_view() =~= headings_of(s));
        }
        out
    }

    /// Extract fenced code blocks, delimited by triple-backtick lines.
    fn extract_code_blocks(&self, markdown: &str) -> (r: Vec<CodeBlock>)
        ensures
            r.deep_view() == code_blocks_of(markdown@),
    {
        let ghost s = markdown@;
        let n = markdown.unicode_len();
        let mut out: Vec<CodeBlock> = Vec::new();
        let mut in_block = false;
        let mut cur_lang: Option<String> = None;
        let mut cur_code = String::new();
        let mut start: usize = 0;
        proof {
            assert(s.skip(0) =~= s);
            assert(cur_code@ =~= Seq::<char>::empty());
        }
        while start < n
            invariant
                0 <= start <= n,
                n == s.len(),
                s == markdown@,
                !in_block ==> cur_code@ == Seq::<char>::empty() && cur_lang is None,
                out.deep_view() + code_blocks_of_lines(
                    lines_of(s.skip(start as int)),
                    if in_block {
                        Some(
                            (
                                match cur_lang {
                                    Some(l) => Some(l@),
                                    None => None,
                                },
                                cur_code@,
                            ),
                        )
                    } else {
                        None
                    },
                ) == code_blocks_of(s),
            decreases n - start,
        {
            let e = scan_line_end(markdown, start, n);
            proof {
                lemma_line_step(s, start as int, e as int);
            }
            let line_end = if e < n && e > start && markdown.get_char(e - 1) == '\r' {
                e - 1
            } else {
                e
            };
            proof {
                if e < n {
                    let raw_line = s.subrange(start as int, e as int);
                    if e > start && s[e as int - 1] == '\r' {
                        assert(raw_line.last() == '\r');
                        assert(strip_cr(raw_line) =~= s.subrange(start as int, e as int - 1));
                    } else {
                        assert(strip_cr(raw_line) =~= raw_line);
                    }
                } else {
                    assert(s.subrange(start as int, e as int) =~= s.skip(start as int));
                }
            }
            let ghost line = s.subrange(start as int, line_end as int);
            let ghost rest = lines_of(s.skip(if e < n { e as int + 1 } else { n as int }));
            proof {
                if e < n {
                    assert(lines_of(s.skip(start as int)) == seq![line] + rest);
                } else {
                    assert(line =~= s.subrange(start as int, e as int));
                    assert(lines_of(s.skip(n as int)) =~= Seq::<Seq<char>>::empty());
                    assert(lines_of(s.skip(start as int)) == seq![line]);
                    assert(lines_of(s.skip(start as int)) =~= seq![line] + rest);
                }
                assert((seq![line] + rest).drop_first() =~= rest);
                assert((seq![line] + rest)[0] == line);
            }
            match fence_info(markdown, start, line_end) {
                Some(lang) => {
                    if in_block {
                        let ghost before = out.deep_view();
                        let finished_lang = cur_lang;
                        let finished_code = cur_code;
                        cur_lang = None;
                        cur_code = String::new();
                        in_block = false;
                        out.push(CodeBlock { language: finished_lang, code: finished_code });
                        proof {
                            assert(out.deep_view() + code_blocks_of_lines(rest, None)
                                =~= code_blocks_of(s));
                            assert(cur_code@ =~= Seq::<char>::empty());
                        }
                    } else {
                        in_block = true;
                        cur_lang = lang;
                        proof {
                            assert(match cur_lang {
                                Some(l) => fence_lang(line) == Some(l@),
                                None => fence_lang(line) is None,
                            });
                            assert((match cur_lang {
                                Some(l) => Some(l@),
                                None => None,
                            }) == fence_lang(line));
                            assert(cur_code@ =~= Seq::<char>::empty());
                            assert(out.deep_view() + code_blocks_of_lines(
                                rest,
                                Some(
                                    (
                                        match cur_lang {
                                            Some(l) => Some(l@),
                                            None => None,
                                        },
                                        cur_code@,
                                    ),
                                ),
                            ) =~= code_blocks_of(s));
                        }
                    }
                },
                None => {
                    if in_block {
                        let ghost code0 = cur_code@;
                        let line_str = markdown.substring_char(start, line_end);
                        cur_code.append(line_str);
                        cur_code.append("\n");
                        proof {
                            reveal_strlit("\n");
                            assert("\n"@ =~= seq!['\n']);
                            assert(cur_code@ =~= code0 + line + seq!['\n']);
                            assert(out.deep_view() + code_blocks_of_lines(
                                rest,
                                Some(
                                    (
                                        match cur_lang {
                                            Some(l) => Some(l@),
                                            None => None,
                                        },
                                        cur_code@,
                                    ),
                                ),
                            ) =~= code_blocks_of(s));
                        }
                    } else {
                        proof {
                            assert(out.deep_view() + code_blocks_of_lines(rest, None)
                                =~= code_blocks_of(s));
                        }
                    }
                },
            }
            if e < n {
                start = e + 1;
            } else {
                start = n;
            }
        }
        proof {
            assert(s.skip(n as int) =~= Seq::<char>::empty());
            assert(lines_of(s.skip(n as int)) =~= Seq::<Seq<char>>::empty());
            assert(out.deep_view() =~= code_blocks_of(s));
        }
        out
    }
}

impl Default for MarkdownParser {
    /// A parser with the GitHub-flavored configuration of `new`.
    fn default() -> Self {
        MarkdownParser::new()
    }
}

} // verus!
