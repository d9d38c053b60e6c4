//! The prose pass: one sentence per line, collapsed spaces, and blank lines
//! around sectioning commands.

use vstd::prelude::*;

use crate::commands::{section_command_end, section_end_spec, standalone_label, standalone_label_spec};
use crate::lines::{
    content, detected_ending, detected_line_ending, ending, lemma_lines_from, lemma_lines_ordered, lines, source_lines,
    span_int, Span,
};
use crate::names::{
    env_marker, environment_marker, is_alignment_env_name, is_alignment_environment_name,
    is_math_env_name, is_math_environment_name, raw_env_name, raw_environment_name,
};
use crate::metadata::{lemma_prefix_concat, lemma_prefix_trans, prefix_of};
use crate::options::WriterOptions;
use crate::sentences::{
    collapse_prose_whitespace, collapse_whitespace, is_prose_line, lemma_bounds_from, prose_line,
    sentence_boundaries, sentence_bounds,
};
use crate::skip::{skip_regions, SkipRegions};
use crate::text::{
    all_pad, in_pad, lemma_rskip_pad, lemma_skip_pad, lemma_trim_empty, push_all, push_range,
    rskip_pad, rskip_pad_exec, same_chars, skip_pad, skip_pad_exec, trim, trim_end, trim_start,
    Pad,
};

verus! {

/// The stack of open math and alignment environments after a line.
pub open spec fn update_structured(line: Seq<char>, envs: Seq<Seq<char>>) -> Seq<Seq<char>> {
    let t = trim_start(line, Pad::Blank);
    let envs1 = match env_marker(t, true) {
        Some((_, a, b)) => if is_math_env_name(t.subrange(a, b)) || is_alignment_env_name(
            t.subrange(a, b),
        ) {
            envs.push(t.subrange(a, b))
        } else {
            envs
        },
        None => envs,
    };
    match env_marker(t, false) {
        Some((_, a, b)) => if envs1.len() > 0 && envs1.last() == t.subrange(a, b) {
            envs1.drop_last()
        } else {
            envs1
        },
        None => envs1,
    }
}

pub open spec fn views(v: Seq<Vec<char>>) -> Seq<Seq<char>> {
    v.map_values(|x: Vec<char>| x@)
}

pub fn update_structured_environments(line: &[char], envs: &mut Vec<Vec<char>>)
    ensures
        views(final(envs)@) == update_structured(line@, views(old(envs)@)),
{
    let a = skip_pad_exec(line, 0, Pad::Blank);
    let t = &line[a..line.len()];
    assert(t@ == trim_start(line@, Pad::Blank));
    let ghost e0 = views(envs@);
    if let Some((_, na, nb)) = environment_marker(t, true) {
        let name = &t[na..nb];
        if is_math_environment_name(name) || is_alignment_environment_name(name) {
            envs.push(vstd::slice::slice_to_vec(name));
            assert(views(envs@) =~= e0.push(name@));
        }
    }
    let ghost e1 = views(envs@);
    assert(e1 == match env_marker(t@, true) {
        Some((_, a, b)) => if is_math_env_name(t@.subrange(a, b)) || is_alignment_env_name(
            t@.subrange(a, b),
        ) {
            e0.push(t@.subrange(a, b))
        } else {
            e0
        },
        None => e0,
    });
    if let Some((_, na, nb)) = environment_marker(t, false) {
        let name = &t[na..nb];
        let n = envs.len();
        if n > 0 && same_chars(envs[n - 1].as_slice(), name) {
            assert(e1.last() == envs@[n - 1]@);
            envs.pop();
            assert(views(envs@) =~= e1.drop_last());
        } else {
            assert(n > 0 ==> e1.last() == envs@[n - 1]@);
        }
    }
}

/// Whether line `row` lies in a region that formatting skips.
pub open spec fn skipped_row(s: Seq<char>, row: int) -> bool {
    0 <= row < skip_regions(s).1.len() && skip_regions(s).1[row]
}

/// Rows `i` through `j` of `s` all lie in regions that formatting skips.
pub open spec fn skipped_rows(s: Seq<char>, i: int, j: int) -> bool {
    &&& 0 <= i <= j < lines(s).len()
    &&& forall|r: int| i <= r <= j ==> #[trigger] skipped_row(s, r)
}

/// The text of rows `i` through `j`, line endings included.
pub open spec fn rows_text(s: Seq<char>, i: int, j: int) -> Seq<char> {
    s.subrange(lines(s)[i].0, lines(s)[j].2)
}

/// The text of rows `i` through `j` is that of row `i` followed by that of rows
/// `i + 1` through `j`.
pub proof fn lemma_rows_text(s: Seq<char>, i: int, j: int)
    requires
        0 <= i <= j < lines(s).len(),
    ensures
        i == j ==> rows_text(s, i, j) == content(s, lines(s)[i]) + ending(s, lines(s)[i]),
        i < j ==> rows_text(s, i, j) == content(s, lines(s)[i]) + ending(s, lines(s)[i]) + rows_text(s, i + 1, j),
{
    lemma_lines_from(s, 0);
    let l = lines(s)[i];
    if i < j {
        assert(lines(s)[i].2 == lines(s)[i + 1].0);
        let m = lines(s)[j];
        lemma_lines_ordered(s, i + 1, j);
        assert(s.subrange(l.0, m.2) =~= s.subrange(l.0, l.1) + s.subrange(l.1, l.2) + s.subrange(l.2, m.2));
    } else {
        assert(s.subrange(l.0, l.2) =~= s.subrange(l.0, l.1) + s.subrange(l.1, l.2));
    }
}

/// The first row at or after `next` that is skipped, not blank, or past the end.
pub open spec fn lookahead(s: Seq<char>, next: int) -> int
    decreases lines(s).len() - next,
{
    if 0 <= next < lines(s).len() && !skipped_row(s, next) && all_pad(
        content(s, lines(s)[next]),
        Pad::Blank,
    ) {
        lookahead(s, next + 1)
    } else {
        next
    }
}

pub struct ProseState {
    pub out: Seq<char>,
    pub prev_blank: bool,
    pub prev_section: bool,
    pub raw: Option<Seq<char>>,
    pub structured: Seq<Seq<char>>,
}

/// The raw environment after a line, given the one before it.
pub open spec fn next_raw(line: Seq<char>, raw: Option<Seq<char>>) -> Option<Seq<char>> {
    let raw1 = match raw_env_name(line, true) {
        Some(name) => Some(name),
        None => raw,
    };
    match raw1 {
        Some(name) => if raw_env_name(line, false) == Some(name) {
            None
        } else {
            raw1
        },
        None => raw1,
    }
}

/// The line's text with a sentence break before each boundary; each new line
/// repeats `leading`.
pub open spec fn emit_from(
    text: Seq<char>,
    bounds: Seq<int>,
    k: int,
    start: int,
    ins: Seq<char>,
    leading: Seq<char>,
) -> Seq<char>
    decreases bounds.len() - k,
{
    if k < 0 || k >= bounds.len() {
        text.subrange(start, text.len() as int)
    } else {
        let b = bounds[k];
        trim_end(text.subrange(start, b), Pad::Blank) + ins + leading + emit_from(
            text,
            bounds,
            k + 1,
            skip_pad(text, b, Pad::Blank),
            ins,
            leading,
        )
    }
}

/// The text of a prose line, with spaces collapsed and sentences broken as the options ask.
pub open spec fn prose_text(opts: WriterOptions, plain: bool, text: Seq<char>, ins: Seq<char>) -> Seq<char> {
    let norm = if opts.collapse_prose_whitespace && plain && prose_line(text) {
        collapse_whitespace(text)
    } else {
        text
    };
    let bounds = if opts.sentence_per_line && plain && prose_line(norm) {
        sentence_bounds(norm)
    } else {
        seq![]
    };
    let leading = norm.subrange(0, skip_pad(norm, 0, Pad::Blank));
    emit_from(norm, bounds, 0, 0, ins, leading)
}

/// What the blank-line rule writes before a line, and whether the output then
/// counts as ending in a blank line.
pub open spec fn blank_line_prefix(
    opts: WriterOptions,
    st: ProseState,
    blank: bool,
    section: bool,
    ins: Seq<char>,
) -> Seq<char> {
    if opts.blank_lines_around_sections {
        let (o, pb) = if st.prev_section && !blank {
            (st.out + ins, true)
        } else {
            (st.out, st.prev_blank)
        };
        if section && !pb && o.len() > 0 {
            if o.last() != '\n' {
                o + ins + ins
            } else {
                o + ins
            }
        } else {
            o
        }
    } else {
        st.out
    }
}

/// The attached label and the last row it consumes.
pub open spec fn attached_label(s: Seq<char>, row: int, c: Seq<char>, section_end: Option<int>) -> (Seq<char>, int) {
    match section_end {
        Some(end) => if all_pad(c.subrange(end, c.len() as int), Pad::Blank) {
            let next = lookahead(s, row + 1);
            if 0 <= next < lines(s).len() && !skipped_row(s, next) {
                match standalone_label_spec(content(s, lines(s)[next])) {
                    Some(label) => (label, next),
                    None => (seq![], row),
                }
            } else {
                (seq![], row)
            }
        } else {
            (seq![], row)
        },
        None => (seq![], row),
    }
}

/// A line that formatting does not skip.
pub open spec fn prose_step(s: Seq<char>, opts: WriterOptions, st: ProseState, row: int) -> (ProseState, int) {
    let l = lines(s)[row];
    let c = content(s, l);
    let e = ending(s, l);
    let blank = all_pad(c, Pad::Blank);
    let entering = raw_env_name(c, true);
    let raw_content = st.raw.is_some() || entering.is_some();
    let section_end = if !raw_content {
        section_end_spec(c)
    } else {
        None
    };
    let section = section_end.is_some();
    let (label, consumed) = attached_label(s, row, c, section_end);
    let ins = if e.len() == 0 {
        detected_ending(s)
    } else {
        e
    };
    let out1 = blank_line_prefix(opts, st, blank, section, ins);
    let (out2, text, has_body) = match section_end {
        Some(end) => {
            let body = trim_start(c.subrange(end, c.len() as int), Pad::Blank);
            if body.len() > 0 && body[0] != '%' {
                (
                    out1 + trim_end(c.subrange(0, end), Pad::Blank) + ins + (if opts.blank_lines_around_sections {
                        ins
                    } else {
                        seq![]
                    }),
                    body,
                    true,
                )
            } else {
                (out1, c, false)
            }
        },
        None => (out1, c, false),
    };
    let plain = !raw_content && st.structured.len() == 0;
    let out3 = out2 + prose_text(opts, plain, text, ins) + label + ending(s, lines(s)[consumed]);
    (
        ProseState {
            out: out3,
            prev_blank: blank,
            prev_section: section && !has_body,
            raw: next_raw(c, st.raw),
            structured: if !raw_content {
                update_structured(c, st.structured)
            } else {
                st.structured
            },
        },
        consumed + 1,
    )
}

/// A line that formatting skips: copied as it is.
pub open spec fn skipped_step(s: Seq<char>, st: ProseState, row: int) -> ProseState {
    skipped_step_at(s, st, lines(s)[row])
}

pub proof fn lemma_lookahead(s: Seq<char>, next: int)
    requires
        0 <= next,
    ensures
        next <= lookahead(s, next),
        next <= lines(s).len() ==> lookahead(s, next) <= lines(s).len(),
    decreases lines(s).len() - next,
{
    if 0 <= next < lines(s).len() && !skipped_row(s, next) && all_pad(
        content(s, lines(s)[next]),
        Pad::Blank,
    ) {
        lemma_lookahead(s, next + 1);
    }
}

pub proof fn lemma_attached_label(s: Seq<char>, row: int, c: Seq<char>, section_end: Option<int>)
    requires
        0 <= row < lines(s).len(),
    ensures
        row <= attached_label(s, row, c, section_end).1 < lines(s).len(),
{
    lemma_lookahead(s, row + 1);
}

/// The output from line `row` on.
pub open spec fn prose_from(s: Seq<char>, opts: WriterOptions, st: ProseState, row: int) -> Seq<char>
    decreases lines(s).len() - row,
{
    if row < 0 || row >= lines(s).len() {
        st.out
    } else if skipped_row(s, row) {
        prose_from(s, opts, skipped_step(s, st, row), row + 1)
    } else {
        let (st2, next) = prose_step(s, opts, st, row);
        proof {
            let l = lines(s)[row];
            let c = content(s, l);
            let entering = raw_env_name(c, true);
            let raw_content = st.raw.is_some() || entering.is_some();
            let section_end = if !raw_content {
                section_end_spec(c)
            } else {
                None
            };
            lemma_attached_label(s, row, c, section_end);
        }
        prose_from(s, opts, st2, next)
    }
}

pub open spec fn initial_prose_state() -> ProseState {
    ProseState { out: seq![], prev_blank: true, prev_section: false, raw: None, structured: seq![] }
}

/// The prose pass.
pub open spec fn prose_pass(s: Seq<char>, opts: WriterOptions) -> Seq<char> {
    if !opts.sentence_per_line && !opts.blank_lines_around_sections && !opts.collapse_prose_whitespace {
        s
    } else {
        prose_from(s, opts, initial_prose_state(), 0)
    }
}

/// Appends `text` with a line break before each boundary.
fn emit_sentences(
    out: &mut Vec<char>,
    text: &[char],
    bounds: &Vec<usize>,
    ins: &[char],
    lead: usize,
)
    requires
        lead <= text@.len(),
        forall|k: int|
            0 <= k < bounds@.len() ==> {
                let b = #[trigger] bounds@[k];
                &&& 0 < b < text@.len()
                &&& !in_pad(text@[b as int], Pad::Blank)
            },
        forall|k: int| 0 <= k < bounds@.len() - 1 ==> #[trigger] bounds@[k] < bounds@[k + 1],
    ensures
        final(out)@ == old(out)@ + emit_from(
            text@,
            bounds@.map_values(|b: usize| b as int),
            0,
            0,
            ins@,
            text@.subrange(0, lead as int),
        ),
{
    let ghost bs = bounds@.map_values(|b: usize| b as int);
    let ghost leading = text@.subrange(0, lead as int);
    let mut k: usize = 0;
    let mut start: usize = 0;
    while k < bounds.len()
        invariant
            k <= bounds@.len(),
            bs == bounds@.map_values(|b: usize| b as int),
            leading == text@.subrange(0, lead as int),
            lead <= text@.len(),
            start <= text@.len(),
            k < bounds@.len() ==> start <= bounds@[k as int],
            k > 0 ==> start == bounds@[k - 1],
            forall|j: int|
                0 <= j < bounds@.len() ==> {
                    let b = #[trigger] bounds@[j];
                    &&& 0 < b < text@.len()
                    &&& !in_pad(text@[b as int], Pad::Blank)
                },
            forall|j: int| 0 <= j < bounds@.len() - 1 ==> #[trigger] bounds@[j] < bounds@[j + 1],
            out@ + emit_from(text@, bs, k as int, start as int, ins@, leading) == old(out)@
                + emit_from(text@, bs, 0, 0, ins@, leading),
        decreases bounds@.len() - k,
    {
        let b = bounds[k];
        let ghost o0 = out@;
        let piece = &text[start..b];
        let e = rskip_pad_exec(piece, piece.len(), Pad::Blank);
        push_range(out, piece, 0, e);
        push_all(out, ins);
        push_range(out, text, 0, lead);
        let next = skip_pad_exec(text, b, Pad::Blank);
        proof {
            lemma_skip_pad(text@, b as int, Pad::Blank);
            assert(next == b);
            assert(bs[k as int] == b as int);
            assert(out@ =~= o0 + trim_end(text@.subrange(start as int, b as int), Pad::Blank) + ins@
                + leading);
            if k + 1 < bounds@.len() {
                assert(bounds@[k as int] < bounds@[k + 1]);
            }
        }
        start = next;
        k = k + 1;
    }
    push_range(out, text, start, text.len());
}

/// Whether the content of line `l` holds only spaces and tabs.
fn line_is_blank(src: &[char], l: Span) -> (r: bool)
    requires
        l.0 <= l.1 <= src@.len(),
    ensures
        r == all_pad(src@.subrange(l.0 as int, l.1 as int), Pad::Blank),
{
    let c = &src[l.0..l.1];
    all_blank(c)
}

/// Whether every character is a space or a tab.
pub fn all_blank(c: &[char]) -> (r: bool)
    ensures
        r == all_pad(c@, Pad::Blank),
{
    let t = skip_pad_exec(c, 0, Pad::Blank);
    proof {
        lemma_skip_pad(c@, 0, Pad::Blank);
        if t < c@.len() {
            assert(!in_pad(c@[t as int], Pad::Blank));
        }
    }
    t == c.len()
}

/// The rows that the label lookahead passes over.
fn lookahead_exec(src: &[char], ls: &Vec<Span>, skipped: &SkipRegions, next: usize) -> (r: usize)
    requires
        skipped.of(src@),
        ls@.len() == lines(src@).len(),
        forall|j: int| 0 <= j < ls@.len() ==> span_int(#[trigger] ls@[j]) == lines(src@)[j],
        forall|j: int|
            0 <= j < lines(src@).len() ==> {
                let l = #[trigger] lines(src@)[j];
                0 <= l.0 <= l.1 <= l.2 <= src@.len()
            },
        next <= ls@.len(),
    ensures
        r == lookahead(src@, next as int),
{
    let mut k = next;
    while k < ls.len() && !skipped.contains_row(k) && line_is_blank(src, ls[k])
        invariant
            next <= k <= ls@.len(),
            lookahead(src@, k as int) == lookahead(src@, next as int),
            skipped.of(src@),
            ls@.len() == lines(src@).len(),
            forall|j: int| 0 <= j < ls@.len() ==> span_int(#[trigger] ls@[j]) == lines(src@)[j],
            forall|j: int|
                0 <= j < lines(src@).len() ==> {
                    let l = #[trigger] lines(src@)[j];
                    0 <= l.0 <= l.1 <= l.2 <= src@.len()
                },
        decreases ls@.len() - k,
    {
        k = k + 1;
    }
    k
}

/// The state of the prose pass between lines.
pub struct ProseCursor {
    pub out: Vec<char>,
    pub prev_blank: bool,
    pub prev_section: bool,
    pub raw: Option<Vec<char>>,
    pub structured: Vec<Vec<char>>,
}

pub open spec fn opt_view(o: Option<Vec<char>>) -> Option<Seq<char>> {
    match o {
        Some(v) => Some(v@),
        None => None,
    }
}

impl ProseCursor {
    pub open spec fn view(&self) -> ProseState {
        ProseState {
            out: self.out@,
            prev_blank: self.prev_blank,
            prev_section: self.prev_section,
            raw: opt_view(self.raw),
            structured: views(self.structured@),
        }
    }
}

/// The raw environment after `line`.
fn next_raw_exec(line: &[char], raw: Option<Vec<char>>) -> (r: Option<Vec<char>>)
    ensures
        opt_view(r) == next_raw(line@, opt_view(raw)),
{
    let raw1 = match raw_environment_name(line, true) {
        Some(name) => Some(name),
        None => raw,
    };
    match raw1 {
        Some(name) => match raw_environment_name(line, false) {
            Some(end_name) => if same_chars(end_name.as_slice(), name.as_slice()) {
                None
            } else {
                Some(name)
            },
            None => Some(name),
        },
        None => None,
    }
}

pub open spec fn lines_ok(src: Seq<char>, ls: Seq<Span>) -> bool {
    &&& ls.len() == lines(src).len()
    &&& forall|j: int| 0 <= j < ls.len() ==> span_int(#[trigger] ls[j]) == lines(src)[j]
    &&& forall|j: int|
        0 <= j < lines(src).len() ==> {
            let l = #[trigger] lines(src)[j];
            0 <= l.0 <= l.1 <= l.2 <= src.len()
        }
}

/// The label that follows a sectioning command on a later line, when there is one.
fn attached_label_exec(
    src: &[char],
    ls: &Vec<Span>,
    skipped: &SkipRegions,
    row: usize,
    c: &[char],
    section_end: Option<usize>,
) -> (r: (Vec<char>, usize))
    requires
        skipped.of(src@),
        lines_ok(src@, ls@),
        row < ls@.len(),
        section_end matches Some(end) ==> end <= c@.len(),
    ensures
        (r.0@, r.1 as int) == attached_label(
            src@,
            row as int,
            c@,
            match section_end {
                Some(e) => Some(e as int),
                None => None,
            },
        ),
{
    proof {
        lemma_lookahead(src@, row + 1);
    }
    let n = ls.len();
    if let Some(end) = section_end {
        if all_blank(&c[end..c.len()]) {
            let next = lookahead_exec(src, ls, skipped, row + 1);
            if next < ls.len() && !skipped.contains_row(next) {
                let nl = ls[next];
                let nc = &src[nl.0..nl.1];
                assert(nc@ == content(src@, lines(src@)[next as int]));
                if let Some((a, b)) = standalone_label(nc) {
                    let label = vstd::slice::slice_to_vec(&nc[a..b]);
                    return (label, next);
                }
            }
        }
    }
    (Vec::new(), row)
}


/// The blank-line rule, then a heading split from the text that follows it on its line.
fn prose_head(
    opts: &WriterOptions,
    cur: &mut ProseCursor,
    c: &[char],
    section_end: Option<usize>,
    blank: bool,
    section: bool,
    ins: &[char],
) -> (r: (usize, bool))
    requires
        section_end matches Some(end) ==> end <= c@.len(),
        section == section_end.is_some(),
    ensures
        final(cur).prev_blank == old(cur).prev_blank,
        final(cur).prev_section == old(cur).prev_section,
        final(cur).raw == old(cur).raw,
        final(cur).structured == old(cur).structured,
        r.0 <= c@.len(),
        ({
            let st = old(cur).view();
            let se = match section_end {
                Some(x) => Some(x as int),
                None => None::<int>,
            };
            let out1 = blank_line_prefix(*opts, st, blank, section, ins@);
            let expected = match se {
                Some(end) => {
                    let body = trim_start(c@.subrange(end, c@.len() as int), Pad::Blank);
                    if body.len() > 0 && body[0] != '%' {
                        (
                            out1 + trim_end(c@.subrange(0, end), Pad::Blank) + ins@ + (if opts.blank_lines_around_sections {
                                ins@
                            } else {
                                seq![]
                            }),
                            body,
                            true,
                        )
                    } else {
                        (out1, c@, false)
                    }
                },
                None => (out1, c@, false),
            };
            &&& final(cur).out@ == expected.0
            &&& c@.subrange(r.0 as int, c@.len() as int) == expected.1
            &&& r.1 == expected.2
        }),
{
    let ghost st = cur.view();
    // Blank lines around sections.
    if opts.blank_lines_around_sections {
        let mut pb = cur.prev_blank;
        if cur.prev_section && !blank {
            push_all(&mut cur.out, ins);
            pb = true;
        }
        let n = cur.out.len();
        if section && !pb && n > 0 {
            if cur.out[n - 1] != '\n' {
                push_all(&mut cur.out, ins);
            }
            push_all(&mut cur.out, ins);
        }
    }
    assert(cur.out@ == blank_line_prefix(*opts, st, blank, section, ins@));
    // A heading followed by text on the same line.
    let mut text_start: usize = 0;
    let mut has_body = false;
    if let Some(end) = section_end {
        let bstart = skip_pad_exec(c, end, Pad::Blank);
        assert(c@.subrange(bstart as int, c@.len() as int) == trim_start(
            c@.subrange(end as int, c@.len() as int),
            Pad::Blank,
        )) by {
            lemma_skip_pad(c@, end as int, Pad::Blank);
            lemma_skip_pad(c@.subrange(end as int, c@.len() as int), 0, Pad::Blank);
            lemma_skip_same(c@, end as int);
        }
        if bstart < c.len() && c[bstart] != '%' {
            let head = &c[0..end];
            let he = rskip_pad_exec(head, head.len(), Pad::Blank);
            push_range(&mut cur.out, head, 0, he);
            push_all(&mut cur.out, ins);
            if opts.blank_lines_around_sections {
                push_all(&mut cur.out, ins);
            }
            text_start = bstart;
            has_body = true;
        }
    }
    assert(c@.subrange(0, c@.len() as int) =~= c@);
    (text_start, has_body)
}


/// Appends `prose_text` for `text`.
fn emit_prose_text(opts: &WriterOptions, plain: bool, text: &[char], ins: &[char], out: &mut Vec<char>)
    ensures
        final(out)@ == old(out)@ + prose_text(*opts, plain, text@, ins@),
{
    let norm: Vec<char> = if opts.collapse_prose_whitespace && plain && is_prose_line(text) {
        collapse_prose_whitespace(text)
    } else {
        vstd::slice::slice_to_vec(text)
    };
    let bounds: Vec<usize> = if opts.sentence_per_line && plain && is_prose_line(norm.as_slice()) {
        sentence_boundaries(norm.as_slice())
    } else {
        Vec::new()
    };
    assert(bounds@.map_values(|b: usize| b as int) == (if opts.sentence_per_line && plain
        && prose_line(norm@) {
        sentence_bounds(norm@)
    } else {
        seq![]
    })) by {
        if !(opts.sentence_per_line && plain && prose_line(norm@)) {
            assert(bounds@.map_values(|b: usize| b as int) =~= Seq::<int>::empty());
        }
    }
    let lead = skip_pad_exec(norm.as_slice(), 0, Pad::Blank);
    emit_sentences(out, norm.as_slice(), &bounds, ins, lead);
}

/// One line of the prose pass that formatting does not skip.
fn prose_line_step(
    src: &[char],
    opts: &WriterOptions,
    ls: &Vec<Span>,
    skipped: &SkipRegions,
    fallback: &Vec<char>,
    row: usize,
    cur: &mut ProseCursor,
) -> (next: usize)
    requires
        skipped.of(src@),
        lines_ok(src@, ls@),
        fallback@ == detected_ending(src@),
        row < ls@.len(),
    ensures
        (final(cur).view(), next as int) == prose_step(src@, *opts, old(cur).view(), row as int),
{
    let ghost st = cur.view();
    let l = ls[row];
    let c = &src[l.0..l.1];
    let e = &src[l.1..l.2];
    assert(c@ == content(src@, lines(src@)[row as int]));
    assert(e@ == ending(src@, lines(src@)[row as int]));
    let blank = all_blank(c);
    let entering = raw_environment_name(c, true);
    let raw_content = cur.raw.is_some() || entering.is_some();
    let section_end = if !raw_content {
        section_command_end(c)
    } else {
        None
    };
    let ghost se = match section_end {
        Some(x) => Some(x as int),
        None => None::<int>,
    };
    assert(se == if !raw_content {
        section_end_spec(c@)
    } else {
        None
    });
    let section = section_end.is_some();
    let n = ls.len();
    let (label, consumed) = attached_label_exec(src, ls, skipped, row, c, section_end);
    proof {
        lemma_attached_label(src@, row as int, c@, se);
    }
    let ins: &[char] = if e.len() == 0 {
        fallback.as_slice()
    } else {
        e
    };
    let (text_start, has_body) = prose_head(opts, cur, c, section_end, blank, section, ins);
    assert(st == old(cur).view());
    let text = &c[text_start..c.len()];
    let plain = !raw_content && cur.structured.len() == 0;
    emit_prose_text(opts, plain, text, ins, &mut cur.out);
    push_all(&mut cur.out, label.as_slice());
    let cl = ls[consumed];
    push_range(&mut cur.out, src, cl.1, cl.2);
    cur.prev_blank = blank;
    cur.prev_section = section && !has_body;
    let raw0 = if cur.raw.is_some() {
        cur.raw.take()
    } else {
        None
    };
    assert(opt_view(raw0) == st.raw);
    cur.raw = next_raw_exec(c, raw0);
    if !raw_content {
        update_structured_environments(c, &mut cur.structured);
    }
    consumed + 1
}

proof fn lemma_skip_same(c: Seq<char>, end: int)
    requires
        0 <= end <= c.len(),
    ensures
        skip_pad(c.subrange(end, c.len() as int), 0, Pad::Blank) + end == skip_pad(c, end, Pad::Blank),
{
    lemma_skip_shift(c, end, end);
}

proof fn lemma_skip_shift(c: Seq<char>, end: int, i: int)
    requires
        0 <= end <= i <= c.len(),
    ensures
        skip_pad(c.subrange(end, c.len() as int), i - end, Pad::Blank) + end == skip_pad(c, i, Pad::Blank),
    decreases c.len() - i,
{
    if i < c.len() {
        assert(c.subrange(end, c.len() as int)[i - end] == c[i]);
        lemma_skip_shift(c, end, i + 1);
    }
}


/// A line inside a skipped region: copied as it is.
fn skipped_line_step(src: &[char], l: Span, cur: &mut ProseCursor)
    requires
        l.0 <= l.1 <= l.2 <= src@.len(),
    ensures
        final(cur).view() == skipped_step_at(src@, old(cur).view(), span_int(l)),
{
    let ghost st = cur.view();
    let c = &src[l.0..l.1];
    push_range(&mut cur.out, src, l.0, l.2);
    assert(cur.out@ =~= st.out + c@ + src@.subrange(l.1 as int, l.2 as int));
    cur.prev_blank = false;
    cur.prev_section = false;
    let raw0 = if cur.raw.is_some() {
        cur.raw.take()
    } else {
        None
    };
    assert(opt_view(raw0) == st.raw);
    cur.raw = next_raw_exec(c, raw0);
    if cur.raw.is_none() {
        update_structured_environments(c, &mut cur.structured);
    }
}

/// Copying a skipped line `l`.
pub open spec fn skipped_step_at(s: Seq<char>, st: ProseState, l: (int, int, int)) -> ProseState {
    let c = content(s, l);
    let raw = next_raw(c, st.raw);
    ProseState {
        out: st.out + c + ending(s, l),
        prev_blank: false,
        prev_section: false,
        raw: raw,
        structured: if raw.is_none() {
            update_structured(c, st.structured)
        } else {
            st.structured
        },
    }
}

/// Puts each prose sentence on its own line, collapses runs of spaces in prose,
/// and surrounds sectioning commands with blank lines, as the options ask.
pub fn rewrite_prose(src: &[char], opts: &WriterOptions) -> (r: Vec<char>)
    ensures
        r@ == prose_pass(src@, *opts),
{
    if !opts.sentence_per_line && !opts.blank_lines_around_sections && !opts.collapse_prose_whitespace {
        return vstd::slice::slice_to_vec(src);
    }
    let fallback = detected_line_ending(src);
    let skipped = SkipRegions::new(src);
    let ls = source_lines(src);
    proof {
        lemma_lines_from(src@, 0);
    }
    let mut cur = ProseCursor {
        out: Vec::new(),
        prev_blank: true,
        prev_section: false,
        raw: None,
        structured: Vec::new(),
    };
    assert(cur.view() =~= initial_prose_state()) by {
        assert(views(cur.structured@) =~= Seq::<Seq<char>>::empty());
    }
    let mut row: usize = 0;
    while row < ls.len()
        invariant
            skipped.of(src@),
            lines_ok(src@, ls@),
            fallback@ == detected_ending(src@),
            row <= ls@.len(),
            prose_from(src@, *opts, cur.view(), row as int) == prose_from(
                src@,
                *opts,
                initial_prose_state(),
                0,
            ),
        decreases ls@.len() - row,
    {
        if skipped.contains_row(row) {
            skipped_line_step(src, ls[row], &mut cur);
            assert(lines(src@)[row as int] == span_int(ls@[row as int]));
            row = row + 1;
        } else {
            let ghost st = cur.view();
            let next = prose_line_step(src, opts, &ls, &skipped, &fallback, row, &mut cur);
            proof {
                let l = lines(src@)[row as int];
                let c = content(src@, l);
                let entering = raw_env_name(c, true);
                let raw_content = st.raw.is_some() || entering.is_some();
                let section_end = if !raw_content {
                    section_end_spec(c)
                } else {
                    None
                };
                lemma_attached_label(src@, row as int, c, section_end);
            }
            row = next;
        }
    }
    cur.out
}

proof fn lemma_blank_prefix_extends(opts: WriterOptions, st: ProseState, blank: bool, section: bool, ins: Seq<char>)
    ensures
        prefix_of(st.out, blank_line_prefix(opts, st, blank, section, ins)),
{
    lemma_prefix_concat(st.out, Seq::<char>::empty());
    assert(st.out + Seq::<char>::empty() =~= st.out);
    lemma_prefix_concat(st.out, ins);
    lemma_prefix_concat(st.out, ins + ins);
    assert(st.out + ins + ins =~= st.out + (ins + ins));
    lemma_prefix_concat(st.out + ins, ins);
    lemma_prefix_concat(st.out + ins, ins + ins);
    assert(st.out + ins + ins + ins =~= (st.out + ins) + (ins + ins));
    lemma_prefix_trans(st.out, st.out + ins, st.out + ins + ins);
    lemma_prefix_trans(st.out, st.out + ins, (st.out + ins) + (ins + ins));
}

#[verifier::spinoff_prover]
#[verifier::rlimit(60)]
proof fn lemma_step_extends(s: Seq<char>, opts: WriterOptions, st: ProseState, row: int)
    requires
        0 <= row < lines(s).len(),
    ensures
        prefix_of(st.out, prose_step(s, opts, st, row).0.out),
{
    let l = lines(s)[row];
    let c = content(s, l);
    let e = ending(s, l);
    let blank = all_pad(c, Pad::Blank);
    let entering = raw_env_name(c, true);
    let raw_content = st.raw.is_some() || entering.is_some();
    let section_end = if !raw_content {
        section_end_spec(c)
    } else {
        None
    };
    let section = section_end.is_some();
    let (label, consumed) = attached_label(s, row, c, section_end);
    let ins = if e.len() == 0 {
        detected_ending(s)
    } else {
        e
    };
    let out1 = blank_line_prefix(opts, st, blank, section, ins);
    lemma_blank_prefix_extends(opts, st, blank, section, ins);
    let (out2, text, has_body) = match section_end {
        Some(end) => {
            let body = trim_start(c.subrange(end, c.len() as int), Pad::Blank);
            if body.len() > 0 && body[0] != '%' {
                let x = trim_end(c.subrange(0, end), Pad::Blank) + ins + (if opts.blank_lines_around_sections {
                    ins
                } else {
                    seq![]
                });
                lemma_prefix_concat(out1, x);
                assert(out1 + trim_end(c.subrange(0, end), Pad::Blank) + ins + (if opts.blank_lines_around_sections {
                    ins
                } else {
                    seq![]
                }) =~= out1 + x);
                (out1 + x, body, true)
            } else {
                lemma_prefix_concat(out1, Seq::<char>::empty());
                assert(out1 + Seq::<char>::empty() =~= out1);
                (out1, c, false)
            }
        },
        None => {
            lemma_prefix_concat(out1, Seq::<char>::empty());
            assert(out1 + Seq::<char>::empty() =~= out1);
            (out1, c, false)
        },
    };
    lemma_prefix_trans(st.out, out1, out2);
    let plain = !raw_content && st.structured.len() == 0;
    let y = prose_text(opts, plain, text, ins) + label + ending(s, lines(s)[consumed]);
    lemma_prefix_concat(out2, y);
    assert(out2 + prose_text(opts, plain, text, ins) + label + ending(s, lines(s)[consumed]) =~= out2 + y);
    lemma_prefix_trans(st.out, out2, out2 + y);
}

proof fn lemma_lookahead_stops(s: Seq<char>, next: int, i: int)
    requires
        0 <= next <= i,
        skipped_row(s, i),
    ensures
        lookahead(s, next) <= i,
    decreases i - next,
{
    if next < i && 0 <= next < lines(s).len() && !skipped_row(s, next) && all_pad(content(s, lines(s)[next]), Pad::Blank) {
        lemma_lookahead_stops(s, next + 1, i);
    }
}

/// A line that formatting does not skip consumes no skipped line after it.
#[verifier::spinoff_prover]
proof fn lemma_step_stops(s: Seq<char>, opts: WriterOptions, st: ProseState, row: int, i: int)
    requires
        0 <= row < i,
        skipped_row(s, i),
    ensures
        row < prose_step(s, opts, st, row).1 <= i,
{
    let l = lines(s)[row];
    let c = content(s, l);
    let entering = raw_env_name(c, true);
    let raw_content = st.raw.is_some() || entering.is_some();
    let section_end = if !raw_content {
        section_end_spec(c)
    } else {
        None
    };
    lemma_lookahead_stops(s, row + 1, i);
    lemma_lookahead(s, row + 1);
}

#[verifier::spinoff_prover]
proof fn lemma_prose_extends(s: Seq<char>, opts: WriterOptions, st: ProseState, row: int)
    requires
        0 <= row,
    ensures
        prefix_of(st.out, prose_from(s, opts, st, row)),
    decreases lines(s).len() - row,
{
    if row >= lines(s).len() {
        lemma_prefix_concat(st.out, Seq::<char>::empty());
        assert(st.out + Seq::<char>::empty() =~= st.out);
    } else if skipped_row(s, row) {
        let st2 = skipped_step(s, st, row);
        lemma_prose_extends(s, opts, st2, row + 1);
        let l = lines(s)[row];
        lemma_prefix_concat(st.out, content(s, l) + ending(s, l));
        assert(st.out + content(s, l) + ending(s, l) =~= st.out + (content(s, l) + ending(s, l)));
        lemma_prefix_trans(st.out, st2.out, prose_from(s, opts, st2, row + 1));
    } else {
        let (st2, next) = prose_step(s, opts, st, row);
        lemma_step_extends(s, opts, st, row);
        let c = content(s, lines(s)[row]);
        let entering = raw_env_name(c, true);
        let raw_content = st.raw.is_some() || entering.is_some();
        let section_end = if !raw_content {
            section_end_spec(c)
        } else {
            None
        };
        lemma_attached_label(s, row, c, section_end);
        lemma_prose_extends(s, opts, st2, next);
        lemma_prefix_trans(st.out, st2.out, prose_from(s, opts, st2, next));
    }
}

#[verifier::spinoff_prover]
proof fn lemma_prose_reach(s: Seq<char>, opts: WriterOptions, st: ProseState, row: int, i: int)
    requires
        0 <= row <= i,
        skipped_row(s, i),
    ensures
        exists|st2: ProseState| prose_from(s, opts, st, row) == #[trigger] prose_from(s, opts, st2, i),
    decreases i - row,
{
    crate::skip::lemma_skip_rows_len(s);
    if row == i {
        assert(prose_from(s, opts, st, row) == prose_from(s, opts, st, i));
    } else if skipped_row(s, row) {
        lemma_prose_reach(s, opts, skipped_step(s, st, row), row + 1, i);
        let st3 = choose|st3: ProseState| prose_from(s, opts, skipped_step(s, st, row), row + 1) == #[trigger] prose_from(s, opts, st3, i);
        assert(prose_from(s, opts, st, row) == prose_from(s, opts, st3, i));
    } else {
        crate::skip::lemma_skip_rows_len(s);
        let (st2, next) = prose_step(s, opts, st, row);
        lemma_step_stops(s, opts, st, row, i);
        assert(row < lines(s).len());
        assert(!skipped_row(s, row));
        assert(prose_from(s, opts, st, row) == prose_from(s, opts, st2, next));
        lemma_prose_reach(s, opts, st2, next, i);
        let st3 = choose|st3: ProseState| prose_from(s, opts, st2, next) == #[trigger] prose_from(s, opts, st3, i);
        assert(prose_from(s, opts, st, row) == prose_from(s, opts, st3, i));
    }
}

#[verifier::spinoff_prover]
proof fn lemma_prose_run(s: Seq<char>, opts: WriterOptions, st: ProseState, i: int, j: int)
    requires
        skipped_rows(s, i, j),
    ensures
        exists|st2: ProseState| prose_from(s, opts, st, i) == #[trigger] prose_from(s, opts, st2, j + 1) && st2.out == st.out + rows_text(s, i, j),
    decreases j - i,
{
    lemma_rows_text(s, i, j);
    assert(skipped_row(s, i));
    let st1 = skipped_step(s, st, i);
    let l = lines(s)[i];
    if i < j {
        lemma_prose_run(s, opts, st1, i + 1, j);
        let st2 = choose|st2: ProseState| prose_from(s, opts, st1, i + 1) == #[trigger] prose_from(s, opts, st2, j + 1) && st2.out == st1.out + rows_text(s, i + 1, j);
        assert(st2.out =~= st.out + rows_text(s, i, j));
        assert(prose_from(s, opts, st, i) == prose_from(s, opts, st2, j + 1));
    } else {
        assert(st1.out =~= st.out + rows_text(s, i, j));
        assert(prose_from(s, opts, st, i) == prose_from(s, opts, st1, j + 1));
    }
}

#[verifier::spinoff_prover]
proof fn lemma_prose_from_keeps(s: Seq<char>, opts: WriterOptions, i: int, j: int)
    requires
        skipped_rows(s, i, j),
    ensures
        exists|a: Seq<char>, b: Seq<char>| prose_from(s, opts, initial_prose_state(), 0) == a + rows_text(s, i, j) + b,
{
    assert(skipped_row(s, i));
    lemma_prose_reach(s, opts, initial_prose_state(), 0, i);
    let st1 = choose|st1: ProseState| prose_from(s, opts, initial_prose_state(), 0) == #[trigger] prose_from(s, opts, st1, i);
    lemma_prose_run(s, opts, st1, i, j);
    let st2 = choose|st2: ProseState| prose_from(s, opts, st1, i) == #[trigger] prose_from(s, opts, st2, j + 1) && st2.out == st1.out + rows_text(s, i, j);
    lemma_prose_extends(s, opts, st2, j + 1);
    let out = prose_from(s, opts, st2, j + 1);
    let b = out.subrange(st2.out.len() as int, out.len() as int);
    assert(out =~= st2.out + b);
    assert(prose_from(s, opts, initial_prose_state(), 0) == st1.out + rows_text(s, i, j) + b);
}

/// The text of rows `i` through `j` stands in the text as one piece.
pub proof fn lemma_text_holds_rows(s: Seq<char>, i: int, j: int)
    requires
        0 <= i <= j < lines(s).len(),
    ensures
        exists|a: Seq<char>, b: Seq<char>| s == a + rows_text(s, i, j) + b,
{
    let l = lines(s);
    lemma_lines_from(s, 0);
    lemma_lines_ordered(s, i, j);
    let x = s.subrange(0, l[i].0);
    let y = s.subrange(l[j].2, s.len() as int);
    assert(s =~= x + rows_text(s, i, j) + y);
}

/// The prose pass copies a skipped region as it is: the text of rows `i`
/// through `j`, all skipped, endings included, stands in the output as one
/// piece.
#[verifier::spinoff_prover]
pub proof fn prose_keeps_skipped_regions(s: Seq<char>, opts: WriterOptions, i: int, j: int)
    requires
        skipped_rows(s, i, j),
    ensures
        exists|a: Seq<char>, b: Seq<char>| prose_pass(s, opts) == a + rows_text(s, i, j) + b,
{
    if !opts.sentence_per_line && !opts.blank_lines_around_sections && !opts.collapse_prose_whitespace {
        assert(prose_pass(s, opts) == s);
        lemma_text_holds_rows(s, i, j);
    } else {
        assert(prose_pass(s, opts) == prose_from(s, opts, initial_prose_state(), 0));
        lemma_prose_from_keeps(s, opts, i, j);
    }
}

/// With blank lines around sections, a sectioning line never follows text
/// directly: when the line before it was neither blank nor a heading, what is
/// written before the heading ends with an empty line, a line feed followed by
/// the line ending `ins`. After a heading that had no text of its own on its
/// line, the next non-blank line gets an empty line first.
pub proof fn sections_get_blank_lines(opts: WriterOptions, st: ProseState, blank: bool, ins: Seq<char>)
    requires
        opts.blank_lines_around_sections,
        ins.len() > 0,
        ins.last() == '\n',
    ensures
        !st.prev_blank && !st.prev_section && st.out.len() > 0 ==> {
            let r = blank_line_prefix(opts, st, blank, true, ins);
            &&& r.len() > ins.len()
            &&& r.subrange(r.len() - ins.len(), r.len() as int) == ins
            &&& r[r.len() - ins.len() - 1] == '\n'
            &&& r.subrange(0, st.out.len() as int) == st.out
        },
        st.prev_section && !blank && st.out.len() > 0 && st.out.last() == '\n' ==> {
            let r = blank_line_prefix(opts, st, blank, false, ins);
            r == st.out + ins
        },
{
    if !st.prev_blank && !st.prev_section && st.out.len() > 0 {
        let r = blank_line_prefix(opts, st, blank, true, ins);
        let o = st.out;
        if o.last() != '\n' {
            assert(r == o + ins + ins);
            assert(r.subrange(r.len() - ins.len(), r.len() as int) =~= ins);
            assert(r[r.len() - ins.len() - 1] == ins[ins.len() - 1]);
        } else {
            assert(r == o + ins);
            assert(r.subrange(r.len() - ins.len(), r.len() as int) =~= ins);
            assert(r[r.len() - ins.len() - 1] == o[o.len() - 1]);
        }
        assert(r.subrange(0, st.out.len() as int) =~= st.out);
    }
}

} // verus!
