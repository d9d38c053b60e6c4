//! Line-based passes: indentation, trailing spaces, blank lines, line endings,
//! and math-environment boundaries.

use vstd::prelude::*;

use crate::chars::{all_white, all_white_space};
use crate::lines::{join_lines, lines_join_to_source, 
    content, crlf, detected_ending, detected_line_ending, ending, lemma_lines_from, lf, lines,
    source_lines, span_int, Span,
};
use crate::metadata::{count_at, count_get, flag_at, flag_get, TreeMetadata};
use crate::names::{env_marker, environment_marker, is_math_env_name, is_math_environment_name};
use crate::options::{LineEnding, WriterOptions};
use crate::prose::{all_blank, lemma_rows_text, lines_ok, rows_text, skipped_row, skipped_rows};
use crate::skip::{skip_regions, SkipRegions};
use crate::text::{
    all_pad, find_lit_from, find_str, lemma_skip_pad, push_all, push_range, push_spaces,
    rskip_pad_exec, skip_pad, skip_pad_exec, spaces, trim_end, trim_start, Pad,
};

verus! {

/// The line ending written for a source ending `e`.
pub open spec fn converted_ending(opts: WriterOptions, e: Seq<char>) -> Seq<char> {
    if e.len() == 0 {
        seq![]
    } else {
        match opts.line_ending {
            LineEnding::Preserve => e,
            LineEnding::Lf => lf(),
            LineEnding::Crlf => crlf(),
        }
    }
}

/// Indentation depth of a row: environments, display formulas and item bodies around it.
pub open spec fn row_depth(env: Seq<usize>, disp: Seq<usize>, item: Seq<usize>, row: int) -> nat {
    count_at(env, row) + count_at(disp, row) + count_at(item, row)
}

/// The line pass from row `row` on, with `blanks` consecutive blank lines before it.
pub open spec fn lines_from_row(
    s: Seq<char>,
    opts: WriterOptions,
    env: Seq<usize>,
    disp: Seq<usize>,
    item: Seq<usize>,
    raw: Seq<bool>,
    comment: Seq<bool>,
    out: Seq<char>,
    blanks: nat,
    row: int,
) -> Seq<char>
    decreases lines(s).len() - row,
{
    if row < 0 || row >= lines(s).len() {
        out
    } else {
        let l = lines(s)[row];
        let c = content(s, l);
        let e = ending(s, l);
        if skipped_row(s, row) {
            lines_from_row(s, opts, env, disp, item, raw, comment, out + c + e, 0, row + 1)
        } else {
            let raw_row = flag_at(raw, row);
            let comment_row = flag_at(comment, row);
            let blank = all_pad(c, Pad::Blank);
            let blanks2: nat = if blank && !raw_row {
                (blanks + 1) as nat
            } else {
                0
            };
            let dropped = blank && !raw_row && match opts.max_blank_lines {
                Some(m) => blanks2 > m,
                None => false,
            };
            if dropped {
                lines_from_row(s, opts, env, disp, item, raw, comment, out, blanks2, row + 1)
            } else {
                let indent = opts.indent_environments && !raw_row && !blank;
                let prefix = if indent {
                    spaces(row_depth(env, disp, item, row) * (opts.indent_width as nat))
                } else {
                    seq![]
                };
                let c1 = if indent {
                    trim_start(c, Pad::Blank)
                } else {
                    c
                };
                let c2 = if opts.trim_trailing_whitespace && !raw_row && !comment_row {
                    trim_end(c1, Pad::Blank)
                } else {
                    c1
                };
                lines_from_row(
                    s,
                    opts,
                    env,
                    disp,
                    item,
                    raw,
                    comment,
                    out + prefix + c2 + converted_ending(opts, e),
                    blanks2,
                    row + 1,
                )
            }
        }
    }
}

/// The final line ending that the line pass adds, if any.
pub open spec fn final_newline(s: Seq<char>, opts: WriterOptions, out: Seq<char>) -> Seq<char> {
    let rows = skip_regions(s).1;
    let last_skipped = rows.len() > 0 && rows.last();
    if opts.ensure_final_newline && !last_skipped && out.len() > 0 && out.last() != '\n' {
        match opts.line_ending {
            LineEnding::Preserve => detected_ending(s),
            LineEnding::Lf => lf(),
            LineEnding::Crlf => crlf(),
        }
    } else {
        seq![]
    }
}

/// The line pass: indentation by nesting depth, trailing spaces removed, runs of
/// blank lines limited, line endings converted, and a final line ending added.
pub open spec fn lines_pass(
    s: Seq<char>,
    opts: WriterOptions,
    env: Seq<usize>,
    disp: Seq<usize>,
    item: Seq<usize>,
    raw: Seq<bool>,
    comment: Seq<bool>,
) -> Seq<char> {
    let out = lines_from_row(s, opts, env, disp, item, raw, comment, seq![], 0, 0);
    out + final_newline(s, opts, out)
}

fn ending_for(opts: &WriterOptions, e: &[char]) -> (r: Vec<char>)
    ensures
        r@ == converted_ending(*opts, e@),
{
    if e.len() == 0 {
        return Vec::new();
    }
    match opts.line_ending {
        LineEnding::Preserve => vstd::slice::slice_to_vec(e),
        LineEnding::Lf => {
            let mut v = Vec::new();
            v.push('\n');
            assert(v@ =~= lf());
            v
        },
        LineEnding::Crlf => {
            let mut v = Vec::new();
            v.push('\r');
            v.push('\n');
            assert(v@ =~= crlf());
            v
        },
    }
}

proof fn lemma_spaces_add(a: nat, b: nat)
    ensures
        spaces(a) + spaces(b) == spaces(a + b),
{
    assert(spaces(a) + spaces(b) =~= spaces(a + b));
}

/// Appends `count * width` spaces.
fn push_indent(out: &mut Vec<char>, count: usize, width: usize)
    ensures
        final(out)@ == old(out)@ + spaces((count * width) as nat),
{
    let mut k: usize = 0;
    while k < count
        invariant
            k <= count,
            out@ == old(out)@ + spaces((k * width) as nat),
        decreases count - k,
    {
        let ghost o0 = out@;
        let mut j: usize = 0;
        while j < width
            invariant
                j <= width,
                out@ == o0 + spaces(j as nat),
            decreases width - j,
        {
            out.push(' ');
            j = j + 1;
            assert(out@ =~= o0 + spaces(j as nat));
        }
        proof {
            lemma_spaces_add((k * width) as nat, width as nat);
            assert(k * width + width == (k + 1) * width) by (nonlinear_arith);
        }
        k = k + 1;
    }
}

/// One row of the line pass that formatting does not skip; returns the new blank-line count.
fn rewrite_row(
    opts: &WriterOptions,
    metadata: &TreeMetadata,
    c: &[char],
    e: &[char],
    row: usize,
    blanks: usize,
    out: &mut Vec<char>,
) -> (r: usize)
    requires
        blanks <= row < usize::MAX,
    ensures
        r <= row + 1,
        ({
            let raw_row = flag_at(metadata.raw_content@, row as int);
            let comment_row = flag_at(metadata.contains_comment@, row as int);
            let blank = all_pad(c@, Pad::Blank);
            let blanks2: nat = if blank && !raw_row {
                (blanks + 1) as nat
            } else {
                0
            };
            let dropped = blank && !raw_row && match opts.max_blank_lines {
                Some(m) => blanks2 > m,
                None => false,
            };
            &&& r == blanks2
            &&& dropped ==> final(out)@ == old(out)@
            &&& !dropped ==> {
                let indent = opts.indent_environments && !raw_row && !blank;
                let prefix = if indent {
                    spaces(
                        row_depth(
                            metadata.environment_depth@,
                            metadata.display_math_depth@,
                            metadata.item_depth@,
                            row as int,
                        ) * (opts.indent_width as nat),
                    )
                } else {
                    seq![]
                };
                let c1 = if indent {
                    trim_start(c@, Pad::Blank)
                } else {
                    c@
                };
                let c2 = if opts.trim_trailing_whitespace && !raw_row && !comment_row {
                    trim_end(c1, Pad::Blank)
                } else {
                    c1
                };
                final(out)@ == old(out)@ + prefix + c2 + converted_ending(*opts, e@)
            }
        }),
{
    let raw_row = flag_get(&metadata.raw_content, row);
    let comment_row = flag_get(&metadata.contains_comment, row);
    let blank = all_blank(c);
    let blanks2 = if blank && !raw_row {
        blanks + 1
    } else {
        0
    };
    if blank && !raw_row {
        if let Some(m) = opts.max_blank_lines {
            if blanks2 > m {
                return blanks2;
            }
        }
    }
    let indent = opts.indent_environments && !raw_row && !blank;
    let mut a: usize = 0;
    if indent {
        a = skip_pad_exec(c, 0, Pad::Blank);
        let w = opts.indent_width;
        let d1 = count_get(&metadata.environment_depth, row);
        let d2 = count_get(&metadata.display_math_depth, row);
        let d3 = count_get(&metadata.item_depth, row);
        let ghost o0 = out@;
        push_indent(out, d1, w);
        push_indent(out, d2, w);
        push_indent(out, d3, w);
        proof {
            lemma_spaces_add((d1 * w) as nat, (d2 * w) as nat);
            lemma_spaces_add((d1 * w + d2 * w) as nat, (d3 * w) as nat);
            assert((d1 + d2 + d3) * w == d1 * w + d2 * w + d3 * w) by (nonlinear_arith);
            assert(out@ =~= o0 + spaces(((d1 + d2 + d3) * w) as nat));
        }
    }
    let c1 = &c[a..c.len()];
    assert(c1@ == if indent {
        trim_start(c@, Pad::Blank)
    } else {
        c@
    });
    let b = if opts.trim_trailing_whitespace && !raw_row && !comment_row {
        rskip_pad_exec(c1, c1.len(), Pad::Blank)
    } else {
        c1.len()
    };
    push_range(out, c1, 0, b);
    assert(c1@.subrange(0, c1@.len() as int) =~= c1@);
    let end = ending_for(opts, e);
    push_all(out, end.as_slice());
    blanks2
}

/// The line pass.
pub fn rewrite_lines(src: &[char], opts: &WriterOptions, metadata: &TreeMetadata) -> (r: Vec<char>)
    ensures
        r@ == lines_pass(
            src@,
            *opts,
            metadata.environment_depth@,
            metadata.display_math_depth@,
            metadata.item_depth@,
            metadata.raw_content@,
            metadata.contains_comment@,
        ),
{
    let fallback = detected_line_ending(src);
    let skipped = SkipRegions::new(src);
    let ls = source_lines(src);
    proof {
        lemma_lines_from(src@, 0);
    }
    let ghost env = metadata.environment_depth@;
    let ghost disp = metadata.display_math_depth@;
    let ghost item = metadata.item_depth@;
    let ghost raw = metadata.raw_content@;
    let ghost comment = metadata.contains_comment@;
    let mut out: Vec<char> = Vec::new();
    let mut blanks: usize = 0;
    let mut row: usize = 0;
    while row < ls.len()
        invariant
            skipped.of(src@),
            lines_ok(src@, ls@),
            row <= ls@.len(),
            blanks <= row,
            env == metadata.environment_depth@,
            disp == metadata.display_math_depth@,
            item == metadata.item_depth@,
            raw == metadata.raw_content@,
            comment == metadata.contains_comment@,
            lines_from_row(src@, *opts, env, disp, item, raw, comment, out@, blanks as nat, row as int)
                == lines_from_row(src@, *opts, env, disp, item, raw, comment, seq![], 0, 0),
        decreases ls@.len() - row,
    {
        let l = ls[row];
        let c = &src[l.0..l.1];
        let e = &src[l.1..l.2];
        assert(c@ == content(src@, lines(src@)[row as int]));
        assert(e@ == ending(src@, lines(src@)[row as int]));
        let ghost o0 = out@;
        let ghost b0 = blanks as nat;
        if skipped.contains_row(row) {
            push_all(&mut out, c);
            push_all(&mut out, e);
            assert(out@ =~= o0 + c@ + e@);
            blanks = 0;
            assert(lines_from_row(src@, *opts, env, disp, item, raw, comment, o0, b0, row as int)
                == lines_from_row(src@, *opts, env, disp, item, raw, comment, out@, blanks as nat, row + 1));
        } else {
            assert(!skipped_row(src@, row as int));
            blanks = rewrite_row(opts, metadata, c, e, row, blanks, &mut out);
            assert(lines_from_row(src@, *opts, env, disp, item, raw, comment, o0, b0, row as int)
                == lines_from_row(src@, *opts, env, disp, item, raw, comment, out@, blanks as nat, row + 1));
        }
        row = row + 1;
    }
    let rows_len = skipped.rows.len();
    let last_skipped = rows_len > 0 && skipped.rows[rows_len - 1];
    let n = out.len();
    if opts.ensure_final_newline && !last_skipped && n > 0 && out[n - 1] != '\n' {
        match opts.line_ending {
            LineEnding::Preserve => push_all(&mut out, fallback.as_slice()),
            LineEnding::Lf => out.push('\n'),
            LineEnding::Crlf => {
                out.push('\r');
                out.push('\n');
            },
        }
        proof {
            let o = lines_from_row(src@, *opts, env, disp, item, raw, comment, seq![], 0, 0);
            assert(out@ =~= o + final_newline(src@, *opts, o));
        }
    } else {
        proof {
            let o = lines_from_row(src@, *opts, env, disp, item, raw, comment, seq![], 0, 0);
            assert(out@ =~= o + final_newline(src@, *opts, o));
        }
    }
    out
}

/// Where a line's indented text splits after the `\end{..}` of a math
/// environment that other text follows.
pub open spec fn end_split(t: Seq<char>) -> Option<int> {
    match env_marker(t, false) {
        Some((me, a, b)) => if is_math_env_name(t.subrange(a, b)) && !all_white(
            t.subrange(me, t.len() as int),
        ) {
            Some(me)
        } else {
            None
        },
        None => None,
    }
}

/// Where a line's indented text splits before the `\begin{..}` of a math
/// environment that other text precedes.
pub open spec fn begin_split(t: Seq<char>) -> Option<int> {
    match find_lit_from(t, "\\begin{"@, 0) {
        Some(bo) => if bo > 0 && !all_white(t.subrange(0, bo)) && match env_marker(
            t.subrange(bo, t.len() as int),
            true,
        ) {
            Some((_, a, b)) => is_math_env_name(t.subrange(bo, t.len() as int).subrange(a, b)),
            None => false,
        } {
            Some(bo)
        } else {
            None
        },
        None => None,
    }
}

/// The text of a line that formatting does not skip, split at a math-environment boundary.
pub open spec fn split_text(c: Seq<char>, e: Seq<char>, ins: Seq<char>) -> Seq<char> {
    let lead = skip_pad(c, 0, Pad::Blank);
    let leading = c.subrange(0, lead);
    let t = c.subrange(lead, c.len() as int);
    match end_split(t) {
        Some(me) => leading + t.subrange(0, me) + ins + leading + trim_start(
            t.subrange(me, t.len() as int),
            Pad::Blank,
        ) + e,
        None => match begin_split(t) {
            Some(bo) => leading + trim_end(t.subrange(0, bo), Pad::Blank) + ins + leading
                + t.subrange(bo, t.len() as int) + e,
            None => c + e,
        },
    }
}

fn end_split_exec(t: &[char]) -> (r: Option<usize>)
    ensures
        match r {
            Some(me) => end_split(t@) == Some(me as int) && me <= t@.len(),
            None => end_split(t@).is_none(),
        },
{
    if let Some((me, a, b)) = environment_marker(t, false) {
        if is_math_environment_name(&t[a..b]) && !all_white_space(&t[me..t.len()]) {
            return Some(me);
        }
    }
    None
}

fn begin_split_exec(t: &[char]) -> (r: Option<usize>)
    ensures
        match r {
            Some(bo) => begin_split(t@) == Some(bo as int) && bo <= t@.len(),
            None => begin_split(t@).is_none(),
        },
{
    if let Some(bo) = find_str(t, "\\begin{") {
        if bo > 0 && !all_white_space(&t[0..bo]) {
            let tail = &t[bo..t.len()];
            if let Some((_, a, b)) = environment_marker(tail, true) {
                if is_math_environment_name(&tail[a..b]) {
                    return Some(bo);
                }
            }
        }
    }
    None
}

/// A line split at a math-environment boundary that shares it with other text.
pub open spec fn separated_line(s: Seq<char>, l: (int, int, int), row: int) -> Seq<char> {
    let c = content(s, l);
    let e = ending(s, l);
    if skipped_row(s, row) {
        c + e
    } else {
        let ins = if e.len() == 0 {
            detected_ending(s)
        } else {
            e
        };
        split_text(c, e, ins)
    }
}

/// The boundary pass from row `row` on.
pub open spec fn separated_from(s: Seq<char>, row: int) -> Seq<char>
    decreases lines(s).len() - row,
{
    if row < 0 || row >= lines(s).len() {
        seq![]
    } else {
        separated_line(s, lines(s)[row], row) + separated_from(s, row + 1)
    }
}

/// Keeps `\begin{..}` and `\end{..}` of math environments off lines that hold
/// other text, as the options ask.
pub open spec fn separate_pass(s: Seq<char>, opts: WriterOptions) -> Seq<char> {
    if !opts.separate_math_environment_boundaries {
        s
    } else {
        separated_from(s, 0)
    }
}

#[verifier::rlimit(40)]
fn separate_line(
    src: &[char],
    c: &[char],
    e: &[char],
    fallback: &Vec<char>,
    out: &mut Vec<char>,
)
    requires
        fallback@ == detected_ending(src@),
    ensures
        final(out)@ == old(out)@ + split_text(
            c@,
            e@,
            if e@.len() == 0 {
                detected_ending(src@)
            } else {
                e@
            },
        ),
{
    let ghost o0 = out@;
    let lead = skip_pad_exec(c, 0, Pad::Blank);
    let leading = &c[0..lead];
    let t = &c[lead..c.len()];
    let ins: &[char] = if e.len() == 0 {
        fallback.as_slice()
    } else {
        e
    };
    if let Some(me) = end_split_exec(t) {
        push_all(out, leading);
        push_range(out, t, 0, me);
        push_all(out, ins);
        push_all(out, leading);
        let rest = &t[me..t.len()];
        let k = skip_pad_exec(rest, 0, Pad::Blank);
        push_range(out, rest, k, rest.len());
        push_all(out, e);
        assert(out@ =~= o0 + leading@ + t@.subrange(0, me as int) + ins@ + leading@ + trim_start(
            rest@,
            Pad::Blank,
        ) + e@);
        return;
    }
    if let Some(bo) = begin_split_exec(t) {
        push_all(out, leading);
        let head = &t[0..bo];
        let h = rskip_pad_exec(head, head.len(), Pad::Blank);
        push_range(out, head, 0, h);
        push_all(out, ins);
        push_all(out, leading);
        let tail = &t[bo..t.len()];
        push_all(out, tail);
        push_all(out, e);
        assert(out@ =~= o0 + leading@ + trim_end(head@, Pad::Blank) + ins@ + leading@ + tail@ + e@);
        return;
    }
    push_all(out, c);
    push_all(out, e);
    assert(out@ =~= o0 + c@ + e@);
}

/// The boundary pass.
pub fn separate_math_environment_boundaries(src: &[char], opts: &WriterOptions) -> (r: Vec<char>)
    ensures
        r@ == separate_pass(src@, *opts),
{
    if !opts.separate_math_environment_boundaries {
        return vstd::slice::slice_to_vec(src);
    }
    let fallback = detected_line_ending(src);
    let skipped = SkipRegions::new(src);
    let ls = source_lines(src);
    proof {
        lemma_lines_from(src@, 0);
    }
    let mut out: Vec<char> = Vec::new();
    let mut row: usize = 0;
    while row < ls.len()
        invariant
            skipped.of(src@),
            lines_ok(src@, ls@),
            fallback@ == detected_ending(src@),
            row <= ls@.len(),
            out@ + separated_from(src@, row as int) == separated_from(src@, 0),
        decreases ls@.len() - row,
    {
        let ghost o0 = out@;
        let l = ls[row];
        let c = &src[l.0..l.1];
        let e = &src[l.1..l.2];
        assert(c@ == content(src@, lines(src@)[row as int]));
        assert(e@ == ending(src@, lines(src@)[row as int]));
        if skipped.contains_row(row) {
            push_all(&mut out, c);
            push_all(&mut out, e);
        } else {
            separate_line(src, c, e, &fallback, &mut out);
        }
        assert(out@ =~= o0 + separated_line(src@, lines(src@)[row as int], row as int));
        row = row + 1;
    }
    assert(separated_from(src@, row as int) =~= Seq::<char>::empty());
    out
}


#[verifier::spinoff_prover]
#[verifier::rlimit(40)]
proof fn lemma_skipped_from(
    s: Seq<char>,
    opts: WriterOptions,
    env: Seq<usize>,
    disp: Seq<usize>,
    item: Seq<usize>,
    raw: Seq<bool>,
    comment: Seq<bool>,
    out: Seq<char>,
    blanks: nat,
    row: int,
)
    requires
        0 <= row <= lines(s).len(),
        forall|r: int| row <= r < lines(s).len() ==> #[trigger] skipped_row(s, r),
    ensures
        lines_from_row(s, opts, env, disp, item, raw, comment, out, blanks, row) == out + join_lines(
            s,
            lines(s).subrange(row, lines(s).len() as int),
        ),
    decreases lines(s).len() - row,
{
    let ls = lines(s);
    if row < ls.len() {
        lemma_lines_from(s, 0);
        let l = ls[row];
        assert(skipped_row(s, row));
        lemma_skipped_from(s, opts, env, disp, item, raw, comment, out + content(s, l) + ending(s, l), 0, row + 1);
        assert(ls.subrange(row, ls.len() as int).drop_first() =~= ls.subrange(row + 1, ls.len() as int));
        assert(ls.subrange(row, ls.len() as int)[0] == l);
        assert(s.subrange(l.0, l.2) =~= content(s, l) + ending(s, l));
        assert(out + content(s, l) + ending(s, l) + join_lines(s, ls.subrange(row + 1, ls.len() as int))
            =~= out + (s.subrange(l.0, l.2) + join_lines(s, ls.subrange(row + 1, ls.len() as int))));
    } else {
        assert(ls.subrange(row, ls.len() as int) =~= Seq::<(int, int, int)>::empty());
        assert(out + Seq::<char>::empty() =~= out);
    }
}

/// Lines between the directives keep their text and their endings: a text
/// whose every line is skipped comes out of the line pass unchanged.
pub proof fn skipped_lines_are_kept(
    s: Seq<char>,
    opts: WriterOptions,
    env: Seq<usize>,
    disp: Seq<usize>,
    item: Seq<usize>,
    raw: Seq<bool>,
    comment: Seq<bool>,
)
    requires
        forall|r: int| 0 <= r < lines(s).len() ==> #[trigger] skipped_row(s, r),
    ensures
        lines_pass(s, opts, env, disp, item, raw, comment) == s,
{
    lemma_skipped_from(s, opts, env, disp, item, raw, comment, seq![], 0, 0);
    lines_join_to_source(s);
    assert(lines(s).subrange(0, lines(s).len() as int) =~= lines(s));
    let out = lines_from_row(s, opts, env, disp, item, raw, comment, seq![], 0, 0);
    assert(out =~= s);
    crate::skip::lemma_skip_rows_len(s);
    lemma_lines_from(s, 0);
    if lines(s).len() > 0 {
        assert(skipped_row(s, lines(s).len() - 1));
    } else {
        assert(s.len() == 0);
    }
    assert(final_newline(s, opts, out) =~= Seq::<char>::empty());
}


/// The options under which the line pass changes no line: no indentation, no
/// trimming, no limit on blank lines, line endings as they are.
pub open spec fn lines_left_alone(opts: WriterOptions) -> bool {
    &&& !opts.indent_environments
    &&& !opts.trim_trailing_whitespace
    &&& opts.max_blank_lines is None
    &&& opts.line_ending == LineEnding::Preserve
}

#[verifier::spinoff_prover]
proof fn lemma_plain_from(
    s: Seq<char>,
    opts: WriterOptions,
    env: Seq<usize>,
    disp: Seq<usize>,
    item: Seq<usize>,
    raw: Seq<bool>,
    comment: Seq<bool>,
    out: Seq<char>,
    blanks: nat,
    row: int,
)
    requires
        0 <= row <= lines(s).len(),
        lines_left_alone(opts),
    ensures
        lines_from_row(s, opts, env, disp, item, raw, comment, out, blanks, row) == out + join_lines(
            s,
            lines(s).subrange(row, lines(s).len() as int),
        ),
    decreases lines(s).len() - row,
{
    let ls = lines(s);
    if row < ls.len() {
        lemma_lines_from(s, 0);
        let l = ls[row];
        let c = content(s, l);
        let e = ending(s, l);
        let raw_row = flag_at(raw, row);
        let blank = all_pad(c, Pad::Blank);
        let b2: nat = if skipped_row(s, row) {
            0
        } else if blank && !raw_row {
            (blanks + 1) as nat
        } else {
            0
        };
        assert(converted_ending(opts, e) == e);
        assert(out + Seq::<char>::empty() + c + converted_ending(opts, e) =~= out + c + e);
        assert(lines_from_row(s, opts, env, disp, item, raw, comment, out, blanks, row)
            == lines_from_row(s, opts, env, disp, item, raw, comment, out + c + e, b2, row + 1));
        lemma_plain_from(s, opts, env, disp, item, raw, comment, out + c + e, b2, row + 1);
        assert(ls.subrange(row, ls.len() as int).drop_first() =~= ls.subrange(row + 1, ls.len() as int));
        assert(ls.subrange(row, ls.len() as int)[0] == l);
        assert(s.subrange(l.0, l.2) =~= c + e);
        assert(out + c + e + join_lines(s, ls.subrange(row + 1, ls.len() as int))
            =~= out + (s.subrange(l.0, l.2) + join_lines(s, ls.subrange(row + 1, ls.len() as int))));
    } else {
        assert(ls.subrange(row, ls.len() as int) =~= Seq::<(int, int, int)>::empty());
        assert(out + Seq::<char>::empty() =~= out);
    }
}

/// With indentation, trimming, the blank-line limit, line-ending conversion
/// and the final line ending all off, the line pass gives the text back.
pub proof fn line_pass_off_is_identity(
    s: Seq<char>,
    opts: WriterOptions,
    env: Seq<usize>,
    disp: Seq<usize>,
    item: Seq<usize>,
    raw: Seq<bool>,
    comment: Seq<bool>,
)
    requires
        lines_left_alone(opts),
        !opts.ensure_final_newline,
    ensures
        lines_pass(s, opts, env, disp, item, raw, comment) == s,
{
    lemma_plain_from(s, opts, env, disp, item, raw, comment, seq![], 0, 0);
    lines_join_to_source(s);
    assert(lines(s).subrange(0, lines(s).len() as int) =~= lines(s));
    let out = lines_from_row(s, opts, env, disp, item, raw, comment, seq![], 0, 0);
    assert(out =~= s);
    assert(final_newline(s, opts, out) =~= Seq::<char>::empty());
}

/// With `ensure_final_newline`, the line pass ends a non-empty text with a
/// line ending unless its last line is skipped.
pub proof fn line_pass_ends_with_newline(
    s: Seq<char>,
    opts: WriterOptions,
    env: Seq<usize>,
    disp: Seq<usize>,
    item: Seq<usize>,
    raw: Seq<bool>,
    comment: Seq<bool>,
)
    requires
        opts.ensure_final_newline,
        !(skip_regions(s).1.len() > 0 && skip_regions(s).1.last()),
        lines_pass(s, opts, env, disp, item, raw, comment).len() > 0,
    ensures
        lines_pass(s, opts, env, disp, item, raw, comment).last() == '\n',
{
    let out = lines_from_row(s, opts, env, disp, item, raw, comment, seq![], 0, 0);
    let f = final_newline(s, opts, out);
    if out.len() > 0 && out.last() != '\n' {
        assert(f.len() > 0 && f.last() == '\n');
        assert((out + f).last() == f.last());
    } else if out.len() > 0 {
        assert(f =~= Seq::<char>::empty());
        assert(out + f =~= out);
    } else {
        assert(f =~= Seq::<char>::empty());
    }
}

proof fn lemma_separated_run(s: Seq<char>, i: int, j: int)
    requires
        skipped_rows(s, i, j),
    ensures
        separated_from(s, i) == rows_text(s, i, j) + separated_from(s, j + 1),
    decreases j - i,
{
    lemma_rows_text(s, i, j);
    assert(skipped_row(s, i));
    if i < j {
        lemma_separated_run(s, i + 1, j);
    }
}

proof fn lemma_separated_reach(s: Seq<char>, row: int, i: int)
    requires
        0 <= row <= i,
    ensures
        exists|a: Seq<char>| separated_from(s, row) == a + separated_from(s, i),
    decreases i - row,
{
    if row == i {
        assert(separated_from(s, row) == Seq::<char>::empty() + separated_from(s, i));
    } else if row >= lines(s).len() {
        lemma_separated_empty(s, i);
        assert(separated_from(s, row) == Seq::<char>::empty() + separated_from(s, i));
    } else {
        lemma_separated_reach(s, row + 1, i);
        let a = choose|a: Seq<char>| separated_from(s, row + 1) == a + separated_from(s, i);
        let first = separated_line(s, lines(s)[row], row);
        assert(separated_from(s, row) == (first + a) + separated_from(s, i));
    }
}

proof fn lemma_separated_empty(s: Seq<char>, i: int)
    requires
        i >= lines(s).len(),
    ensures
        separated_from(s, i) == Seq::<char>::empty(),
{
}

/// The boundary pass copies a skipped region as it is: the text of rows `i`
/// through `j`, all skipped, endings included, stands in the output as one
/// piece.
pub proof fn separation_keeps_skipped_regions(s: Seq<char>, opts: WriterOptions, i: int, j: int)
    requires
        skipped_rows(s, i, j),
    ensures
        exists|a: Seq<char>, b: Seq<char>| separate_pass(s, opts) == a + rows_text(s, i, j) + b,
{
    if !opts.separate_math_environment_boundaries {
        crate::prose::lemma_text_holds_rows(s, i, j);
    } else {
        lemma_separated_reach(s, 0, i);
        lemma_separated_run(s, i, j);
        let a = choose|a: Seq<char>| separated_from(s, 0) == a + separated_from(s, i);
        assert(separate_pass(s, opts) == a + rows_text(s, i, j) + separated_from(s, j + 1));
    }
}

/// One row of the line pass: what it appends and the count of blank lines after it.
#[verifier::spinoff_prover]
proof fn lemma_line_next(
    s: Seq<char>,
    opts: WriterOptions,
    env: Seq<usize>,
    disp: Seq<usize>,
    item: Seq<usize>,
    raw: Seq<bool>,
    comment: Seq<bool>,
    out: Seq<char>,
    blanks: nat,
    row: int,
) -> (r: (Seq<char>, nat))
    requires
        0 <= row < lines(s).len(),
    ensures
        lines_from_row(s, opts, env, disp, item, raw, comment, out, blanks, row)
            == lines_from_row(s, opts, env, disp, item, raw, comment, out + r.0, r.1, row + 1),
{
    let l = lines(s)[row];
    let c = content(s, l);
    let e = ending(s, l);
    if skipped_row(s, row) {
        assert(out + c + e == out + (c + e));
        (c + e, 0)
    } else {
        let raw_row = flag_at(raw, row);
        let comment_row = flag_at(comment, row);
        let blank = all_pad(c, Pad::Blank);
        let blanks2: nat = if blank && !raw_row {
            (blanks + 1) as nat
        } else {
            0
        };
        let dropped = blank && !raw_row && match opts.max_blank_lines {
            Some(m) => blanks2 > m,
            None => false,
        };
        if dropped {
            assert(out + Seq::<char>::empty() == out);
            (Seq::<char>::empty(), blanks2)
        } else {
            let indent = opts.indent_environments && !raw_row && !blank;
            let prefix = if indent {
                spaces(row_depth(env, disp, item, row) * (opts.indent_width as nat))
            } else {
                seq![]
            };
            let c1 = if indent {
                trim_start(c, Pad::Blank)
            } else {
                c
            };
            let c2 = if opts.trim_trailing_whitespace && !raw_row && !comment_row {
                trim_end(c1, Pad::Blank)
            } else {
                c1
            };
            let t = prefix + c2 + converted_ending(opts, e);
            assert(out + prefix + c2 + converted_ending(opts, e) == out + t);
            (t, blanks2)
        }
    }
}

/// The line pass only appends to what it has written.
#[verifier::spinoff_prover]
proof fn lemma_lines_extend(
    s: Seq<char>,
    opts: WriterOptions,
    env: Seq<usize>,
    disp: Seq<usize>,
    item: Seq<usize>,
    raw: Seq<bool>,
    comment: Seq<bool>,
    out: Seq<char>,
    blanks: nat,
    row: int,
)
    requires
        0 <= row,
    ensures
        exists|t: Seq<char>| lines_from_row(s, opts, env, disp, item, raw, comment, out, blanks, row) == out + t,
    decreases lines(s).len() - row,
{
    if row >= lines(s).len() {
        assert(lines_from_row(s, opts, env, disp, item, raw, comment, out, blanks, row) == out + Seq::<char>::empty());
    } else {
        let r = lemma_line_next(s, opts, env, disp, item, raw, comment, out, blanks, row);
        lemma_lines_extend(s, opts, env, disp, item, raw, comment, out + r.0, r.1, row + 1);
        let t = choose|t: Seq<char>| lines_from_row(s, opts, env, disp, item, raw, comment, out + r.0, r.1, row + 1) == (out + r.0) + t;
        assert((out + r.0) + t == out + (r.0 + t));
    }
}

#[verifier::spinoff_prover]
proof fn lemma_lines_reach(
    s: Seq<char>,
    opts: WriterOptions,
    env: Seq<usize>,
    disp: Seq<usize>,
    item: Seq<usize>,
    raw: Seq<bool>,
    comment: Seq<bool>,
    out: Seq<char>,
    blanks: nat,
    row: int,
    i: int,
)
    requires
        0 <= row <= i < lines(s).len(),
    ensures
        exists|o: Seq<char>, b: nat|
            lines_from_row(s, opts, env, disp, item, raw, comment, out, blanks, row)
                == lines_from_row(s, opts, env, disp, item, raw, comment, o, b, i),
    decreases i - row,
{
    if row < i {
        let r = lemma_line_next(s, opts, env, disp, item, raw, comment, out, blanks, row);
        lemma_lines_reach(s, opts, env, disp, item, raw, comment, out + r.0, r.1, row + 1, i);
    } else {
        assert(lines_from_row(s, opts, env, disp, item, raw, comment, out, blanks, row)
            == lines_from_row(s, opts, env, disp, item, raw, comment, out, blanks, i));
    }
}

#[verifier::spinoff_prover]
proof fn lemma_lines_run(
    s: Seq<char>,
    opts: WriterOptions,
    env: Seq<usize>,
    disp: Seq<usize>,
    item: Seq<usize>,
    raw: Seq<bool>,
    comment: Seq<bool>,
    out: Seq<char>,
    blanks: nat,
    i: int,
    j: int,
)
    requires
        skipped_rows(s, i, j),
    ensures
        lines_from_row(s, opts, env, disp, item, raw, comment, out, blanks, i)
            == lines_from_row(s, opts, env, disp, item, raw, comment, out + rows_text(s, i, j), 0, j + 1),
    decreases j - i,
{
    lemma_rows_text(s, i, j);
    assert(skipped_row(s, i));
    let l = lines(s)[i];
    let c = content(s, l);
    let e = ending(s, l);
    assert(lines_from_row(s, opts, env, disp, item, raw, comment, out, blanks, i)
        == lines_from_row(s, opts, env, disp, item, raw, comment, out + c + e, 0, i + 1));
    if i < j {
        lemma_lines_run(s, opts, env, disp, item, raw, comment, out + c + e, 0, i + 1, j);
        assert(out + c + e + rows_text(s, i + 1, j) =~= out + rows_text(s, i, j));
    } else {
        assert(out + c + e =~= out + rows_text(s, i, j));
    }
}

/// The line pass copies a skipped region as it is, whatever the line-ending,
/// indentation, trimming and blank-line options: the text of rows `i` through
/// `j`, all skipped, endings included, stands in the output as one piece.
#[verifier::spinoff_prover]
pub proof fn line_pass_keeps_skipped_regions(
    s: Seq<char>,
    opts: WriterOptions,
    env: Seq<usize>,
    disp: Seq<usize>,
    item: Seq<usize>,
    raw: Seq<bool>,
    comment: Seq<bool>,
    i: int,
    j: int,
)
    requires
        skipped_rows(s, i, j),
    ensures
        exists|a: Seq<char>, b: Seq<char>| lines_pass(s, opts, env, disp, item, raw, comment) == a + rows_text(s, i, j) + b,
{
    lemma_lines_reach(s, opts, env, disp, item, raw, comment, seq![], 0, 0, i);
    let (o, bl) = choose|o: Seq<char>, b: nat|
        lines_from_row(s, opts, env, disp, item, raw, comment, seq![], 0, 0)
            == lines_from_row(s, opts, env, disp, item, raw, comment, o, b, i);
    lemma_lines_run(s, opts, env, disp, item, raw, comment, o, bl, i, j);
    let o2 = o + rows_text(s, i, j);
    lemma_lines_extend(s, opts, env, disp, item, raw, comment, o2, 0, j + 1);
    let t = choose|t: Seq<char>| lines_from_row(s, opts, env, disp, item, raw, comment, o2, 0, j + 1) == o2 + t;
    let out = lines_from_row(s, opts, env, disp, item, raw, comment, seq![], 0, 0);
    assert(out == o + rows_text(s, i, j) + t);
    let f = final_newline(s, opts, out);
    assert(lines_pass(s, opts, env, disp, item, raw, comment) == o + rows_text(s, i, j) + (t + f));
}

/// When the skipped region runs to the end of the text (an `off` directive
/// that nothing closes), the line pass ends with that text as it is and adds no
/// final line ending after it.
#[verifier::spinoff_prover]
pub proof fn line_pass_keeps_skipped_tail(
    s: Seq<char>,
    opts: WriterOptions,
    env: Seq<usize>,
    disp: Seq<usize>,
    item: Seq<usize>,
    raw: Seq<bool>,
    comment: Seq<bool>,
    i: int,
)
    requires
        skipped_rows(s, i, lines(s).len() - 1),
    ensures
        exists|a: Seq<char>| lines_pass(s, opts, env, disp, item, raw, comment) == #[trigger] (a + rows_text(s, i, lines(s).len() - 1)),
{
    let j = lines(s).len() - 1;
    lemma_lines_reach(s, opts, env, disp, item, raw, comment, seq![], 0, 0, i);
    let (o, bl) = choose|o: Seq<char>, b: nat|
        lines_from_row(s, opts, env, disp, item, raw, comment, seq![], 0, 0)
            == lines_from_row(s, opts, env, disp, item, raw, comment, o, b, i);
    lemma_lines_run(s, opts, env, disp, item, raw, comment, o, bl, i, j);
    let out = lines_from_row(s, opts, env, disp, item, raw, comment, seq![], 0, 0);
    assert(out == o + rows_text(s, i, j));
    crate::skip::lemma_skip_rows_len(s);
    assert(skipped_row(s, j));
    assert(final_newline(s, opts, out) =~= Seq::<char>::empty());
    assert(lines_pass(s, opts, env, disp, item, raw, comment) =~= o + rows_text(s, i, j));
}

/// The ending each line of the line pass gets: with `Lf` a lone line feed,
/// with `Crlf` a carriage return and a line feed, whatever the source ending
/// was; with `Preserve` the source ending; and nothing for the last line when it
/// has no ending.
pub proof fn converted_endings_follow_the_option(opts: WriterOptions, e: Seq<char>)
    ensures
        e.len() == 0 ==> converted_ending(opts, e) == Seq::<char>::empty(),
        e.len() > 0 && opts.line_ending == LineEnding::Lf ==> converted_ending(opts, e) == seq!['\n'],
        e.len() > 0 && opts.line_ending == LineEnding::Crlf ==> converted_ending(opts, e) == seq!['\r', '\n'],
        e.len() > 0 && opts.line_ending == LineEnding::Preserve ==> converted_ending(opts, e) == e,
{
}

/// No character of `t` is a carriage return.
pub open spec fn no_carriage_return(t: Seq<char>) -> bool {
    forall|k: int| 0 <= k < t.len() ==> #[trigger] t[k] != '\r'
}

/// Every carriage return of `s` stands just before a line feed.
pub open spec fn carriage_returns_end_lines(s: Seq<char>) -> bool {
    forall|k: int| 0 <= k < s.len() && #[trigger] s[k] == '\r' ==> k + 1 < s.len() && s[k + 1] == '\n'
}

proof fn lemma_content_no_cr(s: Seq<char>, row: int)
    requires
        0 <= row < lines(s).len(),
        carriage_returns_end_lines(s),
    ensures
        no_carriage_return(content(s, lines(s)[row])),
{
    lemma_lines_from(s, 0);
    let l = lines(s)[row];
    let i = l.0;
    crate::lines::lemma_line_at(s, i);
    crate::names::lemma_find_from(s, '\n', i);
    let c = content(s, l);
    if !no_carriage_return(c) {
        let j = choose|j: int| 0 <= j < c.len() && #[trigger] c[j] == '\r';
        let k = i + j;
        assert(s[k] == '\r');
        assert(s[k + 1] == '\n');
        if k + 1 < l.1 {
            assert(s[k + 1] != '\n');
        } else {
            let e = crate::lines::line_stop(s, i);
            let nl = crate::names::find_from(s, '\n', i);
            assert(l.1 == k + 1);
            assert(nl <= k + 1);
            assert(nl == k + 1);
            assert(e == k + 2);
        }
    }
}

proof fn lemma_no_cr_concat(a: Seq<char>, b: Seq<char>)
    requires
        no_carriage_return(a),
        no_carriage_return(b),
    ensures
        no_carriage_return(a + b),
{
    assert forall|k: int| 0 <= k < (a + b).len() implies #[trigger] (a + b)[k] != '\r' by {
        if k < a.len() {
            assert((a + b)[k] == a[k]);
        } else {
            assert((a + b)[k] == b[k - a.len()]);
        }
    }
}

#[verifier::spinoff_prover]
proof fn lemma_lines_no_cr(
    s: Seq<char>,
    opts: WriterOptions,
    env: Seq<usize>,
    disp: Seq<usize>,
    item: Seq<usize>,
    raw: Seq<bool>,
    comment: Seq<bool>,
    out: Seq<char>,
    blanks: nat,
    row: int,
)
    requires
        0 <= row,
        opts.line_ending == LineEnding::Lf,
        carriage_returns_end_lines(s),
        forall|r: int| 0 <= r < lines(s).len() ==> !#[trigger] skipped_row(s, r),
        no_carriage_return(out),
    ensures
        no_carriage_return(lines_from_row(s, opts, env, disp, item, raw, comment, out, blanks, row)),
    decreases lines(s).len() - row,
{
    if row < lines(s).len() {
        let l = lines(s)[row];
        let c = content(s, l);
        let e = ending(s, l);
        lemma_content_no_cr(s, row);
        assert(!skipped_row(s, row));
        let raw_row = flag_at(raw, row);
        let comment_row = flag_at(comment, row);
        let blank = all_pad(c, Pad::Blank);
        let blanks2: nat = if blank && !raw_row {
            (blanks + 1) as nat
        } else {
            0
        };
        let dropped = blank && !raw_row && match opts.max_blank_lines {
            Some(m) => blanks2 > m,
            None => false,
        };
        if dropped {
            lemma_lines_no_cr(s, opts, env, disp, item, raw, comment, out, blanks2, row + 1);
        } else {
            let indent = opts.indent_environments && !raw_row && !blank;
            let prefix = if indent {
                spaces(row_depth(env, disp, item, row) * (opts.indent_width as nat))
            } else {
                seq![]
            };
            let c1 = if indent {
                trim_start(c, Pad::Blank)
            } else {
                c
            };
            let c2 = if opts.trim_trailing_whitespace && !raw_row && !comment_row {
                trim_end(c1, Pad::Blank)
            } else {
                c1
            };
            assert(no_carriage_return(prefix));
            assert(no_carriage_return(c1)) by {
                if indent {
                    crate::text::lemma_skip_pad(c, 0, Pad::Blank);
                    assert forall|k: int| 0 <= k < c1.len() implies #[trigger] c1[k] != '\r' by {
                        assert(c1[k] == c[k + skip_pad(c, 0, Pad::Blank)]);
                    }
                }
            }
            assert(no_carriage_return(c2)) by {
                if opts.trim_trailing_whitespace && !raw_row && !comment_row {
                    crate::text::lemma_rskip_pad(c1, c1.len() as int, Pad::Blank);
                    assert forall|k: int| 0 <= k < c2.len() implies #[trigger] c2[k] != '\r' by {
                        assert(c2[k] == c1[k]);
                    }
                }
            }
            let x = converted_ending(opts, e);
            assert(no_carriage_return(x));
            lemma_no_cr_concat(out, prefix);
            lemma_no_cr_concat(out + prefix, c2);
            lemma_no_cr_concat(out + prefix + c2, x);
            lemma_lines_no_cr(s, opts, env, disp, item, raw, comment, out + prefix + c2 + x, blanks2, row + 1);
        }
    }
}

/// With `line_ending: Lf`, the line pass writes no carriage return: every line
/// it writes ends in a lone line feed. This holds for a text none of whose lines
/// is skipped (skipped lines keep their endings) and whose carriage returns all
/// belong to line endings.
pub proof fn lf_option_writes_no_carriage_return(
    s: Seq<char>,
    opts: WriterOptions,
    env: Seq<usize>,
    disp: Seq<usize>,
    item: Seq<usize>,
    raw: Seq<bool>,
    comment: Seq<bool>,
)
    requires
        opts.line_ending == LineEnding::Lf,
        carriage_returns_end_lines(s),
        forall|r: int| 0 <= r < lines(s).len() ==> !#[trigger] skipped_row(s, r),
    ensures
        no_carriage_return(lines_pass(s, opts, env, disp, item, raw, comment)),
{
    lemma_lines_no_cr(s, opts, env, disp, item, raw, comment, seq![], 0, 0);
    let out = lines_from_row(s, opts, env, disp, item, raw, comment, seq![], 0, 0);
    let f = final_newline(s, opts, out);
    assert(no_carriage_return(f));
    lemma_no_cr_concat(out, f);
}

} // verus!
