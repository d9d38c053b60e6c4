//! Prose lines: collapsing runs of spaces and finding sentence boundaries.

use vstd::prelude::*;

use crate::chars::{alphabetic, ascii_lower, is_alphabetic, is_uppercase, to_ascii_lower, uppercase};
use crate::text::{
    backslash_run, contains_lit, contains_str, escaped, has_at, in_pad, is_escaped, lemma_skip_pad, matches_at,
    push_range, skip_pad, skip_pad_exec, text_is, trim_start, Pad,
};

verus! {

/// Whether a line is prose: after its indentation it is non-empty, does not start
/// with a command or a comment, and holds a letter.
pub open spec fn prose_line(line: Seq<char>) -> bool {
    let c = trim_start(line, Pad::Blank);
    &&& c.len() > 0
    &&& c[0] != '\\'
    &&& c[0] != '%'
    &&& exists|k: int| 0 <= k < c.len() && alphabetic(#[trigger] c[k])
}

pub fn is_prose_line(line: &[char]) -> (r: bool)
    ensures
        r == prose_line(line@),
{
    let a = skip_pad_exec(line, 0, Pad::Blank);
    let c = &line[a..line.len()];
    assert(c@ == trim_start(line@, Pad::Blank));
    if c.len() == 0 || c[0] == '\\' || c[0] == '%' {
        return false;
    }
    let mut k: usize = 0;
    while k < c.len()
        invariant
            k <= c@.len(),
            c@ == trim_start(line@, Pad::Blank),
            c@.len() > 0 && c@[0] != '\\' && c@[0] != '%',
            forall|j: int| 0 <= j < k ==> !alphabetic(#[trigger] c@[j]),
        decreases c@.len() - k,
    {
        if is_alphabetic(c[k]) {
            assert(alphabetic(c@[k as int]));
            return true;
        }
        k = k + 1;
    }
    false
}

/// Start of the word that ends at `p`: letters and periods directly before `p`.
pub open spec fn word_start(s: Seq<char>, p: int) -> int
    decreases p,
{
    if 0 < p <= s.len() && (alphabetic(s[p - 1]) || s[p - 1] == '.') {
        word_start(s, p - 1)
    } else {
        p
    }
}

pub open spec fn is_abbreviation_word(w: Seq<char>) -> bool {
    ||| w == "cf"@
    ||| w == "e.g"@
    ||| w == "i.e"@
    ||| w == "etc"@
    ||| w == "mr"@
    ||| w == "mrs"@
    ||| w == "ms"@
    ||| w == "dr"@
    ||| w == "prof"@
    ||| w == "vs"@
}

/// The period at `p` ends a known abbreviation (compared case-insensitively).
pub open spec fn abbreviation(s: Seq<char>, p: int) -> bool {
    is_abbreviation_word(s.subrange(word_start(s, p), p).map_values(|c: char| ascii_lower(c)))
}

pub proof fn lemma_word_start(s: Seq<char>, p: int)
    requires
        0 <= p <= s.len(),
    ensures
        0 <= word_start(s, p) <= p,
    decreases p,
{
    if 0 < p && (alphabetic(s[p - 1]) || s[p - 1] == '.') {
        lemma_word_start(s, p - 1);
    }
}

pub fn is_abbreviation(s: &[char], p: usize) -> (r: bool)
    requires
        p <= s@.len(),
    ensures
        r == abbreviation(s@, p as int),
{
    let mut w = p;
    proof {
        lemma_word_start(s@, p as int);
    }
    while w > 0 && (is_alphabetic(s[w - 1]) || s[w - 1] == '.')
        invariant
            w <= p <= s@.len(),
            word_start(s@, w as int) == word_start(s@, p as int),
        decreases w,
    {
        w = w - 1;
    }
    let mut lower: Vec<char> = Vec::new();
    let mut i = w;
    while i < p
        invariant
            w <= i <= p <= s@.len(),
            lower@ == s@.subrange(w as int, i as int).map_values(|c: char| ascii_lower(c)),
        decreases p - i,
    {
        let c = to_ascii_lower(s[i]);
        lower.push(c);
        assert(s@.subrange(w as int, i + 1).map_values(|c: char| ascii_lower(c)) =~= s@.subrange(
            w as int,
            i as int,
        ).map_values(|c: char| ascii_lower(c)).push(ascii_lower(s@[i as int])));
        i = i + 1;
    }
    let l = lower.as_slice();
    text_is(l, "cf") || text_is(l, "e.g") || text_is(l, "i.e") || text_is(l, "etc") || text_is(
        l,
        "mr",
    ) || text_is(l, "mrs") || text_is(l, "ms") || text_is(l, "dr") || text_is(l, "prof")
        || text_is(l, "vs")
}

pub open spec fn brace_step(s: Seq<char>, o: int, in_math: bool, depth: nat) -> nat {
    if !in_math && !escaped(s, o) {
        if s[o] == '{' {
            depth + 1
        } else if s[o] == '}' {
            if depth > 0 {
                (depth - 1) as nat
            } else {
                0
            }
        } else {
            depth
        }
    } else {
        depth
    }
}

pub open spec fn is_command_math_delimiter(c: char) -> bool {
    c == '(' || c == '[' || c == ')' || c == ']'
}

/// Collapsing from `o` on, outside math and braces, in a line that holds no verbatim command.
pub open spec fn collapse_from(s: Seq<char>, o: int, in_math: bool, depth: nat) -> Seq<char>
    decreases s.len() - o,
{
    if o < 0 || o >= s.len() {
        seq![]
    } else if s[o] == '\\' && !escaped(s, o) && o + 1 < s.len() && is_command_math_delimiter(
        s[o + 1],
    ) {
        s.subrange(o, o + 2) + collapse_from(s, o + 2, s[o + 1] == '(' || s[o + 1] == '[', depth)
    } else if s[o] == '$' && !escaped(s, o) {
        let l: int = if o + 1 < s.len() && s[o + 1] == '$' {
            2
        } else {
            1
        };
        s.subrange(o, o + l) + collapse_from(s, o + l, !in_math, depth)
    } else if s[o] == '%' && !escaped(s, o) && !in_math {
        s.subrange(o, s.len() as int)
    } else {
        let d = brace_step(s, o, in_math, depth);
        if !in_math && d == 0 && in_pad(s[o], Pad::Blank) {
            proof {
                lemma_skip_pad(s, o, Pad::Blank);
            }
            seq![' '] + collapse_from(s, skip_pad(s, o, Pad::Blank), in_math, d)
        } else {
            seq![s[o]] + collapse_from(s, o + 1, in_math, d)
        }
    }
}

pub open spec fn has_verbatim_command(s: Seq<char>) -> bool {
    contains_lit(s, "\\verb"@) || contains_lit(s, "\\lstinline"@) || contains_lit(
        s,
        "\\mintinline"@,
    )
}

/// A prose line with runs of spaces and tabs outside math, groups and comments
/// replaced by one space; lines with verbatim commands stay as they are.
pub open spec fn collapse_whitespace(s: Seq<char>) -> Seq<char> {
    if has_verbatim_command(s) {
        s
    } else {
        let lead = skip_pad(s, 0, Pad::Blank);
        s.subrange(0, lead) + collapse_from(s, lead, false, 0)
    }
}

pub fn collapse_prose_whitespace(s: &[char]) -> (r: Vec<char>)
    ensures
        r@ == collapse_whitespace(s@),
{
    if contains_str(s, "\\verb") || contains_str(s, "\\lstinline") || contains_str(s, "\\mintinline") {
        return vstd::slice::slice_to_vec(s);
    }
    let lead = skip_pad_exec(s, 0, Pad::Blank);
    let mut out: Vec<char> = Vec::new();
    push_range(&mut out, s, 0, lead);
    let mut o = lead;
    let mut in_math = false;
    let mut depth: usize = 0;
    while o < s.len()
        invariant
            o <= s@.len(),
            lead <= s@.len(),
            depth <= o,
            out@ + collapse_from(s@, o as int, in_math, depth as nat) == s@.subrange(0, lead as int)
                + collapse_from(s@, lead as int, false, 0),
        decreases s@.len() - o,
    {
        let ghost before = collapse_from(s@, o as int, in_math, depth as nat);
        let ghost out0 = out@;
        if s[o] == '\\' && !is_escaped(s, o) && o + 1 < s.len() && (s[o + 1] == '(' || s[o + 1]
            == '[' || s[o + 1] == ')' || s[o + 1] == ']') {
            in_math = s[o + 1] == '(' || s[o + 1] == '[';
            push_range(&mut out, s, o, o + 2);
            assert(before == s@.subrange(o as int, o + 2) + collapse_from(s@, o + 2, in_math, depth as nat));
            o = o + 2;
        } else if s[o] == '$' && !is_escaped(s, o) {
            let l: usize = if o + 1 < s.len() && s[o + 1] == '$' {
                2
            } else {
                1
            };
            in_math = !in_math;
            push_range(&mut out, s, o, o + l);
            assert(before == s@.subrange(o as int, o + l) + collapse_from(s@, o + l, in_math, depth as nat));
            o = o + l;
        } else if s[o] == '%' && !is_escaped(s, o) && !in_math {
            push_range(&mut out, s, o, s.len());
            assert(before == s@.subrange(o as int, s@.len() as int));
            o = s.len();
            assert(collapse_from(s@, o as int, in_math, depth as nat) =~= Seq::<char>::empty());
        } else {
            let d0 = depth;
            if !in_math && !is_escaped(s, o) {
                if s[o] == '{' {
                    depth = depth + 1;
                } else if s[o] == '}' {
                    if depth > 0 {
                        depth = depth - 1;
                    }
                }
            }
            assert(depth as nat == brace_step(s@, o as int, in_math, d0 as nat));
            if !in_math && depth == 0 && (s[o] == ' ' || s[o] == '\t') {
                let next = skip_pad_exec(s, o, Pad::Blank);
                proof {
                    lemma_skip_pad(s@, o as int, Pad::Blank);
                }
                out.push(' ');
                assert(before == seq![' '] + collapse_from(s@, next as int, in_math, depth as nat));
                o = next;
            } else {
                out.push(s[o]);
                assert(before == seq![s@[o as int]] + collapse_from(s@, o + 1, in_math, depth as nat));
                o = o + 1;
            }
        }
        assert(out@ + collapse_from(s@, o as int, in_math, depth as nat) =~= out0 + before);
    }
    assert(collapse_from(s@, o as int, in_math, depth as nat) =~= Seq::<char>::empty());
    assert(out@ =~= out@ + collapse_from(s@, o as int, in_math, depth as nat));
    out
}

/// The collapse from `o` starts with `s[o]`, or with one space where `s[o]` is
/// a space or tab.
proof fn lemma_collapse_first(s: Seq<char>, o: int, in_math: bool, depth: nat)
    requires
        0 <= o < s.len(),
    ensures
        collapse_from(s, o, in_math, depth).len() > 0,
        collapse_from(s, o, in_math, depth)[0] == s[o] || (in_pad(s[o], Pad::Blank)
            && collapse_from(s, o, in_math, depth)[0] == ' '),
{
}

proof fn lemma_skip_pad_at(t: Seq<char>, i: int, j: int)
    requires
        0 <= i <= j <= t.len(),
        forall|k: int| i <= k < j ==> in_pad(#[trigger] t[k], Pad::Blank),
        j == t.len() || !in_pad(t[j], Pad::Blank),
    ensures
        skip_pad(t, i, Pad::Blank) == j,
    decreases j - i,
{
    if i < j {
        lemma_skip_pad_at(t, i + 1, j);
    }
}

proof fn lemma_tail_after(t: Seq<char>, p: int, x: Seq<char>, rest: Seq<char>)
    requires
        0 <= p <= t.len(),
        t.subrange(p, t.len() as int) == x + rest,
    ensures
        t.subrange(p + x.len(), t.len() as int) == rest,
        t.subrange(p, p + x.len()) == x,
{
    assert(t.subrange(p, t.len() as int).len() == x.len() + rest.len());
    assert forall|k: int| 0 <= k < rest.len() implies #[trigger] t.subrange(p + x.len(), t.len() as int)[k] == rest[k] by {
        assert((x + rest)[x.len() + k] == rest[k]);
        assert(t.subrange(p, t.len() as int)[x.len() + k] == t[p + x.len() + k]);
    }
    assert forall|k: int| 0 <= k < x.len() implies #[trigger] t.subrange(p, p + x.len())[k] == x[k] by {
        assert((x + rest)[k] == x[k]);
        assert(t.subrange(p, t.len() as int)[k] == t[p + k]);
    }
    assert(t.subrange(p + x.len(), t.len() as int) =~= rest);
    assert(t.subrange(p, p + x.len()) =~= x);
}

/// Collapsing again, from the place in the output that corresponds to `o`,
/// gives the same text: `t[p..]` is the collapse of `s` from `o` and the same
/// number of backslashes stands before `p` in `t` as before `o` in `s`.
proof fn lemma_collapse_again(s: Seq<char>, t: Seq<char>, o: int, p: int, in_math: bool, depth: nat)
    requires
        0 <= o <= s.len(),
        0 <= p <= t.len(),
        t.subrange(p, t.len() as int) == collapse_from(s, o, in_math, depth),
        backslash_run(t, p) == backslash_run(s, o),
    ensures
        collapse_from(t, p, in_math, depth) == collapse_from(s, o, in_math, depth),
    decreases s.len() - o,
{
    let c = collapse_from(s, o, in_math, depth);
    if o >= s.len() {
        assert(c.len() == 0);
        return;
    }
    lemma_collapse_first(s, o, in_math, depth);
    assert(t[p] == c[0]);
    if s[o] == '\\' && !escaped(s, o) && o + 1 < s.len() && is_command_math_delimiter(s[o + 1]) {
        let m2 = s[o + 1] == '(' || s[o + 1] == '[';
        let rest = collapse_from(s, o + 2, m2, depth);
        assert(c == s.subrange(o, o + 2) + rest);
        assert(t[p] == s[o]);
        assert(t[p + 1] == c[1]);
        lemma_tail_after(t, p, s.subrange(o, o + 2), rest);
        assert(backslash_run(t, p + 2) == 0);
        assert(backslash_run(s, o + 2) == 0);
        lemma_collapse_again(s, t, o + 2, p + 2, m2, depth);
        assert(t.subrange(p, p + 2) =~= s.subrange(o, o + 2));
    } else if s[o] == '$' && !escaped(s, o) {
        let l: int = if o + 1 < s.len() && s[o + 1] == '$' {
            2
        } else {
            1
        };
        let rest = collapse_from(s, o + l, !in_math, depth);
        assert(c == s.subrange(o, o + l) + rest);
        lemma_tail_after(t, p, s.subrange(o, o + l), rest);
        if l == 1 {
            if o + 1 < s.len() {
                lemma_collapse_first(s, o + 1, !in_math, depth);
                assert(t[p + 1] == t.subrange(p + 1, t.len() as int)[0]);
                assert(t[p + 1] == rest[0]);
            } else {
                assert(p + 1 == t.len());
            }
        } else {
            assert(t[p + 1] == c[1]);
        }
        lemma_collapse_again(s, t, o + l, p + l, !in_math, depth);
        assert(t.subrange(p, p + l) =~= s.subrange(o, o + l));
    } else if s[o] == '%' && !escaped(s, o) && !in_math {
        assert(c == s.subrange(o, s.len() as int));
        assert(t.subrange(p, t.len() as int) =~= c);
    } else {
        let d = brace_step(s, o, in_math, depth);
        if !in_math && d == 0 && in_pad(s[o], Pad::Blank) {
            lemma_skip_pad(s, o, Pad::Blank);
            let o2 = skip_pad(s, o, Pad::Blank);
            let rest = collapse_from(s, o2, in_math, d);
            assert(c == seq![' '] + rest);
            assert(t[p] == ' ');
            lemma_tail_after(t, p, seq![' '], rest);
            if o2 < s.len() {
                lemma_collapse_first(s, o2, in_math, d);
                assert(t[p + 1] == t.subrange(p + 1, t.len() as int)[0]);
                assert(t[p + 1] == rest[0]);
                lemma_skip_pad_at(t, p, p + 1);
            } else {
                assert(p + 1 == t.len());
                lemma_skip_pad_at(t, p, p + 1);
            }
            assert(t.subrange(p + 1, t.len() as int) =~= rest);
            assert(backslash_run(t, p + 1) == 0);
            assert(backslash_run(s, o2) == 0);
            lemma_collapse_again(s, t, o2, p + 1, in_math, d);
        } else {
            let rest = collapse_from(s, o + 1, in_math, d);
            assert(c == seq![s[o]] + rest);
            assert(t[p] == s[o]);
            lemma_tail_after(t, p, seq![s[o]], rest);
            if o + 1 < s.len() {
                lemma_collapse_first(s, o + 1, in_math, d);
                assert(t[p + 1] == t.subrange(p + 1, t.len() as int)[0]);
                assert(t[p + 1] == rest[0]);
            } else {
                assert(p + 1 == t.len());
            }
            assert(t.subrange(p + 1, t.len() as int) =~= rest);
            lemma_collapse_again(s, t, o + 1, p + 1, in_math, d);
        }
    }
}

/// Collapsing a prose line keeps its indentation as it is.
pub proof fn collapse_keeps_leading_blanks(s: Seq<char>)
    ensures
        skip_pad(s, 0, Pad::Blank) <= collapse_whitespace(s).len(),
        collapse_whitespace(s).subrange(0, skip_pad(s, 0, Pad::Blank)) == s.subrange(0, skip_pad(s, 0, Pad::Blank)),
{
    lemma_skip_pad(s, 0, Pad::Blank);
    let lead = skip_pad(s, 0, Pad::Blank);
    if !has_verbatim_command(s) {
        let t = collapse_whitespace(s);
        assert(t.subrange(0, lead) =~= s.subrange(0, lead));
    }
}

/// Collapsing is idempotent: a collapsed line collapses to itself.
pub proof fn collapse_is_idempotent(s: Seq<char>)
    ensures
        collapse_whitespace(collapse_whitespace(s)) == collapse_whitespace(s),
{
    let t = collapse_whitespace(s);
    if has_verbatim_command(s) || has_verbatim_command(t) {
        return;
    }
    lemma_skip_pad(s, 0, Pad::Blank);
    let lead = skip_pad(s, 0, Pad::Blank);
    let c = collapse_from(s, lead, false, 0);
    assert(t == s.subrange(0, lead) + c);
    if lead < s.len() {
        lemma_collapse_first(s, lead, false, 0);
        assert(t[lead] == c[0]);
    }
    assert forall|k: int| 0 <= k < lead implies in_pad(#[trigger] t[k], Pad::Blank) by {
        assert(t[k] == s[k]);
    }
    lemma_skip_pad_at(t, 0, lead);
    assert(t.subrange(lead, t.len() as int) =~= c);
    if lead > 0 {
        assert(t[lead - 1] == s[lead - 1]);
    }
    lemma_collapse_again(s, t, lead, lead, false, 0);
    assert(t.subrange(0, lead) =~= s.subrange(0, lead));
}

/// Closing quotes, parentheses and brackets after a period.
pub open spec fn closer_stop(s: Seq<char>, i: int) -> int
    decreases s.len() - i,
{
    if 0 <= i < s.len() && (s[i] == '"' || s[i] == '\'' || s[i] == ')' || s[i] == ']') {
        closer_stop(s, i + 1)
    } else {
        i
    }
}

pub proof fn lemma_closer_stop(s: Seq<char>, i: int)
    requires
        0 <= i <= s.len(),
    ensures
        i <= closer_stop(s, i) <= s.len(),
    decreases s.len() - i,
{
    if i < s.len() && (s[i] == '"' || s[i] == '\'' || s[i] == ')' || s[i] == ']') {
        lemma_closer_stop(s, i + 1);
    }
}

/// A sentence may start at `n`: an uppercase letter, `$`, or `\(`.
pub open spec fn sentence_start(s: Seq<char>, n: int) -> bool {
    uppercase(s[n]) || s[n] == '$' || has_at(s, n, "\\("@)
}

/// Sentence boundaries from `o` on: the start of each sentence that follows a
/// period outside math, groups and comments, after closing punctuation and spaces.
pub open spec fn bounds_from(s: Seq<char>, o: int, in_math: bool, depth: nat) -> Seq<int>
    decreases s.len() - o,
{
    if o < 0 || o >= s.len() {
        seq![]
    } else if s[o] == '%' && !escaped(s, o) && !in_math {
        seq![]
    } else if s[o] == '\\' && !escaped(s, o) && o + 1 < s.len() && (s[o + 1] == '(' || s[o + 1]
        == '[') {
        bounds_from(s, o + 2, true, depth)
    } else if s[o] == '\\' && !escaped(s, o) && o + 1 < s.len() && (s[o + 1] == ')' || s[o + 1]
        == ']') {
        bounds_from(s, o + 2, false, depth)
    } else if s[o] == '$' && !escaped(s, o) {
        let l: int = if o + 1 < s.len() && s[o + 1] == '$' {
            2
        } else {
            1
        };
        bounds_from(s, o + l, !in_math, depth)
    } else {
        let d = brace_step(s, o, in_math, depth);
        if s[o] != '.' || in_math || d > 0 || abbreviation(s, o) {
            bounds_from(s, o + 1, in_math, d)
        } else {
            let q = closer_stop(s, o + 1);
            let n = skip_pad(s, q, Pad::Blank);
            proof {
                lemma_closer_stop(s, o + 1);
                lemma_skip_pad(s, q, Pad::Blank);
            }
            if n > q && n < s.len() && sentence_start(s, n) {
                seq![n] + bounds_from(s, n, in_math, d)
            } else {
                bounds_from(s, o + 1, in_math, d)
            }
        }
    }
}

pub open spec fn sentence_bounds(s: Seq<char>) -> Seq<int> {
    bounds_from(s, 0, false, 0)
}

/// Boundaries from `o` lie after `o`, inside the line, in increasing order, each
/// at a character that is neither a space nor a tab.
pub proof fn lemma_bounds_from(s: Seq<char>, o: int, in_math: bool, depth: nat)
    requires
        0 <= o,
    ensures
        forall|k: int|
            0 <= k < bounds_from(s, o, in_math, depth).len() ==> {
                let b = #[trigger] bounds_from(s, o, in_math, depth)[k];
                &&& o < b < s.len()
                &&& !in_pad(s[b], Pad::Blank)
            },
        forall|k: int|
            0 <= k < bounds_from(s, o, in_math, depth).len() - 1 ==> #[trigger] bounds_from(
                s,
                o,
                in_math,
                depth,
            )[k] < bounds_from(s, o, in_math, depth)[k + 1],
    decreases s.len() - o,
{
    if o >= s.len() {
        return;
    }
    if s[o] == '%' && !escaped(s, o) && !in_math {
    } else if s[o] == '\\' && !escaped(s, o) && o + 1 < s.len() && (s[o + 1] == '(' || s[o + 1]
        == '[') {
        lemma_bounds_from(s, o + 2, true, depth);
        assert(bounds_from(s, o, in_math, depth) == bounds_from(s, o + 2, true, depth));
    } else if s[o] == '\\' && !escaped(s, o) && o + 1 < s.len() && (s[o + 1] == ')' || s[o + 1]
        == ']') {
        lemma_bounds_from(s, o + 2, false, depth);
        assert(bounds_from(s, o, in_math, depth) == bounds_from(s, o + 2, false, depth));
    } else if s[o] == '$' && !escaped(s, o) {
        let l: int = if o + 1 < s.len() && s[o + 1] == '$' {
            2
        } else {
            1
        };
        lemma_bounds_from(s, o + l, !in_math, depth);
        assert(bounds_from(s, o, in_math, depth) == bounds_from(s, o + l, !in_math, depth));
    } else {
        let d = brace_step(s, o, in_math, depth);
        if s[o] != '.' || in_math || d > 0 || abbreviation(s, o) {
            lemma_bounds_from(s, o + 1, in_math, d);
            assert(bounds_from(s, o, in_math, depth) == bounds_from(s, o + 1, in_math, d));
        } else {
            lemma_closer_stop(s, o + 1);
            let q = closer_stop(s, o + 1);
            lemma_skip_pad(s, q, Pad::Blank);
            let n = skip_pad(s, q, Pad::Blank);
            if n > q && n < s.len() && sentence_start(s, n) {
                lemma_bounds_from(s, n, in_math, d);
                let r = bounds_from(s, o, in_math, depth);
                let rest = bounds_from(s, n, in_math, d);
                assert(r == seq![n] + rest);
                assert forall|k: int| 0 <= k < r.len() - 1 implies #[trigger] r[k] < r[k + 1] by {
                    if k == 0 {
                        assert(r[1] == rest[0]);
                    } else {
                        assert(r[k] == rest[k - 1]);
                        assert(r[k + 1] == rest[k]);
                    }
                }
                assert forall|k: int| 0 <= k < r.len() implies {
                    let b = #[trigger] r[k];
                    &&& o < b < s.len()
                    &&& !in_pad(s[b], Pad::Blank)
                } by {
                    if k > 0 {
                        assert(r[k] == rest[k - 1]);
                    }
                }
            } else {
                lemma_bounds_from(s, o + 1, in_math, d);
                assert(bounds_from(s, o, in_math, depth) == bounds_from(s, o + 1, in_math, d));
            }
        }
    }
}

/// `b` opens a sentence: it holds an uppercase letter, `$` or `\(`, and it
/// comes right after a period that ends no known abbreviation, that period's
/// closing quotes and brackets, and at least one space or tab.
pub open spec fn opens_sentence(s: Seq<char>, b: int) -> bool {
    &&& 0 < b < s.len()
    &&& sentence_start(s, b)
    &&& in_pad(s[b - 1], Pad::Blank)
    &&& exists|p: int|
        0 <= p < b && s[p] == '.' && !abbreviation(s, p) && closer_stop(s, p + 1) < b
            && #[trigger] skip_pad(s, closer_stop(s, p + 1), Pad::Blank) == b
}

proof fn lemma_bounds_open(s: Seq<char>, o: int, in_math: bool, depth: nat)
    requires
        0 <= o,
    ensures
        forall|k: int| 0 <= k < bounds_from(s, o, in_math, depth).len() ==> opens_sentence(s, #[trigger] bounds_from(s, o, in_math, depth)[k]),
    decreases s.len() - o,
{
    if o >= s.len() {
        return;
    }
    if s[o] == '%' && !escaped(s, o) && !in_math {
    } else if s[o] == '\\' && !escaped(s, o) && o + 1 < s.len() && (s[o + 1] == '(' || s[o + 1]
        == '[') {
        lemma_bounds_open(s, o + 2, true, depth);
        assert(bounds_from(s, o, in_math, depth) == bounds_from(s, o + 2, true, depth));
    } else if s[o] == '\\' && !escaped(s, o) && o + 1 < s.len() && (s[o + 1] == ')' || s[o + 1]
        == ']') {
        lemma_bounds_open(s, o + 2, false, depth);
        assert(bounds_from(s, o, in_math, depth) == bounds_from(s, o + 2, false, depth));
    } else if s[o] == '$' && !escaped(s, o) {
        let l: int = if o + 1 < s.len() && s[o + 1] == '$' {
            2
        } else {
            1
        };
        lemma_bounds_open(s, o + l, !in_math, depth);
        assert(bounds_from(s, o, in_math, depth) == bounds_from(s, o + l, !in_math, depth));
    } else {
        let d = brace_step(s, o, in_math, depth);
        if s[o] != '.' || in_math || d > 0 || abbreviation(s, o) {
            lemma_bounds_open(s, o + 1, in_math, d);
            assert(bounds_from(s, o, in_math, depth) == bounds_from(s, o + 1, in_math, d));
        } else {
            lemma_closer_stop(s, o + 1);
            let q = closer_stop(s, o + 1);
            lemma_skip_pad(s, q, Pad::Blank);
            let n = skip_pad(s, q, Pad::Blank);
            if n > q && n < s.len() && sentence_start(s, n) {
                lemma_bounds_open(s, n, in_math, d);
                let r = bounds_from(s, o, in_math, depth);
                let rest = bounds_from(s, n, in_math, d);
                assert(r == seq![n] + rest);
                assert(in_pad(s[n - 1], Pad::Blank));
                assert(opens_sentence(s, n));
                assert forall|k: int| 0 <= k < r.len() implies opens_sentence(s, #[trigger] r[k]) by {
                    if k > 0 {
                        assert(r[k] == rest[k - 1]);
                    }
                }
            } else {
                lemma_bounds_open(s, o + 1, in_math, d);
                assert(bounds_from(s, o, in_math, depth) == bounds_from(s, o + 1, in_math, d));
            }
        }
    }
}

/// Every sentence boundary of a line opens a sentence after a period: see
/// `opens_sentence`.
pub proof fn sentence_boundaries_open_sentences(s: Seq<char>)
    ensures
        forall|k: int| 0 <= k < sentence_bounds(s).len() ==> opens_sentence(s, #[trigger] sentence_bounds(s)[k]),
{
    lemma_bounds_open(s, 0, false, 0);
}

/// `w` spells `name`, a lower-case word, with any of its letters in upper case.
pub open spec fn equals_ignoring_ascii_case(w: Seq<char>, name: Seq<char>) -> bool {
    &&& w.len() == name.len()
    &&& forall|i: int|
        0 <= i < w.len() ==> #[trigger] w[i] == name[i] || ('a' <= name[i] && name[i] <= 'z' && (w[i] as int) + 32
            == name[i] as int)
}

/// The words that end in a known abbreviation's period.
pub open spec fn listed_abbreviation(name: Seq<char>) -> bool {
    ||| name == "cf"@
    ||| name == "e.g"@
    ||| name == "i.e"@
    ||| name == "etc"@
    ||| name == "mr"@
    ||| name == "mrs"@
    ||| name == "ms"@
    ||| name == "dr"@
    ||| name == "prof"@
    ||| name == "vs"@
}

/// A period whose word (the letters and periods just before it) spells one of
/// cf, e.g, i.e, etc, mr, mrs, ms, dr, prof or vs, in any mix of ASCII upper
/// and lower case, ends an abbreviation: `Dr.`, `DR.`, `E.g.` and `dr.` alike.
pub proof fn abbreviations_ignore_case(s: Seq<char>, p: int, name: Seq<char>)
    requires
        0 <= p <= s.len(),
        listed_abbreviation(name),
        equals_ignoring_ascii_case(s.subrange(word_start(s, p), p), name),
    ensures
        abbreviation(s, p),
{
    reveal_strlit("cf");
    reveal_strlit("e.g");
    reveal_strlit("i.e");
    reveal_strlit("etc");
    reveal_strlit("mr");
    reveal_strlit("mrs");
    reveal_strlit("ms");
    reveal_strlit("dr");
    reveal_strlit("prof");
    reveal_strlit("vs");
    lemma_word_start(s, p);
    let w = s.subrange(word_start(s, p), p);
    let low = w.map_values(|c: char| ascii_lower(c));
    assert forall|i: int| 0 <= i < name.len() implies !('A' <= #[trigger] name[i] && name[i] <= 'Z') by {}
    assert forall|i: int| 0 <= i < w.len() implies #[trigger] low[i] == name[i] by {
        if w[i] != name[i] {
            assert('A' <= w[i] && w[i] <= 'Z');
            assert(((w[i] as u32) + 32) as char == name[i]);
        }
    }
    assert(low =~= name);
}

/// Only the listed words are abbreviations: when the period at `p` ends an
/// abbreviation, its word spells one of the listed ones, in some mix of ASCII
/// upper and lower case.
pub proof fn abbreviations_are_listed(s: Seq<char>, p: int)
    requires
        0 <= p <= s.len(),
        abbreviation(s, p),
    ensures
        exists|name: Seq<char>| listed_abbreviation(name) && #[trigger] equals_ignoring_ascii_case(s.subrange(word_start(s, p), p), name),
{
    reveal_strlit("cf");
    reveal_strlit("e.g");
    reveal_strlit("i.e");
    reveal_strlit("etc");
    reveal_strlit("mr");
    reveal_strlit("mrs");
    reveal_strlit("ms");
    reveal_strlit("dr");
    reveal_strlit("prof");
    reveal_strlit("vs");
    lemma_word_start(s, p);
    let w = s.subrange(word_start(s, p), p);
    let low = w.map_values(|c: char| ascii_lower(c));
    assert(listed_abbreviation(low));
    assert forall|i: int| 0 <= i < w.len() implies #[trigger] w[i] == low[i] || ('a' <= low[i] && low[i] <= 'z' && (w[i] as int) + 32
        == low[i] as int) by {
        if 'A' <= w[i] && w[i] <= 'Z' {
            assert(low[i] == ((w[i] as u32) + 32) as char);
        }
    }
    assert(equals_ignoring_ascii_case(w, low));
}

/// The word before a period is the whole run of letters and periods that ends
/// there: every character of it is a letter or a period, and the character
/// before it, if any, is neither.
pub proof fn words_are_maximal_runs(s: Seq<char>, p: int)
    requires
        0 <= p <= s.len(),
    ensures
        0 <= word_start(s, p) <= p,
        forall|k: int| word_start(s, p) <= k < p ==> alphabetic(#[trigger] s[k]) || s[k] == '.',
        word_start(s, p) > 0 ==> !(alphabetic(s[word_start(s, p) - 1]) || s[word_start(s, p) - 1] == '.'),
    decreases p,
{
    lemma_word_start(s, p);
    if 0 < p && (alphabetic(s[p - 1]) || s[p - 1] == '.') {
        words_are_maximal_runs(s, p - 1);
    }
}

/// A sentence may open at `n` exactly when `n` holds an uppercase letter or
/// `$`, or begins `\(`.
pub proof fn sentences_open_on_capitals_and_math(s: Seq<char>, n: int)
    requires
        0 <= n < s.len(),
    ensures
        sentence_start(s, n) <==> (uppercase(s[n]) || s[n] == '$' || (n + 1 < s.len() && s[n] == '\\' && s[n + 1] == '(')),
{
    reveal_strlit("\\(");
    if n + 1 < s.len() && s[n] == '\\' && s[n + 1] == '(' {
        assert(s.subrange(n, n + 2) =~= "\\("@);
    }
    if has_at(s, n, "\\("@) {
        assert(s.subrange(n, n + 2)[0] == s[n]);
        assert(s.subrange(n, n + 2)[1] == s[n + 1]);
    }
}

proof fn lemma_closer_stop_before(s: Seq<char>, i: int, j: int)
    requires
        0 <= i <= j < s.len(),
        !(s[j] == '"' || s[j] == '\'' || s[j] == ')' || s[j] == ']'),
    ensures
        closer_stop(s, i) <= j,
    decreases j - i,
{
    if i < j && (s[i] == '"' || s[i] == '\'' || s[i] == ')' || s[i] == ']') {
        lemma_closer_stop_before(s, i + 1, j);
    }
}

proof fn lemma_skip_pad_before(s: Seq<char>, i: int, j: int)
    requires
        0 <= i <= j < s.len(),
        !in_pad(s[j], Pad::Blank),
    ensures
        skip_pad(s, i, Pad::Blank) <= j,
    decreases j - i,
{
    if i < j && in_pad(s[i], Pad::Blank) {
        lemma_skip_pad_before(s, i + 1, j);
    }
}

/// Whether the period at `p` leads, past closing punctuation and at least one
/// space or tab, to `b`.
pub open spec fn period_leads_to(s: Seq<char>, p: int, b: int) -> bool {
    &&& 0 <= p < s.len()
    &&& s[p] == '.'
    &&& closer_stop(s, p + 1) < b
    &&& skip_pad(s, closer_stop(s, p + 1), Pad::Blank) == b
}

proof fn lemma_one_period(s: Seq<char>, p1: int, p2: int, b: int)
    requires
        period_leads_to(s, p1, b),
        period_leads_to(s, p2, b),
    ensures
        p1 == p2,
{
    if p1 != p2 {
        let (x, y) = if p1 < p2 {
            (p1, p2)
        } else {
            (p2, p1)
        };
        lemma_closer_stop(s, y + 1);
        lemma_closer_stop_before(s, x + 1, y);
        lemma_closer_stop(s, x + 1);
        lemma_skip_pad_before(s, closer_stop(s, x + 1), y);
        assert(false);
    }
}

/// No sentence boundary comes after a known abbreviation: a period whose word
/// spells one of the listed abbreviations, in any ASCII case, never leads to a
/// boundary, so `We thank Dr. Smith.` stays on one line.
pub proof fn no_boundary_after_abbreviation(s: Seq<char>, p: int, name: Seq<char>, k: int)
    requires
        0 <= p < s.len(),
        s[p] == '.',
        listed_abbreviation(name),
        equals_ignoring_ascii_case(s.subrange(word_start(s, p), p), name),
        0 <= k < sentence_bounds(s).len(),
    ensures
        !period_leads_to(s, p, sentence_bounds(s)[k]),
{
    abbreviations_ignore_case(s, p, name);
    let b = sentence_bounds(s)[k];
    sentence_boundaries_open_sentences(s);
    assert(opens_sentence(s, b));
    let p0 = choose|p0: int|
        0 <= p0 < b && s[p0] == '.' && !abbreviation(s, p0) && closer_stop(s, p0 + 1) < b
            && #[trigger] skip_pad(s, closer_stop(s, p0 + 1), Pad::Blank) == b;
    if period_leads_to(s, p, b) {
        assert(period_leads_to(s, p0, b));
        lemma_one_period(s, p, p0, b);
    }
}

pub fn sentence_boundaries(s: &[char]) -> (r: Vec<usize>)
    ensures
        r@.map_values(|b: usize| b as int) == sentence_bounds(s@),
        forall|k: int|
            0 <= k < r@.len() ==> {
                let b = #[trigger] r@[k];
                &&& 0 < b < s@.len()
                &&& !in_pad(s@[b as int], Pad::Blank)
            },
        forall|k: int| 0 <= k < r@.len() - 1 ==> #[trigger] r@[k] < r@[k + 1],
{
    let mut out: Vec<usize> = Vec::new();
    let mut o: usize = 0;
    let mut in_math = false;
    let mut depth: usize = 0;
    proof {
        lemma_bounds_from(s@, 0, false, 0);
    }
    while o < s.len()
        invariant
            o <= s@.len(),
            depth <= o,
            out@.map_values(|b: usize| b as int) + bounds_from(s@, o as int, in_math, depth as nat)
                == sentence_bounds(s@),
        decreases s@.len() - o,
    {
        let ghost before = bounds_from(s@, o as int, in_math, depth as nat);
        let ghost prefix = out@.map_values(|b: usize| b as int);
        if s[o] == '%' && !is_escaped(s, o) && !in_math {
            o = s.len();
            continue;
        }
        if s[o] == '\\' && !is_escaped(s, o) && o + 1 < s.len() && (s[o + 1] == '(' || s[o + 1]
            == '[') {
            in_math = true;
            o = o + 2;
            continue;
        }
        if s[o] == '\\' && !is_escaped(s, o) && o + 1 < s.len() && (s[o + 1] == ')' || s[o + 1]
            == ']') {
            in_math = false;
            o = o + 2;
            continue;
        }
        if s[o] == '$' && !is_escaped(s, o) {
            in_math = !in_math;
            o = o + if o + 1 < s.len() && s[o + 1] == '$' {
                2
            } else {
                1
            };
            continue;
        }
        if !in_math && !is_escaped(s, o) {
            if s[o] == '{' {
                depth = depth + 1;
            } else if s[o] == '}' {
                if depth > 0 {
                    depth = depth - 1;
                }
            }
        }
        if s[o] != '.' || in_math || depth > 0 || is_abbreviation(s, o) {
            o = o + 1;
            continue;
        }
        proof {
            lemma_closer_stop(s@, o + 1);
        }
        let mut q = o + 1;
        while q < s.len() && (s[q] == '"' || s[q] == '\'' || s[q] == ')' || s[q] == ']')
            invariant
                o + 1 <= q <= s@.len(),
                closer_stop(s@, q as int) == closer_stop(s@, o + 1),
            decreases s@.len() - q,
        {
            q = q + 1;
        }
        let n = skip_pad_exec(s, q, Pad::Blank);
        let starts = n < s.len() && (is_uppercase(s[n]) || s[n] == '$' || matches_at(s, n, "\\("));
        if n > q && n < s.len() && starts {
            out.push(n);
            proof {
                assert(out@.map_values(|b: usize| b as int) =~= prefix.push(n as int));
                assert(before == seq![n as int] + bounds_from(s@, n as int, in_math, depth as nat));
                assert(out@.map_values(|b: usize| b as int) + bounds_from(
                    s@,
                    n as int,
                    in_math,
                    depth as nat,
                ) =~= prefix + before);
            }
            o = n;
        } else {
            o = o + 1;
        }
    }
    proof {
        assert(bounds_from(s@, o as int, in_math, depth as nat) =~= Seq::<int>::empty());
        let m = out@.map_values(|b: usize| b as int);
        assert(m =~= sentence_bounds(s@));
        lemma_bounds_from(s@, 0, false, 0);
        assert forall|k: int| 0 <= k < out@.len() implies {
            let b = #[trigger] out@[k];
            &&& 0 < b < s@.len()
            &&& !in_pad(s@[b as int], Pad::Blank)
        } by {
            assert(m[k] == out@[k] as int);
        }
        assert forall|k: int| 0 <= k < out@.len() - 1 implies #[trigger] out@[k] < out@[k + 1] by {
            assert(m[k] == out@[k] as int);
            assert(m[k + 1] == out@[k + 1] as int);
        }
    }
    out
}

} // verus!
