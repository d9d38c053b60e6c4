//! Splitting text into lines, each with its content and its line ending.

use vstd::prelude::*;

use crate::names::{find_from, find_from_exec, lemma_find_from};

verus! {

/// A line `s[start..end]`: content `s[start..content_end]`, ending `s[content_end..end]`.
pub type Span = (usize, usize, usize);

/// The end of the line starting at `i`: just past its line feed, or the end of `s`.
pub open spec fn line_stop(s: Seq<char>, i: int) -> int {
    let nl = find_from(s, '\n', i);
    if nl < s.len() {
        nl + 1
    } else {
        s.len() as int
    }
}

/// Where the content of the line starting at `i` ends: before `\r\n` or `\n`.
pub open spec fn line_content_end(s: Seq<char>, i: int) -> int {
    let e = line_stop(s, i);
    if e > i && s[e - 1] == '\n' {
        if e - 1 > i && s[e - 2] == '\r' {
            e - 2
        } else {
            e - 1
        }
    } else {
        e
    }
}

pub open spec fn line_at(s: Seq<char>, i: int) -> (int, int, int) {
    (i, line_content_end(s, i), line_stop(s, i))
}

/// The lines of `s[i..]`.
pub open spec fn lines_from(s: Seq<char>, i: int) -> Seq<(int, int, int)>
    decreases s.len() - i,
{
    if 0 <= i < s.len() {
        proof {
            lemma_find_from(s, '\n', i);
        }
        seq![line_at(s, i)] + lines_from(s, line_stop(s, i))
    } else {
        seq![]
    }
}

/// The lines of `s`.
pub open spec fn lines(s: Seq<char>) -> Seq<(int, int, int)> {
    lines_from(s, 0)
}

pub open spec fn span_int(t: Span) -> (int, int, int) {
    (t.0 as int, t.1 as int, t.2 as int)
}

pub open spec fn content(s: Seq<char>, l: (int, int, int)) -> Seq<char> {
    s.subrange(l.0, l.1)
}

pub open spec fn ending(s: Seq<char>, l: (int, int, int)) -> Seq<char> {
    s.subrange(l.1, l.2)
}

/// The text of the lines `ls`, endings included, one after the other.
pub open spec fn join_lines(s: Seq<char>, ls: Seq<(int, int, int)>) -> Seq<char>
    decreases ls.len(),
{
    if ls.len() == 0 {
        seq![]
    } else {
        s.subrange(ls[0].0, ls[0].2) + join_lines(s, ls.drop_first())
    }
}

pub proof fn lemma_line_at(s: Seq<char>, i: int)
    requires
        0 <= i < s.len(),
    ensures
        i < line_stop(s, i) <= s.len(),
        i <= line_content_end(s, i) <= line_stop(s, i),
        forall|k: int| i <= k < line_content_end(s, i) ==> #[trigger] s[k] != '\n',
        line_stop(s, i) < s.len() ==> s[line_stop(s, i) - 1] == '\n',
        line_stop(s, i) - line_content_end(s, i) <= 2,
{
    lemma_find_from(s, '\n', i);
}

/// Every line lies inside `s`, the lines follow each other without gaps.
pub proof fn lemma_lines_from(s: Seq<char>, i: int)
    requires
        0 <= i <= s.len(),
    ensures
        forall|k: int|
            0 <= k < lines_from(s, i).len() ==> {
                let l = #[trigger] lines_from(s, i)[k];
                &&& l == line_at(s, l.0)
                &&& i <= l.0 < l.2 <= s.len()
                &&& l.0 <= l.1 <= l.2
            },
        forall|k: int|
            0 <= k < lines_from(s, i).len() - 1 ==> #[trigger] lines_from(s, i)[k].2
                == lines_from(s, i)[k + 1].0,
        lines_from(s, i).len() > 0 ==> lines_from(s, i)[0].0 == i,
        lines_from(s, i).len() > 0 ==> lines_from(s, i)[lines_from(s, i).len() - 1].2 == s.len(),
        lines_from(s, i).len() == 0 <==> i == s.len(),
        lines_from(s, i).len() <= s.len() - i,
    decreases s.len() - i,
{
    if i < s.len() {
        lemma_line_at(s, i);
        lemma_lines_from(s, line_stop(s, i));
        let rest = lines_from(s, line_stop(s, i));
        assert(lines_from(s, i) == seq![line_at(s, i)] + rest);
        assert forall|k: int| 0 <= k < lines_from(s, i).len() - 1 implies #[trigger] lines_from(
            s,
            i,
        )[k].2 == lines_from(s, i)[k + 1].0 by {
            if k > 0 {
                assert(lines_from(s, i)[k] == rest[k - 1]);
                assert(lines_from(s, i)[k + 1] == rest[k]);
            }
        }
    }
}

/// Row `a` ends where row `b` starts or before, for rows `a < b`.
pub proof fn lemma_lines_ordered(s: Seq<char>, a: int, b: int)
    requires
        0 <= a <= b < lines(s).len(),
    ensures
        lines(s)[a].0 <= lines(s)[b].0,
        lines(s)[a].2 <= lines(s)[b].2,
    decreases b - a,
{
    lemma_lines_from(s, 0);
    if a < b {
        lemma_lines_ordered(s, a + 1, b);
        assert(lines(s)[a].2 == lines(s)[a + 1].0);
    }
}

/// Splitting into lines loses nothing: the lines joined give back the text.
pub proof fn lemma_lines_join(s: Seq<char>, i: int)
    requires
        0 <= i <= s.len(),
    ensures
        join_lines(s, lines_from(s, i)) == s.subrange(i, s.len() as int),
    decreases s.len() - i,
{
    if i < s.len() {
        lemma_line_at(s, i);
        lemma_lines_join(s, line_stop(s, i));
        let ls = lines_from(s, i);
        assert(ls.drop_first() == lines_from(s, line_stop(s, i)));
        assert(s.subrange(i, s.len() as int) =~= s.subrange(i, line_stop(s, i)) + s.subrange(
            line_stop(s, i),
            s.len() as int,
        ));
    } else {
        assert(s.subrange(i, s.len() as int) =~= Seq::<char>::empty());
    }
}

/// Law: joining the lines of a text, endings included, gives back the text.
pub proof fn lines_join_to_source(s: Seq<char>)
    ensures
        join_lines(s, lines(s)) == s,
{
    lemma_lines_join(s, 0);
    assert(s.subrange(0, s.len() as int) =~= s);
}

/// Law: every line of a text ends in `\n`, in `\r\n`, or, for the last line
/// only, in nothing; no line's content holds a line feed.
pub proof fn lines_are_well_shaped(s: Seq<char>)
    ensures
        forall|k: int|
            0 <= k < lines(s).len() ==> {
                let l = #[trigger] lines(s)[k];
                &&& ending(s, l) == lf() || ending(s, l) == crlf() || ending(s, l) == Seq::<char>::empty()
                &&& ending(s, l) == Seq::<char>::empty() ==> k == lines(s).len() - 1
                &&& !content(s, l).contains('\n')
            },
{
    lemma_lines_from(s, 0);
    assert forall|k: int| 0 <= k < lines(s).len() implies {
        let l = #[trigger] lines(s)[k];
        &&& ending(s, l) == lf() || ending(s, l) == crlf() || ending(s, l) == Seq::<char>::empty()
        &&& ending(s, l) == Seq::<char>::empty() ==> k == lines(s).len() - 1
        &&& !content(s, l).contains('\n')
    } by {
        let l = lines(s)[k];
        lemma_line_at(s, l.0);
        let e = line_stop(s, l.0);
        if e > l.0 && s[e - 1] == '\n' {
            if e - 1 > l.0 && s[e - 2] == '\r' {
                assert(ending(s, l) =~= crlf());
            } else {
                assert(ending(s, l) =~= lf());
            }
        } else {
            assert(ending(s, l) =~= Seq::<char>::empty());
        }
        if ending(s, l) == Seq::<char>::empty() && k < lines(s).len() - 1 {
            assert(lines(s)[k].2 == lines(s)[k + 1].0);
            assert(l.2 < s.len());
            assert(ending(s, l).len() == l.2 - l.1);
        }
        if content(s, l).contains('\n') {
            let j = choose|j: int| 0 <= j < content(s, l).len() && content(s, l)[j] == '\n';
            assert(s[l.0 + j] == '\n');
        }
    }
}

/// The line starting at `i`.
pub fn next_line(s: &[char], i: usize) -> (r: Span)
    requires
        i < s@.len(),
    ensures
        span_int(r) == line_at(s@, i as int),
{
    proof {
        lemma_line_at(s@, i as int);
    }
    let nl = find_from_exec(s, '\n', i);
    let e = if nl < s.len() {
        nl + 1
    } else {
        s.len()
    };
    let c = if e > i && s[e - 1] == '\n' {
        if e - 1 > i && s[e - 2] == '\r' {
            e - 2
        } else {
            e - 1
        }
    } else {
        e
    };
    (i, c, e)
}

/// The lines of `s`.
pub fn source_lines(s: &[char]) -> (r: Vec<Span>)
    ensures
        r@.map_values(|t: Span| span_int(t)) == lines(s@),
        r@.len() == lines(s@).len(),
        forall|k: int| 0 <= k < r@.len() ==> span_int(#[trigger] r@[k]) == lines(s@)[k],
{
    let mut r: Vec<Span> = Vec::new();
    let mut i: usize = 0;
    proof {
        lemma_lines_from(s@, 0);
    }
    while i < s.len()
        invariant
            i <= s@.len(),
            r@.map_values(|t: Span| span_int(t)) + lines_from(s@, i as int) == lines(s@),
        decreases s@.len() - i,
    {
        let l = next_line(s, i);
        proof {
            lemma_line_at(s@, i as int);
            assert(lines_from(s@, i as int) == seq![line_at(s@, i as int)] + lines_from(
                s@,
                line_stop(s@, i as int),
            ));
            assert(r@.push(l).map_values(|t: Span| span_int(t)) =~= r@.map_values(
                |t: Span| span_int(t),
            ).push(span_int(l)));
        }
        r.push(l);
        i = l.2;
        proof {
            assert(r@.map_values(|t: Span| span_int(t)) + lines_from(s@, i as int) =~= lines(s@));
        }
    }
    proof {
        assert(lines_from(s@, i as int) =~= Seq::<(int, int, int)>::empty());
        assert(r@.map_values(|t: Span| span_int(t)) =~= lines(s@));
        assert forall|k: int| 0 <= k < r@.len() implies span_int(#[trigger] r@[k]) == lines(
            s@,
        )[k] by {
            assert(r@.map_values(|t: Span| span_int(t))[k] == span_int(r@[k]));
        }
    }
    r
}

pub open spec fn crlf() -> Seq<char> {
    seq!['\r', '\n']
}

pub open spec fn lf() -> Seq<char> {
    seq!['\n']
}

/// The ending of the first line of `s` that has one, `\n` when none has.
pub open spec fn detected_ending(s: Seq<char>) -> Seq<char> {
    let k = find_from(s, '\n', 0);
    if k < s.len() && k > 0 && s[k - 1] == '\r' {
        crlf()
    } else {
        lf()
    }
}

pub fn detected_line_ending(s: &[char]) -> (r: Vec<char>)
    ensures
        r@ == detected_ending(s@),
{
    let k = find_from_exec(s, '\n', 0);
    if k < s.len() && k > 0 && s[k - 1] == '\r' {
        let mut v = Vec::new();
        v.push('\r');
        v.push('\n');
        assert(v@ =~= crlf());
        v
    } else {
        let mut v = Vec::new();
        v.push('\n');
        assert(v@ =~= lf());
        v
    }
}

} // verus!
