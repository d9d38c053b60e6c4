//! Recognising grouped arguments, `\label{..}` commands and sectioning commands.

use vstd::prelude::*;

use crate::chars::{ascii_alphabetic, is_ascii_alphabetic};
use crate::text::{
    escaped, has_at, is_escaped, lemma_rskip_pad, lemma_skip_pad, matches_at, rskip_pad,
    rskip_pad_exec, skip_pad, skip_pad_exec, text_is, trim, Pad,
};

verus! {

/// Scanning from `i` with `depth` unmatched openers: the index just past the
/// closer that brings the depth back to zero. Escaped characters do not count.
pub open spec fn group_end_from(s: Seq<char>, i: int, open: char, close: char, depth: int) -> Option<int>
    decreases s.len() - i,
{
    if i < 0 || i >= s.len() {
        None
    } else if escaped(s, i) {
        group_end_from(s, i + 1, open, close, depth)
    } else if s[i] == open {
        group_end_from(s, i + 1, open, close, depth + 1)
    } else if s[i] == close {
        if depth - 1 == 0 {
            Some(i + 1)
        } else {
            group_end_from(s, i + 1, open, close, depth - 1)
        }
    } else {
        group_end_from(s, i + 1, open, close, depth)
    }
}

/// The end of the group that opens at or after `start`.
pub open spec fn group_end(s: Seq<char>, start: int, open: char, close: char) -> Option<int> {
    group_end_from(s, start, open, close, 0)
}

pub proof fn lemma_group_end_from(s: Seq<char>, i: int, open: char, close: char, depth: int)
    requires
        0 <= i,
    ensures
        group_end_from(s, i, open, close, depth) matches Some(e) ==> i < e <= s.len(),
    decreases s.len() - i,
{
    if i < s.len() {
        lemma_group_end_from(s, i + 1, open, close, depth);
        lemma_group_end_from(s, i + 1, open, close, depth + 1);
        lemma_group_end_from(s, i + 1, open, close, depth - 1);
    }
}

pub fn grouped_command_end(s: &[char], start: usize, open: char, close: char) -> (r: Option<usize>)
    ensures
        match r {
            Some(e) => group_end(s@, start as int, open, close) == Some(e as int),
            None => group_end(s@, start as int, open, close).is_none(),
        },
        r matches Some(e) ==> start < e <= s@.len(),
{
    proof {
        lemma_group_end_from(s@, start as int, open, close, 0);
    }
    let mut depth: i128 = 0;
    let mut i = start;
    while i < s.len()
        invariant
            start <= i,
            -(i - start) <= depth <= i - start,
            i <= s@.len() || i == start,
            group_end_from(s@, i as int, open, close, depth as int) == group_end(
                s@,
                start as int,
                open,
                close,
            ),
        decreases s@.len() - i,
    {
        if is_escaped(s, i) {
        } else if s[i] == open {
            depth = depth + 1;
        } else if s[i] == close {
            depth = depth - 1;
            if depth == 0 {
                return Some(i + 1);
            }
        }
        i = i + 1;
    }
    None
}

pub open spec fn label_prefix() -> Seq<char> {
    "\\label{"@
}

/// The end of a `\label{..}` command starting at `start`.
pub open spec fn label_end(s: Seq<char>, start: int) -> Option<int> {
    if 0 <= start <= s.len() && has_at(s, start, label_prefix()) {
        group_end(s, start + 6, '{', '}')
    } else {
        None
    }
}

pub proof fn lemma_label_end(s: Seq<char>, start: int)
    ensures
        label_end(s, start) matches Some(e) ==> start < e <= s.len(),
{
    reveal_strlit("\\label{");
    if 0 <= start && has_at(s, start, label_prefix()) {
        lemma_group_end_from(s, start + 6, '{', '}', 0);
        if let Some(e) = label_end(s, start) {
            assert(s.subrange(start, start + 7)[6] == '{');
            assert(s[start + 6] == '{');
            assert(!escaped(s, start + 6) ==> group_end_from(s, start + 6, '{', '}', 0) == group_end_from(s, start + 7, '{', '}', 1));
        }
    }
}

pub fn label_command_end(s: &[char], start: usize) -> (r: Option<usize>)
    ensures
        match r {
            Some(e) => label_end(s@, start as int) == Some(e as int),
            None => label_end(s@, start as int).is_none(),
        },
        r matches Some(e) ==> start < e <= s@.len(),
{
    proof {
        lemma_label_end(s@, start as int);
    }
    if start > s.len() {
        return None;
    }
    if !matches_at(s, start, "\\label{") {
        return None;
    }
    proof {
        reveal_strlit("\\label{");
    }
    grouped_command_end(s, start + 6, '{', '}')
}

/// After `offset`: skip spaces and tabs, then any number of `\label{..}` commands,
/// each followed by spaces and tabs; the end of the last label, or `offset`.
pub open spec fn labels_end(s: Seq<char>, offset: int) -> int
    decreases s.len() - offset,
{
    let start = skip_pad(s, offset, Pad::Blank);
    match label_end(s, start) {
        Some(e) => if offset < e <= s.len() && 0 <= offset {
            labels_end(s, e)
        } else {
            offset
        },
        None => offset,
    }
}

/// Whether `s[offset..]` is a run of `\label{..}` commands separated by spaces and tabs.
pub open spec fn labels_only(s: Seq<char>, offset: int) -> bool
    decreases s.len() - offset,
{
    match label_end(s, offset) {
        None => false,
        Some(e) => {
            let o = skip_pad(s, e, Pad::Blank);
            if o == s.len() {
                true
            } else if offset < o <= s.len() && 0 <= offset {
                labels_only(s, o)
            } else {
                false
            }
        },
    }
}

/// A line holding only label commands: its text without surrounding spaces and tabs.
pub open spec fn standalone_label_spec(line: Seq<char>) -> Option<Seq<char>> {
    let c = trim(line, Pad::Blank);
    if labels_only(c, 0) {
        Some(c)
    } else {
        None
    }
}

/// Bounds of the label text inside `line`, when the line holds only labels.
pub fn standalone_label(line: &[char]) -> (r: Option<(usize, usize)>)
    ensures
        match r {
            Some((a, b)) => a <= b <= line@.len() && standalone_label_spec(line@) == Some(
                line@.subrange(a as int, b as int),
            ),
            None => standalone_label_spec(line@).is_none(),
        },
{
    let a = skip_pad_exec(line, 0, Pad::Blank);
    let t = &line[a..line.len()];
    let b = rskip_pad_exec(t, t.len(), Pad::Blank);
    let c = &t[0..b];
    assert(c@ == trim(line@, Pad::Blank));
    assert(c@ == line@.subrange(a as int, a + b));
    let end = a + b;
    let mut offset: usize = 0;
    loop
        invariant
            offset <= c@.len(),
            c@ == trim(line@, Pad::Blank),
            c@ == line@.subrange(a as int, end as int),
            a <= end <= line@.len(),
            labels_only(c@, offset as int) == labels_only(c@, 0),
        decreases c@.len() - offset,
    {
        match label_command_end(c, offset) {
            None => {
                return None;
            },
            Some(e) => {
                let o = skip_pad_exec(c, e, Pad::Blank);
                if o == c.len() {
                    return Some((a, end));
                }
                offset = o;
            },
        }
    }
}

pub open spec fn is_section_name(name: Seq<char>) -> bool {
    ||| name == "part"@
    ||| name == "chapter"@
    ||| name == "section"@
    ||| name == "section*"@
    ||| name == "subsection"@
    ||| name == "subsection*"@
    ||| name == "subsubsection"@
    ||| name == "subsubsection*"@
    ||| name == "paragraph"@
    ||| name == "paragraph*"@
    ||| name == "subparagraph"@
    ||| name == "subparagraph*"@
}

fn is_section_command_name(name: &[char]) -> (r: bool)
    ensures
        r == is_section_name(name@),
{
    text_is(name, "part") || text_is(name, "chapter") || text_is(name, "section") || text_is(
        name,
        "section*",
    ) || text_is(name, "subsection") || text_is(name, "subsection*") || text_is(
        name,
        "subsubsection",
    ) || text_is(name, "subsubsection*") || text_is(name, "paragraph") || text_is(
        name,
        "paragraph*",
    ) || text_is(name, "subparagraph") || text_is(name, "subparagraph*")
}

/// The first index at or after `i` whose character is neither an ASCII letter nor `*`.
pub open spec fn name_stop(s: Seq<char>, i: int) -> int
    decreases s.len() - i,
{
    if 0 <= i < s.len() && (ascii_alphabetic(s[i]) || s[i] == '*') {
        name_stop(s, i + 1)
    } else {
        i
    }
}

/// For a line that starts with a sectioning command (`\section[..]{..}`, possibly
/// followed by `\label{..}` commands), the index just past it.
pub open spec fn section_end_spec(s: Seq<char>) -> Option<int> {
    if s.len() == 0 || s[0] != '\\' {
        None
    } else {
        let stop = name_stop(s, 1);
        if !is_section_name(s.subrange(1, stop)) {
            None
        } else {
            let o = skip_pad(s, stop, Pad::Blank);
            let o2 = if o < s.len() && s[o] == '[' {
                match group_end(s, o, '[', ']') {
                    Some(e) => Some(skip_pad(s, e, Pad::Blank)),
                    None => None,
                }
            } else {
                Some(o)
            };
            match o2 {
                None => None,
                Some(o2) => if o2 < s.len() && s[o2] == '{' {
                    match group_end(s, o2, '{', '}') {
                        Some(e) => Some(labels_end(s, e)),
                        None => None,
                    }
                } else {
                    None
                },
            }
        }
    }
}

pub proof fn lemma_labels_end(s: Seq<char>, offset: int)
    requires
        0 <= offset <= s.len(),
    ensures
        offset <= labels_end(s, offset) <= s.len(),
    decreases s.len() - offset,
{
    let start = skip_pad(s, offset, Pad::Blank);
    if let Some(e) = label_end(s, start) {
        if offset < e <= s.len() {
            lemma_labels_end(s, e);
        }
    }
}

pub proof fn lemma_name_stop(s: Seq<char>, i: int)
    requires
        0 <= i <= s.len(),
    ensures
        i <= name_stop(s, i) <= s.len(),
    decreases s.len() - i,
{
    if i < s.len() && (ascii_alphabetic(s[i]) || s[i] == '*') {
        lemma_name_stop(s, i + 1);
    }
}

pub fn section_command_end(s: &[char]) -> (r: Option<usize>)
    ensures
        match r {
            Some(e) => section_end_spec(s@) == Some(e as int),
            None => section_end_spec(s@).is_none(),
        },
        r matches Some(e) ==> e <= s@.len(),
{
    if s.len() == 0 || s[0] != '\\' {
        return None;
    }
    proof {
        lemma_name_stop(s@, 1);
    }
    let mut stop: usize = 1;
    while stop < s.len() && (is_ascii_alphabetic(s[stop]) || s[stop] == '*')
        invariant
            1 <= stop <= s@.len(),
            name_stop(s@, stop as int) == name_stop(s@, 1),
        decreases s@.len() - stop,
    {
        stop = stop + 1;
    }
    if !is_section_command_name(&s[1..stop]) {
        return None;
    }
    let o = skip_pad_exec(s, stop, Pad::Blank);
    let o2 = if o < s.len() && s[o] == '[' {
        match grouped_command_end(s, o, '[', ']') {
            Some(e) => skip_pad_exec(s, e, Pad::Blank),
            None => {
                return None;
            },
        }
    } else {
        o
    };
    if o2 < s.len() && s[o2] == '{' {
        match grouped_command_end(s, o2, '{', '}') {
            Some(e) => {
                let mut offset = e;
                proof {
                    lemma_labels_end(s@, e as int);
                }
                assert(section_end_spec(s@) == Some(labels_end(s@, e as int)));
                loop
                    invariant
                        offset <= s@.len(),
                        section_end_spec(s@) == Some(labels_end(s@, e as int)),
                        labels_end(s@, offset as int) == labels_end(s@, e as int),
                    decreases s@.len() - offset,
                {
                    let start = skip_pad_exec(s, offset, Pad::Blank);
                    match label_command_end(s, start) {
                        Some(end) => {
                            if offset < end {
                                offset = end;
                            } else {
                                return Some(offset);
                            }
                        },
                        None => {
                            return Some(offset);
                        },
                    }
                }
            },
            None => None,
        }
    } else {
        None
    }
}

/// The twelve sectioning commands.
pub open spec fn sectioning_name(name: Seq<char>) -> bool {
    ||| name == "part"@
    ||| name == "chapter"@
    ||| name == "section"@
    ||| name == "section*"@
    ||| name == "subsection"@
    ||| name == "subsection*"@
    ||| name == "subsubsection"@
    ||| name == "subsubsection*"@
    ||| name == "paragraph"@
    ||| name == "paragraph*"@
    ||| name == "subparagraph"@
    ||| name == "subparagraph*"@
}

proof fn lemma_name_stop_at(s: Seq<char>, i: int, e: int)
    requires
        1 <= i <= e < s.len(),
        forall|k: int| i <= k < e ==> ascii_alphabetic(#[trigger] s[k]) || s[k] == '*',
        s[e] == '{',
    ensures
        name_stop(s, i) == e,
    decreases e - i,
{
    if i < e {
        lemma_name_stop_at(s, i + 1, e);
    }
}

/// A line that starts with `\name{..}`, for any of `\part`, `\chapter`,
/// `\section`, `\subsection`, `\subsubsection`, `\paragraph` and
/// `\subparagraph`, starred or not, whose title group closes, is a sectioning
/// line: the heading ends just past the title and the labels after it.
pub proof fn sectioning_lines_are_recognised(s: Seq<char>, name: Seq<char>)
    requires
        sectioning_name(name),
        s.len() > name.len() + 1,
        s[0] == '\\',
        s.subrange(1, name.len() as int + 1) == name,
        s[name.len() as int + 1] == '{',
        group_end(s, name.len() as int + 1, '{', '}') is Some,
    ensures
        section_end_spec(s) == Some(labels_end(s, group_end(s, name.len() as int + 1, '{', '}')->Some_0)),
{
    reveal_strlit("part");
    reveal_strlit("chapter");
    reveal_strlit("section");
    reveal_strlit("section*");
    reveal_strlit("subsection");
    reveal_strlit("subsection*");
    reveal_strlit("subsubsection");
    reveal_strlit("subsubsection*");
    reveal_strlit("paragraph");
    reveal_strlit("paragraph*");
    reveal_strlit("subparagraph");
    reveal_strlit("subparagraph*");
    let e: int = name.len() as int + 1;
    assert forall|k: int| 1 <= k < e implies ascii_alphabetic(#[trigger] s[k]) || s[k] == '*' by {
        assert(s[k] == name[k - 1]);
    }
    lemma_name_stop_at(s, 1, e);
    assert(s.subrange(1, e) == name);
    assert(is_section_name(name));
    assert(skip_pad(s, e, Pad::Blank) == e);
}

proof fn lemma_name_stop_end(s: Seq<char>, i: int)
    requires
        0 <= i <= s.len(),
    ensures
        forall|k: int| i <= k < name_stop(s, i) ==> ascii_alphabetic(#[trigger] s[k]) || s[k] == '*',
        name_stop(s, i) < s.len() ==> !(ascii_alphabetic(s[name_stop(s, i)]) || s[name_stop(s, i)] == '*'),
    decreases s.len() - i,
{
    if i < s.len() && (ascii_alphabetic(s[i]) || s[i] == '*') {
        lemma_name_stop_end(s, i + 1);
    }
}

/// Only the twelve sectioning commands make a sectioning line: a line that
/// `section_end_spec` accepts starts with a backslash and one of the listed
/// names, and the name is not the start of a longer command name.
pub proof fn only_sectioning_lines_are_recognised(s: Seq<char>)
    requires
        section_end_spec(s) is Some,
    ensures
        exists|name: Seq<char>|
            #[trigger] sectioning_name(name) && s.len() > 0 && s[0] == '\\' && name.len() + 1 <= s.len() && s.subrange(1, name.len() as int + 1)
                == name && (name.len() + 1 == s.len() || !(ascii_alphabetic(s[name.len() as int + 1]) || s[name.len() as int + 1] == '*')),
{
    lemma_name_stop(s, 1);
    lemma_name_stop_end(s, 1);
    let stop = name_stop(s, 1);
    let name = s.subrange(1, stop);
    assert(is_section_name(name));
    assert(sectioning_name(name));
    assert(name.len() + 1 == stop);
}

} // verus!
