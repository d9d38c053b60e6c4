//! Environment markers and the fixed vocabularies of environment and node names.

use vstd::prelude::*;

use crate::text::{has_at, in_pad, matches_at, skip_pad_exec, text_is, trim_start, Pad};

verus! {

/// The prefix `\begin{` or `\end{`.
pub open spec fn marker_prefix(begin: bool) -> Seq<char> {
    if begin {
        seq!['\\', 'b', 'e', 'g', 'i', 'n', '{']
    } else {
        seq!['\\', 'e', 'n', 'd', '{']
    }
}

/// The first index at or after `i` holding `c`, or `s.len()` when there is none.
pub open spec fn find_from(s: Seq<char>, c: char, i: int) -> int
    decreases s.len() - i,
{
    if i < 0 || i >= s.len() {
        s.len() as int
    } else if s[i] == c {
        i
    } else {
        find_from(s, c, i + 1)
    }
}

pub proof fn lemma_find_from(s: Seq<char>, c: char, i: int)
    requires
        0 <= i <= s.len(),
    ensures
        i <= find_from(s, c, i) <= s.len(),
        forall|k: int| i <= k < find_from(s, c, i) ==> #[trigger] s[k] != c,
        find_from(s, c, i) < s.len() ==> s[find_from(s, c, i)] == c,
    decreases s.len() - i,
{
    if i < s.len() && s[i] != c {
        lemma_find_from(s, c, i + 1);
    }
}

pub fn find_from_exec(s: &[char], c: char, i: usize) -> (r: usize)
    requires
        i <= s@.len(),
    ensures
        r == find_from(s@, c, i as int),
        i <= r <= s@.len(),
{
    proof {
        lemma_find_from(s@, c, i as int);
    }
    let mut k = i;
    while k < s.len() && s[k] != c
        invariant
            i <= k <= s@.len(),
            find_from(s@, c, k as int) == find_from(s@, c, i as int),
        decreases s@.len() - k,
    {
        k = k + 1;
    }
    k
}

/// For a line that starts with `\begin{name}` (or `\end{name}`), the index just
/// past the closing brace together with the bounds of `name`.
pub open spec fn env_marker(line: Seq<char>, begin: bool) -> Option<(int, int, int)> {
    let p = marker_prefix(begin);
    if has_at(line, 0, p) {
        let close = find_from(line, '}', p.len() as int);
        if close < line.len() {
            Some((close + 1, p.len() as int, close))
        } else {
            None
        }
    } else {
        None
    }
}

pub fn environment_marker(line: &[char], begin: bool) -> (r: Option<(usize, usize, usize)>)
    ensures
        match r {
            Some((e, a, b)) => env_marker(line@, begin) == Some((e as int, a as int, b as int)),
            None => env_marker(line@, begin).is_none(),
        },
        r matches Some((e, a, b)) ==> a <= b < e <= line@.len() && e == b + 1,
{
    let found = if begin {
        matches_at(line, 0, "\\begin{")
    } else {
        matches_at(line, 0, "\\end{")
    };
    proof {
        reveal_strlit("\\begin{");
        reveal_strlit("\\end{");
        assert("\\begin{"@ =~= marker_prefix(true));
        assert("\\end{"@ =~= marker_prefix(false));
    }
    if !found {
        return None;
    }
    let plen: usize = if begin { 7 } else { 5 };
    let close = find_from_exec(line, '}', plen);
    if close < line.len() {
        Some((close + 1, plen, close))
    } else {
        None
    }
}

pub open spec fn is_math_env_name(name: Seq<char>) -> bool {
    ||| name == "math"@
    ||| name == "displaymath"@
    ||| name == "displaymath*"@
    ||| name == "equation"@
    ||| name == "equation*"@
    ||| name == "multline"@
    ||| name == "multline*"@
    ||| name == "eqnarray"@
    ||| name == "eqnarray*"@
    ||| name == "align"@
    ||| name == "align*"@
    ||| name == "aligned"@
    ||| name == "aligned*"@
    ||| name == "array"@
    ||| name == "array*"@
    ||| name == "split"@
    ||| name == "split*"@
    ||| name == "alignat"@
    ||| name == "alignat*"@
    ||| name == "alignedat"@
    ||| name == "alignedat*"@
    ||| name == "gather"@
    ||| name == "gather*"@
    ||| name == "gathered"@
    ||| name == "gathered*"@
    ||| name == "flalign"@
    ||| name == "flalign*"@
}

pub fn is_math_environment_name(name: &[char]) -> (r: bool)
    ensures
        r == is_math_env_name(name@),
{
    text_is(name, "math") || text_is(name, "displaymath") || text_is(name, "displaymath*")
        || text_is(name, "equation") || text_is(name, "equation*") || text_is(name, "multline")
        || text_is(name, "multline*") || text_is(name, "eqnarray") || text_is(name, "eqnarray*")
        || text_is(name, "align") || text_is(name, "align*") || text_is(name, "aligned")
        || text_is(name, "aligned*") || text_is(name, "array") || text_is(name, "array*")
        || text_is(name, "split") || text_is(name, "split*") || text_is(name, "alignat")
        || text_is(name, "alignat*") || text_is(name, "alignedat") || text_is(name, "alignedat*")
        || text_is(name, "gather") || text_is(name, "gather*") || text_is(name, "gathered")
        || text_is(name, "gathered*") || text_is(name, "flalign") || text_is(name, "flalign*")
}

pub open spec fn is_alignment_env_name(name: Seq<char>) -> bool {
    ||| name == "align"@
    ||| name == "align*"@
    ||| name == "alignat"@
    ||| name == "alignat*"@
    ||| name == "aligned"@
    ||| name == "aligned*"@
    ||| name == "alignedat"@
    ||| name == "alignedat*"@
    ||| name == "flalign"@
    ||| name == "flalign*"@
    ||| name == "eqnarray"@
    ||| name == "eqnarray*"@
    ||| name == "gather"@
    ||| name == "gather*"@
    ||| name == "gathered"@
    ||| name == "gathered*"@
    ||| name == "multline"@
    ||| name == "multline*"@
    ||| name == "split"@
    ||| name == "array"@
    ||| name == "array*"@
    ||| name == "cases"@
    ||| name == "matrix"@
    ||| name == "matrix*"@
    ||| name == "pmatrix"@
    ||| name == "pmatrix*"@
    ||| name == "bmatrix"@
    ||| name == "bmatrix*"@
    ||| name == "Bmatrix"@
    ||| name == "Bmatrix*"@
    ||| name == "vmatrix"@
    ||| name == "vmatrix*"@
    ||| name == "Vmatrix"@
    ||| name == "Vmatrix*"@
    ||| name == "smallmatrix"@
    ||| name == "tabular"@
    ||| name == "tabular*"@
    ||| name == "tabularx"@
    ||| name == "longtable"@
    ||| name == "tblr"@
    ||| name == "longtblr"@
    ||| name == "talltblr"@
}

pub fn is_alignment_environment_name(name: &[char]) -> (r: bool)
    ensures
        r == is_alignment_env_name(name@),
{
    text_is(name, "align") || text_is(name, "align*") || text_is(name, "alignat")
        || text_is(name, "alignat*") || text_is(name, "aligned") || text_is(name, "aligned*")
        || text_is(name, "alignedat") || text_is(name, "alignedat*") || text_is(name, "flalign")
        || text_is(name, "flalign*") || text_is(name, "eqnarray") || text_is(name, "eqnarray*")
        || text_is(name, "gather") || text_is(name, "gather*") || text_is(name, "gathered")
        || text_is(name, "gathered*") || text_is(name, "multline") || text_is(name, "multline*")
        || text_is(name, "split") || text_is(name, "array") || text_is(name, "array*")
        || text_is(name, "cases") || text_is(name, "matrix") || text_is(name, "matrix*")
        || text_is(name, "pmatrix") || text_is(name, "pmatrix*") || text_is(name, "bmatrix")
        || text_is(name, "bmatrix*") || text_is(name, "Bmatrix") || text_is(name, "Bmatrix*")
        || text_is(name, "vmatrix") || text_is(name, "vmatrix*") || text_is(name, "Vmatrix")
        || text_is(name, "Vmatrix*") || text_is(name, "smallmatrix") || text_is(name, "tabular")
        || text_is(name, "tabular*") || text_is(name, "tabularx") || text_is(name, "longtable")
        || text_is(name, "tblr") || text_is(name, "longtblr") || text_is(name, "talltblr")
}

/// Environments whose bodies are copied verbatim by the line-based passes.
pub open spec fn is_raw_env_name(name: Seq<char>) -> bool {
    ||| name == "comment"@
    ||| name == "verbatim"@
    ||| name == "Verbatim"@
    ||| name == "lstlisting"@
    ||| name == "minted"@
    ||| name == "asy"@
    ||| name == "asydef"@
    ||| name == "pycode"@
    ||| name == "luacode"@
    ||| name == "luacode*"@
    ||| name == "sagesilent"@
    ||| name == "sageblock"@
}

fn is_raw_name(name: &[char]) -> (r: bool)
    ensures
        r == is_raw_env_name(name@),
{
    text_is(name, "comment") || text_is(name, "verbatim") || text_is(name, "Verbatim")
        || text_is(name, "lstlisting") || text_is(name, "minted") || text_is(name, "asy")
        || text_is(name, "asydef") || text_is(name, "pycode") || text_is(name, "luacode")
        || text_is(name, "luacode*") || text_is(name, "sagesilent") || text_is(name, "sageblock")
}

/// For a line whose indented text starts with `\begin{name}` (or `\end{name}`)
/// where `name` is a raw environment, the name.
pub open spec fn raw_env_name(line: Seq<char>, begin: bool) -> Option<Seq<char>> {
    let t = trim_start(line, Pad::Blank);
    let p = marker_prefix(begin);
    if has_at(t, 0, p) {
        let close = find_from(t, '}', p.len() as int);
        let name = t.subrange(p.len() as int, close);
        if close < t.len() && is_raw_env_name(name) {
            Some(name)
        } else {
            None
        }
    } else {
        None
    }
}

pub fn raw_environment_name(line: &[char], begin: bool) -> (r: Option<Vec<char>>)
    ensures
        match r {
            Some(name) => raw_env_name(line@, begin) == Some(name@),
            None => raw_env_name(line@, begin).is_none(),
        },
{
    let start = skip_pad_exec(line, 0, Pad::Blank);
    let t = &line[start..line.len()];
    assert(t@ =~= trim_start(line@, Pad::Blank));
    match environment_marker(t, begin) {
        Some((_, a, b)) => {
            let name = &t[a..b];
            if is_raw_name(name) {
                Some(vstd::slice::slice_to_vec(name))
            } else {
                None
            }
        },
        None => None,
    }
}

/// Tree-sitter node kinds of environments.
pub open spec fn is_env_kind(kind: Seq<char>) -> bool {
    kind == "generic_environment"@ || (kind.len() >= 12 && kind.subrange(
        kind.len() - 12,
        kind.len() as int,
    ) == "_environment"@)
}

pub fn is_environment(kind: &[char]) -> (r: bool)
    ensures
        r == is_env_kind(kind@),
{
    if text_is(kind, "generic_environment") {
        return true;
    }
    proof {
        reveal_strlit("_environment");
    }
    if kind.len() >= 12 {
        let r = matches_at(kind, kind.len() - 12, "_environment");
        assert(r == (kind@.subrange(kind@.len() - 12, kind@.len() as int) == "_environment"@));
        r
    } else {
        false
    }
}

/// Tree-sitter node kinds of environments whose contents are not formatted.
pub open spec fn is_raw_env_kind(kind: Seq<char>) -> bool {
    ||| kind == "comment_environment"@
    ||| kind == "verbatim_environment"@
    ||| kind == "listing_environment"@
    ||| kind == "minted_environment"@
    ||| kind == "asy_environment"@
    ||| kind == "asydef_environment"@
    ||| kind == "pycode_environment"@
    ||| kind == "luacode_environment"@
    ||| kind == "sagesilent_environment"@
    ||| kind == "sageblock_environment"@
}

pub fn is_raw_environment(kind: &[char]) -> (r: bool)
    ensures
        r == is_raw_env_kind(kind@),
{
    text_is(kind, "comment_environment") || text_is(kind, "verbatim_environment")
        || text_is(kind, "listing_environment") || text_is(kind, "minted_environment")
        || text_is(kind, "asy_environment") || text_is(kind, "asydef_environment")
        || text_is(kind, "pycode_environment") || text_is(kind, "luacode_environment")
        || text_is(kind, "sagesilent_environment") || text_is(kind, "sageblock_environment")
}

} // verus!
