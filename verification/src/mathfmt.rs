//! Formatting read off the syntax tree: compact whitespace in math, script
//! groups without redundant braces, and the chosen formula delimiters.

use vstd::prelude::*;

use crate::chars::{alphabetic, ascii_alphabetic, is_alphabetic, is_ascii_alphabetic};
use crate::edits::{applied, applied_keeps_skipped_text, apply_edits, avoids, edits_fit, edits_view, lemma_avoids_concat, lemma_fit_concat, EditSpec, TextEdit};
use crate::metadata::{
    delim_view, delims_view, ranges_view, scripts_ok, DelimSpec, FormulaKind, MetaSpec, TreeMetadata,
};
use crate::options::{DisplayMathDelimiters, InlineMathDelimiters, WriterOptions};
use crate::skip::{overlaps_any, overlaps_spec, skip_regions, SkipRegions};
use crate::text::{chars_of, same_chars};

verus! {

pub open spec fn blank(c: char) -> bool {
    c == ' ' || c == '\t'
}

/// The first index at or after `i`, below `b`, that is not a space or tab; or `b`.
pub open spec fn blank_end(s: Seq<char>, i: int, b: int) -> int
    decreases b - i,
{
    if i >= b || !blank(s[i]) {
        i
    } else {
        blank_end(s, i + 1, b)
    }
}

/// Where the run of ASCII letters and `@` that ends at `i` starts.
pub open spec fn word_back(s: Seq<char>, i: int) -> int
    decreases i,
{
    if 0 < i <= s.len() && (ascii_alphabetic(s[i - 1]) || s[i - 1] == '@') {
        word_back(s, i - 1)
    } else {
        i
    }
}

/// Whether the whitespace `a..b` separates a control word from a letter that
/// follows it, so that one space has to stay.
pub open spec fn needs_separator(s: Seq<char>, a: int, b: int) -> bool {
    &&& 0 <= b < s.len()
    &&& (alphabetic(s[b]) || s[b] == '@')
    &&& {
        let st = word_back(s, a);
        st < a && st > 0 && s[st - 1] == '\\'
    }
}

/// Edits that compact the whitespace runs of `i..b`: each run outside
/// protected and skipped ranges becomes one space after a control word
/// followed by a letter, and nothing otherwise.
pub open spec fn compact_from(
    s: Seq<char>,
    i: int,
    b: int,
    protected: Seq<(int, int)>,
    skip: Seq<(int, int)>,
) -> Seq<EditSpec>
    decreases b - i,
{
    if i >= b {
        seq![]
    } else if !blank(s[i]) {
        compact_from(s, i + 1, b, protected, skip)
    } else {
        let e = blank_end(s, i, b);
        proof {
            lemma_blank_end(s, i, b);
        }
        let rest = compact_from(s, e, b, protected, skip);
        if overlaps_spec((i, e), protected) || overlaps_spec((i, e), skip) {
            rest
        } else {
            let rep: Seq<char> = if needs_separator(s, i, e) {
                seq![' ']
            } else {
                seq![]
            };
            if s.subrange(i, e) == rep {
                rest
            } else {
                seq![(i, e, rep)] + rest
            }
        }
    }
}

pub proof fn lemma_blank_end(s: Seq<char>, i: int, b: int)
    requires
        i < b,
        blank(s[i]),
    ensures
        i < blank_end(s, i, b) <= b,
    decreases b - i,
{
    assert(blank_end(s, i, b) == blank_end(s, i + 1, b));
    if i + 1 < b && blank(s[i + 1]) {
        lemma_blank_end(s, i + 1, b);
    } else {
        assert(blank_end(s, i + 1, b) == i + 1);
    }
}

/// The compaction edits of the first `k` math ranges.
pub open spec fn compact_all(
    s: Seq<char>,
    maths: Seq<(int, int)>,
    protected: Seq<(int, int)>,
    skip: Seq<(int, int)>,
    k: int,
) -> Seq<EditSpec>
    decreases k,
{
    if k <= 0 {
        seq![]
    } else {
        let r = maths[k - 1];
        let b = if r.1 < s.len() {
            r.1
        } else {
            s.len() as int
        };
        compact_all(s, maths, protected, skip, k - 1) + compact_from(s, r.0, b, protected, skip)
    }
}

/// Edits that drop the braces of the first `k` script groups outside skipped regions.
pub open spec fn script_edits(scripts: Seq<(int, int)>, skip: Seq<(int, int)>, k: int) -> Seq<EditSpec>
    decreases k,
{
    if k <= 0 {
        seq![]
    } else {
        let g = scripts[k - 1];
        let prev = script_edits(scripts, skip, k - 1);
        if overlaps_spec(g, skip) {
            prev
        } else {
            prev + seq![(g.0, g.0 + 1, seq![]), (g.1 - 1, g.1, seq![])]
        }
    }
}

/// The delimiters that the options ask for, for a formula of this kind.
pub open spec fn delim_pair(opts: WriterOptions, kind: FormulaKind) -> Option<(Seq<char>, Seq<char>)> {
    match kind {
        FormulaKind::Inline => match opts.inline_math_delimiters {
            InlineMathDelimiters::Preserve => None,
            InlineMathDelimiters::Dollars => Some(("$"@, "$"@)),
            InlineMathDelimiters::Parentheses => Some(("\\("@, "\\)"@)),
        },
        FormulaKind::Display => match opts.display_math_delimiters {
            DisplayMathDelimiters::Preserve => None,
            DisplayMathDelimiters::Dollars => Some(("$$"@, "$$"@)),
            DisplayMathDelimiters::Brackets => Some(("\\["@, "\\]"@)),
        },
    }
}

/// Edits that replace the delimiters of the first `k` formulas that differ
/// from the chosen ones, outside skipped regions.
pub open spec fn delim_edits(
    s: Seq<char>,
    opts: WriterOptions,
    fs: Seq<DelimSpec>,
    skip: Seq<(int, int)>,
    k: int,
) -> Seq<EditSpec>
    decreases k,
{
    if k <= 0 {
        seq![]
    } else {
        let f = fs[k - 1];
        let prev = delim_edits(s, opts, fs, skip, k - 1);
        if overlaps_spec(f.1, skip) || overlaps_spec(f.2, skip) {
            prev
        } else {
            match delim_pair(opts, f.0) {
                None => prev,
                Some((o, c)) => {
                    let e1: Seq<EditSpec> = if s.subrange(f.1.0, f.1.1) != o {
                        seq![(f.1.0, f.1.1, o)]
                    } else {
                        seq![]
                    };
                    let e2: Seq<EditSpec> = if s.subrange(f.2.0, f.2.1) != c {
                        seq![(f.2.0, f.2.1, c)]
                    } else {
                        seq![]
                    };
                    prev + e1 + e2
                },
            }
        }
    }
}

/// The delimiters that the options rewrite lie in a text of `n` characters.
pub open spec fn formulas_ok(n: int, opts: WriterOptions, fs: Seq<DelimSpec>) -> bool {
    forall|i: int|
        0 <= i < fs.len() && (#[trigger] delim_pair(opts, fs[i].0)) is Some ==> 0 <= fs[i].1.0 <= fs[i].1.1 <= n && 0
            <= fs[i].2.0 <= fs[i].2.1 <= n
}

/// All edits of the tree formatting pass, in the order they are found.
pub open spec fn math_edits(s: Seq<char>, opts: WriterOptions, meta: MetaSpec) -> Seq<EditSpec> {
    let skip = skip_regions(s).0;
    let compact = if opts.compact_math {
        compact_all(s, meta.math, meta.protected, skip, meta.math.len() as int)
    } else {
        seq![]
    };
    let scripts = if opts.simplify_math_scripts {
        script_edits(meta.scripts, skip, meta.scripts.len() as int)
    } else {
        seq![]
    };
    compact + scripts + delim_edits(s, opts, meta.formulas, skip, meta.formulas.len() as int)
}

/// The tree formatting pass: `None` when two of its edits overlap.
pub open spec fn math_pass(s: Seq<char>, opts: WriterOptions, meta: MetaSpec) -> Option<Seq<char>> {
    applied(s, math_edits(s, opts, meta))
}

fn needs_separator_exec(s: &[char], a: usize, b: usize) -> (r: bool)
    requires
        a <= b <= s@.len(),
    ensures
        r == needs_separator(s@, a as int, b as int),
{
    if b >= s.len() {
        return false;
    }
    let next = s[b];
    if !(is_alphabetic(next) || next == '@') {
        return false;
    }
    let mut start = a;
    while start > 0 && (is_ascii_alphabetic(s[start - 1]) || s[start - 1] == '@')
        invariant
            start <= a <= s@.len(),
            word_back(s@, start as int) == word_back(s@, a as int),
        decreases start,
    {
        start = start - 1;
    }
    start < a && start > 0 && s[start - 1] == '\\'
}

fn push_edit(edits: &mut Vec<TextEdit>, start: usize, end: usize, text: Vec<char>, n: Ghost<int>)
    requires
        edits_fit(n@, edits_view(old(edits)@)),
        start <= end <= n@,
    ensures
        edits_view(final(edits)@) == edits_view(old(edits)@).push((start as int, end as int, text@)),
        edits_fit(n@, edits_view(final(edits)@)),
{
    let e = TextEdit { start, end, text };
    edits.push(e);
    assert(edits_view(edits@) =~= edits_view(old(edits)@).push((start as int, end as int, e.text@)));
}

fn compact_range(
    s: &[char],
    a: usize,
    b: usize,
    protected: &Vec<(usize, usize)>,
    skipped: &SkipRegions,
    edits: &mut Vec<TextEdit>,
)
    requires
        b <= s@.len(),
        edits_fit(s@.len() as int, edits_view(old(edits)@)),
    ensures
        edits_view(final(edits)@) == edits_view(old(edits)@) + compact_from(
            s@,
            a as int,
            b as int,
            ranges_view(protected@),
            skipped.range_view(),
        ),
        edits_fit(s@.len() as int, edits_view(final(edits)@)),
{
    let ghost pv = ranges_view(protected@);
    let ghost sk = skipped.range_view();
    let ghost target = edits_view(edits@) + compact_from(s@, a as int, b as int, pv, sk);
    let mut offset = a;
    while offset < b
        invariant
            b <= s@.len(),
            pv == ranges_view(protected@),
            sk == skipped.range_view(),
            edits_fit(s@.len() as int, edits_view(edits@)),
            edits_view(edits@) + compact_from(s@, offset as int, b as int, pv, sk) == target,
        decreases b - offset,
    {
        if !(s[offset] == ' ' || s[offset] == '\t') {
            offset = offset + 1;
            continue;
        }
        let start = offset;
        proof {
            lemma_blank_end(s@, start as int, b as int);
        }
        while offset < b && (s[offset] == ' ' || s[offset] == '\t')
            invariant
                start <= offset <= b,
                b <= s@.len(),
                blank_end(s@, offset as int, b as int) == blank_end(s@, start as int, b as int),
            decreases b - offset,
        {
            offset = offset + 1;
        }
        let ghost before = edits_view(edits@);
        let ghost rest = compact_from(s@, offset as int, b as int, pv, sk);
        let hidden = overlaps_any((start, offset), protected.as_slice()) || skipped.overlaps(
            (start, offset),
        );
        if !hidden {
            let sep = needs_separator_exec(s, start, offset);
            let mut rep: Vec<char> = Vec::new();
            if sep {
                rep.push(' ');
            }
            assert(rep@ =~= (if needs_separator(s@, start as int, offset as int) {
                seq![' ']
            } else {
                Seq::<char>::empty()
            }));
            if !same_chars(&s[start..offset], rep.as_slice()) {
                push_edit(edits, start, offset, rep, Ghost(s@.len() as int));
                assert(before + compact_from(s@, start as int, b as int, pv, sk) =~= edits_view(edits@) + rest);
            }
        }
    }
}


fn lit_chars(lit: &str) -> (v: Vec<char>)
    ensures
        v@ == lit@,
{
    chars_of(lit)
}

/// The tree formatting pass over `s`, whose metadata is `meta`.
pub fn apply_tree_formatting(s: &[char], opts: &WriterOptions, meta: &TreeMetadata) -> (r: Option<Vec<char>>)
    requires
        opts.simplify_math_scripts ==> scripts_ok(s@.len() as int, meta.view().scripts),
        formulas_ok(s@.len() as int, *opts, meta.view().formulas),
    ensures
        match r {
            Some(t) => math_pass(s@, *opts, meta.view()) == Some(t@),
            None => math_pass(s@, *opts, meta.view()) is None,
        },
{
    let skipped = SkipRegions::new(s);
    let ghost sk = skipped.range_view();
    let ghost mv = meta.view();
    let mut edits: Vec<TextEdit> = Vec::new();
    let ghost n = s@.len() as int;
    if opts.compact_math {
        let mut k: usize = 0;
        while k < meta.math_ranges.len()
            invariant
                k <= meta.math_ranges@.len(),
                mv == meta.view(),
                sk == skipped.range_view(),
                n == s@.len(),
                edits_fit(n, edits_view(edits@)),
                edits_view(edits@) == compact_all(s@, mv.math, mv.protected, sk, k as int),
            decreases meta.math_ranges@.len() - k,
        {
            let (a, b0) = meta.math_ranges[k];
            let b = if b0 < s.len() {
                b0
            } else {
                s.len()
            };
            compact_range(s, a, b, &meta.protected_math_ranges, &skipped, &mut edits);
            k = k + 1;
        }
    }
    let ghost e1 = edits_view(edits@);
    if opts.simplify_math_scripts {
        let mut k: usize = 0;
        while k < meta.simple_script_groups.len()
            invariant
                k <= meta.simple_script_groups@.len(),
                mv == meta.view(),
                scripts_ok(n, mv.scripts),
                sk == skipped.range_view(),
                n == s@.len(),
                edits_fit(n, edits_view(edits@)),
                edits_view(edits@) == e1 + script_edits(mv.scripts, sk, k as int),
            decreases meta.simple_script_groups@.len() - k,
        {
            let g = meta.simple_script_groups[k];
            assert(mv.scripts[k as int] == (g.0 as int, g.1 as int));
            if !skipped.overlaps(g) {
                push_edit(&mut edits, g.0, g.0 + 1, Vec::new(), Ghost(n));
                push_edit(&mut edits, g.1 - 1, g.1, Vec::new(), Ghost(n));
            }
            proof {
                assert(edits_view(edits@) =~= e1 + script_edits(mv.scripts, sk, k + 1));
            }
            k = k + 1;
        }
    }
    let ghost e2 = edits_view(edits@);
    let mut k: usize = 0;
    while k < meta.formula_delimiters.len()
        invariant
            k <= meta.formula_delimiters@.len(),
            mv == meta.view(),
            formulas_ok(n, *opts, mv.formulas),
            sk == skipped.range_view(),
            n == s@.len(),
            edits_fit(n, edits_view(edits@)),
            edits_view(edits@) == e2 + delim_edits(s@, *opts, mv.formulas, sk, k as int),
        decreases meta.formula_delimiters@.len() - k,
    {
        let f = meta.formula_delimiters[k];
        assert(mv.formulas[k as int] == delim_view(f));
        let ghost before = edits_view(edits@);
        if !skipped.overlaps(f.opening) && !skipped.overlaps(f.closing) {
            let pair: Option<(&str, &str)> = match f.kind {
                FormulaKind::Inline => match opts.inline_math_delimiters {
                    InlineMathDelimiters::Preserve => None,
                    InlineMathDelimiters::Dollars => Some(("$", "$")),
                    InlineMathDelimiters::Parentheses => Some(("\\(", "\\)")),
                },
                FormulaKind::Display => match opts.display_math_delimiters {
                    DisplayMathDelimiters::Preserve => None,
                    DisplayMathDelimiters::Dollars => Some(("$$", "$$")),
                    DisplayMathDelimiters::Brackets => Some(("\\[", "\\]")),
                },
            };
            match pair {
                Some((o, c)) => {
                    let ov = lit_chars(o);
                    let cv = lit_chars(c);
                    if !same_chars(&s[f.opening.0..f.opening.1], ov.as_slice()) {
                        push_edit(&mut edits, f.opening.0, f.opening.1, ov, Ghost(n));
                    }
                    let ghost mid = edits_view(edits@);
                    if !same_chars(&s[f.closing.0..f.closing.1], cv.as_slice()) {
                        push_edit(&mut edits, f.closing.0, f.closing.1, cv, Ghost(n));
                    }
                    proof {
                        assert(edits_view(edits@) =~= e2 + delim_edits(s@, *opts, mv.formulas, sk, k + 1));
                    }
                },
                None => {},
            }
        }
        k = k + 1;
    }
    proof {
        assert(edits_view(edits@) =~= math_edits(s@, *opts, mv));
    }
    match apply_edits(s, edits) {
        Some(t) => Some(t),
        None => None,
    }
}


proof fn lemma_compact_avoids(
    s: Seq<char>,
    i: int,
    b: int,
    protected: Seq<(int, int)>,
    skip: Seq<(int, int)>,
)
    ensures
        avoids(compact_from(s, i, b, protected, skip), skip),
    decreases b - i,
{
    if i < b {
        if !blank(s[i]) {
            lemma_compact_avoids(s, i + 1, b, protected, skip);
        } else {
            let e = blank_end(s, i, b);
            lemma_blank_end(s, i, b);
            lemma_compact_avoids(s, e, b, protected, skip);
            let rest = compact_from(s, e, b, protected, skip);
            if !(overlaps_spec((i, e), protected) || overlaps_spec((i, e), skip)) {
                let rep: Seq<char> = if needs_separator(s, i, e) {
                    seq![' ']
                } else {
                    seq![]
                };
                if s.subrange(i, e) != rep {
                    let one: Seq<EditSpec> = seq![(i, e, rep)];
                    assert(avoids(one, skip));
                    lemma_avoids_concat(one, rest, skip);
                }
            }
        }
    }
}

proof fn lemma_compact_all_avoids(
    s: Seq<char>,
    maths: Seq<(int, int)>,
    protected: Seq<(int, int)>,
    skip: Seq<(int, int)>,
    k: int,
)
    ensures
        avoids(compact_all(s, maths, protected, skip, k), skip),
    decreases k,
{
    if k > 0 {
        lemma_compact_all_avoids(s, maths, protected, skip, k - 1);
        let r = maths[k - 1];
        let b = if r.1 < s.len() {
            r.1
        } else {
            s.len() as int
        };
        lemma_compact_avoids(s, r.0, b, protected, skip);
        lemma_avoids_concat(
            compact_all(s, maths, protected, skip, k - 1),
            compact_from(s, r.0, b, protected, skip),
            skip,
        );
    }
}

proof fn lemma_scripts_avoid(scripts: Seq<(int, int)>, skip: Seq<(int, int)>, k: int)
    requires
        k <= scripts.len(),
        forall|i: int| 0 <= i < scripts.len() ==> (#[trigger] scripts[i]).0 + 2 <= scripts[i].1,
    ensures
        avoids(script_edits(scripts, skip, k), skip),
    decreases k,
{
    if k > 0 {
        lemma_scripts_avoid(scripts, skip, k - 1);
        let g = scripts[k - 1];
        if !overlaps_spec(g, skip) {
            let two: Seq<EditSpec> = seq![(g.0, g.0 + 1, seq![]), (g.1 - 1, g.1, seq![])];
            assert forall|i: int| 0 <= i < two.len() implies !overlaps_spec(((#[trigger] two[i]).0, two[i].1), skip) by {
                if overlaps_spec((two[i].0, two[i].1), skip) {
                    let q = choose|q: int| 0 <= q < skip.len() && two[i].0 < (#[trigger] skip[q]).1 && skip[q].0 < two[i].1;
                    assert(g.0 < skip[q].1 && skip[q].0 < g.1);
                }
            }
            lemma_avoids_concat(script_edits(scripts, skip, k - 1), two, skip);
        }
    }
}

proof fn lemma_delims_avoid(s: Seq<char>, opts: WriterOptions, fs: Seq<DelimSpec>, skip: Seq<(int, int)>, k: int)
    ensures
        avoids(delim_edits(s, opts, fs, skip, k), skip),
    decreases k,
{
    if k > 0 {
        lemma_delims_avoid(s, opts, fs, skip, k - 1);
        let f = fs[k - 1];
        let prev = delim_edits(s, opts, fs, skip, k - 1);
        if !(overlaps_spec(f.1, skip) || overlaps_spec(f.2, skip)) {
            if let Some((o, c)) = delim_pair(opts, f.0) {
                let e1: Seq<EditSpec> = if s.subrange(f.1.0, f.1.1) != o {
                    seq![(f.1.0, f.1.1, o)]
                } else {
                    seq![]
                };
                let e2: Seq<EditSpec> = if s.subrange(f.2.0, f.2.1) != c {
                    seq![(f.2.0, f.2.1, c)]
                } else {
                    seq![]
                };
                assert(avoids(e1, skip));
                assert(avoids(e2, skip));
                lemma_avoids_concat(prev, e1, skip);
                lemma_avoids_concat(prev + e1, e2, skip);
            }
        }
    }
}

/// The tree formatting pass leaves skipped regions alone: for a tree that fits
/// the text, none of its edits reaches into a region between the directives.
pub proof fn math_edits_avoid_skipped_regions(s: Seq<char>, opts: WriterOptions, root: crate::syntax::SyntaxNode)
    requires
        crate::tree::fits(s, root),
    ensures
        avoids(math_edits(s, opts, crate::metadata::tree_metadata(s, opts, root)), skip_regions(s).0),
{
    let meta = crate::metadata::tree_metadata(s, opts, root);
    let skip = skip_regions(s).0;
    crate::metadata::lemma_tree_metadata_ok(s, opts, root);
    let compact = if opts.compact_math {
        compact_all(s, meta.math, meta.protected, skip, meta.math.len() as int)
    } else {
        seq![]
    };
    let scripts = if opts.simplify_math_scripts {
        script_edits(meta.scripts, skip, meta.scripts.len() as int)
    } else {
        seq![]
    };
    lemma_compact_all_avoids(s, meta.math, meta.protected, skip, meta.math.len() as int);
    lemma_scripts_avoid(meta.scripts, skip, meta.scripts.len() as int);
    lemma_delims_avoid(s, opts, meta.formulas, skip, meta.formulas.len() as int);
    assert(avoids(compact, skip));
    assert(avoids(scripts, skip));
    lemma_avoids_concat(compact, scripts, skip);
    lemma_avoids_concat(compact + scripts, delim_edits(s, opts, meta.formulas, skip, meta.formulas.len() as int), skip);
}


proof fn lemma_compact_avoids_protected(
    s: Seq<char>,
    i: int,
    b: int,
    protected: Seq<(int, int)>,
    skip: Seq<(int, int)>,
)
    ensures
        avoids(compact_from(s, i, b, protected, skip), protected),
    decreases b - i,
{
    if i < b {
        if !blank(s[i]) {
            lemma_compact_avoids_protected(s, i + 1, b, protected, skip);
        } else {
            let e = blank_end(s, i, b);
            lemma_blank_end(s, i, b);
            lemma_compact_avoids_protected(s, e, b, protected, skip);
            let rest = compact_from(s, e, b, protected, skip);
            if !(overlaps_spec((i, e), protected) || overlaps_spec((i, e), skip)) {
                let rep: Seq<char> = if needs_separator(s, i, e) {
                    seq![' ']
                } else {
                    seq![]
                };
                if s.subrange(i, e) != rep {
                    let one: Seq<EditSpec> = seq![(i, e, rep)];
                    assert(avoids(one, protected));
                    lemma_avoids_concat(one, rest, protected);
                }
            }
        }
    }
}

/// Compacting math never rewrites protected text: no compaction edit reaches
/// into a protected range (text-bearing commands, comments and command names
/// with spaces inside math).
pub proof fn compaction_avoids_protected_text(
    s: Seq<char>,
    maths: Seq<(int, int)>,
    protected: Seq<(int, int)>,
    skip: Seq<(int, int)>,
    k: int,
)
    ensures
        avoids(compact_all(s, maths, protected, skip, k), protected),
    decreases k,
{
    if k > 0 {
        compaction_avoids_protected_text(s, maths, protected, skip, k - 1);
        let r = maths[k - 1];
        let b = if r.1 < s.len() {
            r.1
        } else {
            s.len() as int
        };
        lemma_compact_avoids_protected(s, r.0, b, protected, skip);
        lemma_avoids_concat(
            compact_all(s, maths, protected, skip, k - 1),
            compact_from(s, r.0, b, protected, skip),
            protected,
        );
    }
}

proof fn lemma_no_delim_edits(s: Seq<char>, opts: WriterOptions, fs: Seq<DelimSpec>, skip: Seq<(int, int)>, k: int)
    requires
        opts.inline_math_delimiters == InlineMathDelimiters::Preserve,
        opts.display_math_delimiters == DisplayMathDelimiters::Preserve,
    ensures
        delim_edits(s, opts, fs, skip, k) == Seq::<EditSpec>::empty(),
    decreases k,
{
    if k > 0 {
        lemma_no_delim_edits(s, opts, fs, skip, k - 1);
    }
}

/// With math compaction, script simplification and both delimiter rewrites
/// off, the tree formatting pass gives the text back unchanged, whatever the
/// metadata holds.
pub proof fn math_pass_off_is_identity(s: Seq<char>, opts: WriterOptions, meta: MetaSpec)
    requires
        !opts.compact_math,
        !opts.simplify_math_scripts,
        opts.inline_math_delimiters == InlineMathDelimiters::Preserve,
        opts.display_math_delimiters == DisplayMathDelimiters::Preserve,
    ensures
        math_pass(s, opts, meta) == Some(s),
{
    let skip = skip_regions(s).0;
    lemma_no_delim_edits(s, opts, meta.formulas, skip, meta.formulas.len() as int);
    let es = math_edits(s, opts, meta);
    assert(es =~= Seq::<EditSpec>::empty());
    let sorted = crate::edits::sort_by_start(es);
    assert(sorted.len() == 0);
    assert(!crate::edits::overlapping(sorted));
    assert(crate::edits::splice(s, sorted) =~= s);
}

proof fn lemma_compact_fit(s: Seq<char>, i: int, b: int, protected: Seq<(int, int)>, skip: Seq<(int, int)>)
    requires
        0 <= i,
        b <= s.len(),
    ensures
        edits_fit(s.len() as int, compact_from(s, i, b, protected, skip)),
    decreases b - i,
{
    if i < b {
        if !blank(s[i]) {
            lemma_compact_fit(s, i + 1, b, protected, skip);
        } else {
            let e = blank_end(s, i, b);
            lemma_blank_end(s, i, b);
            lemma_compact_fit(s, e, b, protected, skip);
            let rest = compact_from(s, e, b, protected, skip);
            if !(overlaps_spec((i, e), protected) || overlaps_spec((i, e), skip)) {
                let rep: Seq<char> = if needs_separator(s, i, e) {
                    seq![' ']
                } else {
                    seq![]
                };
                if s.subrange(i, e) != rep {
                    let one: Seq<EditSpec> = seq![(i, e, rep)];
                    lemma_fit_concat(s.len() as int, one, rest);
                }
            }
        }
    }
}

proof fn lemma_compact_all_fit(s: Seq<char>, maths: Seq<(int, int)>, protected: Seq<(int, int)>, skip: Seq<(int, int)>, k: int)
    requires
        k <= maths.len(),
        crate::metadata::starts_in_text(maths),
    ensures
        edits_fit(s.len() as int, compact_all(s, maths, protected, skip, k)),
    decreases k,
{
    if k > 0 {
        lemma_compact_all_fit(s, maths, protected, skip, k - 1);
        let r = maths[k - 1];
        let b = if r.1 < s.len() {
            r.1
        } else {
            s.len() as int
        };
        lemma_compact_fit(s, r.0, b, protected, skip);
        lemma_fit_concat(s.len() as int, compact_all(s, maths, protected, skip, k - 1), compact_from(s, r.0, b, protected, skip));
    }
}

proof fn lemma_scripts_fit(n: int, scripts: Seq<(int, int)>, skip: Seq<(int, int)>, k: int)
    requires
        k <= scripts.len(),
        scripts_ok(n, scripts),
    ensures
        edits_fit(n, script_edits(scripts, skip, k)),
    decreases k,
{
    if k > 0 {
        lemma_scripts_fit(n, scripts, skip, k - 1);
        let g = scripts[k - 1];
        if !overlaps_spec(g, skip) {
            let two: Seq<EditSpec> = seq![(g.0, g.0 + 1, seq![]), (g.1 - 1, g.1, seq![])];
            lemma_fit_concat(n, script_edits(scripts, skip, k - 1), two);
        }
    }
}

proof fn lemma_delims_fit(s: Seq<char>, opts: WriterOptions, fs: Seq<DelimSpec>, skip: Seq<(int, int)>, k: int)
    requires
        k <= fs.len(),
        formulas_ok(s.len() as int, opts, fs),
    ensures
        edits_fit(s.len() as int, delim_edits(s, opts, fs, skip, k)),
    decreases k,
{
    if k > 0 {
        lemma_delims_fit(s, opts, fs, skip, k - 1);
        let f = fs[k - 1];
        let prev = delim_edits(s, opts, fs, skip, k - 1);
        if !(overlaps_spec(f.1, skip) || overlaps_spec(f.2, skip)) {
            if let Some((o, c)) = delim_pair(opts, f.0) {
                let e1: Seq<EditSpec> = if s.subrange(f.1.0, f.1.1) != o {
                    seq![(f.1.0, f.1.1, o)]
                } else {
                    seq![]
                };
                let e2: Seq<EditSpec> = if s.subrange(f.2.0, f.2.1) != c {
                    seq![(f.2.0, f.2.1, c)]
                } else {
                    seq![]
                };
                lemma_fit_concat(s.len() as int, prev, e1);
                lemma_fit_concat(s.len() as int, prev + e1, e2);
            }
        }
    }
}

/// The tree formatting pass keeps each skipped range: for a tree that fits the
/// text, the text of that run of skipped lines stands in the result as one
/// piece.
pub proof fn math_pass_keeps_skipped_text(s: Seq<char>, opts: WriterOptions, root: crate::syntax::SyntaxNode, q: int)
    requires
        crate::tree::fits(s, root),
        0 <= q < skip_regions(s).0.len(),
        math_pass(s, opts, crate::metadata::tree_metadata(s, opts, root)) is Some,
    ensures
        exists|a: Seq<char>, b: Seq<char>|
            math_pass(s, opts, crate::metadata::tree_metadata(s, opts, root))->Some_0 == a + s.subrange(
                skip_regions(s).0[q].0,
                skip_regions(s).0[q].1,
            ) + b,
{
    let meta = crate::metadata::tree_metadata(s, opts, root);
    let skip = skip_regions(s).0;
    let n = s.len() as int;
    crate::metadata::lemma_tree_metadata_ok(s, opts, root);
    crate::metadata::lemma_metadata_math_starts(s, opts, root);
    let compact = if opts.compact_math {
        compact_all(s, meta.math, meta.protected, skip, meta.math.len() as int)
    } else {
        seq![]
    };
    let scripts = if opts.simplify_math_scripts {
        script_edits(meta.scripts, skip, meta.scripts.len() as int)
    } else {
        seq![]
    };
    let delims = delim_edits(s, opts, meta.formulas, skip, meta.formulas.len() as int);
    lemma_compact_all_fit(s, meta.math, meta.protected, skip, meta.math.len() as int);
    lemma_scripts_fit(n, meta.scripts, skip, meta.scripts.len() as int);
    lemma_delims_fit(s, opts, meta.formulas, skip, meta.formulas.len() as int);
    assert(edits_fit(n, compact));
    assert(edits_fit(n, scripts));
    lemma_fit_concat(n, compact, scripts);
    lemma_fit_concat(n, compact + scripts, delims);
    math_edits_avoid_skipped_regions(s, opts, root);
    applied_keeps_skipped_text(s, math_edits(s, opts, meta), q);
}

} // verus!
