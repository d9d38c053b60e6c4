//! Line layout of displayed formulas: a formula laid out as a block puts its
//! delimiters and its content on lines of their own.

use vstd::prelude::*;

use crate::edits::{applied, applied_keeps_skipped_text, apply_edits, avoids, edits_fit, edits_view, lemma_avoids_concat, lemma_skipped_range_in_text, EditSpec, TextEdit};
use crate::items::{has_text, has_text_exec, line_end, line_start, line_start_exec};
use crate::lines::{detected_ending, detected_line_ending};
use crate::metadata::span;
use crate::names::{find_from, find_from_exec, lemma_find_from};
use crate::options::{DisplayMathLayout, WriterOptions};
use crate::skip::{overlaps_spec, skip_regions, SkipRegions};
use crate::syntax::{ByteMap, SyntaxNode};
use crate::text::{has_at, matches_at, push_all, push_range, rskip_pad_exec, skip_pad_exec, trim, Pad};
use crate::tree::{end_of, fits, lemma_child_fits, lemma_fits, row_of, start_of, Rows};

verus! {

/// The displayed formulas of a node, outermost only, in document order: each
/// range with whether it sits on one row.
pub open spec fn display_formulas(s: Seq<char>, n: SyntaxNode) -> Seq<(int, int, bool)>
    decreases n,
{
    if n.kind@ == "displayed_equation"@ {
        seq![(start_of(s, n), end_of(s, n), row_of(s, start_of(s, n)) == row_of(s, end_of(s, n)))]
    } else {
        display_children(s, n, n.children@.len() as int)
    }
}

pub open spec fn display_children(s: Seq<char>, n: SyntaxNode, k: int) -> Seq<(int, int, bool)>
    decreases n, k,
{
    if k <= 0 || k > n.children@.len() {
        seq![]
    } else {
        display_children(s, n, k - 1) + display_formulas(s, n.children@[k - 1])
    }
}

/// A formula text with `$$` or `\[` at its start and `$$` or `\]` at its end.
pub open spec fn display_delimited(t: Seq<char>) -> bool {
    (has_at(t, 0, "$$"@) || has_at(t, 0, "\\["@)) && (has_at(t, t.len() - 2, "$$"@) || has_at(
        t,
        t.len() - 2,
        "\\]"@,
    ))
}

/// The block layout of the formula `a..b`: its delimiters and its trimmed
/// content on lines of their own, with a line break before when text precedes
/// it on its line and after when text follows.
pub open spec fn display_block(s: Seq<char>, a: int, b: int, le: Seq<char>) -> Seq<char> {
    let t = s.subrange(a, b);
    let content = trim(t.subrange(2, t.len() - 2), Pad::Layout);
    (if has_text(s.subrange(line_start(s, a), a)) {
        le
    } else {
        seq![]
    }) + t.subrange(0, 2) + le + (if content.len() > 0 {
        content + le
    } else {
        seq![]
    }) + t.subrange(t.len() - 2, t.len() as int) + (if has_text(s.subrange(b, line_end(s, b))) {
        le
    } else {
        seq![]
    })
}

/// The layout edits of the first `k` formulas.
pub open spec fn display_edits(
    s: Seq<char>,
    opts: WriterOptions,
    fs: Seq<(int, int, bool)>,
    skip: Seq<(int, int)>,
    le: Seq<char>,
    k: int,
) -> Seq<EditSpec>
    decreases k,
{
    if k <= 0 {
        seq![]
    } else {
        let f = fs[k - 1];
        let prev = display_edits(s, opts, fs, skip, le, k - 1);
        let t = s.subrange(f.0, f.1);
        if overlaps_spec((f.0, f.1), skip) || (opts.display_math_layout
            == DisplayMathLayout::Adaptive && f.2) || !display_delimited(t) || t.len() < 4 {
            prev
        } else {
            prev.push((f.0, f.1, display_block(s, f.0, f.1, le)))
        }
    }
}

/// The display layout pass: `None` when two of its edits overlap.
pub open spec fn display_pass(s: Seq<char>, opts: WriterOptions, root: SyntaxNode) -> Option<Seq<char>> {
    if opts.display_math_layout == DisplayMathLayout::Preserve {
        Some(s)
    } else {
        let fs = display_formulas(s, root);
        applied(s, display_edits(s, opts, fs, skip_regions(s).0, detected_ending(s), fs.len() as int))
    }
}

pub open spec fn formulas_fit(n: int, fs: Seq<(int, int, bool)>) -> bool {
    forall|i: int| 0 <= i < fs.len() ==> 0 <= (#[trigger] fs[i]).0 <= fs[i].1 <= n
}

fn collect_display_formulas(
    s: &[char],
    map: &ByteMap,
    rows: &Rows,
    n: &SyntaxNode,
    out: &mut Vec<(usize, usize, bool)>,
)
    requires
        fits(s@, *n),
        map.of(s@),
        rows.of(s@),
        formulas_fit(s@.len() as int, old(out)@.map_values(|f: (usize, usize, bool)| (f.0 as int, f.1 as int, f.2))),
    ensures
        final(out)@.map_values(|f: (usize, usize, bool)| (f.0 as int, f.1 as int, f.2)) == old(out)@.map_values(
            |f: (usize, usize, bool)| (f.0 as int, f.1 as int, f.2),
        ) + display_formulas(s@, *n),
        formulas_fit(s@.len() as int, final(out)@.map_values(|f: (usize, usize, bool)| (f.0 as int, f.1 as int, f.2))),
    decreases n,
{
    let ghost o0 = out@.map_values(|f: (usize, usize, bool)| (f.0 as int, f.1 as int, f.2));
    let kind = crate::text::chars_of(n.kind.as_str());
    if crate::text::text_is(kind.as_slice(), "displayed_equation") {
        let (a, b) = span(s, map, n);
        let single = rows.row(a) == rows.row(b);
        out.push((a, b, single));
        assert(out@.map_values(|f: (usize, usize, bool)| (f.0 as int, f.1 as int, f.2)) =~= o0 + display_formulas(s@, *n));
        return;
    }
    let mut k: usize = 0;
    while k < n.children.len()
        invariant
            fits(s@, *n),
            map.of(s@),
            rows.of(s@),
            k <= n.children@.len(),
            n.kind@ != "displayed_equation"@,
            out@.map_values(|f: (usize, usize, bool)| (f.0 as int, f.1 as int, f.2)) == o0 + display_children(s@, *n, k as int),
            formulas_fit(s@.len() as int, out@.map_values(|f: (usize, usize, bool)| (f.0 as int, f.1 as int, f.2))),
        decreases n.children@.len() - k,
    {
        proof {
            lemma_child_fits(s@, *n, k as int);
        }
        assert(decreases_to!(n => n.children@[k as int]));
        collect_display_formulas(s, map, rows, &n.children[k], out);
        k = k + 1;
        assert(out@.map_values(|f: (usize, usize, bool)| (f.0 as int, f.1 as int, f.2)) =~= o0 + display_children(s@, *n, k as int));
    }
}

fn display_block_exec(s: &[char], a: usize, b: usize, le: &Vec<char>) -> (r: Vec<char>)
    requires
        a <= b <= s@.len(),
        b - a >= 4,
    ensures
        r@ == display_block(s@, a as int, b as int, le@),
{
    let t = &s[a..b];
    assert(t@ == s@.subrange(a as int, b as int));
    let inner = &t[2..t.len() - 2];
    let i0 = skip_pad_exec(inner, 0, Pad::Layout);
    let ts = &inner[i0..inner.len()];
    let e = rskip_pad_exec(ts, ts.len(), Pad::Layout);
    let content = &ts[0..e];
    assert(content@ == trim(inner@, Pad::Layout));
    let mut out: Vec<char> = Vec::new();
    let ls = line_start_exec(s, a);
    if has_text_exec(&s[ls..a]) {
        push_all(&mut out, le.as_slice());
    }
    push_range(&mut out, t, 0, 2);
    push_all(&mut out, le.as_slice());
    if content.len() > 0 {
        push_all(&mut out, content);
        push_all(&mut out, le.as_slice());
    }
    push_range(&mut out, t, t.len() - 2, t.len());
    let lend = find_from_exec(s, '\n', b);
    if has_text_exec(&s[b..lend]) {
        push_all(&mut out, le.as_slice());
    }
    out
}

/// The display layout pass over `s`, whose syntax tree is `root`.
pub fn apply_display_math_layout(s: &[char], map: &ByteMap, root: &SyntaxNode, opts: &WriterOptions) -> (r: Option<Vec<char>>)
    requires
        fits(s@, *root),
        map.of(s@),
    ensures
        match r {
            Some(t) => display_pass(s@, *opts, *root) == Some(t@),
            None => display_pass(s@, *opts, *root) is None,
        },
{
    if opts.display_math_layout == DisplayMathLayout::Preserve {
        return Some(vstd::slice::slice_to_vec(s));
    }
    let rows = Rows::new(s);
    let mut formulas: Vec<(usize, usize, bool)> = Vec::new();
    assert(formulas@.map_values(|f: (usize, usize, bool)| (f.0 as int, f.1 as int, f.2)) =~= Seq::<(int, int, bool)>::empty());
    collect_display_formulas(s, map, &rows, root, &mut formulas);
    let ghost fs = display_formulas(s@, *root);
    assert(formulas@.map_values(|f: (usize, usize, bool)| (f.0 as int, f.1 as int, f.2)) =~= fs);
    let skipped = SkipRegions::new(s);
    let le = detected_line_ending(s);
    let ghost sk = skipped.range_view();
    let mut edits: Vec<TextEdit> = Vec::new();
    let mut k: usize = 0;
    while k < formulas.len()
        invariant
            k <= formulas@.len(),
            fs == formulas@.map_values(|f: (usize, usize, bool)| (f.0 as int, f.1 as int, f.2)),
            formulas_fit(s@.len() as int, fs),
            sk == skipped.range_view(),
            sk == skip_regions(s@).0,
            le@ == detected_ending(s@),
            edits_fit(s@.len() as int, edits_view(edits@)),
            edits_view(edits@) == display_edits(s@, *opts, fs, sk, le@, k as int),
        decreases formulas@.len() - k,
    {
        let (a, b, single) = formulas[k];
        assert(fs[k as int] == (a as int, b as int, single));
        assert(0 <= a <= b <= s@.len());
        let t = &s[a..b];
        assert(t@ == s@.subrange(a as int, b as int));
        let tl = t.len();
        let delimited = tl >= 2 && (matches_at(t, 0, "$$") || matches_at(t, 0, "\\[")) && (
        matches_at(t, tl - 2, "$$") || matches_at(t, tl - 2, "\\]"));
        proof {
            reveal_strlit("$$");
            reveal_strlit("\\[");
            reveal_strlit("\\]");
            assert(delimited == display_delimited(t@));
        }
        if !(skipped.overlaps((a, b)) || (opts.display_math_layout == DisplayMathLayout::Adaptive
            && single) || !delimited || tl < 4) {
            let block = display_block_exec(s, a, b, &le);
            let ghost e0 = edits_view(edits@);
            edits.push(TextEdit { start: a, end: b, text: block });
            assert(edits_view(edits@) =~= e0.push((a as int, b as int, block@)));
        }
        k = k + 1;
    }
    apply_edits(s, edits)
}


/// The display layout pass leaves skipped regions alone: none of its edits
/// reaches into a region between the directives.
pub proof fn display_edits_avoid_skipped_regions(
    s: Seq<char>,
    opts: WriterOptions,
    fs: Seq<(int, int, bool)>,
    le: Seq<char>,
    k: int,
)
    ensures
        avoids(display_edits(s, opts, fs, skip_regions(s).0, le, k), skip_regions(s).0),
    decreases k,
{
    let skip = skip_regions(s).0;
    if k > 0 {
        display_edits_avoid_skipped_regions(s, opts, fs, le, k - 1);
        let f = fs[k - 1];
        let prev = display_edits(s, opts, fs, skip, le, k - 1);
        let t = s.subrange(f.0, f.1);
        if !(overlaps_spec((f.0, f.1), skip) || (opts.display_math_layout == DisplayMathLayout::Adaptive
            && f.2) || !display_delimited(t) || t.len() < 4) {
            let one: Seq<EditSpec> = seq![(f.0, f.1, display_block(s, f.0, f.1, le))];
            assert(avoids(one, skip));
            lemma_avoids_concat(prev, one, skip);
            assert(prev + one =~= prev.push((f.0, f.1, display_block(s, f.0, f.1, le))));
        }
    }
}

proof fn lemma_display_formulas_fit(s: Seq<char>, n: SyntaxNode)
    requires
        fits(s, n),
    ensures
        formulas_fit(s.len() as int, display_formulas(s, n)),
    decreases n,
{
    lemma_fits(s, n);
    if n.kind@ != "displayed_equation"@ {
        lemma_display_children_fit(s, n, n.children@.len() as int);
    }
}

proof fn lemma_display_children_fit(s: Seq<char>, n: SyntaxNode, k: int)
    requires
        fits(s, n),
    ensures
        formulas_fit(s.len() as int, display_children(s, n, k)),
    decreases n, k,
{
    if 0 < k <= n.children@.len() {
        lemma_display_children_fit(s, n, k - 1);
        lemma_child_fits(s, n, k - 1);
        lemma_display_formulas_fit(s, n.children@[k - 1]);
        let a = display_children(s, n, k - 1);
        let b = display_formulas(s, n.children@[k - 1]);
        assert forall|i: int| 0 <= i < (a + b).len() implies 0 <= (#[trigger] (a + b)[i]).0 <= (a + b)[i].1 <= s.len() by {
            if i < a.len() {
                assert((a + b)[i] == a[i]);
            } else {
                assert((a + b)[i] == b[i - a.len()]);
            }
        }
    }
}

proof fn lemma_display_edits_fit(
    s: Seq<char>,
    opts: WriterOptions,
    fs: Seq<(int, int, bool)>,
    skip: Seq<(int, int)>,
    le: Seq<char>,
    k: int,
)
    requires
        formulas_fit(s.len() as int, fs),
        k <= fs.len(),
    ensures
        edits_fit(s.len() as int, display_edits(s, opts, fs, skip, le, k)),
    decreases k,
{
    if k > 0 {
        lemma_display_edits_fit(s, opts, fs, skip, le, k - 1);
    }
}

/// The display layout pass keeps each skipped range: the text of that run of
/// skipped lines stands in the result as one piece.
pub proof fn display_pass_keeps_skipped_text(s: Seq<char>, opts: WriterOptions, root: SyntaxNode, q: int)
    requires
        fits(s, root),
        0 <= q < skip_regions(s).0.len(),
        display_pass(s, opts, root) is Some,
    ensures
        exists|a: Seq<char>, b: Seq<char>|
            display_pass(s, opts, root)->Some_0 == a + s.subrange(skip_regions(s).0[q].0, skip_regions(s).0[q].1) + b,
{
    let r = skip_regions(s).0[q];
    lemma_skipped_range_in_text(s, q);
    if opts.display_math_layout == DisplayMathLayout::Preserve {
        assert(s =~= s.subrange(0, r.0) + s.subrange(r.0, r.1) + s.subrange(r.1, s.len() as int));
    } else {
        let fs = display_formulas(s, root);
        let le = detected_ending(s);
        lemma_display_formulas_fit(s, root);
        lemma_display_edits_fit(s, opts, fs, skip_regions(s).0, le, fs.len() as int);
        display_edits_avoid_skipped_regions(s, opts, fs, le, fs.len() as int);
        applied_keeps_skipped_text(s, display_edits(s, opts, fs, skip_regions(s).0, le, fs.len() as int), q);
    }
}

} // verus!
