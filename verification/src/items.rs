//! Line breaks around list items: each `\item` starts its own line, and its
//! body starts on the line after its declaration.

use vstd::prelude::*;

use crate::edits::{edits_fit, edits_view, lemma_skipped_range_in_text, lemma_splice_keeps, overlapping, splice, splice_exec, EditSpec, TextEdit};
use crate::lines::{detected_ending, detected_line_ending};
use crate::metadata::{field_node, span};
use crate::names::{find_from, find_from_exec};
use crate::options::WriterOptions;
use crate::skip::{skip_regions, SkipRegions};
use crate::syntax::{ByteMap, SyntaxNode};
use crate::text::{all_pad, Pad};
use crate::tree::{end_of, field_child, fits, lemma_child_fits, lemma_fits, start_of};

verus! {

/// The index where the line holding index `i` starts.
pub open spec fn line_start(s: Seq<char>, i: int) -> int
    decreases i,
{
    if i <= 0 || i > s.len() {
        if i > s.len() {
            line_start(s, s.len() as int)
        } else {
            0
        }
    } else if s[i - 1] == '\n' {
        i
    } else {
        line_start(s, i - 1)
    }
}

/// The index of the line feed that ends the line holding index `i`, or the end.
pub open spec fn line_end(s: Seq<char>, i: int) -> int {
    find_from(s, '\n', i)
}

pub proof fn lemma_line_start(s: Seq<char>, i: int)
    requires
        0 <= i <= s.len(),
    ensures
        0 <= line_start(s, i) <= i,
    decreases i,
{
    if i > 0 && s[i - 1] != '\n' {
        lemma_line_start(s, i - 1);
    }
}

pub fn line_start_exec(s: &[char], i: usize) -> (r: usize)
    requires
        i <= s@.len(),
    ensures
        r == line_start(s@, i as int),
        r <= i,
{
    let mut k = i;
    while k > 0 && s[k - 1] != '\n'
        invariant
            k <= i <= s@.len(),
            line_start(s@, k as int) == line_start(s@, i as int),
        decreases k,
    {
        k = k - 1;
    }
    k
}

/// Text other than spaces, tabs and carriage returns.
pub open spec fn has_text(t: Seq<char>) -> bool {
    !all_pad(t, Pad::BlankCr)
}

pub fn has_text_exec(t: &[char]) -> (r: bool)
    ensures
        r == has_text(t@),
{
    let mut k: usize = 0;
    while k < t.len()
        invariant
            k <= t@.len(),
            forall|j: int| 0 <= j < k ==> crate::text::in_pad(#[trigger] t@[j], Pad::BlankCr),
        decreases t@.len() - k,
    {
        if !crate::text::is_pad(t[k], Pad::BlankCr) {
            return true;
        }
        k = k + 1;
    }
    false
}

/// Where an item node asks for line breaks: before its `\item` when text
/// precedes it on its line, and after its declaration when text follows.
pub open spec fn item_own_breaks(s: Seq<char>, opts: WriterOptions, n: SyntaxNode) -> Seq<int> {
    if n.kind@ == "enum_item"@ {
        match field_child(n, "command"@) {
            Some(command) => {
                let cs = start_of(s, command);
                let before: Seq<int> = if opts.item_starts_on_own_line && has_text(
                    s.subrange(line_start(s, cs), cs),
                ) {
                    seq![cs]
                } else {
                    seq![]
                };
                let declaration = match field_child(n, "label"@) {
                    Some(l) => l,
                    None => command,
                };
                let de = end_of(s, declaration);
                let after: Seq<int> = if opts.item_finishes_with_line_break && has_text(
                    s.subrange(de, line_end(s, de)),
                ) {
                    seq![de]
                } else {
                    seq![]
                };
                before + after
            },
            None => seq![],
        }
    } else {
        seq![]
    }
}

/// The item line breaks of a node and its descendants, in document order.
pub open spec fn item_breaks(s: Seq<char>, opts: WriterOptions, n: SyntaxNode) -> Seq<int>
    decreases n,
{
    item_own_breaks(s, opts, n) + item_breaks_children(s, opts, n, n.children@.len() as int)
}

pub open spec fn item_breaks_children(s: Seq<char>, opts: WriterOptions, n: SyntaxNode, k: int) -> Seq<int>
    decreases n, k,
{
    if k <= 0 || k > n.children@.len() {
        seq![]
    } else {
        item_breaks_children(s, opts, n, k - 1) + item_breaks(s, opts, n.children@[k - 1])
    }
}

/// Whether offset `o` lies inside one of the ranges `skip`.
pub open spec fn inside(o: int, skip: Seq<(int, int)>) -> bool {
    exists|k: int| 0 <= k < skip.len() && (#[trigger] skip[k]).0 <= o < skip[k].1
}

/// Offsets outside the ranges `skip`.
pub open spec fn unskipped(offs: Seq<int>, skip: Seq<(int, int)>) -> Seq<int>
    decreases offs.len(),
{
    if offs.len() == 0 {
        seq![]
    } else {
        let o = offs.last();
        let prev = unskipped(offs.drop_last(), skip);
        if inside(o, skip) {
            prev
        } else {
            prev.push(o)
        }
    }
}

/// Inserts `x` into a strictly increasing sequence, unless it is there.
pub open spec fn insert_unique(sorted: Seq<int>, x: int) -> Seq<int>
    decreases sorted.len(),
{
    if sorted.len() == 0 {
        seq![x]
    } else if sorted.last() < x {
        sorted.push(x)
    } else if sorted.last() == x {
        sorted
    } else {
        insert_unique(sorted.drop_last(), x).push(sorted.last())
    }
}

/// The distinct offsets, in increasing order.
pub open spec fn sort_unique(offs: Seq<int>) -> Seq<int>
    decreases offs.len(),
{
    if offs.len() == 0 {
        seq![]
    } else {
        insert_unique(sort_unique(offs.drop_last()), offs.last())
    }
}

/// Inserting `text` at each offset.
pub open spec fn insertions(offs: Seq<int>, text: Seq<char>) -> Seq<EditSpec> {
    offs.map_values(|o: int| (o, o, text))
}

/// The item pass: a line ending inserted at each distinct item break outside
/// skipped regions.
pub open spec fn item_pass(s: Seq<char>, opts: WriterOptions, root: SyntaxNode) -> Seq<char> {
    if !opts.item_starts_on_own_line && !opts.item_finishes_with_line_break {
        s
    } else {
        let offs = sort_unique(unskipped(item_breaks(s, opts, root), skip_regions(s).0));
        splice(s, insertions(offs, detected_ending(s)))
    }
}

pub open spec fn in_text(n: int, offs: Seq<int>) -> bool {
    forall|i: int| 0 <= i < offs.len() ==> 0 <= #[trigger] offs[i] <= n
}

pub open spec fn increasing(offs: Seq<int>) -> bool {
    forall|i: int, j: int| 0 <= i < j < offs.len() ==> offs[i] < offs[j]
}

proof fn lemma_insert_unique(sorted: Seq<int>, x: int, n: int)
    requires
        increasing(sorted),
        in_text(n, sorted),
        0 <= x <= n,
    ensures
        increasing(insert_unique(sorted, x)),
        in_text(n, insert_unique(sorted, x)),
        forall|y: int| insert_unique(sorted, x).contains(y) ==> y == x || sorted.contains(y),
    decreases sorted.len(),
{
    if sorted.len() > 0 && sorted.last() > x {
        let d = sorted.drop_last();
        assert(increasing(d));
        assert(in_text(n, d));
        lemma_insert_unique(d, x, n);
        let r = insert_unique(d, x);
        assert forall|y: int| r.contains(y) implies y < sorted.last() by {
            if y != x {
                assert(d.contains(y));
                let k = choose|k: int| 0 <= k < d.len() && d[k] == y;
                assert(sorted[k] < sorted[sorted.len() - 1]);
            }
        }
        assert forall|i: int, j: int| 0 <= i < j < r.push(sorted.last()).len() implies r.push(
            sorted.last(),
        )[i] < r.push(sorted.last())[j] by {
            if j == r.len() {
                assert(r.contains(r[i]));
            }
        }
        assert forall|y: int| r.push(sorted.last()).contains(y) implies y == x || sorted.contains(y) by {
            if y == sorted.last() {
                assert(sorted[sorted.len() - 1] == y);
            } else {
                let q = choose|q: int| 0 <= q < r.push(sorted.last()).len() && r.push(sorted.last())[q] == y;
                assert(q < r.len());
                assert(r[q] == y);
                assert(r.contains(y));
                if y != x {
                    assert(d.contains(y));
                    let k = choose|k: int| 0 <= k < d.len() && d[k] == y;
                    assert(sorted[k] == y);
                }
            }
        }
    } else if sorted.len() > 0 && sorted.last() < x {
        assert forall|y: int| sorted.push(x).contains(y) implies y == x || sorted.contains(y) by {
            if y != x {
                let k = choose|k: int| 0 <= k < sorted.push(x).len() && sorted.push(x)[k] == y;
                assert(sorted[k] == y);
            }
        }
    }
}

proof fn lemma_sort_unique(offs: Seq<int>, n: int)
    requires
        in_text(n, offs),
    ensures
        increasing(sort_unique(offs)),
        in_text(n, sort_unique(offs)),
    decreases offs.len(),
{
    if offs.len() > 0 {
        assert(in_text(n, offs.drop_last()));
        lemma_sort_unique(offs.drop_last(), n);
        lemma_insert_unique(sort_unique(offs.drop_last()), offs.last(), n);
    }
}

proof fn lemma_unskipped(offs: Seq<int>, skip: Seq<(int, int)>, n: int)
    requires
        in_text(n, offs),
    ensures
        in_text(n, unskipped(offs, skip)),
    decreases offs.len(),
{
    if offs.len() > 0 {
        assert(in_text(n, offs.drop_last()));
        lemma_unskipped(offs.drop_last(), skip, n);
    }
}

proof fn lemma_insertions(offs: Seq<int>, text: Seq<char>, n: int)
    requires
        increasing(offs),
        in_text(n, offs),
    ensures
        edits_fit(n, insertions(offs, text)),
        !overlapping(insertions(offs, text)),
{
    let es = insertions(offs, text);
    assert forall|i: int| 0 <= i < es.len() - 1 implies !((#[trigger] es[i]).1 > es[i + 1].0) by {
        assert(offs[i] < offs[i + 1]);
    }
}

proof fn lemma_item_breaks(s: Seq<char>, opts: WriterOptions, n: SyntaxNode)
    requires
        fits(s, n),
    ensures
        in_text(s.len() as int, item_breaks(s, opts, n)),
    decreases n,
{
    lemma_own_breaks(s, opts, n);
    lemma_item_breaks_children(s, opts, n, n.children@.len() as int);
}

proof fn lemma_item_breaks_children(s: Seq<char>, opts: WriterOptions, n: SyntaxNode, k: int)
    requires
        fits(s, n),
    ensures
        in_text(s.len() as int, item_breaks_children(s, opts, n, k)),
    decreases n, k,
{
    if 0 < k <= n.children@.len() {
        lemma_item_breaks_children(s, opts, n, k - 1);
        lemma_child_fits(s, n, k - 1);
        lemma_item_breaks(s, opts, n.children@[k - 1]);
    }
}

proof fn lemma_own_breaks(s: Seq<char>, opts: WriterOptions, n: SyntaxNode)
    requires
        fits(s, n),
    ensures
        in_text(s.len() as int, item_own_breaks(s, opts, n)),
{
    crate::tree::lemma_field_from(n, "command"@, 0);
    crate::tree::lemma_field_from(n, "label"@, 0);
    if let Some(k) = crate::tree::field_from(n, "command"@, 0) {
        lemma_child_fits(s, n, k);
        lemma_fits(s, n.children@[k]);
    }
    if let Some(k) = crate::tree::field_from(n, "label"@, 0) {
        lemma_child_fits(s, n, k);
        lemma_fits(s, n.children@[k]);
    }
}


pub open spec fn offsets_view(v: Seq<usize>) -> Seq<int> {
    v.map_values(|o: usize| o as int)
}

fn push_offset(v: &mut Vec<usize>, o: usize)
    ensures
        offsets_view(final(v)@) == offsets_view(old(v)@).push(o as int),
{
    v.push(o);
    assert(offsets_view(v@) =~= offsets_view(old(v)@).push(o as int));
}

fn collect_item_breaks(s: &[char], map: &ByteMap, opts: &WriterOptions, n: &SyntaxNode, breaks: &mut Vec<usize>)
    requires
        fits(s@, *n),
        map.of(s@),
    ensures
        offsets_view(final(breaks)@) == offsets_view(old(breaks)@) + item_breaks(s@, *opts, *n),
    decreases n,
{
    let ghost b0 = offsets_view(breaks@);
    let kind = crate::text::chars_of(n.kind.as_str());
    if crate::text::text_is(kind.as_slice(), "enum_item") {
        match field_node(s, n, "command") {
            Some(command) => {
                let (cs, _) = span(s, map, command);
                if opts.item_starts_on_own_line {
                    let ls = line_start_exec(s, cs);
                    if has_text_exec(&s[ls..cs]) {
                        push_offset(breaks, cs);
                    }
                }
                let declaration = match field_node(s, n, "label") {
                    Some(l) => l,
                    None => command,
                };
                let (_, de) = span(s, map, declaration);
                if opts.item_finishes_with_line_break {
                    let le = find_from_exec(s, '\n', de);
                    if has_text_exec(&s[de..le]) {
                        push_offset(breaks, de);
                    }
                }
                proof {
                    assert(offsets_view(breaks@) =~= b0 + item_own_breaks(s@, *opts, *n));
                }
            },
            None => {},
        }
    }
    assert(offsets_view(breaks@) =~= b0 + item_own_breaks(s@, *opts, *n));
    let ghost b1 = offsets_view(breaks@);
    let mut k: usize = 0;
    while k < n.children.len()
        invariant
            fits(s@, *n),
            map.of(s@),
            k <= n.children@.len(),
            offsets_view(breaks@) == b1 + item_breaks_children(s@, *opts, *n, k as int),
        decreases n.children@.len() - k,
    {
        proof {
            lemma_child_fits(s@, *n, k as int);
        }
        assert(decreases_to!(n => n.children@[k as int]));
        collect_item_breaks(s, map, opts, &n.children[k], breaks);
        k = k + 1;
        assert(offsets_view(breaks@) =~= b1 + item_breaks_children(s@, *opts, *n, k as int));
    }
}

fn sort_unique_offsets(v: &Vec<usize>) -> (r: Vec<usize>)
    ensures
        offsets_view(r@) == sort_unique(offsets_view(v@)),
{
    let ghost all = offsets_view(v@);
    let mut sorted: Vec<usize> = Vec::new();
    let mut i: usize = 0;
    while i < v.len()
        invariant
            i <= v@.len(),
            all == offsets_view(v@),
            offsets_view(sorted@) == sort_unique(all.subrange(0, i as int)),
        decreases v@.len() - i,
    {
        let x = v[i];
        proof {
            assert(all.subrange(0, i + 1).drop_last() =~= all.subrange(0, i as int));
            assert(all.subrange(0, i + 1).last() == x as int);
        }
        let ghost sv = offsets_view(sorted@);
        let mut p = sorted.len();
        assert(sv.take(sorted@.len() as int) =~= sv);
        assert(sv.subrange(sorted@.len() as int, sv.len() as int) =~= Seq::<int>::empty());
        while p > 0 && sorted[p - 1] > x
            invariant
                p <= sorted@.len(),
                sv == offsets_view(sorted@),
                insert_unique(sv, x as int) == insert_unique(sv.take(p as int), x as int) + sv.subrange(p as int, sv.len() as int),
            decreases p,
        {
            let ghost t = sv.take(p as int);
            assert(t.drop_last() =~= sv.take(p - 1));
            assert(t.last() == sv[p - 1]);
            assert(sv.subrange(p - 1, sv.len() as int) =~= seq![sv[p - 1]] + sv.subrange(p as int, sv.len() as int));
            assert(insert_unique(sv.take(p - 1), x as int).push(sv[p - 1]) + sv.subrange(p as int, sv.len() as int) =~= insert_unique(sv.take(p - 1), x as int) + sv.subrange(p - 1, sv.len() as int));
            p = p - 1;
        }
        let ghost t = sv.take(p as int);
        if p > 0 && sorted[p - 1] == x {
            proof {
                assert(t.last() == sv[p - 1]);
                assert(t + sv.subrange(p as int, sv.len() as int) =~= sv);
            }
        } else {
            proof {
                if p > 0 {
                    assert(t.last() == sv[p - 1]);
                } else {
                    assert(t =~= Seq::<int>::empty());
                }
            }
            sorted.insert(p, x);
            proof {
                assert(offsets_view(sorted@) =~= t.push(x as int) + sv.subrange(p as int, sv.len() as int));
            }
        }
        i = i + 1;
    }
    assert(all.subrange(0, v@.len() as int) =~= all);
    sorted
}

/// The item pass over `s`, whose syntax tree is `root`.
pub fn apply_item_line_breaks(s: &[char], map: &ByteMap, root: &SyntaxNode, opts: &WriterOptions) -> (r: Vec<char>)
    requires
        fits(s@, *root),
        map.of(s@),
    ensures
        r@ == item_pass(s@, *opts, *root),
{
    if !opts.item_starts_on_own_line && !opts.item_finishes_with_line_break {
        return vstd::slice::slice_to_vec(s);
    }
    let mut breaks: Vec<usize> = Vec::new();
    collect_item_breaks(s, map, opts, root, &mut breaks);
    assert(offsets_view(breaks@) =~= item_breaks(s@, *opts, *root));
    let skipped = SkipRegions::new(s);
    let mut kept: Vec<usize> = Vec::new();
    let mut i: usize = 0;
    let ghost all = offsets_view(breaks@);
    while i < breaks.len()
        invariant
            i <= breaks@.len(),
            all == offsets_view(breaks@),
            skipped.of(s@),
            offsets_view(kept@) == unskipped(all.subrange(0, i as int), skipped.range_view()),
        decreases breaks@.len() - i,
    {
        let o = breaks[i];
        proof {
            assert(all.subrange(0, i + 1).drop_last() =~= all.subrange(0, i as int));
            assert(all.subrange(0, i + 1).last() == o as int);
        }
        if !skipped.contains_offset(o) {
            push_offset(&mut kept, o);
        }
        i = i + 1;
    }
    assert(all.subrange(0, breaks@.len() as int) =~= all);
    let sorted = sort_unique_offsets(&kept);
    let le = detected_line_ending(s);
    let mut edits: Vec<TextEdit> = Vec::new();
    let mut k: usize = 0;
    let ghost offs = offsets_view(sorted@);
    while k < sorted.len()
        invariant
            k <= sorted@.len(),
            offs == offsets_view(sorted@),
            edits@.len() == k,
            edits_view(edits@) == insertions(offs, le@).take(k as int),
        decreases sorted@.len() - k,
    {
        let mut text: Vec<char> = Vec::new();
        crate::text::push_all(&mut text, le.as_slice());
        assert(text@ =~= le@);
        edits.push(TextEdit { start: sorted[k], end: sorted[k], text });
        proof {
            assert(offs.len() == sorted@.len());
            assert(insertions(offs, le@).len() == offs.len());
            assert(edits@.len() == k + 1);
            assert(offs[k as int] == sorted@[k as int] as int);
            assert(insertions(offs, le@)[k as int] == (offs[k as int], offs[k as int], le@));
            assert(edits_view(edits@)[k as int] == edits@[k as int].view());
            assert(edits_view(edits@) =~= insertions(offs, le@).take(k + 1));
        }
        k = k + 1;
    }
    proof {
        assert(insertions(offs, le@).take(sorted@.len() as int) =~= insertions(offs, le@));
        lemma_item_breaks(s@, *opts, *root);
        lemma_unskipped(item_breaks(s@, *opts, *root), skip_regions(s@).0, s@.len() as int);
        lemma_sort_unique(unskipped(item_breaks(s@, *opts, *root), skip_regions(s@).0), s@.len() as int);
        lemma_insertions(offs, le@, s@.len() as int);
    }
    splice_exec(s, &edits)
}



proof fn lemma_unskipped_outside(offs: Seq<int>, skip: Seq<(int, int)>)
    ensures
        forall|i: int| 0 <= i < unskipped(offs, skip).len() ==> !inside(#[trigger] unskipped(offs, skip)[i], skip),
    decreases offs.len(),
{
    if offs.len() > 0 {
        lemma_unskipped_outside(offs.drop_last(), skip);
        let prev = unskipped(offs.drop_last(), skip);
        let o = offs.last();
        if !inside(o, skip) {
            assert forall|i: int| 0 <= i < prev.push(o).len() implies !inside(#[trigger] prev.push(o)[i], skip) by {
                if i < prev.len() {
                    assert(prev.push(o)[i] == prev[i]);
                }
            }
        }
    }
}

proof fn lemma_sort_unique_from(offs: Seq<int>)
    ensures
        forall|y: int| sort_unique(offs).contains(y) ==> offs.contains(y),
    decreases offs.len(),
{
    if offs.len() > 0 {
        let d = offs.drop_last();
        lemma_sort_unique_from(d);
        let sd = sort_unique(d);
        let x = offs.last();
        lemma_insert_unique_from(sd, x);
        assert forall|y: int| sort_unique(offs).contains(y) implies offs.contains(y) by {
            if y == x {
                assert(offs[offs.len() - 1] == y);
            } else {
                assert(sd.contains(y));
                assert(d.contains(y));
                let q = choose|q: int| 0 <= q < d.len() && d[q] == y;
                assert(offs[q] == y);
            }
        }
    }
}

proof fn lemma_insert_unique_from(sorted: Seq<int>, x: int)
    ensures
        forall|y: int| insert_unique(sorted, x).contains(y) ==> y == x || sorted.contains(y),
    decreases sorted.len(),
{
    if sorted.len() > 0 && sorted.last() > x {
        let d = sorted.drop_last();
        lemma_insert_unique_from(d, x);
        let r = insert_unique(d, x);
        assert forall|y: int| r.push(sorted.last()).contains(y) implies y == x || sorted.contains(y) by {
            let q = choose|q: int| 0 <= q < r.push(sorted.last()).len() && r.push(sorted.last())[q] == y;
            if q == r.len() {
                assert(sorted[sorted.len() - 1] == y);
            } else {
                assert(r[q] == y);
                assert(r.contains(y));
                if y != x {
                    assert(d.contains(y));
                    let k = choose|k: int| 0 <= k < d.len() && d[k] == y;
                    assert(sorted[k] == y);
                }
            }
        }
    } else if sorted.len() > 0 && sorted.last() < x {
        assert forall|y: int| sorted.push(x).contains(y) implies y == x || sorted.contains(y) by {
            let q = choose|q: int| 0 <= q < sorted.push(x).len() && sorted.push(x)[q] == y;
            if q < sorted.len() {
                assert(sorted[q] == y);
            }
        }
    } else if sorted.len() == 0 {
        assert forall|y: int| seq![x].contains(y) implies y == x || sorted.contains(y) by {
            let q = choose|q: int| 0 <= q < 1 && seq![x][q] == y;
        }
    }
}

/// The item pass leaves skipped regions alone: every line break it inserts
/// lies outside the regions between the directives, and the breaks are
/// distinct and in increasing order.
pub proof fn item_breaks_avoid_skipped_regions(s: Seq<char>, opts: WriterOptions, root: SyntaxNode)
    requires
        fits(s, root),
    ensures
        ({
            let offs = sort_unique(unskipped(item_breaks(s, opts, root), skip_regions(s).0));
            &&& increasing(offs)
            &&& forall|i: int| 0 <= i < offs.len() ==> !inside(#[trigger] offs[i], skip_regions(s).0)
        }),
{
    let skip = skip_regions(s).0;
    let kept = unskipped(item_breaks(s, opts, root), skip);
    let offs = sort_unique(kept);
    lemma_item_breaks(s, opts, root);
    lemma_unskipped(item_breaks(s, opts, root), skip, s.len() as int);
    lemma_sort_unique(kept, s.len() as int);
    lemma_unskipped_outside(item_breaks(s, opts, root), skip);
    lemma_sort_unique_from(kept);
    assert forall|i: int| 0 <= i < offs.len() implies !inside(#[trigger] offs[i], skip) by {
        assert(offs.contains(offs[i]));
        assert(kept.contains(offs[i]));
        let q = choose|q: int| 0 <= q < kept.len() && kept[q] == offs[i];
        assert(!inside(kept[q], skip));
    }
}

/// The item pass keeps each skipped range: the text of that run of skipped
/// lines stands in the result as one piece.
pub proof fn item_pass_keeps_skipped_text(s: Seq<char>, opts: WriterOptions, root: SyntaxNode, q: int)
    requires
        fits(s, root),
        0 <= q < skip_regions(s).0.len(),
    ensures
        exists|a: Seq<char>, b: Seq<char>|
            item_pass(s, opts, root) == a + s.subrange(skip_regions(s).0[q].0, skip_regions(s).0[q].1) + b,
{
    let skip = skip_regions(s).0;
    let r = skip[q];
    lemma_skipped_range_in_text(s, q);
    if !opts.item_starts_on_own_line && !opts.item_finishes_with_line_break {
        assert(s =~= s.subrange(0, r.0) + s.subrange(r.0, r.1) + s.subrange(r.1, s.len() as int));
    } else {
        let kept = unskipped(item_breaks(s, opts, root), skip);
        let offs = sort_unique(kept);
        lemma_item_breaks(s, opts, root);
        lemma_unskipped(item_breaks(s, opts, root), skip, s.len() as int);
        lemma_sort_unique(kept, s.len() as int);
        item_breaks_avoid_skipped_regions(s, opts, root);
        let es = insertions(offs, crate::lines::detected_ending(s));
        lemma_insertions(offs, crate::lines::detected_ending(s), s.len() as int);
        assert forall|i: int| 0 <= i < es.len() implies !(#[trigger] es[i].0 < r.1 && r.0 < es[i].1) by {
            assert(es[i].0 == offs[i]);
            assert(!inside(offs[i], skip));
            if es[i].0 < r.1 && r.0 < es[i].1 {
                assert(skip[q].0 <= offs[i] < skip[q].1);
            }
        }
        lemma_splice_keeps(s, es, r);
    }
}

} // verus!
