//! Replacing ranges of a text: edits ordered by where they start, refused when
//! two of them overlap, and applied all at once.

use vstd::prelude::*;

use crate::lines::{lemma_lines_from, lemma_lines_ordered, lines};
use crate::skip::{lines_range, overlaps_spec, skip_regions, skipped_ranges_are_skipped_lines, spans_rows};
use crate::text::{push_all, push_range};

verus! {

/// Replace the characters `start..end` with `text`.
pub struct TextEdit {
    pub start: usize,
    pub end: usize,
    pub text: Vec<char>,
}

/// An edit as plain values: the range and its replacement.
pub type EditSpec = (int, int, Seq<char>);

impl TextEdit {
    pub open spec fn view(&self) -> EditSpec {
        (self.start as int, self.end as int, self.text@)
    }
}

pub open spec fn edits_view(es: Seq<TextEdit>) -> Seq<EditSpec> {
    es.map_values(|e: TextEdit| e.view())
}

/// Inserts `e` after every edit that starts at or before it.
pub open spec fn insert_by_start(sorted: Seq<EditSpec>, e: EditSpec) -> Seq<EditSpec>
    decreases sorted.len(),
{
    if sorted.len() == 0 {
        seq![e]
    } else if sorted.last().0 <= e.0 {
        sorted.push(e)
    } else {
        insert_by_start(sorted.drop_last(), e).push(sorted.last())
    }
}

/// The edits ordered by start; edits with equal starts keep their order.
pub open spec fn sort_by_start(es: Seq<EditSpec>) -> Seq<EditSpec>
    decreases es.len(),
{
    if es.len() == 0 {
        seq![]
    } else {
        insert_by_start(sort_by_start(es.drop_last()), es.last())
    }
}

/// Some edit ends after the next one starts.
pub open spec fn overlapping(es: Seq<EditSpec>) -> bool {
    exists|i: int| 0 <= i < es.len() - 1 && (#[trigger] es[i]).1 > es[i + 1].0
}

/// Every edit is a range of a text of length `n`.
pub open spec fn edits_fit(n: int, es: Seq<EditSpec>) -> bool {
    forall|i: int| 0 <= i < es.len() ==> 0 <= (#[trigger] es[i]).0 <= es[i].1 <= n
}

/// Where the text between edits resumes before edit `i`.
pub open spec fn prev_end(es: Seq<EditSpec>, i: int) -> int {
    if i <= 0 {
        0
    } else {
        es[i - 1].1
    }
}

pub open spec fn splice_upto(s: Seq<char>, es: Seq<EditSpec>, k: int) -> Seq<char>
    decreases k,
{
    if k <= 0 {
        seq![]
    } else {
        splice_upto(s, es, k - 1) + s.subrange(prev_end(es, k - 1), es[k - 1].0) + es[k - 1].2
    }
}

/// `s` with each edit's range replaced by its text; the edits in order and
/// apart.
pub open spec fn splice(s: Seq<char>, es: Seq<EditSpec>) -> Seq<char> {
    splice_upto(s, es, es.len() as int) + s.subrange(prev_end(es, es.len() as int), s.len() as int)
}

/// What applying the edits gives: `None` when two of them overlap once ordered.
pub open spec fn applied(s: Seq<char>, es: Seq<EditSpec>) -> Option<Seq<char>> {
    let sorted = sort_by_start(es);
    if overlapping(sorted) {
        None
    } else {
        Some(splice(s, sorted))
    }
}

pub open spec fn insert_pos(sorted: Seq<EditSpec>, x: int) -> int
    decreases sorted.len(),
{
    if sorted.len() == 0 {
        0
    } else if sorted.last().0 <= x {
        sorted.len() as int
    } else {
        insert_pos(sorted.drop_last(), x)
    }
}

proof fn lemma_insert_pos(sorted: Seq<EditSpec>, e: EditSpec)
    ensures
        0 <= insert_pos(sorted, e.0) <= sorted.len(),
        insert_by_start(sorted, e) == sorted.insert(insert_pos(sorted, e.0), e),
    decreases sorted.len(),
{
    if sorted.len() > 0 && sorted.last().0 > e.0 {
        lemma_insert_pos(sorted.drop_last(), e);
        let p = insert_pos(sorted.drop_last(), e.0);
        assert(sorted.drop_last().insert(p, e).push(sorted.last()) =~= sorted.insert(p, e));
    } else if sorted.len() > 0 {
        assert(sorted.push(e) =~= sorted.insert(sorted.len() as int, e));
    } else {
        assert(seq![e] =~= sorted.insert(0, e));
    }
}

proof fn lemma_insert_fits(n: int, sorted: Seq<EditSpec>, e: EditSpec)
    requires
        edits_fit(n, sorted),
        0 <= e.0 <= e.1 <= n,
    ensures
        edits_fit(n, insert_by_start(sorted, e)),
{
    lemma_insert_pos(sorted, e);
    let p = insert_pos(sorted, e.0);
    let r = sorted.insert(p, e);
    assert forall|i: int| 0 <= i < r.len() implies 0 <= (#[trigger] r[i]).0 <= r[i].1 <= n by {
        if i < p {
            assert(r[i] == sorted[i]);
        } else if i > p {
            assert(r[i] == sorted[i - 1]);
        }
    }
}

pub proof fn lemma_sort_fits(n: int, es: Seq<EditSpec>)
    requires
        edits_fit(n, es),
    ensures
        edits_fit(n, sort_by_start(es)),
        sort_by_start(es).len() == es.len(),
    decreases es.len(),
{
    if es.len() > 0 {
        assert(edits_fit(n, es.drop_last())) by {
            assert forall|i: int| 0 <= i < es.drop_last().len() implies 0 <= (
            #[trigger] es.drop_last()[i]).0 <= es.drop_last()[i].1 <= n by {
                assert(es.drop_last()[i] == es[i]);
            }
        }
        lemma_sort_fits(n, es.drop_last());
        assert(0 <= es[es.len() - 1].0 <= es[es.len() - 1].1 <= n);
        lemma_insert_fits(n, sort_by_start(es.drop_last()), es.last());
        lemma_insert_pos(sort_by_start(es.drop_last()), es.last());
    }
}

/// Orders the edits by start, keeping the order of edits with equal starts.
pub fn sort_edits(es: Vec<TextEdit>) -> (r: Vec<TextEdit>)
    ensures
        edits_view(r@) == sort_by_start(edits_view(es@)),
{
    let ghost all = edits_view(es@);
    let mut rest = es;
    let mut sorted: Vec<TextEdit> = Vec::new();
    let ghost mut done: int = 0;
    while rest.len() > 0
        invariant
            0 <= done <= all.len(),
            edits_view(rest@) == all.subrange(done, all.len() as int),
            edits_view(sorted@) == sort_by_start(all.subrange(0, done)),
        decreases rest@.len(),
    {
        let ghost r0 = rest@;
        proof {
            assert(edits_view(r0).len() == r0.len());
            assert(done < all.len());
            assert(edits_view(r0)[0] == all.subrange(done, all.len() as int)[0]);
            assert(edits_view(r0)[0] == all[done]);
        }
        let e = rest.remove(0);
        proof {
            assert(e == r0[0]);
            assert(e.view() == all[done]);
            assert(all.subrange(0, done + 1).drop_last() =~= all.subrange(0, done));
            assert(all.subrange(0, done + 1).last() == all[done]);
        }
        let ghost sv = edits_view(sorted@);
        let mut p = sorted.len();
        assert(sv.take(sorted@.len() as int) =~= sv);
        while p > 0 && sorted[p - 1].start > e.start
            invariant
                p <= sorted@.len(),
                sv == edits_view(sorted@),
                insert_pos(sv, e.start as int) == insert_pos(sv.take(p as int), e.start as int),
                sv.take(sorted@.len() as int) == sv,
            decreases p,
        {
            assert(sv.take(p as int).drop_last() =~= sv.take(p - 1));
            assert(sv.take(p as int).last() == sv[p - 1]);
            p = p - 1;
        }
        proof {
            if p > 0 {
                assert(sv.take(p as int).last() == sv[p - 1]);
            }
            lemma_insert_pos(sv, e.view());
        }
        sorted.insert(p, e);
        proof {
            assert(edits_view(sorted@) =~= sv.insert(p as int, e.view()));
            assert forall|i: int| 0 <= i < rest@.len() implies edits_view(rest@)[i] == all.subrange(
                done + 1,
                all.len() as int,
            )[i] by {
                assert(rest@[i] == r0[i + 1]);
                assert(edits_view(r0)[i + 1] == all.subrange(done, all.len() as int)[i + 1]);
            }
            assert(edits_view(rest@) =~= all.subrange(done + 1, all.len() as int));
            done = done + 1;
        }
    }
    assert(all.subrange(0, done) =~= all);
    sorted
}

/// Whether some edit ends after the next one starts.
pub fn any_overlap(es: &Vec<TextEdit>) -> (r: bool)
    ensures
        r == overlapping(edits_view(es@)),
{
    let ghost v = edits_view(es@);
    let mut i: usize = 0;
    while i < es.len() && i + 1 < es.len()
        invariant
            v == edits_view(es@),
            i <= es@.len(),
            forall|j: int| 0 <= j < i && j < es@.len() - 1 ==> !((#[trigger] v[j]).1 > v[j + 1].0),
        decreases es@.len() - i,
    {
        if es[i].end > es[i + 1].start {
            assert(v[i as int].1 > v[i + 1].0);
            return true;
        }
        i = i + 1;
    }
    false
}

/// `s` with the edits applied; they are in order and apart.
pub fn splice_exec(s: &[char], es: &Vec<TextEdit>) -> (r: Vec<char>)
    requires
        edits_fit(s@.len() as int, edits_view(es@)),
        !overlapping(edits_view(es@)),
    ensures
        r@ == splice(s@, edits_view(es@)),
{
    let ghost v = edits_view(es@);
    let mut out: Vec<char> = Vec::new();
    let mut pos: usize = 0;
    let mut k: usize = 0;
    while k < es.len()
        invariant
            v == edits_view(es@),
            edits_fit(s@.len() as int, v),
            !overlapping(v),
            k <= es@.len(),
            pos == prev_end(v, k as int),
            out@ == splice_upto(s@, v, k as int),
        decreases es@.len() - k,
    {
        let e = &es[k];
        proof {
            assert(0 <= v[k as int].0 <= v[k as int].1 <= s@.len());
            if k > 0 {
                assert(!(v[k - 1].1 > v[k - 1 + 1].0));
            }
        }
        push_range(&mut out, s, pos, e.start);
        push_all(&mut out, e.text.as_slice());
        pos = e.end;
        k = k + 1;
    }
    push_range(&mut out, s, pos, s.len());
    out
}

/// Applies the edits to `s`: ordered by start, or `None` when two overlap.
pub fn apply_edits(s: &[char], es: Vec<TextEdit>) -> (r: Option<Vec<char>>)
    requires
        edits_fit(s@.len() as int, edits_view(es@)),
    ensures
        match r {
            Some(t) => applied(s@, edits_view(es@)) == Some(t@),
            None => applied(s@, edits_view(es@)) is None,
        },
{
    proof {
        lemma_sort_fits(s@.len() as int, edits_view(es@));
    }
    let sorted = sort_edits(es);
    if any_overlap(&sorted) {
        return None;
    }
    Some(splice_exec(s, &sorted))
}


/// No edit reaches into any of the ranges `skip`.
pub open spec fn avoids(es: Seq<EditSpec>, skip: Seq<(int, int)>) -> bool {
    forall|i: int| 0 <= i < es.len() ==> !overlaps_spec(((#[trigger] es[i]).0, es[i].1), skip)
}

pub proof fn lemma_avoids_concat(a: Seq<EditSpec>, b: Seq<EditSpec>, skip: Seq<(int, int)>)
    requires
        avoids(a, skip),
        avoids(b, skip),
    ensures
        avoids(a + b, skip),
{
    assert forall|i: int| 0 <= i < (a + b).len() implies !overlaps_spec(((#[trigger] (a + b)[i]).0, (a + b)[i].1), skip) by {
        if i < a.len() {
            assert((a + b)[i] == a[i]);
        } else {
            assert((a + b)[i] == b[i - a.len()]);
        }
    }
}

/// Whether the edits are in order of their starts.
pub open spec fn ordered(es: Seq<EditSpec>) -> bool {
    forall|i: int, j: int| 0 <= i < j < es.len() ==> es[i].0 <= es[j].0
}

proof fn lemma_insert_ordered(sorted: Seq<EditSpec>, e: EditSpec)
    requires
        ordered(sorted),
    ensures
        ordered(insert_by_start(sorted, e)),
        insert_by_start(sorted, e).to_multiset() == sorted.to_multiset().insert(e),
    decreases sorted.len(),
{
    broadcast use vstd::seq_lib::group_seq_properties;
    broadcast use vstd::multiset::group_multiset_axioms;
    if sorted.len() == 0 {
        assert(seq![e] =~= Seq::<EditSpec>::empty().push(e));
    } else if sorted.last().0 <= e.0 {
    } else {
        let d = sorted.drop_last();
        assert(ordered(d));
        lemma_insert_ordered(d, e);
        let r = insert_by_start(d, e);
        assert forall|k: int| 0 <= k < r.len() implies r[k].0 <= sorted.last().0 by {
            assert(r.to_multiset().count(r[k]) > 0);
            assert(d.to_multiset().insert(e).count(r[k]) > 0);
            if r[k] != e {
                assert(d.to_multiset().count(r[k]) > 0);
                assert(d.contains(r[k]));
                let q = choose|q: int| 0 <= q < d.len() && d[q] == r[k];
                assert(sorted[q] == d[q]);
            }
        }
        assert(sorted =~= d.push(sorted.last()));
    }
}

/// Ordering edits by start puts them in order, and keeps every edit, each as
/// many times as it came.
pub proof fn sorted_edits_are_ordered(es: Seq<EditSpec>)
    ensures
        ordered(sort_by_start(es)),
        sort_by_start(es).to_multiset() == es.to_multiset(),
    decreases es.len(),
{
    broadcast use vstd::seq_lib::group_seq_properties;
    if es.len() > 0 {
        sorted_edits_are_ordered(es.drop_last());
        lemma_insert_ordered(sort_by_start(es.drop_last()), es.last());
        assert(es =~= es.drop_last().push(es.last()));
    }
}

/// Edits that fit a text, one list after another, fit it.
pub proof fn lemma_fit_concat(n: int, a: Seq<EditSpec>, b: Seq<EditSpec>)
    requires
        edits_fit(n, a),
        edits_fit(n, b),
    ensures
        edits_fit(n, a + b),
{
    assert forall|i: int| 0 <= i < (a + b).len() implies 0 <= (#[trigger] (a + b)[i]).0 <= (a + b)[i].1 <= n by {
        if i < a.len() {
            assert((a + b)[i] == a[i]);
        } else {
            assert((a + b)[i] == b[i - a.len()]);
        }
    }
}

/// The first edit, from `i` on, that ends after `x`; or the end of `es`.
pub open spec fn first_ending_after(es: Seq<EditSpec>, x: int, i: int) -> int
    decreases es.len() - i,
{
    if i < 0 || i >= es.len() || es[i].1 > x {
        i
    } else {
        first_ending_after(es, x, i + 1)
    }
}

proof fn lemma_first_ending_after(es: Seq<EditSpec>, x: int, i: int)
    requires
        0 <= i <= es.len(),
        i > 0 ==> es[i - 1].1 <= x,
    ensures
        i <= first_ending_after(es, x, i) <= es.len(),
        first_ending_after(es, x, i) > 0 ==> es[first_ending_after(es, x, i) - 1].1 <= x,
        first_ending_after(es, x, i) < es.len() ==> es[first_ending_after(es, x, i)].1 > x,
    decreases es.len() - i,
{
    if i < es.len() && es[i].1 <= x {
        lemma_first_ending_after(es, x, i + 1);
    }
}

proof fn lemma_splice_upto_extends(s: Seq<char>, es: Seq<EditSpec>, j: int, m: int)
    requires
        0 <= j <= m,
    ensures
        exists|t: Seq<char>| splice_upto(s, es, m) == #[trigger] (splice_upto(s, es, j) + t),
    decreases m - j,
{
    if j == m {
        assert(splice_upto(s, es, m) =~= splice_upto(s, es, j) + Seq::<char>::empty());
    } else {
        lemma_splice_upto_extends(s, es, j, m - 1);
        let t = choose|t: Seq<char>| splice_upto(s, es, m - 1) == #[trigger] (splice_upto(s, es, j) + t);
        assert(splice_upto(s, es, m) =~= splice_upto(s, es, j) + (t + s.subrange(prev_end(es, m - 1), es[m - 1].0) + es[m - 1].2));
    }
}

proof fn lemma_sorted_member(es: Seq<EditSpec>, k: int)
    requires
        0 <= k < sort_by_start(es).len(),
    ensures
        exists|q: int| 0 <= q < es.len() && es[q] == #[trigger] sort_by_start(es)[k],
{
    broadcast use vstd::seq_lib::group_seq_properties;
    sorted_edits_are_ordered(es);
    let e = sort_by_start(es)[k];
    assert(sort_by_start(es).to_multiset().count(e) > 0);
    assert(es.to_multiset().count(e) > 0);
    assert(es.contains(e));
}

#[verifier::spinoff_prover]
pub proof fn lemma_splice_keeps(s: Seq<char>, sorted: Seq<EditSpec>, r: (int, int))
    requires
        edits_fit(s.len() as int, sorted),
        0 <= r.0 <= r.1 <= s.len(),
        forall|i: int| 0 <= i < sorted.len() ==> !(#[trigger] sorted[i].0 < r.1 && r.0 < sorted[i].1),
    ensures
        exists|a: Seq<char>, b: Seq<char>| splice(s, sorted) == a + s.subrange(r.0, r.1) + b,
{
    let n = sorted.len() as int;
    lemma_first_ending_after(sorted, r.0, 0);
    let k = first_ending_after(sorted, r.0, 0);
    let pe = prev_end(sorted, k);
    assert(0 <= pe <= r.0) by {
        if k > 0 {
            assert(0 <= sorted[k - 1].0 <= sorted[k - 1].1);
        }
    }
    let region = s.subrange(r.0, r.1);
    let out = splice(s, sorted);
    if k == n {
        let a = splice_upto(s, sorted, n) + s.subrange(pe, r.0);
        assert(out =~= a + region + s.subrange(r.1, s.len() as int));
    } else {
        let e = sorted[k];
        assert(r.1 <= e.0 <= s.len());
        lemma_splice_upto_extends(s, sorted, k + 1, n);
        let t = choose|t: Seq<char>| splice_upto(s, sorted, n) == #[trigger] (splice_upto(s, sorted, k + 1) + t);
        let a = splice_upto(s, sorted, k) + s.subrange(pe, r.0);
        let b = s.subrange(r.1, e.0) + e.2 + t + s.subrange(prev_end(sorted, n), s.len() as int);
        assert(splice_upto(s, sorted, k + 1) == splice_upto(s, sorted, k) + s.subrange(pe, e.0) + e.2);
        assert(out =~= a + region + b);
    }
}

/// Applying edits keeps every range that no edit reaches into: when the edits
/// fit the text and apply, the text of such a range stands in the result as
/// one piece.
#[verifier::spinoff_prover]
pub proof fn applied_keeps_untouched_text(s: Seq<char>, es: Seq<EditSpec>, r: (int, int))
    requires
        edits_fit(s.len() as int, es),
        0 <= r.0 <= r.1 <= s.len(),
        forall|i: int| 0 <= i < es.len() ==> !(#[trigger] es[i].0 < r.1 && r.0 < es[i].1),
        applied(s, es) is Some,
    ensures
        exists|a: Seq<char>, b: Seq<char>| applied(s, es)->Some_0 == a + s.subrange(r.0, r.1) + b,
{
    let sorted = sort_by_start(es);
    lemma_sort_fits(s.len() as int, es);
    assert forall|i: int| 0 <= i < sorted.len() implies !(#[trigger] sorted[i].0 < r.1 && r.0 < sorted[i].1) by {
        lemma_sorted_member(es, i);
        let q = choose|q: int| 0 <= q < es.len() && es[q] == #[trigger] sort_by_start(es)[i];
        assert(!(es[q].0 < r.1 && r.0 < es[q].1));
    }
    lemma_splice_keeps(s, sorted, r);
    assert(applied(s, es) == Some(splice(s, sorted)));
}

/// A skipped range lies in the text.
pub proof fn lemma_skipped_range_in_text(s: Seq<char>, q: int)
    requires
        0 <= q < skip_regions(s).0.len(),
    ensures
        0 <= skip_regions(s).0[q].0 <= skip_regions(s).0[q].1 <= s.len(),
        lines_range(s, skip_regions(s).1, skip_regions(s).0[q]),
{
    skipped_ranges_are_skipped_lines(s);
    let r = skip_regions(s).0[q];
    assert(lines_range(s, skip_regions(s).1, r));
    let (i, j) = choose|i: int, j: int| #[trigger] spans_rows(s, skip_regions(s).1, r, i, j);
    lemma_lines_from(s, 0);
    lemma_lines_ordered(s, i, j);
}

/// An edit pass whose edits fit the text and keep clear of the skipped ranges
/// keeps each skipped range: once applied, the text of that run of skipped
/// lines stands in the result as one piece.
pub proof fn applied_keeps_skipped_text(s: Seq<char>, es: Seq<EditSpec>, q: int)
    requires
        edits_fit(s.len() as int, es),
        avoids(es, skip_regions(s).0),
        0 <= q < skip_regions(s).0.len(),
        applied(s, es) is Some,
    ensures
        lines_range(s, skip_regions(s).1, skip_regions(s).0[q]),
        exists|a: Seq<char>, b: Seq<char>|
            applied(s, es)->Some_0 == a + s.subrange(skip_regions(s).0[q].0, skip_regions(s).0[q].1) + b,
{
    let skip = skip_regions(s).0;
    let r = skip[q];
    lemma_skipped_range_in_text(s, q);
    assert forall|i: int| 0 <= i < es.len() implies !(#[trigger] es[i].0 < r.1 && r.0 < es[i].1) by {
        assert(!overlaps_spec((es[i].0, es[i].1), skip));
        if es[i].0 < r.1 && r.0 < es[i].1 {
            assert(es[i].0 < skip[q].1 && skip[q].0 < es[i].1);
        }
    }
    applied_keeps_untouched_text(s, es, r);
}

} // verus!
