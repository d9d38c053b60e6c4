//! Regions between `% latex-treefmt: off` and `% latex-treefmt: on` comment lines.

use vstd::prelude::*;

use crate::lines::{content, lemma_lines_from, lines, source_lines, span_int, Span};
use crate::names::{raw_env_name, raw_environment_name};
use crate::text::{rskip_pad_exec, same_chars, skip_pad_exec, text_is, trim, trim_start, Pad};

verus! {

pub open spec fn off_directive() -> Seq<char> {
    "% latex-treefmt: off"@
}

pub open spec fn on_directive() -> Seq<char> {
    "% latex-treefmt: on"@
}

/// The scan state after some lines.
pub struct SkipScan {
    pub ranges: Seq<(int, int)>,
    pub rows: Seq<bool>,
    pub active: Option<(int, int)>,
    pub raw: Option<Seq<char>>,
}

pub open spec fn fill_rows(rows: Seq<bool>, a: int, b: int) -> Seq<bool> {
    Seq::new(rows.len(), |i: int| if a <= i < b { true } else { rows[i] })
}

/// One line of the scan: `l` is line number `row` of `s`.
pub open spec fn skip_step(s: Seq<char>, st: SkipScan, l: (int, int, int), row: int) -> SkipScan {
    let line = content(s, l);
    let directive = trim(line, Pad::Blank);
    let entering = raw_env_name(line, true);
    let is_directive_line = st.raw.is_none() && entering.is_none();
    let rows = st.rows.push(false);
    let (ranges, rows, active) = match st.active {
        Some((start, first_row)) => if is_directive_line && directive == on_directive() {
            (st.ranges.push((start, l.2)), fill_rows(rows, first_row, row + 1), None)
        } else {
            (st.ranges, rows, st.active)
        },
        None => if is_directive_line && directive == off_directive() {
            (st.ranges, rows, Some((l.0, row)))
        } else {
            (st.ranges, rows, None)
        },
    };
    let raw = match st.raw {
        Some(name) => if raw_env_name(line, false) == Some(name) {
            None
        } else {
            st.raw
        },
        None => entering,
    };
    SkipScan { ranges, rows, active, raw }
}

pub open spec fn skip_scan(s: Seq<char>, k: int) -> SkipScan
    decreases k,
{
    if k <= 0 {
        SkipScan { ranges: seq![], rows: seq![], active: None, raw: None }
    } else {
        skip_step(s, skip_scan(s, k - 1), lines(s)[k - 1], k - 1)
    }
}

/// The skipped byte ranges and, for each line, whether it is skipped.
pub open spec fn skip_regions(s: Seq<char>) -> (Seq<(int, int)>, Seq<bool>) {
    let st = skip_scan(s, lines(s).len() as int);
    match st.active {
        Some((start, first_row)) => (
            st.ranges.push((start, s.len() as int)),
            fill_rows(st.rows, first_row, st.rows.len() as int),
        ),
        None => (st.ranges, st.rows),
    }
}

pub open spec fn overlaps_spec(r: (int, int), ranges: Seq<(int, int)>) -> bool {
    exists|k: int| 0 <= k < ranges.len() && r.0 < (#[trigger] ranges[k]).1 && ranges[k].0 < r.1
}

pub fn overlaps_any(r: (usize, usize), ranges: &[(usize, usize)]) -> (b: bool)
    ensures
        b == overlaps_spec((r.0 as int, r.1 as int), ranges@.map_values(|p: (usize, usize)| (p.0 as int, p.1 as int))),
{
    let ghost m = ranges@.map_values(|p: (usize, usize)| (p.0 as int, p.1 as int));
    let mut i: usize = 0;
    while i < ranges.len()
        invariant
            i <= ranges@.len(),
            m == ranges@.map_values(|p: (usize, usize)| (p.0 as int, p.1 as int)),
            forall|k: int| 0 <= k < i ==> !(r.0 < (#[trigger] m[k]).1 && m[k].0 < r.1),
        decreases ranges@.len() - i,
    {
        if r.0 < ranges[i].1 && ranges[i].0 < r.1 {
            assert(m[i as int] == (ranges@[i as int].0 as int, ranges@[i as int].1 as int));
            return true;
        }
        i = i + 1;
    }
    false
}

/// Full-line comment directives protect their own lines and the lines between them.
pub struct SkipRegions {
    pub ranges: Vec<(usize, usize)>,
    pub rows: Vec<bool>,
}

impl SkipRegions {
    pub open spec fn range_view(&self) -> Seq<(int, int)> {
        self.ranges@.map_values(|p: (usize, usize)| (p.0 as int, p.1 as int))
    }

    /// The regions of `s`.
    pub open spec fn of(&self, s: Seq<char>) -> bool {
        &&& self.range_view() == skip_regions(s).0
        &&& self.rows@ == skip_regions(s).1
    }

    pub fn new(s: &[char]) -> (r: SkipRegions)
        ensures
            r.of(s@),
            r.rows@.len() == lines(s@).len(),
    {
        let ls = source_lines(s);
        let mut ranges: Vec<(usize, usize)> = Vec::new();
        let mut rows: Vec<bool> = Vec::new();
        let mut active: Option<(usize, usize)> = None;
        let mut raw: Option<Vec<char>> = None;
        let mut k: usize = 0;
        proof {
            lemma_lines_from(s@, 0);
        }
        while k < ls.len()
            invariant
                k <= ls@.len(),
                ls@.len() == lines(s@).len(),
                forall|j: int| 0 <= j < ls@.len() ==> span_int(#[trigger] ls@[j]) == lines(s@)[j],
                forall|j: int|
                    0 <= j < lines(s@).len() ==> {
                        let l = #[trigger] lines(s@)[j];
                        0 <= l.0 <= l.1 <= l.2 <= s@.len()
                    },
                ({
                    let st = skip_scan(s@, k as int);
                    &&& ranges@.map_values(|p: (usize, usize)| (p.0 as int, p.1 as int)) == st.ranges
                    &&& rows@ == st.rows
                    &&& match active {
                        Some((a, b)) => st.active == Some((a as int, b as int)),
                        None => st.active.is_none(),
                    }
                    &&& match &raw {
                        Some(name) => st.raw == Some(name@),
                        None => st.raw.is_none(),
                    }
                    &&& rows@.len() == k
                }),
                forall|j: int| 0 <= j < ranges@.len() ==> (#[trigger] ranges@[j]).1 <= s@.len(),
                active matches Some((a, b)) ==> a <= s@.len() && b < k,
            decreases ls@.len() - k,
        {
            let l = ls[k];
            let line = &s[l.0..l.1];
            assert(line@ == content(s@, lines(s@)[k as int]));
            let a = skip_pad_exec(line, 0, Pad::Blank);
            let t = &line[a..line.len()];
            assert(t@ == trim_start(line@, Pad::Blank));
            let b = rskip_pad_exec(t, t.len(), Pad::Blank);
            let directive = &t[0..b];
            assert(directive@ == trim(line@, Pad::Blank));
            let entering = raw_environment_name(line, true);
            let is_directive_line = raw.is_none() && entering.is_none();
            let ghost old_ranges = ranges@;
            rows.push(false);
            match active {
                Some((start, first_row)) => {
                    if is_directive_line && text_is(directive, "% latex-treefmt: on") {
                        ranges.push((start, l.2));
                        let mut j = first_row;
                        let n = rows.len();
                        while j < n
                            invariant
                                first_row <= j <= k + 1,
                                n == k + 1,
                                k < rows@.len() == k + 1,
                                rows@ == fill_rows(
                                    skip_scan(s@, k as int).rows.push(false),
                                    first_row as int,
                                    j as int,
                                ),
                            decreases k + 1 - j,
                        {
                            rows.set(j, true);
                            assert(rows@ =~= fill_rows(
                                skip_scan(s@, k as int).rows.push(false),
                                first_row as int,
                                j + 1,
                            ));
                            j = j + 1;
                        }
                        active = None;
                    }
                },
                None => {
                    if is_directive_line && text_is(directive, "% latex-treefmt: off") {
                        active = Some((l.0, k));
                    }
                },
            }
            let leaving = match &raw {
                Some(name) => match raw_environment_name(line, false) {
                    Some(end_name) => same_chars(end_name.as_slice(), name.as_slice()),
                    None => false,
                },
                None => false,
            };
            if leaving {
                raw = None;
            } else if raw.is_none() {
                raw = entering;
            }
            proof {
                assert(ranges@.map_values(|p: (usize, usize)| (p.0 as int, p.1 as int))
                    =~= skip_scan(s@, k + 1).ranges);
                assert(rows@ =~= skip_scan(s@, k + 1).rows);
            }
            k = k + 1;
        }
        if let Some((start, first_row)) = active {
            ranges.push((start, s.len()));
            let mut j = first_row;
            let n = rows.len();
            while j < n
                invariant
                    first_row <= j <= n,
                    n == rows@.len(),
                    rows@ == fill_rows(
                        skip_scan(s@, lines(s@).len() as int).rows,
                        first_row as int,
                        j as int,
                    ),
                decreases n - j,
            {
                rows.set(j, true);
                assert(rows@ =~= fill_rows(
                    skip_scan(s@, lines(s@).len() as int).rows,
                    first_row as int,
                    j + 1,
                ));
                j = j + 1;
            }
            assert(rows@ =~= skip_regions(s@).1);
        } else {
            assert(rows@ =~= skip_regions(s@).1);
        }
        assert(ranges@.map_values(|p: (usize, usize)| (p.0 as int, p.1 as int)) =~= skip_regions(s@).0);
        SkipRegions { ranges, rows }
    }

    pub open spec fn has_row(&self, row: int) -> bool {
        0 <= row < self.rows@.len() && self.rows@[row]
    }

    pub fn contains_row(&self, row: usize) -> (r: bool)
        ensures
            r == self.has_row(row as int),
    {
        row < self.rows.len() && self.rows[row]
    }

    pub open spec fn has_offset(&self, offset: int) -> bool {
        exists|k: int|
            0 <= k < self.range_view().len() && (#[trigger] self.range_view()[k]).0 <= offset
                < self.range_view()[k].1
    }

    pub fn contains_offset(&self, offset: usize) -> (r: bool)
        ensures
            r == self.has_offset(offset as int),
    {
        let mut i: usize = 0;
        while i < self.ranges.len()
            invariant
                i <= self.ranges@.len(),
                forall|k: int|
                    0 <= k < i ==> !((#[trigger] self.range_view()[k]).0 <= offset
                        < self.range_view()[k].1),
            decreases self.ranges@.len() - i,
        {
            if self.ranges[i].0 <= offset && offset < self.ranges[i].1 {
                assert(self.range_view()[i as int].0 <= offset);
                return true;
            }
            i = i + 1;
        }
        false
    }

    pub open spec fn meets(&self, r: (int, int)) -> bool {
        overlaps_spec(r, self.range_view())
    }

    pub fn overlaps(&self, r: (usize, usize)) -> (b: bool)
        ensures
            b == self.meets((r.0 as int, r.1 as int)),
    {
        overlaps_any(r, self.ranges.as_slice())
    }
}


proof fn lemma_scan_rows(s: Seq<char>, k: int)
    requires
        0 <= k <= lines(s).len(),
    ensures
        skip_scan(s, k).rows.len() == k,
    decreases k,
{
    if k > 0 {
        lemma_scan_rows(s, k - 1);
    }
}

/// One flag per line.
pub proof fn lemma_skip_rows_len(s: Seq<char>)
    ensures
        skip_regions(s).1.len() == lines(s).len(),
{
    lemma_scan_rows(s, lines(s).len() as int);
}

/// Range `r` is the text of lines `i` through `j`, endings included, and each
/// of those lines is flagged in `rows`.
pub open spec fn spans_rows(s: Seq<char>, rows: Seq<bool>, r: (int, int), i: int, j: int) -> bool {
    &&& 0 <= i <= j < lines(s).len()
    &&& j < rows.len()
    &&& r == (lines(s)[i].0, lines(s)[j].2)
    &&& forall|x: int| i <= x <= j ==> #[trigger] rows[x]
}

/// Range `r` is the text of a run of lines, each flagged in `rows`.
pub open spec fn lines_range(s: Seq<char>, rows: Seq<bool>, r: (int, int)) -> bool {
    exists|i: int, j: int| #[trigger] spans_rows(s, rows, r, i, j)
}

pub open spec fn scan_ok(s: Seq<char>, st: SkipScan, k: int) -> bool {
    &&& st.rows.len() == k
    &&& forall|q: int| 0 <= q < st.ranges.len() ==> #[trigger] lines_range(s, st.rows, st.ranges[q])
    &&& st.active matches Some((start, fr)) ==> 0 <= fr < k && start == lines(s)[fr].0
}

proof fn lemma_spans_grow(s: Seq<char>, rows: Seq<bool>, rows2: Seq<bool>, r: (int, int), i: int, j: int)
    requires
        spans_rows(s, rows, r, i, j),
        rows.len() <= rows2.len(),
        forall|x: int| 0 <= x < rows.len() && rows[x] ==> #[trigger] rows2[x],
    ensures
        spans_rows(s, rows2, r, i, j),
{
    assert forall|x: int| i <= x <= j implies #[trigger] rows2[x] by {
        assert(rows[x]);
    }
}

proof fn lemma_scan_ok(s: Seq<char>, k: int)
    requires
        0 <= k <= lines(s).len(),
    ensures
        scan_ok(s, skip_scan(s, k), k),
    decreases k,
{
    if k > 0 {
        lemma_scan_ok(s, k - 1);
        let st = skip_scan(s, k - 1);
        let l = lines(s)[k - 1];
        let st2 = skip_scan(s, k);
        assert(st2 == skip_step(s, st, l, k - 1));
        assert(st2.rows.len() == k);
        assert(st2.active matches Some((start, fr)) ==> 0 <= fr < k && start == lines(s)[fr].0);
        assert forall|x: int| 0 <= x < st.rows.len() && st.rows[x] implies #[trigger] st2.rows[x] by {
            assert(st.rows.push(false)[x] == st.rows[x]);
        }
        assert forall|q: int| 0 <= q < st2.ranges.len() implies #[trigger] lines_range(s, st2.rows, st2.ranges[q]) by {
            if q < st.ranges.len() {
                assert(st2.ranges[q] == st.ranges[q]);
                assert(lines_range(s, st.rows, st.ranges[q]));
                let (i, j) = choose|i: int, j: int| #[trigger] spans_rows(s, st.rows, st.ranges[q], i, j);
                lemma_spans_grow(s, st.rows, st2.rows, st.ranges[q], i, j);
                assert(spans_rows(s, st2.rows, st2.ranges[q], i, j));
            } else {
                let (start, fr) = st.active->Some_0;
                assert(st2.ranges[q] == (start, l.2));
                assert(spans_rows(s, st2.rows, st2.ranges[q], fr, k - 1));
            }
        }
    }
}

/// Every skipped range is the text of a run of whole lines, endings included,
/// each of them flagged as skipped: the ranges that the tree passes keep clear
/// of are the lines that the line passes copy as they are.
pub proof fn skipped_ranges_are_skipped_lines(s: Seq<char>)
    ensures
        forall|q: int| 0 <= q < skip_regions(s).0.len() ==> #[trigger] lines_range(s, skip_regions(s).1, skip_regions(s).0[q]),
{
    let n = lines(s).len() as int;
    lemma_scan_ok(s, n);
    lemma_lines_from(s, 0);
    let st = skip_scan(s, n);
    if let Some((start, fr)) = st.active {
        let rows = fill_rows(st.rows, fr, st.rows.len() as int);
        let ranges = st.ranges.push((start, s.len() as int));
        assert forall|x: int| 0 <= x < st.rows.len() && st.rows[x] implies #[trigger] rows[x] by {}
        assert forall|q: int| 0 <= q < ranges.len() implies #[trigger] lines_range(s, rows, ranges[q]) by {
            if q < st.ranges.len() {
                assert(ranges[q] == st.ranges[q]);
                assert(lines_range(s, st.rows, st.ranges[q]));
                let (i, j) = choose|i: int, j: int| #[trigger] spans_rows(s, st.rows, st.ranges[q], i, j);
                lemma_spans_grow(s, st.rows, rows, st.ranges[q], i, j);
                assert(spans_rows(s, rows, ranges[q], i, j));
            } else {
                assert(lines(s)[n - 1].2 == s.len());
                assert(spans_rows(s, rows, ranges[q], fr, n - 1));
            }
        }
    } else {
        assert(skip_regions(s).0 == st.ranges);
        assert(skip_regions(s).1 == st.rows);
    }
}

} // verus!
