//! Aligning the `&` column separators and `\\` row terminators of rows in
//! alignment and table environments.

use vstd::prelude::*;

use crate::lines::{content, ending, lemma_lines_from, lemma_lines_ordered, lines, source_lines, span_int, Span};
use crate::options::WriterOptions;
use crate::prose::{lemma_rows_text, lines_ok, rows_text, skipped_row, skipped_rows};
use crate::metadata::TreeMetadata;
use crate::skip::{skip_regions, SkipRegions};
use crate::text::{
    backslash_run, contains_lit, contains_str, escaped, has_at, is_escaped, lemma_rskip_pad,
    lemma_skip_pad, matches_at, push_all, push_range, push_spaces, push_str, rskip_pad,
    rskip_pad_exec, skip_pad, skip_pad_exec, spaces, trim_end, trim_start, Pad,
};

verus! {

/// The first `%` at or after `i` that is not escaped, or the end of `t`.
pub open spec fn percent_from(t: Seq<char>, i: int) -> int
    decreases t.len() - i,
{
    if i < 0 || i >= t.len() {
        t.len() as int
    } else if t[i] == '%' && !escaped(t, i) {
        i
    } else {
        percent_from(t, i + 1)
    }
}

pub proof fn lemma_percent_from(t: Seq<char>, i: int)
    requires
        0 <= i <= t.len(),
    ensures
        i <= percent_from(t, i) <= t.len(),
    decreases t.len() - i,
{
    if i < t.len() && !(t[i] == '%' && !escaped(t, i)) {
        lemma_percent_from(t, i + 1);
    }
}

/// Where a comment starts in a line, or its end.
pub fn find_unescaped_percent(t: &[char]) -> (r: usize)
    ensures
        r == percent_from(t@, 0),
        r <= t@.len(),
{
    proof {
        lemma_percent_from(t@, 0);
    }
    let mut i: usize = 0;
    while i < t.len()
        invariant
            i <= t@.len(),
            percent_from(t@, i as int) == percent_from(t@, 0),
        decreases t@.len() - i,
    {
        if t[i] == '%' && !is_escaped(t, i) {
            return i;
        }
        i = i + 1;
    }
    i
}

/// Depth of braces before `i`, with unmatched closers ignored.
pub open spec fn brace_depth(t: Seq<char>, i: int) -> nat
    decreases i,
{
    if i <= 0 || i > t.len() {
        0
    } else {
        let d = brace_depth(t, i - 1);
        if escaped(t, i - 1) {
            d
        } else if t[i - 1] == '{' {
            d + 1
        } else if t[i - 1] == '}' {
            if d > 0 {
                (d - 1) as nat
            } else {
                0
            }
        } else {
            d
        }
    }
}

pub fn brace_depth_at(t: &[char], end: usize) -> (r: usize)
    requires
        end <= t@.len(),
    ensures
        r == brace_depth(t@, end as int),
{
    let mut d: usize = 0;
    let mut i: usize = 0;
    while i < end
        invariant
            i <= end <= t@.len(),
            d == brace_depth(t@, i as int),
            d <= i,
        decreases end - i,
    {
        if is_escaped(t, i) {
        } else if t[i] == '{' {
            d = d + 1;
        } else if t[i] == '}' {
            if d > 0 {
                d = d - 1;
            }
        }
        i = i + 1;
    }
    d
}

/// The `&` separators outside braces, from index `i` of `t` at brace depth `depth`.
pub open spec fn amps_from(t: Seq<char>, i: int, depth: nat) -> Seq<int>
    decreases t.len() - i,
{
    if i < 0 || i >= t.len() {
        seq![]
    } else if escaped(t, i) {
        amps_from(t, i + 1, depth)
    } else if t[i] == '{' {
        amps_from(t, i + 1, depth + 1)
    } else if t[i] == '}' {
        amps_from(
            t,
            i + 1,
            if depth > 0 {
                (depth - 1) as nat
            } else {
                0
            },
        )
    } else if t[i] == '&' && depth == 0 {
        seq![i] + amps_from(t, i + 1, depth)
    } else {
        amps_from(t, i + 1, depth)
    }
}

pub proof fn lemma_amps_from(t: Seq<char>, i: int, depth: nat)
    requires
        0 <= i,
    ensures
        forall|k: int|
            0 <= k < amps_from(t, i, depth).len() ==> i <= #[trigger] amps_from(t, i, depth)[k]
                < t.len(),
        forall|k: int|
            0 <= k < amps_from(t, i, depth).len() - 1 ==> #[trigger] amps_from(t, i, depth)[k]
                < amps_from(t, i, depth)[k + 1],
    decreases t.len() - i,
{
    if i >= t.len() {
        return;
    }
    if escaped(t, i) {
        lemma_amps_from(t, i + 1, depth);
        assert(amps_from(t, i, depth) == amps_from(t, i + 1, depth));
    } else if t[i] == '{' {
        lemma_amps_from(t, i + 1, depth + 1);
        assert(amps_from(t, i, depth) == amps_from(t, i + 1, depth + 1));
    } else if t[i] == '}' {
        let d: nat = if depth > 0 { (depth - 1) as nat } else { 0 };
        lemma_amps_from(t, i + 1, d);
        assert(amps_from(t, i, depth) == amps_from(t, i + 1, d));
    } else if t[i] == '&' && depth == 0 {
        lemma_amps_from(t, i + 1, depth);
        let r = amps_from(t, i, depth);
        let rest = amps_from(t, i + 1, depth);
        assert(r == seq![i] + rest);
        assert forall|k: int| 0 <= k < r.len() - 1 implies #[trigger] r[k] < r[k + 1] by {
            if k > 0 {
                assert(r[k] == rest[k - 1]);
            }
            assert(r[k + 1] == rest[k]);
        }
        assert forall|k: int| 0 <= k < r.len() implies i <= #[trigger] r[k] < t.len() by {
            if k > 0 {
                assert(r[k] == rest[k - 1]);
            }
        }
    } else {
        lemma_amps_from(t, i + 1, depth);
        assert(amps_from(t, i, depth) == amps_from(t, i + 1, depth));
    }
}

pub fn top_level_ampersands(t: &[char]) -> (r: Vec<usize>)
    ensures
        r@.map_values(|x: usize| x as int) == amps_from(t@, 0, 0),
        forall|k: int| 0 <= k < r@.len() ==> #[trigger] r@[k] < t@.len(),
        forall|k: int| 0 <= k < r@.len() - 1 ==> #[trigger] r@[k] < r@[k + 1],
{
    let mut out: Vec<usize> = Vec::new();
    let mut depth: usize = 0;
    let mut i: usize = 0;
    while i < t.len()
        invariant
            i <= t@.len(),
            depth <= i,
            out@.map_values(|x: usize| x as int) + amps_from(t@, i as int, depth as nat) == amps_from(
                t@,
                0,
                0,
            ),
        decreases t@.len() - i,
    {
        let ghost o0 = out@.map_values(|x: usize| x as int);
        let ghost d0 = depth as nat;
        if is_escaped(t, i) {
        } else if t[i] == '{' {
            depth = depth + 1;
        } else if t[i] == '}' {
            if depth > 0 {
                depth = depth - 1;
            }
        } else if t[i] == '&' && depth == 0 {
            out.push(i);
            assert(out@.map_values(|x: usize| x as int) =~= o0.push(i as int));
        }
        i = i + 1;
        assert(out@.map_values(|x: usize| x as int) + amps_from(t@, i as int, depth as nat) =~= o0
            + amps_from(t@, i - 1, d0));
    }
    proof {
        lemma_amps_from(t@, 0, 0);
        let m = out@.map_values(|x: usize| x as int);
        assert(m =~= amps_from(t@, 0, 0));
        assert forall|k: int| 0 <= k < out@.len() implies #[trigger] out@[k] < t@.len() by {
            assert(m[k] == out@[k] as int);
        }
        assert forall|k: int| 0 <= k < out@.len() - 1 implies #[trigger] out@[k] < out@[k + 1] by {
            assert(m[k] == out@[k] as int);
            assert(m[k + 1] == out@[k + 1] as int);
        }
    }
    out
}

/// Scanning backwards from index `i` with `depth` unmatched `]`: the `[` that
/// brings the depth to zero.
pub open spec fn bracket_open_from(t: Seq<char>, i: int, depth: int) -> Option<int>
    decreases i + 1,
{
    if i < 0 || i >= t.len() {
        None
    } else if escaped(t, i) {
        bracket_open_from(t, i - 1, depth)
    } else if t[i] == ']' {
        bracket_open_from(t, i - 1, depth + 1)
    } else if t[i] == '[' {
        if depth - 1 == 0 {
            Some(i)
        } else {
            bracket_open_from(t, i - 1, depth - 1)
        }
    } else {
        bracket_open_from(t, i - 1, depth)
    }
}

/// The start of the bracket group that ends `t`, such as `[1ex]`.
pub open spec fn trailing_bracket_group(t: Seq<char>) -> Option<int> {
    if t.len() == 0 || t.last() != ']' || escaped(t, t.len() - 1) {
        None
    } else {
        bracket_open_from(t, t.len() - 1, 0)
    }
}

pub proof fn lemma_bracket_open_from(t: Seq<char>, i: int, depth: int)
    ensures
        bracket_open_from(t, i, depth) matches Some(k) ==> 0 <= k <= i,
    decreases i + 1,
{
    if 0 <= i < t.len() {
        lemma_bracket_open_from(t, i - 1, depth);
        lemma_bracket_open_from(t, i - 1, depth + 1);
        lemma_bracket_open_from(t, i - 1, depth - 1);
    }
}

pub fn trailing_bracket_group_start(t: &[char]) -> (r: Option<usize>)
    ensures
        match r {
            Some(k) => trailing_bracket_group(t@) == Some(k as int) && k < t@.len(),
            None => trailing_bracket_group(t@).is_none(),
        },
{
    let n = t.len();
    if n == 0 || t[n - 1] != ']' || is_escaped(t, n - 1) {
        return None;
    }
    proof {
        lemma_bracket_open_from(t@, n - 1, 0);
    }
    let mut depth: i128 = 0;
    let mut i: usize = n;
    while i > 0
        invariant
            i <= n == t@.len(),
            n > 0,
            trailing_bracket_group(t@) == bracket_open_from(t@, n - 1, 0),
            -(n - i) <= depth <= n - i,
            bracket_open_from(t@, i - 1, depth as int) == bracket_open_from(t@, n - 1, 0),
        decreases i,
    {
        let k = i - 1;
        if is_escaped(t, k) {
        } else if t[k] == ']' {
            depth = depth + 1;
        } else if t[k] == '[' {
            depth = depth - 1;
            if depth == 0 {
                return Some(k);
            }
        }
        i = k;
    }
    None
}

/// Where the `\\` (or `\\*`) that ends a row starts, outside braces, before an
/// optional `[..]` argument and trailing spaces.
pub open spec fn terminator_start(t: Seq<char>) -> Option<int> {
    let trimmed = trim_end(t, Pad::Blank);
    let command_end = match trailing_bracket_group(trimmed) {
        Some(k) => k,
        None => trimmed.len() as int,
    };
    let command = trim_end(trimmed.subrange(0, command_end), Pad::Blank);
    let start = if command.len() >= 3 && command.subrange(
        command.len() - 3,
        command.len() as int,
    ) == seq!['\\', '\\', '*'] {
        Some(command.len() - 3)
    } else if command.len() >= 2 && command.subrange(command.len() - 2, command.len() as int)
        == seq!['\\', '\\'] {
        Some(command.len() - 2)
    } else {
        None
    };
    match start {
        Some(k) => if !escaped(command, k) && brace_depth(command, k) == 0 {
            Some(k)
        } else {
            None
        },
        None => None,
    }
}

pub fn trailing_row_terminator_start(t: &[char]) -> (r: Option<usize>)
    ensures
        match r {
            Some(k) => terminator_start(t@) == Some(k as int) && k <= t@.len(),
            None => terminator_start(t@).is_none(),
        },
{
    let te = rskip_pad_exec(t, t.len(), Pad::Blank);
    let trimmed = &t[0..te];
    assert(trimmed@ == trim_end(t@, Pad::Blank));
    let command_end = match trailing_bracket_group_start(trimmed) {
        Some(k) => k,
        None => trimmed.len(),
    };
    let ce = rskip_pad_exec(trimmed, command_end, Pad::Blank);
    let command = &trimmed[0..ce];
    proof {
        lemma_rskip_pad(trimmed@, command_end as int, Pad::Blank);
        assert(command@ =~= trim_end(trimmed@.subrange(0, command_end as int), Pad::Blank)) by {
            lemma_rskip_sub(trimmed@, command_end as int);
        }
    }
    let m = command.len();
    let start = if m >= 3 && command[m - 3] == '\\' && command[m - 2] == '\\' && command[m - 1]
        == '*' {
        assert(command@.subrange(m - 3, m as int) =~= seq!['\\', '\\', '*']);
        m - 3
    } else if m >= 2 && command[m - 2] == '\\' && command[m - 1] == '\\' {
        assert(command@.subrange(m - 2, m as int) =~= seq!['\\', '\\']);
        proof {
            if m >= 3 {
                assert(command@.subrange(m - 3, m as int) != seq!['\\', '\\', '*']) by {
                    assert(command@.subrange(m - 3, m as int)[2] == command@[m - 1]);
                }
            }
        }
        m - 2
    } else {
        proof {
            if m >= 3 {
                assert(command@.subrange(m - 3, m as int) != seq!['\\', '\\', '*']) by {
                    if command@[m - 1] == '*' && command@[m - 2] == '\\' {
                        assert(command@.subrange(m - 3, m as int)[0] == command@[m - 3]);
                    } else {
                        assert(command@.subrange(m - 3, m as int)[2] == command@[m - 1]);
                        assert(command@.subrange(m - 3, m as int)[1] == command@[m - 2]);
                    }
                }
            }
            if m >= 2 {
                assert(command@.subrange(m - 2, m as int) != seq!['\\', '\\']) by {
                    assert(command@.subrange(m - 2, m as int)[1] == command@[m - 1]);
                    assert(command@.subrange(m - 2, m as int)[0] == command@[m - 2]);
                }
            }
        }
        return None;
    };
    if !is_escaped(command, start) && brace_depth_at(command, start) == 0 {
        Some(start)
    } else {
        None
    }
}

proof fn lemma_rskip_sub(s: Seq<char>, j: int)
    requires
        0 <= j <= s.len(),
    ensures
        rskip_pad(s.subrange(0, j), j, Pad::Blank) == rskip_pad(s, j, Pad::Blank),
    decreases j,
{
    if j > 0 {
        assert(s.subrange(0, j)[j - 1] == s[j - 1]);
        if s[j - 1] == ' ' || s[j - 1] == '\t' {
            lemma_rskip_sub(s, j - 1);
            assert(rskip_pad(s.subrange(0, j), j - 1, Pad::Blank) == rskip_pad(
                s.subrange(0, j - 1),
                j - 1,
                Pad::Blank,
            )) by {
                lemma_rskip_prefix(s.subrange(0, j), j - 1);
                assert(s.subrange(0, j).subrange(0, j - 1) =~= s.subrange(0, j - 1));
            }
        }
    }
}

proof fn lemma_rskip_prefix(s: Seq<char>, j: int)
    requires
        0 <= j <= s.len(),
    ensures
        rskip_pad(s, j, Pad::Blank) == rskip_pad(s.subrange(0, j), j, Pad::Blank),
    decreases j,
{
    if j > 0 {
        assert(s.subrange(0, j)[j - 1] == s[j - 1]);
        lemma_rskip_prefix(s, j - 1);
        assert(s.subrange(0, j).subrange(0, j - 1) =~= s.subrange(0, j - 1));
        lemma_rskip_prefix(s.subrange(0, j), j - 1);
    }
}

/// One row of an alignment block: its indentation, its cells, what follows the
/// cells (the terminator and comment), and whether it has a terminator.
pub struct RowSpec {
    pub line: int,
    pub leading: Seq<char>,
    pub cells: Seq<Seq<char>>,
    pub suffix: Seq<char>,
    pub term: bool,
}

/// Cell `k` of a row whose cell text is `core` and whose separators are `seps`.
pub open spec fn cell_at(core: Seq<char>, seps: Seq<int>, k: int) -> Seq<char> {
    let start = if k == 0 {
        0
    } else {
        seps[k - 1] + 1
    };
    let end = if k < seps.len() {
        seps[k]
    } else {
        core.len() as int
    };
    let cell = trim_end(core.subrange(start, end), Pad::Blank);
    if k == 0 {
        cell
    } else {
        trim_start(cell, Pad::Blank)
    }
}

pub open spec fn cells_of(core: Seq<char>, seps: Seq<int>) -> Seq<Seq<char>> {
    Seq::new((seps.len() + 1) as nat, |k: int| cell_at(core, seps, k))
}

/// The alignment row on a line, if it has a `&` or a row terminator outside
/// braces and comments and no `\verb`.
pub open spec fn parse_row(line: int, c: Seq<char>) -> Option<RowSpec> {
    if contains_lit(c, "\\verb"@) {
        None
    } else {
        let cs = percent_from(c, 0);
        let code = c.subrange(0, cs);
        let ts = terminator_start(code);
        let body_end = match ts {
            Some(k) => k,
            None => rskip_pad(code, code.len() as int, Pad::Blank),
        };
        let body = c.subrange(0, body_end);
        let ll = skip_pad(body, 0, Pad::Blank);
        let core = body.subrange(ll, body.len() as int);
        let seps = amps_from(core, 0, 0);
        if seps.len() == 0 && ts.is_none() {
            None
        } else {
            Some(
                RowSpec {
                    line,
                    leading: body.subrange(0, ll),
                    cells: cells_of(core, seps),
                    suffix: if ts.is_some() && cs < c.len() {
                        trim_end(c.subrange(body_end, cs), Pad::Blank) + seq![' '] + c.subrange(
                            cs,
                            c.len() as int,
                        )
                    } else {
                        c.subrange(body_end, c.len() as int)
                    },
                    term: ts.is_some(),
                },
            )
        }
    }
}

pub struct AlignRow {
    pub line: usize,
    pub leading: Vec<char>,
    pub cells: Vec<Vec<char>>,
    pub suffix: Vec<char>,
    pub has_terminator: bool,
}

pub open spec fn cells_view(cells: Seq<Vec<char>>) -> Seq<Seq<char>> {
    cells.map_values(|c: Vec<char>| c@)
}

impl AlignRow {
    pub open spec fn view(&self) -> RowSpec {
        RowSpec {
            line: self.line as int,
            leading: self.leading@,
            cells: cells_view(self.cells@),
            suffix: self.suffix@,
            term: self.has_terminator,
        }
    }
}

/// Cell `k` of a row, cut from `core` by the separators `seps`.
fn cell_exec(core: &[char], seps: &Vec<usize>, k: usize) -> (cell: Vec<char>)
    requires
        k <= seps@.len(),
        forall|j: int| 0 <= j < seps@.len() ==> #[trigger] seps@[j] < core@.len(),
        forall|j: int| 0 <= j < seps@.len() - 1 ==> #[trigger] seps@[j] < seps@[j + 1],
    ensures
        cell@ == cell_at(core@, seps@.map_values(|x: usize| x as int), k as int),
{
    let ghost sp = seps@.map_values(|x: usize| x as int);
    let n = seps.len();
    let cl = core.len();
    proof {
        if k > 0 {
            assert(seps@[k - 1] < core@.len());
        }
    }
    let start = if k == 0 {
        0
    } else {
        seps[k - 1] + 1
    };
    let end = if k < n {
        seps[k]
    } else {
        core.len()
    };
    proof {
        if k > 0 && k < n {
            assert(seps@[k - 1] < seps@[k - 1 + 1]);
        }
        if k > 0 {
            assert(seps@[k - 1] < core@.len());
        }
    }
    let piece = &core[start..end];
    let e = rskip_pad_exec(piece, piece.len(), Pad::Blank);
    let a = if k == 0 {
        0
    } else {
        skip_pad_exec(&piece[0..e], 0, Pad::Blank)
    };
    let cell = vstd::slice::slice_to_vec(&piece[a..e]);
    proof {
        lemma_skip_pad(piece@.subrange(0, e as int), 0, Pad::Blank);
        assert(k > 0 ==> sp[k - 1] == seps@[k - 1] as int);
        assert(k < n ==> sp[k as int] == seps@[k as int] as int);
        assert(cell@ =~= cell_at(core@, sp, k as int));
    }
    cell
}

/// Cells of a row: the text between separators, trimmed.
fn row_cells(core: &[char], seps: &Vec<usize>) -> (r: Vec<Vec<char>>)
    requires
        forall|k: int| 0 <= k < seps@.len() ==> #[trigger] seps@[k] < core@.len(),
        forall|k: int| 0 <= k < seps@.len() - 1 ==> #[trigger] seps@[k] < seps@[k + 1],
    ensures
        cells_view(r@) == cells_of(core@, seps@.map_values(|x: usize| x as int)),
{
    let ghost sp = seps@.map_values(|x: usize| x as int);
    let mut cells: Vec<Vec<char>> = Vec::new();
    let mut k: usize = 0;
    let n = seps.len();
    while k < n
        invariant
            k <= n,
            n == seps@.len(),
            sp == seps@.map_values(|x: usize| x as int),
            forall|j: int| 0 <= j < seps@.len() ==> #[trigger] seps@[j] < core@.len(),
            forall|j: int| 0 <= j < seps@.len() - 1 ==> #[trigger] seps@[j] < seps@[j + 1],
            cells@.len() == k,
            forall|j: int| 0 <= j < k ==> #[trigger] cells@[j]@ == cell_at(core@, sp, j),
        decreases n - k,
    {
        let cell = cell_exec(core, seps, k);
        cells.push(cell);
        k = k + 1;
    }
    let last = cell_exec(core, seps, n);
    cells.push(last);
    assert(cells_view(cells@) =~= cells_of(core@, sp));
    cells
}

pub fn parse_alignment_row(line: usize, c: &[char]) -> (r: Option<AlignRow>)
    ensures
        match r {
            Some(row) => parse_row(line as int, c@) == Some(row.view()),
            None => parse_row(line as int, c@).is_none(),
        },
{
    if contains_str(c, "\\verb") {
        return None;
    }
    let cs = find_unescaped_percent(c);
    let code = &c[0..cs];
    let ts = trailing_row_terminator_start(code);
    let body_end = match ts {
        Some(k) => k,
        None => rskip_pad_exec(code, code.len(), Pad::Blank),
    };
    let body = &c[0..body_end];
    assert(body@ == c@.subrange(0, body_end as int));
    let ll = skip_pad_exec(body, 0, Pad::Blank);
    let core = &body[ll..body.len()];
    let seps = top_level_ampersands(core);
    if seps.len() == 0 && ts.is_none() {
        assert(seps@.map_values(|x: usize| x as int).len() == 0);
        return None;
    }
    let cells = row_cells(core, &seps);
    let mut suffix: Vec<char> = Vec::new();
    if ts.is_some() && cs < c.len() {
        let mid = &c[body_end..cs];
        let me = rskip_pad_exec(mid, mid.len(), Pad::Blank);
        push_range(&mut suffix, mid, 0, me);
        suffix.push(' ');
        push_range(&mut suffix, c, cs, c.len());
        assert(suffix@ =~= trim_end(mid@, Pad::Blank) + seq![' '] + c@.subrange(cs as int, c@.len() as int));
    } else {
        push_range(&mut suffix, c, body_end, c.len());
    }
    let row = AlignRow {
        line,
        leading: vstd::slice::slice_to_vec(&body[0..ll]),
        cells,
        suffix,
        has_terminator: ts.is_some(),
    };
    assert(row.view() == parse_row(line as int, c@).unwrap());
    Some(row)
}


/// The number of columns of a block: one less than the most cells in a row.
pub open spec fn column_count(rs: Seq<RowSpec>) -> nat
    decreases rs.len(),
{
    if rs.len() == 0 {
        0
    } else {
        let c = column_count(rs.drop_last());
        if rs.last().cells.len() > c + 1 {
            (rs.last().cells.len() - 1) as nat
        } else {
            c
        }
    }
}

/// The width of column `c`: its widest cell among the rows where a separator
/// follows that cell.
pub open spec fn column_width(rs: Seq<RowSpec>, c: int) -> nat
    decreases rs.len(),
{
    if rs.len() == 0 {
        0
    } else {
        let w = column_width(rs.drop_last(), c);
        if 0 <= c && c + 1 < rs.last().cells.len() && rs.last().cells[c].len() > w {
            rs.last().cells[c].len()
        } else {
            w
        }
    }
}

pub open spec fn column_widths(rs: Seq<RowSpec>) -> Seq<nat> {
    Seq::new(column_count(rs), |c: int| column_width(rs, c))
}

/// Cell `c` of a row, padded to its column's width and followed by `& `
/// unless it is the row's last cell.
pub open spec fn render_piece(cells: Seq<Seq<char>>, widths: Seq<nat>, c: int) -> Seq<char> {
    if c + 1 < cells.len() {
        let w = widths[c];
        let pad: nat = if w > cells[c].len() {
            (w - cells[c].len()) as nat
        } else {
            0
        };
        cells[c] + spaces(pad + 1) + seq!['&', ' ']
    } else {
        cells[c]
    }
}

pub open spec fn render_upto(cells: Seq<Seq<char>>, widths: Seq<nat>, k: int) -> Seq<char>
    decreases k,
{
    if k <= 0 {
        seq![]
    } else {
        render_upto(cells, widths, k - 1) + render_piece(cells, widths, k - 1)
    }
}

/// The cells of a row laid out in columns of the given widths.
pub open spec fn render_cells(cells: Seq<Seq<char>>, widths: Seq<nat>) -> Seq<char> {
    render_upto(cells, widths, cells.len() as int)
}

/// The length of the longest text in `bs`.
pub open spec fn max_len(bs: Seq<Seq<char>>) -> nat
    decreases bs.len(),
{
    if bs.len() == 0 {
        0
    } else {
        let m = max_len(bs.drop_last());
        if bs.last().len() > m {
            bs.last().len()
        } else {
            m
        }
    }
}

/// A row's new text: indentation, aligned cells, the terminator padded to
/// column `tc`, and what followed the cells.
pub open spec fn aligned_line(r: RowSpec, body: Seq<char>, tc: nat) -> Seq<char> {
    r.leading + body + (if r.term {
        spaces(if tc > body.len() {
            (tc - body.len()) as nat
        } else {
            0
        })
    } else {
        seq![]
    }) + r.suffix
}

proof fn lemma_column_width_bound(rs: Seq<RowSpec>, c: int, bound: nat)
    requires
        forall|i: int, j: int|
            0 <= i < rs.len() && 0 <= j < rs[i].cells.len() ==> #[trigger] rs[i].cells[j].len()
                <= bound,
    ensures
        column_width(rs, c) <= bound,
    decreases rs.len(),
{
    if rs.len() > 0 {
        lemma_column_width_bound(rs.drop_last(), c, bound);
        if 0 <= c && c + 1 < rs.last().cells.len() {
            assert(rs[rs.len() - 1].cells[c].len() <= bound);
        }
    }
}

proof fn lemma_max_len(bs: Seq<Seq<char>>, i: int)
    requires
        0 <= i < bs.len(),
    ensures
        bs[i].len() <= max_len(bs),
    decreases bs.len(),
{
    if i < bs.len() - 1 {
        lemma_max_len(bs.drop_last(), i);
    }
}

/// Lays out the cells of one row.
fn render_alignment_cells(cells: &Vec<Vec<char>>, widths: &Vec<usize>) -> (r: Vec<char>)
    requires
        cells@.len() <= widths@.len() + 1,
    ensures
        r@ == render_cells(cells_view(cells@), widths@.map_values(|w: usize| w as nat)),
{
    let ghost cv = cells_view(cells@);
    let ghost wv = widths@.map_values(|w: usize| w as nat);
    let mut out: Vec<char> = Vec::new();
    let mut c: usize = 0;
    while c < cells.len()
        invariant
            c <= cells@.len(),
            cells@.len() <= widths@.len() + 1,
            cv == cells_view(cells@),
            wv == widths@.map_values(|w: usize| w as nat),
            out@ == render_upto(cv, wv, c as int),
        decreases cells@.len() - c,
    {
        let cell = &cells[c];
        push_all(&mut out, cell.as_slice());
        if c + 1 < cells.len() {
            let w = widths[c];
            let pad: u128 = if w > cell.len() {
                (w - cell.len()) as u128
            } else {
                0
            };
            push_spaces(&mut out, pad + 1);
            out.push('&');
            out.push(' ');
        }
        proof {
            assert(cv[c as int] == cell@);
            if c + 1 < cells@.len() {
                assert(wv[c as int] == widths@[c as int] as nat);
            }
            assert(out@ =~= render_upto(cv, wv, c as int) + render_piece(cv, wv, c as int));
        }
        c = c + 1;
    }
    out
}


pub open spec fn rows_view(rows: Seq<AlignRow>) -> Seq<RowSpec> {
    rows.map_values(|r: AlignRow| r.view())
}

pub open spec fn lines_view(ls: Seq<Vec<char>>) -> Seq<Seq<char>> {
    ls.map_values(|l: Vec<char>| l@)
}

pub open spec fn block_view(bs: Seq<(usize, usize)>) -> Seq<(int, int)> {
    bs.map_values(|b: (usize, usize)| (b.0 as int, b.1 as int))
}

proof fn lemma_column_count(rs: Seq<RowSpec>, i: int)
    requires
        0 <= i < rs.len(),
    ensures
        rs[i].cells.len() <= column_count(rs) + 1,
    decreases rs.len(),
{
    if i < rs.len() - 1 {
        lemma_column_count(rs.drop_last(), i);
    }
}

/// The widths of the columns of a block's rows.
fn column_widths_exec(rows: &Vec<AlignRow>) -> (w: Vec<usize>)
    ensures
        w@.map_values(|x: usize| x as nat) == column_widths(rows_view(rows@)),
{
    let ghost rs = rows_view(rows@);
    let mut cc: usize = 0;
    let mut i: usize = 0;
    while i < rows.len()
        invariant
            i <= rows@.len(),
            rs == rows_view(rows@),
            cc as nat == column_count(rs.take(i as int)),
        decreases rows@.len() - i,
    {
        let n = rows[i].cells.len();
        assert(rs.take(i + 1).drop_last() =~= rs.take(i as int));
        assert(rs.take(i + 1).last() == rows@[i as int].view());
        if n > 0 && n - 1 > cc {
            cc = n - 1;
        }
        i = i + 1;
    }
    assert(rs.take(rows@.len() as int) =~= rs);
    let mut widths: Vec<usize> = Vec::new();
    let mut k: usize = 0;
    while k < cc
        invariant
            k <= cc,
            widths@.len() == k,
            forall|c: int| 0 <= c < k ==> #[trigger] widths@[c] == 0,
        decreases cc - k,
    {
        widths.push(0);
        k = k + 1;
    }
    i = 0;
    while i < rows.len()
        invariant
            i <= rows@.len(),
            rs == rows_view(rows@),
            cc as nat == column_count(rs),
            widths@.len() == cc,
            forall|c: int| 0 <= c < cc ==> #[trigger] widths@[c] as nat == column_width(rs.take(i as int), c),
        decreases rows@.len() - i,
    {
        let row = &rows[i];
        let n = row.cells.len();
        let m = if n > 0 {
            n - 1
        } else {
            0
        };
        proof {
            lemma_column_count(rs, i as int);
            assert(rs.take(i + 1).drop_last() =~= rs.take(i as int));
            assert(rs.take(i + 1).last() == row.view());
        }
        let mut j: usize = 0;
        while j < m
            invariant
                i < rows@.len(),
                row == rows@[i as int],
                n == row.cells@.len(),
                m <= cc,
                m + 1 == n || (m == 0 && n == 0),
                j <= m,
                rs == rows_view(rows@),
                rs.take(i + 1).drop_last() == rs.take(i as int),
                rs.take(i + 1).last() == row.view(),
                widths@.len() == cc,
                forall|c: int|
                    0 <= c < j ==> #[trigger] widths@[c] as nat == column_width(rs.take(i + 1), c),
                forall|c: int|
                    j <= c < cc ==> #[trigger] widths@[c] as nat == column_width(rs.take(i as int), c),
            decreases m - j,
        {
            let len = row.cells[j].len();
            assert(row.view().cells[j as int] == row.cells@[j as int]@);
            if len > widths[j] {
                widths.set(j, len);
            }
            assert(widths@[j as int] as nat == column_width(rs.take(i + 1), j as int));
            j = j + 1;
        }
        assert forall|c: int| 0 <= c < cc implies #[trigger] widths@[c] as nat == column_width(
            rs.take(i + 1),
            c,
        ) by {
            if c >= m {
                assert(widths@[c] as nat == column_width(rs.take(i as int), c));
            }
        }
        i = i + 1;
    }
    assert(rs.take(rows@.len() as int) =~= rs);
    assert(widths@.map_values(|x: usize| x as nat) =~= column_widths(rs));
    widths
}


/// Whether a smaller block nested in block `bi` claims `row` for itself.
pub open spec fn inner_claims(blocks: Seq<(int, int)>, bi: int, row: int) -> bool {
    exists|oi: int|
        0 <= oi < blocks.len() && oi != bi && (#[trigger] blocks[oi]).0 >= blocks[bi].0
            && blocks[oi].1 <= blocks[bi].1 && blocks[oi] != blocks[bi] && blocks[oi].0 <= row
            < blocks[oi].1
}

/// Whether block `bi` aligns `row`: the row is in the block, outside skipped
/// regions, and not claimed by a nested block.
pub open spec fn block_row(blocks: Seq<(int, int)>, bi: int, skip: Seq<bool>, row: int) -> bool {
    &&& blocks[bi].0 <= row < blocks[bi].1
    &&& !(0 <= row < skip.len() && skip[row])
    &&& !inner_claims(blocks, bi, row)
}

/// The rows that block `bi` aligns below row `hi`, parsed from `contents`.
pub open spec fn block_parsed(
    contents: Seq<Seq<char>>,
    blocks: Seq<(int, int)>,
    bi: int,
    skip: Seq<bool>,
    hi: int,
) -> Seq<RowSpec>
    decreases hi - blocks[bi].0,
{
    if hi <= blocks[bi].0 {
        seq![]
    } else {
        let prev = block_parsed(contents, blocks, bi, skip, hi - 1);
        let row = hi - 1;
        if block_row(blocks, bi, skip, row) && 0 <= row < contents.len() {
            match parse_row(row, contents[row]) {
                Some(r) => prev.push(r),
                None => prev,
            }
        } else {
            prev
        }
    }
}

/// Writes each row's aligned text into its line.
pub open spec fn write_rows(
    contents: Seq<Seq<char>>,
    rs: Seq<RowSpec>,
    widths: Seq<nat>,
    tc: nat,
) -> Seq<Seq<char>>
    decreases rs.len(),
{
    if rs.len() == 0 {
        contents
    } else {
        let r = rs.last();
        write_rows(contents, rs.drop_last(), widths, tc).update(
            r.line,
            aligned_line(r, render_cells(r.cells, widths), tc),
        )
    }
}

/// Aligns the rows `rs` of one block.
pub open spec fn align_block(contents: Seq<Seq<char>>, rs: Seq<RowSpec>) -> Seq<Seq<char>> {
    if rs.len() == 0 {
        contents
    } else {
        let widths = column_widths(rs);
        let tc = max_len(rs.map_values(|r: RowSpec| render_cells(r.cells, widths))) + 1;
        write_rows(contents, rs, widths, tc)
    }
}

/// The line contents after aligning the first `k` blocks in order; each block
/// reads the lines as the blocks before it left them.
pub open spec fn align_blocks_upto(
    contents: Seq<Seq<char>>,
    blocks: Seq<(int, int)>,
    skip: Seq<bool>,
    k: int,
) -> Seq<Seq<char>>
    decreases k,
{
    if k <= 0 {
        contents
    } else {
        let prev = align_blocks_upto(contents, blocks, skip, k - 1);
        let hi = if blocks[k - 1].1 < prev.len() {
            blocks[k - 1].1
        } else {
            prev.len() as int
        };
        align_block(prev, block_parsed(prev, blocks, k - 1, skip, hi))
    }
}

fn inner_claims_exec(blocks: &Vec<(usize, usize)>, bi: usize, row: usize) -> (r: bool)
    requires
        bi < blocks@.len(),
    ensures
        r == inner_claims(block_view(blocks@), bi as int, row as int),
{
    let ghost bv = block_view(blocks@);
    let (s, e) = blocks[bi];
    let mut oi: usize = 0;
    while oi < blocks.len()
        invariant
            oi <= blocks@.len(),
            bi < blocks@.len(),
            bv == block_view(blocks@),
            (s as int, e as int) == bv[bi as int],
            forall|j: int|
                0 <= j < oi ==> !(j != bi && (#[trigger] bv[j]).0 >= bv[bi as int].0 && bv[j].1
                    <= bv[bi as int].1 && bv[j] != bv[bi as int] && bv[j].0 <= row < bv[j].1),
        decreases blocks@.len() - oi,
    {
        let (os, oe) = blocks[oi];
        assert(bv[oi as int] == (os as int, oe as int));
        if oi != bi && os >= s && oe <= e && (os != s || oe != e) && os <= row && row < oe {
            return true;
        }
        oi = oi + 1;
    }
    false
}

/// The rows that block `bi` aligns, parsed from the current lines.
fn block_rows(lines: &Vec<Vec<char>>, blocks: &Vec<(usize, usize)>, bi: usize, skipped: &SkipRegions) -> (rows: Vec<AlignRow>)
    requires
        bi < blocks@.len(),
    ensures
        rows_view(rows@) == block_parsed(
            lines_view(lines@),
            block_view(blocks@),
            bi as int,
            skipped.rows@,
            if blocks@[bi as int].1 < lines@.len() {
                blocks@[bi as int].1 as int
            } else {
                lines@.len() as int
            },
        ),
        forall|i: int| 0 <= i < rows@.len() ==> #[trigger] rows@[i].line < lines@.len(),
{
    let ghost lv = lines_view(lines@);
    let ghost bv = block_view(blocks@);
    let (start, end) = blocks[bi];
    let hi = if end < lines.len() {
        end
    } else {
        lines.len()
    };
    let mut rows: Vec<AlignRow> = Vec::new();
    if start >= hi {
        assert(rows_view(rows@) =~= block_parsed(lv, bv, bi as int, skipped.rows@, hi as int));
        return rows;
    }
    let mut row: usize = start;
    while row < hi
        invariant
            start <= row <= hi <= lines@.len(),
            hi <= end,
            bi < blocks@.len(),
            lv == lines_view(lines@),
            bv == block_view(blocks@),
            bv[bi as int] == (start as int, end as int),
            rows_view(rows@) == block_parsed(lv, bv, bi as int, skipped.rows@, row as int),
            forall|i: int| 0 <= i < rows@.len() ==> #[trigger] rows@[i].line < lines@.len(),
        decreases hi - row,
    {
        let ghost r0 = rows@;
        let take = !skipped.contains_row(row) && !inner_claims_exec(blocks, bi, row);
        assert(take == block_row(bv, bi as int, skipped.rows@, row as int));
        if take {
            assert(lv[row as int] == lines@[row as int]@);
            match parse_alignment_row(row, lines[row].as_slice()) {
                Some(r) => {
                    rows.push(r);
                    assert(rows_view(rows@) =~= rows_view(r0).push(r.view()));
                },
                None => {},
            }
        }
        row = row + 1;
    }
    rows
}


/// Aligns the rows of one block in place.
fn align_rows(lines: &mut Vec<Vec<char>>, rows: &Vec<AlignRow>)
    requires
        forall|i: int| 0 <= i < rows@.len() ==> #[trigger] rows@[i].line < old(lines)@.len(),
    ensures
        lines_view(final(lines)@) == align_block(lines_view(old(lines)@), rows_view(rows@)),
        final(lines)@.len() == old(lines)@.len(),
{
    if rows.len() == 0 {
        return;
    }
    let ghost rs = rows_view(rows@);
    let ghost l0 = lines_view(lines@);
    let widths = column_widths_exec(rows);
    let ghost wv = widths@.map_values(|x: usize| x as nat);
    let ghost bv = rs.map_values(|r: RowSpec| render_cells(r.cells, wv));
    let mut bodies: Vec<Vec<char>> = Vec::new();
    let mut i: usize = 0;
    while i < rows.len()
        invariant
            i <= rows@.len(),
            rs == rows_view(rows@),
            wv == widths@.map_values(|x: usize| x as nat),
            wv == column_widths(rs),
            bv == rs.map_values(|r: RowSpec| render_cells(r.cells, wv)),
            bodies@.len() == i,
            forall|j: int| 0 <= j < i ==> #[trigger] bodies@[j]@ == bv[j],
        decreases rows@.len() - i,
    {
        proof {
            lemma_column_count(rs, i as int);
            assert(rs[i as int].cells == cells_view(rows@[i as int].cells@));
            assert(widths@.len() == wv.len());
            assert(rows@[i as int].cells@.len() == rs[i as int].cells.len());
        }
        let b = render_alignment_cells(&rows[i].cells, &widths);
        bodies.push(b);
        i = i + 1;
    }
    let mut ml: usize = 0;
    i = 0;
    while i < bodies.len()
        invariant
            i <= bodies@.len(),
            bodies@.len() == rows@.len(),
            bv.len() == rows@.len(),
            forall|j: int| 0 <= j < bodies@.len() ==> #[trigger] bodies@[j]@ == bv[j],
            ml as nat == max_len(bv.take(i as int)),
        decreases bodies@.len() - i,
    {
        assert(bv.take(i + 1).drop_last() =~= bv.take(i as int));
        if bodies[i].len() > ml {
            ml = bodies[i].len();
        }
        i = i + 1;
    }
    assert(bv.take(bv.len() as int) =~= bv);
    let ghost tc: nat = ml as nat + 1;
    i = 0;
    while i < rows.len()
        invariant
            i <= rows@.len(),
            rs == rows_view(rows@),
            wv == column_widths(rs),
            bv == rs.map_values(|r: RowSpec| render_cells(r.cells, wv)),
            bodies@.len() == rows@.len(),
            forall|j: int| 0 <= j < bodies@.len() ==> #[trigger] bodies@[j]@ == bv[j],
            ml as nat == max_len(bv),
            tc == ml as nat + 1,
            forall|j: int| 0 <= j < rows@.len() ==> #[trigger] rows@[j].line < l0.len(),
            lines@.len() == l0.len(),
            lines_view(lines@) == write_rows(l0, rs.take(i as int), wv, tc),
        decreases rows@.len() - i,
    {
        let row = &rows[i];
        let body = &bodies[i];
        proof {
            lemma_max_len(bv, i as int);
            assert(rs.take(i + 1).drop_last() =~= rs.take(i as int));
            assert(rs.take(i + 1).last() == row.view());
        }
        let mut content: Vec<char> = Vec::new();
        push_all(&mut content, row.leading.as_slice());
        push_all(&mut content, body.as_slice());
        if row.has_terminator {
            push_spaces(&mut content, (ml - body.len()) as u128 + 1);
        }
        push_all(&mut content, row.suffix.as_slice());
        proof {
            assert(content@ =~= aligned_line(row.view(), bv[i as int], tc));
        }
        let ghost before = lines@;
        lines.set(row.line, content);
        proof {
            assert(lines_view(lines@) =~= lines_view(before).update(row.line as int, content@));
        }
        i = i + 1;
    }
    assert(rs.take(rows@.len() as int) =~= rs);
}

/// The text after aligning: each line's new content followed by its ending.
pub open spec fn joined(s: Seq<char>, ls: Seq<(int, int, int)>, out: Seq<Seq<char>>, k: int) -> Seq<char>
    decreases k,
{
    if k <= 0 {
        seq![]
    } else {
        joined(s, ls, out, k - 1) + out[k - 1] + ending(s, ls[k - 1])
    }
}

/// The alignment pass: for each alignment block in turn, lays out the `&`
/// columns and `\\` terminators of its rows.
pub open spec fn align_pass(s: Seq<char>, opts: WriterOptions, blocks: Seq<(int, int)>) -> Seq<char> {
    if !opts.align_environment_rows || blocks.len() == 0 {
        s
    } else {
        let ls = lines(s);
        let contents = Seq::new(ls.len(), |i: int| content(s, ls[i]));
        let out = align_blocks_upto(contents, blocks, skip_regions(s).1, blocks.len() as int);
        joined(s, ls, out, ls.len() as int)
    }
}

pub fn align_environment_rows(src: &[char], opts: &WriterOptions, metadata: &TreeMetadata) -> (r: Vec<char>)
    ensures
        r@ == align_pass(src@, *opts, block_view(metadata.alignment_blocks@)),
{
    let blocks = &metadata.alignment_blocks;
    if !opts.align_environment_rows || blocks.len() == 0 {
        return vstd::slice::slice_to_vec(src);
    }
    let ghost bv = block_view(blocks@);
    let ls = source_lines(src);
    proof {
        lemma_lines_from(src@, 0);
    }
    let ghost contents = Seq::new(lines(src@).len(), |i: int| content(src@, lines(src@)[i]));
    let mut lv: Vec<Vec<char>> = Vec::new();
    let mut k: usize = 0;
    while k < ls.len()
        invariant
            lines_ok(src@, ls@),
            k <= ls@.len(),
            contents == Seq::new(lines(src@).len(), |i: int| content(src@, lines(src@)[i])),
            lv@.len() == k,
            forall|j: int| 0 <= j < k ==> #[trigger] lv@[j]@ == contents[j],
        decreases ls@.len() - k,
    {
        let l = ls[k];
        lv.push(vstd::slice::slice_to_vec(&src[l.0..l.1]));
        k = k + 1;
    }
    assert(lines_view(lv@) =~= contents);
    let skipped = SkipRegions::new(src);
    let mut bi: usize = 0;
    while bi < blocks.len()
        invariant
            bi <= blocks@.len(),
            bv == block_view(blocks@),
            skipped.of(src@),
            lv@.len() == contents.len(),
            lines_view(lv@) == align_blocks_upto(contents, bv, skip_regions(src@).1, bi as int),
        decreases blocks@.len() - bi,
    {
        let rows = block_rows(&lv, blocks, bi, &skipped);
        align_rows(&mut lv, &rows);
        bi = bi + 1;
    }
    let ghost out = lines_view(lv@);
    let mut r: Vec<char> = Vec::new();
    k = 0;
    while k < ls.len()
        invariant
            lines_ok(src@, ls@),
            k <= ls@.len(),
            lv@.len() == ls@.len(),
            out == lines_view(lv@),
            r@ == joined(src@, lines(src@), out, k as int),
        decreases ls@.len() - k,
    {
        let l = ls[k];
        push_all(&mut r, lv[k].as_slice());
        push_range(&mut r, src, l.1, l.2);
        assert(r@ =~= joined(src@, lines(src@), out, k + 1));
        k = k + 1;
    }
    r
}

proof fn lemma_block_parsed_rows(contents: Seq<Seq<char>>, blocks: Seq<(int, int)>, bi: int, skip: Seq<bool>, hi: int)
    requires
        0 <= bi < blocks.len(),
    ensures
        forall|i: int|
            0 <= i < block_parsed(contents, blocks, bi, skip, hi).len() ==> {
                let l = (#[trigger] block_parsed(contents, blocks, bi, skip, hi)[i]).line;
                &&& block_row(blocks, bi, skip, l)
                &&& 0 <= l < contents.len()
            },
    decreases hi - blocks[bi].0,
{
    if hi > blocks[bi].0 {
        lemma_block_parsed_rows(contents, blocks, bi, skip, hi - 1);
        let prev = block_parsed(contents, blocks, bi, skip, hi - 1);
        let row = hi - 1;
        if block_row(blocks, bi, skip, row) && 0 <= row < contents.len() {
            if let Some(r) = parse_row(row, contents[row]) {
                assert(r.line == row);
                let cur = prev.push(r);
                assert forall|i: int| 0 <= i < cur.len() implies {
                    let l = (#[trigger] cur[i]).line;
                    &&& block_row(blocks, bi, skip, l)
                    &&& 0 <= l < contents.len()
                } by {
                    if i < prev.len() {
                        assert(cur[i] == prev[i]);
                    }
                }
            }
        }
    }
}

proof fn lemma_write_rows_keeps(contents: Seq<Seq<char>>, rs: Seq<RowSpec>, widths: Seq<nat>, tc: nat)
    requires
        forall|i: int| 0 <= i < rs.len() ==> 0 <= (#[trigger] rs[i]).line < contents.len(),
    ensures
        write_rows(contents, rs, widths, tc).len() == contents.len(),
        forall|x: int|
            0 <= x < contents.len() && (forall|i: int| 0 <= i < rs.len() ==> (#[trigger] rs[i]).line != x)
                ==> #[trigger] write_rows(contents, rs, widths, tc)[x] == contents[x],
    decreases rs.len(),
{
    if rs.len() > 0 {
        let d = rs.drop_last();
        assert forall|i: int| 0 <= i < d.len() implies 0 <= (#[trigger] d[i]).line < contents.len() by {
            assert(d[i] == rs[i]);
        }
        lemma_write_rows_keeps(contents, d, widths, tc);
        assert forall|x: int|
            0 <= x < contents.len() && (forall|i: int| 0 <= i < rs.len() ==> (#[trigger] rs[i]).line != x)
                implies #[trigger] write_rows(contents, rs, widths, tc)[x] == contents[x] by {
            assert(rs[rs.len() - 1].line != x);
            assert forall|i: int| 0 <= i < d.len() implies (#[trigger] d[i]).line != x by {
                assert(d[i] == rs[i]);
            }
        }
    }
}

/// Whether `row` is left alone by the alignment: it is skipped, or no block holds it.
pub open spec fn row_untouched(blocks: Seq<(int, int)>, skip: Seq<bool>, row: int) -> bool {
    (0 <= row < skip.len() && skip[row]) || forall|bi: int| 0 <= bi < blocks.len() ==> !((#[trigger] blocks[bi]).0 <= row < blocks[bi].1)
}

proof fn lemma_align_blocks_keeps(contents: Seq<Seq<char>>, blocks: Seq<(int, int)>, skip: Seq<bool>, k: int)
    requires
        k <= blocks.len(),
    ensures
        align_blocks_upto(contents, blocks, skip, k).len() == contents.len(),
        forall|x: int|
            0 <= x < contents.len() && row_untouched(blocks, skip, x) ==> #[trigger] align_blocks_upto(
                contents,
                blocks,
                skip,
                k,
            )[x] == contents[x],
    decreases k,
{
    if k > 0 {
        lemma_align_blocks_keeps(contents, blocks, skip, k - 1);
        let prev = align_blocks_upto(contents, blocks, skip, k - 1);
        let hi = if blocks[k - 1].1 < prev.len() {
            blocks[k - 1].1
        } else {
            prev.len() as int
        };
        let rs = block_parsed(prev, blocks, k - 1, skip, hi);
        lemma_block_parsed_rows(prev, blocks, k - 1, skip, hi);
        if rs.len() > 0 {
            let widths = column_widths(rs);
            let tc = max_len(rs.map_values(|r: RowSpec| render_cells(r.cells, widths))) + 1;
            lemma_write_rows_keeps(prev, rs, widths, tc);
            assert forall|x: int| 0 <= x < contents.len() && row_untouched(blocks, skip, x) implies #[trigger] align_blocks_upto(
                contents,
                blocks,
                skip,
                k,
            )[x] == contents[x] by {
                assert forall|i: int| 0 <= i < rs.len() implies (#[trigger] rs[i]).line != x by {
                    let l = rs[i].line;
                    assert(block_row(blocks, k - 1, skip, l));
                    if l == x {
                        assert(blocks[k - 1].0 <= x < blocks[k - 1].1);
                    }
                }
            }
        }
    }
}

/// The alignment pass keeps the lines of the text: with the option off or no
/// block it returns the text; otherwise each line keeps its ending, only its
/// content may change, and it stays the same on every row that is skipped or
/// lies in no alignment block.
pub proof fn alignment_keeps_lines(s: Seq<char>, opts: WriterOptions, blocks: Seq<(int, int)>)
    ensures
        !opts.align_environment_rows || blocks.len() == 0 ==> align_pass(s, opts, blocks) == s,
        ({
            let ls = lines(s);
            let contents = Seq::new(ls.len(), |i: int| content(s, ls[i]));
            let out = align_blocks_upto(contents, blocks, skip_regions(s).1, blocks.len() as int);
            &&& out.len() == ls.len()
            &&& opts.align_environment_rows && blocks.len() > 0 ==> align_pass(s, opts, blocks) == joined(s, ls, out, ls.len() as int)
            &&& forall|x: int| 0 <= x < ls.len() && row_untouched(blocks, skip_regions(s).1, x) ==> #[trigger] out[x] == content(s, ls[x])
        }),
{
    let ls = lines(s);
    let contents = Seq::new(ls.len(), |i: int| content(s, ls[i]));
    lemma_align_blocks_keeps(contents, blocks, skip_regions(s).1, blocks.len() as int);
}

proof fn lemma_joined_run(s: Seq<char>, out: Seq<Seq<char>>, i: int, j: int)
    requires
        0 <= i <= j < lines(s).len(),
        forall|r: int| i <= r <= j ==> #[trigger] out[r] == content(s, lines(s)[r]),
    ensures
        joined(s, lines(s), out, j + 1) == joined(s, lines(s), out, i) + rows_text(s, i, j),
    decreases j - i,
{
    lemma_rows_text(s, j, j);
    if i < j {
        lemma_joined_run(s, out, i, j - 1);
        lemma_rows_text_back(s, i, j);
        assert(joined(s, lines(s), out, j + 1) =~= joined(s, lines(s), out, i) + rows_text(s, i, j));
    } else {
        assert(joined(s, lines(s), out, j + 1) =~= joined(s, lines(s), out, i) + rows_text(s, i, j));
    }
}

proof fn lemma_rows_text_back(s: Seq<char>, i: int, j: int)
    requires
        0 <= i < j < lines(s).len(),
    ensures
        rows_text(s, i, j) == rows_text(s, i, j - 1) + content(s, lines(s)[j]) + ending(s, lines(s)[j]),
{
    lemma_lines_from(s, 0);
    lemma_lines_ordered(s, i, j - 1);
    let a = lines(s)[i];
    let m = lines(s)[j - 1];
    let l = lines(s)[j];
    assert(m.2 == l.0) by {
        assert(lines(s)[j - 1].2 == lines(s)[j].0);
    }
    assert(a.0 <= m.0 <= m.2 && l.0 <= l.1 <= l.2 <= s.len()) by {
        assert(a.0 <= m.0);
        assert(m.0 < m.2);
        assert(l.0 <= l.1 <= l.2);
    }
    assert(s.subrange(a.0, l.2) =~= s.subrange(a.0, m.2) + s.subrange(l.0, l.1) + s.subrange(l.1, l.2));
}

proof fn lemma_joined_extends(s: Seq<char>, out: Seq<Seq<char>>, k: int, n: int)
    requires
        0 <= k <= n,
    ensures
        exists|b: Seq<char>| joined(s, lines(s), out, n) == #[trigger] (joined(s, lines(s), out, k) + b),
    decreases n - k,
{
    if k == n {
        assert(joined(s, lines(s), out, n) =~= joined(s, lines(s), out, k) + Seq::<char>::empty());
    } else {
        lemma_joined_extends(s, out, k, n - 1);
        let b = choose|b: Seq<char>| joined(s, lines(s), out, n - 1) == #[trigger] (joined(s, lines(s), out, k) + b);
        assert(joined(s, lines(s), out, n) =~= joined(s, lines(s), out, k) + (b + out[n - 1] + ending(s, lines(s)[n - 1])));
    }
}

/// The alignment pass copies a skipped region as it is: the text of rows `i`
/// through `j`, all skipped, endings included, stands in the output as one
/// piece.
pub proof fn alignment_keeps_skipped_regions(s: Seq<char>, opts: WriterOptions, blocks: Seq<(int, int)>, i: int, j: int)
    requires
        skipped_rows(s, i, j),
    ensures
        exists|a: Seq<char>, b: Seq<char>| align_pass(s, opts, blocks) == a + rows_text(s, i, j) + b,
{
    let ls = lines(s);
    if !opts.align_environment_rows || blocks.len() == 0 {
        crate::prose::lemma_text_holds_rows(s, i, j);
    } else {
        alignment_keeps_lines(s, opts, blocks);
        let contents = Seq::new(ls.len(), |k: int| content(s, ls[k]));
        let out = align_blocks_upto(contents, blocks, skip_regions(s).1, blocks.len() as int);
        assert forall|r: int| i <= r <= j implies #[trigger] out[r] == content(s, lines(s)[r]) by {
            assert(skipped_row(s, r));
            assert(row_untouched(blocks, skip_regions(s).1, r));
        }
        lemma_joined_run(s, out, i, j);
        lemma_joined_extends(s, out, j + 1, ls.len() as int);
        let b = choose|b: Seq<char>| joined(s, ls, out, ls.len() as int) == #[trigger] (joined(s, ls, out, j + 1) + b);
        assert(align_pass(s, opts, blocks) == joined(s, ls, out, i) + rows_text(s, i, j) + b);
    }
}

} // verus!
