//! What the formatting passes read from a syntax tree: per-row depths and
//! flags, math ranges, script groups, formula delimiters and alignment blocks.

use vstd::prelude::*;

use crate::chars::{alphabetic, alphanumeric, ascii_whitespace, is_alphabetic, is_alphanumeric, is_ascii_whitespace};
use crate::names::{
    env_marker, environment_marker, is_alignment_env_name, is_alignment_environment_name,
    is_env_kind, is_environment, is_raw_env_kind, is_raw_environment,
};
use crate::options::{DisplayMathLayout, WriterOptions};
use crate::syntax::{ByteMap, SyntaxNode, SyntaxTree};
use crate::text::{chars_of, has_at, matches_at, skip_pad, skip_pad_exec, text_is, trim, Pad};
use crate::tree::{
    char_pos, end_of, field_child, field_from, field_index, fits, lemma_child_fits,
    lemma_field_from, lemma_fits, row_of, start_of, Rows,
};

verus! {

#[derive(Debug, Clone, Copy, PartialEq, Eq, Structural)]
pub enum FormulaKind {
    Inline,
    Display,
}

/// The delimiters of one formula, as character ranges.
#[derive(Debug, Clone, Copy)]
pub struct FormulaDelimiters {
    pub kind: FormulaKind,
    pub opening: (usize, usize),
    pub closing: (usize, usize),
}

/// A formula's delimiters as plain values.
pub type DelimSpec = (FormulaKind, (int, int), (int, int));

/// Per-row and per-range facts about a document, taken from its syntax tree.
/// Ranges are character ranges; rows are counted from zero.
#[derive(Debug)]
pub struct TreeMetadata {
    pub environment_depth: Vec<usize>,
    pub display_math_depth: Vec<usize>,
    pub item_depth: Vec<usize>,
    pub raw_content: Vec<bool>,
    pub contains_comment: Vec<bool>,
    pub math_ranges: Vec<(usize, usize)>,
    pub protected_math_ranges: Vec<(usize, usize)>,
    pub simple_script_groups: Vec<(usize, usize)>,
    pub formula_delimiters: Vec<FormulaDelimiters>,
    pub alignment_blocks: Vec<(usize, usize)>,
}

/// The metadata as plain values.
pub struct MetaSpec {
    pub env: Seq<usize>,
    pub disp: Seq<usize>,
    pub item: Seq<usize>,
    pub raw: Seq<bool>,
    pub comment: Seq<bool>,
    pub math: Seq<(int, int)>,
    pub protected: Seq<(int, int)>,
    pub scripts: Seq<(int, int)>,
    pub formulas: Seq<DelimSpec>,
    pub blocks: Seq<(int, int)>,
}

pub open spec fn ranges_view(v: Seq<(usize, usize)>) -> Seq<(int, int)> {
    v.map_values(|r: (usize, usize)| (r.0 as int, r.1 as int))
}

pub open spec fn delim_view(d: FormulaDelimiters) -> DelimSpec {
    (d.kind, (d.opening.0 as int, d.opening.1 as int), (d.closing.0 as int, d.closing.1 as int))
}

pub open spec fn delims_view(v: Seq<FormulaDelimiters>) -> Seq<DelimSpec> {
    v.map_values(|d: FormulaDelimiters| delim_view(d))
}

impl TreeMetadata {
    pub open spec fn view(&self) -> MetaSpec {
        MetaSpec {
            env: self.environment_depth@,
            disp: self.display_math_depth@,
            item: self.item_depth@,
            raw: self.raw_content@,
            comment: self.contains_comment@,
            math: ranges_view(self.math_ranges@),
            protected: ranges_view(self.protected_math_ranges@),
            scripts: ranges_view(self.simple_script_groups@),
            formulas: delims_view(self.formula_delimiters@),
            blocks: ranges_view(self.alignment_blocks@),
        }
    }
}

/// `v[i]`, or `false` past the end.
pub open spec fn flag_at(v: Seq<bool>, i: int) -> bool {
    0 <= i < v.len() && v[i]
}

/// `v[i]`, or `0` past the end.
pub open spec fn count_at(v: Seq<usize>, i: int) -> nat {
    if 0 <= i < v.len() {
        v[i] as nat
    } else {
        0
    }
}

pub fn flag_get(v: &Vec<bool>, i: usize) -> (r: bool)
    ensures
        r == flag_at(v@, i as int),
{
    i < v.len() && v[i]
}

pub fn count_get(v: &Vec<usize>, i: usize) -> (r: usize)
    ensures
        r as nat == count_at(v@, i as int),
{
    if i < v.len() {
        v[i]
    } else {
        0
    }
}

/// One more, or `usize::MAX` when there is no more.
pub open spec fn sat_inc(x: usize) -> usize {
    if x < usize::MAX {
        (x + 1) as usize
    } else {
        x
    }
}

/// The row after `r`, saturating.
pub open spec fn next_row(r: int) -> int {
    if r < usize::MAX {
        r + 1
    } else {
        r
    }
}

/// `v` with the counts of rows `a..b` raised by one.
pub open spec fn bump(v: Seq<usize>, a: int, b: int) -> Seq<usize> {
    Seq::new(v.len(), |r: int| if a <= r < b { sat_inc(v[r]) } else { v[r] })
}

/// `v` with rows `a..b` flagged.
pub open spec fn mark(v: Seq<bool>, a: int, b: int) -> Seq<bool> {
    Seq::new(v.len(), |r: int| if a <= r < b { true } else { v[r] })
}

/// The text of node `n`.
pub open spec fn node_text(s: Seq<char>, n: SyntaxNode) -> Seq<char> {
    s.subrange(start_of(s, n), end_of(s, n))
}

pub open spec fn node_range(s: Seq<char>, n: SyntaxNode) -> (int, int) {
    (start_of(s, n), end_of(s, n))
}

/// `t` ends with `lit`.
pub open spec fn ends_with(t: Seq<char>, lit: Seq<char>) -> bool {
    has_at(t, t.len() - lit.len(), lit)
}

/// The delimiters of a formula node of the given kind, when it has
/// recognizable ones and is long enough to hold both.
pub open spec fn formula_delims(s: Seq<char>, n: SyntaxNode, kind: FormulaKind) -> Option<DelimSpec> {
    let t = node_text(s, n);
    let lens: Option<(int, int)> = match kind {
        FormulaKind::Inline => {
            let o = if has_at(t, 0, "\\("@) {
                2int
            } else if has_at(t, 0, "$"@) {
                1int
            } else {
                0int
            };
            let c = if ends_with(t, "\\)"@) {
                2int
            } else if ends_with(t, "$"@) {
                1int
            } else {
                0int
            };
            if o == 0 || c == 0 {
                None
            } else {
                Some((o, c))
            }
        },
        FormulaKind::Display => {
            if (has_at(t, 0, "\\["@) || has_at(t, 0, "$$"@)) && (ends_with(t, "\\]"@) || ends_with(
                t,
                "$$"@,
            )) {
                Some((2int, 2int))
            } else {
                None
            }
        },
    };
    match lens {
        Some((o, c)) => if n.end_byte - n.start_byte < o + c {
            None
        } else {
            Some(
                (
                    kind,
                    (start_of(s, n), start_of(s, n) + o),
                    (end_of(s, n) - c, end_of(s, n)),
                ),
            )
        },
        None => None,
    }
}

/// A script group `{x}` or `{\cmd}` whose braces can go: one alphanumeric
/// character, a control word not followed by a letter, or a control symbol.
pub open spec fn simple_script(s: Seq<char>, a: int, b: int) -> bool {
    let g = s.subrange(a, b);
    if g.len() < 2 || g[0] != '{' || g[g.len() - 1] != '}' {
        false
    } else {
        let inner = trim(g.subrange(1, g.len() - 1), Pad::Blank);
        if inner.len() == 1 {
            alphanumeric(inner[0])
        } else if inner.len() == 0 || inner[0] != '\\' {
            false
        } else {
            let command = inner.subrange(1, inner.len() as int);
            if command.len() == 0 {
                false
            } else if forall|i: int|
                0 <= i < command.len() ==> alphabetic(#[trigger] command[i]) || command[i] == '@' {
                let k = skip_pad(s, b, Pad::Blank);
                !(k < s.len() && (alphabetic(s[k]) || s[k] == '@'))
            } else {
                command.len() == 1
            }
        }
    }
}

/// Only a group of one token loses its braces: when `simple_script` holds, the
/// group is `{..}` and its content, blanks trimmed, is either a single
/// letter or digit, or a control sequence: a backslash and one character, or a
/// backslash and a name of letters that no letter follows once the braces go.
/// So `x^{10}` and `a_{12}` keep their braces, and so does `x^{\alpha}b`:
/// dropping them would change the token sequence.
pub proof fn simple_scripts_hold_one_token(s: Seq<char>, a: int, b: int)
    requires
        simple_script(s, a, b),
    ensures
        ({
            let g = s.subrange(a, b);
            let inner = trim(g.subrange(1, g.len() - 1), Pad::Blank);
            &&& g.len() >= 2
            &&& g[0] == '{'
            &&& g[g.len() - 1] == '}'
            &&& inner.len() == 1 || (inner.len() >= 2 && inner[0] == '\\')
            &&& inner.len() == 1 ==> alphanumeric(inner[0])
            &&& inner.len() > 2 ==> forall|i: int| 1 <= i < inner.len() ==> alphabetic(#[trigger] inner[i]) || inner[i] == '@'
            &&& (inner.len() >= 2 && forall|i: int| 1 <= i < inner.len() ==> alphabetic(#[trigger] inner[i]) || inner[i] == '@') ==> {
                let k = skip_pad(s, b, Pad::Blank);
                !(k < s.len() && (alphabetic(s[k]) || s[k] == '@'))
            }
        }),
{
    let g = s.subrange(a, b);
    let inner = trim(g.subrange(1, g.len() - 1), Pad::Blank);
    if inner.len() >= 2 {
        let command = inner.subrange(1, inner.len() as int);
        assert forall|i: int| 1 <= i < inner.len() implies #[trigger] inner[i] == command[i - 1] by {}
        if forall|i: int| 1 <= i < inner.len() ==> alphabetic(#[trigger] inner[i]) || inner[i] == '@' {
            assert forall|i: int| 0 <= i < command.len() implies alphabetic(#[trigger] command[i]) || command[i] == '@' by {
                assert(command[i] == inner[i + 1]);
            }
        }
    }
}

/// Commands whose arguments are text inside math.
pub open spec fn textual_name(t: Seq<char>) -> bool {
    ||| t == "\\text"@
    ||| t == "\\textrm"@
    ||| t == "\\textsf"@
    ||| t == "\\texttt"@
    ||| t == "\\textnormal"@
    ||| t == "\\textbf"@
    ||| t == "\\textmd"@
    ||| t == "\\textit"@
    ||| t == "\\textsl"@
    ||| t == "\\textsc"@
    ||| t == "\\emph"@
    ||| t == "\\mbox"@
    ||| t == "\\hbox"@
    ||| t == "\\operatorname"@
    ||| t == "\\operatorname*"@
    ||| t == "\\mathrm"@
    ||| t == "\\mathbf"@
    ||| t == "\\mathit"@
    ||| t == "\\mathsf"@
    ||| t == "\\mathtt"@
    ||| t == "\\mathcal"@
    ||| t == "\\mathbb"@
    ||| t == "\\mathfrak"@
}

pub fn is_textual_name(t: &[char]) -> (r: bool)
    ensures
        r == textual_name(t@),
{
    text_is(t, "\\text") || text_is(t, "\\textrm") || text_is(t, "\\textsf") || text_is(
        t,
        "\\texttt",
    ) || text_is(t, "\\textnormal") || text_is(t, "\\textbf") || text_is(t, "\\textmd")
        || text_is(t, "\\textit") || text_is(t, "\\textsl") || text_is(t, "\\textsc") || text_is(
        t,
        "\\emph",
    ) || text_is(t, "\\mbox") || text_is(t, "\\hbox") || text_is(t, "\\operatorname")
        || text_is(t, "\\operatorname*") || text_is(t, "\\mathrm") || text_is(t, "\\mathbf")
        || text_is(t, "\\mathit") || text_is(t, "\\mathsf") || text_is(t, "\\mathtt") || text_is(
        t,
        "\\mathcal",
    ) || text_is(t, "\\mathbb") || text_is(t, "\\mathfrak")
}

/// A generic command whose `command` child names a textual command.
pub open spec fn textual_command(s: Seq<char>, n: SyntaxNode) -> bool {
    match field_child(n, "command"@) {
        Some(c) => textual_name(node_text(s, c)),
        None => false,
    }
}

/// The ranges of the named children of `n` from child `k` on whose kind starts
/// with `curly_group`.
pub open spec fn curly_groups_from(s: Seq<char>, n: SyntaxNode, k: int) -> Seq<(int, int)>
    decreases n.children@.len() - k,
{
    if k < 0 || k >= n.children@.len() {
        seq![]
    } else {
        let c = n.children@[k];
        let rest = curly_groups_from(s, n, k + 1);
        if c.named && has_at(c.kind@, 0, "curly_group"@) {
            seq![node_range(s, c)] + rest
        } else {
            rest
        }
    }
}

/// Some character of `t` is ASCII whitespace.
pub open spec fn has_ascii_space(t: Seq<char>) -> bool {
    exists|i: int| 0 <= i < t.len() && ascii_whitespace(#[trigger] t[i])
}


/// Records an environment: the depth of its content rows, alignment blocks,
/// and rows whose content is raw.
pub open spec fn record_env(s: Seq<char>, opts: WriterOptions, st: MetaSpec, n: SyntaxNode) -> MetaSpec {
    match (field_child(n, "begin"@), field_child(n, "end"@)) {
        (Some(begin), Some(end)) => {
            let first = next_row(row_of(s, end_of(s, begin)) as int);
            let end_row = row_of(s, start_of(s, end)) as int;
            let marker = env_marker(node_text(s, begin), true);
            let name: Option<Seq<char>> = match marker {
                Some((me, a, b)) => Some(node_text(s, begin).subrange(a, b)),
                None => None,
            };
            let is_document = name == Some("document"@);
            let env = if opts.indent_document || !is_document {
                bump(st.env, first, end_row)
            } else {
                st.env
            };
            let blocks = if name matches Some(x) && is_alignment_env_name(x) && first < end_row {
                st.blocks.push((first, end_row))
            } else {
                st.blocks
            };
            let raw = if is_raw_env_kind(n.kind@) {
                mark(st.raw, first, end_row)
            } else {
                st.raw
            };
            MetaSpec { env, blocks, raw, ..st }
        },
        _ => st,
    }
}

/// Records the rows inside a displayed formula.
pub open spec fn record_display(s: Seq<char>, st: MetaSpec, n: SyntaxNode) -> MetaSpec {
    let first = next_row(row_of(s, start_of(s, n)) as int);
    let closing = row_of(s, end_of(s, n)) as int;
    MetaSpec { disp: bump(st.disp, first, closing), ..st }
}

/// Records the rows of an item's body, from the row after its declaration
/// through its last row.
pub open spec fn record_item(s: Seq<char>, st: MetaSpec, n: SyntaxNode) -> MetaSpec {
    match field_child(n, "command"@) {
        Some(command) => {
            let declaration = match field_child(n, "label"@) {
                Some(l) => l,
                None => command,
            };
            let first = next_row(row_of(s, end_of(s, declaration)) as int);
            let last = row_of(s, end_of(s, n)) as int;
            if first > last {
                st
            } else {
                MetaSpec { item: bump(st.item, first, last + 1), ..st }
            }
        },
        None => st,
    }
}

pub open spec fn push_delims(v: Seq<DelimSpec>, d: Option<DelimSpec>) -> Seq<DelimSpec> {
    match d {
        Some(x) => v.push(x),
        None => v,
    }
}

/// What one node contributes by its kind; `m` says whether it is in math.
pub open spec fn record_kind(s: Seq<char>, opts: WriterOptions, st: MetaSpec, n: SyntaxNode, m: bool) -> MetaSpec {
    let kind = n.kind@;
    if kind == "inline_formula"@ {
        MetaSpec {
            math: st.math.push(node_range(s, n)),
            formulas: push_delims(st.formulas, formula_delims(s, n, FormulaKind::Inline)),
            ..st
        }
    } else if kind == "displayed_equation"@ {
        let st1 = MetaSpec {
            math: st.math.push(node_range(s, n)),
            formulas: push_delims(st.formulas, formula_delims(s, n, FormulaKind::Display)),
            ..st
        };
        if opts.display_math_layout != DisplayMathLayout::Preserve {
            record_display(s, st1, n)
        } else {
            st1
        }
    } else if kind == "enum_item"@ && opts.item_finishes_with_line_break {
        record_item(s, st, n)
    } else if kind == "math_environment"@ {
        match (field_child(n, "begin"@), field_child(n, "end"@)) {
            (Some(b), Some(e)) => MetaSpec { math: st.math.push((end_of(s, b), start_of(s, e))), ..st },
            _ => st,
        }
    } else if kind == "text_mode"@ && m {
        MetaSpec { protected: st.protected.push(node_range(s, n)), ..st }
    } else if kind == "generic_command"@ && m && textual_command(s, n) {
        MetaSpec { protected: st.protected + curly_groups_from(s, n, 0), ..st }
    } else if kind == "command_name"@ && m {
        if has_ascii_space(node_text(s, n)) {
            MetaSpec { protected: st.protected.push(node_range(s, n)), ..st }
        } else {
            st
        }
    } else if (kind == "subscript"@ || kind == "superscript"@) && m {
        match field_child(n, kind) {
            Some(g) => if g.kind@ == "curly_group"@ && simple_script(s, start_of(s, g), end_of(s, g)) {
                MetaSpec { scripts: st.scripts.push(node_range(s, g)), ..st }
            } else {
                st
            },
            None => st,
        }
    } else {
        st
    }
}

/// Whether a node of this kind is a formula or math environment.
pub open spec fn math_kind(kind: Seq<char>) -> bool {
    kind == "inline_formula"@ || kind == "displayed_equation"@ || kind == "math_environment"@
}

/// What one node contributes, before its children.
pub open spec fn record_node(s: Seq<char>, opts: WriterOptions, st: MetaSpec, n: SyntaxNode, in_math: bool) -> MetaSpec {
    let st1 = if is_env_kind(n.kind@) {
        record_env(s, opts, st, n)
    } else {
        st
    };
    let m = in_math || math_kind(n.kind@);
    let st2 = record_kind(s, opts, st1, n, m);
    if n.kind@ == "line_comment"@ {
        let row = row_of(s, start_of(s, n)) as int;
        MetaSpec {
            comment: if row < st2.comment.len() {
                st2.comment.update(row, true)
            } else {
                st2.comment
            },
            protected: if m {
                st2.protected.push(node_range(s, n))
            } else {
                st2.protected
            },
            ..st2
        }
    } else {
        st2
    }
}

/// Visiting a node: its own contribution, then its children's in order.
pub open spec fn visit(s: Seq<char>, opts: WriterOptions, st: MetaSpec, n: SyntaxNode, in_math: bool) -> MetaSpec
    decreases n,
{
    let st1 = record_node(s, opts, st, n, in_math);
    let m = (in_math || math_kind(n.kind@)) && n.kind@ != "text_mode"@;
    visit_children(s, opts, st1, n, n.children@.len() as int, m)
}

/// Visiting the first `k` children of `n`.
pub open spec fn visit_children(s: Seq<char>, opts: WriterOptions, st: MetaSpec, n: SyntaxNode, k: int, m: bool) -> MetaSpec
    decreases n, k,
{
    if k <= 0 || k > n.children@.len() {
        st
    } else {
        let prev = visit_children(s, opts, st, n, k - 1, m);
        visit(s, opts, prev, n.children@[k - 1], m)
    }
}


/// Inserts `r` after every range that starts at or before it.
pub open spec fn insert_range(sorted: Seq<(int, int)>, r: (int, int)) -> Seq<(int, int)>
    decreases sorted.len(),
{
    if sorted.len() == 0 {
        seq![r]
    } else if sorted.last().0 <= r.0 {
        sorted.push(r)
    } else {
        insert_range(sorted.drop_last(), r).push(sorted.last())
    }
}

/// The ranges ordered by start; ranges with equal starts keep their order.
pub open spec fn sort_ranges(rs: Seq<(int, int)>) -> Seq<(int, int)>
    decreases rs.len(),
{
    if rs.len() == 0 {
        seq![]
    } else {
        insert_range(sort_ranges(rs.drop_last()), rs.last())
    }
}

/// Joins each range that starts before the previous one ends into it.
pub open spec fn merge_ranges(rs: Seq<(int, int)>) -> Seq<(int, int)>
    decreases rs.len(),
{
    if rs.len() == 0 {
        seq![]
    } else {
        let m = merge_ranges(rs.drop_last());
        let r = rs.last();
        if m.len() > 0 && r.0 <= m.last().1 {
            m.update(
                m.len() - 1,
                (
                    m.last().0,
                    if r.1 > m.last().1 {
                        r.1
                    } else {
                        m.last().1
                    },
                ),
            )
        } else {
            m.push(r)
        }
    }
}

/// Metadata before any node is visited: one entry per row, all clear.
pub open spec fn initial_meta(s: Seq<char>) -> MetaSpec {
    let rows = next_row(row_of(s, s.len() as int) as int) as nat;
    MetaSpec {
        env: Seq::new(rows, |i: int| 0usize),
        disp: Seq::new(rows, |i: int| 0usize),
        item: Seq::new(rows, |i: int| 0usize),
        raw: Seq::new(rows, |i: int| false),
        comment: Seq::new(rows, |i: int| false),
        math: seq![],
        protected: seq![],
        scripts: seq![],
        formulas: seq![],
        blocks: seq![],
    }
}

/// The metadata of a document: every node visited from the root, then the
/// math and protected ranges ordered and merged.
pub open spec fn tree_metadata(s: Seq<char>, opts: WriterOptions, root: SyntaxNode) -> MetaSpec {
    let v = visit(s, opts, initial_meta(s), root, false);
    MetaSpec {
        math: merge_ranges(sort_ranges(v.math)),
        protected: merge_ranges(sort_ranges(v.protected)),
        ..v
    }
}

fn bump_rows(v: &mut Vec<usize>, a: usize, b: usize)
    ensures
        final(v)@ == bump(old(v)@, a as int, b as int),
{
    let ghost target = bump(old(v)@, a as int, b as int);
    let hi = if b < v.len() {
        b
    } else {
        v.len()
    };
    let mut r = a;
    while r < hi
        invariant
            a <= r,
            hi <= v@.len(),
            hi <= b,
            v@.len() == old(v)@.len(),
            target == bump(old(v)@, a as int, b as int),
            forall|j: int| 0 <= j < v@.len() ==> #[trigger] v@[j] == if a <= j < r { target[j] } else { old(v)@[j] },
        decreases hi - r,
    {
        let x = v[r];
        let y = if x < usize::MAX {
            x + 1
        } else {
            x
        };
        assert(old(v)@[r as int] == x);
        assert(target[r as int] == y);
        v.set(r, y);
        r = r + 1;
    }
    assert(v@ =~= target);
}

fn mark_rows(v: &mut Vec<bool>, a: usize, b: usize)
    ensures
        final(v)@ == mark(old(v)@, a as int, b as int),
{
    let ghost target = mark(old(v)@, a as int, b as int);
    let hi = if b < v.len() {
        b
    } else {
        v.len()
    };
    let mut r = a;
    while r < hi
        invariant
            a <= r,
            hi <= v@.len(),
            hi <= b,
            v@.len() == old(v)@.len(),
            target == mark(old(v)@, a as int, b as int),
            forall|j: int| 0 <= j < v@.len() ==> #[trigger] v@[j] == if a <= j < r { target[j] } else { old(v)@[j] },
        decreases hi - r,
    {
        assert(target[r as int] == true);
        v.set(r, true);
        r = r + 1;
    }
    assert(v@ =~= target);
}

/// The character span of a fitting node of `s`.
pub fn span(s: &[char], map: &ByteMap, n: &SyntaxNode) -> (r: (usize, usize))
    requires
        fits(s@, *n),
        map.of(s@),
    ensures
        r.0 == start_of(s@, *n),
        r.1 == end_of(s@, *n),
        r.0 <= r.1 <= s@.len(),
{
    proof {
        lemma_fits(s@, *n);
    }
    (char_pos(map, n.start_byte), char_pos(map, n.end_byte))
}

pub fn row_after(rows: &Rows, s: &[char], i: usize) -> (r: usize)
    requires
        rows.of(s@),
        i <= s@.len(),
    ensures
        r == next_row(row_of(s@, i as int) as int),
{
    let x = rows.row(i);
    if x < usize::MAX {
        x + 1
    } else {
        x
    }
}

fn ends_with_exec(t: &[char], lit: &str) -> (r: bool)
    ensures
        r == ends_with(t@, lit@),
{
    let n = lit.unicode_len();
    if n > t.len() {
        return false;
    }
    matches_at(t, t.len() - n, lit)
}

fn formula_delims_exec(s: &[char], map: &ByteMap, n: &SyntaxNode, kind: FormulaKind) -> (r: Option<FormulaDelimiters>)
    requires
        fits(s@, *n),
        map.of(s@),
    ensures
        match r {
            Some(d) => formula_delims(s@, *n, kind) == Some(delim_view(d)),
            None => formula_delims(s@, *n, kind) is None,
        },
{
    let (a, b) = span(s, map, n);
    let t = &s[a..b];
    assert(t@ == node_text(s@, *n));
    proof {
        lemma_fits(s@, *n);
    }
    let lens: Option<(usize, usize)> = match kind {
        FormulaKind::Inline => {
            let o: usize = if matches_at(t, 0, "\\(") {
                2
            } else if matches_at(t, 0, "$") {
                1
            } else {
                0
            };
            let c: usize = if ends_with_exec(t, "\\)") {
                2
            } else if ends_with_exec(t, "$") {
                1
            } else {
                0
            };
            if o == 0 || c == 0 {
                None
            } else {
                Some((o, c))
            }
        },
        FormulaKind::Display => {
            if (matches_at(t, 0, "\\[") || matches_at(t, 0, "$$")) && (ends_with_exec(t, "\\]")
                || ends_with_exec(t, "$$")) {
                Some((2, 2))
            } else {
                None
            }
        },
    };
    let r = match lens {
        Some((o, c)) => {
            if n.end_byte - n.start_byte < o + c {
                None
            } else {
                proof {
                    reveal_strlit("\\(");
                    reveal_strlit("$");
                    reveal_strlit("\\)");
                    reveal_strlit("\\[");
                    reveal_strlit("$$");
                    reveal_strlit("\\]");
                }
                assert(o <= t@.len() && c <= t@.len());
                Some(FormulaDelimiters { kind, opening: (a, a + o), closing: (b - c, b) })
            }
        },
        None => None,
    };
    r
}


fn simple_script_exec(s: &[char], a: usize, b: usize) -> (r: bool)
    requires
        a <= b <= s@.len(),
    ensures
        r == simple_script(s@, a as int, b as int),
{
    let g = &s[a..b];
    assert(g@ == s@.subrange(a as int, b as int));
    let n = g.len();
    if n < 2 || g[0] != '{' || g[n - 1] != '}' {
        return false;
    }
    let body = &g[1..n - 1];
    let i0 = skip_pad_exec(body, 0, Pad::Blank);
    let ts = &body[i0..body.len()];
    let e = crate::text::rskip_pad_exec(ts, ts.len(), Pad::Blank);
    let inner = &ts[0..e];
    assert(inner@ == trim(body@, Pad::Blank));
    if inner.len() == 1 {
        return is_alphanumeric(inner[0]);
    }
    if inner.len() == 0 || inner[0] != '\\' {
        return false;
    }
    let command = &inner[1..inner.len()];
    if command.len() == 0 {
        return false;
    }
    let mut k: usize = 0;
    let mut all_word = true;
    while k < command.len()
        invariant
            k <= command@.len(),
            all_word == forall|x: int| 0 <= x < k ==> alphabetic(#[trigger] command@[x]) || command@[x] == '@',
        decreases command@.len() - k,
    {
        let ch = command[k];
        if !(is_alphabetic(ch) || ch == '@') {
            all_word = false;
        }
        k = k + 1;
    }
    if all_word {
        let p = skip_pad_exec(s, b, Pad::Blank);
        proof {
            crate::text::lemma_skip_pad(s@, b as int, Pad::Blank);
        }
        !(p < s.len() && (is_alphabetic(s[p]) || s[p] == '@'))
    } else {
        command.len() == 1
    }
}


/// The field child `name` of a fitting node.
pub fn field_node<'a>(s: &[char], n: &'a SyntaxNode, name: &str) -> (r: Option<&'a SyntaxNode>)
    requires
        fits(s@, *n),
    ensures
        r matches Some(c) ==> field_child(*n, name@) == Some(*c) && fits(s@, *c) && start_of(s@, *n)
            <= start_of(s@, *c) && end_of(s@, *c) <= end_of(s@, *n),
        r is None ==> field_child(*n, name@) is None,
{
    match field_index(n, name) {
        Some(k) => {
            proof {
                lemma_field_from(*n, name@, 0);
                lemma_child_fits(s@, *n, k as int);
            }
            Some(&n.children[k])
        },
        None => None,
    }
}

impl TreeMetadata {
    fn record_environment(&mut self, s: &[char], map: &ByteMap, rows: &Rows, opts: &WriterOptions, n: &SyntaxNode, kind: &[char])
        requires
            fits(s@, *n),
            map.of(s@),
            rows.of(s@),
            kind@ == n.kind@,
        ensures
            final(self).view() == record_env(s@, *opts, old(self).view(), *n),
    {
        let begin = field_node(s, n, "begin");
        let end = field_node(s, n, "end");
        match (begin, end) {
            (Some(begin), Some(end)) => {
                let (bs, be) = span(s, map, begin);
                let (es, ee) = span(s, map, end);
                let first = row_after(rows, s, be);
                let end_row = rows.row(es);
                let text = &s[bs..be];
                assert(text@ == node_text(s@, *begin));
                let marker = environment_marker(text, true);
                let (is_document, aligned) = match marker {
                    Some((_, a, b)) => {
                        let name = &text[a..b];
                        (text_is(name, "document"), is_alignment_environment_name(name))
                    },
                    None => (false, false),
                };
                proof {
                    match env_marker(node_text(s@, *begin), true) {
                        Some((me, a, b)) => {
                            assert(is_document == (node_text(s@, *begin).subrange(a, b) == "document"@));
                        },
                        None => {},
                    }
                }
                if opts.indent_document || !is_document {
                    bump_rows(&mut self.environment_depth, first, end_row);
                }
                if aligned && first < end_row {
                    self.alignment_blocks.push((first, end_row));
                }
                if is_raw_environment(kind) {
                    mark_rows(&mut self.raw_content, first, end_row);
                }
                proof {
                    assert(self.view().blocks =~= record_env(s@, *opts, old(self).view(), *n).blocks);
                }
            },
            _ => {},
        }
    }

    fn push_range(v: &mut Vec<(usize, usize)>, r: (usize, usize))
        ensures
            ranges_view(final(v)@) == ranges_view(old(v)@).push((r.0 as int, r.1 as int)),
    {
        v.push(r);
        assert(ranges_view(v@) =~= ranges_view(old(v)@).push((r.0 as int, r.1 as int)));
    }

    fn record_formula(&mut self, s: &[char], map: &ByteMap, n: &SyntaxNode, kind: FormulaKind)
        requires
            fits(s@, *n),
            map.of(s@),
        ensures
            final(self).view() == (MetaSpec {
                math: old(self).view().math.push(node_range(s@, *n)),
                formulas: push_delims(old(self).view().formulas, formula_delims(s@, *n, kind)),
                ..old(self).view()
            }),
    {
        let ghost st = self.view();
        let r = span(s, map, n);
        Self::push_range(&mut self.math_ranges, r);
        let d = formula_delims_exec(s, map, n, kind);
        let ghost f0 = self.formula_delimiters@;
        if let Some(d) = d {
            self.formula_delimiters.push(d);
            assert(delims_view(self.formula_delimiters@) =~= delims_view(f0).push(delim_view(d)));
        }
        proof {
            assert(delims_view(self.formula_delimiters@) =~= push_delims(st.formulas, formula_delims(s@, *n, kind)));
        }
    }

    fn record_display_exec(&mut self, s: &[char], map: &ByteMap, rows: &Rows, n: &SyntaxNode)
        requires
            fits(s@, *n),
            map.of(s@),
            rows.of(s@),
        ensures
            final(self).view() == record_display(s@, old(self).view(), *n),
    {
        let r = span(s, map, n);
        let first = row_after(rows, s, r.0);
        let closing = rows.row(r.1);
        bump_rows(&mut self.display_math_depth, first, closing);
    }

    fn record_item_exec(&mut self, s: &[char], map: &ByteMap, rows: &Rows, n: &SyntaxNode)
        requires
            fits(s@, *n),
            map.of(s@),
            rows.of(s@),
        ensures
            final(self).view() == record_item(s@, old(self).view(), *n),
    {
        match field_node(s, n, "command") {
            Some(command) => {
                let declaration = match field_node(s, n, "label") {
                    Some(l) => l,
                    None => command,
                };
                let (_, de) = span(s, map, declaration);
                let (_, ne) = span(s, map, n);
                let first = row_after(rows, s, de);
                let last = rows.row(ne);
                if first <= last {
                    proof {
                        crate::tree::lemma_row_bound(s@, ne as int);
                    }
                    let vl = self.item_depth.len();
                    let stop = if last < usize::MAX {
                        last + 1
                    } else {
                        last
                    };
                    assert(bump(self.item_depth@, first as int, stop as int) =~= bump(
                        self.item_depth@,
                        first as int,
                        last + 1,
                    ));
                    bump_rows(&mut self.item_depth, first, stop);
                }
            },
            None => {},
        }
    }

    fn record_math_environment(&mut self, s: &[char], map: &ByteMap, n: &SyntaxNode)
        requires
            fits(s@, *n),
            map.of(s@),
        ensures
            final(self).view() == (match (field_child(*n, "begin"@), field_child(*n, "end"@)) {
                (Some(b), Some(e)) => MetaSpec {
                    math: old(self).view().math.push((end_of(s@, b), start_of(s@, e))),
                    ..old(self).view()
                },
                _ => old(self).view(),
            }),
    {
        match (field_node(s, n, "begin"), field_node(s, n, "end")) {
            (Some(b), Some(e)) => {
                let (_, be) = span(s, map, b);
                let (es, _) = span(s, map, e);
                Self::push_range(&mut self.math_ranges, (be, es));
            },
            _ => {},
        }
    }

    fn record_textual(&mut self, s: &[char], map: &ByteMap, n: &SyntaxNode)
        requires
            fits(s@, *n),
            map.of(s@),
        ensures
            final(self).view() == (MetaSpec {
                protected: old(self).view().protected + curly_groups_from(s@, *n, 0),
                ..old(self).view()
            }),
    {
        let mut k: usize = 0;
        let ghost target = self.view().protected + curly_groups_from(s@, *n, 0);
        while k < n.children.len()
            invariant
                fits(s@, *n),
                map.of(s@),
                k <= n.children@.len(),
                ranges_view(self.protected_math_ranges@) + curly_groups_from(s@, *n, k as int) == target,
                self.view() == (MetaSpec { protected: self.view().protected, ..old(self).view() }),
            decreases n.children@.len() - k,
        {
            let c = &n.children[k];
            proof {
                lemma_child_fits(s@, *n, k as int);
            }
            let ck = chars_of(c.kind.as_str());
            let ghost before = ranges_view(self.protected_math_ranges@);
            if c.named && matches_at(ck.as_slice(), 0, "curly_group") {
                let r = span(s, map, c);
                Self::push_range(&mut self.protected_math_ranges, r);
                assert(before + curly_groups_from(s@, *n, k as int) =~= ranges_view(self.protected_math_ranges@) + curly_groups_from(s@, *n, k + 1));
            } else {
                assert(curly_groups_from(s@, *n, k as int) == curly_groups_from(s@, *n, k + 1));
            }
            k = k + 1;
        }
        assert(curly_groups_from(s@, *n, k as int) =~= Seq::<(int, int)>::empty());
        assert(ranges_view(self.protected_math_ranges@) =~= target);
    }

    fn record_command_name(&mut self, s: &[char], map: &ByteMap, n: &SyntaxNode)
        requires
            fits(s@, *n),
            map.of(s@),
        ensures
            final(self).view() == (if has_ascii_space(node_text(s@, *n)) {
                MetaSpec { protected: old(self).view().protected.push(node_range(s@, *n)), ..old(self).view() }
            } else {
                old(self).view()
            }),
    {
        let (a, b) = span(s, map, n);
        let mut k = a;
        let mut found = false;
        while k < b
            invariant
                a <= k <= b <= s@.len(),
                found == exists|x: int| a <= x < k && ascii_whitespace(#[trigger] s@[x]),
            decreases b - k,
        {
            if is_ascii_whitespace(s[k]) {
                found = true;
            }
            k = k + 1;
        }
        proof {
            let t = node_text(s@, *n);
            if found {
                let x = choose|x: int| a <= x < b && ascii_whitespace(#[trigger] s@[x]);
                assert(t[x - a] == s@[x]);
            }
            if has_ascii_space(t) {
                let i = choose|i: int| 0 <= i < t.len() && ascii_whitespace(#[trigger] t[i]);
                assert(s@[a + i] == t[i]);
            }
        }
        if found {
            Self::push_range(&mut self.protected_math_ranges, (a, b));
        }
    }

    fn record_script(&mut self, s: &[char], map: &ByteMap, n: &SyntaxNode, sub: bool)
        requires
            fits(s@, *n),
            map.of(s@),
        ensures
            final(self).view() == (match field_child(*n, if sub { "subscript"@ } else { "superscript"@ }) {
                Some(g) => if g.kind@ == "curly_group"@ && simple_script(s@, start_of(s@, g), end_of(s@, g)) {
                    MetaSpec { scripts: old(self).view().scripts.push(node_range(s@, g)), ..old(self).view() }
                } else {
                    old(self).view()
                },
                None => old(self).view(),
            }),
    {
        let g = if sub {
            field_node(s, n, "subscript")
        } else {
            field_node(s, n, "superscript")
        };
        match g {
            Some(g) => {
                let gk = chars_of(g.kind.as_str());
                let (a, b) = span(s, map, g);
                if text_is(gk.as_slice(), "curly_group") && simple_script_exec(s, a, b) {
                    Self::push_range(&mut self.simple_script_groups, (a, b));
                }
            },
            None => {},
        }
    }

    #[verifier::rlimit(40)]
    fn record_kind_exec(&mut self, s: &[char], map: &ByteMap, rows: &Rows, opts: &WriterOptions, n: &SyntaxNode, kind: &[char], m: bool)
        requires
            fits(s@, *n),
            map.of(s@),
            rows.of(s@),
            kind@ == n.kind@,
        ensures
            final(self).view() == record_kind(s@, *opts, old(self).view(), *n, m),
    {
        if text_is(kind, "inline_formula") {
            self.record_formula(s, map, n, FormulaKind::Inline);
        } else if text_is(kind, "displayed_equation") {
            self.record_formula(s, map, n, FormulaKind::Display);
            if opts.display_math_layout != DisplayMathLayout::Preserve {
                self.record_display_exec(s, map, rows, n);
            }
        } else if text_is(kind, "enum_item") && opts.item_finishes_with_line_break {
            self.record_item_exec(s, map, rows, n);
        } else if text_is(kind, "math_environment") {
            self.record_math_environment(s, map, n);
        } else if text_is(kind, "text_mode") && m {
            let r = span(s, map, n);
            Self::push_range(&mut self.protected_math_ranges, r);
        } else if text_is(kind, "generic_command") && m && is_textual_command(s, map, n) {
            self.record_textual(s, map, n);
        } else if text_is(kind, "command_name") && m {
            self.record_command_name(s, map, n);
        } else if (text_is(kind, "subscript") || text_is(kind, "superscript")) && m {
            let sub = text_is(kind, "subscript");
            self.record_script(s, map, n, sub);
        }
    }
}

/// Whether a generic command names a textual command.
fn is_textual_command(s: &[char], map: &ByteMap, n: &SyntaxNode) -> (r: bool)
    requires
        fits(s@, *n),
        map.of(s@),
    ensures
        r == textual_command(s@, *n),
{
    match field_node(s, n, "command") {
        Some(c) => {
            let (a, b) = span(s, map, c);
            is_textual_name(&s[a..b])
        },
        None => false,
    }
}


impl TreeMetadata {
    fn record_node_exec(&mut self, s: &[char], map: &ByteMap, rows: &Rows, opts: &WriterOptions, n: &SyntaxNode, kind: &[char], in_math: bool) -> (m: bool)
        requires
            fits(s@, *n),
            map.of(s@),
            rows.of(s@),
            kind@ == n.kind@,
        ensures
            final(self).view() == record_node(s@, *opts, old(self).view(), *n, in_math),
            m == (in_math || math_kind(n.kind@)),
    {
        if is_environment(kind) {
            self.record_environment(s, map, rows, opts, n, kind);
        }
        let m = in_math || text_is(kind, "inline_formula") || text_is(kind, "displayed_equation")
            || text_is(kind, "math_environment");
        self.record_kind_exec(s, map, rows, opts, n, kind, m);
        if text_is(kind, "line_comment") {
            let (a, b) = span(s, map, n);
            let row = rows.row(a);
            if row < self.contains_comment.len() {
                self.contains_comment.set(row, true);
            }
            if m {
                Self::push_range(&mut self.protected_math_ranges, (a, b));
            }
        }
        m
    }

    fn visit_exec(&mut self, s: &[char], map: &ByteMap, rows: &Rows, opts: &WriterOptions, n: &SyntaxNode, in_math: bool)
        requires
            fits(s@, *n),
            map.of(s@),
            rows.of(s@),
        ensures
            final(self).view() == visit(s@, *opts, old(self).view(), *n, in_math),
        decreases n,
    {
        let kind = chars_of(n.kind.as_str());
        let m0 = self.record_node_exec(s, map, rows, opts, n, kind.as_slice(), in_math);
        let m = m0 && !text_is(kind.as_slice(), "text_mode");
        let ghost st1 = self.view();
        let mut k: usize = 0;
        while k < n.children.len()
            invariant
                fits(s@, *n),
                map.of(s@),
                rows.of(s@),
                k <= n.children@.len(),
                self.view() == visit_children(s@, *opts, st1, *n, k as int, m),
            decreases n.children@.len() - k,
        {
            proof {
                lemma_child_fits(s@, *n, k as int);
            }
            assert(decreases_to!(n => n.children@[k as int]));
            self.visit_exec(s, map, rows, opts, &n.children[k], m);
            k = k + 1;
        }
    }
}

/// Orders ranges by start, keeping the order of ranges with equal starts.
fn sort_range_vec(v: Vec<(usize, usize)>) -> (r: Vec<(usize, usize)>)
    ensures
        ranges_view(r@) == sort_ranges(ranges_view(v@)),
{
    let ghost all = ranges_view(v@);
    let mut sorted: Vec<(usize, usize)> = Vec::new();
    let mut i: usize = 0;
    while i < v.len()
        invariant
            i <= v@.len(),
            all == ranges_view(v@),
            ranges_view(sorted@) == sort_ranges(all.subrange(0, i as int)),
        decreases v@.len() - i,
    {
        let x = v[i];
        proof {
            assert(all.subrange(0, i + 1).drop_last() =~= all.subrange(0, i as int));
            assert(all.subrange(0, i + 1).last() == (x.0 as int, x.1 as int));
        }
        let ghost sv = ranges_view(sorted@);
        let mut p = sorted.len();
        assert(sv.take(sorted@.len() as int) =~= sv);
        while p > 0 && sorted[p - 1].0 > x.0
            invariant
                p <= sorted@.len(),
                sv == ranges_view(sorted@),
                insert_range(sv, (x.0 as int, x.1 as int)) == insert_range(sv.take(p as int), (x.0 as int, x.1 as int)) + sv.subrange(p as int, sv.len() as int),
                forall|j: int| p <= j < sv.len() ==> #[trigger] sv[j].0 > x.0,
            decreases p,
        {
            let ghost t = sv.take(p as int);
            assert(t.drop_last() =~= sv.take(p - 1));
            assert(t.last() == sv[p - 1]);
            assert(insert_range(t, (x.0 as int, x.1 as int)) == insert_range(sv.take(p - 1), (x.0 as int, x.1 as int)).push(sv[p - 1]));
            assert(sv.subrange(p - 1, sv.len() as int) =~= seq![sv[p - 1]] + sv.subrange(p as int, sv.len() as int));
            assert(insert_range(sv.take(p - 1), (x.0 as int, x.1 as int)).push(sv[p - 1]) + sv.subrange(p as int, sv.len() as int) =~= insert_range(sv.take(p - 1), (x.0 as int, x.1 as int)) + sv.subrange(p - 1, sv.len() as int));
            p = p - 1;
        }
        proof {
            let t = sv.take(p as int);
            if p > 0 {
                assert(t.last() == sv[p - 1]);
                assert(insert_range(t, (x.0 as int, x.1 as int)) == t.push((x.0 as int, x.1 as int)));
            } else {
                assert(t =~= Seq::<(int, int)>::empty());
            }
        }
        sorted.insert(p, x);
        proof {
            let t = sv.take(p as int);
            assert(ranges_view(sorted@) =~= t.push((x.0 as int, x.1 as int)) + sv.subrange(p as int, sv.len() as int));
        }
        i = i + 1;
    }
    assert(all.subrange(0, v@.len() as int) =~= all);
    sorted
}

/// Joins overlapping or touching neighbours of ranges ordered by start.
fn merge_range_vec(v: Vec<(usize, usize)>) -> (r: Vec<(usize, usize)>)
    ensures
        ranges_view(r@) == merge_ranges(ranges_view(v@)),
{
    let ghost all = ranges_view(v@);
    let mut merged: Vec<(usize, usize)> = Vec::new();
    let mut i: usize = 0;
    while i < v.len()
        invariant
            i <= v@.len(),
            all == ranges_view(v@),
            ranges_view(merged@) == merge_ranges(all.subrange(0, i as int)),
        decreases v@.len() - i,
    {
        let x = v[i];
        proof {
            assert(all.subrange(0, i + 1).drop_last() =~= all.subrange(0, i as int));
            assert(all.subrange(0, i + 1).last() == (x.0 as int, x.1 as int));
        }
        let n = merged.len();
        if n > 0 && x.0 <= merged[n - 1].1 {
            let last = merged[n - 1];
            let end = if x.1 > last.1 {
                x.1
            } else {
                last.1
            };
            merged.set(n - 1, (last.0, end));
        } else {
            merged.push(x);
        }
        proof {
            assert(ranges_view(merged@) =~= merge_ranges(all.subrange(0, i + 1)));
        }
        i = i + 1;
    }
    assert(all.subrange(0, v@.len() as int) =~= all);
    merged
}

impl TreeMetadata {
    /// The metadata of a text from its syntax tree.
    pub fn from_tree(tree: &SyntaxTree, s: &[char], map: &ByteMap, opts: &WriterOptions) -> (r: TreeMetadata)
        requires
            fits(s@, tree.root),
            map.of(s@),
        ensures
            r.view() == tree_metadata(s@, *opts, tree.root),
    {
        let rows = Rows::new(s);
        let lines = row_after(&rows, s, s.len());
        let ghost init = initial_meta(s@);
        let mut env: Vec<usize> = Vec::new();
        let mut disp: Vec<usize> = Vec::new();
        let mut item: Vec<usize> = Vec::new();
        let mut raw: Vec<bool> = Vec::new();
        let mut comment: Vec<bool> = Vec::new();
        let mut k: usize = 0;
        proof {
            crate::tree::lemma_row_bound(s@, s@.len() as int);
        }
        while k < lines
            invariant
                k <= lines,
                lines == init.env.len(),
                env@ == init.env.take(k as int),
                disp@ == init.disp.take(k as int),
                item@ == init.item.take(k as int),
                raw@ == init.raw.take(k as int),
                comment@ == init.comment.take(k as int),
                init == initial_meta(s@),
            decreases lines - k,
        {
            env.push(0);
            disp.push(0);
            item.push(0);
            raw.push(false);
            comment.push(false);
            k = k + 1;
            assert(env@ =~= init.env.take(k as int));
            assert(disp@ =~= init.disp.take(k as int));
            assert(item@ =~= init.item.take(k as int));
            assert(raw@ =~= init.raw.take(k as int));
            assert(comment@ =~= init.comment.take(k as int));
        }
        let mut meta = TreeMetadata {
            environment_depth: env,
            display_math_depth: disp,
            item_depth: item,
            raw_content: raw,
            contains_comment: comment,
            math_ranges: Vec::new(),
            protected_math_ranges: Vec::new(),
            simple_script_groups: Vec::new(),
            formula_delimiters: Vec::new(),
            alignment_blocks: Vec::new(),
        };
        proof {
            assert(init.env.take(lines as int) =~= init.env);
            assert(init.disp.take(lines as int) =~= init.disp);
            assert(init.item.take(lines as int) =~= init.item);
            assert(init.raw.take(lines as int) =~= init.raw);
            assert(init.comment.take(lines as int) =~= init.comment);
            assert(ranges_view(meta.math_ranges@) =~= seq![]);
            assert(ranges_view(meta.protected_math_ranges@) =~= seq![]);
            assert(ranges_view(meta.simple_script_groups@) =~= seq![]);
            assert(ranges_view(meta.alignment_blocks@) =~= seq![]);
            assert(delims_view(meta.formula_delimiters@) =~= seq![]);
            assert(meta.view() == init);
        }
        meta.visit_exec(s, map, &rows, opts, &tree.root, false);
        let mut math: Vec<(usize, usize)> = Vec::new();
        std::mem::swap(&mut math, &mut meta.math_ranges);
        meta.math_ranges = merge_range_vec(sort_range_vec(math));
        let mut protected: Vec<(usize, usize)> = Vec::new();
        std::mem::swap(&mut protected, &mut meta.protected_math_ranges);
        meta.protected_math_ranges = merge_range_vec(sort_range_vec(protected));
        meta
    }
}


/// The script groups and formula delimiters recorded so far are ranges of a
/// text of length `n`; each script group holds its two braces.
pub open spec fn meta_ok(n: int, st: MetaSpec) -> bool {
    &&& scripts_ok(n, st.scripts)
    &&& forall|i: int|
        0 <= i < st.formulas.len() ==> 0 <= (#[trigger] st.formulas[i]).1.0 <= st.formulas[i].1.1
            <= n && 0 <= st.formulas[i].2.0 <= st.formulas[i].2.1 <= n
}

/// Each script group spans at least its two braces inside a text of `n` characters.
pub open spec fn scripts_ok(n: int, scripts: Seq<(int, int)>) -> bool {
    forall|i: int| 0 <= i < scripts.len() ==> 0 <= (#[trigger] scripts[i]).0 && scripts[i].0 + 2 <= scripts[i].1 <= n
}

proof fn lemma_formula_ok(s: Seq<char>, n: SyntaxNode, kind: FormulaKind)
    requires
        fits(s, n),
    ensures
        formula_delims(s, n, kind) matches Some(d) ==> 0 <= d.1.0 <= d.1.1 <= s.len() && 0 <= d.2.0
            <= d.2.1 <= s.len(),
{
    lemma_fits(s, n);
    reveal_strlit("\\(");
    reveal_strlit("$");
    reveal_strlit("\\)");
    reveal_strlit("\\[");
    reveal_strlit("$$");
    reveal_strlit("\\]");
}

proof fn lemma_record_ok(s: Seq<char>, opts: WriterOptions, st: MetaSpec, n: SyntaxNode, in_math: bool)
    requires
        fits(s, n),
        meta_ok(s.len() as int, st),
    ensures
        meta_ok(s.len() as int, record_node(s, opts, st, n, in_math)),
{
    lemma_fits(s, n);
    lemma_formula_ok(s, n, FormulaKind::Inline);
    lemma_formula_ok(s, n, FormulaKind::Display);
    let st1 = if is_env_kind(n.kind@) {
        record_env(s, opts, st, n)
    } else {
        st
    };
    assert(meta_ok(s.len() as int, st1));
    let m = in_math || math_kind(n.kind@);
    let kind = n.kind@;
    if (kind == "subscript"@ || kind == "superscript"@) && m {
        lemma_field_from(n, kind, 0);
        if let Some(k) = field_from(n, kind, 0) {
            lemma_child_fits(s, n, k);
            lemma_fits(s, n.children@[k]);
        }
    }
    let st2 = record_kind(s, opts, st1, n, m);
    assert(meta_ok(s.len() as int, st2));
}

proof fn lemma_visit_ok(s: Seq<char>, opts: WriterOptions, st: MetaSpec, n: SyntaxNode, in_math: bool)
    requires
        fits(s, n),
        meta_ok(s.len() as int, st),
    ensures
        meta_ok(s.len() as int, visit(s, opts, st, n, in_math)),
    decreases n,
{
    lemma_record_ok(s, opts, st, n, in_math);
    let st1 = record_node(s, opts, st, n, in_math);
    let m = (in_math || math_kind(n.kind@)) && n.kind@ != "text_mode"@;
    lemma_visit_children_ok(s, opts, st1, n, n.children@.len() as int, m);
}

proof fn lemma_visit_children_ok(s: Seq<char>, opts: WriterOptions, st: MetaSpec, n: SyntaxNode, k: int, m: bool)
    requires
        fits(s, n),
        meta_ok(s.len() as int, st),
    ensures
        meta_ok(s.len() as int, visit_children(s, opts, st, n, k, m)),
    decreases n, k,
{
    if 0 < k <= n.children@.len() {
        lemma_visit_children_ok(s, opts, st, n, k - 1, m);
        lemma_child_fits(s, n, k - 1);
        lemma_visit_ok(s, opts, visit_children(s, opts, st, n, k - 1, m), n.children@[k - 1], m);
    }
}

/// The metadata of a fitting tree has script groups and delimiters inside the text.
pub proof fn lemma_tree_metadata_ok(s: Seq<char>, opts: WriterOptions, root: SyntaxNode)
    requires
        fits(s, root),
    ensures
        meta_ok(s.len() as int, tree_metadata(s, opts, root)),
{
    lemma_visit_ok(s, opts, initial_meta(s), root, false);
}


/// `a` is where `b` starts.
pub open spec fn prefix_of<A>(a: Seq<A>, b: Seq<A>) -> bool {
    a.len() <= b.len() && b.subrange(0, a.len() as int) == a
}

/// `b` came from `a` by updating rows in place and appending ranges: each per-row
/// sequence keeps its length, and each range list of `a` starts that of `b`.
pub open spec fn grown(a: MetaSpec, b: MetaSpec) -> bool {
    &&& b.env.len() == a.env.len()
    &&& b.disp.len() == a.disp.len()
    &&& b.item.len() == a.item.len()
    &&& b.raw.len() == a.raw.len()
    &&& b.comment.len() == a.comment.len()
    &&& prefix_of(a.math, b.math)
    &&& prefix_of(a.protected, b.protected)
    &&& prefix_of(a.scripts, b.scripts)
    &&& prefix_of(a.formulas, b.formulas)
    &&& prefix_of(a.blocks, b.blocks)
}

pub proof fn lemma_prefix_push<A>(a: Seq<A>, x: A)
    ensures
        prefix_of(a, a.push(x)),
{
    assert(a.push(x).subrange(0, a.len() as int) =~= a);
}

pub proof fn lemma_prefix_concat<A>(a: Seq<A>, b: Seq<A>)
    ensures
        prefix_of(a, a + b),
{
    assert((a + b).subrange(0, a.len() as int) =~= a);
}

pub proof fn lemma_prefix_trans<A>(a: Seq<A>, b: Seq<A>, c: Seq<A>)
    requires
        prefix_of(a, b),
        prefix_of(b, c),
    ensures
        prefix_of(a, c),
{
    assert(c.subrange(0, a.len() as int) =~= b.subrange(0, a.len() as int));
}

proof fn lemma_grown_refl(a: MetaSpec)
    ensures
        grown(a, a),
{
    assert(a.math.subrange(0, a.math.len() as int) =~= a.math);
    assert(a.protected.subrange(0, a.protected.len() as int) =~= a.protected);
    assert(a.scripts.subrange(0, a.scripts.len() as int) =~= a.scripts);
    assert(a.formulas.subrange(0, a.formulas.len() as int) =~= a.formulas);
    assert(a.blocks.subrange(0, a.blocks.len() as int) =~= a.blocks);
}

proof fn lemma_grown_trans(a: MetaSpec, b: MetaSpec, c: MetaSpec)
    requires
        grown(a, b),
        grown(b, c),
    ensures
        grown(a, c),
{
    lemma_prefix_trans(a.math, b.math, c.math);
    lemma_prefix_trans(a.protected, b.protected, c.protected);
    lemma_prefix_trans(a.scripts, b.scripts, c.scripts);
    lemma_prefix_trans(a.formulas, b.formulas, c.formulas);
    lemma_prefix_trans(a.blocks, b.blocks, c.blocks);
}

proof fn lemma_record_grows(s: Seq<char>, opts: WriterOptions, st: MetaSpec, n: SyntaxNode, in_math: bool)
    ensures
        grown(st, record_node(s, opts, st, n, in_math)),
{
    lemma_grown_refl(st);
    let st1 = if is_env_kind(n.kind@) {
        record_env(s, opts, st, n)
    } else {
        st
    };
    if is_env_kind(n.kind@) {
        if let (Some(begin), Some(end)) = (field_child(n, "begin"@), field_child(n, "end"@)) {
            let first = next_row(row_of(s, end_of(s, begin)) as int);
            let end_row = row_of(s, start_of(s, end)) as int;
            lemma_prefix_push(st.blocks, (first, end_row));
        }
    }
    assert(grown(st, st1));
    lemma_grown_refl(st1);
    let m = in_math || math_kind(n.kind@);
    let st2 = record_kind(s, opts, st1, n, m);
    let kind = n.kind@;
    lemma_prefix_push(st1.math, node_range(s, n));
    lemma_prefix_push(st1.protected, node_range(s, n));
    lemma_prefix_concat(st1.protected, curly_groups_from(s, n, 0));
    if let Some(d) = formula_delims(s, n, FormulaKind::Inline) {
        lemma_prefix_push(st1.formulas, d);
    }
    if let Some(d) = formula_delims(s, n, FormulaKind::Display) {
        lemma_prefix_push(st1.formulas, d);
    }
    if let (Some(b), Some(e)) = (field_child(n, "begin"@), field_child(n, "end"@)) {
        lemma_prefix_push(st1.math, (end_of(s, b), start_of(s, e)));
    }
    if let Some(g) = field_child(n, kind) {
        lemma_prefix_push(st1.scripts, node_range(s, g));
    }
    assert(grown(st1, st2));
    lemma_grown_trans(st, st1, st2);
    lemma_grown_refl(st2);
    lemma_prefix_push(st2.protected, node_range(s, n));
    assert(grown(st2, record_node(s, opts, st, n, in_math)));
    lemma_grown_trans(st, st2, record_node(s, opts, st, n, in_math));
}

proof fn lemma_visit_children_grows(s: Seq<char>, opts: WriterOptions, st: MetaSpec, n: SyntaxNode, k: int, m: bool)
    ensures
        grown(st, visit_children(s, opts, st, n, k, m)),
    decreases n, k,
{
    if k <= 0 || k > n.children@.len() {
        lemma_grown_refl(st);
    } else {
        lemma_visit_children_grows(s, opts, st, n, k - 1, m);
        let prev = visit_children(s, opts, st, n, k - 1, m);
        visit_only_appends(s, opts, prev, n.children@[k - 1], m);
        lemma_grown_trans(st, prev, visit_children(s, opts, st, n, k, m));
    }
}

/// Visiting a node only updates existing rows and appends ranges: every per-row
/// sequence keeps its length, and every range list found so far stays at the
/// front of the new one.
pub proof fn visit_only_appends(s: Seq<char>, opts: WriterOptions, st: MetaSpec, n: SyntaxNode, in_math: bool)
    ensures
        grown(st, visit(s, opts, st, n, in_math)),
    decreases n,
{
    lemma_record_grows(s, opts, st, n, in_math);
    let st1 = record_node(s, opts, st, n, in_math);
    let m = (in_math || math_kind(n.kind@)) && n.kind@ != "text_mode"@;
    lemma_visit_children_grows(s, opts, st1, n, n.children@.len() as int, m);
    lemma_grown_trans(st, st1, visit(s, opts, st, n, in_math));
}

/// The metadata of a document has one entry per row in each per-row sequence,
/// as many as the text has rows.
pub proof fn metadata_has_one_entry_per_row(s: Seq<char>, opts: WriterOptions, root: SyntaxNode)
    ensures
        ({
            let rows = next_row(row_of(s, s.len() as int) as int);
            let m = tree_metadata(s, opts, root);
            &&& m.env.len() == rows
            &&& m.disp.len() == rows
            &&& m.item.len() == rows
            &&& m.raw.len() == rows
            &&& m.comment.len() == rows
        }),
{
    visit_only_appends(s, opts, initial_meta(s), root, false);
}

/// Every range of `rs` starts at or after the start of the text.
pub open spec fn starts_in_text(rs: Seq<(int, int)>) -> bool {
    forall|k: int| 0 <= k < rs.len() ==> 0 <= (#[trigger] rs[k]).0
}

proof fn lemma_record_math_starts(s: Seq<char>, opts: WriterOptions, st: MetaSpec, n: SyntaxNode, in_math: bool)
    requires
        fits(s, n),
        starts_in_text(st.math),
    ensures
        starts_in_text(record_node(s, opts, st, n, in_math).math),
{
    lemma_fits(s, n);
    lemma_field_from(n, "begin"@, 0);
    if let Some(k) = field_from(n, "begin"@, 0) {
        lemma_child_fits(s, n, k);
        lemma_fits(s, n.children@[k]);
    }
    let st1 = if is_env_kind(n.kind@) {
        record_env(s, opts, st, n)
    } else {
        st
    };
    assert(st1.math == st.math);
    let m = in_math || math_kind(n.kind@);
    let st2 = record_kind(s, opts, st1, n, m);
    assert(starts_in_text(st2.math));
}

proof fn lemma_visit_math_starts(s: Seq<char>, opts: WriterOptions, st: MetaSpec, n: SyntaxNode, in_math: bool)
    requires
        fits(s, n),
        starts_in_text(st.math),
    ensures
        starts_in_text(visit(s, opts, st, n, in_math).math),
    decreases n,
{
    lemma_record_math_starts(s, opts, st, n, in_math);
    let st1 = record_node(s, opts, st, n, in_math);
    let m = (in_math || math_kind(n.kind@)) && n.kind@ != "text_mode"@;
    lemma_visit_children_math_starts(s, opts, st1, n, n.children@.len() as int, m);
}

proof fn lemma_visit_children_math_starts(s: Seq<char>, opts: WriterOptions, st: MetaSpec, n: SyntaxNode, k: int, m: bool)
    requires
        fits(s, n),
        starts_in_text(st.math),
    ensures
        starts_in_text(visit_children(s, opts, st, n, k, m).math),
    decreases n, k,
{
    if 0 < k <= n.children@.len() {
        lemma_visit_children_math_starts(s, opts, st, n, k - 1, m);
        lemma_child_fits(s, n, k - 1);
        lemma_visit_math_starts(s, opts, visit_children(s, opts, st, n, k - 1, m), n.children@[k - 1], m);
    }
}

proof fn lemma_merge_starts_in_text(rs: Seq<(int, int)>)
    requires
        starts_in_text(rs),
    ensures
        starts_in_text(merge_ranges(rs)),
    decreases rs.len(),
{
    if rs.len() > 0 {
        assert(starts_in_text(rs.drop_last()));
        lemma_merge_starts_in_text(rs.drop_last());
    }
}

proof fn lemma_sort_starts_in_text(rs: Seq<(int, int)>)
    requires
        starts_in_text(rs),
    ensures
        starts_in_text(sort_ranges(rs)),
{
    broadcast use vstd::seq_lib::group_seq_properties;
    sorted_ranges_are_ordered(rs);
    let t = sort_ranges(rs);
    assert forall|k: int| 0 <= k < t.len() implies 0 <= (#[trigger] t[k]).0 by {
        assert(t.to_multiset().count(t[k]) > 0);
        assert(rs.to_multiset().count(t[k]) > 0);
        assert(rs.contains(t[k]));
    }
}

/// The math ranges of the metadata of a fitting tree start inside the text.
pub proof fn lemma_metadata_math_starts(s: Seq<char>, opts: WriterOptions, root: SyntaxNode)
    requires
        fits(s, root),
    ensures
        starts_in_text(tree_metadata(s, opts, root).math),
{
    lemma_visit_math_starts(s, opts, initial_meta(s), root, false);
    let v = visit(s, opts, initial_meta(s), root, false);
    lemma_sort_starts_in_text(v.math);
    lemma_merge_starts_in_text(sort_ranges(v.math));
}

/// In `n` and every node under it, a child held under the field `begin` comes
/// before the child held under the field `end`.
pub open spec fn begins_before_ends(n: SyntaxNode) -> bool
    decreases n,
{
    &&& match (field_from(n, "begin"@, 0), field_from(n, "end"@, 0)) {
        (Some(b), Some(e)) => b < e,
        _ => true,
    }
    &&& children_begin_before_end(n, n.children@.len() as int)
}

/// `begins_before_ends` holds of the first `k` children of `n`.
pub open spec fn children_begin_before_end(n: SyntaxNode, k: int) -> bool
    decreases n, k,
{
    if k <= 0 || k > n.children@.len() {
        true
    } else {
        children_begin_before_end(n, k - 1) && begins_before_ends(n.children@[k - 1])
    }
}

/// Children of a fitting node come one after another: an earlier child ends
/// no later than a later one starts.
pub proof fn lemma_children_in_order(s: Seq<char>, n: SyntaxNode, i: int, j: int)
    requires
        fits(s, n),
        0 <= i < j < n.children@.len(),
    ensures
        end_of(s, n.children@[i]) <= start_of(s, n.children@[j]),
    decreases j - i,
{
    lemma_child_fits(s, n, j);
    if i + 1 < j {
        lemma_children_in_order(s, n, i, j - 1);
        lemma_child_fits(s, n, j - 1);
        lemma_fits(s, n.children@[j - 1]);
    }
}

proof fn lemma_curly_groups_ordered(s: Seq<char>, n: SyntaxNode, k: int)
    requires
        fits(s, n),
        0 <= k,
    ensures
        well_ordered_ranges(curly_groups_from(s, n, k)),
    decreases n.children@.len() - k,
{
    if k < n.children@.len() {
        lemma_curly_groups_ordered(s, n, k + 1);
        lemma_child_fits(s, n, k);
        lemma_fits(s, n.children@[k]);
        let rest = curly_groups_from(s, n, k + 1);
        let one = seq![node_range(s, n.children@[k])];
        assert forall|q: int| 0 <= q < (one + rest).len() implies (#[trigger] (one + rest)[q]).0 <= (one + rest)[q].1 by {
            if q > 0 {
                assert((one + rest)[q] == rest[q - 1]);
            }
        }
    }
}

proof fn lemma_ordered_push(rs: Seq<(int, int)>, r: (int, int))
    requires
        well_ordered_ranges(rs),
        r.0 <= r.1,
    ensures
        well_ordered_ranges(rs.push(r)),
{
    assert forall|q: int| 0 <= q < rs.push(r).len() implies (#[trigger] rs.push(r)[q]).0 <= rs.push(r)[q].1 by {
        if q < rs.len() {
            assert(rs.push(r)[q] == rs[q]);
        }
    }
}

proof fn lemma_ordered_concat(a: Seq<(int, int)>, b: Seq<(int, int)>)
    requires
        well_ordered_ranges(a),
        well_ordered_ranges(b),
    ensures
        well_ordered_ranges(a + b),
{
    assert forall|q: int| 0 <= q < (a + b).len() implies (#[trigger] (a + b)[q]).0 <= (a + b)[q].1 by {
        if q < a.len() {
            assert((a + b)[q] == a[q]);
        } else {
            assert((a + b)[q] == b[q - a.len()]);
        }
    }
}

proof fn lemma_record_ranges_ordered(s: Seq<char>, opts: WriterOptions, st: MetaSpec, n: SyntaxNode, in_math: bool)
    requires
        fits(s, n),
        begins_before_ends(n),
        well_ordered_ranges(st.math),
        well_ordered_ranges(st.protected),
    ensures
        well_ordered_ranges(record_node(s, opts, st, n, in_math).math),
        well_ordered_ranges(record_node(s, opts, st, n, in_math).protected),
{
    lemma_fits(s, n);
    lemma_field_from(n, "begin"@, 0);
    lemma_field_from(n, "end"@, 0);
    if let (Some(bi), Some(ei)) = (field_from(n, "begin"@, 0), field_from(n, "end"@, 0)) {
        lemma_children_in_order(s, n, bi, ei);
    }
    lemma_curly_groups_ordered(s, n, 0);
    let st1 = if is_env_kind(n.kind@) {
        record_env(s, opts, st, n)
    } else {
        st
    };
    assert(st1.math == st.math && st1.protected == st.protected);
    let m = in_math || math_kind(n.kind@);
    let st2 = record_kind(s, opts, st1, n, m);
    lemma_ordered_push(st1.math, node_range(s, n));
    lemma_ordered_push(st1.protected, node_range(s, n));
    lemma_ordered_concat(st1.protected, curly_groups_from(s, n, 0));
    if let (Some(b), Some(e)) = (field_child(n, "begin"@), field_child(n, "end"@)) {
        lemma_ordered_push(st1.math, (end_of(s, b), start_of(s, e)));
    }
    assert(well_ordered_ranges(st2.math));
    assert(well_ordered_ranges(st2.protected));
    lemma_ordered_push(st2.protected, node_range(s, n));
}

proof fn lemma_visit_ranges_ordered(s: Seq<char>, opts: WriterOptions, st: MetaSpec, n: SyntaxNode, in_math: bool)
    requires
        fits(s, n),
        begins_before_ends(n),
        well_ordered_ranges(st.math),
        well_ordered_ranges(st.protected),
    ensures
        well_ordered_ranges(visit(s, opts, st, n, in_math).math),
        well_ordered_ranges(visit(s, opts, st, n, in_math).protected),
    decreases n,
{
    lemma_record_ranges_ordered(s, opts, st, n, in_math);
    let st1 = record_node(s, opts, st, n, in_math);
    let m = (in_math || math_kind(n.kind@)) && n.kind@ != "text_mode"@;
    lemma_visit_children_ranges_ordered(s, opts, st1, n, n.children@.len() as int, m);
}

proof fn lemma_visit_children_ranges_ordered(s: Seq<char>, opts: WriterOptions, st: MetaSpec, n: SyntaxNode, k: int, m: bool)
    requires
        fits(s, n),
        children_begin_before_end(n, k),
        well_ordered_ranges(st.math),
        well_ordered_ranges(st.protected),
    ensures
        well_ordered_ranges(visit_children(s, opts, st, n, k, m).math),
        well_ordered_ranges(visit_children(s, opts, st, n, k, m).protected),
    decreases n, k,
{
    if 0 < k <= n.children@.len() {
        lemma_visit_children_ranges_ordered(s, opts, st, n, k - 1, m);
        lemma_child_fits(s, n, k - 1);
        lemma_visit_ranges_ordered(s, opts, visit_children(s, opts, st, n, k - 1, m), n.children@[k - 1], m);
    }
}

proof fn lemma_sort_well_ordered(rs: Seq<(int, int)>)
    requires
        well_ordered_ranges(rs),
    ensures
        well_ordered_ranges(sort_ranges(rs)),
{
    broadcast use vstd::seq_lib::group_seq_properties;
    sorted_ranges_are_ordered(rs);
    let t = sort_ranges(rs);
    assert forall|k: int| 0 <= k < t.len() implies (#[trigger] t[k]).0 <= t[k].1 by {
        assert(t.to_multiset().count(t[k]) > 0);
        assert(rs.to_multiset().count(t[k]) > 0);
        assert(rs.contains(t[k]));
    }
}

/// For a fitting tree in which every `begin` field comes before its `end`
/// field, every math range and every protected range of the metadata starts
/// no later than it ends.
pub proof fn metadata_ranges_run_forward(s: Seq<char>, opts: WriterOptions, root: SyntaxNode)
    requires
        fits(s, root),
        begins_before_ends(root),
    ensures
        well_ordered_ranges(tree_metadata(s, opts, root).math),
        well_ordered_ranges(tree_metadata(s, opts, root).protected),
{
    let init = initial_meta(s);
    assert(well_ordered_ranges(init.math));
    assert(well_ordered_ranges(init.protected));
    lemma_visit_ranges_ordered(s, opts, init, root, false);
    let v = visit(s, opts, init, root, false);
    lemma_sort_well_ordered(v.math);
    lemma_sort_well_ordered(v.protected);
    sorted_ranges_are_ordered(v.math);
    sorted_ranges_are_ordered(v.protected);
    merged_ranges_contain_input_ranges(sort_ranges(v.math));
    merged_ranges_contain_input_ranges(sort_ranges(v.protected));
}

/// Each range ends before the next one starts.
pub open spec fn apart(rs: Seq<(int, int)>) -> bool {
    forall|i: int| 0 <= i < rs.len() - 1 ==> (#[trigger] rs[i]).1 < rs[i + 1].0
}

/// Some range of `rs` holds `x`.
pub open spec fn covers(rs: Seq<(int, int)>, x: int) -> bool {
    exists|k: int| 0 <= k < rs.len() && (#[trigger] rs[k]).0 <= x < rs[k].1
}

/// Every start in `rs` is at most `x`.
pub open spec fn starts_at_most(rs: Seq<(int, int)>, x: int) -> bool {
    forall|i: int| 0 <= i < rs.len() ==> (#[trigger] rs[i]).0 <= x
}

/// The ranges are in order of their starts.
pub open spec fn by_start(rs: Seq<(int, int)>) -> bool {
    forall|i: int, j: int| 0 <= i < j < rs.len() ==> rs[i].0 <= rs[j].0
}

proof fn lemma_merge_starts(rs: Seq<(int, int)>, x: int)
    requires
        starts_at_most(rs, x),
    ensures
        starts_at_most(merge_ranges(rs), x),
    decreases rs.len(),
{
    if rs.len() > 0 {
        assert(starts_at_most(rs.drop_last(), x));
        lemma_merge_starts(rs.drop_last(), x);
    }
}

/// Merging ranges leaves them apart: each merged range ends before the next
/// starts. For ranges ordered by start, every position that some range holds
/// is held by a merged range.
pub proof fn merged_ranges_are_apart(rs: Seq<(int, int)>)
    ensures
        apart(merge_ranges(rs)),
        by_start(rs) ==> forall|x: int| #[trigger] covers(rs, x) ==> covers(merge_ranges(rs), x),
    decreases rs.len(),
{
    if rs.len() > 0 {
        let d = rs.drop_last();
        merged_ranges_are_apart(d);
        let m = merge_ranges(d);
        let r = rs.last();
        if m.len() > 0 && r.0 <= m.last().1 {
            let top = if r.1 > m.last().1 {
                r.1
            } else {
                m.last().1
            };
            let u = m.update(m.len() - 1, (m.last().0, top));
            assert forall|i: int| 0 <= i < u.len() - 1 implies (#[trigger] u[i]).1 < u[i + 1].0 by {
                assert(u[i] == m[i]);
                assert(m[i].1 < m[i + 1].0);
            }
            if by_start(rs) {
                assert(by_start(d));
                assert(starts_at_most(d, r.0)) by {
                    assert forall|i: int| 0 <= i < d.len() implies (#[trigger] d[i]).0 <= r.0 by {
                        assert(rs[i].0 <= rs[rs.len() - 1].0);
                    }
                }
                lemma_merge_starts(d, r.0);
                assert forall|x: int| #[trigger] covers(rs, x) implies covers(u, x) by {
                    let k = choose|k: int| 0 <= k < rs.len() && (#[trigger] rs[k]).0 <= x < rs[k].1;
                    if k == rs.len() - 1 {
                        assert(m[m.len() - 1].0 <= r.0);
                        assert(u[u.len() - 1].0 <= x < u[u.len() - 1].1);
                    } else {
                        assert(d[k] == rs[k]);
                        assert(covers(d, x));
                        let q = choose|q: int| 0 <= q < m.len() && (#[trigger] m[q]).0 <= x < m[q].1;
                        assert(u[q].0 <= x < u[q].1);
                    }
                }
            }
        } else {
            let u = m.push(r);
            assert forall|i: int| 0 <= i < u.len() - 1 implies (#[trigger] u[i]).1 < u[i + 1].0 by {
                assert(u[i] == m[i]);
                if i < m.len() - 1 {
                    assert(m[i].1 < m[i + 1].0);
                }
            }
            if by_start(rs) {
                assert(by_start(d));
                assert forall|x: int| #[trigger] covers(rs, x) implies covers(u, x) by {
                    let k = choose|k: int| 0 <= k < rs.len() && (#[trigger] rs[k]).0 <= x < rs[k].1;
                    if k == rs.len() - 1 {
                        assert(u[u.len() - 1] == r);
                    } else {
                        assert(d[k] == rs[k]);
                        assert(covers(d, x));
                        let q = choose|q: int| 0 <= q < m.len() && (#[trigger] m[q]).0 <= x < m[q].1;
                        assert(u[q] == m[q]);
                    }
                }
            }
        }
    }
}

/// Merging adds no position: every position that a merged range holds is held
/// by one of the ranges merged.
pub proof fn merged_ranges_hold_only_input_positions(rs: Seq<(int, int)>)
    ensures
        forall|x: int| #[trigger] covers(merge_ranges(rs), x) ==> covers(rs, x),
    decreases rs.len(),
{
    if rs.len() > 0 {
        let d = rs.drop_last();
        merged_ranges_hold_only_input_positions(d);
        let m = merge_ranges(d);
        let r = rs.last();
        assert forall|x: int| #[trigger] covers(merge_ranges(rs), x) implies covers(rs, x) by {
            let u = merge_ranges(rs);
            let q = choose|q: int| 0 <= q < u.len() && (#[trigger] u[q]).0 <= x < u[q].1;
            if m.len() > 0 && r.0 <= m.last().1 {
                if q == m.len() - 1 && x >= m.last().1 {
                    assert(rs[rs.len() - 1] == r);
                } else {
                    assert(m[q].0 <= x < m[q].1);
                    assert(covers(m, x));
                    let k = choose|k: int| 0 <= k < d.len() && (#[trigger] d[k]).0 <= x < d[k].1;
                    assert(rs[k] == d[k]);
                }
            } else {
                if q == m.len() {
                    assert(rs[rs.len() - 1] == r);
                } else {
                    assert(u[q] == m[q]);
                    assert(covers(m, x));
                    let k = choose|k: int| 0 <= k < d.len() && (#[trigger] d[k]).0 <= x < d[k].1;
                    assert(rs[k] == d[k]);
                }
            }
        }
    }
}

/// Some range of `rs` holds the whole range `r`.
pub open spec fn holds_range(rs: Seq<(int, int)>, r: (int, int)) -> bool {
    exists|q: int| 0 <= q < rs.len() && (#[trigger] rs[q]).0 <= r.0 && r.1 <= rs[q].1
}

/// Each range starts no later than it ends.
pub open spec fn well_ordered_ranges(rs: Seq<(int, int)>) -> bool {
    forall|k: int| 0 <= k < rs.len() ==> (#[trigger] rs[k]).0 <= rs[k].1
}

/// Merging ranges ordered by start, each starting no later than it ends: every
/// merged range starts no later than it ends, and every input range, empty
/// ones included, lies wholly inside one merged range.
pub proof fn merged_ranges_contain_input_ranges(rs: Seq<(int, int)>)
    requires
        by_start(rs),
        well_ordered_ranges(rs),
    ensures
        well_ordered_ranges(merge_ranges(rs)),
        forall|k: int| 0 <= k < rs.len() ==> holds_range(merge_ranges(rs), #[trigger] rs[k]),
    decreases rs.len(),
{
    if rs.len() > 0 {
        let d = rs.drop_last();
        assert(by_start(d));
        assert(well_ordered_ranges(d));
        merged_ranges_contain_input_ranges(d);
        let m = merge_ranges(d);
        let r = rs.last();
        let u = merge_ranges(rs);
        if m.len() > 0 && r.0 <= m.last().1 {
            let top = if r.1 > m.last().1 {
                r.1
            } else {
                m.last().1
            };
            assert(u == m.update(m.len() - 1, (m.last().0, top)));
            assert(starts_at_most(d, r.0)) by {
                assert forall|i: int| 0 <= i < d.len() implies (#[trigger] d[i]).0 <= r.0 by {
                    assert(rs[i].0 <= rs[rs.len() - 1].0);
                }
            }
            lemma_merge_starts(d, r.0);
            assert(well_ordered_ranges(u)) by {
                assert forall|q: int| 0 <= q < u.len() implies (#[trigger] u[q]).0 <= u[q].1 by {
                    if q < m.len() - 1 {
                        assert(u[q] == m[q]);
                    } else {
                        assert(m[q].0 <= m[q].1);
                    }
                }
            }
            assert forall|k: int| 0 <= k < rs.len() implies holds_range(u, #[trigger] rs[k]) by {
                if k == rs.len() - 1 {
                    assert(u[u.len() - 1].0 <= r.0 && r.1 <= u[u.len() - 1].1);
                } else {
                    assert(rs[k] == d[k]);
                    assert(holds_range(m, d[k]));
                    let q = choose|q: int| 0 <= q < m.len() && (#[trigger] m[q]).0 <= d[k].0 && d[k].1 <= m[q].1;
                    assert(u[q].0 <= rs[k].0 && rs[k].1 <= u[q].1);
                }
            }
        } else {
            assert(u == m.push(r));
            assert(well_ordered_ranges(u)) by {
                assert forall|q: int| 0 <= q < u.len() implies (#[trigger] u[q]).0 <= u[q].1 by {
                    if q < m.len() {
                        assert(u[q] == m[q]);
                    } else {
                        assert(u[q] == rs[rs.len() - 1]);
                    }
                }
            }
            assert forall|k: int| 0 <= k < rs.len() implies holds_range(u, #[trigger] rs[k]) by {
                if k == rs.len() - 1 {
                    assert(u[u.len() - 1] == r);
                } else {
                    assert(rs[k] == d[k]);
                    assert(holds_range(m, d[k]));
                    let q = choose|q: int| 0 <= q < m.len() && (#[trigger] m[q]).0 <= d[k].0 && d[k].1 <= m[q].1;
                    assert(u[q] == m[q]);
                }
            }
        }
    }
}

proof fn lemma_insert_range_ordered(sorted: Seq<(int, int)>, r: (int, int))
    requires
        by_start(sorted),
    ensures
        by_start(insert_range(sorted, r)),
        insert_range(sorted, r).to_multiset() == sorted.to_multiset().insert(r),
    decreases sorted.len(),
{
    broadcast use vstd::seq_lib::group_seq_properties;
    broadcast use vstd::multiset::group_multiset_axioms;
    if sorted.len() == 0 {
        assert(seq![r] =~= Seq::<(int, int)>::empty().push(r));
    } else if sorted.last().0 <= r.0 {
    } else {
        let d = sorted.drop_last();
        assert(by_start(d));
        lemma_insert_range_ordered(d, r);
        let x = insert_range(d, r);
        assert forall|k: int| 0 <= k < x.len() implies x[k].0 <= sorted.last().0 by {
            assert(x.to_multiset().count(x[k]) > 0);
            if x[k] != r {
                assert(d.to_multiset().count(x[k]) > 0);
                assert(d.contains(x[k]));
                let q = choose|q: int| 0 <= q < d.len() && d[q] == x[k];
                assert(sorted[q] == d[q]);
            }
        }
        assert(sorted =~= d.push(sorted.last()));
    }
}

/// Ordering ranges by start puts them in order and keeps every range.
pub proof fn sorted_ranges_are_ordered(rs: Seq<(int, int)>)
    ensures
        by_start(sort_ranges(rs)),
        sort_ranges(rs).to_multiset() == rs.to_multiset(),
    decreases rs.len(),
{
    broadcast use vstd::seq_lib::group_seq_properties;
    if rs.len() > 0 {
        sorted_ranges_are_ordered(rs.drop_last());
        lemma_insert_range_ordered(sort_ranges(rs.drop_last()), rs.last());
        assert(rs =~= rs.drop_last().push(rs.last()));
    }
}

/// The math and protected ranges of the metadata are apart, and each holds
/// every position that a math or protected node of the tree holds.
pub proof fn metadata_ranges_are_merged(s: Seq<char>, opts: WriterOptions, root: SyntaxNode)
    ensures
        apart(tree_metadata(s, opts, root).math),
        apart(tree_metadata(s, opts, root).protected),
        forall|x: int| #[trigger] covers(visit(s, opts, initial_meta(s), root, false).math, x) ==> covers(tree_metadata(s, opts, root).math, x),
        forall|x: int| #[trigger] covers(visit(s, opts, initial_meta(s), root, false).protected, x) ==> covers(tree_metadata(s, opts, root).protected, x),
        forall|x: int| #[trigger] covers(tree_metadata(s, opts, root).math, x) ==> covers(visit(s, opts, initial_meta(s), root, false).math, x),
        forall|x: int| #[trigger] covers(tree_metadata(s, opts, root).protected, x) ==> covers(visit(s, opts, initial_meta(s), root, false).protected, x),
{
    let v = visit(s, opts, initial_meta(s), root, false);
    sorted_ranges_are_ordered(v.math);
    sorted_ranges_are_ordered(v.protected);
    merged_ranges_are_apart(sort_ranges(v.math));
    merged_ranges_are_apart(sort_ranges(v.protected));
    assert forall|x: int| #[trigger] covers(v.math, x) implies covers(sort_ranges(v.math), x) by {
        lemma_covers_permuted(v.math, sort_ranges(v.math), x);
    }
    assert forall|x: int| #[trigger] covers(v.protected, x) implies covers(sort_ranges(v.protected), x) by {
        lemma_covers_permuted(v.protected, sort_ranges(v.protected), x);
    }
    merged_ranges_hold_only_input_positions(sort_ranges(v.math));
    merged_ranges_hold_only_input_positions(sort_ranges(v.protected));
    assert forall|x: int| #[trigger] covers(sort_ranges(v.math), x) implies covers(v.math, x) by {
        lemma_covers_permuted(sort_ranges(v.math), v.math, x);
    }
    assert forall|x: int| #[trigger] covers(sort_ranges(v.protected), x) implies covers(v.protected, x) by {
        lemma_covers_permuted(sort_ranges(v.protected), v.protected, x);
    }
}

proof fn lemma_covers_permuted(a: Seq<(int, int)>, b: Seq<(int, int)>, x: int)
    requires
        a.to_multiset() == b.to_multiset(),
        covers(a, x),
    ensures
        covers(b, x),
{
    broadcast use vstd::seq_lib::group_seq_properties;
    broadcast use vstd::multiset::group_multiset_axioms;
    let k = choose|k: int| 0 <= k < a.len() && (#[trigger] a[k]).0 <= x < a[k].1;
    assert(a.contains(a[k]));
    assert(a.to_multiset().count(a[k]) > 0);
    assert(b.to_multiset().count(a[k]) > 0);
    assert(b.contains(a[k]));
    let q = choose|q: int| 0 <= q < b.len() && b[q] == a[k];
    assert(b[q].0 <= x < b[q].1);
}

} // verus!
