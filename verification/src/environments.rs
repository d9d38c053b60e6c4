//! Environment boundaries: `\begin{..}` and `\end{..}` on lines of their own,
//! the environment's parameters and labels kept with its opening command, and
//! the whitespace around its body normalized.

use vstd::prelude::*;

use crate::commands::{
    group_end, grouped_command_end, label_command_end, label_end, lemma_group_end_from,
    lemma_label_end,
};
use crate::edits::{applied, applied_keeps_skipped_text, apply_edits, avoids, edits_fit, edits_view, lemma_avoids_concat, lemma_fit_concat, EditSpec, TextEdit};
use crate::items::{has_text, has_text_exec, line_end, line_start, line_start_exec, lemma_line_start};
use crate::lines::{detected_ending, detected_line_ending};
use crate::metadata::{field_node, node_text, span};
use crate::chars::{all_white, all_white_space};
use crate::names::{
    env_marker, environment_marker, find_from, find_from_exec,
    is_env_kind, is_environment, is_raw_env_kind, is_raw_environment, lemma_find_from,
};
use crate::options::WriterOptions;
use crate::skip::{overlaps_spec, skip_regions, SkipRegions};
use crate::syntax::{ByteMap, SyntaxNode};
use crate::text::{all_pad, in_pad, is_pad, push_all, push_range, rskip_pad, rskip_pad_exec, text_is, Pad};
use crate::tree::{end_of, field_child, fits, lemma_child_fits, lemma_fits, start_of};

verus! {

/// The first index in `i..e` that is not a space, tab, carriage return or line
/// feed; or `e`.
pub open spec fn skip_layout(s: Seq<char>, i: int, e: int) -> int
    decreases e - i,
{
    if i >= e || i >= s.len() || i < 0 || !in_pad(s[i], Pad::Layout) {
        i
    } else {
        skip_layout(s, i + 1, e)
    }
}

pub proof fn lemma_skip_layout(s: Seq<char>, i: int, e: int)
    requires
        0 <= i <= e <= s.len(),
    ensures
        i <= skip_layout(s, i, e) <= e,
    decreases e - i,
{
    if i < e && in_pad(s[i], Pad::Layout) {
        lemma_skip_layout(s, i + 1, e);
    }
}

pub fn skip_layout_exec(s: &[char], i: usize, e: usize) -> (r: usize)
    requires
        i <= e <= s@.len(),
    ensures
        r == skip_layout(s@, i as int, e as int),
        i <= r <= e,
{
    proof {
        lemma_skip_layout(s@, i as int, e as int);
    }
    let mut k = i;
    while k < e && is_pad(s[k], Pad::Layout)
        invariant
            i <= k <= e <= s@.len(),
            skip_layout(s@, k as int, e as int) == skip_layout(s@, i as int, e as int),
        decreases e - k,
    {
        k = k + 1;
    }
    k
}

/// The text of `t` after its last line feed; empty when it has none.
pub open spec fn after_last_newline(t: Seq<char>) -> Seq<char> {
    if t.contains('\n') {
        t.subrange(line_start(t, t.len() as int), t.len() as int)
    } else {
        seq![]
    }
}

fn after_last_newline_exec(t: &[char], out: &mut Vec<char>)
    ensures
        final(out)@ == old(out)@ + after_last_newline(t@),
{
    let ls = line_start_exec(t, t.len());
    let nl = find_from_exec(t, '\n', 0);
    proof {
        lemma_find_from(t@, '\n', 0);
    }
    if nl < t.len() {
        assert(t@.contains('\n'));
        push_range(out, t, ls, t.len());
    } else {
        assert(!t@.contains('\n'));
    }
}

/// Whether an environment starts its parent environment's body: only layout
/// whitespace lies between the parent's `\begin{..}` and it.
pub open spec fn starts_parent_body(s: Seq<char>, n: SyntaxNode, parent: Option<SyntaxNode>) -> bool {
    match parent {
        Some(p) => is_env_kind(p.kind@) && match field_child(p, "begin"@) {
            Some(b) => end_of(s, b) <= start_of(s, n) && all_pad(
                s.subrange(end_of(s, b), start_of(s, n)),
                Pad::Layout,
            ),
            None => false,
        },
        None => false,
    }
}

/// Whether an environment ends its parent environment's body: only layout
/// whitespace lies between it and the parent's `\end{..}`.
pub open spec fn finishes_parent_body(s: Seq<char>, n: SyntaxNode, parent: Option<SyntaxNode>) -> bool {
    match parent {
        Some(p) => is_env_kind(p.kind@) && match field_child(p, "end"@) {
            Some(e) => end_of(s, n) <= start_of(s, e) && all_pad(
                s.subrange(end_of(s, n), start_of(s, e)),
                Pad::Layout,
            ),
            None => false,
        },
        None => false,
    }
}

/// The end of a `{..}` or `[..]` group that opens at `c`.
pub open spec fn group_at(s: Seq<char>, c: int) -> Option<int> {
    if 0 <= c < s.len() && s[c] == '{' {
        group_end(s, c, '{', '}')
    } else if 0 <= c < s.len() && s[c] == '[' {
        group_end(s, c, '[', ']')
    } else {
        None
    }
}

/// Reading the parameter groups and `\label{..}` commands that follow an
/// environment's opening, up to `es`: where reading stopped, the parameters and
/// the labels.
pub open spec fn header_scan(s: Seq<char>, c: int, es: int, params: Seq<char>, labels: Seq<char>) -> (int, Seq<char>, Seq<char>)
    decreases es - c,
{
    if c < 0 || c > es || es > s.len() {
        (c, params, labels)
    } else {
        match group_at(s, c) {
            Some(g) if g <= es => {
                proof {
                    lemma_group_end_from(s, c, '{', '}', 0);
                    lemma_group_end_from(s, c, '[', ']', 0);
                    lemma_skip_layout(s, g, es);
                }
                header_scan(s, skip_layout(s, g, es), es, params + s.subrange(c, g), labels)
            },
            _ => match label_end(s, c) {
                Some(l) if l <= es => {
                    proof {
                        lemma_label_end(s, c);
                        lemma_skip_layout(s, l, es);
                    }
                    header_scan(s, skip_layout(s, l, es), es, params, labels + s.subrange(c, l))
                },
                _ => (c, params, labels),
            },
        }
    }
}

pub proof fn lemma_header_scan(s: Seq<char>, c: int, es: int, params: Seq<char>, labels: Seq<char>)
    requires
        0 <= c <= es <= s.len(),
    ensures
        c <= header_scan(s, c, es, params, labels).0 <= es,
    decreases es - c,
{
    match group_at(s, c) {
        Some(g) if g <= es => {
            lemma_group_end_from(s, c, '{', '}', 0);
            lemma_group_end_from(s, c, '[', ']', 0);
            lemma_skip_layout(s, g, es);
            lemma_header_scan(s, skip_layout(s, g, es), es, params + s.subrange(c, g), labels);
        },
        _ => match label_end(s, c) {
            Some(l) if l <= es => {
                lemma_label_end(s, c);
                lemma_skip_layout(s, l, es);
                lemma_header_scan(s, skip_layout(s, l, es), es, params, labels + s.subrange(c, l));
            },
            _ => {},
        },
    }
}

/// The edits inside the `document` environment, whose body is `be..es`: a
/// line ending in place of the whitespace that opens and closes the body when
/// that whitespace holds no line feed.
pub open spec fn document_edits(s: Seq<char>, skip: Seq<(int, int)>, le: Seq<char>, be: int, es: int) -> Seq<EditSpec> {
    let cs = skip_layout(s, be, es);
    let open: Seq<EditSpec> = if !s.subrange(be, cs).contains('\n') && !overlaps_spec((be, cs), skip) {
        seq![(be, cs, le)]
    } else {
        seq![]
    };
    if cs == es {
        open
    } else {
        let ce = cs + rskip_pad(s.subrange(cs, es), es - cs, Pad::Layout);
        open + if !s.subrange(ce, es).contains('\n') && !overlaps_spec((ce, es), skip) {
            seq![(ce, es, le)]
        } else {
            seq![]
        }
    }
}

/// The edits inside another environment, whose body is `be..es`: parameters
/// and labels joined to the opening, then a line ending; and a line ending
/// before the closing.
pub open spec fn body_edits(
    s: Seq<char>,
    opts: WriterOptions,
    skip: Seq<(int, int)>,
    le: Seq<char>,
    be: int,
    es: int,
) -> Seq<EditSpec> {
    let scan = header_scan(s, skip_layout(s, be, es), es, seq![], seq![]);
    let c = scan.0;
    let body_end = c + rskip_pad(s.subrange(c, es), es - c, Pad::Layout);
    let rep = scan.1 + scan.2 + le + if !opts.indent_environments {
        after_last_newline(s.subrange(be, c))
    } else {
        seq![]
    };
    if c >= body_end {
        if !overlaps_spec((be, es), skip) {
            seq![(be, es, rep)]
        } else {
            seq![]
        }
    } else {
        (if !overlaps_spec((be, c), skip) {
            seq![(be, c, rep)]
        } else {
            seq![]
        }) + if !overlaps_spec((body_end, es), skip) {
            seq![
                (
                    body_end,
                    es,
                    le + if !opts.indent_environments {
                        after_last_newline(s.subrange(body_end, es))
                    } else {
                        seq![]
                    },
                ),
            ]
        } else {
            seq![]
        }
    }
}

/// The name of an environment, from its `\begin{..}` node.
pub open spec fn begin_name(s: Seq<char>, b: SyntaxNode) -> Option<Seq<char>> {
    match env_marker(node_text(s, b), true) {
        Some((me, x, y)) => Some(node_text(s, b).subrange(x, y)),
        None => None,
    }
}

/// The edit that removes whitespace between an environment's name and its
/// options.
pub open spec fn options_edit(s: Seq<char>, b: SyntaxNode) -> Seq<EditSpec> {
    match field_child(b, "options"@) {
        Some(o) => {
            let os = start_of(s, o);
            let ne = match field_child(b, "name"@) {
                Some(nm) => end_of(s, nm),
                None => os,
            };
            if ne < os && all_white(s.subrange(ne, os)) {
                seq![(ne, os, seq![])]
            } else {
                seq![]
            }
        },
        None => seq![],
    }
}

/// The edits of one environment node, outside raw and skipped environments.
pub open spec fn env_own_edits(
    s: Seq<char>,
    opts: WriterOptions,
    skip: Seq<(int, int)>,
    le: Seq<char>,
    n: SyntaxNode,
    parent: Option<SyntaxNode>,
) -> Seq<EditSpec> {
    if !is_env_kind(n.kind@) || is_raw_env_kind(n.kind@) {
        seq![]
    } else {
        match (field_child(n, "begin"@), field_child(n, "end"@)) {
            (Some(b), Some(e)) => if overlaps_spec((start_of(s, b), end_of(s, b)), skip)
                || overlaps_spec((start_of(s, e), end_of(s, e)), skip) {
                seq![]
            } else {
                let bs = start_of(s, b);
                let be = end_of(s, b);
                let es = start_of(s, e);
                let ee = end_of(s, e);
                let begin_break: Seq<EditSpec> = if has_text(s.subrange(line_start(s, bs), bs))
                    && !starts_parent_body(s, n, parent) {
                    seq![(bs, bs, le)]
                } else {
                    seq![]
                };
                let end_break: Seq<EditSpec> = if has_text(s.subrange(ee, line_end(s, ee)))
                    && !finishes_parent_body(s, n, parent) {
                    seq![(ee, ee, le)]
                } else {
                    seq![]
                };
                let body: Seq<EditSpec> = if be <= es && begin_name(s, b) == Some("document"@) {
                    document_edits(s, skip, le, be, es)
                } else if be <= es {
                    body_edits(s, opts, skip, le, be, es)
                } else {
                    seq![]
                };
                options_edit(s, b) + begin_break + end_break + body
            },
            _ => seq![],
        }
    }
}

/// The environment edits of a node and its descendants, in document order.
pub open spec fn env_edits(
    s: Seq<char>,
    opts: WriterOptions,
    skip: Seq<(int, int)>,
    le: Seq<char>,
    n: SyntaxNode,
    parent: Option<SyntaxNode>,
) -> Seq<EditSpec>
    decreases n,
{
    env_own_edits(s, opts, skip, le, n, parent) + env_children(
        s,
        opts,
        skip,
        le,
        n,
        n.children@.len() as int,
    )
}

pub open spec fn env_children(
    s: Seq<char>,
    opts: WriterOptions,
    skip: Seq<(int, int)>,
    le: Seq<char>,
    n: SyntaxNode,
    k: int,
) -> Seq<EditSpec>
    decreases n, k,
{
    if k <= 0 || k > n.children@.len() {
        seq![]
    } else {
        env_children(s, opts, skip, le, n, k - 1) + env_edits(
            s,
            opts,
            skip,
            le,
            n.children@[k - 1],
            Some(n),
        )
    }
}

/// The environment pass: `None` when two of its edits overlap.
pub open spec fn env_pass(s: Seq<char>, opts: WriterOptions, root: SyntaxNode) -> Option<Seq<char>> {
    applied(s, env_edits(s, opts, skip_regions(s).0, detected_ending(s), root, None))
}


fn header_scan_exec(s: &[char], start: usize, es: usize) -> (r: (usize, Vec<char>, Vec<char>))
    requires
        start <= es <= s@.len(),
    ensures
        (r.0 as int, r.1@, r.2@) == header_scan(s@, start as int, es as int, seq![], seq![]),
        start <= r.0 <= es,
{
    let mut c = start;
    let mut params: Vec<char> = Vec::new();
    let mut labels: Vec<char> = Vec::new();
    proof {
        lemma_header_scan(s@, start as int, es as int, seq![], seq![]);
    }
    loop
        invariant
            start <= c <= es <= s@.len(),
            header_scan(s@, c as int, es as int, params@, labels@) == header_scan(
                s@,
                start as int,
                es as int,
                seq![],
                seq![],
            ),
        decreases es - c,
    {
        let g = if c < s.len() && s[c] == '{' {
            grouped_command_end(s, c, '{', '}')
        } else if c < s.len() && s[c] == '[' {
            grouped_command_end(s, c, '[', ']')
        } else {
            None
        };
        assert(g matches Some(x) ==> group_at(s@, c as int) == Some(x as int));
        assert(g is None ==> group_at(s@, c as int) is None);
        match g {
            Some(g) => {
                if g <= es {
                    push_range(&mut params, s, c, g);
                    c = skip_layout_exec(s, g, es);
                    continue;
                }
            },
            None => {},
        }
        let l = label_command_end(s, c);
        match l {
            Some(l) => {
                if l <= es {
                    push_range(&mut labels, s, c, l);
                    c = skip_layout_exec(s, l, es);
                    continue;
                }
            },
            None => {},
        }
        return (c, params, labels);
    }
}

fn push_edit(edits: &mut Vec<TextEdit>, start: usize, end: usize, text: Vec<char>, n: Ghost<int>)
    requires
        edits_fit(n@, edits_view(old(edits)@)),
        start <= end <= n@,
    ensures
        edits_view(final(edits)@) == edits_view(old(edits)@).push((start as int, end as int, text@)),
        edits_fit(n@, edits_view(final(edits)@)),
{
    let e = TextEdit { start, end, text };
    edits.push(e);
    assert(edits_view(edits@) =~= edits_view(old(edits)@).push((start as int, end as int, e.text@)));
}

fn copy_of(v: &Vec<char>) -> (r: Vec<char>)
    ensures
        r@ == v@,
{
    let mut r: Vec<char> = Vec::new();
    push_all(&mut r, v.as_slice());
    r
}

fn contains_newline(t: &[char]) -> (r: bool)
    ensures
        r == t@.contains('\n'),
{
    let k = find_from_exec(t, '\n', 0);
    proof {
        lemma_find_from(t@, '\n', 0);
        if t@.contains('\n') {
            let i = choose|i: int| 0 <= i < t@.len() && t@[i] == '\n';
            assert(k <= i);
        }
    }
    k < t.len()
}

fn document_edits_exec(
    s: &[char],
    skipped: &SkipRegions,
    le: &Vec<char>,
    be: usize,
    es: usize,
    edits: &mut Vec<TextEdit>,
)
    requires
        be <= es <= s@.len(),
        edits_fit(s@.len() as int, edits_view(old(edits)@)),
    ensures
        edits_view(final(edits)@) == edits_view(old(edits)@) + document_edits(
            s@,
            skipped.range_view(),
            le@,
            be as int,
            es as int,
        ),
        edits_fit(s@.len() as int, edits_view(final(edits)@)),
{
    let ghost e0 = edits_view(edits@);
    let ghost n = s@.len() as int;
    let cs = skip_layout_exec(s, be, es);
    if !contains_newline(&s[be..cs]) && !skipped.overlaps((be, cs)) {
        push_edit(edits, be, cs, copy_of(le), Ghost(n));
    }
    let ghost e1 = edits_view(edits@);
    if cs == es {
        assert(edits_view(edits@) =~= e0 + document_edits(s@, skipped.range_view(), le@, be as int, es as int));
        return;
    }
    let t = &s[cs..es];
    let ce = cs + rskip_pad_exec(t, t.len(), Pad::Layout);
    proof {
        crate::text::lemma_rskip_pad(t@, t@.len() as int, Pad::Layout);
    }
    if !contains_newline(&s[ce..es]) && !skipped.overlaps((ce, es)) {
        push_edit(edits, ce, es, copy_of(le), Ghost(n));
    }
    assert(edits_view(edits@) =~= e0 + document_edits(s@, skipped.range_view(), le@, be as int, es as int));
}

fn body_edits_exec(
    s: &[char],
    opts: &WriterOptions,
    skipped: &SkipRegions,
    le: &Vec<char>,
    be: usize,
    es: usize,
    edits: &mut Vec<TextEdit>,
)
    requires
        be <= es <= s@.len(),
        edits_fit(s@.len() as int, edits_view(old(edits)@)),
    ensures
        edits_view(final(edits)@) == edits_view(old(edits)@) + body_edits(
            s@,
            *opts,
            skipped.range_view(),
            le@,
            be as int,
            es as int,
        ),
        edits_fit(s@.len() as int, edits_view(final(edits)@)),
{
    let ghost e0 = edits_view(edits@);
    let ghost n = s@.len() as int;
    let c0 = skip_layout_exec(s, be, es);
    let (c, params, labels) = header_scan_exec(s, c0, es);
    let t = &s[c..es];
    let body_end = c + rskip_pad_exec(t, t.len(), Pad::Layout);
    proof {
        crate::text::lemma_rskip_pad(t@, t@.len() as int, Pad::Layout);
    }
    let mut rep: Vec<char> = Vec::new();
    push_all(&mut rep, params.as_slice());
    push_all(&mut rep, labels.as_slice());
    push_all(&mut rep, le.as_slice());
    if !opts.indent_environments {
        after_last_newline_exec(&s[be..c], &mut rep);
    }
    assert(rep@ =~= params@ + labels@ + le@ + if !opts.indent_environments {
        after_last_newline(s@.subrange(be as int, c as int))
    } else {
        Seq::<char>::empty()
    });
    if c >= body_end {
        if !skipped.overlaps((be, es)) {
            push_edit(edits, be, es, rep, Ghost(n));
        }
    } else {
        if !skipped.overlaps((be, c)) {
            push_edit(edits, be, c, rep, Ghost(n));
        }
        if !skipped.overlaps((body_end, es)) {
            let mut rep2: Vec<char> = Vec::new();
            push_all(&mut rep2, le.as_slice());
            if !opts.indent_environments {
                after_last_newline_exec(&s[body_end..es], &mut rep2);
            }
            assert(rep2@ =~= le@ + if !opts.indent_environments {
                after_last_newline(s@.subrange(body_end as int, es as int))
            } else {
                Seq::<char>::empty()
            });
            push_edit(edits, body_end, es, rep2, Ghost(n));
        }
    }
    assert(edits_view(edits@) =~= e0 + body_edits(s@, *opts, skipped.range_view(), le@, be as int, es as int));
}

fn options_edit_exec(s: &[char], map: &ByteMap, b: &SyntaxNode, edits: &mut Vec<TextEdit>)
    requires
        fits(s@, *b),
        map.of(s@),
        edits_fit(s@.len() as int, edits_view(old(edits)@)),
    ensures
        edits_view(final(edits)@) == edits_view(old(edits)@) + options_edit(s@, *b),
        edits_fit(s@.len() as int, edits_view(final(edits)@)),
{
    let ghost e0 = edits_view(edits@);
    match field_node(s, b, "options") {
        Some(o) => {
            let (os, _) = span(s, map, o);
            let ne = match field_node(s, b, "name") {
                Some(nm) => span(s, map, nm).1,
                None => os,
            };
            if ne < os && all_white_space(&s[ne..os]) {
                proof {
                    lemma_fits(s@, *o);
                }
                push_edit(edits, ne, os, Vec::new(), Ghost(s@.len() as int));
            }
        },
        None => {},
    }
    assert(edits_view(edits@) =~= e0 + options_edit(s@, *b));
}

fn all_layout(t: &[char]) -> (r: bool)
    ensures
        r == all_pad(t@, Pad::Layout),
{
    let mut k: usize = 0;
    while k < t.len()
        invariant
            k <= t@.len(),
            forall|j: int| 0 <= j < k ==> in_pad(#[trigger] t@[j], Pad::Layout),
        decreases t@.len() - k,
    {
        if !is_pad(t[k], Pad::Layout) {
            return false;
        }
        k = k + 1;
    }
    true
}

fn starts_parent_body_exec(s: &[char], map: &ByteMap, n: &SyntaxNode, parent: Option<&SyntaxNode>) -> (r: bool)
    requires
        fits(s@, *n),
        parent matches Some(p) ==> fits(s@, *p),
        map.of(s@),
    ensures
        r == starts_parent_body(s@, *n, match parent {
            Some(p) => Some(*p),
            None => None,
        }),
{
    match parent {
        Some(p) => {
            let pk = crate::text::chars_of(p.kind.as_str());
            if !is_environment(pk.as_slice()) {
                return false;
            }
            match field_node(s, p, "begin") {
                Some(b) => {
                    let (_, be) = span(s, map, b);
                    let (ns, _) = span(s, map, n);
                    be <= ns && all_layout(&s[be..ns])
                },
                None => false,
            }
        },
        None => false,
    }
}

fn finishes_parent_body_exec(s: &[char], map: &ByteMap, n: &SyntaxNode, parent: Option<&SyntaxNode>) -> (r: bool)
    requires
        fits(s@, *n),
        parent matches Some(p) ==> fits(s@, *p),
        map.of(s@),
    ensures
        r == finishes_parent_body(s@, *n, match parent {
            Some(p) => Some(*p),
            None => None,
        }),
{
    match parent {
        Some(p) => {
            let pk = crate::text::chars_of(p.kind.as_str());
            if !is_environment(pk.as_slice()) {
                return false;
            }
            match field_node(s, p, "end") {
                Some(e) => {
                    let (es, _) = span(s, map, e);
                    let (_, ne) = span(s, map, n);
                    ne <= es && all_layout(&s[ne..es])
                },
                None => false,
            }
        },
        None => false,
    }
}


pub open spec fn opt_node(p: Option<&SyntaxNode>) -> Option<SyntaxNode> {
    match p {
        Some(x) => Some(*x),
        None => None,
    }
}

#[verifier::rlimit(40)]
fn env_own_edits_exec(
    s: &[char],
    map: &ByteMap,
    opts: &WriterOptions,
    skipped: &SkipRegions,
    le: &Vec<char>,
    n: &SyntaxNode,
    parent: Option<&SyntaxNode>,
    edits: &mut Vec<TextEdit>,
)
    requires
        fits(s@, *n),
        parent matches Some(p) ==> fits(s@, *p),
        map.of(s@),
        edits_fit(s@.len() as int, edits_view(old(edits)@)),
    ensures
        edits_view(final(edits)@) == edits_view(old(edits)@) + env_own_edits(
            s@,
            *opts,
            skipped.range_view(),
            le@,
            *n,
            opt_node(parent),
        ),
        edits_fit(s@.len() as int, edits_view(final(edits)@)),
{
    let ghost e0 = edits_view(edits@);
    let ghost sk = skipped.range_view();
    let ghost n_len = s@.len() as int;
    let kind = crate::text::chars_of(n.kind.as_str());
    if !is_environment(kind.as_slice()) || is_raw_environment(kind.as_slice()) {
        assert(edits_view(edits@) =~= e0 + env_own_edits(s@, *opts, sk, le@, *n, opt_node(parent)));
        return;
    }
    let b = field_node(s, n, "begin");
    let e = field_node(s, n, "end");
    match (b, e) {
        (Some(b), Some(e)) => {
            let (bs, be) = span(s, map, b);
            let (es, ee) = span(s, map, e);
            if skipped.overlaps((bs, be)) || skipped.overlaps((es, ee)) {
                assert(edits_view(edits@) =~= e0 + env_own_edits(s@, *opts, sk, le@, *n, opt_node(parent)));
                return;
            }
            let btext = &s[bs..be];
            assert(btext@ == node_text(s@, *b));
            let is_document = match environment_marker(btext, true) {
                Some((_, x, y)) => text_is(&btext[x..y], "document"),
                None => false,
            };
            proof {
                match env_marker(node_text(s@, *b), true) {
                    Some((me, x, y)) => {
                        assert(is_document == (node_text(s@, *b).subrange(x, y) == "document"@));
                    },
                    None => {},
                }
                assert(is_document == (begin_name(s@, *b) == Some("document"@)));
            }
            options_edit_exec(s, map, b, edits);
            let ghost e1 = edits_view(edits@);
            let ls = line_start_exec(s, bs);
            if has_text_exec(&s[ls..bs]) && !starts_parent_body_exec(s, map, n, parent) {
                push_edit(edits, bs, bs, copy_of(le), Ghost(n_len));
            }
            let ghost e2 = edits_view(edits@);
            let lend = find_from_exec(s, '\n', ee);
            if has_text_exec(&s[ee..lend]) && !finishes_parent_body_exec(s, map, n, parent) {
                push_edit(edits, ee, ee, copy_of(le), Ghost(n_len));
            }
            let ghost e3 = edits_view(edits@);
            if be <= es && is_document {
                document_edits_exec(s, skipped, le, be, es, edits);
            } else if be <= es {
                body_edits_exec(s, opts, skipped, le, be, es, edits);
            }
            assert(edits_view(edits@) =~= e0 + env_own_edits(s@, *opts, sk, le@, *n, opt_node(parent)));
        },
        _ => {
            assert(edits_view(edits@) =~= e0 + env_own_edits(s@, *opts, sk, le@, *n, opt_node(parent)));
        },
    }
}

fn collect_environment_edits(
    s: &[char],
    map: &ByteMap,
    opts: &WriterOptions,
    skipped: &SkipRegions,
    le: &Vec<char>,
    n: &SyntaxNode,
    parent: Option<&SyntaxNode>,
    edits: &mut Vec<TextEdit>,
)
    requires
        fits(s@, *n),
        parent matches Some(p) ==> fits(s@, *p),
        map.of(s@),
        edits_fit(s@.len() as int, edits_view(old(edits)@)),
    ensures
        edits_view(final(edits)@) == edits_view(old(edits)@) + env_edits(
            s@,
            *opts,
            skipped.range_view(),
            le@,
            *n,
            opt_node(parent),
        ),
        edits_fit(s@.len() as int, edits_view(final(edits)@)),
    decreases n,
{
    let ghost e0 = edits_view(edits@);
    let ghost sk = skipped.range_view();
    env_own_edits_exec(s, map, opts, skipped, le, n, parent, edits);
    let ghost e1 = edits_view(edits@);
    let mut k: usize = 0;
    while k < n.children.len()
        invariant
            fits(s@, *n),
            map.of(s@),
            sk == skipped.range_view(),
            k <= n.children@.len(),
            edits_fit(s@.len() as int, edits_view(edits@)),
            edits_view(edits@) == e1 + env_children(s@, *opts, sk, le@, *n, k as int),
        decreases n.children@.len() - k,
    {
        proof {
            lemma_child_fits(s@, *n, k as int);
        }
        assert(decreases_to!(n => n.children@[k as int]));
        collect_environment_edits(s, map, opts, skipped, le, &n.children[k], Some(n), edits);
        k = k + 1;
        assert(edits_view(edits@) =~= e1 + env_children(s@, *opts, sk, le@, *n, k as int));
    }
    assert(edits_view(edits@) =~= e0 + env_edits(s@, *opts, sk, le@, *n, opt_node(parent)));
}

/// The environment pass over `s`, whose syntax tree is `root`.
pub fn normalize_environment_boundaries(s: &[char], map: &ByteMap, root: &SyntaxNode, opts: &WriterOptions) -> (r: Option<Vec<char>>)
    requires
        fits(s@, *root),
        map.of(s@),
    ensures
        match r {
            Some(t) => env_pass(s@, *opts, *root) == Some(t@),
            None => env_pass(s@, *opts, *root) is None,
        },
{
    let skipped = SkipRegions::new(s);
    let le = detected_line_ending(s);
    let mut edits: Vec<TextEdit> = Vec::new();
    collect_environment_edits(s, map, opts, &skipped, &le, root, None, &mut edits);
    assert(edits_view(edits@) =~= env_edits(s@, *opts, skip_regions(s@).0, detected_ending(s@), *root, None));
    apply_edits(s, edits)
}


proof fn lemma_own_avoids(
    s: Seq<char>,
    opts: WriterOptions,
    skip: Seq<(int, int)>,
    le: Seq<char>,
    n: SyntaxNode,
    parent: Option<SyntaxNode>,
)
    requires
        fits(s, n),
    ensures
        avoids(env_own_edits(s, opts, skip, le, n, parent), skip),
{
    if is_env_kind(n.kind@) && !is_raw_env_kind(n.kind@) {
        crate::tree::lemma_field_from(n, "begin"@, 0);
        crate::tree::lemma_field_from(n, "end"@, 0);
        if let (Some(bi), Some(ei)) = (crate::tree::field_from(n, "begin"@, 0), crate::tree::field_from(n, "end"@, 0)) {
            let b = n.children@[bi];
            let e = n.children@[ei];
            lemma_child_fits(s, n, bi);
            lemma_child_fits(s, n, ei);
            lemma_fits(s, b);
            lemma_fits(s, e);
            if !(overlaps_spec((start_of(s, b), end_of(s, b)), skip) || overlaps_spec((start_of(s, e), end_of(s, e)), skip)) {
                let bs = start_of(s, b);
                let be = end_of(s, b);
                let es = start_of(s, e);
                let ee = end_of(s, e);
                crate::tree::lemma_field_from(b, "options"@, 0);
                crate::tree::lemma_field_from(b, "name"@, 0);
                if let Some(oi) = crate::tree::field_from(b, "options"@, 0) {
                    lemma_child_fits(s, b, oi);
                    lemma_fits(s, b.children@[oi]);
                }
                if let Some(ni) = crate::tree::field_from(b, "name"@, 0) {
                    lemma_child_fits(s, b, ni);
                    lemma_fits(s, b.children@[ni]);
                }
                let oe = options_edit(s, b);
                assert(avoids(oe, skip)) by {
                    if oe.len() > 0 {
                        let x = oe[0];
                        if overlaps_spec((x.0, x.1), skip) {
                            let q = choose|q: int| 0 <= q < skip.len() && x.0 < (#[trigger] skip[q]).1 && skip[q].0 < x.1;
                            assert(bs < skip[q].1 && skip[q].0 < be);
                        }
                    }
                }
                let begin_break: Seq<EditSpec> = if has_text(s.subrange(line_start(s, bs), bs))
                    && !starts_parent_body(s, n, parent) {
                    seq![(bs, bs, le)]
                } else {
                    seq![]
                };
                let end_break: Seq<EditSpec> = if has_text(s.subrange(ee, line_end(s, ee)))
                    && !finishes_parent_body(s, n, parent) {
                    seq![(ee, ee, le)]
                } else {
                    seq![]
                };
                assert(avoids(begin_break, skip)) by {
                    if overlaps_spec((bs, bs), skip) {
                        let q = choose|q: int| 0 <= q < skip.len() && bs < (#[trigger] skip[q]).1 && skip[q].0 < bs;
                        assert(bs < skip[q].1 && skip[q].0 < be);
                    }
                }
                assert(avoids(end_break, skip)) by {
                    if overlaps_spec((ee, ee), skip) {
                        let q = choose|q: int| 0 <= q < skip.len() && ee < (#[trigger] skip[q]).1 && skip[q].0 < ee;
                        assert(es < skip[q].1 && skip[q].0 < ee);
                    }
                }
                let body: Seq<EditSpec> = if be <= es && begin_name(s, b) == Some("document"@) {
                    document_edits(s, skip, le, be, es)
                } else if be <= es {
                    body_edits(s, opts, skip, le, be, es)
                } else {
                    seq![]
                };
                assert(avoids(body, skip)) by {
                    assert(avoids(document_edits(s, skip, le, be, es), skip));
                    assert(avoids(body_edits(s, opts, skip, le, be, es), skip));
                }
                lemma_avoids_concat(oe, begin_break, skip);
                lemma_avoids_concat(oe + begin_break, end_break, skip);
                lemma_avoids_concat(oe + begin_break + end_break, body, skip);
            }
        }
    }
}

/// The environment pass leaves skipped regions alone: for a tree that fits the
/// text, none of its edits reaches into a skipped range.
pub proof fn env_edits_avoid_skipped_regions(
    s: Seq<char>,
    opts: WriterOptions,
    skip: Seq<(int, int)>,
    le: Seq<char>,
    n: SyntaxNode,
    parent: Option<SyntaxNode>,
)
    requires
        fits(s, n),
    ensures
        avoids(env_edits(s, opts, skip, le, n, parent), skip),
    decreases n,
{
    lemma_own_avoids(s, opts, skip, le, n, parent);
    lemma_children_avoid(s, opts, skip, le, n, n.children@.len() as int);
    lemma_avoids_concat(
        env_own_edits(s, opts, skip, le, n, parent),
        env_children(s, opts, skip, le, n, n.children@.len() as int),
        skip,
    );
}

proof fn lemma_children_avoid(
    s: Seq<char>,
    opts: WriterOptions,
    skip: Seq<(int, int)>,
    le: Seq<char>,
    n: SyntaxNode,
    k: int,
)
    requires
        fits(s, n),
    ensures
        avoids(env_children(s, opts, skip, le, n, k), skip),
    decreases n, k,
{
    if 0 < k <= n.children@.len() {
        lemma_children_avoid(s, opts, skip, le, n, k - 1);
        lemma_child_fits(s, n, k - 1);
        env_edits_avoid_skipped_regions(s, opts, skip, le, n.children@[k - 1], Some(n));
        lemma_avoids_concat(
            env_children(s, opts, skip, le, n, k - 1),
            env_edits(s, opts, skip, le, n.children@[k - 1], Some(n)),
            skip,
        );
    }
}

proof fn lemma_document_fit(s: Seq<char>, skip: Seq<(int, int)>, le: Seq<char>, be: int, es: int)
    requires
        0 <= be <= es <= s.len(),
    ensures
        edits_fit(s.len() as int, document_edits(s, skip, le, be, es)),
{
    lemma_skip_layout(s, be, es);
    let cs = skip_layout(s, be, es);
    if cs < es {
        crate::text::lemma_rskip_pad(s.subrange(cs, es), es - cs, Pad::Layout);
    }
}

proof fn lemma_body_fit(s: Seq<char>, opts: WriterOptions, skip: Seq<(int, int)>, le: Seq<char>, be: int, es: int)
    requires
        0 <= be <= es <= s.len(),
    ensures
        edits_fit(s.len() as int, body_edits(s, opts, skip, le, be, es)),
{
    lemma_skip_layout(s, be, es);
    let st = skip_layout(s, be, es);
    lemma_header_scan(s, st, es, seq![], seq![]);
    let c = header_scan(s, st, es, seq![], seq![]).0;
    crate::text::lemma_rskip_pad(s.subrange(c, es), es - c, Pad::Layout);
}

proof fn lemma_own_fit(s: Seq<char>, opts: WriterOptions, skip: Seq<(int, int)>, le: Seq<char>, n: SyntaxNode, parent: Option<SyntaxNode>)
    requires
        fits(s, n),
    ensures
        edits_fit(s.len() as int, env_own_edits(s, opts, skip, le, n, parent)),
{
    if is_env_kind(n.kind@) && !is_raw_env_kind(n.kind@) {
        crate::tree::lemma_field_from(n, "begin"@, 0);
        crate::tree::lemma_field_from(n, "end"@, 0);
        if let (Some(bi), Some(ei)) = (crate::tree::field_from(n, "begin"@, 0), crate::tree::field_from(n, "end"@, 0)) {
            let b = n.children@[bi];
            let e = n.children@[ei];
            lemma_child_fits(s, n, bi);
            lemma_child_fits(s, n, ei);
            lemma_fits(s, b);
            lemma_fits(s, e);
            if !(overlaps_spec((start_of(s, b), end_of(s, b)), skip) || overlaps_spec((start_of(s, e), end_of(s, e)), skip)) {
                let bs = start_of(s, b);
                let be = end_of(s, b);
                let es = start_of(s, e);
                let ee = end_of(s, e);
                crate::tree::lemma_field_from(b, "options"@, 0);
                crate::tree::lemma_field_from(b, "name"@, 0);
                if let Some(oi) = crate::tree::field_from(b, "options"@, 0) {
                    lemma_child_fits(s, b, oi);
                    lemma_fits(s, b.children@[oi]);
                }
                if let Some(ni) = crate::tree::field_from(b, "name"@, 0) {
                    lemma_child_fits(s, b, ni);
                    lemma_fits(s, b.children@[ni]);
                }
                let oe = options_edit(s, b);
                let begin_break: Seq<EditSpec> = if has_text(s.subrange(line_start(s, bs), bs))
                    && !starts_parent_body(s, n, parent) {
                    seq![(bs, bs, le)]
                } else {
                    seq![]
                };
                let end_break: Seq<EditSpec> = if has_text(s.subrange(ee, line_end(s, ee)))
                    && !finishes_parent_body(s, n, parent) {
                    seq![(ee, ee, le)]
                } else {
                    seq![]
                };
                let body: Seq<EditSpec> = if be <= es && begin_name(s, b) == Some("document"@) {
                    document_edits(s, skip, le, be, es)
                } else if be <= es {
                    body_edits(s, opts, skip, le, be, es)
                } else {
                    seq![]
                };
                if be <= es {
                    lemma_document_fit(s, skip, le, be, es);
                    lemma_body_fit(s, opts, skip, le, be, es);
                }
                let n0 = s.len() as int;
                assert(edits_fit(n0, oe));
                assert(edits_fit(n0, begin_break));
                assert(edits_fit(n0, end_break));
                assert(edits_fit(n0, body));
                lemma_fit_concat(n0, oe, begin_break);
                lemma_fit_concat(n0, oe + begin_break, end_break);
                lemma_fit_concat(n0, oe + begin_break + end_break, body);
            }
        }
    }
}

proof fn lemma_env_fit(s: Seq<char>, opts: WriterOptions, skip: Seq<(int, int)>, le: Seq<char>, n: SyntaxNode, parent: Option<SyntaxNode>)
    requires
        fits(s, n),
    ensures
        edits_fit(s.len() as int, env_edits(s, opts, skip, le, n, parent)),
    decreases n,
{
    lemma_own_fit(s, opts, skip, le, n, parent);
    lemma_children_fit(s, opts, skip, le, n, n.children@.len() as int);
    lemma_fit_concat(
        s.len() as int,
        env_own_edits(s, opts, skip, le, n, parent),
        env_children(s, opts, skip, le, n, n.children@.len() as int),
    );
}

proof fn lemma_children_fit(s: Seq<char>, opts: WriterOptions, skip: Seq<(int, int)>, le: Seq<char>, n: SyntaxNode, k: int)
    requires
        fits(s, n),
    ensures
        edits_fit(s.len() as int, env_children(s, opts, skip, le, n, k)),
    decreases n, k,
{
    if 0 < k <= n.children@.len() {
        lemma_children_fit(s, opts, skip, le, n, k - 1);
        lemma_child_fits(s, n, k - 1);
        lemma_env_fit(s, opts, skip, le, n.children@[k - 1], Some(n));
        lemma_fit_concat(
            s.len() as int,
            env_children(s, opts, skip, le, n, k - 1),
            env_edits(s, opts, skip, le, n.children@[k - 1], Some(n)),
        );
    }
}

/// The environment pass keeps each skipped range: for a tree that fits the
/// text, the text of that run of skipped lines stands in the result as one
/// piece.
pub proof fn env_pass_keeps_skipped_text(s: Seq<char>, opts: WriterOptions, root: SyntaxNode, q: int)
    requires
        fits(s, root),
        0 <= q < skip_regions(s).0.len(),
        env_pass(s, opts, root) is Some,
    ensures
        exists|a: Seq<char>, b: Seq<char>|
            env_pass(s, opts, root)->Some_0 == a + s.subrange(skip_regions(s).0[q].0, skip_regions(s).0[q].1) + b,
{
    let skip = skip_regions(s).0;
    let le = detected_ending(s);
    lemma_env_fit(s, opts, skip, le, root, None);
    env_edits_avoid_skipped_regions(s, opts, skip, le, root, None);
    applied_keeps_skipped_text(s, env_edits(s, opts, skip, le, root, None), q);
}

/// The environment edits of a fitting node, the ones the edit collector
/// appends after the edits it was given, lie inside the text and keep clear of
/// the skipped ranges.
pub proof fn env_edits_fit_and_avoid_skipped_regions(
    s: Seq<char>,
    opts: WriterOptions,
    le: Seq<char>,
    n: SyntaxNode,
    parent: Option<SyntaxNode>,
)
    requires
        fits(s, n),
    ensures
        edits_fit(s.len() as int, env_edits(s, opts, skip_regions(s).0, le, n, parent)),
        avoids(env_edits(s, opts, skip_regions(s).0, le, n, parent), skip_regions(s).0),
{
    lemma_env_fit(s, opts, skip_regions(s).0, le, n, parent);
    env_edits_avoid_skipped_regions(s, opts, skip_regions(s).0, le, n, parent);
}

} // verus!
