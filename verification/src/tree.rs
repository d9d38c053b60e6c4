//! Reading a syntax tree against its text: character positions of nodes,
//! children by field name, and the rows that positions fall on.

use vstd::prelude::*;

use crate::syntax::{
    cidx, char_index, lemma_char_index_range, lemma_rebuild, lemma_rebuild_upto, piece, rebuild,
    rebuild_upto, ByteMap, SyntaxNode,
};
use crate::text::chars_of;

verus! {

/// The character index where node `n` starts in `s`.
pub open spec fn start_of(s: Seq<char>, n: SyntaxNode) -> int {
    cidx(s, n.start_byte as int)
}

/// The character index just past node `n` in `s`.
pub open spec fn end_of(s: Seq<char>, n: SyntaxNode) -> int {
    cidx(s, n.end_byte as int)
}

/// A node that is a slice of `s`, all its descendants too.
pub open spec fn fits(s: Seq<char>, n: SyntaxNode) -> bool {
    rebuild(s, n) is Ok
}

proof fn lemma_upto_ok_prefix(s: Seq<char>, n: SyntaxNode, j: int, k: int)
    requires
        0 <= j <= k <= n.children@.len(),
        rebuild_upto(s, n, k) is Ok,
    ensures
        rebuild_upto(s, n, j) is Ok,
    decreases k - j,
{
    if j < k {
        lemma_upto_ok_prefix(s, n, j + 1, k);
    }
}

/// The span of a fitting node lies in the text.
pub proof fn lemma_fits(s: Seq<char>, n: SyntaxNode)
    requires
        fits(s, n),
    ensures
        char_index(s, n.start_byte as int) is Some,
        char_index(s, n.end_byte as int) is Some,
        0 <= start_of(s, n) <= end_of(s, n) <= s.len(),
        n.start_byte <= n.end_byte,
{
    lemma_rebuild(s, n);
    lemma_char_index_range(s, n.start_byte as int);
    lemma_char_index_range(s, n.end_byte as int);
    crate::syntax::lemma_bytes_from_monotone(s, start_of(s, n), end_of(s, n));
}

/// Step `k` of rebuilding a node: the child fits and starts after the offset reached.
proof fn lemma_step(s: Seq<char>, n: SyntaxNode, k: int)
    requires
        0 <= k < n.children@.len(),
        rebuild_upto(s, n, k + 1) is Ok,
    ensures
        rebuild_upto(s, n, k) is Ok,
        fits(s, n.children@[k]),
        char_index(s, rebuild_upto(s, n, k)->Ok_0.1) is Some,
        cidx(s, rebuild_upto(s, n, k)->Ok_0.1) <= start_of(s, n.children@[k]),
        rebuild_upto(s, n, k + 1)->Ok_0.1 == n.children@[k].end_byte as int,
{
    let c = n.children@[k];
    if let Ok((out0, off0)) = rebuild_upto(s, n, k) {
        lemma_char_index_range(s, off0);
        lemma_char_index_range(s, c.start_byte as int);
        if c.children@.len() == 0 {
            assert(rebuild_upto(s, c, 0) == Ok::<(Seq<char>, int), (int, int)>(
                (seq![], c.start_byte as int),
            ));
        }
    }
}

/// The offsets reached while rebuilding only move forward.
proof fn lemma_offsets(s: Seq<char>, n: SyntaxNode, j: int, k: int)
    requires
        0 <= j <= k <= n.children@.len(),
        rebuild_upto(s, n, k) is Ok,
    ensures
        rebuild_upto(s, n, j) is Ok,
        char_index(s, rebuild_upto(s, n, j)->Ok_0.1) is Some ==> char_index(
            s,
            rebuild_upto(s, n, k)->Ok_0.1,
        ) is Some,
        char_index(s, rebuild_upto(s, n, j)->Ok_0.1) is Some ==> cidx(
            s,
            rebuild_upto(s, n, j)->Ok_0.1,
        ) <= cidx(s, rebuild_upto(s, n, k)->Ok_0.1),
    decreases k - j,
{
    lemma_upto_ok_prefix(s, n, j, k);
    if j < k {
        lemma_upto_ok_prefix(s, n, j + 1, k);
        lemma_step(s, n, j);
        lemma_fits(s, n.children@[j]);
        lemma_offsets(s, n, j + 1, k);
    }
}

/// The children of a fitting node fit, in order, inside it.
pub proof fn lemma_child_fits(s: Seq<char>, n: SyntaxNode, k: int)
    requires
        fits(s, n),
        0 <= k < n.children@.len(),
    ensures
        fits(s, n.children@[k]),
        start_of(s, n) <= start_of(s, n.children@[k]),
        end_of(s, n.children@[k]) <= end_of(s, n),
        k > 0 ==> end_of(s, n.children@[k - 1]) <= start_of(s, n.children@[k]),
{
    let len = n.children@.len() as int;
    assert(rebuild_upto(s, n, len) is Ok);
    lemma_upto_ok_prefix(s, n, k + 1, len);
    lemma_step(s, n, k);
    let c = n.children@[k];
    lemma_fits(s, c);
    lemma_fits(s, n);
    lemma_rebuild_upto(s, n, k);
    lemma_char_index_range(s, n.start_byte as int);
    lemma_offsets(s, n, 0, k);
    assert(rebuild_upto(s, n, 0)->Ok_0.1 == n.start_byte as int);
    lemma_offsets(s, n, k + 1, len);
    let off = rebuild_upto(s, n, len)->Ok_0.1;
    assert(piece(s, off, n.end_byte as int) is Ok);
    lemma_char_index_range(s, off);
    if k > 0 {
        lemma_upto_ok_prefix(s, n, k, len);
        lemma_step(s, n, k - 1);
    }
}

/// The character index of byte `b`, a boundary of `s`.
pub fn char_pos(map: &ByteMap, b: usize) -> (r: usize)
    requires
        exists|s: Seq<char>| map.of(s) && char_index(s, b as int) is Some,
    ensures
        forall|s: Seq<char>| map.of(s) && char_index(s, b as int) is Some ==> r == cidx(s, b as int),
{
    let ghost s = choose|s: Seq<char>| map.of(s) && char_index(s, b as int) is Some;
    match map.lookup(b) {
        Some(i) => i,
        None => 0,
    }
}

/// The index of the first child of `n` held under the field `name`, from child `k` on.
pub open spec fn field_from(n: SyntaxNode, name: Seq<char>, k: int) -> Option<int>
    decreases n.children@.len() - k,
{
    if k < 0 || k >= n.children@.len() {
        None
    } else if n.children@[k].field matches Some(f) && f@ == name {
        Some(k)
    } else {
        field_from(n, name, k + 1)
    }
}

/// The child of `n` held under the field `name`, as tree-sitter's
/// `child_by_field_name` finds it.
pub open spec fn field_child(n: SyntaxNode, name: Seq<char>) -> Option<SyntaxNode> {
    match field_from(n, name, 0) {
        Some(k) => Some(n.children@[k]),
        None => None,
    }
}

pub proof fn lemma_field_from(n: SyntaxNode, name: Seq<char>, k: int)
    requires
        0 <= k,
    ensures
        field_from(n, name, k) matches Some(j) ==> k <= j < n.children@.len(),
    decreases n.children@.len() - k,
{
    if k < n.children@.len() {
        lemma_field_from(n, name, k + 1);
    }
}

/// Whether the string `a` equals the literal `b`.
pub fn str_is(a: &str, b: &str) -> (r: bool)
    ensures
        r == (a@ == b@),
{
    let v = chars_of(a);
    crate::text::text_is(v.as_slice(), b)
}

/// The index of the child of `n` held under the field `name`.
pub fn field_index(n: &SyntaxNode, name: &str) -> (r: Option<usize>)
    ensures
        r matches Some(k) ==> field_from(*n, name@, 0) == Some(k as int),
        r is None ==> field_from(*n, name@, 0) is None,
{
    let mut k: usize = 0;
    while k < n.children.len()
        invariant
            k <= n.children@.len(),
            field_from(*n, name@, 0) == field_from(*n, name@, k as int),
        decreases n.children@.len() - k,
    {
        let found = match &n.children[k].field {
            Some(f) => str_is(f.as_str(), name),
            None => false,
        };
        if found {
            return Some(k);
        }
        k = k + 1;
    }
    None
}

/// The number of line feeds in `s` before index `i`: the row that index `i` is on.
pub open spec fn row_of(s: Seq<char>, i: int) -> nat
    decreases i,
{
    if i <= 0 || s.len() == 0 {
        0
    } else if i > s.len() {
        row_of(s, s.len() as int)
    } else {
        row_of(s, i - 1) + if s[i - 1] == '\n' {
            1nat
        } else {
            0nat
        }
    }
}

pub proof fn lemma_row_bound(s: Seq<char>, i: int)
    requires
        0 <= i <= s.len(),
    ensures
        row_of(s, i) <= i,
    decreases i,
{
    if i > 0 {
        lemma_row_bound(s, i - 1);
    }
}

/// The row of every character index of a text.
pub struct Rows {
    pub before: Vec<usize>,
}

impl Rows {
    pub open spec fn of(&self, s: Seq<char>) -> bool {
        &&& self.before@.len() == s.len() + 1
        &&& forall|i: int| 0 <= i <= s.len() ==> #[trigger] self.before@[i] == row_of(s, i)
    }

    pub fn new(s: &[char]) -> (r: Rows)
        ensures
            r.of(s@),
    {
        let mut before: Vec<usize> = Vec::new();
        before.push(0);
        let mut i: usize = 0;
        let mut count: usize = 0;
        while i < s.len()
            invariant
                i <= s@.len(),
                before@.len() == i + 1,
                count == row_of(s@, i as int),
                forall|j: int| 0 <= j <= i ==> #[trigger] before@[j] == row_of(s@, j),
            decreases s@.len() - i,
        {
            proof {
                lemma_row_bound(s@, i as int);
            }
            if s[i] == '\n' {
                count = count + 1;
            }
            i = i + 1;
            before.push(count);
        }
        Rows { before }
    }

    pub fn row(&self, i: usize) -> (r: usize)
        requires
            exists|s: Seq<char>| self.of(s) && i <= s.len(),
        ensures
            forall|s: Seq<char>| self.of(s) && i <= s.len() ==> r == row_of(s, i as int),
    {
        let ghost s = choose|s: Seq<char>| self.of(s) && i <= s.len();
        self.before[i]
    }
}

} // verus!
