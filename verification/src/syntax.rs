//! The syntax tree the library works on: tree-sitter's concrete syntax tree, held
//! as plain values, with byte offsets into the UTF-8 source.

use vstd::prelude::*;
use vstd::utf8::{encode_scalar, encode_utf8, has_width_1_encoding, has_width_2_encoding, has_width_3_encoding};

use crate::text::push_range;

verus! {

/// One node of the concrete syntax tree.
#[derive(Debug)]
pub struct SyntaxNode {
    /// The grammar's name for the node, such as `inline_formula`.
    pub kind: String,
    /// The field under which the parent holds this node, such as `begin`.
    pub field: Option<String>,
    /// Whether the node comes from a named grammar rule.
    pub named: bool,
    /// The node's first byte in the source.
    pub start_byte: usize,
    /// The byte just past the node.
    pub end_byte: usize,
    /// The node's children, anonymous tokens included, in source order.
    pub children: Vec<SyntaxNode>,
}

/// A parsed document.
#[derive(Debug)]
pub struct SyntaxTree {
    /// The root node.
    pub root: SyntaxNode,
    /// Whether the parser recovered from malformed input anywhere in the tree.
    pub has_error: bool,
}

/// Number of bytes in the UTF-8 encoding of `c`.
pub open spec fn width(c: char) -> int {
    encode_scalar(c as u32).len() as int
}

pub fn char_width(c: char) -> (r: usize)
    ensures
        r == width(c),
        1 <= r <= 4,
{
    let u = c as u32;
    proof {
        vstd::utf8::char_is_scalar(c);
    }
    if u <= 0x7f {
        1
    } else if u <= 0x7ff {
        2
    } else if u <= 0xffff {
        3
    } else {
        4
    }
}

pub proof fn lemma_width(c: char)
    ensures
        1 <= width(c) <= 4,
{
    vstd::utf8::char_is_scalar(c);
}

/// Bytes in the encoding of `s[i..]`.
pub open spec fn bytes_from(s: Seq<char>, i: int) -> int
    decreases s.len() - i,
{
    if i < 0 || i >= s.len() {
        0
    } else {
        width(s[i]) + bytes_from(s, i + 1)
    }
}

/// The byte offset of character `i`.
pub open spec fn byte_offset(s: Seq<char>, i: int) -> int {
    bytes_from(s, 0) - bytes_from(s, i)
}

pub proof fn lemma_bytes_from_encode(s: Seq<char>, i: int)
    requires
        0 <= i <= s.len(),
    ensures
        bytes_from(s, i) == encode_utf8(s.subrange(i, s.len() as int)).len(),
    decreases s.len() - i,
{
    if i < s.len() {
        lemma_bytes_from_encode(s, i + 1);
        assert(s.subrange(i, s.len() as int).drop_first() =~= s.subrange(i + 1, s.len() as int));
    } else {
        assert(s.subrange(i, s.len() as int) =~= Seq::<char>::empty());
    }
}

pub proof fn lemma_bytes_from_monotone(s: Seq<char>, i: int, j: int)
    requires
        0 <= i <= j <= s.len(),
    ensures
        bytes_from(s, i) - bytes_from(s, j) >= j - i,
        bytes_from(s, j) >= 0,
    decreases j - i,
{
    if i < j {
        lemma_width(s[i]);
        lemma_bytes_from_monotone(s, i + 1, j);
    } else {
        lemma_bytes_nonneg(s, j);
    }
}

pub proof fn lemma_bytes_nonneg(s: Seq<char>, i: int)
    ensures
        bytes_from(s, i) >= 0,
    decreases s.len() - i,
{
    if 0 <= i < s.len() {
        lemma_width(s[i]);
        lemma_bytes_nonneg(s, i + 1);
    }
}

/// The character index whose byte offset is `b`, if `b` is a character boundary of `s`.
pub open spec fn char_index(s: Seq<char>, b: int) -> Option<int> {
    if exists|i: int| 0 <= i <= s.len() && byte_offset(s, i) == b {
        Some(choose|i: int| 0 <= i <= s.len() && byte_offset(s, i) == b)
    } else {
        None
    }
}

pub proof fn lemma_char_index(s: Seq<char>, i: int)
    requires
        0 <= i <= s.len(),
    ensures
        char_index(s, byte_offset(s, i)) == Some(i),
{
    let b = byte_offset(s, i);
    assert(0 <= i <= s.len() && byte_offset(s, i) == b);
    let j = choose|j: int| 0 <= j <= s.len() && byte_offset(s, j) == b;
    if j < i {
        lemma_bytes_from_monotone(s, j, i);
    } else if i < j {
        lemma_bytes_from_monotone(s, i, j);
    }
}

/// The character boundaries of a text: `index[b]` is the character that starts at byte `b`.
pub struct ByteMap {
    pub index: Vec<Option<usize>>,
}

impl ByteMap {
    pub open spec fn of(&self, s: Seq<char>) -> bool {
        &&& self.index@.len() == bytes_from(s, 0) + 1
        &&& forall|b: int|
            0 <= b < self.index@.len() ==> match #[trigger] self.index@[b] {
                Some(i) => char_index(s, b) == Some(i as int),
                None => char_index(s, b).is_none(),
            }
        &&& forall|b: int| b >= self.index@.len() ==> #[trigger] char_index(s, b).is_none()
    }

    /// The boundaries of `s`, whose UTF-8 encoding has `total` bytes.
    pub fn new(s: &[char], total: usize) -> (r: ByteMap)
        requires
            total == encode_utf8(s@).len(),
        ensures
            r.of(s@),
    {
        proof {
            lemma_bytes_from_encode(s@, 0);
            assert(s@.subrange(0, s@.len() as int) =~= s@);
        }
        let mut index: Vec<Option<usize>> = Vec::new();
        let mut k: usize = 0;
        while k < total
            invariant
                total == bytes_from(s@, 0),
                k <= total,
                index@.len() == k,
                forall|b: int| 0 <= b < k ==> #[trigger] index@[b] == None::<usize>,
            decreases total - k,
        {
            index.push(None);
            k = k + 1;
        }
        index.push(None);
        let mut i: usize = 0;
        let mut offset: usize = 0;
        proof {
            lemma_bytes_nonneg(s@, 0);
        }
        while i < s.len()
            invariant
                total == bytes_from(s@, 0),
                index@.len() == total + 1,
                i <= s@.len(),
                offset == byte_offset(s@, i as int),
                forall|b: int|
                    0 <= b < index@.len() ==> match #[trigger] index@[b] {
                        Some(j) => j < i && j <= s@.len() && byte_offset(s@, j as int) == b,
                        None => forall|j: int| 0 <= j < i && j <= s@.len() ==> byte_offset(s@, j) != b,
                    },
            decreases s@.len() - i,
        {
            proof {
                lemma_bytes_from_monotone(s@, 0, i as int);
                lemma_bytes_nonneg(s@, i as int);
            }
            index.set(offset, Some(i));
            let w = char_width(s[i]);
            proof {
                lemma_bytes_from_monotone(s@, 0, i + 1);
                lemma_bytes_nonneg(s@, i + 1);
            }
            offset = offset + w;
            i = i + 1;
        }
        proof {
            lemma_bytes_from_monotone(s@, 0, i as int);
            lemma_bytes_nonneg(s@, i as int);
        }
        index.set(offset, Some(i));
        proof {
            assert forall|b: int| 0 <= b < index@.len() implies match #[trigger] index@[b] {
                Some(j) => char_index(s@, b) == Some(j as int),
                None => char_index(s@, b).is_none(),
            } by {
                match index@[b] {
                    Some(j) => {
                        lemma_char_index(s@, j as int);
                    },
                    None => {
                    },
                }
            }
            assert forall|b: int| b >= index@.len() implies #[trigger] char_index(s@, b).is_none() by {
                if char_index(s@, b).is_some() {
                    let j = choose|j: int| 0 <= j <= s@.len() && byte_offset(s@, j) == b;
                    lemma_bytes_nonneg(s@, j);
                }
            }
        }
        ByteMap { index }
    }

    /// The character that starts at byte `b`.
    pub fn lookup(&self, b: usize) -> (r: Option<usize>)
        ensures
            self.index@.len() > 0 ==> true,
            forall|s: Seq<char>| self.of(s) ==> match r {
                Some(i) => char_index(s, b as int) == Some(i as int),
                None => char_index(s, b as int).is_none(),
            },
    {
        if b < self.index.len() {
            self.index[b]
        } else {
            None
        }
    }
}

/// The text of the byte range `a..b`, or the range itself when it does not
/// fall on character boundaries in order.
pub open spec fn piece(s: Seq<char>, a: int, b: int) -> Result<Seq<char>, (int, int)> {
    match (char_index(s, a), char_index(s, b)) {
        (Some(i), Some(j)) => if i <= j {
            Ok(s.subrange(i, j))
        } else {
            Err((a, b))
        },
        _ => Err((a, b)),
    }
}

/// Rebuilding a node from the source: the gaps between its children and the
/// children's own text, in order. An error names the first byte range that is
/// not a slice of the source.
pub open spec fn rebuild(s: Seq<char>, n: SyntaxNode) -> Result<Seq<char>, (int, int)>
    decreases n,
{
    match rebuild_upto(s, n, n.children@.len() as int) {
        Ok((out, off)) => match piece(s, off, n.end_byte as int) {
            Ok(g) => Ok(out + g),
            Err(e) => Err(e),
        },
        Err(e) => Err(e),
    }
}

/// Rebuilding the part of `n` up to the end of its first `k` children; the
/// text so far and the byte offset reached.
pub open spec fn rebuild_upto(s: Seq<char>, n: SyntaxNode, k: int) -> Result<(Seq<char>, int), (int, int)>
    decreases n, k,
{
    if k <= 0 || k > n.children@.len() {
        Ok((seq![], n.start_byte as int))
    } else {
        match rebuild_upto(s, n, k - 1) {
            Err(e) => Err(e),
            Ok((out, off)) => {
                let c = n.children@[k - 1];
                match piece(s, off, c.start_byte as int) {
                    Err(e) => Err(e),
                    Ok(g) => {
                        let inner = if c.children@.len() == 0 {
                            piece(s, c.start_byte as int, c.end_byte as int)
                        } else {
                            rebuild(s, c)
                        };
                        match inner {
                            Err(e) => Err(e),
                            Ok(text) => Ok((out + g + text, c.end_byte as int)),
                        }
                    },
                }
            },
        }
    }
}

/// The character index of a byte offset known to be a boundary.
pub open spec fn cidx(s: Seq<char>, b: int) -> int {
    char_index(s, b).unwrap()
}

pub proof fn lemma_char_index_range(s: Seq<char>, b: int)
    ensures
        char_index(s, b) matches Some(i) ==> 0 <= i <= s.len() && byte_offset(s, i) == b,
{
}

pub proof fn lemma_rebuild_upto(s: Seq<char>, n: SyntaxNode, k: int)
    requires
        0 <= k <= n.children@.len(),
    ensures
        rebuild_upto(s, n, k) matches Ok((out, off)) ==> {
            if k == 0 {
                out == Seq::<char>::empty() && off == n.start_byte as int
            } else {
                &&& char_index(s, n.start_byte as int) is Some
                &&& char_index(s, off) is Some
                &&& cidx(s, n.start_byte as int) <= cidx(s, off)
                &&& out == s.subrange(cidx(s, n.start_byte as int), cidx(s, off))
                &&& off == n.children@[k - 1].end_byte as int
            }
        },
    decreases n, k,
{
    if k > 0 {
        lemma_rebuild_upto(s, n, k - 1);
        if let Ok((out0, off0)) = rebuild_upto(s, n, k - 1) {
            let c = n.children@[k - 1];
            lemma_char_index_range(s, off0);
            lemma_char_index_range(s, c.start_byte as int);
            if let Ok(g) = piece(s, off0, c.start_byte as int) {
                if c.children@.len() == 0 {
                    lemma_char_index_range(s, c.end_byte as int);
                } else {
                    assert(decreases_to!(n => c));
                    lemma_rebuild(s, c);
                }
                if let Ok((out, off)) = rebuild_upto(s, n, k) {
                    let i = cidx(s, n.start_byte as int);
                    let m0 = cidx(s, off0);
                    let m1 = cidx(s, c.start_byte as int);
                    let m2 = cidx(s, c.end_byte as int);
                    if k == 1 {
                        assert(off0 == n.start_byte as int);
                    }
                    assert(out =~= s.subrange(i, m2)) by {
                        assert(s.subrange(i, m2) =~= s.subrange(i, m0) + s.subrange(m0, m1)
                            + s.subrange(m1, m2));
                    }
                }
            }
        }
    }
}

/// A rebuilt node is exactly its slice of the source.
pub proof fn lemma_rebuild(s: Seq<char>, n: SyntaxNode)
    ensures
        rebuild(s, n) matches Ok(out) ==> {
            &&& char_index(s, n.start_byte as int) is Some
            &&& char_index(s, n.end_byte as int) is Some
            &&& cidx(s, n.start_byte as int) <= cidx(s, n.end_byte as int) <= s.len()
            &&& out == s.subrange(cidx(s, n.start_byte as int), cidx(s, n.end_byte as int))
        },
    decreases n,
{
    let len = n.children@.len() as int;
    lemma_rebuild_upto(s, n, len);
    lemma_char_index_range(s, n.end_byte as int);
    lemma_char_index_range(s, n.start_byte as int);
    if let Ok((out, off)) = rebuild_upto(s, n, len) {
        lemma_char_index_range(s, off);
        if let Ok(g) = piece(s, off, n.end_byte as int) {
            if len == 0 {
                assert(out + g =~= g);
            } else {
                let i = cidx(s, n.start_byte as int);
                let m = cidx(s, off);
                let j = cidx(s, n.end_byte as int);
                assert(s.subrange(i, j) =~= s.subrange(i, m) + s.subrange(m, j));
            }
        }
    }
}

/// An error part-way through the children is the node's error.
pub proof fn lemma_rebuild_err(s: Seq<char>, n: SyntaxNode, k: int)
    requires
        1 <= k <= n.children@.len(),
        rebuild_upto(s, n, k) is Err,
    ensures
        rebuild(s, n) == Err::<Seq<char>, (int, int)>(rebuild_upto(s, n, k)->Err_0),
    decreases n.children@.len() - k,
{
    if k < n.children@.len() {
        assert(rebuild_upto(s, n, k + 1) == rebuild_upto(s, n, k));
        lemma_rebuild_err(s, n, k + 1);
    }
}

/// Appends the source text of bytes `a..b`.
fn push_source(map: &ByteMap, src: &[char], a: usize, b: usize, out: &mut Vec<char>) -> (r: Result<(), (usize, usize)>)
    requires
        map.of(src@),
    ensures
        match piece(src@, a as int, b as int) {
            Ok(g) => r is Ok && final(out)@ == old(out)@ + g,
            Err(e) => r matches Err(x) && (x.0 as int, x.1 as int) == e && final(out)@ == old(out)@,
        },
{
    let i = map.lookup(a);
    let j = map.lookup(b);
    match (i, j) {
        (Some(i), Some(j)) => {
            proof {
                lemma_char_index_range(src@, a as int);
                lemma_char_index_range(src@, b as int);
            }
            if i <= j {
                push_range(out, src, i, j);
                Ok(())
            } else {
                Err((a, b))
            }
        },
        _ => Err((a, b)),
    }
}

/// Writes a node from the source, walking every child, anonymous tokens
/// included, and copying the gaps between them.
pub fn write_node(map: &ByteMap, src: &[char], n: &SyntaxNode, out: &mut Vec<char>) -> (r: Result<(), (usize, usize)>)
    requires
        map.of(src@),
    ensures
        match rebuild(src@, *n) {
            Ok(t) => r is Ok && final(out)@ == old(out)@ + t,
            Err(e) => r matches Err(x) && (x.0 as int, x.1 as int) == e,
        },
    decreases n,
{
    let mut offset = n.start_byte;
    let mut k: usize = 0;
    while k < n.children.len()
        invariant
            map.of(src@),
            k <= n.children@.len(),
            rebuild_upto(src@, *n, k as int) matches Ok((t, off)) && out@ == old(out)@ + t && off
                == offset as int,
        decreases n.children@.len() - k,
    {
        let c = &n.children[k];
        let ghost o0 = out@;
        let r1 = push_source(map, src, offset, c.start_byte, out);
        if let Err(e) = r1 {
            proof {
                lemma_rebuild_err(src@, *n, k + 1);
            }
            return Err(e);
        }
        if c.children.len() == 0 {
            let r2 = push_source(map, src, c.start_byte, c.end_byte, out);
            if let Err(e) = r2 {
                proof {
                    lemma_rebuild_err(src@, *n, k + 1);
                }
                return Err(e);
            }
        } else {
            assert(decreases_to!(n => n.children@[k as int]));
            let r2 = write_node(map, src, c, out);
            if let Err(e) = r2 {
                proof {
                    lemma_rebuild_err(src@, *n, k + 1);
                }
                return Err(e);
            }
        }
        offset = c.end_byte;
        k = k + 1;
        proof {
            if let Ok((t, off)) = rebuild_upto(src@, *n, k as int) {
                assert(out@ =~= old(out)@ + t);
            }
        }
    }
    push_source(map, src, offset, n.end_byte, out)
}

} // verus!
