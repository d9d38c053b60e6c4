//! Character-level helpers shared by the formatting passes.
//!
//! Text is handled as a sequence of Unicode scalar values; every special
//! character the formatter looks at is ASCII.

use vstd::prelude::*;

verus! {

/// The character classes that the formatter trims.
#[derive(Clone, Copy, PartialEq, Eq, Structural)]
pub enum Pad {
    /// Spaces and tabs.
    Blank,
    /// Spaces, tabs and carriage returns.
    BlankCr,
    /// Spaces, tabs, carriage returns and line feeds.
    Layout,
}

pub open spec fn in_pad(c: char, pad: Pad) -> bool {
    match pad {
        Pad::Blank => c == ' ' || c == '\t',
        Pad::BlankCr => c == ' ' || c == '\t' || c == '\r',
        Pad::Layout => c == ' ' || c == '\t' || c == '\r' || c == '\n',
    }
}

pub fn is_pad(c: char, pad: Pad) -> (r: bool)
    ensures
        r == in_pad(c, pad),
{
    match pad {
        Pad::Blank => c == ' ' || c == '\t',
        Pad::BlankCr => c == ' ' || c == '\t' || c == '\r',
        Pad::Layout => c == ' ' || c == '\t' || c == '\r' || c == '\n',
    }
}

/// The first index at or after `i` whose character is not in `pad`.
pub open spec fn skip_pad(s: Seq<char>, i: int, pad: Pad) -> int
    decreases s.len() - i,
{
    if 0 <= i < s.len() && in_pad(s[i], pad) {
        skip_pad(s, i + 1, pad)
    } else {
        i
    }
}

/// The smallest index `k <= j` such that every character in `s[k..j]` is in `pad`.
pub open spec fn rskip_pad(s: Seq<char>, j: int, pad: Pad) -> int
    decreases j,
{
    if 0 < j <= s.len() && in_pad(s[j - 1], pad) {
        rskip_pad(s, j - 1, pad)
    } else {
        j
    }
}

pub open spec fn trim_start(s: Seq<char>, pad: Pad) -> Seq<char> {
    s.subrange(skip_pad(s, 0, pad), s.len() as int)
}

pub open spec fn trim_end(s: Seq<char>, pad: Pad) -> Seq<char> {
    s.subrange(0, rskip_pad(s, s.len() as int, pad))
}

pub open spec fn trim(s: Seq<char>, pad: Pad) -> Seq<char> {
    trim_end(trim_start(s, pad), pad)
}

/// Every character of `s` is in `pad`.
pub open spec fn all_pad(s: Seq<char>, pad: Pad) -> bool {
    forall|k: int| 0 <= k < s.len() ==> in_pad(#[trigger] s[k], pad)
}

pub proof fn lemma_skip_pad(s: Seq<char>, i: int, pad: Pad)
    requires
        0 <= i <= s.len(),
    ensures
        i <= skip_pad(s, i, pad) <= s.len(),
        forall|k: int| i <= k < skip_pad(s, i, pad) ==> in_pad(#[trigger] s[k], pad),
        skip_pad(s, i, pad) < s.len() ==> !in_pad(s[skip_pad(s, i, pad)], pad),
    decreases s.len() - i,
{
    if i < s.len() && in_pad(s[i], pad) {
        lemma_skip_pad(s, i + 1, pad);
    }
}

pub proof fn lemma_rskip_pad(s: Seq<char>, j: int, pad: Pad)
    requires
        0 <= j <= s.len(),
    ensures
        0 <= rskip_pad(s, j, pad) <= j,
        forall|k: int| rskip_pad(s, j, pad) <= k < j ==> in_pad(#[trigger] s[k], pad),
        rskip_pad(s, j, pad) > 0 ==> !in_pad(s[rskip_pad(s, j, pad) - 1], pad),
    decreases j,
{
    if 0 < j && in_pad(s[j - 1], pad) {
        lemma_rskip_pad(s, j - 1, pad);
    }
}

/// `trim` is empty exactly when every character is in the class.
pub proof fn lemma_trim_empty(s: Seq<char>, pad: Pad)
    ensures
        (trim(s, pad).len() == 0) == all_pad(s, pad),
        (trim_start(s, pad).len() == 0) == all_pad(s, pad),
{
    lemma_skip_pad(s, 0, pad);
    let t = trim_start(s, pad);
    lemma_rskip_pad(t, t.len() as int, pad);
    if !all_pad(s, pad) {
        let k = choose|k: int| 0 <= k < s.len() && !in_pad(#[trigger] s[k], pad);
        assert(skip_pad(s, 0, pad) <= k);
        assert(t.len() > 0);
        assert(!in_pad(t[0], pad));
        assert(rskip_pad(t, t.len() as int, pad) > 0);
    } else {
        assert(skip_pad(s, 0, pad) == s.len());
    }
}

pub fn skip_pad_exec(s: &[char], i: usize, pad: Pad) -> (r: usize)
    requires
        i <= s@.len(),
    ensures
        r == skip_pad(s@, i as int, pad),
        i <= r <= s@.len(),
{
    proof {
        lemma_skip_pad(s@, i as int, pad);
    }
    let mut k = i;
    while k < s.len() && is_pad(s[k], pad)
        invariant
            i <= k <= s@.len(),
            skip_pad(s@, k as int, pad) == skip_pad(s@, i as int, pad),
        decreases s@.len() - k,
    {
        k = k + 1;
    }
    k
}

pub fn rskip_pad_exec(s: &[char], j: usize, pad: Pad) -> (r: usize)
    requires
        j <= s@.len(),
    ensures
        r == rskip_pad(s@, j as int, pad),
        r <= j,
{
    proof {
        lemma_rskip_pad(s@, j as int, pad);
    }
    let mut k = j;
    while k > 0 && is_pad(s[k - 1], pad)
        invariant
            k <= j <= s@.len(),
            rskip_pad(s@, k as int, pad) == rskip_pad(s@, j as int, pad),
        decreases k,
    {
        k = k - 1;
    }
    k
}

/// Number of consecutive backslashes that end just before `i`.
pub open spec fn backslash_run(s: Seq<char>, i: int) -> nat
    decreases i,
{
    if 0 < i <= s.len() && s[i - 1] == '\\' {
        1 + backslash_run(s, i - 1)
    } else {
        0
    }
}

/// A character is escaped when an odd number of backslashes precede it.
pub open spec fn escaped(s: Seq<char>, i: int) -> bool {
    backslash_run(s, i) % 2 == 1
}

pub fn is_escaped(s: &[char], i: usize) -> (r: bool)
    requires
        i <= s@.len(),
    ensures
        r == escaped(s@, i as int),
{
    let mut odd = false;
    let mut k = i;
    while k > 0 && s[k - 1] == '\\'
        invariant
            k <= i <= s@.len(),
            backslash_run(s@, i as int) == (i - k) + backslash_run(s@, k as int),
            odd == ((i - k) % 2 == 1),
        decreases k,
    {
        k = k - 1;
        odd = !odd;
    }
    odd
}

/// `lit` occurs in `s` at index `i`.
pub open spec fn has_at(s: Seq<char>, i: int, lit: Seq<char>) -> bool {
    0 <= i && i + lit.len() <= s.len() && s.subrange(i, i + lit.len()) == lit
}

pub fn matches_at(s: &[char], i: usize, lit: &str) -> (r: bool)
    ensures
        r == has_at(s@, i as int, lit@),
{
    let pattern = chars_of(lit);
    let n = s.len();
    if i > n || pattern.len() > n - i {
        return false;
    }
    let mut k: usize = 0;
    while k < pattern.len()
        invariant
            n == s@.len(),
            i + pattern@.len() <= n,
            k <= pattern@.len(),
            pattern@ == lit@,
            forall|m: int| 0 <= m < k ==> s@[i + m] == pattern@[m],
        decreases pattern@.len() - k,
    {
        if s[i + k] != pattern[k] {
            assert(s@.subrange(i as int, i + pattern@.len())[k as int] != lit@[k as int]);
            return false;
        }
        k = k + 1;
    }
    assert(s@.subrange(i as int, i + lit@.len()) =~= lit@);
    true
}

/// `s` equals the literal `lit`.
pub fn text_is(s: &[char], lit: &str) -> (r: bool)
    ensures
        r == (s@ == lit@),
{
    let r = matches_at(s, 0, lit);
    proof {
        if r {
            assert(s@.subrange(0, lit@.len() as int) == lit@);
        }
    }
    if r && lit.unicode_len() == s.len() {
        assert(s@ =~= s@.subrange(0, lit@.len() as int));
        true
    } else {
        proof {
            if s@ == lit@ {
                assert(s@.subrange(0, lit@.len() as int) =~= lit@);
            }
        }
        false
    }
}

/// The characters of a string slice.
pub fn chars_of(s: &str) -> (v: Vec<char>)
    ensures
        v@ == s@,
{
    let mut v: Vec<char> = Vec::new();
    for c in it: s.chars()
        invariant
            v@ == it.seq().take(it.index() as int),
    {
        v.push(c);
    }
    v
}

/// `String::push`: appends one character at the end of the string.
#[verifier::external_body]
fn push_char(s: &mut String, c: char)
    ensures
        final(s)@ == old(s)@.push(c),
{
    s.push(c);
}

/// A string holding exactly the given characters.
pub fn string_of(v: &[char]) -> (s: String)
    ensures
        s@ == v@,
{
    let mut s = String::new();
    let mut i: usize = 0;
    while i < v.len()
        invariant
            i <= v@.len(),
            s@ == v@.subrange(0, i as int),
        decreases v@.len() - i,
    {
        push_char(&mut s, v[i]);
        assert(v@.subrange(0, i + 1) =~= v@.subrange(0, i as int).push(v@[i as int]));
        i = i + 1;
    }
    assert(v@.subrange(0, v@.len() as int) =~= v@);
    s
}

/// Appends `v[a..b]` to `out`.
pub fn push_range(out: &mut Vec<char>, v: &[char], a: usize, b: usize)
    requires
        a <= b <= v@.len(),
    ensures
        final(out)@ == old(out)@ + v@.subrange(a as int, b as int),
{
    let mut i = a;
    while i < b
        invariant
            a <= i <= b <= v@.len(),
            out@ == old(out)@ + v@.subrange(a as int, i as int),
        decreases b - i,
    {
        out.push(v[i]);
        assert(v@.subrange(a as int, i + 1) =~= v@.subrange(a as int, i as int).push(v@[i as int]));
        i = i + 1;
    }
}

/// Appends all of `v` to `out`.
pub fn push_all(out: &mut Vec<char>, v: &[char])
    ensures
        final(out)@ == old(out)@ + v@,
{
    push_range(out, v, 0, v.len());
    assert(v@.subrange(0, v@.len() as int) =~= v@);
}

/// Appends the literal `lit` to `out`.
pub fn push_str(out: &mut Vec<char>, lit: &str)
    ensures
        final(out)@ == old(out)@ + lit@,
{
    let v = chars_of(lit);
    push_all(out, v.as_slice());
}

} // verus!

verus! {

/// Two character sequences are equal.
pub fn same_chars(a: &[char], b: &[char]) -> (r: bool)
    ensures
        r == (a@ == b@),
{
    if a.len() != b.len() {
        return false;
    }
    let mut i: usize = 0;
    while i < a.len()
        invariant
            a@.len() == b@.len(),
            i <= a@.len(),
            forall|k: int| 0 <= k < i ==> a@[k] == b@[k],
        decreases a@.len() - i,
    {
        if a[i] != b[i] {
            return false;
        }
        i = i + 1;
    }
    assert(a@ =~= b@);
    true
}

} // verus!

verus! {

/// `lit` occurs somewhere in `s`.
pub open spec fn contains_lit(s: Seq<char>, lit: Seq<char>) -> bool {
    exists|i: int| 0 <= i <= s.len() && #[trigger] has_at(s, i, lit)
}

pub fn contains_str(s: &[char], lit: &str) -> (r: bool)
    ensures
        r == contains_lit(s@, lit@),
{
    let mut i: usize = 0;
    while i < s.len()
        invariant
            i <= s@.len(),
            forall|k: int| 0 <= k < i ==> !#[trigger] has_at(s@, k, lit@),
        decreases s@.len() - i,
    {
        if matches_at(s, i, lit) {
            return true;
        }
        i = i + 1;
    }
    matches_at(s, i, lit)
}

} // verus!

verus! {

/// The first index at or after `i` where `lit` occurs, if any.
pub open spec fn find_lit_from(s: Seq<char>, lit: Seq<char>, i: int) -> Option<int>
    decreases s.len() + 1 - i,
{
    if i < 0 || i > s.len() {
        None
    } else if has_at(s, i, lit) {
        Some(i)
    } else {
        find_lit_from(s, lit, i + 1)
    }
}

pub fn find_str(s: &[char], lit: &str) -> (r: Option<usize>)
    ensures
        match r {
            Some(i) => find_lit_from(s@, lit@, 0) == Some(i as int) && i <= s@.len(),
            None => find_lit_from(s@, lit@, 0).is_none(),
        },
{
    let mut i: usize = 0;
    while i < s.len()
        invariant
            i <= s@.len(),
            find_lit_from(s@, lit@, i as int) == find_lit_from(s@, lit@, 0),
        decreases s@.len() - i,
    {
        if matches_at(s, i, lit) {
            return Some(i);
        }
        i = i + 1;
    }
    if matches_at(s, i, lit) {
        Some(i)
    } else {
        assert(find_lit_from(s@, lit@, i + 1).is_none());
        None
    }
}

/// A run of `n` spaces.
pub open spec fn spaces(n: nat) -> Seq<char> {
    Seq::new(n, |i: int| ' ')
}

pub fn push_spaces(out: &mut Vec<char>, n: u128)
    ensures
        final(out)@ == old(out)@ + spaces(n as nat),
{
    let mut k: u128 = 0;
    while k < n
        invariant
            k <= n,
            out@ == old(out)@ + spaces(k as nat),
        decreases n - k,
    {
        out.push(' ');
        k = k + 1;
        assert(out@ =~= old(out)@ + spaces(k as nat));
    }
}

} // verus!
