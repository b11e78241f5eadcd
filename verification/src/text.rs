//! Character sequences and their UTF-8 byte geometry.
//!
//! The matcher reads its strings character by character but measures and
//! slices them by UTF-8 byte offsets, as `str::len` and `&s[a..b]` do. The spec
//! functions here give those byte measures over a `Seq<char>`.
use vstd::prelude::*;

verus! {

/// The character sequences held by a vector of character vectors.
pub open spec fn views(v: Seq<Vec<char>>) -> Seq<Seq<char>> {
    v.map_values(|x: Vec<char>| x@)
}

/// The character sequences held by a vector of strings.
pub open spec fn string_views(v: Seq<String>) -> Seq<Seq<char>> {
    v.map_values(|x: String| x@)
}

/// Number of bytes in the UTF-8 encoding of `c`.
pub open spec fn width(c: char) -> int {
    let u = c as u32;
    if u < 0x80 {
        1
    } else if u < 0x800 {
        2
    } else if u < 0x10000 {
        3
    } else {
        4
    }
}

/// Number of bytes in the UTF-8 encoding of `s` (what `str::len` reports).
pub open spec fn blen(s: Seq<char>) -> int
    decreases s.len(),
{
    if s.len() == 0 {
        0
    } else {
        blen(s.drop_last()) + width(s.last())
    }
}

/// The character at char index `i`, as `s.chars().nth(i)` gives it.
pub open spec fn char_at(s: Seq<char>, i: int) -> Option<char> {
    if 0 <= i < s.len() {
        Some(s[i])
    } else {
        None
    }
}

/// `s.chars().nth(i).unwrap_or(' ')`.
pub open spec fn char_or_space(s: Seq<char>, i: int) -> char {
    if 0 <= i < s.len() {
        s[i]
    } else {
        ' '
    }
}

/// `s.chars().skip(k)`: the suffix after `k` characters, empty when `k` is past the end.
pub open spec fn skip_chars(s: Seq<char>, k: int) -> Seq<char> {
    if k <= s.len() {
        s.subrange(k, s.len() as int)
    } else {
        Seq::empty()
    }
}

/// `s.chars().take(k)`: the first `k` characters, or all of them.
pub open spec fn take_chars(s: Seq<char>, k: int) -> Seq<char> {
    if k <= s.len() {
        s.subrange(0, k)
    } else {
        s
    }
}

/// Scanning from char index `k`, whose byte offset is `acc`, the char index
/// whose byte offset is exactly `a`, if there is one.
pub open spec fn boundary_from(s: Seq<char>, k: int, acc: int, a: int) -> Option<int>
    decreases s.len() - k,
{
    if acc == a {
        Some(k)
    } else if acc > a || k >= s.len() || k < 0 {
        None
    } else {
        boundary_from(s, k + 1, acc + width(s[k]), a)
    }
}

/// The char index at byte offset `a`, when `a` is a char boundary of `s`.
pub open spec fn char_boundary(s: Seq<char>, a: int) -> Option<int> {
    boundary_from(s, 0, 0, a)
}

/// `&s[a..b]` on the string whose characters are `s`: `None` where that
/// slicing panics (`a > b`, or an offset that is not a char boundary).
pub open spec fn byte_slice(s: Seq<char>, a: int, b: int) -> Option<Seq<char>> {
    if a > b {
        None
    } else {
        match (char_boundary(s, a), char_boundary(s, b)) {
            (Some(ka), Some(kb)) => Some(s.subrange(ka, kb)),
            _ => None,
        }
    }
}

pub proof fn lemma_blen_len(s: Seq<char>)
    ensures
        blen(s) >= s.len(),
        s.len() > 0 ==> blen(s) > 0,
    decreases s.len(),
{
    if s.len() > 0 {
        lemma_blen_len(s.drop_last());
    }
}

pub proof fn lemma_blen_append(a: Seq<char>, b: Seq<char>)
    ensures
        blen(a + b) == blen(a) + blen(b),
    decreases b.len(),
{
    if b.len() == 0 {
        assert(a + b =~= a);
    } else {
        lemma_blen_append(a, b.drop_last());
        assert((a + b).drop_last() =~= a + b.drop_last());
    }
}

/// What follows the first `k` characters is no longer in bytes than the whole.
pub proof fn lemma_blen_skip(t: Seq<char>, k: int)
    requires
        0 <= k,
    ensures
        blen(skip_chars(t, k)) <= blen(t),
        skip_chars(t, k).len() == if k <= t.len() {
            t.len() - k
        } else {
            0
        },
{
    lemma_blen_len(t);
    if k <= t.len() {
        lemma_blen_append(t.take(k), t.skip(k));
        assert(t.take(k) + t.skip(k) =~= t);
        assert(skip_chars(t, k) == t.skip(k));
        lemma_blen_len(t.take(k));
    } else {
        assert(blen(Seq::<char>::empty()) == 0);
    }
}

pub proof fn lemma_width_bounds(c: char)
    ensures
        1 <= width(c) <= 4,
{
}

pub proof fn lemma_blen_take(s: Seq<char>, k: int)
    requires
        0 <= k < s.len(),
    ensures
        blen(s.take(k + 1)) == blen(s.take(k)) + width(s[k]),
        blen(s.take(k)) <= 4 * k,
    decreases k,
{
    assert(s.take(k + 1).drop_last() =~= s.take(k));
    if k > 0 {
        lemma_blen_take(s, k - 1);
    }
}

pub proof fn lemma_boundary_from(s: Seq<char>, k: int, acc: int, a: int)
    requires
        0 <= k <= s.len(),
    ensures
        boundary_from(s, k, acc, a) matches Some(r) ==> k <= r <= s.len(),
    decreases s.len() - k,
{
    if acc != a && !(acc > a || k >= s.len()) {
        lemma_boundary_from(s, k + 1, acc + width(s[k]), a);
    }
}

/// Every character of `s` is ASCII, one byte wide.
pub open spec fn is_ascii(s: Seq<char>) -> bool {
    forall|i: int| 0 <= i < s.len() ==> (#[trigger] s[i] as u32) < 0x80
}

/// An ASCII sequence has as many bytes as characters.
pub proof fn lemma_ascii_blen(p: Seq<char>)
    requires
        is_ascii(p),
    ensures
        blen(p) == p.len(),
    decreases p.len(),
{
    if p.len() > 0 {
        assert(is_ascii(p.drop_last()));
        lemma_ascii_blen(p.drop_last());
        assert((p.last() as u32) < 0x80);
    }
}

/// What follows the first `k` characters of an ASCII sequence is ASCII.
pub proof fn lemma_ascii_skip(s: Seq<char>, k: int)
    requires
        is_ascii(s),
        0 <= k,
    ensures
        is_ascii(skip_chars(s, k)),
        blen(skip_chars(s, k)) == skip_chars(s, k).len(),
        k <= s.len() ==> skip_chars(s, k) == s.skip(k),
{
    if k <= s.len() {
        assert(skip_chars(s, k) =~= s.skip(k));
        assert forall|i: int| 0 <= i < s.skip(k).len() implies (#[trigger] s.skip(k)[i] as u32) < 0x80 by {
            assert(s.skip(k)[i] == s[k + i]);
        }
    }
    lemma_ascii_blen(skip_chars(s, k));
}

proof fn lemma_ascii_boundary_from(s: Seq<char>, k: int, a: int)
    requires
        is_ascii(s),
        0 <= k <= a <= s.len(),
    ensures
        boundary_from(s, k, k, a) == Some(a),
    decreases a - k,
{
    if k < a {
        assert((s[k] as u32) < 0x80);
        lemma_ascii_boundary_from(s, k + 1, a);
    }
}

/// In an ASCII sequence every byte offset up to the end is a char boundary,
/// at the same char index.
pub proof fn lemma_ascii_boundary(s: Seq<char>, a: int)
    requires
        is_ascii(s),
        0 <= a <= s.len(),
    ensures
        char_boundary(s, a) == Some(a),
{
    lemma_ascii_boundary_from(s, 0, a);
}

/// Byte slices of an ASCII sequence are its subranges.
pub proof fn lemma_ascii_byte_slice(s: Seq<char>, a: int, b: int)
    requires
        is_ascii(s),
        0 <= a <= b <= s.len(),
    ensures
        byte_slice(s, a, b) == Some(s.subrange(a, b)),
{
    lemma_ascii_boundary(s, a);
    lemma_ascii_boundary(s, b);
}

/// Byte width of one character.
pub fn char_width(c: char) -> (w: u128)
    ensures
        w == width(c),
{
    let u = c as u32;
    if u < 0x80 {
        1
    } else if u < 0x800 {
        2
    } else if u < 0x10000 {
        3
    } else {
        4
    }
}

/// UTF-8 length of a character sequence.
pub fn byte_len(s: &[char]) -> (n: u128)
    ensures
        n == blen(s@),
{
    let mut n: u128 = 0;
    let mut k: usize = 0;
    while k < s.len()
        invariant
            k <= s@.len(),
            n == blen(s@.take(k as int)),
            n <= 4 * k,
        decreases s@.len() - k,
    {
        proof {
            lemma_blen_take(s@, k as int);
            lemma_width_bounds(s@[k as int]);
        }
        n = n + char_width(s[k]);
        k = k + 1;
    }
    assert(s@.take(k as int) =~= s@);
    n
}

/// The char index at byte offset `a` of `s`, if `a` is a char boundary.
pub fn char_index_at_byte(s: &[char], a: usize) -> (r: Option<usize>)
    ensures
        r matches Some(k) ==> char_boundary(s@, a as int) == Some(k as int),
        r is None ==> char_boundary(s@, a as int) is None,
{
    let mut k: usize = 0;
    let mut acc: u128 = 0;
    while (acc as u128) < (a as u128) && k < s.len()
        invariant
            k <= s@.len(),
            acc <= 4 * k,
            boundary_from(s@, 0, 0, a as int) == boundary_from(s@, k as int, acc as int, a as int),
        decreases s@.len() - k,
    {
        proof {
            lemma_width_bounds(s@[k as int]);
        }
        acc = acc + char_width(s[k]);
        k = k + 1;
    }
    if acc == a as u128 {
        Some(k)
    } else {
        None
    }
}

/// `&s[a..b]` over characters, `None` where the byte slicing would panic.
pub fn slice_bytes(s: &[char], a: usize, b: usize) -> (r: Option<Vec<char>>)
    ensures
        r matches Some(v) ==> byte_slice(s@, a as int, b as int) == Some(v@),
        r is None ==> byte_slice(s@, a as int, b as int) is None,
{
    if a > b {
        return None;
    }
    let ka = char_index_at_byte(s, a);
    let kb = char_index_at_byte(s, b);
    match (ka, kb) {
        (Some(ka), Some(kb)) => {
            proof {
                lemma_boundary_from(s@, 0, 0, a as int);
                lemma_boundary_from(s@, 0, 0, b as int);
            }
            if ka <= kb {
                Some(copy_range(s, ka, kb))
            } else {
                // `a <= b` makes `ka <= kb`: byte offsets grow with char indices.
                proof {
                    lemma_boundary_monotone(s@, a as int, b as int);
                }
                None
            }
        },
        _ => None,
    }
}

pub proof fn lemma_boundary_from_offset(s: Seq<char>, k: int, acc: int, a: int)
    requires
        0 <= k <= s.len(),
        acc == blen(s.take(k)),
    ensures
        boundary_from(s, k, acc, a) matches Some(r) ==> blen(s.take(r)) == a && k <= r <= s.len(),
    decreases s.len() - k,
{
    if acc != a && !(acc > a || k >= s.len()) {
        lemma_blen_take(s, k);
        lemma_boundary_from_offset(s, k + 1, acc + width(s[k]), a);
    }
}

pub proof fn lemma_blen_take_monotone(s: Seq<char>, i: int, j: int)
    requires
        0 <= i <= j <= s.len(),
    ensures
        blen(s.take(i)) <= blen(s.take(j)),
        i < j ==> blen(s.take(i)) < blen(s.take(j)),
    decreases j - i,
{
    if i < j {
        lemma_blen_take(s, j - 1);
        lemma_width_bounds(s[j - 1]);
        lemma_blen_take_monotone(s, i, j - 1);
    }
}

pub proof fn lemma_boundary_monotone(s: Seq<char>, a: int, b: int)
    requires
        a <= b,
    ensures
        char_boundary(s, a) matches Some(ka) ==> (char_boundary(s, b) matches Some(kb) ==> ka
            <= kb),
{
    assert(s.take(0) =~= Seq::<char>::empty());
    lemma_boundary_from_offset(s, 0, 0, a);
    lemma_boundary_from_offset(s, 0, 0, b);
    if let Some(ka) = char_boundary(s, a) {
        if let Some(kb) = char_boundary(s, b) {
            if kb < ka {
                lemma_blen_take_monotone(s, kb, ka);
            }
        }
    }
}

/// A fresh vector holding `s[lo..hi]`.
pub fn copy_range(s: &[char], lo: usize, hi: usize) -> (v: Vec<char>)
    requires
        lo <= hi <= s@.len(),
    ensures
        v@ == s@.subrange(lo as int, hi as int),
{
    let mut v: Vec<char> = Vec::new();
    let mut k = lo;
    while k < hi
        invariant
            lo <= k <= hi,
            hi <= s@.len(),
            v@ == s@.subrange(lo as int, k as int),
        decreases hi - k,
    {
        v.push(s[k]);
        k = k + 1;
        assert(v@ =~= s@.subrange(lo as int, k as int));
    }
    v
}

/// The characters of a string slice.
pub fn chars_of(s: &str) -> (v: Vec<char>)
    ensures
        v@ == s@,
{
    let mut v: Vec<char> = Vec::new();
    for c in it: s.chars()
        invariant
            it.seq() == s@,
            v@ == s@.take(it.index() as int),
    {
        v.push(c);
        assert(v@ =~= s@.take(it.index() as int + 1));
    }
    assert(v@ =~= s@);
    v
}

/// Appends one character to a `String`.
///
/// Calls `String::push`, which the standard library documents as appending
/// the given `char` to the end of the string.
#[verifier::external_body]
fn push_char(s: &mut String, c: char)
    ensures
        final(s)@ == old(s)@.push(c),
{
    s.push(c);
}

/// A `String` holding the given characters.
pub fn string_of(v: &[char]) -> (s: String)
    ensures
        s@ == v@,
{
    let mut s = String::new();
    let mut k: usize = 0;
    while k < v.len()
        invariant
            k <= v@.len(),
            s@ == v@.take(k as int),
        decreases v@.len() - k,
    {
        push_char(&mut s, v[k]);
        k = k + 1;
        assert(s@ =~= v@.take(k as int));
    }
    assert(v@.take(k as int) =~= v@);
    s
}

} // verus!
