//! Character classes, alternatives of a group, and the tokenizer of patterns.
use vstd::prelude::*;

use crate::text::{string_views, views, blen, byte_len, byte_slice, char_at, chars_of, slice_bytes, string_of};

verus! {

/// The low eight bits of a character's scalar value, which is what `c as u8` keeps.
pub open spec fn low_byte(c: char) -> int {
    (c as u32 as int) % 256
}

/// The low byte of `c` is an ASCII decimal digit.
pub open spec fn spec_is_digit(c: char) -> bool {
    48 <= low_byte(c) <= 57
}

/// The low byte of `c` is an ASCII letter, an ASCII digit or `_`.
pub open spec fn spec_is_alphanumeric(c: char) -> bool {
    let b = low_byte(c);
    ||| 48 <= b <= 57
    ||| 65 <= b <= 90
    ||| 97 <= b <= 122
    ||| b == 95
}

proof fn lemma_low_byte(c: char)
    ensures
        (c as u8) as int == low_byte(c),
{
    let u = c as u32;
    assert(u as u8 == u % 256) by (bit_vector);
}

/// Whether `c` counts as a digit for `\d`: its low byte is `'0'..='9'`.
pub fn is_digit(c: char) -> (b: bool)
    ensures
        b == spec_is_digit(c),
{
    let ascii_c = c as u8;
    proof {
        lemma_low_byte(c);
    }
    if ascii_c >= 48 && ascii_c <= 57 {
        return true;
    }
    return false;
}

/// Whether `c` counts as a word character for `\w`: its low byte is an ASCII
/// letter, an ASCII digit or `_`.
pub fn is_alphanumeric(c: char) -> (b: bool)
    ensures
        b == spec_is_alphanumeric(c),
{
    let ascii_c = c as u8;
    proof {
        lemma_low_byte(c);
    }
    if ascii_c >= 48 && ascii_c <= 57 || ascii_c >= 65 && ascii_c <= 90 || ascii_c >= 97 && ascii_c
        <= 122 || ascii_c == 95 {
        return true
    }
    return false
}

/// Every digit is a word character.
pub proof fn law_digit_is_alphanumeric(c: char)
    ensures
        spec_is_digit(c) ==> spec_is_alphanumeric(c),
{
}

// ---------------------------------------------------------------------------
// Alternatives of a group: the text between the `|` separators.
/// The pieces of `p` between `|` characters, in order: a text with `n`
/// separators has `n + 1` pieces, some of which may be empty.
pub open spec fn options_of(p: Seq<char>) -> Seq<Seq<char>>
    decreases p.len(),
{
    if p.len() == 0 {
        seq![Seq::empty()]
    } else {
        let before = options_of(p.drop_last());
        if p.last() == '|' {
            before.push(Seq::empty())
        } else {
            before.update(before.len() - 1, before.last().push(p.last()))
        }
    }
}

/// The pieces joined back, with a `|` between two neighbours.
pub open spec fn join_with_bar(pieces: Seq<Seq<char>>) -> Seq<char>
    decreases pieces.len(),
{
    if pieces.len() == 0 {
        Seq::empty()
    } else if pieces.len() == 1 {
        pieces[0]
    } else {
        join_with_bar(pieces.drop_last()) + seq!['|'] + pieces.last()
    }
}

/// The number of `|` characters in `p`.
pub open spec fn bar_count(p: Seq<char>) -> nat
    decreases p.len(),
{
    if p.len() == 0 {
        0
    } else {
        bar_count(p.drop_last()) + if p.last() == '|' {
            1nat
        } else {
            0nat
        }
    }
}

/// Splitting at `|` and joining with `|` gives the text back; no piece holds a
/// `|`; there is one piece more than there are separators.
pub proof fn law_options_round_trip(p: Seq<char>)
    ensures
        join_with_bar(options_of(p)) == p,
        forall|k: int| 0 <= k < options_of(p).len() ==> !(#[trigger] options_of(p)[k]).contains('|'),
        options_of(p).len() == bar_count(p) + 1,
    decreases p.len(),
{
    if p.len() > 0 {
        let q = p.drop_last();
        law_options_round_trip(q);
        let before = options_of(q);
        let c = p.last();
        if c == '|' {
            let after = before.push(Seq::<char>::empty());
            assert(after.drop_last() =~= before);
            assert(join_with_bar(after) =~= join_with_bar(before) + seq!['|']);
            assert(p =~= q + seq!['|']);
            assert forall|k: int| 0 <= k < after.len() implies !(#[trigger] after[k]).contains('|') by {
                if k < before.len() {
                    assert(after[k] == before[k]);
                }
            }
        } else {
            let n = before.len();
            let after = before.update(n - 1, before.last().push(c));
            assert(p =~= q + seq![c]);
            if n == 1 {
                assert(join_with_bar(after) == after[0]);
                assert(join_with_bar(before) == before[0]);
            } else {
                assert(after.drop_last() =~= before.drop_last());
                assert(join_with_bar(after) =~= join_with_bar(before.drop_last()) + seq!['|']
                    + before.last().push(c));
            }
            assert forall|k: int| 0 <= k < after.len() implies !(#[trigger] after[k]).contains('|') by {
                if k < n - 1 {
                    assert(after[k] == before[k]);
                } else {
                    assert(!before[k].contains('|'));
                    if after[k].contains('|') {
                        let j = choose|j: int| 0 <= j < after[k].len() && after[k][j] == '|';
                        if j < before[k].len() {
                            assert(before[k][j] == '|');
                        }
                    }
                }
            }
        }
    }
}

pub fn chars_to_strings(v: &Vec<Vec<char>>) -> (r: Vec<String>)
    ensures
        string_views(r@) == views(v@),
{
    let mut r: Vec<String> = Vec::new();
    let mut k: usize = 0;
    while k < v.len()
        invariant
            k <= v@.len(),
            string_views(r@) == views(v@).take(k as int),
        decreases v@.len() - k,
    {
        let s = string_of(v[k].as_slice());
        let ghost before = string_views(r@);
        r.push(s);
        assert(string_views(r@) =~= before.push(v@[k as int]@));
        k = k + 1;
        assert(string_views(r@) =~= views(v@).take(k as int));
    }
    assert(views(v@).take(k as int) =~= views(v@));
    r
}

/// The alternatives of an alternation group, as character vectors.
pub fn split_options(p: &[char]) -> (r: Vec<Vec<char>>)
    ensures
        views(r@) == options_of(p@),
{
    let mut options: Vec<Vec<char>> = Vec::new();
    let mut current: Vec<char> = Vec::new();
    let mut k: usize = 0;
    assert(p@.take(0) =~= Seq::<char>::empty());
    while k < p.len()
        invariant
            k <= p@.len(),
            options_of(p@.take(k as int)) == views(options@).push(current@),
        decreases p@.len() - k,
    {
        let c = p[k];
        let ghost before = views(options@).push(current@);
        assert(p@.take(k + 1).drop_last() =~= p@.take(k as int));
        if c == '|' {
            options.push(current);
            current = Vec::new();
            assert(views(options@).push(current@) =~= before.push(Seq::empty()));
        } else {
            current.push(c);
            assert(views(options@).push(current@) =~= before.update(
                before.len() - 1,
                before.last().push(c),
            ));
        }
        k = k + 1;
    }
    assert(p@.take(k as int) =~= p@);
    let ghost before = views(options@);
    options.push(current);
    assert(views(options@) =~= before.push(current@));
    options
}

/// The pieces of `pattern` between its `|` characters.
pub fn get_options(pattern: &str) -> (options: Vec<String>)
    ensures
        string_views(options@) == options_of(pattern@),
{
    let p = chars_of(pattern);
    let v = split_options(p.as_slice());
    chars_to_strings(&v)
}

// ---------------------------------------------------------------------------
// The tokenizer.
/// What the tokenizer carries from one byte position to the next.
pub struct SplitState {
    /// Tokens emitted so far.
    pub out: Seq<Seq<char>>,
    /// A bracket class being read (`[...`).
    pub class: Seq<char>,
    pub in_class: bool,
    /// The next position is the second character of an escape.
    pub skip: bool,
    pub in_group: bool,
    /// The body of the group being read.
    pub group: Seq<char>,
    /// A `|` was seen at nesting depth 0 of the current group.
    pub alternation: bool,
    /// Depth of parentheses opened inside the current group.
    pub nest: int,
    /// Positions still to pass over after a `{` quantifier.
    pub skip_n: int,
}

pub open spec fn split_start() -> SplitState {
    SplitState {
        out: Seq::empty(),
        class: Seq::empty(),
        in_class: false,
        skip: false,
        in_group: false,
        group: Seq::empty(),
        alternation: false,
        nest: 0,
        skip_n: 0,
    }
}

/// `'0'..='9'` as a number, as `char::to_digit(10)` gives it.
pub open spec fn decimal_digit(c: char) -> Option<u32> {
    if '0' <= c <= '9' {
        Some((c as u32 - '0' as u32) as u32)
    } else {
        None
    }
}

/// The tokenizer's treatment of the byte position `i` of `p`. Positions are
/// byte offsets, and the character read at position `i` is the `i`-th
/// character. `None` where the tokenizer panics: a character read past the
/// last one, a byte slice off a char boundary, a nesting depth past `i32`.
pub open spec fn split_step(p: Seq<char>, i: int, st: SplitState) -> Option<SplitState> {
    if st.skip_n > 0 {
        Some(SplitState { skip_n: st.skip_n - 1, ..st })
    } else if st.skip {
        Some(SplitState { skip: false, ..st })
    } else {
        match char_at(p, i) {
            None => None,
            Some(c) => if st.in_class {
                let class = st.class.push(c);
                if c == ']' {
                    Some(SplitState { in_class: false, out: st.out.push(class), class: Seq::empty(), ..st })
                } else {
                    Some(SplitState { class, ..st })
                }
            } else if st.in_group {
                if c == ')' {
                    if st.nest > 0 {
                        Some(SplitState { nest: st.nest - 1, group: st.group.push(')'), ..st })
                    } else {
                        let marker = if st.alternation {
                            seq!['|']
                        } else {
                            seq!['(']
                        };
                        Some(
                            SplitState {
                                out: st.out.push(marker).push(st.group),
                                alternation: false,
                                nest: 0,
                                in_group: false,
                                group: Seq::empty(),
                                ..st
                            },
                        )
                    }
                } else if c == '|' && st.nest == 0 {
                    Some(SplitState { alternation: true, group: st.group.push(c), ..st })
                } else if c == '(' {
                    if st.nest + 1 > i32::MAX {
                        None
                    } else {
                        Some(SplitState { nest: st.nest + 1, group: st.group.push(c), ..st })
                    }
                } else {
                    Some(SplitState { group: st.group.push(c), ..st })
                }
            } else if c == '[' {
                Some(SplitState { class: st.class.push('['), in_class: true, ..st })
            } else if c == '(' {
                Some(SplitState { in_group: true, ..st })
            } else if c == '\\' {
                match char_at(p, i + 1) {
                    None => None,
                    Some(d) => if d == '\\' {
                        Some(SplitState { out: st.out.push(seq!['\\']), skip: true, ..st })
                    } else if spec_is_digit(d) {
                        Some(SplitState { out: st.out.push(seq!['\\', d]), skip: true, ..st })
                    } else {
                        match byte_slice(p, i, i + 2) {
                            None => None,
                            Some(t) => Some(SplitState { out: st.out.push(t), skip: true, ..st }),
                        }
                    },
                }
            } else if c == '{' {
                match (char_at(p, i + 1), char_at(p, i + 2)) {
                    (Some(d), Some(e)) => if e == ',' {
                        match char_at(p, i + 3) {
                            None => None,
                            Some(g) => if g != '}' {
                                Some(
                                    SplitState {
                                        out: st.out.push(seq!['{', d, ',', g]),
                                        skip_n: 4,
                                        ..st
                                    },
                                )
                            } else {
                                Some(SplitState { out: st.out.push(seq!['{', d, ',']), skip_n: 3, ..st })
                            },
                        }
                    } else {
                        Some(SplitState { out: st.out.push(seq!['{', d]), skip_n: 2, ..st })
                    },
                    _ => None,
                }
            } else {
                Some(SplitState { out: st.out.push(seq![c]), ..st })
            },
        }
    }
}

/// The tokenizer run from byte position `i` to the end of `p`.
pub open spec fn split_from(p: Seq<char>, i: int, st: SplitState) -> Option<SplitState>
    decreases blen(p) - i,
{
    if i >= blen(p) {
        Some(st)
    } else {
        match split_step(p, i, st) {
            None => None,
            Some(next) => split_from(p, i + 1, next),
        }
    }
}

/// The tokens of pattern `p`, or `None` where tokenizing it panics.
///
/// A token is one of: a single character; a two-character escape such as
/// `\d`; a bracket class `[...]`; a quantifier `{n`, `{n,` or `{n,m`; or a
/// group, which is two tokens: `(` (or `|` when the group holds a `|` at its
/// own depth) followed by the group's body. A bracket class or group that is
/// never closed yields no token.
pub open spec fn split_pattern(p: Seq<char>) -> Option<Seq<Seq<char>>> {
    if blen(p) > usize::MAX {
        None
    } else {
        match split_from(p, 0, split_start()) {
            None => None,
            Some(st) => Some(st.out),
        }
    }
}

/// A token of one character.
fn token1(a: char) -> (t: Vec<char>)
    ensures
        t@ == seq![a],
{
    let t = vec![a];
    assert(t@ =~= seq![a]);
    t
}

/// A token of two characters.
fn token2(a: char, b: char) -> (t: Vec<char>)
    ensures
        t@ == seq![a, b],
{
    let t = vec![a, b];
    assert(t@ =~= seq![a, b]);
    t
}

/// A token of three characters.
fn token3(a: char, b: char, c: char) -> (t: Vec<char>)
    ensures
        t@ == seq![a, b, c],
{
    let t = vec![a, b, c];
    assert(t@ =~= seq![a, b, c]);
    t
}

/// A token of four characters.
fn token4(a: char, b: char, c: char, d: char) -> (t: Vec<char>)
    ensures
        t@ == seq![a, b, c, d],
{
    let t = vec![a, b, c, d];
    assert(t@ =~= seq![a, b, c, d]);
    t
}

struct Splitter {
    out: Vec<Vec<char>>,
    class: Vec<char>,
    in_class: bool,
    skip: bool,
    in_group: bool,
    group: Vec<char>,
    alternation: bool,
    nest: i32,
    skip_n: i32,
}

impl Splitter {
    spec fn state(&self) -> SplitState {
        SplitState {
            out: views(self.out@),
            class: self.class@,
            in_class: self.in_class,
            skip: self.skip,
            in_group: self.in_group,
            group: self.group@,
            alternation: self.alternation,
            nest: self.nest as int,
            skip_n: self.skip_n as int,
        }
    }

    spec fn bounded(&self) -> bool {
        0 <= self.skip_n <= 4 && 0 <= self.nest
    }

    fn emit(&mut self, t: Vec<char>)
        ensures
            final(self).state() == (SplitState { out: old(self).state().out.push(t@), ..old(self).state() }),
            final(self).skip_n == old(self).skip_n && final(self).nest == old(self).nest,
    {
        let ghost before = views(self.out@);
        self.out.push(t);
        assert(views(self.out@) =~= before.push(t@));
    }

    /// Whether the tokenizer's step at byte position `i` goes through.
    fn step_ok(&self, p: &[char], i: usize) -> (ok: bool)
        requires
            self.bounded(),
        ensures
            ok == split_step(p@, i as int, self.state()) is Some,
    {
        if self.skip_n > 0 || self.skip {
            return true;
        }
        if i >= p.len() {
            return false;
        }
        let c = p[i];
        if self.in_class {
            true
        } else if self.in_group {
            !(c == '(' && self.nest == i32::MAX)
        } else if c == '\\' {
            if i + 1 >= p.len() {
                return false;
            }
            let d = p[i + 1];
            if d == '\\' || is_digit(d) {
                true
            } else {
                slice_bytes(p, i, i + 2).is_some()
            }
        } else if c == '{' {
            if p.len() - i <= 2 {
                return false;
            }
            if p[i + 2] == ',' {
                p.len() - i > 3
            } else {
                true
            }
        } else {
            true
        }
    }

    fn step(&mut self, p: &[char], i: usize)
        requires
            old(self).bounded(),
            split_step(p@, i as int, old(self).state()) is Some,
        ensures
            final(self).bounded(),
            final(self).state() == split_step(p@, i as int, old(self).state())->0,
    {
        if self.skip_n > 0 {
            self.skip_n = self.skip_n - 1;
            return ;
        }
        if self.skip {
            self.skip = false;
            return ;
        }
        let c = p[i];
        if self.in_class {
            self.class.push(c);
            if c == ']' {
                self.in_class = false;
                let mut class: Vec<char> = Vec::new();
                std::mem::swap(&mut class, &mut self.class);
                self.emit(class);
            }
        } else if self.in_group {
            if c == ')' {
                if self.nest > 0 {
                    self.nest = self.nest - 1;
                    self.group.push(')');
                    return ;
                }
                if self.alternation {
                    self.emit(token1('|'));
                    self.alternation = false;
                } else {
                    self.emit(token1('('));
                }
                self.nest = 0;
                let mut group: Vec<char> = Vec::new();
                std::mem::swap(&mut group, &mut self.group);
                self.emit(group);
                self.in_group = false;
            } else if c == '|' && self.nest == 0 {
                self.alternation = true;
                self.group.push(c);
            } else if c == '(' {
                self.nest = self.nest + 1;
                self.group.push(c);
            } else {
                self.group.push(c);
            }
        } else {
            if c == '[' {
                self.class.push('[');
                self.in_class = true;
            } else if c == '(' {
                self.in_group = true;
            } else if c == '\\' {
                let d = p[i + 1];
                if d == '\\' {
                    self.emit(token1('\\'));
                } else if is_digit(d) {
                    self.emit(token2('\\', d));
                } else {
                    let t = slice_bytes(p, i, i + 2);
                    match t {
                        Some(t) => self.emit(t),
                        // an escape off a char boundary: excluded by `requires`
                        None => {},
                    }
                }
                self.skip = true;
            } else if c == '{' {
                let d = p[i + 1];
                let e = p[i + 2];
                if e == ',' {
                    let g = p[i + 3];
                    if g != '}' {
                        self.emit(token4('{', d, ',', g));
                        self.skip_n = 4;
                    } else {
                        self.emit(token3('{', d, ','));
                        self.skip_n = 3;
                    }
                } else {
                    self.emit(token2('{', d));
                    self.skip_n = 2;
                }
            } else {
                self.emit(token1(c));
            }
        }
    }
}

/// The tokens of a pattern given as characters.
pub fn split_chars(p: &[char]) -> (tokens: Vec<Vec<char>>)
    requires
        split_pattern(p@) is Some,
    ensures
        views(tokens@) == split_pattern(p@)->0,
{
    let n = byte_len(p);
    let n = n as usize;
    let mut sp = Splitter {
        out: Vec::new(),
        class: Vec::new(),
        in_class: false,
        skip: false,
        in_group: false,
        group: Vec::new(),
        alternation: false,
        nest: 0,
        skip_n: 0,
    };
    assert(views(sp.out@) =~= Seq::empty());
    assert(sp.state() == split_start());
    let mut i: usize = 0;
    while i < n
        invariant
            n == blen(p@),
            i <= n,
            sp.bounded(),
            split_from(p@, i as int, sp.state()) == split_from(p@, 0, split_start()),
            split_from(p@, i as int, sp.state()) is Some,
        decreases n - i,
    {
        sp.step(p, i);
        i = i + 1;
    }
    sp.out
}

/// The tokens of a pattern given as characters, or `None` where tokenizing
/// it panics.
pub(crate) fn try_split_chars(p: &[char]) -> (tokens: Option<Vec<Vec<char>>>)
    ensures
        tokens is None <==> split_pattern(p@) is None,
        tokens matches Some(v) ==> views(v@) == split_pattern(p@)->0,
{
    let n = byte_len(p);
    if n > usize::MAX as u128 {
        return None;
    }
    let n = n as usize;
    let mut sp = Splitter {
        out: Vec::new(),
        class: Vec::new(),
        in_class: false,
        skip: false,
        in_group: false,
        group: Vec::new(),
        alternation: false,
        nest: 0,
        skip_n: 0,
    };
    assert(views(sp.out@) =~= Seq::empty());
    assert(sp.state() == split_start());
    let mut i: usize = 0;
    while i < n
        invariant
            n == blen(p@),
            i <= n,
            sp.bounded(),
            split_from(p@, i as int, sp.state()) == split_from(p@, 0, split_start()),
        decreases n - i,
    {
        if !sp.step_ok(p, i) {
            return None;
        }
        sp.step(p, i);
        i = i + 1;
    }
    Some(sp.out)
}

/// The tokens of `pattern`, or `None` where tokenizing it panics (see
/// [`split_pattern`]): an escape or a quantifier cut short by the end of
/// the pattern, an escape of a character wider than one byte, or a nesting
/// of groups deeper than `i32::MAX`.
pub fn try_pattern_splitter(pattern: &str) -> (tokens: Option<Vec<String>>)
    ensures
        tokens is None <==> split_pattern(pattern@) is None,
        tokens matches Some(v) ==> string_views(v@) == split_pattern(pattern@)->0,
{
    let p = chars_of(pattern);
    match try_split_chars(p.as_slice()) {
        None => None,
        Some(v) => Some(chars_to_strings(&v)),
    }
}

/// The tokens of `pattern` (see [`split_pattern`]).
pub fn pattern_splitter(pattern: &str) -> (tokens: Vec<String>)
    requires
        split_pattern(pattern@) is Some,
    ensures
        string_views(tokens@) == split_pattern(pattern@)->0,
{
    let p = chars_of(pattern);
    let v = split_chars(p.as_slice());
    chars_to_strings(&v)
}

} // verus!
