//! What the matcher computes, as spec functions.
//!
//! The matcher is a backtracking search over the token list of a pattern
//! (see `split_pattern`). Every function here mirrors one step of that search
//! and yields `None` where the search panics (a character read past the end, a
//! byte slice off a char boundary, an arithmetic overflow, an unknown token)
//! or where it has not finished within `fuel` nested steps. Some patterns make
//! the search run forever (such as `(a*)*b` on a text without `b`); for those
//! no fuel gives a value.
use vstd::prelude::*;

use crate::helpers::{decimal_digit, options_of, spec_is_alphanumeric, spec_is_digit, split_pattern};
use crate::text::{blen, byte_slice, char_at, char_or_space, skip_chars, take_chars, width};

verus! {

/// Texts captured by the groups matched so far, in the order the groups opened.
pub type Captures = Seq<Option<Seq<char>>>;

/// Outcome of matching a token list at the start of a text: whether it
/// matched, the length it reports, and the captures afterwards.
pub type Outcome = Option<(bool, i32, Captures)>;

pub open spec fn fits_i32(x: int) -> bool {
    i32::MIN <= x <= i32::MAX
}

/// `Vec::truncate`: keeps the first `n` entries, or all when there are fewer.
pub open spec fn truncated(v: Captures, n: int) -> Captures {
    if n < v.len() {
        v.take(n)
    } else {
        v
    }
}

pub open spec fn with_captures(r: Option<(bool, i32)>, refs: Captures) -> Outcome {
    match r {
        None => None,
        Some((b, n)) => Some((b, n, refs)),
    }
}

/// The first token is a group marker, `(` or `|`.
pub open spec fn is_group_marker(t: Seq<char>) -> bool {
    t == seq!['('] || t == seq!['|']
}

/// `s` holds `a` immediately followed by `b`.
pub open spec fn contains_pair(s: Seq<char>, a: char, b: char) -> bool {
    exists|k: int| 0 <= k && k + 1 < s.len() && s[k] == a && #[trigger] s[k + 1] == b
}

/// Whether one token accepts `input`, or `None` where deciding it panics (a
/// token of more than one character that is neither an escape class nor a
/// bracket class).
///
/// A single-character token accepts an input that holds that character, and
/// `.` accepts any non-empty input. A token holding `\d` (or else `\w`)
/// accepts an input with a digit (or word character). A bracket class `[...]`
/// accepts an input holding one of the listed characters, and `[^...]` an
/// input holding a character that is not listed.
pub open spec fn match_token(input: Seq<char>, pat: Seq<char>) -> Option<bool> {
    if pat.len() == 1 {
        if pat == seq!['.'] && input.len() > 0 {
            Some(true)
        } else {
            Some(input.contains(pat[0]))
        }
    } else if contains_pair(pat, '\\', 'd') {
        Some(exists|k: int| 0 <= k < input.len() && spec_is_digit(#[trigger] input[k]))
    } else if contains_pair(pat, '\\', 'w') {
        Some(exists|k: int| 0 <= k < input.len() && spec_is_alphanumeric(#[trigger] input[k]))
    } else if char_at(pat, 0) == Some('[') && char_at(pat, blen(pat) - 1) == Some(']') {
        if char_at(pat, 1) == Some('^') {
            match byte_slice(pat, 2, blen(pat) - 1) {
                None => None,
                Some(excluded) => Some(
                    exists|k: int| 0 <= k < input.len() && !excluded.contains(#[trigger] input[k]),
                ),
            }
        } else {
            match byte_slice(pat, 1, blen(pat) - 1) {
                None => None,
                Some(listed) => Some(
                    exists|k: int| 0 <= k < listed.len() && input.contains(#[trigger] listed[k]),
                ),
            }
        }
    } else {
        None
    }
}

/// `a + b`, or `None` where it overflows `i32`.
pub open spec fn add_i32(a: int, b: int) -> Option<i32> {
    if fits_i32(a + b) {
        Some((a + b) as i32)
    } else {
        None
    }
}

/// Matches the token list `re` at the start of `t`, with `refs` the captures
/// so far and `min` the length below which a match is not accepted where the
/// search checks it. The cases are tried in order: empty list; a group
/// repeated with `*`; a token repeated by `{..}`; a group repeated by `{..}`;
/// a back reference `\n`; a group; an alternation group; `?`; `+`; `*`; the
/// end anchor `$`; a single token.
pub open spec fn match_here(fuel: nat, re: Seq<Seq<char>>, t: Seq<char>, refs: Captures, min: i32) -> Outcome
    decreases fuel, 2nat,
{
    if fuel == 0 {
        None
    } else if re.len() == 0 {
        Some((true, 0, refs))
    } else if re.len() >= 3 && is_group_marker(re[0]) && re[2] == seq!['*'] {
        if re.len() == 3 && min <= 0 {
            Some((true, 0, refs))
        } else {
            with_captures(match_star_group(fuel, re.take(2), re.skip(3), t, min, 0, 0), refs)
        }
    } else if re.len() >= 2 && char_or_space(re[1], 0) == '{' {
        range_case(fuel, re[0], re[1], re.skip(2), t, refs, min)
    } else if re.len() >= 3 && is_group_marker(re[0]) && char_or_space(re[2], 0) == '{' {
        range_group_case(fuel, re.take(2), re[2], re.skip(3), t, refs, min)
    } else if blen(re[0]) > 1 && char_at(re[0], 0) == Some('\\') && (match char_at(re[0], 1) {
        Some(d) => spec_is_digit(d),
        None => false,
    }) {
        backref_case(fuel, re, t, refs)
    } else if re[0] == seq!['('] {
        if re.len() == 1 {
            Some((false, 0, refs))
        } else {
            match split_pattern(re[1]) {
                None => None,
                Some(inner) => group_loop(fuel, re, inner, t, refs, min, 0, refs.len() as int),
            }
        }
    } else if re[0] == seq!['|'] {
        if re.len() == 1 {
            Some((false, 0, refs))
        } else {
            alternation_loop(fuel, re, options_of(re[1]), 0, t, refs, refs.len() as int)
        }
    } else if re.len() >= 2 && re[1] == seq!['?'] {
        optional_case(fuel, re, t, refs)
    } else if re.len() >= 2 && re[1] == seq!['+'] {
        if re.len() == 2 && min <= 1 {
            match match_token(t, re[0]) {
                None => None,
                Some(b) => if b {
                    Some((true, 1, refs))
                } else {
                    Some((false, 0, refs))
                },
            }
        } else {
            with_captures(match_plus(fuel, re[0], re.skip(2), t, min, 0), refs)
        }
    } else if re.len() >= 2 && re[1] == seq!['*'] {
        if re.len() == 2 && min <= 0 {
            Some((true, 0, refs))
        } else {
            with_captures(match_star(fuel, re[0], re.skip(2), t, min, 0), refs)
        }
    } else if re.len() == 1 && re[0] == seq!['$'] {
        Some((t.len() == 0, 0, refs))
    } else if t.len() > 0 {
        match match_token(seq![t[0]], re[0]) {
            None => None,
            Some(false) => Some((false, 0, refs)),
            Some(true) => if width(t[0]) != 1 || !fits_i32(min - 1) {
                None
            } else {
                match match_here((fuel - 1) as nat, re.skip(1), t.skip(1), refs, (min - 1) as i32) {
                    None => None,
                    Some((res, n, refs1)) => match add_i32(n as int, 1) {
                        None => None,
                        Some(len) => Some((res, len, refs1)),
                    },
                }
            },
        }
    } else {
        Some((false, 0, refs))
    }
}

/// The bound of a `{n,m}` quantifier token: `m`, or the text's byte length
/// (cast to `i32`) for `{n,}`.
pub open spec fn range_max(tok: Seq<char>, t: Seq<char>) -> Option<i32> {
    if char_or_space(tok, 3) == ' ' {
        Some(blen(t) as i32)
    } else {
        match decimal_digit(tok[3]) {
            None => None,
            Some(d) => Some(d as i32),
        }
    }
}

/// A token `c` followed by a quantifier token `{n`, `{n,` or `{n,m`.
pub open spec fn range_case(fuel: nat, c: Seq<char>, tok: Seq<char>, rest: Seq<Seq<char>>, t: Seq<char>, refs: Captures, min: i32) -> Outcome
    decreases fuel, 1nat,
{
    match decimal_digit(char_or_space(tok, 1)) {
        None => None,
        Some(times) => if char_or_space(tok, 2) == ',' {
            match range_max(tok, t) {
                None => None,
                Some(max) => with_captures(
                    match_range(fuel, c, rest, times as i32, max, t, min, 0),
                    refs,
                ),
            }
        } else {
            with_captures(match_range(fuel, c, rest, times as i32, times as i32, t, min, 0), refs)
        },
    }
}

/// A group (its two tokens `patt`) followed by a quantifier token.
pub open spec fn range_group_case(fuel: nat, patt: Seq<Seq<char>>, tok: Seq<char>, rest: Seq<Seq<char>>, t: Seq<char>, refs: Captures, min: i32) -> Outcome
    decreases fuel, 1nat,
{
    match decimal_digit(char_or_space(tok, 1)) {
        None => None,
        Some(times) => if char_or_space(tok, 2) == ',' {
            match range_max(tok, t) {
                None => None,
                Some(max) => with_captures(
                    match_range_group(fuel, patt, rest, times as i32, max, t, min, 0, 0),
                    refs,
                ),
            }
        } else {
            with_captures(
                match_range_group(fuel, patt, rest, times as i32, times as i32, t, min, 0, 0),
                refs,
            )
        },
    }
}

/// A back reference `\n`: the text captured by group `n`, read as a
/// pattern, must match here; then the rest of the list after it.
pub open spec fn backref_case(fuel: nat, re: Seq<Seq<char>>, t: Seq<char>, refs: Captures) -> Outcome
    decreases fuel, 1nat,
{
    if fuel == 0 {
        None
    } else {
        match decimal_digit(re[0][1]) {
            None => None,
            Some(n) => if n > (refs.len() as u32) {
                Some((false, 0, refs))
            } else if n == 0 {
                None
            } else {
                match refs[n - 1] {
                    None => Some((false, 0, refs)),
                    Some(captured) => match split_pattern(captured) {
                        None => None,
                        Some(cre) => match match_here((fuel - 1) as nat, cre, t, refs, 0) {
                            None => None,
                            Some((res, index, refs1)) => if re.len() == 1 {
                                Some((res, index, refs1))
                            } else {
                                match match_here(
                                    (fuel - 1) as nat,
                                    re.skip(1),
                                    skip_chars(t, (index as usize) as int),
                                    refs1,
                                    0,
                                ) {
                                    None => None,
                                    Some((r, i, refs2)) => match add_i32(i as int, index as int) {
                                        None => None,
                                        Some(len) => Some((r, len, refs2)),
                                    },
                                }
                            },
                        },
                    },
                }
            },
        }
    }
}

/// A group `(` body `)`: the body is matched with growing minimum lengths
/// `added` = 0, 1, ... up to the text's byte length; the text it matched is
/// captured at `slot`, and the rest of the list must match after it.
pub open spec fn group_loop(fuel: nat, re: Seq<Seq<char>>, inner: Seq<Seq<char>>, t: Seq<char>, refs: Captures, min: i32, added: int, slot: int) -> Outcome
    decreases fuel, 0nat,
{
    if fuel == 0 {
        None
    } else if !(added <= blen(t)) {
        Some((false, 0, refs))
    } else {
        let f = (fuel - 1) as nat;
        match match_here(f, inner, t, refs.push(None), (added as usize) as i32) {
            None => None,
            Some((res, index, refs1)) => if !res {
                Some((false, 0, refs1))
            } else if !(0 <= slot < refs1.len()) {
                None
            } else {
                let refs2 = refs1.update(slot, Some(take_chars(t, (index as usize) as int)));
                if re.len() == 2 {
                    if index >= min {
                        Some((true, index, refs2))
                    } else {
                        group_next(f, re, inner, t, refs2, min, added, slot)
                    }
                } else {
                    match add_i32(min as int, -(index as int)) {
                        None => None,
                        Some(rest_min) => match match_here(
                            f,
                            re.skip(2),
                            skip_chars(t, (index as usize) as int),
                            refs2,
                            rest_min,
                        ) {
                            None => None,
                            Some((r, i, refs3)) => if r {
                                match add_i32(i as int, index as int) {
                                    None => None,
                                    Some(len) => Some((r, len, refs3)),
                                }
                            } else {
                                group_next(f, re, inner, t, refs3, min, added, slot)
                            },
                        },
                    }
                }
            },
        }
    }
}

/// The next round of [`group_loop`], after dropping the captures of the failed one.
pub open spec fn group_next(fuel: nat, re: Seq<Seq<char>>, inner: Seq<Seq<char>>, t: Seq<char>, refs: Captures, min: i32, added: int, slot: int) -> Outcome
    decreases fuel, 1nat,
{
    if added + 1 > usize::MAX {
        None
    } else {
        group_loop(fuel, re, inner, t, truncated(refs, slot), min, added + 1, slot)
    }
}

/// An alternation group: each alternative `options[k]`, read as a pattern,
/// is tried in turn; the text it matched is captured at `slot`, and the rest
/// of the list must match after it.
pub open spec fn alternation_loop(fuel: nat, re: Seq<Seq<char>>, options: Seq<Seq<char>>, k: int, t: Seq<char>, refs: Captures, slot: int) -> Outcome
    decreases fuel, 0nat,
{
    if fuel == 0 {
        None
    } else if !(0 <= k < options.len()) {
        Some((false, 0, truncated(refs, slot)))
    } else {
        let f = (fuel - 1) as nat;
        match split_pattern(options[k]) {
            None => None,
            Some(alt) => match match_here(f, alt, t, truncated(refs, slot).push(None), 0) {
                None => None,
                Some((res, index, refs1)) => if !res {
                    alternation_loop(f, re, options, k + 1, t, refs1, slot)
                } else if !(0 <= slot < refs1.len()) {
                    None
                } else {
                    let refs2 = refs1.update(slot, Some(take_chars(t, (index as usize) as int)));
                    if re.len() == 2 {
                        Some((true, index, refs2))
                    } else {
                        match match_here(
                            f,
                            re.skip(2),
                            skip_chars(t, (index as usize) as int),
                            refs2,
                            0,
                        ) {
                            None => None,
                            Some((r, i, refs3)) => if r {
                                match add_i32(i as int, index as int) {
                                    None => None,
                                    Some(len) => Some((r, len, refs3)),
                                }
                            } else {
                                alternation_loop(f, re, options, k + 1, t, refs3, slot)
                            },
                        }
                    }
                },
            },
        }
    }
}

/// Whether the first character of `t` is accepted by token `c` (false on an
/// empty text).
pub open spec fn first_accepted(t: Seq<char>, c: Seq<char>) -> Option<bool> {
    if t.len() > 0 {
        match_token(seq![t[0]], c)
    } else {
        Some(false)
    }
}

/// A token followed by `?`.
pub open spec fn optional_case(fuel: nat, re: Seq<Seq<char>>, t: Seq<char>, refs: Captures) -> Outcome
    decreases fuel, 1nat,
{
    if fuel == 0 {
        None
    } else if re.len() == 2 {
        match first_accepted(t, re[0]) {
            None => None,
            Some(b) => if b {
                Some((true, 1, refs))
            } else {
                Some((true, 0, refs))
            },
        }
    } else {
        let f = (fuel - 1) as nat;
        match match_here(f, re.skip(2), t, refs, 0) {
            None => None,
            Some((res, pos, refs1)) => match first_accepted(t, re[0]) {
                None => None,
                Some(true) => match match_here(f, re.skip(2), skip_chars(t, 1), refs1, 0) {
                    None => None,
                    Some((res2, pos2, refs2)) => if res2 {
                        match add_i32(pos2 as int, 1) {
                            None => None,
                            Some(len) => Some((true, len, refs2)),
                        }
                    } else {
                        Some((false, 0, refs2))
                    },
                },
                Some(false) => if res {
                    Some((true, pos, refs1))
                } else {
                    Some((false, 0, refs1))
                },
            },
        }
    }
}

/// The length a repetition reports: what the rest matched plus what the
/// repeated part consumed.
pub open spec fn accept(res: bool, i: i32, consumed: int, min: i32) -> Option<Option<i32>> {
    match add_i32(i as int, (consumed as usize) as i32 as int) {
        None => None,
        Some(len) => if res && len >= min {
            Some(Some(len))
        } else {
            Some(None)
        },
    }
}

/// `c+` followed by `re`: after each further character accepted by `c`, from
/// the shortest run up, `re` is tried on what follows.
pub open spec fn match_plus(fuel: nat, c: Seq<char>, re: Seq<Seq<char>>, t: Seq<char>, min: i32, index: int) -> Option<(bool, i32)>
    decreases fuel, 0nat,
{
    if fuel == 0 {
        None
    } else if !(blen(t) > index) {
        Some((false, 0))
    } else {
        let f = (fuel - 1) as nat;
        match char_at(t, index) {
            None => None,
            Some(ch) => match match_token(seq![ch], c) {
                None => None,
                Some(false) => Some((false, 0)),
                Some(true) => match match_here(f, re, skip_chars(t, index + 1), Seq::empty(), 0) {
                    None => None,
                    Some((res, i, _)) => match add_i32(i as int, (index as usize) as i32 as int) {
                        None => None,
                        Some(part) => match add_i32(part as int, 1) {
                            None => None,
                            Some(len) => if res && len >= min {
                                Some((true, len))
                            } else {
                                match_plus(f, c, re, t, min, index + 1)
                            },
                        },
                    },
                },
            },
        }
    }
}

/// `c{min_times,max_times}` followed by `re`: first `min_times` characters
/// must be accepted by `c`.
pub open spec fn match_range(fuel: nat, c: Seq<char>, re: Seq<Seq<char>>, min_times: i32, max_times: i32, t: Seq<char>, min: i32, index: int) -> Option<(bool, i32)>
    decreases fuel, 0nat,
{
    if fuel == 0 {
        None
    } else if index < (min_times as usize) as int {
        if blen(t) <= index {
            Some((false, 0))
        } else {
            match char_at(t, index) {
                None => None,
                Some(ch) => match match_token(seq![ch], c) {
                    None => None,
                    Some(false) => Some((false, 0)),
                    Some(true) => match_range((fuel - 1) as nat, c, re, min_times, max_times, t, min, index + 1),
                },
            }
        }
    } else {
        range_tail((fuel - 1) as nat, c, re, min_times, max_times, t, min, index)
    }
}

/// Whether the repetition of `c` stops before taking the character at
/// `index - 1`.
pub open spec fn run_stops(c: Seq<char>, t: Seq<char>, index: int) -> Option<bool> {
    match char_at(t, index - 1) {
        None => None,
        Some(ch) => match match_token(seq![ch], c) {
            None => None,
            Some(b) => Some(!b),
        },
    }
}

/// The second phase of [`match_range`]: runs of `index` characters, from
/// `min_times` up to `max_times`, each followed by an attempt at `re`.
pub open spec fn range_tail(fuel: nat, c: Seq<char>, re: Seq<Seq<char>>, min_times: i32, max_times: i32, t: Seq<char>, min: i32, index: int) -> Option<(bool, i32)>
    decreases fuel, 0nat,
{
    if fuel == 0 {
        None
    } else if !(blen(t) >= index && (max_times as usize) as int >= index) {
        Some((false, 0))
    } else {
        let f = (fuel - 1) as nat;
        let stop = if index > (min_times as usize) as int {
            run_stops(c, t, index)
        } else {
            Some(false)
        };
        match stop {
            None => None,
            Some(true) => Some((false, 0)),
            Some(false) => match match_here(f, re, skip_chars(t, index), Seq::empty(), 0) {
                None => None,
                Some((res, i, _)) => match accept(res, i, index, min) {
                    None => None,
                    Some(Some(len)) => Some((true, len)),
                    Some(None) => if index + 1 > usize::MAX {
                        None
                    } else {
                        range_tail(f, c, re, min_times, max_times, t, min, index + 1)
                    },
                },
            },
        }
    }
}

/// `consumed + (n as usize)`, or `None` where it overflows `usize`.
pub open spec fn advance(consumed: int, n: i32) -> Option<int> {
    if consumed + (n as usize) as int > usize::MAX {
        None
    } else {
        Some(consumed + (n as usize) as int)
    }
}

/// A group (`patt`) repeated `{min_times,max_times}` followed by `re`. The
/// first `min_times` rounds must match; `consumed` is what they took.
pub open spec fn match_range_group(fuel: nat, patt: Seq<Seq<char>>, re: Seq<Seq<char>>, min_times: i32, max_times: i32, t: Seq<char>, min: i32, index: int, consumed: int) -> Option<(bool, i32)>
    decreases fuel, 0nat,
{
    if fuel == 0 {
        None
    } else if index < (min_times as usize) as int {
        if blen(t) < consumed {
            Some((false, 0))
        } else {
            let f = (fuel - 1) as nat;
            match match_here(f, patt, skip_chars(t, consumed), Seq::empty(), 0) {
                None => None,
                Some((ok, n, _)) => if !ok {
                    Some((false, 0))
                } else {
                    match advance(consumed, n) {
                        None => None,
                        Some(next) => match_range_group(f, patt, re, min_times, max_times, t, min, index + 1, next),
                    }
                },
            }
        }
    } else {
        range_group_tail((fuel - 1) as nat, patt, re, min_times, max_times, t, min, index, consumed)
    }
}

/// One more round of the group at `consumed`: `Some(Some(next))` when it
/// matched, `Some(None)` when it did not.
pub open spec fn group_round(fuel: nat, patt: Seq<Seq<char>>, t: Seq<char>, consumed: int) -> Option<Option<int>>
    decreases fuel, 3nat,
{
    match match_here(fuel, patt, skip_chars(t, consumed), Seq::empty(), 0) {
        None => None,
        Some((ok, n, _)) => if ok {
            match advance(consumed, n) {
                None => None,
                Some(next) => Some(Some(next)),
            }
        } else {
            Some(None)
        },
    }
}

/// The second phase of [`match_range_group`]: further rounds of the group,
/// up to `max_times`, each followed by an attempt at `re`.
pub open spec fn range_group_tail(fuel: nat, patt: Seq<Seq<char>>, re: Seq<Seq<char>>, min_times: i32, max_times: i32, t: Seq<char>, min: i32, index: int, consumed: int) -> Option<(bool, i32)>
    decreases fuel, 0nat,
{
    if fuel == 0 {
        None
    } else if !(blen(t) >= consumed && (max_times as usize) as int >= index) {
        Some((false, 0))
    } else {
        let f = (fuel - 1) as nat;
        let round = if index > (min_times as usize) as int {
            group_round(f, patt, t, consumed)
        } else {
            Some(Some(consumed))
        };
        match round {
            None => None,
            Some(None) => Some((false, 0)),
            Some(Some(next)) => match match_here(f, re, skip_chars(t, next), Seq::empty(), 0) {
                None => None,
                Some((res, i, _)) => match accept(res, i, next, min) {
                    None => None,
                    Some(Some(len)) => Some((true, len)),
                    Some(None) => if index + 1 > usize::MAX {
                        None
                    } else {
                        range_group_tail(f, patt, re, min_times, max_times, t, min, index + 1, next)
                    },
                },
            },
        }
    }
}

/// `c*` followed by `re`: runs of 0, 1, ... characters accepted by `c`, each
/// followed by an attempt at `re`.
pub open spec fn match_star(fuel: nat, c: Seq<char>, re: Seq<Seq<char>>, t: Seq<char>, min: i32, index: int) -> Option<(bool, i32)>
    decreases fuel, 0nat,
{
    if fuel == 0 {
        None
    } else if !(blen(t) >= index) {
        Some((false, 0))
    } else {
        let f = (fuel - 1) as nat;
        let stop = if index > 0 {
            run_stops(c, t, index)
        } else {
            Some(false)
        };
        match stop {
            None => None,
            Some(true) => Some((false, 0)),
            Some(false) => match match_here(f, re, skip_chars(t, index), Seq::empty(), 0) {
                None => None,
                Some((res, i, _)) => match accept(res, i, index, min) {
                    None => None,
                    Some(Some(len)) => Some((true, len)),
                    Some(None) => if index + 1 > usize::MAX {
                        None
                    } else {
                        match_star(f, c, re, t, min, index + 1)
                    },
                },
            },
        }
    }
}

/// A group (`patt`) repeated with `*` followed by `re`: rounds of the group,
/// each followed by an attempt at `re`, while unread text remains.
pub open spec fn match_star_group(fuel: nat, patt: Seq<Seq<char>>, re: Seq<Seq<char>>, t: Seq<char>, min: i32, index: int, consumed: int) -> Option<(bool, i32)>
    decreases fuel, 0nat,
{
    if fuel == 0 {
        None
    } else if !(blen(t) > consumed) {
        Some((false, 0))
    } else {
        let f = (fuel - 1) as nat;
        let round = if index > 0 {
            group_round(f, patt, t, consumed)
        } else {
            Some(Some(consumed))
        };
        match round {
            None => None,
            Some(None) => Some((false, 0)),
            Some(Some(next)) => match match_here(f, re, skip_chars(t, next), Seq::empty(), 0) {
                None => None,
                Some((res, i, _)) => match accept(res, i, next, min) {
                    None => None,
                    Some(Some(len)) => Some((true, len)),
                    Some(None) => if index + 1 > usize::MAX {
                        None
                    } else {
                        match_star_group(f, patt, re, t, min, index + 1, next)
                    },
                },
            },
        }
    }
}

/// The match found at a start position: the first `len` characters there.
pub open spec fn found_at(t: Seq<char>, index: int, len: i32) -> Seq<char> {
    take_chars(skip_chars(t, index), (len as usize) as int)
}

/// The scan of [`matches_of`] from byte position `index`, with `found` the
/// matches so far: the token list is tried at the text after `index`
/// characters; a match is recorded and the scan resumes after it.
pub open spec fn scan_from(fuel: nat, re: Seq<Seq<char>>, t: Seq<char>, index: int, found: Seq<Seq<char>>) -> Option<Seq<Seq<char>>>
    decreases fuel,
{
    if fuel == 0 {
        None
    } else {
        let f = (fuel - 1) as nat;
        match match_here(f, re, skip_chars(t, index), Seq::empty(), 0) {
            None => None,
            Some((res, len, _)) => if index >= blen(t) {
                Some(found)
            } else if res {
                if !fits_i32(len - 1) {
                    None
                } else {
                    let step = if len - 1 > 0 {
                        len - 1
                    } else {
                        0
                    };
                    let next = index + (step as usize) as int + 1;
                    if next > usize::MAX {
                        None
                    } else {
                        scan_from(f, re, t, next, found.push(found_at(t, index, len)))
                    }
                }
            } else if index + 1 > usize::MAX {
                None
            } else {
                scan_from(f, re, t, index + 1, found)
            }
        }
    }
}

/// The matches of pattern `p` in text `t` found within `fuel` steps: with a
/// leading `^`, the match at the start of the text, if any; otherwise the
/// matches found scanning the text from left to right.
pub open spec fn matches_within(fuel: nat, p: Seq<char>, t: Seq<char>) -> Option<Seq<Seq<char>>> {
    match split_pattern(p) {
        None => None,
        Some(re) => if re.len() >= 2 && re[0] == seq!['^'] {
            match match_here(fuel, re.skip(1), t, Seq::empty(), 0) {
                None => None,
                Some((res, len, _)) => if res {
                    Some(seq![take_chars(t, (len as usize) as int)])
                } else {
                    Some(Seq::empty())
                },
            }
        } else {
            scan_from(fuel, re, t, 0, Seq::empty())
        },
    }
}

/// The search for `p` in `t` finishes without a panic.
pub open spec fn search_finishes(p: Seq<char>, t: Seq<char>) -> bool {
    exists|fuel: nat| #[trigger] matches_within(fuel, p, t) is Some
}

/// The fuel at which [`matches_of`] reads the result.
pub open spec fn search_fuel(p: Seq<char>, t: Seq<char>) -> nat {
    choose|fuel: nat| #[trigger] matches_within(fuel, p, t) is Some
}

/// The matches of pattern `p` in text `t`.
pub open spec fn matches_of(p: Seq<char>, t: Seq<char>) -> Seq<Seq<char>> {
    matches_within(search_fuel(p, t), p, t)->0
}

} // verus!
