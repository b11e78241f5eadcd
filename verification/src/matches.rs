//! The matcher: a backtracking search of a pattern's tokens in a text.
use std::io::Write;
use vstd::prelude::*;

use crate::budget::law_matches_of_any_budget;
use crate::helpers::{chars_to_strings, decimal_digit, is_alphanumeric, is_digit, spec_is_alphanumeric, spec_is_digit, split_options, try_split_chars};
use crate::semantics::{accept, add_i32, advance, first_accepted, matches_within, with_captures, alternation_loop, backref_case, contains_pair, group_loop, group_round, match_here, match_plus, match_range, match_range_group, match_star, match_star_group, match_token, matches_of, optional_case, range_case, range_group_case, range_max, range_tail, range_group_tail, scan_from, truncated, Captures};
use crate::text::{lemma_blen_len, byte_slice, blen, byte_len, char_width, char_or_space, chars_of, copy_range, skip_chars, slice_bytes, string_views, take_chars, views};

verus! {

/// The captures held by a vector of optional character vectors.
pub open spec fn caps(v: Seq<Option<Vec<char>>>) -> Captures {
    v.map_values(
        |o: Option<Vec<char>>|
            match o {
                Some(x) => Some(x@),
                None => None,
            },
    )
}

// ---------------------------------------------------------------------------
// Small exec helpers.
fn skip_slice<'a>(t: &'a [char], k: usize) -> (r: &'a [char])
    ensures
        r@ == skip_chars(t@, k as int),
{
    if k <= t.len() {
        &t[k..t.len()]
    } else {
        let r = &t[t.len()..t.len()];
        assert(r@ =~= Seq::<char>::empty());
        r
    }
}

fn take_copy(t: &[char], k: usize) -> (r: Vec<char>)
    ensures
        r@ == take_chars(t@, k as int),
{
    if k <= t.len() {
        copy_range(t, 0, k)
    } else {
        let r = copy_range(t, 0, t.len());
        assert(r@ =~= t@);
        r
    }
}

fn sub_tokens<'a>(re: &'a [Vec<char>], lo: usize, hi: usize) -> (r: &'a [Vec<char>])
    requires
        lo <= hi <= re@.len(),
    ensures
        views(r@) == views(re@).subrange(lo as int, hi as int),
{
    let r = &re[lo..hi];
    assert(views(r@) =~= views(re@).subrange(lo as int, hi as int));
    r
}

fn tok_is(t: &Vec<char>, c: char) -> (b: bool)
    ensures
        b == (t@ == seq![c]),
{
    let b = t.len() == 1 && t[0] == c;
    if b {
        assert(t@ =~= seq![c]);
    }
    b
}

fn is_marker(t: &Vec<char>) -> (b: bool)
    ensures
        b == (t@ == seq!['('] || t@ == seq!['|']),
{
    tok_is(t, '(') || tok_is(t, '|')
}

fn first_or_space(t: &Vec<char>, k: usize) -> (c: char)
    ensures
        c == char_or_space(t@, k as int),
{
    if k < t.len() {
        t[k]
    } else {
        ' '
    }
}

fn digit_value(c: char) -> (d: Option<u32>)
    ensures
        d == decimal_digit(c),
{
    if '0' <= c && c <= '9' {
        Some(c as u32 - '0' as u32)
    } else {
        None
    }
}

fn contains_char(s: &[char], c: char) -> (b: bool)
    ensures
        b == s@.contains(c),
{
    let mut k: usize = 0;
    while k < s.len()
        invariant
            k <= s@.len(),
            forall|j: int| 0 <= j < k ==> s@[j] != c,
        decreases s@.len() - k,
    {
        if s[k] == c {
            assert(s@[k as int] == c);
            return true;
        }
        k = k + 1;
    }
    false
}

fn has_pair(s: &[char], a: char, b: char) -> (r: bool)
    ensures
        r == contains_pair(s@, a, b),
{
    let mut k: usize = 0;
    while s.len() > 0 && k < s.len() - 1
        invariant
            k <= s@.len(),
            forall|j: int| 0 <= j < k && j + 1 < s@.len() ==> !(s@[j] == a && #[trigger] s@[j + 1] == b),
        decreases s@.len() - k,
    {
        if s[k] == a && s[k + 1] == b {
            return true;
        }
        k = k + 1;
    }
    false
}

fn any_digit(s: &[char]) -> (r: bool)
    ensures
        r == (exists|k: int| 0 <= k < s@.len() && spec_is_digit(#[trigger] s@[k])),
{
    let mut k: usize = 0;
    while k < s.len()
        invariant
            k <= s@.len(),
            forall|j: int| 0 <= j < k ==> !spec_is_digit(#[trigger] s@[j]),
        decreases s@.len() - k,
    {
        if is_digit(s[k]) {
            return true;
        }
        k = k + 1;
    }
    false
}

fn any_word(s: &[char]) -> (r: bool)
    ensures
        r == (exists|k: int| 0 <= k < s@.len() && spec_is_alphanumeric(#[trigger] s@[k])),
{
    let mut k: usize = 0;
    while k < s.len()
        invariant
            k <= s@.len(),
            forall|j: int| 0 <= j < k ==> !spec_is_alphanumeric(#[trigger] s@[j]),
        decreases s@.len() - k,
    {
        if is_alphanumeric(s[k]) {
            return true;
        }
        k = k + 1;
    }
    false
}

fn any_not_in(input: &[char], excluded: &[char]) -> (r: bool)
    ensures
        r == (exists|k: int| 0 <= k < input@.len() && !excluded@.contains(#[trigger] input@[k])),
{
    let mut k: usize = 0;
    while k < input.len()
        invariant
            k <= input@.len(),
            forall|j: int| 0 <= j < k ==> excluded@.contains(#[trigger] input@[j]),
        decreases input@.len() - k,
    {
        if !contains_char(excluded, input[k]) {
            return true;
        }
        k = k + 1;
    }
    false
}

fn any_listed(input: &[char], listed: &[char]) -> (r: bool)
    ensures
        r == (exists|k: int| 0 <= k < listed@.len() && input@.contains(#[trigger] listed@[k])),
{
    let mut k: usize = 0;
    while k < listed.len()
        invariant
            k <= listed@.len(),
            forall|j: int| 0 <= j < k ==> !input@.contains(#[trigger] listed@[j]),
        decreases listed@.len() - k,
    {
        if contains_char(input, listed[k]) {
            return true;
        }
        k = k + 1;
    }
    false
}

/// Whether token `pattern` accepts `input_line`, or `None` where deciding it
/// panics (see [`match_token`]).
pub fn match_pattern(input_line: &[char], pattern: &[char]) -> (b: Option<bool>)
    ensures
        b == match_token(input_line@, pattern@),
{
    if pattern.len() == 1 {
        if pattern[0] == '.' {
            assert(pattern@ =~= seq!['.']);
            if input_line.len() > 0 {
                return Some(true);
            }
        }
        return Some(contains_char(input_line, pattern[0]));
    }
    if has_pair(pattern, '\\', 'd') {
        return Some(any_digit(input_line));
    }
    if has_pair(pattern, '\\', 'w') {
        return Some(any_word(input_line));
    }
    proof {
        lemma_blen_len(pattern@);
    }
    let n = byte_len(pattern);
    let bracketed = pattern.len() > 0 && pattern[0] == '[' && n - 1 < pattern.len() as u128
        && pattern[(n - 1) as usize] == ']';
    if bracketed {
        let end = (n - 1) as usize;
        if pattern.len() > 1 && pattern[1] == '^' {
            let excluded = slice_bytes(pattern, 2, end);
            match excluded {
                Some(excluded) => Some(any_not_in(input_line, excluded.as_slice())),
                None => None,
            }
        } else {
            let listed = slice_bytes(pattern, 1, end);
            match listed {
                Some(listed) => {
                    let r = any_listed(input_line, listed.as_slice());
                    if r {
                        // the witness for `listed` is one for the slice `match_token` names
                        let ghost k = choose|k: int|
                            0 <= k < listed@.len() && input_line@.contains(#[trigger] listed@[k]);
                        let ghost named = byte_slice(pattern@, 1, blen(pattern@) - 1)->0;
                        assert(named[k] == listed@[k]);
                    }
                    Some(r)
                },
                None => None,
            }
        }
    } else {
        None
    }
}

fn first_accepts(t: &[char], c: &[char]) -> (b: Option<bool>)
    ensures
        b == first_accepted(t@, c@),
{
    if t.len() > 0 {
        let one = vec![t[0]];
        assert(one@ =~= seq![t@[0]]);
        match_pattern(one.as_slice(), c)
    } else {
        Some(false)
    }
}

fn accepts_at(t: &[char], k: usize, c: &[char]) -> (b: Option<bool>)
    requires
        k < t@.len(),
    ensures
        b == match_token(seq![t@[k as int]], c@),
{
    let one = vec![t[k]];
    assert(one@ =~= seq![t@[k as int]]);
    match_pattern(one.as_slice(), c)
}

// ---------------------------------------------------------------------------
// Captures.
fn push_none(br: &mut Vec<Option<Vec<char>>>)
    ensures
        caps(final(br)@) == caps(old(br)@).push(None),
{
    br.push(None);
    assert(caps(br@) =~= caps(old(br)@).push(None));
}

fn set_capture(br: &mut Vec<Option<Vec<char>>>, slot: usize, v: Vec<char>)
    requires
        slot < old(br)@.len(),
    ensures
        caps(final(br)@) == caps(old(br)@).update(slot as int, Some(v@)),
{
    let ghost vv = v@;
    br.set(slot, Some(v));
    assert(caps(br@) =~= caps(old(br)@).update(slot as int, Some(vv)));
}

fn truncate_to(br: &mut Vec<Option<Vec<char>>>, slot: usize)
    ensures
        caps(final(br)@) == truncated(caps(old(br)@), slot as int),
{
    br.truncate(slot);
    assert(caps(br@) =~= truncated(caps(old(br)@), slot as int));
}

fn captured(br: &Vec<Option<Vec<char>>>, k: usize) -> (r: Option<Vec<char>>)
    requires
        k < br@.len(),
    ensures
        r matches Some(v) ==> caps(br@)[k as int] == Some(v@),
        r is None ==> caps(br@)[k as int] is None,
{
    match &br[k] {
        Some(v) => Some(copy_range(v.as_slice(), 0, v.len())),
        None => None,
    }
}

fn no_captures() -> (br: Vec<Option<Vec<char>>>)
    ensures
        caps(br@) == Seq::<Option<Seq<char>>>::empty(),
{
    let br: Vec<Option<Vec<char>>> = Vec::new();
    assert(caps(br@) =~= Seq::<Option<Seq<char>>>::empty());
    br
}

// ---------------------------------------------------------------------------
// The search. Each function runs within a step budget `fuel` and gives
// `None` exactly where its spec function does: where the search panics, or
// where it has not finished within the budget.

/// `a + b`, or `None` where it overflows `i32`.
fn add_checked(a: i32, b: i32) -> (r: Option<i32>)
    ensures
        r == add_i32(a as int, b as int),
{
    let s: i64 = a as i64 + b as i64;
    if s < i32::MIN as i64 || s > i32::MAX as i64 {
        None
    } else {
        Some(s as i32)
    }
}

/// `a - b`, or `None` where it overflows `i32`.
fn sub_checked(a: i32, b: i32) -> (r: Option<i32>)
    ensures
        r == add_i32(a as int, -(b as int)),
{
    let s: i64 = a as i64 - b as i64;
    if s < i32::MIN as i64 || s > i32::MAX as i64 {
        None
    } else {
        Some(s as i32)
    }
}

/// Matches the tokens `regexp` at the start of `text` (see [`match_here`]).
pub fn matchhere(
    regexp: &[Vec<char>],
    text: &[char],
    backreferences: &mut Vec<Option<Vec<char>>>,
    minimum_length: i32,
    fuel: u64,
) -> (r: Option<(bool, i32)>)
    ensures
        match_here(fuel as nat, views(regexp@), text@, caps(old(backreferences)@), minimum_length)
            == with_captures(r, caps(final(backreferences)@)),
    decreases fuel, 3nat,
{
    if fuel == 0 {
        return None;
    }
    let n = regexp.len();
    if n == 0 {
        return Some((true, 0));
    }
    if n >= 3 && is_marker(&regexp[0]) && tok_is(&regexp[2], '*') {
        if n == 3 && minimum_length <= 0 {
            return Some((true, 0));
        }
        return matchstargroup(sub_tokens(regexp, 0, 2), sub_tokens(regexp, 3, n), text, minimum_length, fuel);
    }
    if n >= 2 && first_or_space(&regexp[1], 0) == '{' {
        return range_token(
            regexp[0].as_slice(),
            &regexp[1],
            sub_tokens(regexp, 2, n),
            text,
            minimum_length,
            fuel,
            Ghost(caps(backreferences@)),
        );
    }
    if n >= 3 && is_marker(&regexp[0]) && first_or_space(&regexp[2], 0) == '{' {
        return range_group(
            sub_tokens(regexp, 0, 2),
            &regexp[2],
            sub_tokens(regexp, 3, n),
            text,
            minimum_length,
            fuel,
            Ghost(caps(backreferences@)),
        );
    }
    let first = &regexp[0];
    if byte_len(first.as_slice()) > 1 && first.len() > 0 && first[0] == '\\' && first.len() > 1
        && is_digit(first[1]) {
        return backreference(regexp, text, backreferences, fuel);
    }
    if tok_is(first, '(') {
        if n == 1 {
            return Some((false, 0));
        }
        let inner = try_split_chars(regexp[1].as_slice());
        if inner.is_none() {
            return None;
        }
        let inner = inner.unwrap();
        return group(regexp, inner.as_slice(), text, backreferences, minimum_length, fuel);
    }
    if tok_is(first, '|') {
        if n == 1 {
            return Some((false, 0));
        }
        let options = split_options(regexp[1].as_slice());
        return alternation(regexp, &options, text, backreferences, fuel);
    }
    if n >= 2 && tok_is(&regexp[1], '?') {
        return optional(regexp, text, backreferences, fuel);
    }
    if n >= 2 && tok_is(&regexp[1], '+') {
        if n == 2 && minimum_length <= 1 {
            let accepted = match_pattern(text, first.as_slice());
            if accepted.is_none() {
                return None;
            }
            if accepted.unwrap() {
                return Some((true, 1));
            }
            return Some((false, 0));
        }
        return matchplus(first.as_slice(), sub_tokens(regexp, 2, n), text, minimum_length, fuel);
    }
    if n >= 2 && tok_is(&regexp[1], '*') {
        if n == 2 && minimum_length <= 0 {
            return Some((true, 0));
        }
        return matchstar(first.as_slice(), sub_tokens(regexp, 2, n), text, minimum_length, fuel);
    }
    if n == 1 && tok_is(first, '$') {
        return Some((text.len() == 0, 0));
    }
    if text.len() == 0 {
        return Some((false, 0));
    }
    let accepted = accepts_at(text, 0, first.as_slice());
    if accepted.is_none() {
        return None;
    }
    if !accepted.unwrap() {
        return Some((false, 0));
    }
    if char_width(text[0]) != 1 || minimum_length == i32::MIN {
        return None;
    }
    let rest = &text[1..text.len()];
    assert(rest@ == text@.skip(1));
    let tail = matchhere(sub_tokens(regexp, 1, n), rest, backreferences, minimum_length - 1, fuel - 1);
    if tail.is_none() {
        return None;
    }
    let (res, leng) = tail.unwrap();
    let len = add_checked(leng, 1);
    if len.is_none() {
        return None;
    }
    Some((res, len.unwrap()))
}

/// A token followed by a quantifier token `{n`, `{n,` or `{n,m`.
fn range_token(
    c: &[char],
    tok: &Vec<char>,
    rest: &[Vec<char>],
    text: &[char],
    minimum_length: i32,
    fuel: u64,
    Ghost(refs): Ghost<Captures>,
) -> (r: Option<(bool, i32)>)
    ensures
        range_case(fuel as nat, c@, tok@, views(rest@), text@, refs, minimum_length) == with_captures(r, refs),
    decreases fuel, 2nat,
{
    let d = digit_value(first_or_space(tok, 1));
    if d.is_none() {
        return None;
    }
    let times = d.unwrap() as i32;
    if first_or_space(tok, 2) == ',' {
        let m = range_bound(tok, text);
        if m.is_none() {
            return None;
        }
        let max_times = m.unwrap();
        print_max_times(max_times);
        matchrange(c, rest, times, max_times, text, minimum_length, fuel)
    } else {
        matchexact(c, rest, times, text, minimum_length, fuel)
    }
}

/// A group followed by a quantifier token `{n`, `{n,` or `{n,m`.
fn range_group(
    patt: &[Vec<char>],
    tok: &Vec<char>,
    rest: &[Vec<char>],
    text: &[char],
    minimum_length: i32,
    fuel: u64,
    Ghost(refs): Ghost<Captures>,
) -> (r: Option<(bool, i32)>)
    ensures
        range_group_case(fuel as nat, views(patt@), tok@, views(rest@), text@, refs, minimum_length)
            == with_captures(r, refs),
    decreases fuel, 2nat,
{
    let d = digit_value(first_or_space(tok, 1));
    if d.is_none() {
        return None;
    }
    let times = d.unwrap() as i32;
    if first_or_space(tok, 2) == ',' {
        let m = range_bound(tok, text);
        if m.is_none() {
            return None;
        }
        matchrangegroup(patt, rest, times, m.unwrap(), text, minimum_length, fuel)
    } else {
        matchexactgroup(patt, rest, times, text, minimum_length, fuel)
    }
}

/// Writes the line `maxtimes: N` to standard output, as the matcher does
/// each time it reads the bound of a `{n,}` or `{n,m}` quantifier on a
/// single token.
///
/// Formats with `writeln!` into `std::io::stdout()`; a failed write is
/// ignored. Nothing is claimed of the output, which is not modelled.
#[verifier::external_body]
fn print_max_times(max_times: i32) {
    let _ = writeln!(std::io::stdout(), "maxtimes: {}", max_times);
}

/// The upper bound of a `{n,m}` or `{n,}` token (see [`range_max`]).
fn range_bound(tok: &Vec<char>, text: &[char]) -> (m: Option<i32>)
    ensures
        m == range_max(tok@, text@),
{
    if first_or_space(tok, 3) == ' ' {
        Some(byte_len(text) as i32)
    } else {
        match digit_value(tok[3]) {
            None => None,
            Some(d) => Some(d as i32),
        }
    }
}

/// A back reference `\n` (see [`backref_case`]).
fn backreference(
    regexp: &[Vec<char>],
    text: &[char],
    backreferences: &mut Vec<Option<Vec<char>>>,
    fuel: u64,
) -> (r: Option<(bool, i32)>)
    requires
        regexp@.len() >= 1,
        regexp@[0]@.len() >= 2,
    ensures
        backref_case(fuel as nat, views(regexp@), text@, caps(old(backreferences)@))
            == with_captures(r, caps(final(backreferences)@)),
    decreases fuel, 2nat,
{
    if fuel == 0 {
        return None;
    }
    let d = digit_value(regexp[0][1]);
    if d.is_none() {
        return None;
    }
    let reference_number = d.unwrap();
    if reference_number > backreferences.len() as u32 {
        return Some((false, 0));
    }
    if reference_number == 0 {
        return None;
    }
    let reference_match = captured(backreferences, (reference_number - 1) as usize);
    if reference_match.is_none() {
        return Some((false, 0));
    }
    let reference_match = reference_match.unwrap();
    let reference_pattern_array = try_split_chars(reference_match.as_slice());
    if reference_pattern_array.is_none() {
        return None;
    }
    let reference_pattern_array = reference_pattern_array.unwrap();
    let head = matchhere(reference_pattern_array.as_slice(), text, backreferences, 0, fuel - 1);
    if head.is_none() {
        return None;
    }
    let (res, index) = head.unwrap();
    if regexp.len() == 1 {
        return Some((res, index));
    }
    let tail = matchhere(
        sub_tokens(regexp, 1, regexp.len()),
        skip_slice(text, index as usize),
        backreferences,
        0,
        fuel - 1,
    );
    if tail.is_none() {
        return None;
    }
    let (r, i) = tail.unwrap();
    let len = add_checked(i, index);
    if len.is_none() {
        return None;
    }
    Some((r, len.unwrap()))
}

/// A group: its body, matched with growing minimum lengths (see [`group_loop`]).
fn group(
    regexp: &[Vec<char>],
    inner: &[Vec<char>],
    text: &[char],
    backreferences: &mut Vec<Option<Vec<char>>>,
    minimum_length: i32,
    fuel: u64,
) -> (r: Option<(bool, i32)>)
    requires
        regexp@.len() >= 2,
    ensures
        group_loop(
            fuel as nat,
            views(regexp@),
            views(inner@),
            text@,
            caps(old(backreferences)@),
            minimum_length,
            0,
            old(backreferences)@.len() as int,
        ) == with_captures(r, caps(final(backreferences)@)),
    decreases fuel, 0nat,
{
    let ghost target = group_loop(
        fuel as nat,
        views(regexp@),
        views(inner@),
        text@,
        caps(backreferences@),
        minimum_length,
        0,
        backreferences@.len() as int,
    );
    let slot = backreferences.len();
    let text_len = byte_len(text);
    let mut added_length: usize = 0;
    let mut g: u64 = fuel;
    loop
        invariant
            g <= fuel,
            text_len == blen(text@),
            regexp@.len() >= 2,
            slot == old(backreferences)@.len(),
            target == group_loop(
                fuel as nat,
                views(regexp@),
                views(inner@),
                text@,
                caps(old(backreferences)@),
                minimum_length,
                0,
                slot as int,
            ),
            target == group_loop(
                g as nat,
                views(regexp@),
                views(inner@),
                text@,
                caps(backreferences@),
                minimum_length,
                added_length as int,
                slot as int,
            ),
        decreases g,
    {
        if g == 0 {
            return None;
        }
        if !((added_length as u128) <= text_len) {
            return Some((false, 0));
        }
        push_none(backreferences);
        let body = matchhere(inner, text, backreferences, added_length as i32, g - 1);
        if body.is_none() {
            return None;
        }
        let (res, index) = body.unwrap();
        if !res {
            return Some((false, 0));
        }
        if slot >= backreferences.len() {
            return None;
        }
        set_capture(backreferences, slot, take_copy(text, index as usize));
        if regexp.len() == 2 {
            if index >= minimum_length {
                return Some((true, index));
            }
        } else {
            let rest_min = sub_checked(minimum_length, index);
            if rest_min.is_none() {
                return None;
            }
            let tail = matchhere(
                sub_tokens(regexp, 2, regexp.len()),
                skip_slice(text, index as usize),
                backreferences,
                rest_min.unwrap(),
                g - 1,
            );
            if tail.is_none() {
                return None;
            }
            let (r, i) = tail.unwrap();
            if r {
                let len = add_checked(i, index);
                if len.is_none() {
                    return None;
                }
                return Some((r, len.unwrap()));
            }
        }
        if added_length == usize::MAX {
            return None;
        }
        truncate_to(backreferences, slot);
        added_length = added_length + 1;
        g = g - 1;
    }
}

/// An alternation group: each alternative in turn (see [`alternation_loop`]).
fn alternation(
    regexp: &[Vec<char>],
    options: &Vec<Vec<char>>,
    text: &[char],
    backreferences: &mut Vec<Option<Vec<char>>>,
    fuel: u64,
) -> (r: Option<(bool, i32)>)
    requires
        regexp@.len() >= 2,
    ensures
        alternation_loop(
            fuel as nat,
            views(regexp@),
            views(options@),
            0,
            text@,
            caps(old(backreferences)@),
            old(backreferences)@.len() as int,
        ) == with_captures(r, caps(final(backreferences)@)),
    decreases fuel, 0nat,
{
    let ghost target = alternation_loop(
        fuel as nat,
        views(regexp@),
        views(options@),
        0,
        text@,
        caps(backreferences@),
        backreferences@.len() as int,
    );
    let slot = backreferences.len();
    let mut k: usize = 0;
    let mut g: u64 = fuel;
    loop
        invariant
            g <= fuel,
            regexp@.len() >= 2,
            slot == old(backreferences)@.len(),
            k <= options@.len(),
            target == alternation_loop(
                fuel as nat,
                views(regexp@),
                views(options@),
                0,
                text@,
                caps(old(backreferences)@),
                slot as int,
            ),
            target == alternation_loop(
                g as nat,
                views(regexp@),
                views(options@),
                k as int,
                text@,
                caps(backreferences@),
                slot as int,
            ),
        decreases g,
    {
        if g == 0 {
            return None;
        }
        if k >= options.len() {
            truncate_to(backreferences, slot);
            return Some((false, 0));
        }
        let current = try_split_chars(options[k].as_slice());
        if current.is_none() {
            return None;
        }
        let current_reg_array = current.unwrap();
        truncate_to(backreferences, slot);
        push_none(backreferences);
        let body = matchhere(current_reg_array.as_slice(), text, backreferences, 0, g - 1);
        if body.is_none() {
            return None;
        }
        let (res, index) = body.unwrap();
        if res {
            if slot >= backreferences.len() {
                return None;
            }
            set_capture(backreferences, slot, take_copy(text, index as usize));
            if regexp.len() == 2 {
                return Some((res, index));
            }
            let tail = matchhere(
                sub_tokens(regexp, 2, regexp.len()),
                skip_slice(text, index as usize),
                backreferences,
                0,
                g - 1,
            );
            if tail.is_none() {
                return None;
            }
            let (r, i) = tail.unwrap();
            if r {
                let len = add_checked(i, index);
                if len.is_none() {
                    return None;
                }
                return Some((r, len.unwrap()));
            }
        }
        k = k + 1;
        g = g - 1;
    }
}

/// A token followed by `?` (see [`optional_case`]).
fn optional(
    regexp: &[Vec<char>],
    text: &[char],
    backreferences: &mut Vec<Option<Vec<char>>>,
    fuel: u64,
) -> (r: Option<(bool, i32)>)
    requires
        regexp@.len() >= 2,
    ensures
        optional_case(fuel as nat, views(regexp@), text@, caps(old(backreferences)@))
            == with_captures(r, caps(final(backreferences)@)),
    decreases fuel, 2nat,
{
    if fuel == 0 {
        return None;
    }
    let n = regexp.len();
    if n == 2 {
        let accepted = first_accepts(text, regexp[0].as_slice());
        if accepted.is_none() {
            return None;
        }
        if accepted.unwrap() {
            return Some((true, 1));
        }
        return Some((true, 0));
    }
    let without = matchhere(sub_tokens(regexp, 2, n), text, backreferences, 0, fuel - 1);
    if without.is_none() {
        return None;
    }
    let (res, pos) = without.unwrap();
    let accepted = first_accepts(text, regexp[0].as_slice());
    if accepted.is_none() {
        return None;
    }
    if accepted.unwrap() {
        let with = matchhere(sub_tokens(regexp, 2, n), skip_slice(text, 1), backreferences, 0, fuel - 1);
        if with.is_none() {
            return None;
        }
        let (res2, pos2) = with.unwrap();
        if res2 {
            let len = add_checked(pos2, 1);
            if len.is_none() {
                return None;
            }
            return Some((true, len.unwrap()));
        }
        Some((false, 0))
    } else if res {
        Some((true, pos))
    } else {
        Some((false, 0))
    }
}

/// `c+` followed by `regexp` (see [`match_plus`]).
pub fn matchplus(c: &[char], regexp: &[Vec<char>], text: &[char], minimum_length: i32, fuel: u64) -> (r: Option<(
    bool,
    i32,
)>)
    ensures
        match_plus(fuel as nat, c@, views(regexp@), text@, minimum_length, 0) == r,
    decreases fuel, 0nat,
{
    let ghost target = match_plus(fuel as nat, c@, views(regexp@), text@, minimum_length, 0);
    let text_len = byte_len(text);
    let mut index: usize = 0;
    let mut g: u64 = fuel;
    loop
        invariant
            g <= fuel,
            text_len == blen(text@),
            target == match_plus(fuel as nat, c@, views(regexp@), text@, minimum_length, 0),
            target == match_plus(g as nat, c@, views(regexp@), text@, minimum_length, index as int),
        decreases g,
    {
        if g == 0 {
            return None;
        }
        if !(text_len > index as u128) {
            return Some((false, 0));
        }
        if index >= text.len() {
            return None;
        }
        let accepted = accepts_at(text, index, c);
        if accepted.is_none() {
            return None;
        }
        if !accepted.unwrap() {
            return Some((false, 0));
        }
        let mut fresh = no_captures();
        let tail = matchhere(regexp, skip_slice(text, index + 1), &mut fresh, 0, g - 1);
        if tail.is_none() {
            return None;
        }
        let (res, i) = tail.unwrap();
        let part = add_checked(i, index as i32);
        if part.is_none() {
            return None;
        }
        let len = add_checked(part.unwrap(), 1);
        if len.is_none() {
            return None;
        }
        let matched_length = len.unwrap();
        if res && matched_length >= minimum_length {
            return Some((true, matched_length));
        }
        index = index + 1;
        g = g - 1;
    }
}

/// `c{times}` followed by `regexp`.
pub fn matchexact(c: &[char], regexp: &[Vec<char>], times: i32, text: &[char], minimum_length: i32, fuel: u64) -> (r: Option<
    (bool, i32),
>)
    ensures
        match_range(fuel as nat, c@, views(regexp@), times, times, text@, minimum_length, 0) == r,
    decreases fuel, 1nat,
{
    matchrange(c, regexp, times, times, text, minimum_length, fuel)
}

/// A group repeated `{times}` followed by `regexp`.
pub fn matchexactgroup(
    patt: &[Vec<char>],
    regexp: &[Vec<char>],
    times: i32,
    text: &[char],
    minimum_length: i32,
    fuel: u64,
) -> (r: Option<(bool, i32)>)
    ensures
        match_range_group(fuel as nat, views(patt@), views(regexp@), times, times, text@, minimum_length, 0, 0) == r,
    decreases fuel, 1nat,
{
    matchrangegroup(patt, regexp, times, times, text, minimum_length, fuel)
}

/// `c{min_times,max_times}` followed by `regexp` (see [`match_range`]).
pub fn matchrange(
    c: &[char],
    regexp: &[Vec<char>],
    min_times: i32,
    max_times: i32,
    text: &[char],
    minimum_length: i32,
    fuel: u64,
) -> (r: Option<(bool, i32)>)
    ensures
        match_range(fuel as nat, c@, views(regexp@), min_times, max_times, text@, minimum_length, 0) == r,
    decreases fuel, 0nat,
{
    let ghost target = match_range(fuel as nat, c@, views(regexp@), min_times, max_times, text@, minimum_length, 0);
    let text_len = byte_len(text);
    let mut index: usize = 0;
    let mut g: u64 = fuel;
    while index < min_times as usize
        invariant
            g <= fuel,
            text_len == blen(text@),
            target == match_range(fuel as nat, c@, views(regexp@), min_times, max_times, text@, minimum_length, 0),
            target == match_range(g as nat, c@, views(regexp@), min_times, max_times, text@, minimum_length, index as int),
        decreases g,
    {
        if g == 0 {
            return None;
        }
        if text_len <= index as u128 {
            return Some((false, 0));
        }
        if index >= text.len() {
            return None;
        }
        let accepted = accepts_at(text, index, c);
        if accepted.is_none() {
            return None;
        }
        if !accepted.unwrap() {
            return Some((false, 0));
        }
        index = index + 1;
        g = g - 1;
    }
    if g == 0 {
        return None;
    }
    g = g - 1;
    loop
        invariant
            g <= fuel,
            text_len == blen(text@),
            target == match_range(fuel as nat, c@, views(regexp@), min_times, max_times, text@, minimum_length, 0),
            target == range_tail(g as nat, c@, views(regexp@), min_times, max_times, text@, minimum_length, index as int),
        decreases g,
    {
        if g == 0 {
            return None;
        }
        if !(text_len >= index as u128 && max_times as usize >= index) {
            return Some((false, 0));
        }
        if index > min_times as usize {
            if index - 1 >= text.len() {
                return None;
            }
            let accepted = accepts_at(text, index - 1, c);
            if accepted.is_none() {
                return None;
            }
            if !accepted.unwrap() {
                return Some((false, 0));
            }
        }
        let mut fresh = no_captures();
        let tail = matchhere(regexp, skip_slice(text, index), &mut fresh, 0, g - 1);
        if tail.is_none() {
            return None;
        }
        let (res, i) = tail.unwrap();
        let len = add_checked(i, index as i32);
        if len.is_none() {
            return None;
        }
        let matched_length = len.unwrap();
        if res && matched_length >= minimum_length {
            return Some((true, matched_length));
        }
        if index == usize::MAX {
            return None;
        }
        index = index + 1;
        g = g - 1;
    }
}

/// The consumed length after a round of `n` characters, or `None` where it
/// overflows `usize` (see [`advance`]).
fn advance_by(consumed: usize, n: i32) -> (r: Option<usize>)
    ensures
        r matches Some(x) ==> advance(consumed as int, n) == Some(x as int),
        r is None ==> advance(consumed as int, n) is None,
{
    let step = n as usize;
    if step > usize::MAX - consumed {
        None
    } else {
        Some(consumed + step)
    }
}

/// A group repeated `{min_times,max_times}` followed by `regexp` (see
/// [`match_range_group`]).
pub fn matchrangegroup(
    patt: &[Vec<char>],
    regexp: &[Vec<char>],
    min_times: i32,
    max_times: i32,
    text: &[char],
    minimum_length: i32,
    fuel: u64,
) -> (r: Option<(bool, i32)>)
    ensures
        match_range_group(fuel as nat, views(patt@), views(regexp@), min_times, max_times, text@, minimum_length, 0, 0) == r,
    decreases fuel, 0nat,
{
    let ghost target = match_range_group(fuel as nat, views(patt@), views(regexp@), min_times, max_times, text@, minimum_length, 0, 0);
    let text_len = byte_len(text);
    let mut index: usize = 0;
    let mut text_matched: usize = 0;
    let mut g: u64 = fuel;
    while index < min_times as usize
        invariant
            g <= fuel,
            text_len == blen(text@),
            target == match_range_group(fuel as nat, views(patt@), views(regexp@), min_times, max_times, text@, minimum_length, 0, 0),
            target == match_range_group(g as nat, views(patt@), views(regexp@), min_times, max_times, text@, minimum_length, index as int, text_matched as int),
        decreases g,
    {
        if g == 0 {
            return None;
        }
        if text_len < text_matched as u128 {
            return Some((false, 0));
        }
        let mut fresh = no_captures();
        let round = matchhere(patt, skip_slice(text, text_matched), &mut fresh, 0, g - 1);
        if round.is_none() {
            return None;
        }
        let (res_i, len_i) = round.unwrap();
        if !res_i {
            return Some((false, 0));
        }
        let next = advance_by(text_matched, len_i);
        if next.is_none() {
            return None;
        }
        text_matched = next.unwrap();
        index = index + 1;
        g = g - 1;
    }
    if g == 0 {
        return None;
    }
    g = g - 1;
    loop
        invariant
            g <= fuel,
            text_len == blen(text@),
            target == match_range_group(fuel as nat, views(patt@), views(regexp@), min_times, max_times, text@, minimum_length, 0, 0),
            target == range_group_tail(g as nat, views(patt@), views(regexp@), min_times, max_times, text@, minimum_length, index as int, text_matched as int),
        decreases g,
    {
        if g == 0 {
            return None;
        }
        if !(text_len >= text_matched as u128 && max_times as usize >= index) {
            return Some((false, 0));
        }
        if index > min_times as usize {
            let ghost gr = group_round((g - 1) as nat, views(patt@), text@, text_matched as int);
            let mut fresh = no_captures();
            let round = matchhere(patt, skip_slice(text, text_matched), &mut fresh, 0, g - 1);
            if round.is_none() {
                assert(gr is None);
                return None;
            }
            let (res1, i1) = round.unwrap();
            if !res1 {
                assert(gr == Some(Option::<int>::None));
                return Some((false, 0));
            }
            let next = advance_by(text_matched, i1);
            if next.is_none() {
                assert(gr is None);
                return None;
            }
            text_matched = next.unwrap();
            assert(gr == Some(Some(text_matched as int)));
        }
        let mut fresh = no_captures();
        let tail = matchhere(regexp, skip_slice(text, text_matched), &mut fresh, 0, g - 1);
        if tail.is_none() {
            return None;
        }
        let (res, i) = tail.unwrap();
        let len = add_checked(i, text_matched as i32);
        if len.is_none() {
            return None;
        }
        let matched_length = len.unwrap();
        if res && matched_length >= minimum_length {
            return Some((true, matched_length));
        }
        if index == usize::MAX {
            return None;
        }
        index = index + 1;
        g = g - 1;
    }
}

/// `c*` followed by `regexp` (see [`match_star`]).
pub fn matchstar(c: &[char], regexp: &[Vec<char>], text: &[char], minimum_length: i32, fuel: u64) -> (r: Option<(
    bool,
    i32,
)>)
    ensures
        match_star(fuel as nat, c@, views(regexp@), text@, minimum_length, 0) == r,
    decreases fuel, 0nat,
{
    let ghost target = match_star(fuel as nat, c@, views(regexp@), text@, minimum_length, 0);
    let text_len = byte_len(text);
    let mut index: usize = 0;
    let mut g: u64 = fuel;
    loop
        invariant
            g <= fuel,
            text_len == blen(text@),
            target == match_star(fuel as nat, c@, views(regexp@), text@, minimum_length, 0),
            target == match_star(g as nat, c@, views(regexp@), text@, minimum_length, index as int),
        decreases g,
    {
        if g == 0 {
            return None;
        }
        if !(text_len >= index as u128) {
            return Some((false, 0));
        }
        if index > 0 {
            if index - 1 >= text.len() {
                return None;
            }
            let accepted = accepts_at(text, index - 1, c);
            if accepted.is_none() {
                return None;
            }
            if !accepted.unwrap() {
                return Some((false, 0));
            }
        }
        let mut fresh = no_captures();
        let tail = matchhere(regexp, skip_slice(text, index), &mut fresh, 0, g - 1);
        if tail.is_none() {
            return None;
        }
        let (res, i) = tail.unwrap();
        let len = add_checked(i, index as i32);
        if len.is_none() {
            return None;
        }
        let matched_length = len.unwrap();
        if res && matched_length >= minimum_length {
            return Some((true, matched_length));
        }
        if index == usize::MAX {
            return None;
        }
        index = index + 1;
        g = g - 1;
    }
}

/// A group repeated with `*` followed by `regexp` (see [`match_star_group`]).
pub fn matchstargroup(patt: &[Vec<char>], regexp: &[Vec<char>], text: &[char], minimum_length: i32, fuel: u64) -> (r: Option<
    (bool, i32),
>)
    ensures
        match_star_group(fuel as nat, views(patt@), views(regexp@), text@, minimum_length, 0, 0) == r,
    decreases fuel, 0nat,
{
    let ghost target = match_star_group(fuel as nat, views(patt@), views(regexp@), text@, minimum_length, 0, 0);
    let text_len = byte_len(text);
    let mut index: usize = 0;
    let mut text_matched: usize = 0;
    let mut g: u64 = fuel;
    loop
        invariant
            g <= fuel,
            text_len == blen(text@),
            target == match_star_group(fuel as nat, views(patt@), views(regexp@), text@, minimum_length, 0, 0),
            target == match_star_group(g as nat, views(patt@), views(regexp@), text@, minimum_length, index as int, text_matched as int),
        decreases g,
    {
        if g == 0 {
            return None;
        }
        if !(text_len > text_matched as u128) {
            return Some((false, 0));
        }
        if index > 0 {
            let ghost gr = group_round((g - 1) as nat, views(patt@), text@, text_matched as int);
            let mut fresh = no_captures();
            let round = matchhere(patt, skip_slice(text, text_matched), &mut fresh, 0, g - 1);
            if round.is_none() {
                assert(gr is None);
                return None;
            }
            let (res1, i1) = round.unwrap();
            if !res1 {
                assert(gr == Some(Option::<int>::None));
                return Some((false, 0));
            }
            let next = advance_by(text_matched, i1);
            if next.is_none() {
                assert(gr is None);
                return None;
            }
            text_matched = next.unwrap();
            assert(gr == Some(Some(text_matched as int)));
        }
        let mut fresh = no_captures();
        let tail = matchhere(regexp, skip_slice(text, text_matched), &mut fresh, 0, g - 1);
        if tail.is_none() {
            return None;
        }
        let (res, i) = tail.unwrap();
        let len = add_checked(i, text_matched as i32);
        if len.is_none() {
            return None;
        }
        let matched_length = len.unwrap();
        if res && matched_length >= minimum_length {
            return Some((true, matched_length));
        }
        if index == usize::MAX {
            return None;
        }
        index = index + 1;
        g = g - 1;
    }
}

/// The matches of pattern `regexp_raw` in `text` found within `budget`
/// steps, or `None` where the search panics or has not finished within
/// them (see [`matches_within`]). With a leading `^`, the match at the start
/// of the text, if any; otherwise, scanning from left to right, each match
/// found, the scan resuming after it.
pub fn try_matchgen(regexp_raw: &str, text: &str, budget: u64) -> (matches: Option<Vec<String>>)
    ensures
        matches is None <==> matches_within(budget as nat, regexp_raw@, text@) is None,
        matches matches Some(v) ==> Some(string_views(v@)) == matches_within(budget as nat, regexp_raw@, text@),
{
    let p = chars_of(regexp_raw);
    let t = chars_of(text);
    let text_len = byte_len(t.as_slice());
    let tokens = try_split_chars(p.as_slice());
    if tokens.is_none() {
        return None;
    }
    let regexp = tokens.unwrap();
    let n = regexp.len();
    let mut matches: Vec<Vec<char>> = Vec::new();
    if n >= 2 && tok_is(&regexp[0], '^') {
        let mut fresh = no_captures();
        let found = matchhere(sub_tokens(regexp.as_slice(), 1, n), t.as_slice(), &mut fresh, 0, budget);
        if found.is_none() {
            return None;
        }
        let (result, match_length) = found.unwrap();
        if result {
            matches.push(take_copy(t.as_slice(), match_length as usize));
            assert(views(matches@) =~= seq![take_chars(t@, (match_length as usize) as int)]);
        } else {
            assert(views(matches@) =~= Seq::<Seq<char>>::empty());
        }
    } else {
        let ghost target = scan_from(budget as nat, views(regexp@), t@, 0, Seq::empty());
        assert(matches_within(budget as nat, regexp_raw@, text@) == target);
        let mut index: usize = 0;
        let mut g: u64 = budget;
        assert(views(matches@) =~= Seq::<Seq<char>>::empty());
        loop
            invariant
                matches_within(budget as nat, regexp_raw@, text@) == target,
                text_len == blen(t@),
                target == scan_from(budget as nat, views(regexp@), t@, 0, Seq::empty()),
                target == scan_from(g as nat, views(regexp@), t@, index as int, views(matches@)),
            ensures
                target == Some(views(matches@)),
            decreases g,
        {
            if g == 0 {
                return None;
            }
            let mut fresh = no_captures();
            let found = matchhere(regexp.as_slice(), skip_slice(t.as_slice(), index), &mut fresh, 0, g - 1);
            if found.is_none() {
                return None;
            }
            let (result, match_length) = found.unwrap();
            if index as u128 >= text_len {
                break;
            }
            if result {
                if match_length == i32::MIN {
                    return None;
                }
                let ghost before = views(matches@);
                matches.push(take_copy(skip_slice(t.as_slice(), index), match_length as usize));
                assert(views(matches@) =~= before.push(take_chars(skip_chars(t@, index as int), (match_length as usize) as int)));
                let step = if match_length - 1 > 0 {
                    match_length - 1
                } else {
                    0
                };
                if step as usize >= usize::MAX - index {
                    return None;
                }
                index = index + step as usize + 1;
            } else {
                if index == usize::MAX {
                    return None;
                }
                index = index + 1;
            }
            g = g - 1;
        }
    }
    Some(chars_to_strings(&matches))
}

/// The matches of pattern `regexp_raw` in `text`: with a leading `^`, the
/// match at the start of the text, if any; otherwise, scanning from left to
/// right, each match found, the scan resuming after it.
///
/// The search must finish without a panic within `u64::MAX` steps, which
/// every search that ends on a real machine does.
pub fn matchgen(regexp_raw: &str, text: &str) -> (matches: Vec<String>)
    requires
        matches_within(u64::MAX as nat, regexp_raw@, text@) is Some,
    ensures
        string_views(matches@) == matches_of(regexp_raw@, text@),
{
    proof {
        law_matches_of_any_budget(u64::MAX as nat, regexp_raw@, text@);
    }
    try_matchgen(regexp_raw, text, u64::MAX).unwrap()
}

} // verus!
