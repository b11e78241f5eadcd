//! How the repetition operators relate: `*`, `+`, `{n}` and `{n,m}`.
use vstd::prelude::*;

use crate::helpers::decimal_digit;
use crate::lengths::lemma_here_within;
use crate::semantics::{
    add_i32, match_here, match_plus, match_range, match_range_group, match_star, match_token,
    range_case, range_group_case, range_tail, with_captures, Captures,
};
use crate::text::{blen, is_ascii, lemma_ascii_blen, lemma_ascii_skip, lemma_blen_len, skip_chars};

verus! {

/// The bound that `{0,}` reads for `t`, its byte length cast to `i32` as the
/// search casts it, reaches past every position of `t`. It does for every
/// text of at most `i32::MAX` bytes; on a longer text the cast may wrap to a
/// smaller bound.
pub open spec fn length_bound_covers(t: Seq<char>) -> bool {
    ((blen(t) as i32) as usize) as int >= blen(t)
}

/// A text of at most `i32::MAX` bytes is covered by its length bound.
pub proof fn lemma_short_text_covered(t: Seq<char>)
    requires
        blen(t) <= i32::MAX,
    ensures
        length_bound_covers(t),
{
    lemma_blen_len(t);
}

proof fn lemma_tail_is_star(fuel: nat, c: Seq<char>, re: Seq<Seq<char>>, t: Seq<char>, min: i32, index: int)
    requires
        length_bound_covers(t),
    ensures
        range_tail(fuel, c, re, 0, blen(t) as i32, t, min, index) == match_star(fuel, c, re, t, min, index),
    decreases fuel,
{
    lemma_blen_len(t);
    if fuel > 0 {
        lemma_tail_is_star((fuel - 1) as nat, c, re, t, min, index + 1);
    }
}

/// `c*` is `c{0,n}` with `n` the text's byte length, cast to `i32` as `{0,}`
/// reads it: from zero repetitions up, the fewest with which the rest
/// matches. It holds wherever that bound covers the text, so on every text
/// of at most `i32::MAX` bytes (see [`lemma_short_text_covered`]).
pub proof fn law_star_is_range(fuel: nat, c: Seq<char>, re: Seq<Seq<char>>, t: Seq<char>, min: i32)
    requires
        length_bound_covers(t),
    ensures
        match_star(fuel, c, re, t, min, 0) == match_range(fuel + 1, c, re, 0, blen(t) as i32, t, min, 0),
{
    lemma_tail_is_star(fuel, c, re, t, min, 0);
}

proof fn lemma_tail_raise(fuel: nat, c: Seq<char>, re: Seq<Seq<char>>, min_times: i32, max_times: i32, raised: i32, t: Seq<char>, min: i32, index: int)
    requires
        0 <= max_times <= raised,
        range_tail(fuel, c, re, min_times, max_times, t, min, index) matches Some((true, _)),
    ensures
        range_tail(fuel, c, re, min_times, raised, t, min, index) == range_tail(fuel, c, re, min_times, max_times, t, min, index),
    decreases fuel,
{
    if fuel > 0 && range_tail((fuel - 1) as nat, c, re, min_times, max_times, t, min, index + 1) matches Some((true, _)) {
        lemma_tail_raise((fuel - 1) as nat, c, re, min_times, max_times, raised, t, min, index + 1);
    }
}

proof fn lemma_range_raise(fuel: nat, c: Seq<char>, re: Seq<Seq<char>>, min_times: i32, max_times: i32, raised: i32, t: Seq<char>, min: i32, index: int)
    requires
        0 <= max_times <= raised,
        match_range(fuel, c, re, min_times, max_times, t, min, index) matches Some((true, _)),
    ensures
        match_range(fuel, c, re, min_times, raised, t, min, index) == match_range(fuel, c, re, min_times, max_times, t, min, index),
    decreases fuel,
{
    if fuel > 0 {
        if index < (min_times as usize) as int {
            lemma_range_raise((fuel - 1) as nat, c, re, min_times, max_times, raised, t, min, index + 1);
        } else {
            lemma_tail_raise((fuel - 1) as nat, c, re, min_times, max_times, raised, t, min, index);
        }
    }
}

/// Raising the upper bound of `c{n,m}` keeps a match that was found: the
/// fewest repetitions with which the rest matches are still chosen, and
/// they lie within the old bound.
pub proof fn law_raised_bound_keeps_match(fuel: nat, c: Seq<char>, re: Seq<Seq<char>>, min_times: i32, max_times: i32, raised: i32, t: Seq<char>, min: i32)
    requires
        0 <= max_times <= raised,
        match_range(fuel, c, re, min_times, max_times, t, min, 0) matches Some((true, _)),
    ensures
        match_range(fuel, c, re, min_times, raised, t, min, 0) == match_range(fuel, c, re, min_times, max_times, t, min, 0),
{
    lemma_range_raise(fuel, c, re, min_times, max_times, raised, t, min, 0);
}

/// `c{n}` is `c{n,n}`: exactly `n` repetitions, then the rest.
pub proof fn law_exact_is_range(fuel: nat, c: Seq<char>, d: char, rest: Seq<Seq<char>>, t: Seq<char>, refs: Captures, min: i32)
    requires
        decimal_digit(d) is Some,
    ensures
        range_case(fuel, c, seq!['{', d], rest, t, refs, min) == with_captures(
            match_range(fuel, c, rest, decimal_digit(d)->0 as i32, decimal_digit(d)->0 as i32, t, min, 0),
            refs,
        ),
        range_case(fuel, c, seq!['{', d], rest, t, refs, min) == range_case(fuel, c, seq!['{', d, ',', d], rest, t, refs, min),
{
}

/// A group quantified `{n}` is the group quantified `{n,n}`.
pub proof fn law_exact_group_is_range_group(fuel: nat, patt: Seq<Seq<char>>, d: char, rest: Seq<Seq<char>>, t: Seq<char>, refs: Captures, min: i32)
    requires
        decimal_digit(d) is Some,
    ensures
        range_group_case(fuel, patt, seq!['{', d], rest, t, refs, min) == with_captures(
            match_range_group(fuel, patt, rest, decimal_digit(d)->0 as i32, decimal_digit(d)->0 as i32, t, min, 0, 0),
            refs,
        ),
        range_group_case(fuel, patt, seq!['{', d], rest, t, refs, min) == range_group_case(fuel, patt, seq!['{', d, ',', d], rest, t, refs, min),
{
}

/// One more character in front of a repetition's result.
pub open spec fn one_more(r: Option<(bool, i32)>) -> Option<(bool, i32)> {
    match r {
        None => None,
        Some((true, n)) => match add_i32(n as int, 1) {
            None => None,
            Some(m) => Some((true, m)),
        },
        Some((false, _)) => Some((false, 0)),
    }
}

/// `c+` spelled out: the first character must be accepted by `c`, and then
/// `c*` follows on the rest of the text, with the minimum length one less.
pub open spec fn plus_by_star(fuel: nat, c: Seq<char>, re: Seq<Seq<char>>, t: Seq<char>, min: i32) -> Option<(bool, i32)> {
    if fuel == 0 {
        None
    } else if t.len() == 0 {
        Some((false, 0))
    } else {
        match match_token(seq![t[0]], c) {
            None => None,
            Some(false) => Some((false, 0)),
            Some(true) => one_more(match_star(fuel, c, re, t.skip(1), (min - 1) as i32, 0)),
        }
    }
}

proof fn lemma_plus_star(fuel: nat, c: Seq<char>, re: Seq<Seq<char>>, t: Seq<char>, min: i32, k: int)
    requires
        is_ascii(t),
        t.len() <= i32::MAX,
        min > i32::MIN,
        0 <= k,
        t.len() > 0,
        k == 0 ==> match_token(seq![t[0]], c) == Some(true),
    ensures
        match_plus(fuel, c, re, t, min, k) == one_more(match_star(fuel, c, re, t.skip(1), (min - 1) as i32, k)),
    decreases fuel,
{
    lemma_ascii_blen(t);
    let t1 = t.skip(1);
    lemma_ascii_skip(t, 1);
    assert(skip_chars(t, 1) == t1);
    if fuel > 0 && k < t.len() {
        let f = (fuel - 1) as nat;
        assert(skip_chars(t, k + 1) == skip_chars(t1, k)) by {
            assert(skip_chars(t, k + 1) =~= skip_chars(t1, k));
        }
        if k > 0 {
            assert(t1[k - 1] == t[k]);
        }
        let rest = skip_chars(t, k + 1);
        lemma_ascii_skip(t, k + 1);
        lemma_here_within(f, re, rest, Seq::empty(), 0);
        lemma_plus_star(f, c, re, t, min, k + 1);
    }
}

/// `c+` is one character accepted by `c` followed by `c*`: the length it
/// reports is one more than that of `c*` on the rest of the text, asked
/// for one character less. Stated for ASCII texts, where characters and
/// bytes coincide, of at most `i32::MAX` characters: on a longer text the
/// length `c+` adds up can overflow `i32` at a run that `c*` passes over
/// (with `c` = `a`, a rest `b` and a text of `i32::MAX + 1` letters `a`,
/// `c+` panics where `c*` reports no match); and for a minimum length above
/// `i32::MIN`, which `c*` is asked for one less than.
pub proof fn law_plus_is_one_then_star(fuel: nat, c: Seq<char>, re: Seq<Seq<char>>, t: Seq<char>, min: i32)
    requires
        is_ascii(t),
        t.len() <= i32::MAX,
        min > i32::MIN,
    ensures
        match_plus(fuel, c, re, t, min, 0) == plus_by_star(fuel, c, re, t, min),
{
    lemma_ascii_blen(t);
    if fuel > 0 && t.len() > 0 && match_token(seq![t[0]], c) == Some(true) {
        lemma_plus_star(fuel, c, re, t, min, 0);
    }
}

} // verus!
