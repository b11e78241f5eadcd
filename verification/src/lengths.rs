//! The lengths the search reports stay within the text it was given.
//!
//! For a text of at most `i32::MAX` bytes, every step of the search reports a
//! length between 0 and the number of characters of the text it looked at.
use vstd::prelude::*;

use crate::helpers::{decimal_digit, options_of, spec_is_digit, split_pattern};
use crate::semantics::{add_i32, advance, alternation_loop, backref_case, first_accepted, fits_i32, group_loop, group_next, group_round, is_group_marker, match_here, match_plus, match_range, match_range_group, match_star, match_star_group, match_token, optional_case, range_case, range_group_case, range_group_tail, range_max, range_tail, run_stops, truncated, Captures};
use crate::text::{blen, char_at, char_or_space, lemma_blen_len, lemma_blen_skip, skip_chars, take_chars};

verus! {

/// A reported length that lies within a text of `len` characters.
pub open spec fn within(r: Option<(bool, i32)>, len: int) -> bool {
    r matches Some((_, n)) ==> 0 <= n <= len
}

pub open spec fn outcome_within(r: Option<(bool, i32, Captures)>, len: int) -> bool {
    r matches Some((_, n, _)) ==> 0 <= n <= len
}

pub proof fn lemma_token_needs_input(input: Seq<char>, pat: Seq<char>)
    ensures
        match_token(input, pat) == Some(true) ==> input.len() > 0,
{
}

pub proof fn lemma_here_within(fuel: nat, re: Seq<Seq<char>>, t: Seq<char>, refs: Captures, min: i32)
    requires
        blen(t) <= i32::MAX,
    ensures
        outcome_within(match_here(fuel, re, t, refs, min), t.len() as int),
    decreases fuel, 2nat,
{
    lemma_blen_len(t);
    if fuel == 0 || re.len() == 0 {
    } else if re.len() >= 3 && is_group_marker(re[0]) && re[2] == seq!['*'] {
        lemma_star_group_within(fuel, re.take(2), re.skip(3), t, min, 0, 0);
    } else if re.len() >= 2 && char_or_space(re[1], 0) == '{' {
        lemma_range_case_within(fuel, re[0], re[1], re.skip(2), t, refs, min);
    } else if re.len() >= 3 && is_group_marker(re[0]) && char_or_space(re[2], 0) == '{' {
        lemma_range_group_case_within(fuel, re.take(2), re[2], re.skip(3), t, refs, min);
    } else if blen(re[0]) > 1 && char_at(re[0], 0) == Some('\\') && (match char_at(re[0], 1) {
        Some(d) => spec_is_digit(d),
        None => false,
    }) {
        lemma_backref_within(fuel, re, t, refs);
    } else if re[0] == seq!['('] {
        if re.len() > 1 {
            if let Some(inner) = split_pattern(re[1]) {
                lemma_group_loop_within(fuel, re, inner, t, refs, min, 0, refs.len() as int);
            }
        }
    } else if re[0] == seq!['|'] {
        if re.len() > 1 {
            lemma_alternation_within(fuel, re, options_of(re[1]), 0, t, refs, refs.len() as int);
        }
    } else if re.len() >= 2 && re[1] == seq!['?'] {
        lemma_optional_within(fuel, re, t, refs);
    } else if re.len() >= 2 && re[1] == seq!['+'] {
        if re.len() == 2 && min <= 1 {
            lemma_token_needs_input(t, re[0]);
        } else {
            lemma_plus_within(fuel, re[0], re.skip(2), t, min, 0);
        }
    } else if re.len() >= 2 && re[1] == seq!['*'] {
        if !(re.len() == 2 && min <= 0) {
            lemma_star_within(fuel, re[0], re.skip(2), t, min, 0);
        }
    } else if re.len() == 1 && re[0] == seq!['$'] {
    } else if t.len() > 0 {
        if fits_i32(min - 1) {
            lemma_blen_skip(t, 1);
            assert(skip_chars(t, 1) == t.skip(1));
            lemma_here_within((fuel - 1) as nat, re.skip(1), t.skip(1), refs, (min - 1) as i32);
        }
    }
}

proof fn lemma_range_case_within(fuel: nat, c: Seq<char>, tok: Seq<char>, rest: Seq<Seq<char>>, t: Seq<char>, refs: Captures, min: i32)
    requires
        blen(t) <= i32::MAX,
    ensures
        outcome_within(range_case(fuel, c, tok, rest, t, refs, min), t.len() as int),
    decreases fuel, 1nat,
{
    if let Some(times) = decimal_digit(char_or_space(tok, 1)) {
        if char_or_space(tok, 2) == ',' {
            if let Some(max) = range_max(tok, t) {
                lemma_range_within(fuel, c, rest, times as i32, max, t, min, 0);
            }
        } else {
            lemma_range_within(fuel, c, rest, times as i32, times as i32, t, min, 0);
        }
    }
}

proof fn lemma_range_group_case_within(fuel: nat, patt: Seq<Seq<char>>, tok: Seq<char>, rest: Seq<Seq<char>>, t: Seq<char>, refs: Captures, min: i32)
    requires
        blen(t) <= i32::MAX,
    ensures
        outcome_within(range_group_case(fuel, patt, tok, rest, t, refs, min), t.len() as int),
    decreases fuel, 1nat,
{
    if let Some(times) = decimal_digit(char_or_space(tok, 1)) {
        if char_or_space(tok, 2) == ',' {
            if let Some(max) = range_max(tok, t) {
                lemma_range_group_within(fuel, patt, rest, times as i32, max, t, min, 0, 0);
            }
        } else {
            lemma_range_group_within(fuel, patt, rest, times as i32, times as i32, t, min, 0, 0);
        }
    }
}

proof fn lemma_backref_within(fuel: nat, re: Seq<Seq<char>>, t: Seq<char>, refs: Captures)
    requires
        blen(t) <= i32::MAX,
    ensures
        outcome_within(backref_case(fuel, re, t, refs), t.len() as int),
    decreases fuel, 1nat,
{
    if fuel > 0 {
        let f = (fuel - 1) as nat;
        if let Some(n) = decimal_digit(re[0][1]) {
            if !(n > (refs.len() as u32)) && n != 0 {
                if let Some(captured) = refs[n - 1] {
                    if let Some(cre) = split_pattern(captured) {
                        lemma_here_within(f, cre, t, refs, 0);
                        if let Some((res, index, refs1)) = match_here(f, cre, t, refs, 0) {
                            if re.len() != 1 {
                                lemma_blen_skip(t, (index as usize) as int);
                                lemma_here_within(f, re.skip(1), skip_chars(t, (index as usize) as int), refs1, 0);
                            }
                        }
                    }
                }
            }
        }
    }
}

proof fn lemma_group_loop_within(fuel: nat, re: Seq<Seq<char>>, inner: Seq<Seq<char>>, t: Seq<char>, refs: Captures, min: i32, added: int, slot: int)
    requires
        blen(t) <= i32::MAX,
    ensures
        outcome_within(group_loop(fuel, re, inner, t, refs, min, added, slot), t.len() as int),
    decreases fuel, 0nat,
{
    if fuel > 0 && added <= blen(t) {
        let f = (fuel - 1) as nat;
        lemma_here_within(f, inner, t, refs.push(None), (added as usize) as i32);
        if let Some((res, index, refs1)) = match_here(f, inner, t, refs.push(None), (added as usize) as i32) {
            if res && 0 <= slot < refs1.len() {
                let refs2 = refs1.update(slot, Some(take_chars(t, (index as usize) as int)));
                if re.len() == 2 {
                    lemma_group_next_within(f, re, inner, t, refs2, min, added, slot);
                } else if let Some(rest_min) = add_i32(min as int, -(index as int)) {
                    lemma_blen_skip(t, (index as usize) as int);
                    let rest = skip_chars(t, (index as usize) as int);
                    lemma_here_within(f, re.skip(2), rest, refs2, rest_min);
                    if let Some((r, i, refs3)) = match_here(f, re.skip(2), rest, refs2, rest_min) {
                        lemma_group_next_within(f, re, inner, t, refs3, min, added, slot);
                    }
                }
            }
        }
    }
}

proof fn lemma_group_next_within(fuel: nat, re: Seq<Seq<char>>, inner: Seq<Seq<char>>, t: Seq<char>, refs: Captures, min: i32, added: int, slot: int)
    requires
        blen(t) <= i32::MAX,
    ensures
        outcome_within(group_next(fuel, re, inner, t, refs, min, added, slot), t.len() as int),
    decreases fuel, 1nat,
{
    lemma_group_loop_within(fuel, re, inner, t, truncated(refs, slot), min, added + 1, slot);
}

proof fn lemma_alternation_within(fuel: nat, re: Seq<Seq<char>>, options: Seq<Seq<char>>, k: int, t: Seq<char>, refs: Captures, slot: int)
    requires
        blen(t) <= i32::MAX,
    ensures
        outcome_within(alternation_loop(fuel, re, options, k, t, refs, slot), t.len() as int),
    decreases fuel, 0nat,
{
    if fuel > 0 && 0 <= k < options.len() {
        let f = (fuel - 1) as nat;
        if let Some(alt) = split_pattern(options[k]) {
            let start = truncated(refs, slot).push(None);
            lemma_here_within(f, alt, t, start, 0);
            if let Some((res, index, refs1)) = match_here(f, alt, t, start, 0) {
                if !res {
                    lemma_alternation_within(f, re, options, k + 1, t, refs1, slot);
                } else if 0 <= slot < refs1.len() && re.len() != 2 {
                    let refs2 = refs1.update(slot, Some(take_chars(t, (index as usize) as int)));
                    lemma_blen_skip(t, (index as usize) as int);
                    let rest = skip_chars(t, (index as usize) as int);
                    lemma_here_within(f, re.skip(2), rest, refs2, 0);
                    if let Some((r, i, refs3)) = match_here(f, re.skip(2), rest, refs2, 0) {
                        lemma_alternation_within(f, re, options, k + 1, t, refs3, slot);
                    }
                }
            }
        }
    }
}

proof fn lemma_optional_within(fuel: nat, re: Seq<Seq<char>>, t: Seq<char>, refs: Captures)
    requires
        blen(t) <= i32::MAX,
    ensures
        outcome_within(optional_case(fuel, re, t, refs), t.len() as int),
    decreases fuel, 1nat,
{
    if fuel > 0 && re.len() != 2 {
        let f = (fuel - 1) as nat;
        lemma_here_within(f, re.skip(2), t, refs, 0);
        if let Some((res, pos, refs1)) = match_here(f, re.skip(2), t, refs, 0) {
            if first_accepted(t, re[0]) == Some(true) {
                lemma_blen_skip(t, 1);
                lemma_here_within(f, re.skip(2), skip_chars(t, 1), refs1, 0);
            }
        }
    }
}

proof fn lemma_plus_within(fuel: nat, c: Seq<char>, re: Seq<Seq<char>>, t: Seq<char>, min: i32, index: int)
    requires
        blen(t) <= i32::MAX,
        0 <= index,
    ensures
        within(match_plus(fuel, c, re, t, min, index), t.len() as int),
    decreases fuel, 0nat,
{
    lemma_blen_len(t);
    if fuel > 0 && blen(t) > index && index < t.len() {
        let f = (fuel - 1) as nat;
        if match_token(seq![t[index]], c) == Some(true) {
            let rest = skip_chars(t, index + 1);
            lemma_blen_skip(t, index + 1);
            lemma_here_within(f, re, rest, Seq::empty(), 0);
            lemma_plus_within(f, c, re, t, min, index + 1);
        }
    }
}

proof fn lemma_range_within(fuel: nat, c: Seq<char>, re: Seq<Seq<char>>, min_times: i32, max_times: i32, t: Seq<char>, min: i32, index: int)
    requires
        blen(t) <= i32::MAX,
        0 <= index <= t.len(),
    ensures
        within(match_range(fuel, c, re, min_times, max_times, t, min, index), t.len() as int),
    decreases fuel, 0nat,
{
    if fuel > 0 {
        let f = (fuel - 1) as nat;
        if index < (min_times as usize) as int {
            if index < t.len() {
                lemma_range_within(f, c, re, min_times, max_times, t, min, index + 1);
            }
        } else {
            lemma_range_tail_within(f, c, re, min_times, max_times, t, min, index);
        }
    }
}

proof fn lemma_range_tail_within(fuel: nat, c: Seq<char>, re: Seq<Seq<char>>, min_times: i32, max_times: i32, t: Seq<char>, min: i32, index: int)
    requires
        blen(t) <= i32::MAX,
        (min_times as usize) as int <= index,
        (min_times as usize) as int <= t.len(),
    ensures
        within(range_tail(fuel, c, re, min_times, max_times, t, min, index), t.len() as int),
    decreases fuel, 0nat,
{
    lemma_blen_len(t);
    if fuel > 0 && blen(t) >= index && (max_times as usize) as int >= index {
        let f = (fuel - 1) as nat;
        let stop = if index > (min_times as usize) as int {
            run_stops(c, t, index)
        } else {
            Some(false)
        };
        if stop == Some(false) {
            assert(index <= t.len());
            let rest = skip_chars(t, index);
            lemma_blen_skip(t, index);
            lemma_here_within(f, re, rest, Seq::empty(), 0);
            lemma_range_tail_within(f, c, re, min_times, max_times, t, min, index + 1);
        }
    }
}

proof fn lemma_range_group_within(fuel: nat, patt: Seq<Seq<char>>, re: Seq<Seq<char>>, min_times: i32, max_times: i32, t: Seq<char>, min: i32, index: int, consumed: int)
    requires
        blen(t) <= i32::MAX,
        0 <= consumed <= t.len(),
    ensures
        within(match_range_group(fuel, patt, re, min_times, max_times, t, min, index, consumed), t.len() as int),
    decreases fuel, 0nat,
{
    if fuel > 0 {
        let f = (fuel - 1) as nat;
        if index < (min_times as usize) as int {
            let rest = skip_chars(t, consumed);
            lemma_blen_skip(t, consumed);
            lemma_here_within(f, patt, rest, Seq::empty(), 0);
            if let Some((ok, n, _)) = match_here(f, patt, rest, Seq::empty(), 0) {
                if ok {
                    if let Some(next) = advance(consumed, n) {
                        lemma_range_group_within(f, patt, re, min_times, max_times, t, min, index + 1, next);
                    }
                }
            }
        } else {
            lemma_range_group_tail_within(f, patt, re, min_times, max_times, t, min, index, consumed);
        }
    }
}

proof fn lemma_group_round_within(fuel: nat, patt: Seq<Seq<char>>, t: Seq<char>, consumed: int)
    requires
        blen(t) <= i32::MAX,
        0 <= consumed <= t.len(),
    ensures
        group_round(fuel, patt, t, consumed) matches Some(Some(next)) ==> consumed <= next <= t.len(),
    decreases fuel, 3nat,
{
    lemma_blen_skip(t, consumed);
    lemma_here_within(fuel, patt, skip_chars(t, consumed), Seq::empty(), 0);
}

proof fn lemma_range_group_tail_within(fuel: nat, patt: Seq<Seq<char>>, re: Seq<Seq<char>>, min_times: i32, max_times: i32, t: Seq<char>, min: i32, index: int, consumed: int)
    requires
        blen(t) <= i32::MAX,
        0 <= consumed <= t.len(),
    ensures
        within(range_group_tail(fuel, patt, re, min_times, max_times, t, min, index, consumed), t.len() as int),
    decreases fuel, 0nat,
{
    lemma_blen_len(t);
    if fuel > 0 && blen(t) >= consumed && (max_times as usize) as int >= index {
        let f = (fuel - 1) as nat;
        lemma_group_round_within(f, patt, t, consumed);
        let round = if index > (min_times as usize) as int {
            group_round(f, patt, t, consumed)
        } else {
            Some(Some(consumed))
        };
        if let Some(Some(next)) = round {
            let rest = skip_chars(t, next);
            lemma_blen_skip(t, next);
            lemma_here_within(f, re, rest, Seq::empty(), 0);
            lemma_range_group_tail_within(f, patt, re, min_times, max_times, t, min, index + 1, next);
        }
    }
}

proof fn lemma_star_within(fuel: nat, c: Seq<char>, re: Seq<Seq<char>>, t: Seq<char>, min: i32, index: int)
    requires
        blen(t) <= i32::MAX,
        0 <= index,
    ensures
        within(match_star(fuel, c, re, t, min, index), t.len() as int),
    decreases fuel, 0nat,
{
    lemma_blen_len(t);
    if fuel > 0 && blen(t) >= index {
        let f = (fuel - 1) as nat;
        let stop = if index > 0 {
            run_stops(c, t, index)
        } else {
            Some(false)
        };
        if stop == Some(false) {
            assert(index <= t.len());
            let rest = skip_chars(t, index);
            lemma_blen_skip(t, index);
            lemma_here_within(f, re, rest, Seq::empty(), 0);
            lemma_star_within(f, c, re, t, min, index + 1);
        }
    }
}

proof fn lemma_star_group_within(fuel: nat, patt: Seq<Seq<char>>, re: Seq<Seq<char>>, t: Seq<char>, min: i32, index: int, consumed: int)
    requires
        blen(t) <= i32::MAX,
        0 <= consumed <= t.len(),
    ensures
        within(match_star_group(fuel, patt, re, t, min, index, consumed), t.len() as int),
    decreases fuel, 0nat,
{
    lemma_blen_len(t);
    if fuel > 0 && blen(t) > consumed {
        let f = (fuel - 1) as nat;
        lemma_group_round_within(f, patt, t, consumed);
        let round = if index > 0 {
            group_round(f, patt, t, consumed)
        } else {
            Some(Some(consumed))
        };
        if let Some(Some(next)) = round {
            let rest = skip_chars(t, next);
            lemma_blen_skip(t, next);
            lemma_here_within(f, re, rest, Seq::empty(), 0);
            lemma_star_group_within(f, patt, re, t, min, index + 1, next);
        }
    }
}

} // verus!
