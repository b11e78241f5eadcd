//! The search's result does not depend on the step budget it is given: any
//! budget within which it finishes gives the same result.
use vstd::prelude::*;

use crate::helpers::{decimal_digit, options_of, spec_is_digit, split_pattern};
use crate::semantics::{add_i32, advance, alternation_loop, backref_case, first_accepted, fits_i32, group_loop, group_next, group_round, is_group_marker, match_here, match_plus, match_range, match_range_group, match_star, match_star_group, matches_of, matches_within, optional_case, range_case, range_group_case, range_group_tail, range_max, range_tail, scan_from, search_finishes, search_fuel, truncated, Captures};
use crate::text::{blen, char_at, char_or_space, skip_chars, take_chars};

verus! {

pub proof fn lemma_here_budget(f1: nat, f2: nat, re: Seq<Seq<char>>, t: Seq<char>, refs: Captures, min: i32)
    requires
        f1 <= f2,
    ensures
        match_here(f1, re, t, refs, min) is Some ==> match_here(f2, re, t, refs, min) == match_here(f1, re, t, refs, min),
    decreases f1, 2nat,
{
    if f1 == 0 || re.len() == 0 {
    } else if re.len() >= 3 && is_group_marker(re[0]) && re[2] == seq!['*'] {
        lemma_star_group_budget(f1, f2, re.take(2), re.skip(3), t, min, 0, 0);
    } else if re.len() >= 2 && char_or_space(re[1], 0) == '{' {
        lemma_range_case_budget(f1, f2, re[0], re[1], re.skip(2), t, refs, min);
    } else if re.len() >= 3 && is_group_marker(re[0]) && char_or_space(re[2], 0) == '{' {
        lemma_range_group_case_budget(f1, f2, re.take(2), re[2], re.skip(3), t, refs, min);
    } else if blen(re[0]) > 1 && char_at(re[0], 0) == Some('\\') && (match char_at(re[0], 1) {
        Some(d) => spec_is_digit(d),
        None => false,
    }) {
        lemma_backref_budget(f1, f2, re, t, refs);
    } else if re[0] == seq!['('] {
        if re.len() > 1 {
            if let Some(inner) = split_pattern(re[1]) {
                lemma_group_loop_budget(f1, f2, re, inner, t, refs, min, 0, refs.len() as int);
            }
        }
    } else if re[0] == seq!['|'] {
        if re.len() > 1 {
            lemma_alternation_budget(f1, f2, re, options_of(re[1]), 0, t, refs, refs.len() as int);
        }
    } else if re.len() >= 2 && re[1] == seq!['?'] {
        lemma_optional_budget(f1, f2, re, t, refs);
    } else if re.len() >= 2 && re[1] == seq!['+'] {
        if !(re.len() == 2 && min <= 1) {
            lemma_plus_budget(f1, f2, re[0], re.skip(2), t, min, 0);
        }
    } else if re.len() >= 2 && re[1] == seq!['*'] {
        if !(re.len() == 2 && min <= 0) {
            lemma_star_budget(f1, f2, re[0], re.skip(2), t, min, 0);
        }
    } else if re.len() == 1 && re[0] == seq!['$'] {
    } else if t.len() > 0 {
        if fits_i32(min - 1) {
            lemma_here_budget((f1 - 1) as nat, (f2 - 1) as nat, re.skip(1), t.skip(1), refs, (min - 1) as i32);
        }
    }
}

proof fn lemma_range_case_budget(f1: nat, f2: nat, c: Seq<char>, tok: Seq<char>, rest: Seq<Seq<char>>, t: Seq<char>, refs: Captures, min: i32)
    requires
        f1 <= f2,
    ensures
        range_case(f1, c, tok, rest, t, refs, min) is Some ==> range_case(f2, c, tok, rest, t, refs, min) == range_case(f1, c, tok, rest, t, refs, min),
    decreases f1, 1nat,
{
    if let Some(times) = decimal_digit(char_or_space(tok, 1)) {
        if char_or_space(tok, 2) == ',' {
            if let Some(max) = range_max(tok, t) {
                lemma_range_budget(f1, f2, c, rest, times as i32, max, t, min, 0);
            }
        } else {
            lemma_range_budget(f1, f2, c, rest, times as i32, times as i32, t, min, 0);
        }
    }
}

proof fn lemma_range_group_case_budget(f1: nat, f2: nat, patt: Seq<Seq<char>>, tok: Seq<char>, rest: Seq<Seq<char>>, t: Seq<char>, refs: Captures, min: i32)
    requires
        f1 <= f2,
    ensures
        range_group_case(f1, patt, tok, rest, t, refs, min) is Some ==> range_group_case(f2, patt, tok, rest, t, refs, min)
            == range_group_case(f1, patt, tok, rest, t, refs, min),
    decreases f1, 1nat,
{
    if let Some(times) = decimal_digit(char_or_space(tok, 1)) {
        if char_or_space(tok, 2) == ',' {
            if let Some(max) = range_max(tok, t) {
                lemma_range_group_budget(f1, f2, patt, rest, times as i32, max, t, min, 0, 0);
            }
        } else {
            lemma_range_group_budget(f1, f2, patt, rest, times as i32, times as i32, t, min, 0, 0);
        }
    }
}

proof fn lemma_backref_budget(f1: nat, f2: nat, re: Seq<Seq<char>>, t: Seq<char>, refs: Captures)
    requires
        f1 <= f2,
    ensures
        backref_case(f1, re, t, refs) is Some ==> backref_case(f2, re, t, refs) == backref_case(f1, re, t, refs),
    decreases f1, 1nat,
{
    if f1 > 0 {
        let g1 = (f1 - 1) as nat;
        let g2 = (f2 - 1) as nat;
        if let Some(n) = decimal_digit(re[0][1]) {
            if !(n > (refs.len() as u32)) && n != 0 {
                if let Some(captured) = refs[n - 1] {
                    if let Some(cre) = split_pattern(captured) {
                        lemma_here_budget(g1, g2, cre, t, refs, 0);
                        if let Some((res, index, refs1)) = match_here(g1, cre, t, refs, 0) {
                            if re.len() != 1 {
                                lemma_here_budget(g1, g2, re.skip(1), skip_chars(t, (index as usize) as int), refs1, 0);
                            }
                        }
                    }
                }
            }
        }
    }
}

proof fn lemma_group_loop_budget(f1: nat, f2: nat, re: Seq<Seq<char>>, inner: Seq<Seq<char>>, t: Seq<char>, refs: Captures, min: i32, added: int, slot: int)
    requires
        f1 <= f2,
    ensures
        group_loop(f1, re, inner, t, refs, min, added, slot) is Some ==> group_loop(f2, re, inner, t, refs, min, added, slot)
            == group_loop(f1, re, inner, t, refs, min, added, slot),
    decreases f1, 0nat,
{
    if f1 > 0 && added <= blen(t) {
        let g1 = (f1 - 1) as nat;
        let g2 = (f2 - 1) as nat;
        lemma_here_budget(g1, g2, inner, t, refs.push(None), (added as usize) as i32);
        if let Some((res, index, refs1)) = match_here(g1, inner, t, refs.push(None), (added as usize) as i32) {
            if res && 0 <= slot < refs1.len() {
                let refs2 = refs1.update(slot, Some(take_chars(t, (index as usize) as int)));
                if re.len() == 2 {
                    lemma_group_next_budget(g1, g2, re, inner, t, refs2, min, added, slot);
                } else if let Some(rest_min) = add_i32(min as int, -(index as int)) {
                    let rest = skip_chars(t, (index as usize) as int);
                    lemma_here_budget(g1, g2, re.skip(2), rest, refs2, rest_min);
                    if let Some((r, i, refs3)) = match_here(g1, re.skip(2), rest, refs2, rest_min) {
                        lemma_group_next_budget(g1, g2, re, inner, t, refs3, min, added, slot);
                    }
                }
            }
        }
    }
}

proof fn lemma_group_next_budget(f1: nat, f2: nat, re: Seq<Seq<char>>, inner: Seq<Seq<char>>, t: Seq<char>, refs: Captures, min: i32, added: int, slot: int)
    requires
        f1 <= f2,
    ensures
        group_next(f1, re, inner, t, refs, min, added, slot) is Some ==> group_next(f2, re, inner, t, refs, min, added, slot)
            == group_next(f1, re, inner, t, refs, min, added, slot),
    decreases f1, 1nat,
{
    lemma_group_loop_budget(f1, f2, re, inner, t, truncated(refs, slot), min, added + 1, slot);
}

proof fn lemma_alternation_budget(f1: nat, f2: nat, re: Seq<Seq<char>>, options: Seq<Seq<char>>, k: int, t: Seq<char>, refs: Captures, slot: int)
    requires
        f1 <= f2,
    ensures
        alternation_loop(f1, re, options, k, t, refs, slot) is Some ==> alternation_loop(f2, re, options, k, t, refs, slot)
            == alternation_loop(f1, re, options, k, t, refs, slot),
    decreases f1, 0nat,
{
    if f1 > 0 && 0 <= k < options.len() {
        let g1 = (f1 - 1) as nat;
        let g2 = (f2 - 1) as nat;
        if let Some(alt) = split_pattern(options[k]) {
            let start = truncated(refs, slot).push(None);
            lemma_here_budget(g1, g2, alt, t, start, 0);
            if let Some((res, index, refs1)) = match_here(g1, alt, t, start, 0) {
                if !res {
                    lemma_alternation_budget(g1, g2, re, options, k + 1, t, refs1, slot);
                } else if 0 <= slot < refs1.len() && re.len() != 2 {
                    let refs2 = refs1.update(slot, Some(take_chars(t, (index as usize) as int)));
                    let rest = skip_chars(t, (index as usize) as int);
                    lemma_here_budget(g1, g2, re.skip(2), rest, refs2, 0);
                    if let Some((r, i, refs3)) = match_here(g1, re.skip(2), rest, refs2, 0) {
                        lemma_alternation_budget(g1, g2, re, options, k + 1, t, refs3, slot);
                    }
                }
            }
        }
    }
}

proof fn lemma_optional_budget(f1: nat, f2: nat, re: Seq<Seq<char>>, t: Seq<char>, refs: Captures)
    requires
        f1 <= f2,
    ensures
        optional_case(f1, re, t, refs) is Some ==> optional_case(f2, re, t, refs) == optional_case(f1, re, t, refs),
    decreases f1, 1nat,
{
    if f1 > 0 && re.len() != 2 {
        let g1 = (f1 - 1) as nat;
        let g2 = (f2 - 1) as nat;
        lemma_here_budget(g1, g2, re.skip(2), t, refs, 0);
        if let Some((res, pos, refs1)) = match_here(g1, re.skip(2), t, refs, 0) {
            if first_accepted(t, re[0]) == Some(true) {
                lemma_here_budget(g1, g2, re.skip(2), skip_chars(t, 1), refs1, 0);
            }
        }
    }
}

proof fn lemma_plus_budget(f1: nat, f2: nat, c: Seq<char>, re: Seq<Seq<char>>, t: Seq<char>, min: i32, index: int)
    requires
        f1 <= f2,
    ensures
        match_plus(f1, c, re, t, min, index) is Some ==> match_plus(f2, c, re, t, min, index) == match_plus(f1, c, re, t, min, index),
    decreases f1, 0nat,
{
    if f1 > 0 {
        let g1 = (f1 - 1) as nat;
        let g2 = (f2 - 1) as nat;
        lemma_here_budget(g1, g2, re, skip_chars(t, index + 1), Seq::empty(), 0);
        lemma_plus_budget(g1, g2, c, re, t, min, index + 1);
    }
}

proof fn lemma_range_budget(f1: nat, f2: nat, c: Seq<char>, re: Seq<Seq<char>>, min_times: i32, max_times: i32, t: Seq<char>, min: i32, index: int)
    requires
        f1 <= f2,
    ensures
        match_range(f1, c, re, min_times, max_times, t, min, index) is Some ==> match_range(f2, c, re, min_times, max_times, t, min, index)
            == match_range(f1, c, re, min_times, max_times, t, min, index),
    decreases f1, 0nat,
{
    if f1 > 0 {
        let g1 = (f1 - 1) as nat;
        let g2 = (f2 - 1) as nat;
        lemma_range_budget(g1, g2, c, re, min_times, max_times, t, min, index + 1);
        lemma_range_tail_budget(g1, g2, c, re, min_times, max_times, t, min, index);
    }
}

proof fn lemma_range_tail_budget(f1: nat, f2: nat, c: Seq<char>, re: Seq<Seq<char>>, min_times: i32, max_times: i32, t: Seq<char>, min: i32, index: int)
    requires
        f1 <= f2,
    ensures
        range_tail(f1, c, re, min_times, max_times, t, min, index) is Some ==> range_tail(f2, c, re, min_times, max_times, t, min, index)
            == range_tail(f1, c, re, min_times, max_times, t, min, index),
    decreases f1, 0nat,
{
    if f1 > 0 {
        let g1 = (f1 - 1) as nat;
        let g2 = (f2 - 1) as nat;
        lemma_here_budget(g1, g2, re, skip_chars(t, index), Seq::empty(), 0);
        lemma_range_tail_budget(g1, g2, c, re, min_times, max_times, t, min, index + 1);
    }
}

proof fn lemma_round_budget(f1: nat, f2: nat, patt: Seq<Seq<char>>, t: Seq<char>, consumed: int)
    requires
        f1 <= f2,
    ensures
        group_round(f1, patt, t, consumed) is Some ==> group_round(f2, patt, t, consumed) == group_round(f1, patt, t, consumed),
    decreases f1, 3nat,
{
    lemma_here_budget(f1, f2, patt, skip_chars(t, consumed), Seq::empty(), 0);
}

proof fn lemma_range_group_budget(f1: nat, f2: nat, patt: Seq<Seq<char>>, re: Seq<Seq<char>>, min_times: i32, max_times: i32, t: Seq<char>, min: i32, index: int, consumed: int)
    requires
        f1 <= f2,
    ensures
        match_range_group(f1, patt, re, min_times, max_times, t, min, index, consumed) is Some ==> match_range_group(
            f2,
            patt,
            re,
            min_times,
            max_times,
            t,
            min,
            index,
            consumed,
        ) == match_range_group(f1, patt, re, min_times, max_times, t, min, index, consumed),
    decreases f1, 0nat,
{
    if f1 > 0 {
        let g1 = (f1 - 1) as nat;
        let g2 = (f2 - 1) as nat;
        let rest = skip_chars(t, consumed);
        lemma_here_budget(g1, g2, patt, rest, Seq::empty(), 0);
        if let Some((ok, n, _)) = match_here(g1, patt, rest, Seq::empty(), 0) {
            if let Some(next) = advance(consumed, n) {
                lemma_range_group_budget(g1, g2, patt, re, min_times, max_times, t, min, index + 1, next);
            }
        }
        lemma_range_group_tail_budget(g1, g2, patt, re, min_times, max_times, t, min, index, consumed);
    }
}

proof fn lemma_range_group_tail_budget(f1: nat, f2: nat, patt: Seq<Seq<char>>, re: Seq<Seq<char>>, min_times: i32, max_times: i32, t: Seq<char>, min: i32, index: int, consumed: int)
    requires
        f1 <= f2,
    ensures
        range_group_tail(f1, patt, re, min_times, max_times, t, min, index, consumed) is Some ==> range_group_tail(
            f2,
            patt,
            re,
            min_times,
            max_times,
            t,
            min,
            index,
            consumed,
        ) == range_group_tail(f1, patt, re, min_times, max_times, t, min, index, consumed),
    decreases f1, 0nat,
{
    if f1 > 0 {
        let g1 = (f1 - 1) as nat;
        let g2 = (f2 - 1) as nat;
        lemma_round_budget(g1, g2, patt, t, consumed);
        let round = if index > (min_times as usize) as int {
            group_round(g1, patt, t, consumed)
        } else {
            Some(Some(consumed))
        };
        if let Some(Some(next)) = round {
            lemma_here_budget(g1, g2, re, skip_chars(t, next), Seq::empty(), 0);
            lemma_range_group_tail_budget(g1, g2, patt, re, min_times, max_times, t, min, index + 1, next);
        }
    }
}

proof fn lemma_star_budget(f1: nat, f2: nat, c: Seq<char>, re: Seq<Seq<char>>, t: Seq<char>, min: i32, index: int)
    requires
        f1 <= f2,
    ensures
        match_star(f1, c, re, t, min, index) is Some ==> match_star(f2, c, re, t, min, index) == match_star(f1, c, re, t, min, index),
    decreases f1, 0nat,
{
    if f1 > 0 {
        let g1 = (f1 - 1) as nat;
        let g2 = (f2 - 1) as nat;
        lemma_here_budget(g1, g2, re, skip_chars(t, index), Seq::empty(), 0);
        lemma_star_budget(g1, g2, c, re, t, min, index + 1);
    }
}

proof fn lemma_star_group_budget(f1: nat, f2: nat, patt: Seq<Seq<char>>, re: Seq<Seq<char>>, t: Seq<char>, min: i32, index: int, consumed: int)
    requires
        f1 <= f2,
    ensures
        match_star_group(f1, patt, re, t, min, index, consumed) is Some ==> match_star_group(f2, patt, re, t, min, index, consumed)
            == match_star_group(f1, patt, re, t, min, index, consumed),
    decreases f1, 0nat,
{
    if f1 > 0 {
        let g1 = (f1 - 1) as nat;
        let g2 = (f2 - 1) as nat;
        lemma_round_budget(g1, g2, patt, t, consumed);
        let round = if index > 0 {
            group_round(g1, patt, t, consumed)
        } else {
            Some(Some(consumed))
        };
        if let Some(Some(next)) = round {
            lemma_here_budget(g1, g2, re, skip_chars(t, next), Seq::empty(), 0);
            lemma_star_group_budget(g1, g2, patt, re, t, min, index + 1, next);
        }
    }
}

proof fn lemma_scan_budget(f1: nat, f2: nat, re: Seq<Seq<char>>, t: Seq<char>, index: int, found: Seq<Seq<char>>)
    requires
        f1 <= f2,
    ensures
        scan_from(f1, re, t, index, found) is Some ==> scan_from(f2, re, t, index, found) == scan_from(f1, re, t, index, found),
    decreases f1,
{
    if f1 > 0 {
        let g1 = (f1 - 1) as nat;
        let g2 = (f2 - 1) as nat;
        let rest = skip_chars(t, index);
        lemma_here_budget(g1, g2, re, rest, Seq::empty(), 0);
        if let Some((res, len, _)) = match_here(g1, re, rest, Seq::empty(), 0) {
            if res && fits_i32(len - 1) {
                let step = if len - 1 > 0 {
                    len - 1
                } else {
                    0
                };
                let next = index + (step as usize) as int + 1;
                lemma_scan_budget(g1, g2, re, t, next, found.push(crate::semantics::found_at(t, index, len)));
            }
            lemma_scan_budget(g1, g2, re, t, index + 1, found);
        }
    }
}

/// A larger step budget gives the same matches as a smaller one within which
/// the search finishes.
pub proof fn law_budget_does_not_matter(f1: nat, f2: nat, p: Seq<char>, t: Seq<char>)
    requires
        f1 <= f2,
        matches_within(f1, p, t) is Some,
    ensures
        matches_within(f2, p, t) == matches_within(f1, p, t),
{
    let re = split_pattern(p)->0;
    if re.len() >= 2 && re[0] == seq!['^'] {
        lemma_here_budget(f1, f2, re.skip(1), t, Seq::empty(), 0);
    } else {
        lemma_scan_budget(f1, f2, re, t, 0, Seq::empty());
    }
}

/// Whatever budget the search finishes within, it finds `matches_of(p, t)`.
pub proof fn law_matches_of_any_budget(fuel: nat, p: Seq<char>, t: Seq<char>)
    requires
        matches_within(fuel, p, t) is Some,
    ensures
        search_finishes(p, t),
        matches_within(fuel, p, t) == Some(matches_of(p, t)),
{
    assert(search_finishes(p, t));
    let chosen = search_fuel(p, t);
    if fuel <= chosen {
        law_budget_does_not_matter(fuel, chosen, p, t);
    } else {
        law_budget_does_not_matter(chosen, fuel, p, t);
    }
}

} // verus!
