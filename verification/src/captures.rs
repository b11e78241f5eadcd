//! What a match step does to the captures of groups: it keeps those that
//! were there, and only groups and alternations add new ones.
use vstd::prelude::*;

use crate::helpers::{decimal_digit, options_of, spec_is_digit, split_pattern};
use crate::semantics::{
    add_i32, alternation_loop, backref_case, fits_i32, group_loop, group_next, is_group_marker, match_here,
    match_range, match_range_group, optional_case, range_case, range_group_case, range_max, truncated, with_captures, Captures, Outcome,
};
use crate::text::{blen, char_at, char_or_space, skip_chars, take_chars};

verus! {

/// `after` holds every capture of `before`, unchanged and in place, and
/// possibly more after them.
pub open spec fn keeps_captures(before: Captures, after: Captures) -> bool {
    before.len() <= after.len() && after.take(before.len() as int) == before
}

/// The captures a step ends with, if it finishes, keep those of `refs`.
pub open spec fn kept_by(r: Outcome, refs: Captures) -> bool {
    r matches Some((_, _, after)) ==> keeps_captures(refs, after)
}

proof fn lemma_keeps_refl(a: Captures)
    ensures
        keeps_captures(a, a),
{
    assert(a.take(a.len() as int) =~= a);
}

proof fn lemma_keeps_trans(a: Captures, b: Captures, c: Captures)
    requires
        keeps_captures(a, b),
        keeps_captures(b, c),
    ensures
        keeps_captures(a, c),
{
    assert(c.take(a.len() as int) =~= b.take(a.len() as int));
}

proof fn lemma_keeps_prefix(a: Captures, slot: int)
    requires
        0 <= slot <= a.len(),
    ensures
        keeps_captures(a.take(slot), a),
        truncated(a, slot) == a.take(slot),
{
    assert(a.take(slot).len() == slot);
    assert(a.take(slot) =~= a.take(slot));
    if slot == a.len() {
        assert(a.take(slot) =~= a);
    }
}

proof fn lemma_keeps_push(a: Captures)
    ensures
        keeps_captures(a, a.push(None)),
{
    assert(a.push(None).take(a.len() as int) =~= a);
}

proof fn lemma_keeps_update(a: Captures, b: Captures, slot: int, x: Option<Seq<char>>)
    requires
        keeps_captures(a, b),
        a.len() == slot,
        0 <= slot < b.len(),
    ensures
        keeps_captures(a, b.update(slot, x)),
{
    assert(b.update(slot, x).take(slot) =~= b.take(slot));
}

/// A match step keeps every capture present before it, unchanged and in
/// place; it may only add captures after them.
pub proof fn law_captures_kept(fuel: nat, re: Seq<Seq<char>>, t: Seq<char>, refs: Captures, min: i32)
    ensures
        kept_by(match_here(fuel, re, t, refs, min), refs),
    decreases fuel, 2nat,
{
    lemma_keeps_refl(refs);
    if fuel == 0 || re.len() == 0 {
    } else if re.len() >= 3 && is_group_marker(re[0]) && re[2] == seq!['*'] {
    } else if re.len() >= 2 && char_or_space(re[1], 0) == '{' {
        lemma_range_case_unchanged(fuel, re[0], re[1], re.skip(2), t, refs, min);
    } else if re.len() >= 3 && is_group_marker(re[0]) && char_or_space(re[2], 0) == '{' {
        lemma_range_group_case_unchanged(fuel, re.take(2), re[2], re.skip(3), t, refs, min);
    } else if blen(re[0]) > 1 && char_at(re[0], 0) == Some('\\') && (match char_at(re[0], 1) {
        Some(d) => spec_is_digit(d),
        None => false,
    }) {
        lemma_backref_kept(fuel, re, t, refs);
    } else if re[0] == seq!['('] {
        if re.len() > 1 {
            if let Some(inner) = split_pattern(re[1]) {
                lemma_keeps_prefix(refs, refs.len() as int);
                lemma_group_loop_kept(fuel, re, inner, t, refs, min, 0, refs.len() as int);
            }
        }
    } else if re[0] == seq!['|'] {
        if re.len() > 1 {
            lemma_keeps_prefix(refs, refs.len() as int);
            lemma_alternation_kept(fuel, re, options_of(re[1]), 0, t, refs, refs.len() as int);
        }
    } else if re.len() >= 2 && re[1] == seq!['?'] {
        lemma_optional_kept(fuel, re, t, refs);
    } else if re.len() >= 2 && re[1] == seq!['+'] {
    } else if re.len() >= 2 && re[1] == seq!['*'] {
    } else if re.len() == 1 && re[0] == seq!['$'] {
    } else if t.len() > 0 {
        if fits_i32(min - 1) {
            law_captures_kept((fuel - 1) as nat, re.skip(1), t.skip(1), refs, (min - 1) as i32);
        }
    }
}

proof fn lemma_range_case_unchanged(fuel: nat, c: Seq<char>, tok: Seq<char>, rest: Seq<Seq<char>>, t: Seq<char>, refs: Captures, min: i32)
    ensures
        range_case(fuel, c, tok, rest, t, refs, min) matches Some((_, _, after)) ==> after == refs,
    decreases fuel, 1nat,
{
    lemma_keeps_refl(refs);
    if let Some(times) = decimal_digit(char_or_space(tok, 1)) {
        if char_or_space(tok, 2) == ',' {
            if let Some(max) = range_max(tok, t) {
                assert(range_case(fuel, c, tok, rest, t, refs, min) == with_captures(
                    match_range(fuel, c, rest, times as i32, max, t, min, 0),
                    refs,
                ));
            }
        }
    }
}

proof fn lemma_range_group_case_unchanged(fuel: nat, patt: Seq<Seq<char>>, tok: Seq<char>, rest: Seq<Seq<char>>, t: Seq<char>, refs: Captures, min: i32)
    ensures
        range_group_case(fuel, patt, tok, rest, t, refs, min) matches Some((_, _, after)) ==> after == refs,
    decreases fuel, 1nat,
{
    lemma_keeps_refl(refs);
    if let Some(times) = decimal_digit(char_or_space(tok, 1)) {
        if char_or_space(tok, 2) == ',' {
            if let Some(max) = range_max(tok, t) {
                assert(range_group_case(fuel, patt, tok, rest, t, refs, min) == with_captures(
                    match_range_group(fuel, patt, rest, times as i32, max, t, min, 0, 0),
                    refs,
                ));
            }
        }
    }
}

proof fn lemma_backref_kept(fuel: nat, re: Seq<Seq<char>>, t: Seq<char>, refs: Captures)
    requires
        re.len() >= 1,
    ensures
        kept_by(backref_case(fuel, re, t, refs), refs),
    decreases fuel, 1nat,
{
    lemma_keeps_refl(refs);
    if fuel > 0 {
        let f = (fuel - 1) as nat;
        let r = backref_case(fuel, re, t, refs);
        if let Some((_, _, after)) = r {
            if after != refs {
                let n = decimal_digit(re[0][1])->0;
                let captured = refs[n - 1]->0;
                let cre = split_pattern(captured)->0;
                law_captures_kept(f, cre, t, refs, 0);
                let (res, index, refs1) = match_here(f, cre, t, refs, 0)->0;
                if re.len() > 1 {
                    law_captures_kept(f, re.skip(1), skip_chars(t, (index as usize) as int), refs1, 0);
                    let refs2 = (match_here(f, re.skip(1), skip_chars(t, (index as usize) as int), refs1, 0)->0).2;
                    lemma_keeps_trans(refs, refs1, refs2);
                }
            }
        }
    }
}

proof fn lemma_group_loop_kept(fuel: nat, re: Seq<Seq<char>>, inner: Seq<Seq<char>>, t: Seq<char>, refs: Captures, min: i32, added: int, slot: int)
    requires
        re.len() >= 2,
        0 <= slot <= refs.len(),
    ensures
        kept_by(group_loop(fuel, re, inner, t, refs, min, added, slot), refs.take(slot)),
    decreases fuel, 0nat,
{
    lemma_keeps_prefix(refs, slot);
    if fuel > 0 && added <= blen(t) {
        let f = (fuel - 1) as nat;
        let start = refs.push(None);
        law_captures_kept(f, inner, t, start, (added as usize) as i32);
        lemma_keeps_push(refs);
        lemma_keeps_trans(refs.take(slot), refs, start);
        if let Some((res, index, refs1)) = match_here(f, inner, t, start, (added as usize) as i32) {
            lemma_keeps_trans(refs.take(slot), start, refs1);
            if res && 0 <= slot < refs1.len() {
                let refs2 = refs1.update(slot, Some(take_chars(t, (index as usize) as int)));
                lemma_keeps_update(refs.take(slot), refs1, slot, Some(take_chars(t, (index as usize) as int)));
                assert(refs2.take(slot) == refs.take(slot));
                lemma_group_next_kept(f, re, inner, t, refs2, min, added, slot);
                if re.len() != 2 {
                    if let Some(rest_min) = add_i32(min as int, -(index as int)) {
                        let rest_t = skip_chars(t, (index as usize) as int);
                        law_captures_kept(f, re.skip(2), rest_t, refs2, rest_min);
                        if let Some((r, i, refs3)) = match_here(f, re.skip(2), rest_t, refs2, rest_min) {
                            lemma_keeps_trans(refs.take(slot), refs2, refs3);
                            assert(refs3.take(slot) =~= refs.take(slot));
                            lemma_group_next_kept(f, re, inner, t, refs3, min, added, slot);
                        }
                    }
                }
            }
        }
    }
}

proof fn lemma_group_next_kept(fuel: nat, re: Seq<Seq<char>>, inner: Seq<Seq<char>>, t: Seq<char>, refs: Captures, min: i32, added: int, slot: int)
    requires
        re.len() >= 2,
        0 <= slot <= refs.len(),
    ensures
        kept_by(group_next(fuel, re, inner, t, refs, min, added, slot), refs.take(slot)),
    decreases fuel, 1nat,
{
    lemma_keeps_prefix(refs, slot);
    let cut = truncated(refs, slot);
    assert(cut.take(slot) =~= refs.take(slot));
    if added + 1 <= usize::MAX {
        lemma_group_loop_kept(fuel, re, inner, t, cut, min, added + 1, slot);
    }
}

proof fn lemma_alternation_kept(fuel: nat, re: Seq<Seq<char>>, options: Seq<Seq<char>>, k: int, t: Seq<char>, refs: Captures, slot: int)
    requires
        re.len() >= 2,
        0 <= slot <= refs.len(),
    ensures
        kept_by(alternation_loop(fuel, re, options, k, t, refs, slot), refs.take(slot)),
    decreases fuel, 0nat,
{
    lemma_keeps_prefix(refs, slot);
    let cut = truncated(refs, slot);
    lemma_keeps_refl(cut);
    if fuel > 0 && 0 <= k < options.len() {
        let f = (fuel - 1) as nat;
        if let Some(alt) = split_pattern(options[k]) {
            let start = cut.push(None);
            lemma_keeps_push(cut);
            law_captures_kept(f, alt, t, start, 0);
            if let Some((res, index, refs1)) = match_here(f, alt, t, start, 0) {
                lemma_keeps_trans(cut, start, refs1);
                assert(refs1.take(slot) =~= refs.take(slot));
                lemma_alternation_kept(f, re, options, k + 1, t, refs1, slot);
                if res && 0 <= slot < refs1.len() {
                    let x = Some(take_chars(t, (index as usize) as int));
                    let refs2 = refs1.update(slot, x);
                    lemma_keeps_update(cut, refs1, slot, x);
                    if re.len() != 2 {
                        let rest_t = skip_chars(t, (index as usize) as int);
                        law_captures_kept(f, re.skip(2), rest_t, refs2, 0);
                        if let Some((r, i, refs3)) = match_here(f, re.skip(2), rest_t, refs2, 0) {
                            lemma_keeps_trans(cut, refs2, refs3);
                            assert(refs3.take(slot) =~= refs.take(slot));
                            lemma_alternation_kept(f, re, options, k + 1, t, refs3, slot);
                        }
                    }
                }
            }
        }
    }
}

proof fn lemma_optional_kept(fuel: nat, re: Seq<Seq<char>>, t: Seq<char>, refs: Captures)
    requires
        re.len() >= 2,
    ensures
        kept_by(optional_case(fuel, re, t, refs), refs),
    decreases fuel, 1nat,
{
    lemma_keeps_refl(refs);
    if fuel > 0 && re.len() != 2 {
        let f = (fuel - 1) as nat;
        law_captures_kept(f, re.skip(2), t, refs, 0);
        if let Some((res, pos, refs1)) = match_here(f, re.skip(2), t, refs, 0) {
            let t1 = skip_chars(t, 1);
            law_captures_kept(f, re.skip(2), t1, refs1, 0);
            if let Some((res2, pos2, refs2)) = match_here(f, re.skip(2), t1, refs1, 0) {
                lemma_keeps_trans(refs, refs1, refs2);
            }
        }
    }
}

/// A back reference token `\n`.
pub open spec fn is_backref_token(tok: Seq<char>) -> bool {
    blen(tok) > 1 && char_at(tok, 0) == Some('\\') && (match char_at(tok, 1) {
        Some(d) => spec_is_digit(d),
        None => false,
    })
}

/// No token of `re` opens a group or an alternation, or refers back to one.
pub open spec fn captures_nothing(re: Seq<Seq<char>>) -> bool {
    forall|k: int| 0 <= k < re.len() ==> !is_group_marker(#[trigger] re[k]) && !is_backref_token(re[k])
}

proof fn lemma_captures_nothing_skip(re: Seq<Seq<char>>, n: int)
    requires
        captures_nothing(re),
        0 <= n <= re.len(),
    ensures
        captures_nothing(re.skip(n)),
{
    assert forall|k: int| 0 <= k < re.skip(n).len() implies !is_group_marker(#[trigger] re.skip(n)[k])
        && !is_backref_token(re.skip(n)[k]) by {
        assert(re.skip(n)[k] == re[n + k]);
    }
}

/// Without a group, an alternation or a back reference among its tokens, a
/// match step leaves the captures exactly as they were.
pub proof fn law_captures_unchanged(fuel: nat, re: Seq<Seq<char>>, t: Seq<char>, refs: Captures, min: i32)
    requires
        captures_nothing(re),
    ensures
        match_here(fuel, re, t, refs, min) matches Some((_, _, after)) ==> after == refs,
    decreases fuel, 2nat,
{
    if re.len() > 0 {
        assert(!is_group_marker(re[0]) && !is_backref_token(re[0]));
    }
    if fuel == 0 || re.len() == 0 {
    } else if re.len() >= 3 && is_group_marker(re[0]) && re[2] == seq!['*'] {
    } else if re.len() >= 2 && char_or_space(re[1], 0) == '{' {
        lemma_range_case_unchanged(fuel, re[0], re[1], re.skip(2), t, refs, min);
    } else if re.len() >= 3 && is_group_marker(re[0]) && char_or_space(re[2], 0) == '{' {
        lemma_range_group_case_unchanged(fuel, re.take(2), re[2], re.skip(3), t, refs, min);
    } else if re.len() >= 2 && re[1] == seq!['?'] {
        lemma_captures_nothing_skip(re, 2);
        lemma_optional_unchanged(fuel, re, t, refs);
    } else if re.len() >= 2 && re[1] == seq!['+'] {
    } else if re.len() >= 2 && re[1] == seq!['*'] {
    } else if re.len() == 1 && re[0] == seq!['$'] {
    } else if t.len() > 0 {
        lemma_captures_nothing_skip(re, 1);
        if fits_i32(min - 1) {
            law_captures_unchanged((fuel - 1) as nat, re.skip(1), t.skip(1), refs, (min - 1) as i32);
        }
    }
}

proof fn lemma_optional_unchanged(fuel: nat, re: Seq<Seq<char>>, t: Seq<char>, refs: Captures)
    requires
        re.len() >= 2,
        captures_nothing(re.skip(2)),
    ensures
        optional_case(fuel, re, t, refs) matches Some((_, _, after)) ==> after == refs,
    decreases fuel, 1nat,
{
    if fuel > 0 && re.len() != 2 {
        let f = (fuel - 1) as nat;
        law_captures_unchanged(f, re.skip(2), t, refs, 0);
        law_captures_unchanged(f, re.skip(2), skip_chars(t, 1), refs, 0);
    }
}

} // verus!
