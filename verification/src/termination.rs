//! When the search of a starred group is sure to finish.
//!
//! The rounds of `(g)*` go on while unread text remains, and a round that
//! matches without consuming anything leaves the search where it was: on
//! `(a*)*` the loop never ends. When every round that matches consumes at
//! least one character, the loop ends after at most one round per byte.
use vstd::prelude::*;

use crate::budget::lemma_here_budget;
use crate::lengths::lemma_here_within;
use crate::semantics::{accept, group_round, match_here, match_star_group};
use crate::text::{blen, lemma_blen_len, lemma_blen_skip, skip_chars};

verus! {

/// At every point of `t`, the group `patt` and the rest `re` each finish
/// within `budget` steps, and a round of the group that matches there
/// consumes at least one character.
pub open spec fn rounds_progress(budget: nat, patt: Seq<Seq<char>>, re: Seq<Seq<char>>, t: Seq<char>) -> bool {
    forall|k: int|
        0 <= k <= t.len() ==> {
            &&& match_here(budget, patt, #[trigger] skip_chars(t, k), Seq::empty(), 0) is Some
            &&& match_here(budget, re, skip_chars(t, k), Seq::empty(), 0) is Some
            &&& (match_here(budget, patt, skip_chars(t, k), Seq::empty(), 0) matches Some((true, n, _)) ==> n >= 1)
        }
}

proof fn lemma_star_group_finishes(fuel: nat, budget: nat, patt: Seq<Seq<char>>, re: Seq<Seq<char>>, t: Seq<char>, min: i32, index: int, consumed: int)
    requires
        blen(t) <= i32::MAX,
        rounds_progress(budget, patt, re, t),
        0 <= consumed <= t.len(),
        0 <= index <= consumed + 1,
        fuel >= budget + 1 + (blen(t) - consumed) + (if index == 0 { 1int } else { 0int }),
    ensures
        match_star_group(fuel, patt, re, t, min, index, consumed) is Some,
    decreases fuel,
{
    lemma_blen_len(t);
    if blen(t) > consumed {
        let f = (fuel - 1) as nat;
        let here = skip_chars(t, consumed);
        lemma_blen_skip(t, consumed);
        assert(match_here(budget, patt, here, Seq::empty(), 0) is Some);
        lemma_here_budget(budget, f, patt, here, Seq::empty(), 0);
        lemma_here_within(budget, patt, here, Seq::empty(), 0);
        let next = if index > 0 {
            match match_here(budget, patt, here, Seq::empty(), 0) {
                Some((true, n, _)) => consumed + n,
                _ => consumed,
            }
        } else {
            consumed
        };
        if index > 0 && !(match_here(budget, patt, here, Seq::empty(), 0) matches Some((true, _, _))) {
        } else {
            let after = skip_chars(t, next);
            lemma_blen_skip(t, next);
            assert(match_here(budget, re, after, Seq::empty(), 0) is Some);
            lemma_here_budget(budget, f, re, after, Seq::empty(), 0);
            lemma_here_within(budget, re, after, Seq::empty(), 0);
            if index > 0 {
                assert(group_round(f, patt, t, consumed) == Some(Some(next)));
            }
            let (res, i, _) = match_here(f, re, after, Seq::empty(), 0)->0;
            assert(0 <= i <= t.len() - next);
            assert(accept(res, i, next, min) is Some);
            lemma_star_group_finishes(f, budget, patt, re, t, min, index + 1, next);
        }
    }
}

/// When at every point of the text the group and the rest each finish
/// within `budget` steps, and every round of the group that matches
/// consumes at least one character, the starred group finishes within
/// `budget + n + 2` steps, `n` the text's byte length: its loop makes at
/// most `n + 1` rounds.
pub proof fn law_star_group_finishes(budget: nat, patt: Seq<Seq<char>>, re: Seq<Seq<char>>, t: Seq<char>, min: i32)
    requires
        blen(t) <= i32::MAX,
        rounds_progress(budget, patt, re, t),
    ensures
        match_star_group((budget + blen(t) + 2) as nat, patt, re, t, min, 0, 0) is Some,
{
    lemma_blen_len(t);
    lemma_star_group_finishes((budget + blen(t) + 2) as nat, budget, patt, re, t, min, 0, 0);
}

} // verus!
