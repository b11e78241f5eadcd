//! What single steps of the search owe, stated by what they are given and
//! what they report: the classes `\w` and `\d`, the open bound of `{n,}`,
//! the length a back reference reports, and the alternatives of a group.
use vstd::prelude::*;

use crate::budget::lemma_here_budget;
use crate::captures::{is_backref_token, keeps_captures, law_captures_kept};
use crate::helpers::{decimal_digit, options_of, split_pattern};
use crate::semantics::{alternation_loop, truncated, backref_case, is_group_marker, Captures, contains_pair, match_here, match_range, match_token, range_case, range_max, range_tail, with_captures};
use crate::text::{blen, char_at, char_or_space, lemma_blen_len, skip_chars, take_chars};

verus! {

/// Among ASCII characters, `\w` accepts exactly the letters, the digits and
/// `_`, and `\d` exactly the digits.
pub proof fn law_word_and_digit_classes(c: char)
    requires
        (c as u32) < 0x80,
    ensures
        match_token(seq![c], seq!['\\', 'w']) == Some(
            ('a' <= c && c <= 'z') || ('A' <= c && c <= 'Z') || ('0' <= c && c <= '9') || c == '_',
        ),
        match_token(seq![c], seq!['\\', 'd']) == Some('0' <= c && c <= '9'),
{
    let w = seq!['\\', 'w'];
    let d = seq!['\\', 'd'];
    assert(contains_pair(w, '\\', 'w')) by {
        assert(w[0] == '\\' && w[1] == 'w');
    }
    assert(!contains_pair(w, '\\', 'd')) by {
        assert(w[1] == 'w');
    }
    assert(contains_pair(d, '\\', 'd')) by {
        assert(d[0] == '\\' && d[1] == 'd');
    }
    let input = seq![c];
    assert(input[0] == c);
    assert((c as u32 as int) % 256 == c as u32 as int);
}

proof fn lemma_run_then_nothing(fuel: nat, c: Seq<char>, n: i32, max: i32, t: Seq<char>, min: i32, j: int)
    requires
        0 <= j <= n <= t.len(),
        (max as usize) as int >= n,
        min <= n,
        forall|i: int| 0 <= i < n ==> match_token(seq![#[trigger] t[i]], c) == Some(true),
    ensures
        match_range(fuel, c, Seq::empty(), n, max, t, min, j) is Some ==> match_range(
            fuel,
            c,
            Seq::empty(),
            n,
            max,
            t,
            min,
            j,
        ) == Some((true, n)),
    decreases fuel,
{
    lemma_blen_len(t);
    if fuel > 0 {
        if j < n {
            assert(match_token(seq![t[j]], c) == Some(true));
            lemma_run_then_nothing((fuel - 1) as nat, c, n, max, t, min, j + 1);
        } else {
            let f = (fuel - 1) as nat;
            assert((n as usize) as int == n);
            assert((n as usize) as i32 == n);
            if f > 1 {
                let g = (f - 1) as nat;
                assert(match_here(g, Seq::empty(), skip_chars(t, n as int), Seq::empty(), 0) == Some(
                    (true, 0i32, Seq::<Option<Seq<char>>>::empty()),
                ));
                assert(range_tail(f, c, Seq::empty(), n, max, t, min, n as int) == Some((true, n)));
            }
        }
    }
}

/// `c{n,}` with nothing after it takes a run of `n` characters accepted by
/// `c` at the start of the text, however long the text: its open bound
/// reaches at least to the text's end, so a run ending there is not refused.
pub proof fn law_open_range_takes_the_run(fuel: nat, c: Seq<char>, d: char, t: Seq<char>, refs: crate::semantics::Captures, min: i32)
    requires
        decimal_digit(d) is Some,
        decimal_digit(d)->0 <= t.len(),
        blen(t) <= i32::MAX,
        min <= decimal_digit(d)->0,
        forall|i: int| 0 <= i < decimal_digit(d)->0 ==> match_token(seq![#[trigger] t[i]], c) == Some(true),
    ensures
        range_max(seq!['{', d, ','], t) matches Some(m) && (m as usize) as int >= blen(t),
        match_here(fuel, seq![c, seq!['{', d, ',']], t, refs, min) is Some ==> match_here(
            fuel,
            seq![c, seq!['{', d, ',']],
            t,
            refs,
            min,
        ) == Some((true, decimal_digit(d)->0 as i32, refs)),
{
    lemma_blen_len(t);
    let re = seq![c, seq!['{', d, ',']];
    let n = decimal_digit(d)->0 as i32;
    let tok = seq!['{', d, ','];
    assert(re.skip(2) =~= Seq::<Seq<char>>::empty());
    assert(re[0] == c && re[1] == tok);
    assert(char_or_space(tok, 0) == '{' && char_or_space(tok, 1) == d && char_or_space(tok, 2) == ',');
    assert(char_or_space(tok, 3) == ' ');
    assert(range_max(tok, t) == Some(blen(t) as i32));
    assert(((blen(t) as i32) as usize) as int == blen(t));
    lemma_run_then_nothing(fuel, c, n, blen(t) as i32, t, min, 0);
    assert(range_case(fuel, c, tok, re.skip(2), t, refs, min) == with_captures(
        match_range(fuel, c, Seq::empty(), n, blen(t) as i32, t, min, 0),
        refs,
    ));
}

/// Two runs of a step that both finish give the same result, whatever
/// budgets they had.
pub proof fn lemma_finished_runs_agree(f1: nat, f2: nat, re: Seq<Seq<char>>, t: Seq<char>, refs: crate::semantics::Captures, min: i32)
    requires
        match_here(f1, re, t, refs, min) is Some,
        match_here(f2, re, t, refs, min) is Some,
    ensures
        match_here(f1, re, t, refs, min) == match_here(f2, re, t, refs, min),
{
    if f1 <= f2 {
        lemma_here_budget(f1, f2, re, t, refs, min);
    } else {
        lemma_here_budget(f2, f1, re, t, refs, min);
    }
}

/// A back reference `\n` followed by more tokens reports the length the
/// captured text matched (read as a pattern) plus the length the tokens
/// after it matched on the text after that: when the captured text of group
/// `n` matches `index` characters at the start of `t`, and the rest matches
/// `i` characters after them, the step reports `index + i`, with the rest's
/// verdict and captures.
pub proof fn law_back_reference_length(
    fuel: nat,
    tok: Seq<char>,
    rest: Seq<Seq<char>>,
    t: Seq<char>,
    refs: Captures,
    min: i32,
    n: u32,
    captured: Seq<char>,
    cre: Seq<Seq<char>>,
    f: nat,
    res: bool,
    index: i32,
    refs1: Captures,
    r: bool,
    i: i32,
    refs2: Captures,
)
    requires
        is_backref_token(tok),
        decimal_digit(tok[1]) == Some(n),
        1 <= n <= refs.len() <= u32::MAX,
        refs[n - 1] == Some(captured),
        split_pattern(captured) == Some(cre),
        rest.len() > 0,
        char_or_space(rest[0], 0) != '{',
        match_here(f, cre, t, refs, 0) == Some((res, index, refs1)),
        match_here(f, rest, skip_chars(t, (index as usize) as int), refs1, 0) == Some((r, i, refs2)),
    ensures
        match_here(fuel, seq![tok] + rest, t, refs, min) is Some ==> match_here(
            fuel,
            seq![tok] + rest,
            t,
            refs,
            min,
        ) == Some((r, (i + index) as i32, refs2)),
{
    let re = seq![tok] + rest;
    assert(re[0] == tok);
    assert(re.skip(1) =~= rest);
    assert(re[1] == rest[0]);
    assert(!is_group_marker(tok)) by {
        assert(char_at(tok, 0) == Some('\\'));
        assert(seq!['('][0] == '(' && seq!['|'][0] == '|');
    }
    if fuel > 0 && match_here(fuel, re, t, refs, min) is Some {
        let g = (fuel - 1) as nat;
        assert(match_here(fuel, re, t, refs, min) == backref_case(fuel, re, t, refs));
        assert((refs.len() as u32) as int == refs.len());
        assert(match_here(g, cre, t, refs, 0) is Some);
        lemma_finished_runs_agree(f, g, cre, t, refs, 0);
        assert(match_here(g, rest, skip_chars(t, (index as usize) as int), refs1, 0) is Some);
        lemma_finished_runs_agree(f, g, rest, skip_chars(t, (index as usize) as int), refs1, 0);
    }
}

proof fn lemma_alternatives_from(
    g: nat,
    re: Seq<Seq<char>>,
    options: Seq<Seq<char>>,
    j: int,
    t: Seq<char>,
    held: Captures,
    refs: Captures,
    k: int,
    alt: Seq<Seq<char>>,
    f: nat,
    n: i32,
    r1: Captures,
)
    requires
        re.len() >= 2,
        0 <= j <= k < options.len(),
        refs.len() <= held.len(),
        held.take(refs.len() as int) == refs,
        split_pattern(options[k]) == Some(alt),
        match_here(f, alt, t, refs.push(None), 0) == Some((true, n, r1)),
        re.len() > 2 ==> match_here(
            f,
            re.skip(2),
            skip_chars(t, (n as usize) as int),
            r1.update(refs.len() as int, Some(take_chars(t, (n as usize) as int))),
            0,
        ) matches Some((true, _, _)),
    ensures
        alternation_loop(g, re, options, j, t, held, refs.len() as int) matches Some((m, _, _)) ==> m,
    decreases g,
{
    let slot = refs.len() as int;
    if g == 0 {
        return;
    }
    let h = (g - 1) as nat;
    assert(truncated(held, slot) == refs) by {
        assert(held.take(slot) =~= refs);
        if slot == held.len() {
            assert(held =~= refs);
        }
    }
    if let Some(altj) = split_pattern(options[j]) {
        let start = refs.push(None);
        law_captures_kept(h, altj, t, start, 0);
        if let Some((res, index, q1)) = match_here(h, altj, t, start, 0) {
            assert(keeps_captures(start, q1));
            assert(q1.take(slot) =~= refs) by {
                assert(q1.take(slot) =~= q1.take(start.len() as int).take(slot));
            }
            if j == k {
                lemma_finished_runs_agree(f, h, alt, t, start, 0);
                if re.len() > 2 {
                    let refs2 = q1.update(slot, Some(take_chars(t, (index as usize) as int)));
                    let rest_t = skip_chars(t, (index as usize) as int);
                    if match_here(h, re.skip(2), rest_t, refs2, 0) is Some {
                        lemma_finished_runs_agree(f, h, re.skip(2), rest_t, refs2, 0);
                    }
                }
            } else {
                if !res {
                    lemma_alternatives_from(h, re, options, j + 1, t, q1, refs, k, alt, f, n, r1);
                } else if 0 <= slot < q1.len() && re.len() > 2 {
                    let refs2 = q1.update(slot, Some(take_chars(t, (index as usize) as int)));
                    let rest_t = skip_chars(t, (index as usize) as int);
                    law_captures_kept(h, re.skip(2), rest_t, refs2, 0);
                    if let Some((rr, ii, q3)) = match_here(h, re.skip(2), rest_t, refs2, 0) {
                        assert(refs2.take(slot) =~= refs);
                        assert(q3.take(slot) =~= refs) by {
                            assert(q3.take(slot) =~= q3.take(refs2.len() as int).take(slot));
                        }
                        lemma_alternatives_from(h, re, options, j + 1, t, q3, refs, k, alt, f, n, r1);
                    }
                }
            }
        }
    }
}

/// A back reference `\n` with nothing after it reports what the captured
/// text of group `n`, read as a pattern, matched at the start of `t`.
pub proof fn law_back_reference_alone(
    fuel: nat,
    tok: Seq<char>,
    t: Seq<char>,
    refs: Captures,
    min: i32,
    n: u32,
    captured: Seq<char>,
    cre: Seq<Seq<char>>,
    f: nat,
    res: bool,
    index: i32,
    refs1: Captures,
)
    requires
        is_backref_token(tok),
        decimal_digit(tok[1]) == Some(n),
        1 <= n <= refs.len() <= u32::MAX,
        refs[n - 1] == Some(captured),
        split_pattern(captured) == Some(cre),
        match_here(f, cre, t, refs, 0) == Some((res, index, refs1)),
    ensures
        match_here(fuel, seq![tok], t, refs, min) is Some ==> match_here(fuel, seq![tok], t, refs, min) == Some(
            (res, index, refs1),
        ),
{
    let re = seq![tok];
    assert(re[0] == tok);
    assert(!is_group_marker(tok)) by {
        assert(char_at(tok, 0) == Some('\\'));
        assert(seq!['('][0] == '(' && seq!['|'][0] == '|');
    }
    if fuel > 0 && match_here(fuel, re, t, refs, min) is Some {
        let g = (fuel - 1) as nat;
        assert(match_here(fuel, re, t, refs, min) == backref_case(fuel, re, t, refs));
        assert((refs.len() as u32) as int == refs.len());
        assert(match_here(g, cre, t, refs, 0) is Some);
        lemma_finished_runs_agree(f, g, cre, t, refs, 0);
    }
}

/// An alternation group `(a1|a2|...)` followed by more tokens matches
/// wherever some alternative matches and the rest matches after the text it
/// took: when alternative `k` matches `n` characters at the start of `t` and
/// the rest matches on the text after them (with the group's capture set to
/// those characters), the step reports a match, even where earlier
/// alternatives matched but left the rest unmatched.
pub proof fn law_alternation_tries_each_option(
    fuel: nat,
    body: Seq<char>,
    rest: Seq<Seq<char>>,
    t: Seq<char>,
    refs: Captures,
    min: i32,
    k: int,
    alt: Seq<Seq<char>>,
    f: nat,
    n: i32,
    r1: Captures,
)
    requires
        char_or_space(body, 0) != '{',
        rest.len() == 0 || (rest[0] != seq!['*'] && char_or_space(rest[0], 0) != '{'),
        0 <= k < options_of(body).len(),
        split_pattern(options_of(body)[k]) == Some(alt),
        match_here(f, alt, t, refs.push(None), 0) == Some((true, n, r1)),
        rest.len() > 0 ==> match_here(
            f,
            rest,
            skip_chars(t, (n as usize) as int),
            r1.update(refs.len() as int, Some(take_chars(t, (n as usize) as int))),
            0,
        ) matches Some((true, _, _)),
    ensures
        match_here(fuel, seq![seq!['|'], body] + rest, t, refs, min) matches Some((m, _, _)) ==> m,
{
    let re = seq![seq!['|'], body] + rest;
    assert(re[0] == seq!['|'] && re[1] == body);
    assert(re.skip(2) =~= rest);
    if rest.len() > 0 {
        assert(re[2] == rest[0]);
    }
    assert(char_at(seq!['|'], 0) == Some('|'));
    assert(seq!['|'] != seq!['(']) by {
        assert(seq!['|'][0] != seq!['('][0]);
    }
    if fuel > 0 {
        assert(match_here(fuel, re, t, refs, min) == alternation_loop(
            fuel,
            re,
            options_of(body),
            0,
            t,
            refs,
            refs.len() as int,
        ));
        assert(refs.take(refs.len() as int) =~= refs);
        lemma_alternatives_from(fuel, re, options_of(body), 0, t, refs, refs, k, alt, f, n, r1);
    }
}

} // verus!
