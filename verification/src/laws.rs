//! Properties of the search that hold for every pattern and text.
use vstd::prelude::*;

use crate::budget::law_matches_of_any_budget;
use crate::helpers::{split_from, split_pattern, split_start, SplitState};
use crate::lengths::lemma_here_within;
use crate::semantics::{
    contains_pair, found_at, is_group_marker, match_here, match_token, matches_of, scan_from,
    search_finishes, search_fuel, Captures,
};
use crate::text::{blen, byte_slice, char_at, char_or_space, is_ascii, lemma_ascii_blen, lemma_ascii_byte_slice, lemma_blen_skip, skip_chars, take_chars, width};

verus! {

/// `m` is a contiguous piece of `t`.
pub open spec fn is_piece(m: Seq<char>, t: Seq<char>) -> bool {
    exists|a: int, b: int| 0 <= a <= b <= t.len() && m == #[trigger] t.subrange(a, b)
}

proof fn lemma_found_at_is_piece(t: Seq<char>, index: int, len: i32)
    requires
        0 <= index,
    ensures
        is_piece(found_at(t, index, len), t),
{
    let k = (len as usize) as int;
    let m = found_at(t, index, len);
    if index <= t.len() {
        let s = skip_chars(t, index);
        if k <= s.len() {
            assert(m =~= t.subrange(index, index + k));
        } else {
            assert(m =~= t.subrange(index, t.len() as int));
        }
    } else {
        assert(m =~= t.subrange(0, 0));
    }
}

proof fn lemma_prefix_piece(t: Seq<char>, k: int)
    requires
        0 <= k,
    ensures
        is_piece(take_chars(t, k), t),
        t.take(take_chars(t, k).len() as int) == take_chars(t, k),
{
    if k <= t.len() {
        assert(take_chars(t, k) =~= t.subrange(0, k));
    } else {
        assert(take_chars(t, k) =~= t.subrange(0, t.len() as int));
    }
}

proof fn lemma_scan_pieces(fuel: nat, re: Seq<Seq<char>>, t: Seq<char>, index: int, found: Seq<Seq<char>>)
    requires
        0 <= index,
        forall|i: int| 0 <= i < found.len() ==> is_piece(#[trigger] found[i], t),
    ensures
        scan_from(fuel, re, t, index, found) matches Some(ms) ==> forall|i: int|
            0 <= i < ms.len() ==> is_piece(#[trigger] ms[i], t),
    decreases fuel,
{
    if fuel > 0 {
        let f = (fuel - 1) as nat;
        if let Some((res, len, _)) = match_here(f, re, skip_chars(t, index), Seq::empty(), 0) {
            if index < blen(t) {
                if res {
                    let step = if len - 1 > 0 {
                        len - 1
                    } else {
                        0
                    };
                    let next = index + (step as usize) as int + 1;
                    let more = found.push(found_at(t, index, len));
                    lemma_found_at_is_piece(t, index, len);
                    assert forall|i: int| 0 <= i < more.len() implies is_piece(#[trigger] more[i], t) by {
                        if i < found.len() {
                            assert(more[i] == found[i]);
                        }
                    }
                    lemma_scan_pieces(f, re, t, next, more);
                } else {
                    lemma_scan_pieces(f, re, t, index + 1, found);
                }
            }
        }
    }
}

/// Every match the search reports is a contiguous piece of the text.
pub proof fn law_matches_are_pieces(p: Seq<char>, t: Seq<char>)
    requires
        search_finishes(p, t),
    ensures
        forall|i: int| 0 <= i < matches_of(p, t).len() ==> is_piece(#[trigger] matches_of(p, t)[i], t),
{
    let fuel = search_fuel(p, t);
    let re = split_pattern(p)->0;
    if re.len() >= 2 && re[0] == seq!['^'] {
        if let Some((res, len, _)) = match_here(fuel, re.skip(1), t, Seq::empty(), 0) {
            if res {
                lemma_prefix_piece(t, (len as usize) as int);
            }
        }
    } else {
        lemma_scan_pieces(fuel, re, t, 0, Seq::empty());
    }
}

/// With a leading `^`, the search reports at most one match, and it is a
/// prefix of the text.
pub proof fn law_anchored_search(p: Seq<char>, t: Seq<char>)
    requires
        search_finishes(p, t),
        split_pattern(p) matches Some(re) && re.len() >= 2 && re[0] == seq!['^'],
    ensures
        matches_of(p, t).len() <= 1,
        forall|i: int| 0 <= i < matches_of(p, t).len() ==> t.take(matches_of(p, t)[i].len() as int) == #[trigger] matches_of(p, t)[i],
{
    let fuel = search_fuel(p, t);
    let re = split_pattern(p)->0;
    if let Some((res, len, _)) = match_here(fuel, re.skip(1), t, Seq::empty(), 0) {
        if res {
            lemma_prefix_piece(t, (len as usize) as int);
        }
    }
}

/// `ms` sits in `t` at the char positions `starts`, from left to right and
/// without overlap: match `i` is the piece of `t` that begins at `starts[i]`,
/// and it ends no later than where every later match begins.
pub open spec fn placed_in_order(ms: Seq<Seq<char>>, t: Seq<char>, starts: Seq<int>) -> bool {
    &&& starts.len() == ms.len()
    &&& forall|i: int|
        0 <= i < ms.len() ==> 0 <= #[trigger] starts[i] && starts[i] + ms[i].len() <= t.len()
            && ms[i] == t.subrange(starts[i], starts[i] + ms[i].len())
    &&& forall|i: int, j: int|
        0 <= i < j < ms.len() ==> #[trigger] starts[i] + ms[i].len() <= #[trigger] starts[j]
}

/// The start positions rise strictly from one match to the next, and each
/// lies inside the text (or is its start).
pub open spec fn starts_advance(t: Seq<char>, starts: Seq<int>) -> bool {
    &&& forall|i: int| 0 <= i < starts.len() ==> #[trigger] starts[i] < t.len() || starts[i] == 0
    &&& forall|i: int, j: int| 0 <= i < j < starts.len() ==> #[trigger] starts[i] < #[trigger] starts[j]
}

/// The char position that byte position `index` of the scan stands for.
pub open spec fn scan_position(t: Seq<char>, index: int) -> int {
    if index <= t.len() {
        index
    } else {
        t.len() as int
    }
}

proof fn lemma_scan_order(
    fuel: nat,
    re: Seq<Seq<char>>,
    t: Seq<char>,
    index: int,
    found: Seq<Seq<char>>,
    starts: Seq<int>,
) -> (all: Seq<int>)
    requires
        blen(t) <= i32::MAX,
        0 <= index,
        placed_in_order(found, t, starts),
        forall|i: int| 0 <= i < found.len() ==> #[trigger] starts[i] + found[i].len() <= scan_position(t, index),
        forall|i: int| 0 <= i < starts.len() ==> #[trigger] starts[i] < index,
        is_ascii(t) ==> starts_advance(t, starts),
    ensures
        scan_from(fuel, re, t, index, found) matches Some(ms) ==> placed_in_order(ms, t, all),
        scan_from(fuel, re, t, index, found) matches Some(ms) ==> (is_ascii(t) ==> starts_advance(t, all)),
    decreases fuel,
{
    if is_ascii(t) {
        lemma_ascii_blen(t);
    }
    if fuel == 0 {
        return starts;
    }
    let f = (fuel - 1) as nat;
    let rest = skip_chars(t, index);
    lemma_blen_skip(t, index);
    lemma_here_within(f, re, rest, Seq::empty(), 0);
    if let Some((res, len, _)) = match_here(f, re, rest, Seq::empty(), 0) {
        if index >= blen(t) {
            return starts;
        } else if res {
            if !crate::semantics::fits_i32(len - 1) {
                return starts;
            }
            let step = if len - 1 > 0 {
                len - 1
            } else {
                0
            };
            let next = index + (step as usize) as int + 1;
            let m = found_at(t, index, len);
            let here = scan_position(t, index);
            if index <= t.len() {
                assert(m =~= t.subrange(index, index + len));
            } else {
                assert(m =~= t.subrange(here, here));
            }
            let more = found.push(m);
            let more_starts = starts.push(here);
            assert(placed_in_order(more, t, more_starts)) by {
                assert forall|i: int| 0 <= i < more.len() implies 0 <= #[trigger] more_starts[i]
                    && more_starts[i] + more[i].len() <= t.len() && more[i] == t.subrange(
                    more_starts[i],
                    more_starts[i] + more[i].len(),
                ) by {
                    if i < found.len() {
                        assert(more[i] == found[i] && more_starts[i] == starts[i]);
                    }
                }
                assert forall|i: int, j: int| 0 <= i < j < more.len() implies #[trigger] more_starts[i]
                    + more[i].len() <= #[trigger] more_starts[j] by {
                    assert(more[i] == found[i] && more_starts[i] == starts[i]);
                    if j < found.len() {
                        assert(more_starts[j] == starts[j]);
                    }
                }
            }
            assert forall|i: int| 0 <= i < more.len() implies #[trigger] more_starts[i] + more[i].len()
                <= scan_position(t, next) by {
                if i < found.len() {
                    assert(more[i] == found[i] && more_starts[i] == starts[i]);
                }
            }
            assert forall|i: int| 0 <= i < more_starts.len() implies #[trigger] more_starts[i] < next by {
                if i < starts.len() {
                    assert(more_starts[i] == starts[i]);
                }
            }
            if is_ascii(t) {
                assert(starts_advance(t, more_starts)) by {
                    assert forall|i: int| 0 <= i < more_starts.len() implies #[trigger] more_starts[i] < t.len()
                        || more_starts[i] == 0 by {
                        if i < starts.len() {
                            assert(more_starts[i] == starts[i]);
                        }
                    }
                    assert forall|i: int, j: int| 0 <= i < j < more_starts.len() implies #[trigger] more_starts[i]
                        < #[trigger] more_starts[j] by {
                        assert(more_starts[i] == starts[i]);
                        if j < starts.len() {
                            assert(more_starts[j] == starts[j]);
                        }
                    }
                }
            }
            if next > usize::MAX {
                return starts;
            }
            return lemma_scan_order(f, re, t, next, more, more_starts);
        } else {
            if index + 1 > usize::MAX {
                return starts;
            }
            return lemma_scan_order(f, re, t, index + 1, found, starts);
        }
    }
    starts
}

/// For a text of at most `i32::MAX` bytes, the matches sit in the text from
/// left to right and do not overlap. In an ASCII text, moreover, each match
/// starts at least one position after the one before, even after an empty
/// match, and inside the text (only the match of an anchored pattern on the
/// empty text starts at its end, position 0).
pub proof fn law_matches_in_order(p: Seq<char>, t: Seq<char>)
    requires
        search_finishes(p, t),
        blen(t) <= i32::MAX,
    ensures
        exists|starts: Seq<int>|
            #![trigger placed_in_order(matches_of(p, t), t, starts)]
            placed_in_order(matches_of(p, t), t, starts) && (is_ascii(t) ==> starts_advance(t, starts)),
{
    let fuel = search_fuel(p, t);
    let re = split_pattern(p)->0;
    if re.len() >= 2 && re[0] == seq!['^'] {
        lemma_here_within(fuel, re.skip(1), t, Seq::empty(), 0);
        let ms = matches_of(p, t);
        if let Some((res, len, _)) = match_here(fuel, re.skip(1), t, Seq::empty(), 0) {
            if res {
                assert(ms[0] =~= t.subrange(0, len as int));
                assert(placed_in_order(ms, t, seq![0int]));
                assert(starts_advance(t, seq![0int]));
            } else {
                assert(placed_in_order(ms, t, Seq::<int>::empty()));
                assert(starts_advance(t, Seq::<int>::empty()));
            }
        }
    } else {
        let starts = lemma_scan_order(fuel, re, t, 0, Seq::empty(), Seq::empty());
        assert(placed_in_order(matches_of(p, t), t, starts));
        assert(is_ascii(t) ==> starts_advance(t, starts));
    }
}

/// An ASCII character with no special meaning to the tokenizer.
pub open spec fn is_plain(c: char) -> bool {
    (c as u32) < 0x80 && c != '[' && c != '(' && c != '\\' && c != '{'
}

/// The tokens of a pattern of plain characters: one per character.
pub open spec fn plain_tokens(p: Seq<char>) -> Seq<Seq<char>> {
    p.map_values(|c: char| seq![c])
}

proof fn lemma_split_plain(p: Seq<char>, i: int)
    requires
        0 <= i <= p.len(),
        blen(p) == p.len(),
        forall|k: int| 0 <= k < p.len() ==> is_plain(#[trigger] p[k]),
    ensures
        split_from(p, i, SplitState { out: plain_tokens(p.take(i)), ..split_start() })
            == Some(SplitState { out: plain_tokens(p), ..split_start() }),
    decreases p.len() - i,
{
    if i < p.len() {
        assert(is_plain(p[i]));
        assert(plain_tokens(p.take(i)).push(seq![p[i]]) =~= plain_tokens(p.take(i + 1)));
        lemma_split_plain(p, i + 1);
    } else {
        assert(p.take(i) =~= p);
    }
}

/// A pattern of plain ASCII characters (none of `[`, `(`, `\`, `{`) is cut
/// into one token per character.
pub proof fn law_plain_pattern_tokens(p: Seq<char>)
    requires
        p.len() <= usize::MAX,
        forall|k: int| 0 <= k < p.len() ==> is_plain(#[trigger] p[k]),
    ensures
        split_pattern(p) == Some(plain_tokens(p)),
{
    assert forall|k: int| 0 <= k < p.len() implies (#[trigger] p[k] as u32) < 0x80 by {
        assert(is_plain(p[k]));
    }
    assert(is_ascii(p));
    lemma_ascii_blen(p);
    assert(plain_tokens(p.take(0)) =~= Seq::<Seq<char>>::empty());
    assert(SplitState { out: plain_tokens(p.take(0)), ..split_start() } == split_start());
    lemma_split_plain(p, 0);
}

/// An ASCII character that stands for itself in a pattern anywhere.
pub open spec fn is_literal(c: char) -> bool {
    &&& is_plain(c)
    &&& c != '.' && c != '?' && c != '+' && c != '*' && c != '$' && c != '|' && c != '^'
}

/// `p` occurs in `t` at some char position.
pub open spec fn occurs_in(p: Seq<char>, t: Seq<char>) -> bool {
    exists|j: int| 0 <= j && j + p.len() <= t.len() && #[trigger] t.subrange(j, j + p.len()) == p
}

/// `p` is a prefix of `t`.
pub open spec fn starts_with(t: Seq<char>, p: Seq<char>) -> bool {
    p.len() <= t.len() && t.take(p.len() as int) == p
}

proof fn lemma_literal_here(fuel: nat, p: Seq<char>, t: Seq<char>, refs: Captures, min: i32)
    requires
        forall|k: int| 0 <= k < p.len() ==> is_literal(#[trigger] p[k]),
        fuel > p.len(),
        p.len() <= i32::MAX,
        min - p.len() >= i32::MIN,
    ensures
        match_here(fuel, plain_tokens(p), t, refs, min) matches Some((b, n, r)) && r == refs && (b
            <==> starts_with(t, p)) && 0 <= n <= p.len() && (b ==> n == p.len()),
    decreases p.len(),
{
    let re = plain_tokens(p);
    if p.len() > 0 {
        let c = p[0];
        assert(is_literal(c));
        assert(re[0] == seq![c]);
        assert(seq![c].drop_last() =~= Seq::<char>::empty());
        assert(blen(Seq::<char>::empty()) == 0);
        assert(width(c) == 1);
        assert(blen(seq![c]) == 1);
        assert(!is_group_marker(re[0]));
        assert(re[0] != seq!['$']);
        assert(re[0] != seq!['(']);
        assert(re[0] != seq!['|']);
        if re.len() >= 2 {
            assert(re[1] == seq![p[1]]);
            assert(is_literal(p[1]));
            assert(char_or_space(re[1], 0) != '{');
            assert(re[1] != seq!['?']);
            assert(re[1] != seq!['+']);
            assert(re[1] != seq!['*']);
        }
        if t.len() > 0 && t[0] == c {
            assert(seq![t[0]] =~= seq![c]);
            assert(re.skip(1) =~= plain_tokens(p.skip(1)));
            lemma_literal_here((fuel - 1) as nat, p.skip(1), t.skip(1), refs, (min - 1) as i32);
            if starts_with(t.skip(1), p.skip(1)) {
                assert(t.take(p.len() as int) =~= seq![c] + t.skip(1).take(p.len() - 1));
                assert(p =~= seq![c] + p.skip(1));
            }
            if starts_with(t, p) {
                assert(t.skip(1).take(p.len() - 1) =~= t.take(p.len() as int).skip(1));
            }
        } else if t.len() > 0 {
            assert(!seq![t[0]].contains(c)) by {
                if seq![t[0]].contains(c) {
                    let k = choose|k: int| 0 <= k < 1 && seq![t[0]][k] == c;
                }
            }
            if starts_with(t, p) {
                assert(t.take(p.len() as int)[0] == t[0]);
            }
        }
    } else {
        assert(t.take(0) =~= p);
    }
}

proof fn lemma_literal_scan(fuel: nat, p: Seq<char>, t: Seq<char>, index: int, found: Seq<Seq<char>>)
    requires
        p.len() > 0,
        p.len() <= i32::MAX,
        forall|k: int| 0 <= k < p.len() ==> is_literal(#[trigger] p[k]),
        blen(t) <= usize::MAX,
        0 <= index,
        fuel >= blen(t) - index + p.len() + 2,
        fuel > p.len() + 1,
        forall|i: int| 0 <= i < found.len() ==> #[trigger] found[i] == p,
    ensures
        scan_from(fuel, plain_tokens(p), t, index, found) matches Some(ms) && ms.len() >= found.len()
            && (forall|i: int| 0 <= i < ms.len() ==> #[trigger] ms[i] == p) && ((exists|j: int|
            index <= j && j + p.len() <= t.len() && #[trigger] t.subrange(j, j + p.len()) == p) ==> ms.len()
            > found.len()),
    decreases blen(t) - index + 1,
{
    crate::text::lemma_blen_len(t);
    let f = (fuel - 1) as nat;
    let re = plain_tokens(p);
    let rest = skip_chars(t, index);
    lemma_literal_here(f, p, rest, Seq::empty(), 0);
    if index >= blen(t) {
    } else if starts_with(rest, p) {
        assert(index + p.len() <= t.len());
        assert(rest =~= t.subrange(index, t.len() as int));
        assert(found_at(t, index, p.len() as i32) =~= p) by {
            assert(rest.take(p.len() as int) == p);
        }
        let next = index + p.len();
        let more = found.push(p);
        assert forall|i: int| 0 <= i < more.len() implies #[trigger] more[i] == p by {
            if i < found.len() {
                assert(more[i] == found[i]);
            }
        }
        lemma_literal_scan(f, p, t, next, more);
    } else {
        if exists|j: int| index <= j && j + p.len() <= t.len() && #[trigger] t.subrange(j, j + p.len()) == p {
            let j = choose|j: int| index <= j && j + p.len() <= t.len() && #[trigger] t.subrange(j, j + p.len()) == p;
            if j == index {
                assert(rest =~= t.subrange(index, t.len() as int));
                assert(rest.take(p.len() as int) =~= t.subrange(j, j + p.len()));
            }
            assert(index + 1 <= j && j + p.len() <= t.len() && t.subrange(j, j + p.len()) == p);
        }
        lemma_literal_scan(f, p, t, index + 1, found);
    }
}

/// A search for a literal (ASCII characters with no special meaning) finishes;
/// every match it reports is the literal itself; and it reports a match
/// exactly when the literal occurs in the text.
pub proof fn law_literal_search(p: Seq<char>, t: Seq<char>)
    requires
        p.len() > 0,
        p.len() <= i32::MAX,
        forall|k: int| 0 <= k < p.len() ==> is_literal(#[trigger] p[k]),
        blen(t) <= usize::MAX,
    ensures
        search_finishes(p, t),
        forall|i: int| 0 <= i < matches_of(p, t).len() ==> #[trigger] matches_of(p, t)[i] == p,
        matches_of(p, t).len() > 0 <==> occurs_in(p, t),
{
    crate::text::lemma_blen_len(t);
    assert forall|k: int| 0 <= k < p.len() implies is_plain(#[trigger] p[k]) by {
        assert(is_literal(p[k]));
    }
    law_plain_pattern_tokens(p);
    assert(plain_tokens(p)[0] == seq![p[0]]);
    assert(is_literal(p[0]));
    let fuel = (blen(t) + p.len() + 2) as nat;
    lemma_literal_scan(fuel, p, t, 0, Seq::empty());
    law_matches_of_any_budget(fuel, p, t);
    let ms = matches_of(p, t);
    if ms.len() > 0 {
        law_matches_are_pieces(p, t);
        assert(is_piece(ms[0], t));
        let (a, b) = choose|a: int, b: int| 0 <= a <= b <= t.len() && ms[0] == #[trigger] t.subrange(a, b);
        assert(t.subrange(a, a + p.len()) == p);
    }
}

/// The bracket class `[s]` as a token.
pub open spec fn class_token(s: Seq<char>) -> Seq<char> {
    seq!['['] + s + seq![']']
}

/// The negated bracket class `[^s]` as a token.
pub open spec fn negated_class_token(s: Seq<char>) -> Seq<char> {
    seq!['[', '^'] + s + seq![']']
}

proof fn lemma_class_list(tok: Seq<char>, s: Seq<char>, start: int)
    requires
        is_ascii(s),
        !s.contains('\\'),
        start == 1 || start == 2,
        tok.len() == s.len() + start + 1,
        tok[0] == '[',
        start == 2 ==> tok[1] == '^',
        tok[tok.len() - 1] == ']',
        forall|k: int| 0 <= k < s.len() ==> tok[start + k] == #[trigger] s[k],
    ensures
        is_ascii(tok),
        blen(tok) == tok.len(),
        !contains_pair(tok, '\\', 'd'),
        !contains_pair(tok, '\\', 'w'),
        char_at(tok, 0) == Some('['),
        char_at(tok, blen(tok) - 1) == Some(']'),
        byte_slice(tok, start, blen(tok) - 1) == Some(s),
{
    assert forall|i: int| 0 <= i < tok.len() implies (#[trigger] tok[i] as u32) < 0x80 && tok[i] != '\\' by {
        if start <= i < tok.len() - 1 {
            assert(tok[i] == s[i - start]);
        }
    }
    lemma_ascii_blen(tok);
    lemma_ascii_byte_slice(tok, start, tok.len() - 1);
    assert(tok.subrange(start, tok.len() - 1) =~= s);
}

/// On a single character, the negated class `[^s]` accepts exactly what the
/// class `[s]` rejects, and `[s]` accepts exactly the characters listed in
/// `s`; here `s` is ASCII, holds no backslash and does not start with `^`.
pub proof fn law_negated_class_complement(x: char, s: Seq<char>)
    requires
        is_ascii(s),
        !s.contains('\\'),
        s.len() == 0 || s[0] != '^',
    ensures
        match_token(seq![x], class_token(s)) == Some(s.contains(x)),
        match_token(seq![x], negated_class_token(s)) == Some(!s.contains(x)),
{
    let pos = class_token(s);
    let neg = negated_class_token(s);
    lemma_class_list(pos, s, 1);
    lemma_class_list(neg, s, 2);
    if s.len() == 0 {
        assert(char_at(pos, 1) == Some(']'));
    } else {
        assert(char_at(pos, 1) == Some(s[0]));
    }
    assert(char_at(neg, 1) == Some('^'));
    let input = seq![x];
    if s.contains(x) {
        let i = choose|i: int| 0 <= i < s.len() && s[i] == x;
        assert(input.contains(s[i])) by {
            assert(input[0] == s[i]);
        }
    }
    if exists|k: int| 0 <= k < s.len() && input.contains(#[trigger] s[k]) {
        let k = choose|k: int| 0 <= k < s.len() && input.contains(#[trigger] s[k]);
        let j = choose|j: int| 0 <= j < input.len() && input[j] == s[k];
        assert(j == 0);
        assert(s.contains(x));
    }
    assert((exists|k: int| 0 <= k < input.len() && !s.contains(#[trigger] input[k])) == !s.contains(x)) by {
        if !s.contains(x) {
            assert(!s.contains(input[0]));
        }
    }
}

} // verus!
