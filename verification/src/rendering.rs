//! The tokens of a well-formed pattern give the pattern back.
//!
//! Tokenizing drops some characters: the parentheses around a group (its
//! body follows a marker token), the closing `}` of a quantifier, and one
//! backslash of an escaped backslash. [`render`] puts them back.
use vstd::prelude::*;

use crate::helpers::{spec_is_digit, split_from, split_pattern, split_start, split_step, SplitState};
use crate::semantics::is_group_marker;
use crate::text::{blen, byte_slice, char_at, is_ascii, lemma_ascii_blen, lemma_ascii_byte_slice};

verus! {

/// The text of a token other than a group marker: a quantifier token gets
/// back its closing `}`, the token of an escaped backslash gets back both
/// backslashes, and any other token is its own text.
pub open spec fn render_token(tok: Seq<char>) -> Seq<char> {
    if tok.len() > 0 && tok[0] == '{' {
        tok.push('}')
    } else if tok == seq!['\\'] {
        seq!['\\', '\\']
    } else {
        tok
    }
}

/// The text a token list stands for, read from the left: a group marker and
/// the body after it give `(body)`, and every other token gives its text.
pub open spec fn render(ts: Seq<Seq<char>>) -> Seq<char>
    decreases ts.len(),
{
    if ts.len() == 0 {
        Seq::empty()
    } else if is_group_marker(ts[0]) && ts.len() >= 2 {
        seq!['('] + ts[1] + seq![')'] + render(ts.skip(2))
    } else {
        render_token(ts[0]) + render(ts.skip(1))
    }
}

/// A quantifier at `i` is closed: `{d}`, `{d,}` or `{d,e}`.
pub open spec fn closed_quantifier(p: Seq<char>, i: int) -> bool {
    &&& i + 2 < p.len()
    &&& if p[i + 2] == ',' {
        &&& i + 3 < p.len()
        &&& p[i + 3] != '}' ==> i + 4 < p.len() && p[i + 4] == '}'
    } else {
        p[i + 2] == '}'
    }
}

/// The number of characters of the closed quantifier at `i`.
pub open spec fn quantifier_width(p: Seq<char>, i: int) -> int {
    if p[i + 2] == ',' {
        if p[i + 3] == '}' {
            4
        } else {
            5
        }
    } else {
        3
    }
}

/// Reading `p` from position `i`, inside a bracket class (`class`), or
/// inside a group (`group`) at parenthesis depth `depth`, every construct
/// is closed: a class by a later `]`; a group by the `)` that brings its
/// depth back below zero; an escape `\` by a following character; a
/// quantifier as `{d}`, `{d,}` or `{d,e}`; and no `|` stands outside
/// classes and groups. Parentheses inside a group nest at most `i32::MAX`
/// deep, the depth the tokenizer can count.
pub open spec fn parses_from(p: Seq<char>, i: int, class: bool, group: bool, depth: int) -> bool
    decreases p.len() - i,
{
    if i >= p.len() {
        !class && !group
    } else if class {
        parses_from(p, i + 1, p[i] != ']', false, 0)
    } else if group {
        if p[i] == ')' {
            if depth > 0 {
                parses_from(p, i + 1, false, true, depth - 1)
            } else {
                parses_from(p, i + 1, false, false, 0)
            }
        } else if p[i] == '(' {
            depth + 1 <= i32::MAX && parses_from(p, i + 1, false, true, depth + 1)
        } else {
            parses_from(p, i + 1, false, true, depth)
        }
    } else if p[i] == '[' {
        parses_from(p, i + 1, true, false, 0)
    } else if p[i] == '(' {
        parses_from(p, i + 1, false, true, 0)
    } else if p[i] == '\\' {
        i + 1 < p.len() && parses_from(p, i + 2, false, false, 0)
    } else if p[i] == '{' {
        closed_quantifier(p, i) && parses_from(p, i + quantifier_width(p, i), false, false, 0)
    } else {
        p[i] != '|' && parses_from(p, i + 1, false, false, 0)
    }
}

/// An ASCII pattern whose classes, groups, escapes and quantifiers are all
/// closed, with no `|` outside classes and groups, and whose groups nest
/// parentheses at most `i32::MAX` deep.
pub open spec fn well_formed(p: Seq<char>) -> bool {
    is_ascii(p) && parses_from(p, 0, false, false, 0)
}

/// Every group marker of the list is followed by its body.
spec fn whole_units(ts: Seq<Seq<char>>) -> bool
    decreases ts.len(),
{
    if ts.len() == 0 {
        true
    } else if is_group_marker(ts[0]) {
        ts.len() >= 2 && whole_units(ts.skip(2))
    } else {
        whole_units(ts.skip(1))
    }
}

proof fn lemma_render_push_token(a: Seq<Seq<char>>, tok: Seq<char>)
    requires
        whole_units(a),
        !is_group_marker(tok),
    ensures
        whole_units(a.push(tok)),
        render(a.push(tok)) == render(a) + render_token(tok),
    decreases a.len(),
{
    if a.len() == 0 {
        assert(a.push(tok).skip(1) =~= a);
        assert(render(a.push(tok)) =~= render(a) + render_token(tok));
    } else if is_group_marker(a[0]) {
        assert(a.push(tok).skip(2) =~= a.skip(2).push(tok));
        lemma_render_push_token(a.skip(2), tok);
        assert(render(a.push(tok)) =~= render(a) + render_token(tok));
    } else {
        assert(a.push(tok).skip(1) =~= a.skip(1).push(tok));
        lemma_render_push_token(a.skip(1), tok);
        assert(render(a.push(tok)) =~= render(a) + render_token(tok));
    }
}

proof fn lemma_render_push_group(a: Seq<Seq<char>>, m: Seq<char>, body: Seq<char>)
    requires
        whole_units(a),
        is_group_marker(m),
    ensures
        whole_units(a.push(m).push(body)),
        render(a.push(m).push(body)) == render(a) + (seq!['('] + body + seq![')']),
    decreases a.len(),
{
    let b = a.push(m).push(body);
    if a.len() == 0 {
        assert(b.skip(2) =~= a);
        assert(render(b) =~= render(a) + (seq!['('] + body + seq![')']));
    } else if is_group_marker(a[0]) {
        assert(b.skip(2) =~= a.skip(2).push(m).push(body));
        lemma_render_push_group(a.skip(2), m, body);
        assert(render(b) =~= render(a) + (seq!['('] + body + seq![')']));
    } else {
        assert(b.skip(1) =~= a.skip(1).push(m).push(body));
        lemma_render_push_group(a.skip(1), m, body);
        assert(render(b) =~= render(a) + (seq!['('] + body + seq![')']));
    }
}

/// The tokenizer's state between constructs, with `out` emitted.
spec fn at_rest(out: Seq<Seq<char>>) -> SplitState {
    SplitState { out, ..split_start() }
}

/// The text read into the construct that is open.
spec fn pending(st: SplitState) -> Seq<char> {
    if st.in_class {
        st.class
    } else if st.in_group {
        seq!['('] + st.group
    } else {
        Seq::empty()
    }
}

/// The tokenizer's state at position `i` is one of those the reading of a
/// well-formed pattern passes through.
spec fn reading_state(st: SplitState, i: int) -> bool {
    &&& whole_units(st.out)
    &&& if st.in_class {
        st == (SplitState { out: st.out, class: st.class, in_class: true, ..split_start() })
            && st.class.len() > 0 && st.class[0] == '['
    } else if st.in_group {
        st == (SplitState {
            out: st.out,
            in_group: true,
            group: st.group,
            alternation: st.alternation,
            nest: st.nest,
            ..split_start()
        }) && 0 <= st.nest <= i32::MAX
    } else {
        st == at_rest(st.out)
    }
}

proof fn lemma_skip_run(p: Seq<char>, i: int, st: SplitState, n: int)
    requires
        0 <= n,
        st.skip_n == n,
        !st.skip,
        i + n <= blen(p),
    ensures
        split_from(p, i, st) == split_from(p, i + n, SplitState { skip_n: 0, ..st }),
    decreases n,
{
    if n > 0 {
        lemma_skip_run(p, i + 1, SplitState { skip_n: n - 1, ..st }, n - 1);
        assert(SplitState { skip_n: 0, ..SplitState { skip_n: n - 1, ..st } } == SplitState { skip_n: 0, ..st });
    }
}

/// One construct's worth of reading: from position `i` in state `st` the
/// tokenizer reaches position `j` in state `nx`, and what is rendered and
/// pending grows by the text between.
spec fn advances(p: Seq<char>, i: int, st: SplitState, j: int, nx: SplitState) -> bool {
    &&& i < j <= p.len()
    &&& split_from(p, i, st) == split_from(p, j, nx)
    &&& reading_state(nx, j)
    &&& parses_from(p, j, nx.in_class, nx.in_group, nx.nest)
    &&& render(nx.out) + pending(nx) == render(st.out) + pending(st) + p.subrange(i, j)
}

proof fn lemma_class_step(p: Seq<char>, i: int, st: SplitState) -> (r: (int, SplitState))
    requires
        is_ascii(p),
        blen(p) == p.len(),
        0 <= i < p.len(),
        reading_state(st, i),
        st.in_class,
        parses_from(p, i, st.in_class, st.in_group, st.nest),
    ensures
        advances(p, i, st, r.0, r.1),
{
    let c = p[i];
    assert(char_at(p, i) == Some(c));
    assert(p.subrange(i, i + 1) =~= seq![c]);
    let class = st.class.push(c);
    if c == ']' {
        let next = at_rest(st.out.push(class));
        assert(split_step(p, i, st) == Some(next));
        assert(!is_group_marker(class)) by {
            assert(class[0] == '[');
            assert(seq!['('][0] == '(' && seq!['|'][0] == '|');
        }
        lemma_render_push_token(st.out, class);
        assert(render(next.out) + pending(next) =~= render(st.out) + pending(st) + p.subrange(i, i + 1));
        (i + 1, next)
    } else {
        let next = SplitState { class, ..st };
        assert(split_step(p, i, st) == Some(next));
        assert(render(next.out) + pending(next) =~= render(st.out) + pending(st) + p.subrange(i, i + 1));
        (i + 1, next)
    }
}

proof fn lemma_group_step(p: Seq<char>, i: int, st: SplitState) -> (r: (int, SplitState))
    requires
        is_ascii(p),
        blen(p) == p.len(),
        0 <= i < p.len(),
        reading_state(st, i),
        st.in_group,
        parses_from(p, i, st.in_class, st.in_group, st.nest),
    ensures
        advances(p, i, st, r.0, r.1),
{
    let c = p[i];
    assert(char_at(p, i) == Some(c));
    assert(p.subrange(i, i + 1) =~= seq![c]);
    if c == ')' && st.nest == 0 {
        let marker = if st.alternation {
            seq!['|']
        } else {
            seq!['(']
        };
        let next = at_rest(st.out.push(marker).push(st.group));
        assert(split_step(p, i, st) == Some(next));
        lemma_render_push_group(st.out, marker, st.group);
        assert(render(next.out) + pending(next) =~= render(st.out) + pending(st) + p.subrange(i, i + 1));
        (i + 1, next)
    } else {
        let next = if c == ')' {
            SplitState { nest: st.nest - 1, group: st.group.push(')'), ..st }
        } else if c == '|' && st.nest == 0 {
            SplitState { alternation: true, group: st.group.push(c), ..st }
        } else if c == '(' {
            SplitState { nest: st.nest + 1, group: st.group.push(c), ..st }
        } else {
            SplitState { group: st.group.push(c), ..st }
        };
        assert(split_step(p, i, st) == Some(next));
        assert(render(next.out) + pending(next) =~= render(st.out) + pending(st) + p.subrange(i, i + 1));
        (i + 1, next)
    }
}

proof fn lemma_open_step(p: Seq<char>, i: int, st: SplitState) -> (r: (int, SplitState))
    requires
        is_ascii(p),
        blen(p) == p.len(),
        0 <= i < p.len(),
        reading_state(st, i),
        !st.in_class && !st.in_group,
        p[i] != '\\' && p[i] != '{',
        parses_from(p, i, st.in_class, st.in_group, st.nest),
    ensures
        advances(p, i, st, r.0, r.1),
{
    let c = p[i];
    assert(char_at(p, i) == Some(c));
    assert(p.subrange(i, i + 1) =~= seq![c]);
    if c == '[' {
        let next = SplitState { class: seq!['['], in_class: true, ..st };
        assert(st.class.push('[') =~= seq!['[']);
        assert(split_step(p, i, st) == Some(next));
        assert(render(next.out) + pending(next) =~= render(st.out) + pending(st) + p.subrange(i, i + 1));
        (i + 1, next)
    } else if c == '(' {
        let next = SplitState { in_group: true, ..st };
        assert(split_step(p, i, st) == Some(next));
        assert(render(next.out) + pending(next) =~= render(st.out) + pending(st) + p.subrange(i, i + 1));
        (i + 1, next)
    } else {
        assert(c != '|');
        let tok = seq![c];
        assert(tok[0] == c);
        let next = at_rest(st.out.push(tok));
        assert(split_step(p, i, st) == Some(next));
        lemma_render_push_token(st.out, tok);
        assert(render(next.out) + pending(next) =~= render(st.out) + pending(st) + p.subrange(i, i + 1));
        (i + 1, next)
    }
}

proof fn lemma_escape_step(p: Seq<char>, i: int, st: SplitState) -> (r: (int, SplitState))
    requires
        is_ascii(p),
        blen(p) == p.len(),
        0 <= i < p.len(),
        reading_state(st, i),
        !st.in_class && !st.in_group,
        p[i] == '\\',
        parses_from(p, i, st.in_class, st.in_group, st.nest),
    ensures
        advances(p, i, st, r.0, r.1),
{
    let d = p[i + 1];
    assert(char_at(p, i) == Some('\\'));
    assert(char_at(p, i + 1) == Some(d));
    let tok = if d == '\\' {
        seq!['\\']
    } else if spec_is_digit(d) {
        seq!['\\', d]
    } else {
        lemma_ascii_byte_slice(p, i, i + 2);
        assert(p.subrange(i, i + 2) =~= seq!['\\', d]);
        seq!['\\', d]
    };
    let mid = SplitState { out: st.out.push(tok), skip: true, ..st };
    assert(split_step(p, i, st) == Some(mid));
    let next = at_rest(st.out.push(tok));
    assert(split_step(p, i + 1, mid) == Some(next));
    assert(split_from(p, i, st) == split_from(p, i + 1, mid));
    assert(split_from(p, i + 1, mid) == split_from(p, i + 2, next));
    assert(!is_group_marker(tok)) by {
        assert(tok[0] == '\\');
        assert(seq!['('][0] == '(' && seq!['|'][0] == '|');
    }
    lemma_render_push_token(st.out, tok);
    assert(p.subrange(i, i + 2) =~= render_token(tok));
    assert(render(next.out) + pending(next) =~= render(st.out) + pending(st) + p.subrange(i, i + 2));
    (i + 2, next)
}

proof fn lemma_quantifier_step(p: Seq<char>, i: int, st: SplitState) -> (r: (int, SplitState))
    requires
        is_ascii(p),
        blen(p) == p.len(),
        0 <= i < p.len(),
        reading_state(st, i),
        !st.in_class && !st.in_group,
        p[i] == '{',
        parses_from(p, i, st.in_class, st.in_group, st.nest),
    ensures
        advances(p, i, st, r.0, r.1),
{
    let d = p[i + 1];
    let e = p[i + 2];
    assert(char_at(p, i) == Some('{'));
    assert(char_at(p, i + 1) == Some(d));
    assert(char_at(p, i + 2) == Some(e));
    let w = quantifier_width(p, i);
    let tok = if e == ',' {
        assert(char_at(p, i + 3) == Some(p[i + 3]));
        if p[i + 3] != '}' {
            seq!['{', d, ',', p[i + 3]]
        } else {
            seq!['{', d, ',']
        }
    } else {
        seq!['{', d]
    };
    let mid = SplitState { out: st.out.push(tok), skip_n: w - 1, ..st };
    assert(split_step(p, i, st) == Some(mid));
    assert(split_from(p, i, st) == split_from(p, i + 1, mid));
    lemma_skip_run(p, i + 1, mid, w - 1);
    let next = at_rest(st.out.push(tok));
    assert(SplitState { skip_n: 0, ..mid } == next);
    assert(!is_group_marker(tok)) by {
        assert(tok[0] == '{');
        assert(seq!['('][0] == '(' && seq!['|'][0] == '|');
    }
    lemma_render_push_token(st.out, tok);
    assert(p.subrange(i, i + w) =~= render_token(tok));
    assert(render(next.out) + pending(next) =~= render(st.out) + pending(st) + p.subrange(i, i + w));
    (i + w, next)
}

proof fn lemma_split_renders(p: Seq<char>, i: int, st: SplitState) -> (fin: SplitState)
    requires
        is_ascii(p),
        0 <= i <= p.len(),
        reading_state(st, i),
        parses_from(p, i, st.in_class, st.in_group, st.nest),
    ensures
        split_from(p, i, st) == Some(fin),
        fin == at_rest(fin.out),
        whole_units(fin.out),
        render(fin.out) == render(st.out) + pending(st) + p.subrange(i, p.len() as int),
    decreases p.len() - i,
{
    lemma_ascii_blen(p);
    if i >= p.len() {
        assert(render(st.out) + pending(st) + p.subrange(i, p.len() as int) =~= render(st.out));
        return st;
    }
    let r = if st.in_class {
        lemma_class_step(p, i, st)
    } else if st.in_group {
        lemma_group_step(p, i, st)
    } else if p[i] == '\\' {
        lemma_escape_step(p, i, st)
    } else if p[i] == '{' {
        lemma_quantifier_step(p, i, st)
    } else {
        lemma_open_step(p, i, st)
    };
    let (j, nx) = r;
    let fin = lemma_split_renders(p, j, nx);
    assert(p.subrange(i, j) + p.subrange(j, p.len() as int) =~= p.subrange(i, p.len() as int));
    assert(render(fin.out) =~= render(st.out) + pending(st) + p.subrange(i, p.len() as int));
    fin
}

/// The tokens of a well-formed pattern render back to the pattern: a group
/// marker and its body give `(body)`, a quantifier token gets back its `}`,
/// the token of an escaped backslash gets back both backslashes, and every
/// other token is its own text. Any pattern a string can hold qualifies by
/// length; past the nesting bound of [`well_formed`] the tokenizer's depth
/// count overflows and it panics.
pub proof fn law_tokens_render_back(p: Seq<char>)
    requires
        well_formed(p),
        p.len() <= usize::MAX,
    ensures
        split_pattern(p) is Some,
        render(split_pattern(p)->0) == p,
{
    lemma_ascii_blen(p);
    assert(whole_units(Seq::<Seq<char>>::empty()));
    assert(split_start() == at_rest(Seq::empty()));
    let fin = lemma_split_renders(p, 0, split_start());
    assert(render(Seq::<Seq<char>>::empty()) == Seq::<char>::empty());
    assert(p.subrange(0, p.len() as int) =~= p);
    assert(render(fin.out) =~= p);
}

/// Parentheses opened minus parentheses closed in `s`.
pub open spec fn paren_depth(s: Seq<char>) -> int
    decreases s.len(),
{
    if s.len() == 0 {
        0
    } else {
        paren_depth(s.drop_last()) + if s.last() == '(' {
            1int
        } else if s.last() == ')' {
            -1int
        } else {
            0int
        }
    }
}

/// `s` holds a `|` outside every parenthesis opened within it.
pub open spec fn has_top_level_bar(s: Seq<char>) -> bool {
    exists|k: int| 0 <= k < s.len() && s[k] == '|' && paren_depth(#[trigger] s.take(k)) == 0
}

/// `b` can stand between a group's parentheses: its own parentheses are
/// balanced, none closes before it is opened, and they nest at most
/// `i32::MAX` deep.
pub open spec fn balanced_body(b: Seq<char>) -> bool {
    &&& paren_depth(b) == 0
    &&& forall|k: int| 0 <= k <= b.len() ==> 0 <= #[trigger] paren_depth(b.take(k)) <= i32::MAX
}

proof fn lemma_depth_step(b: Seq<char>, k: int)
    requires
        0 <= k < b.len(),
    ensures
        paren_depth(b.take(k + 1)) == paren_depth(b.take(k)) + if b[k] == '(' {
            1int
        } else if b[k] == ')' {
            -1int
        } else {
            0int
        },
{
    assert(b.take(k + 1).drop_last() =~= b.take(k));
}

proof fn lemma_bar_step(b: Seq<char>, k: int)
    requires
        0 <= k < b.len(),
    ensures
        has_top_level_bar(b.take(k + 1)) == (has_top_level_bar(b.take(k)) || (b[k] == '|'
            && paren_depth(b.take(k)) == 0)),
{
    let s = b.take(k);
    let s1 = b.take(k + 1);
    if has_top_level_bar(s) {
        let j = choose|j: int| 0 <= j < s.len() && s[j] == '|' && paren_depth(#[trigger] s.take(j)) == 0;
        assert(s1.take(j) =~= s.take(j));
        assert(s1[j] == s[j]);
    }
    if b[k] == '|' && paren_depth(s) == 0 {
        assert(s1.take(k) =~= s);
    }
    if has_top_level_bar(s1) {
        let j = choose|j: int| 0 <= j < s1.len() && s1[j] == '|' && paren_depth(#[trigger] s1.take(j)) == 0;
        assert(s1.take(j) =~= b.take(j));
        if j < k {
            assert(s.take(j) =~= b.take(j));
            assert(s[j] == s1[j]);
        }
    }
}

/// The marker a group with body `b` is tokenized with: `|` where the body
/// holds a `|` at its own depth, `(` otherwise.
pub open spec fn group_marker(b: Seq<char>) -> Seq<char> {
    if has_top_level_bar(b) {
        seq!['|']
    } else {
        seq!['(']
    }
}

proof fn lemma_group_body(p: Seq<char>, b: Seq<char>, k: int)
    requires
        p == seq!['('] + b + seq![')'],
        is_ascii(p),
        balanced_body(b),
        0 <= k <= b.len(),
    ensures
        split_from(
            p,
            k + 1,
            SplitState {
                in_group: true,
                group: b.take(k),
                alternation: has_top_level_bar(b.take(k)),
                nest: paren_depth(b.take(k)),
                ..split_start()
            },
        ) == Some(at_rest(seq![group_marker(b), b])),
    decreases b.len() - k,
{
    lemma_ascii_blen(p);
    let st = SplitState {
        in_group: true,
        group: b.take(k),
        alternation: has_top_level_bar(b.take(k)),
        nest: paren_depth(b.take(k)),
        ..split_start()
    };
    assert(paren_depth(b.take(k)) >= 0);
    if k < b.len() {
        let c = b[k];
        assert(p[k + 1] == c);
        assert(char_at(p, k + 1) == Some(c));
        lemma_depth_step(b, k);
        lemma_bar_step(b, k);
        assert(paren_depth(b.take(k + 1)) >= 0 && paren_depth(b.take(k + 1)) <= i32::MAX);
        assert(b.take(k).push(c) =~= b.take(k + 1));
        let next = SplitState {
            in_group: true,
            group: b.take(k + 1),
            alternation: has_top_level_bar(b.take(k + 1)),
            nest: paren_depth(b.take(k + 1)),
            ..split_start()
        };
        assert(split_step(p, k + 1, st) == Some(next));
        assert(split_from(p, k + 1, st) == split_from(p, k + 2, next));
        lemma_group_body(p, b, k + 1);
    } else {
        assert(p[k + 1] == ')');
        assert(char_at(p, k + 1) == Some(')'));
        assert(b.take(k) =~= b);
        let out = seq![group_marker(b), b];
        assert(Seq::<Seq<char>>::empty().push(group_marker(b)).push(b) =~= out);
        assert(split_step(p, k + 1, st) == Some(at_rest(out)));
        assert(split_from(p, k + 2, at_rest(out)) == Some(at_rest(out)));
        assert(split_from(p, k + 1, st) == split_from(p, k + 2, at_rest(out)));
    }
}

/// A group is tokenized as its marker and its body, and the marker is `|`
/// exactly when the body holds a `|` outside its own inner parentheses: a
/// `|` inside a nested group leaves the outer group a plain one.
pub proof fn law_group_marker(b: Seq<char>)
    requires
        is_ascii(b),
        balanced_body(b),
        b.len() + 2 <= usize::MAX,
    ensures
        split_pattern(seq!['('] + b + seq![')']) == Some(seq![group_marker(b), b]),
{
    let p = seq!['('] + b + seq![')'];
    assert(is_ascii(p)) by {
        assert forall|i: int| 0 <= i < p.len() implies (#[trigger] p[i] as u32) < 0x80 by {
            if 1 <= i <= b.len() {
                assert(p[i] == b[i - 1]);
            }
        }
    }
    lemma_ascii_blen(p);
    assert(p[0] == '(');
    assert(char_at(p, 0) == Some('('));
    assert(b.take(0) =~= Seq::<char>::empty());
    assert(!has_top_level_bar(Seq::<char>::empty()));
    let st = SplitState {
        in_group: true,
        group: b.take(0),
        alternation: has_top_level_bar(b.take(0)),
        nest: paren_depth(b.take(0)),
        ..split_start()
    };
    assert(split_step(p, 0, split_start()) == Some(st));
    lemma_group_body(p, b, 0);
}

} // verus!
