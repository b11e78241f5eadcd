use lib::helpers::{get_options, is_alphanumeric, is_digit, pattern_splitter, try_pattern_splitter};
use lib::matches::{
    match_pattern, matchexact, matchexactgroup, matchgen, matchhere, matchplus, matchrange, matchrangegroup,
    matchstar, try_matchgen,
};

fn strs(v: &[&str]) -> Vec<String> {
    v.iter().map(|s| s.to_string()).collect()
}

#[test]
fn digit_class() {
    assert!(is_digit('0'));
    assert!(is_digit('7'));
    assert!(is_digit('9'));
    assert!(!is_digit('a'));
    assert!(!is_digit('/'));
    assert!(!is_digit(':'));
    // only the low byte of the scalar value is looked at
    assert!(is_digit('\u{130}'));
}

#[test]
fn word_class() {
    assert!(is_alphanumeric('_'));
    assert!(is_alphanumeric('a'));
    assert!(is_alphanumeric('Z'));
    assert!(is_alphanumeric('5'));
    assert!(!is_alphanumeric('-'));
    assert!(!is_alphanumeric(' '));
    assert!(!is_alphanumeric('@'));
}

#[test]
fn every_digit_is_a_word_character() {
    for c in ['0', '3', '9', '\u{130}', '\u{139}'] {
        assert!(is_digit(c));
        assert!(is_alphanumeric(c));
    }
}

#[test]
fn options_split_at_bars() {
    assert_eq!(get_options("a|b||c"), strs(&["a", "b", "", "c"]));
    assert_eq!(get_options("cat"), strs(&["cat"]));
    assert_eq!(get_options(""), strs(&[""]));
    assert_eq!(get_options("|"), strs(&["", ""]));
}

#[test]
fn options_join_back() {
    let p = "x(y)|z||w";
    let opts = get_options(p);
    assert_eq!(opts.len(), p.matches('|').count() + 1);
    assert_eq!(opts.join("|"), p);
}

#[test]
fn splitter_tokens() {
    assert_eq!(
        pattern_splitter("a(b|c)\\d[xy]{2,3}"),
        strs(&["a", "|", "b|c", "\\d", "[xy]", "{2,3"])
    );
    assert_eq!(pattern_splitter("(ab)c"), strs(&["(", "ab", "c"]));
    assert_eq!(pattern_splitter("a{2}"), strs(&["a", "{2"]));
    assert_eq!(pattern_splitter("a{2,}b"), strs(&["a", "{2,", "b"]));
    assert_eq!(pattern_splitter("\\\\x"), strs(&["\\", "x"]));
    assert_eq!(pattern_splitter("\\1"), strs(&["\\1"]));
    assert_eq!(pattern_splitter("((a)b)"), strs(&["(", "(a)b"]));
}

#[test]
fn splitter_plain_characters() {
    assert_eq!(pattern_splitter("abc"), strs(&["a", "b", "c"]));
    assert_eq!(pattern_splitter(""), strs(&[]));
}

#[test]
fn splitter_drops_unclosed_class() {
    assert_eq!(pattern_splitter("a[bc"), strs(&["a"]));
}

#[test]
fn literal_matches() {
    assert_eq!(matchgen("a", "banana"), strs(&["a", "a", "a"]));
    assert_eq!(matchgen("an", "banana"), strs(&["an", "an"]));
    assert_eq!(matchgen("z", "banana"), strs(&[]));
}

#[test]
fn anchored_start() {
    assert_eq!(matchgen("^ba", "banana"), strs(&["ba"]));
    assert_eq!(matchgen("^na", "banana"), strs(&[]));
}

#[test]
fn anchored_end() {
    assert_eq!(matchgen("x$", "ax"), strs(&["x"]));
    assert_eq!(matchgen("x$", "xa"), strs(&[]));
}

#[test]
fn caret_alone_is_a_literal() {
    assert_eq!(matchgen("^", "abc"), strs(&[]));
    assert_eq!(matchgen("^", "a^c"), strs(&["^"]));
}

#[test]
fn empty_pattern_matches_empty_at_each_position() {
    assert_eq!(matchgen("", "ab"), strs(&["", ""]));
    assert_eq!(matchgen("", ""), strs(&[]));
}

#[test]
fn one_or_more_inside() {
    assert_eq!(matchgen("ca+t", "caaats"), strs(&["caaat"]));
    assert_eq!(matchgen("ca+t", "ct"), strs(&[]));
}

#[test]
fn trailing_plus_checks_the_whole_rest() {
    // A last token with `+` reports one character wherever the rest holds a match.
    assert_eq!(matchgen("\\d+", "ab123c"), strs(&["a", "b", "1", "2", "3"]));
}

#[test]
fn wildcard() {
    assert_eq!(matchgen("c.t", "cat cot"), strs(&["cat", "cot"]));
}

#[test]
fn classes() {
    assert_eq!(matchgen("[xy]z", "azyzxz"), strs(&["yz", "xz"]));
    assert_eq!(matchgen("[^ab]", "abc"), strs(&["c"]));
    assert_eq!(matchgen("\\w\\d", "a1-b2"), strs(&["a1", "b2"]));
}

#[test]
fn optional_token() {
    assert_eq!(matchgen("colou?r", "color"), strs(&["color"]));
    assert_eq!(matchgen("colou?r", "colour"), strs(&["colour"]));
}

#[test]
fn star_token() {
    assert_eq!(matchgen("ab*c", "ac abbc"), strs(&["ac", "abbc"]));
}

#[test]
fn group_then_literal() {
    assert_eq!(matchgen("(ab)c", "xabc"), strs(&["abc"]));
}

#[test]
fn alternation_group() {
    assert_eq!(matchgen("(cat|dog)", "hotdog"), strs(&["dog"]));
    assert_eq!(matchgen("(cat|dog)s", "cats dogs"), strs(&["cats", "dogs"]));
}

#[test]
fn back_reference() {
    assert_eq!(matchgen("(a)\\1", "xaa"), strs(&["aa"]));
    assert_eq!(matchgen("(a)\\1", "xab"), strs(&[]));
}

#[test]
fn exact_repetition() {
    assert_eq!(matchgen("a{2}", "caaat"), strs(&["aa"]));
}

#[test]
fn bounded_repetition() {
    assert_eq!(matchgen("a{2,3}b", "aaaab"), strs(&["aaab"]));
}

#[test]
fn non_ascii_text() {
    assert_eq!(matchgen("a", "\u{e9}a"), strs(&["a"]));
}

#[test]
fn matches_are_pieces_of_the_text() {
    let text = "the cat sat on the mat";
    for p in ["at", "t.e", "[cm]at", "s?at"] {
        for m in matchgen(p, text) {
            assert!(text.contains(m.as_str()));
        }
    }
}

#[test]
fn matches_do_not_overlap() {
    assert_eq!(matchgen("aa", "aaaaa"), strs(&["aa", "aa"]));
    // each match is found after the end of the previous one
    let text = "abcabcab";
    let ms = matchgen("ca", text);
    assert_eq!(ms, strs(&["ca", "ca"]));
    let mut from = 0;
    for m in &ms {
        let at = text[from..].find(m.as_str()).unwrap() + from;
        from = at + m.len();
    }
    assert!(from <= text.len());
}

#[test]
fn literal_found_exactly_when_present() {
    assert_eq!(matchgen("cat", "concatenate"), strs(&["cat"]));
    assert_eq!(matchgen("dog", "concatenate"), strs(&[]));
    assert_eq!(matchgen("te", "concatenate"), strs(&["te", "te"]));
}

#[test]
fn repeated_group() {
    assert_eq!(matchgen("(ab)*c", "xababc"), strs(&["ababc"]));
    assert_eq!(matchgen("(ab)*c", "c"), strs(&["c"]));
    assert_eq!(matchgen("(ab){2}", "xababab"), strs(&["abab"]));
}

#[test]
fn alternation_then_rest() {
    assert_eq!(matchgen("(a|b)c", "acbc"), strs(&["ac", "bc"]));
}

#[test]
fn checked_splitter_agrees_where_tokenizing_works() {
    for p in ["a(b|c)\\d[xy]{2,3}", "(ab)c", "a{2,}b", "\\\\x", "", "a[bc"] {
        assert_eq!(try_pattern_splitter(p), Some(pattern_splitter(p)));
    }
}

#[test]
fn checked_splitter_refuses_what_panics() {
    // an escape or a quantifier cut short by the end of the pattern
    assert_eq!(try_pattern_splitter("ab\\"), None);
    assert_eq!(try_pattern_splitter("a{2"), None);
    assert_eq!(try_pattern_splitter("a{2,"), None);
    // an escape of a character two bytes wide slices inside it
    assert_eq!(try_pattern_splitter("\\\u{e9}"), None);
}

#[test]
fn star_is_range_from_zero() {
    for text in ["ac", "abbbc", "xabcy", "ab", ""] {
        assert_eq!(matchgen("ab*c", text), matchgen("ab{0,}c", text));
    }
    assert_eq!(matchgen("ab{0,}c", "abbbc"), strs(&["abbbc"]));
}

#[test]
fn plus_is_one_then_star() {
    for text in ["ac", "abc", "abbbc", "xabbcy", "bc"] {
        assert_eq!(matchgen("ab+c", text), matchgen("abb*c", text));
    }
    assert_eq!(matchgen("ab+c", "xabbcy"), strs(&["abbc"]));
}

#[test]
fn exact_is_range_with_equal_bounds() {
    for text in ["caaat", "a", "aaaa"] {
        assert_eq!(matchgen("a{2}", text), matchgen("a{2,2}", text));
    }
    assert_eq!(matchgen("a{2,2}", "aaaa"), strs(&["aa", "aa"]));
    assert_eq!(matchgen("(ab){2}", "xababab"), matchgen("(ab){2,2}", "xababab"));
}

#[test]
fn raising_the_bound_keeps_a_match() {
    assert_eq!(matchgen("a{1,2}b", "aab"), strs(&["aab"]));
    assert_eq!(matchgen("a{1,5}b", "aab"), strs(&["aab"]));
}

#[test]
fn negated_class_is_the_complement_on_one_character() {
    for x in ["a", "b", "c", "z", "-"] {
        assert_eq!(matchgen("[^abc]", x).is_empty(), !matchgen("[abc]", x).is_empty());
    }
    assert_eq!(matchgen("[abc]", "b"), strs(&["b"]));
    assert_eq!(matchgen("[^abc]", "z"), strs(&["z"]));
}

#[test]
fn earlier_captures_stay_for_back_references() {
    assert_eq!(matchgen("(a)(b)\\1", "aba"), strs(&["aba"]));
    assert_eq!(matchgen("(a)(b)\\2", "abb"), strs(&["abb"]));
    assert_eq!(matchgen("(a)(b)\\1", "abb"), strs(&[]));
}

#[test]
fn starred_group_that_consumes_finishes() {
    assert_eq!(matchgen("(ab)*c", "abababc"), strs(&["abababc"]));
    assert_eq!(matchgen("(ab)*c", "ababx"), strs(&[]));
}

#[test]
fn empty_matches_advance_one_position() {
    assert_eq!(matchgen("a*", "baa"), strs(&["", "", ""]));
}

/// Puts back what tokenizing drops: the parentheses of a group, the `}` of a
/// quantifier, and one backslash of an escaped backslash.
fn render(tokens: &[String]) -> String {
    let mut out = String::new();
    let mut k = 0;
    while k < tokens.len() {
        let t = &tokens[k];
        if (t == "(" || t == "|") && k + 1 < tokens.len() {
            out.push('(');
            out.push_str(&tokens[k + 1]);
            out.push(')');
            k += 2;
            continue;
        }
        if t.starts_with('{') {
            out.push_str(t);
            out.push('}');
        } else if t == "\\" {
            out.push_str("\\\\");
        } else {
            out.push_str(t);
        }
        k += 1;
    }
    out
}

#[test]
fn tokens_render_back_to_the_pattern() {
    for p in [
        "a(b|c)\\d[xy]{2,3}",
        "(ab)c",
        "a{2}",
        "a{2,}b",
        "\\\\x",
        "\\1",
        "((a)b)",
        "[(|]x",
        "c.t$",
        "",
    ] {
        assert_eq!(render(&pattern_splitter(p)), p);
    }
}

#[test]
fn budgeted_search_agrees_when_it_finishes() {
    assert_eq!(try_matchgen("a", "banana", 1000), Some(strs(&["a", "a", "a"])));
    assert_eq!(try_matchgen("(ab)*c", "xababc", 1000), Some(strs(&["ababc"])));
    assert_eq!(try_matchgen("^ba", "banana", 1000), Some(matchgen("^ba", "banana")));
}

#[test]
fn budgeted_search_refuses_what_panics() {
    // a token the matcher cannot read
    assert_eq!(try_matchgen("a\\s", "as", 1000), None);
    assert_eq!(try_matchgen("a\\s", "as", u64::MAX), None);
    // a pattern the tokenizer cannot cut
    assert_eq!(try_matchgen("ab\\", "ab", 1000), None);
    // a character accepted at the start of a text whose first character is
    // two bytes wide: the rest is sliced off a char boundary
    assert_eq!(try_matchgen("[^abc]", "\u{e9}", 1000), None);
}

#[test]
fn budgeted_search_stops_at_its_budget() {
    assert_eq!(try_matchgen("a", "banana", 0), None);
    assert_eq!(try_matchgen("a", "banana", 2), None);
    // a starred group whose rounds consume nothing never finishes
    assert_eq!(try_matchgen("(a*)*b", "aaa", 10000), None);
}

fn chars(s: &str) -> Vec<char> {
    s.chars().collect()
}

fn tokens(p: &str) -> Vec<Vec<char>> {
    pattern_splitter(p).iter().map(|t| chars(t)).collect()
}

#[test]
fn class_test_on_one_character() {
    for x in ['a', 'b', 'z', '-'] {
        let pos = match_pattern(&[x], &chars("[abc]")).unwrap();
        let neg = match_pattern(&[x], &chars("[^abc]")).unwrap();
        assert_eq!(neg, !pos);
    }
    assert_eq!(match_pattern(&['b'], &chars("[abc]")), Some(true));
    // a token the matcher cannot read
    assert_eq!(match_pattern(&['s'], &chars("\\s")), None);
}

#[test]
fn exact_repetition_is_range_with_equal_bounds() {
    let a = chars("a");
    assert_eq!(matchexact(&a, &[], 2, &chars("aaa"), 0, 100), Some((true, 2)));
    assert_eq!(matchexact(&a, &[], 2, &chars("ab"), 0, 100), Some((false, 0)));
    for text in ["aaa", "ab", "", "aab"] {
        let t = chars(text);
        assert_eq!(matchexact(&a, &[], 2, &t, 0, 100), matchrange(&a, &[], 2, 2, &t, 0, 100));
    }
    let group = vec![chars("("), chars("ab")];
    assert_eq!(matchexactgroup(&group, &[], 2, &chars("ababab"), 0, 100), Some((true, 4)));
    assert_eq!(
        matchexactgroup(&group, &[], 2, &chars("ababab"), 0, 100),
        matchrangegroup(&group, &[], 2, 2, &chars("ababab"), 0, 100)
    );
}

#[test]
fn star_and_plus_against_range() {
    let b = chars("b");
    let rest = tokens("c");
    for text in ["c", "bc", "bbbc", "bx", ""] {
        let t = chars(text);
        let n = text.len() as i32;
        assert_eq!(matchstar(&b, &rest, &t, 0, 100), matchrange(&b, &rest, 0, n, &t, 0, 100));
        let plus = matchplus(&b, &rest, &t, 0, 100);
        let expected = if !t.is_empty() && t[0] == 'b' {
            match matchstar(&b, &rest, &t[1..], -1, 100) {
                Some((true, k)) => Some((true, k + 1)),
                Some((false, _)) => Some((false, 0)),
                None => None,
            }
        } else {
            Some((false, 0))
        };
        assert_eq!(plus, expected);
    }
}

#[test]
fn raised_bound_keeps_the_match() {
    let a = chars("a");
    let rest = tokens("b");
    let t = chars("aab");
    assert_eq!(matchrange(&a, &rest, 1, 2, &t, 0, 100), Some((true, 3)));
    assert_eq!(matchrange(&a, &rest, 1, 5, &t, 0, 100), Some((true, 3)));
}

#[test]
fn match_step_keeps_earlier_captures() {
    let mut captures = vec![Some(chars("z"))];
    let r = matchhere(&tokens("(a)b"), &chars("ab"), &mut captures, 0, 100);
    assert_eq!(r, Some((true, 2)));
    assert_eq!(captures, vec![Some(chars("z")), Some(chars("a"))]);
    let mut captures = vec![Some(chars("z")), None];
    let r = matchhere(&tokens("a+b"), &chars("aab"), &mut captures, 0, 100);
    assert_eq!(r, Some((true, 3)));
    assert_eq!(captures, vec![Some(chars("z")), None]);
}
