use grep_starter_rust::driver::{find_match_start, match_pattern};
use grep_starter_rust::matcher::{check_branch, match_character};
use grep_starter_rust::parser::{parse_chars, ParseError};
use grep_starter_rust::pattern::{Pattern, QuantKind};

fn matches(input: &str, pattern: &str) -> bool {
    match_pattern(input, pattern).unwrap()
}

fn chars(s: &str) -> Vec<char> {
    s.chars().collect()
}

#[test]
fn quantifiers_on_empty_input() {
    assert!(matches("", "a*"));
    assert!(matches("", "a?"));
    assert!(!matches("", "a+"));
    assert!(!matches("", "a"));
}

#[test]
fn digit_class() {
    assert!(matches("abc123", "\\d"));
    assert!(!matches("abc", "\\d"));
}

#[test]
fn negated_class() {
    assert!(matches("apple", "[^xyz]"));
    assert!(!matches("xyz", "[^xyz]"));
}

#[test]
fn one_or_more() {
    assert!(matches("caaats", "ca+ts"));
    assert!(matches("cats", "ca+ts"));
    assert!(!matches("cts", "ca+ts"));
}

#[test]
fn backreference_to_group() {
    assert!(matches("cat and cat", "(cat) and \\1"));
    assert!(!matches("cat and dog", "(cat) and \\1"));
}

#[test]
fn anchors() {
    assert!(matches("log", "^log$"));
    assert!(!matches("logs", "^log$"));
    assert!(matches("xlogx", "log"));
    assert!(!matches("xlog", "^log"));
    assert!(matches("xlog", "log$"));
    assert!(!matches("logx", "log$"));
}

#[test]
fn start_anchor_tries_only_offset_zero() {
    let tree = Pattern::parse_pattern("b").unwrap();
    let text = chars("ab");
    assert_eq!(find_match_start(&tree, 0, &text, false, false), Some(1));
    assert_eq!(find_match_start(&tree, 0, &text, true, false), None);
    assert_eq!(find_match_start(&tree, 0, &chars("ba"), true, false), Some(0));
}

#[test]
fn first_offset_wins() {
    let tree = Pattern::parse_pattern("a\\d").unwrap();
    assert_eq!(find_match_start(&tree, 0, &chars("xa1a2"), false, false), Some(1));
    assert_eq!(find_match_start(&tree, 0, &chars("xa2"), false, true), Some(1));
    assert_eq!(find_match_start(&tree, 0, &chars("a2x"), false, true), None);
}

#[test]
fn repeated_runs_agree() {
    let first = match_pattern("cat and cat", "(cat) and \\1");
    let second = match_pattern("cat and cat", "(cat) and \\1");
    assert_eq!(first, second);
    assert_eq!(first, Ok(true));
    let first = match_pattern("cat and dog", "(\\w+) and \\1");
    let second = match_pattern("cat and dog", "(\\w+) and \\1");
    assert_eq!(first, second);
    assert_eq!(first, Ok(false));
}

#[test]
fn failed_branch_leaves_no_capture() {
    // The left branch captures group 2 and then fails; the right one wins.
    assert!(!matches("aba", "((a)x|ab)\\2"));
    assert!(matches("axa", "((a)x|ab)\\2"));
    assert!(matches("abab", "((a)x|ab)\\1"));
}

#[test]
fn groups_are_numbered_by_opening_parenthesis() {
    assert!(matches("abab", "((a)b)\\1"));
    assert!(!matches("aba", "((a)b)\\1"));
    assert!(matches("aba", "((a)b)\\2"));
}

#[test]
fn backreference_to_missing_group_fails() {
    assert!(!matches("aa", "a\\1"));
    assert!(!matches("aa", "a\\2(a)"));
}

#[test]
fn alternation_and_classes() {
    assert!(matches("a dog", "(cat|dog)"));
    assert!(!matches("a cow", "(cat|dog)"));
    assert!(matches("x_1", "^\\w\\w\\w$"));
    assert!(!matches("x-1", "^\\w\\w\\w$"));
    assert!(matches("b", "^[abc]$"));
    assert!(!matches("d", "^[abc]$"));
    assert!(matches("q", "^.$"));
    assert!(!matches("", "^.$"));
    assert!(matches("ac", "^ab?c$"));
    assert!(matches("abc", "^ab?c$"));
    assert!(!matches("abbc", "^ab?c$"));
}

#[test]
fn zero_or_more_is_greedy_without_giving_back() {
    assert!(matches("aaab", "^a*b$"));
    assert!(!matches("aaa", "^a*a$"));
}

#[test]
fn escaped_characters_are_literal() {
    assert!(matches("a.b", "a\\.b"));
    assert!(!matches("axb", "a\\.b"));
    assert!(matches("a\\b", "a\\\\b"));
}

#[test]
fn anchors_alone() {
    assert!(matches("", "^$"));
    assert!(!matches("x", "^$"));
    assert!(matches("anything", "^"));
    assert!(matches("anything", "$"));
}

#[test]
fn parse_errors_are_reported() {
    assert_eq!(match_pattern("abc", "a\\"), Err(ParseError::DanglingEscape));
    assert_eq!(match_pattern("abc", "[ab"), Err(ParseError::UnterminatedClass));
    assert_eq!(match_pattern("abc", "[]"), Err(ParseError::EmptyClass));
    assert_eq!(match_pattern("abc", "(ab"), Err(ParseError::UnterminatedGroup));
    assert_eq!(match_pattern("abc", "+a"), Err(ParseError::DanglingQuantifier));
    assert_eq!(match_pattern("abc", "a**"), Err(ParseError::DanglingQuantifier));
}

#[test]
fn match_character_reports_end_and_captures() {
    let text = chars("cat");
    let mut captured: Vec<Option<(usize, usize)>> = vec![None];
    assert_eq!(match_character(&text, 0, &Pattern::Literal('c'), &mut captured), Some(1));
    assert_eq!(match_character(&text, 0, &Pattern::Literal('a'), &mut captured), None);
    assert_eq!(match_character(&text, 3, &Pattern::AnyChar, &mut captured), None);
    let group = Pattern::Group {
        number: 1,
        children: vec![Pattern::Literal('a'), Pattern::Literal('t')],
    };
    assert_eq!(match_character(&text, 1, &group, &mut captured), Some(3));
    assert_eq!(captured, vec![Some((1, 3))]);
    assert_eq!(match_character(&text, 0, &Pattern::Backreference(1), &mut captured), None);
    let star = Pattern::Quantified(Box::new(Pattern::WordClass), QuantKind::ZeroOrMore);
    assert_eq!(match_character(&text, 0, &star, &mut captured), Some(3));
    let plus = Pattern::Quantified(Box::new(Pattern::DigitClass), QuantKind::OneOrMore);
    assert_eq!(match_character(&text, 0, &plus, &mut captured), None);
}

#[test]
fn failed_sequence_restores_captures() {
    let text = chars("ab");
    let mut captured: Vec<Option<(usize, usize)>> = vec![None];
    let items = vec![
        Pattern::Group { number: 1, children: vec![Pattern::Literal('a')] },
        Pattern::Literal('x'),
    ];
    assert_eq!(check_branch(&text, 0, &items, &mut captured), None);
    assert_eq!(captured, vec![None]);
    let items = vec![
        Pattern::Group { number: 1, children: vec![Pattern::Literal('a')] },
        Pattern::Literal('b'),
    ];
    assert_eq!(check_branch(&text, 0, &items, &mut captured), Some(2));
    assert_eq!(captured, vec![Some((0, 1))]);
}

#[test]
fn group_count_from_parse() {
    let (items, groups) = parse_chars(&chars("((a)|b)(c)")).unwrap();
    assert_eq!(groups, 3);
    assert_eq!(items.len(), 2);
}
