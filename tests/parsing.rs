use grep_starter_rust::parser::ParseError;
use grep_starter_rust::pattern::{Pattern, QuantKind};

#[test]
fn parsing_twice_gives_equal_trees() {
    let pattern = "^(a|b\\d)+[^xy]*\\1$";
    assert_eq!(Pattern::parse_pattern(pattern), Pattern::parse_pattern(pattern));
    assert_eq!(Pattern::parse_pattern("(a"), Pattern::parse_pattern("(a"));
}

#[test]
fn atoms() {
    assert_eq!(
        Pattern::parse_pattern("a.\\d\\w\\\\\\3"),
        Ok(vec![
            Pattern::Literal('a'),
            Pattern::AnyChar,
            Pattern::DigitClass,
            Pattern::WordClass,
            Pattern::Literal('\\'),
            Pattern::Backreference(3),
        ])
    );
}

#[test]
fn empty_pattern() {
    assert_eq!(Pattern::parse_pattern(""), Ok(vec![]));
}

#[test]
fn one_or_more_becomes_item_then_star() {
    assert_eq!(
        Pattern::parse_pattern("a+"),
        Ok(vec![
            Pattern::Literal('a'),
            Pattern::Quantified(Box::new(Pattern::Literal('a')), QuantKind::ZeroOrMore),
        ])
    );
}

#[test]
fn optional_and_star() {
    assert_eq!(
        Pattern::parse_pattern("a?b*"),
        Ok(vec![
            Pattern::Quantified(Box::new(Pattern::Literal('a')), QuantKind::ZeroOrOne),
            Pattern::Quantified(Box::new(Pattern::Literal('b')), QuantKind::ZeroOrMore),
        ])
    );
}

#[test]
fn classes() {
    assert_eq!(
        Pattern::parse_pattern("[ab][^c]"),
        Ok(vec![
            Pattern::CharSet { members: vec!['a', 'b'], negated: false },
            Pattern::CharSet { members: vec!['c'], negated: true },
        ])
    );
}

#[test]
fn groups_and_alternation() {
    assert_eq!(
        Pattern::parse_pattern("(a|(b))(c)"),
        Ok(vec![
            Pattern::Group {
                number: 1,
                children: vec![Pattern::Alternation(
                    vec![Pattern::Literal('a')],
                    vec![Pattern::Group { number: 2, children: vec![Pattern::Literal('b')] }],
                )],
            },
            Pattern::Group { number: 3, children: vec![Pattern::Literal('c')] },
        ])
    );
}

#[test]
fn group_with_quantifier_and_escaped_paren() {
    assert_eq!(
        Pattern::parse_pattern("(\\)[)])?"),
        Ok(vec![Pattern::Quantified(
            Box::new(Pattern::Group {
                number: 1,
                children: vec![
                    Pattern::Literal(')'),
                    Pattern::CharSet { members: vec![')'], negated: false },
                ],
            }),
            QuantKind::ZeroOrOne,
        )])
    );
}

#[test]
fn bar_outside_group_is_literal() {
    assert_eq!(
        Pattern::parse_pattern("a|b)"),
        Ok(vec![
            Pattern::Literal('a'),
            Pattern::Literal('|'),
            Pattern::Literal('b'),
            Pattern::Literal(')'),
        ])
    );
}

#[test]
fn parse_errors() {
    assert_eq!(Pattern::parse_pattern("\\"), Err(ParseError::DanglingEscape));
    assert_eq!(Pattern::parse_pattern("[^a"), Err(ParseError::UnterminatedClass));
    assert_eq!(Pattern::parse_pattern("[^]"), Err(ParseError::EmptyClass));
    assert_eq!(Pattern::parse_pattern("((a)"), Err(ParseError::UnterminatedGroup));
    assert_eq!(Pattern::parse_pattern("*"), Err(ParseError::DanglingQuantifier));
    assert_eq!(Pattern::parse_pattern("(?a)"), Err(ParseError::DanglingQuantifier));
}

#[test]
fn clone_keeps_the_tree() {
    let tree = Pattern::parse_pattern("(a|[bc]+)?\\1").unwrap();
    let copy: Vec<Pattern> = tree.iter().map(|p| p.clone()).collect();
    assert_eq!(tree, copy);
}
