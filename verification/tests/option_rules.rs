use grammar_macros::option_rules::{
    parse_arrow, parse_child, parse_children_options, parse_grammar_rule, parse_grammar_rules,
    Child, ChildValue, GrammarRule, ParseError,
};
use grammar_macros::token::{Delimiter, Spacing, Token, TokenIter};

fn ident(s: &str) -> Token {
    Token::Ident(s.to_string())
}

fn lit(s: &str) -> Token {
    Token::Literal(s.to_string())
}

fn p(c: char) -> Token {
    Token::Punct(c, Spacing::Alone)
}

fn joint(c: char) -> Token {
    Token::Punct(c, Spacing::Joint)
}

fn child(v: ChildValue, next_imediat: bool, repeatable: bool) -> Child {
    Child { value: v, repeatable, next_imediat }
}

fn vi(s: &str) -> ChildValue {
    ChildValue::Ident(s.to_string())
}

fn vl(s: &str) -> ChildValue {
    ChildValue::Literal(s.to_string())
}

#[test]
fn option_rule_with_joined_children() {
    // a -> b . & c * | "d" ;
    let mut it = TokenIter::new(vec![
        ident("a"), joint('-'), p('>'),
        ident("b"), p('.'), p('&'), ident("c"), p('*'), p('|'), lit("\"d\""), p(';'),
    ]);
    let r = parse_grammar_rule(&mut it).unwrap();
    assert_eq!(
        r,
        Some(GrammarRule {
            parent: "a".to_string(),
            children_options: vec![
                vec![child(vi("b"), true, false), child(vi("c"), false, true)],
                vec![child(vl("\"d\""), false, false)],
            ],
        })
    );
    assert_eq!(it.len(), 0);
}

#[test]
fn marks_may_repeat_in_any_order() {
    let mut it = TokenIter::new(vec![joint('='), p('>'), ident("b"), p('*'), p('.'), p('*'), p('.'), p(';')]);
    assert_eq!(parse_children_options(&mut it), Ok(vec![vec![child(vi("b"), true, true)]]));
}

#[test]
fn arrow_forms() {
    let mut it = TokenIter::new(vec![joint('-'), joint('>')]);
    assert_eq!(parse_arrow(&mut it), Ok(()));
    let mut it = TokenIter::new(vec![joint('='), p('>')]);
    assert_eq!(parse_arrow(&mut it), Ok(()));
    let mut it = TokenIter::new(vec![p('-'), p('>')]);
    assert_eq!(parse_arrow(&mut it), Err(ParseError::UnexpectedToken()));
    assert_eq!(it.len(), 1);
    let mut it = TokenIter::new(vec![joint('-'), p('<')]);
    assert_eq!(parse_arrow(&mut it), Err(ParseError::UnexpectedToken()));
    let mut it = TokenIter::new(vec![joint('-'), ident("x")]);
    assert_eq!(parse_arrow(&mut it), Err(ParseError::UnexpectedToken()));
    let mut it = TokenIter::new(vec![joint('=')]);
    assert_eq!(parse_arrow(&mut it), Err(ParseError::NoTokensLeft()));
    let mut it = TokenIter::new(vec![]);
    assert_eq!(parse_arrow(&mut it), Err(ParseError::NoTokensLeft()));
}

#[test]
fn child_forms() {
    let mut it = TokenIter::new(vec![ident("x"), lit("2"), p('.'), Token::Group(Delimiter::Bracket, String::new())]);
    assert_eq!(parse_child(&mut it), Ok(child(vi("x"), false, false)));
    assert_eq!(parse_child(&mut it), Ok(child(vl("2"), false, false)));
    assert_eq!(parse_child(&mut it), Err(ParseError::UnexpectedToken()));
    assert_eq!(parse_child(&mut it), Err(ParseError::UnexpectedToken()));
    assert_eq!(parse_child(&mut it), Err(ParseError::NoTokensLeft()));
}

#[test]
fn no_token_means_no_rule() {
    let mut it = TokenIter::new(vec![]);
    assert_eq!(parse_grammar_rule(&mut it), Ok(None));
    assert_eq!(parse_grammar_rules(&mut it), Ok(vec![]));
}

#[test]
fn rule_must_start_with_a_name() {
    let mut it = TokenIter::new(vec![lit("1"), joint('-'), p('>'), ident("b"), p(';')]);
    assert_eq!(parse_grammar_rule(&mut it), Err(ParseError::UnexpectedToken()));
    assert_eq!(it.len(), 4);
}

#[test]
fn unexpected_tokens_after_a_child() {
    for bad in vec![ident("c"), p(','), Token::Group(Delimiter::Parenthesis, "x".to_string())] {
        let mut it = TokenIter::new(vec![joint('-'), p('>'), ident("b"), bad, p(';')]);
        assert_eq!(parse_children_options(&mut it), Err(ParseError::UnexpectedToken()));
        assert_eq!(it.len(), 1);
    }
    let mut it = TokenIter::new(vec![joint('-'), p('>'), ident("b"), p('&'), p(';')]);
    assert_eq!(parse_children_options(&mut it), Err(ParseError::UnexpectedToken()));
}

#[test]
fn several_rules_and_truncation() {
    let mut it = TokenIter::new(vec![
        ident("a"), joint('-'), p('>'), ident("b"), p(';'),
        ident("c"), joint('='), p('>'), ident("d"), p('|'), ident("e"), p(';'),
    ]);
    let rules = parse_grammar_rules(&mut it).unwrap();
    assert_eq!(rules.len(), 2);
    assert_eq!(rules[1].parent, "c");
    assert_eq!(rules[1].children_options, vec![vec![child(vi("d"), false, false)], vec![child(vi("e"), false, false)]]);
    assert_eq!(it.len(), 0);

    // A rule cut short is an error here.
    let mut it = TokenIter::new(vec![ident("a"), joint('-'), p('>'), ident("b"), p(';'), ident("c"), joint('-'), p('>'), ident("d")]);
    assert_eq!(parse_grammar_rules(&mut it), Err(ParseError::NoTokensLeft()));
}

#[test]
fn option_rule_leaves_what_follows_it() {
    let mut it = TokenIter::new(vec![ident("a"), joint('-'), p('>'), ident("b"), p('.'), p('*'), p(';'), lit("9")]);
    let r = parse_grammar_rule(&mut it).unwrap().unwrap();
    assert_eq!(r.children_options, vec![vec![child(vi("b"), true, true)]]);
    assert_eq!(it.next(), Some(lit("9")));
}

#[test]
fn written_option_rules_read_back() {
    let original = vec![
        GrammarRule {
            parent: "r".to_string(),
            children_options: vec![
                vec![child(vi("x"), false, true), child(vl("'y'"), true, false), child(vi("z"), false, false)],
                vec![child(vi("w"), true, true)],
            ],
        },
        GrammarRule { parent: "s".to_string(), children_options: vec![vec![child(vi("t"), false, false)]] },
    ];
    let tokens = vec![
        ident("r"), joint('-'), p('>'),
        ident("x"), p('*'), p('&'), lit("'y'"), p('.'), p('&'), ident("z"), p('|'), ident("w"), p('.'), p('*'), p(';'),
        ident("s"), joint('-'), p('>'), ident("t"), p(';'),
    ];
    let mut it = TokenIter::new(tokens);
    assert_eq!(parse_grammar_rules(&mut it), Ok(original));
    assert_eq!(it.len(), 0);
}

#[test]
fn mark_runs_with_the_same_marks_read_the_same() {
    let runs = vec![vec![p('.'), p('*')], vec![p('*'), p('.')], vec![p('.'), p('.'), p('*'), p('*'), p('.')]];
    for run in runs {
        let mut tokens = vec![joint('-'), p('>'), ident("b")];
        tokens.extend(run);
        tokens.extend(vec![p('&'), ident("c"), p(';')]);
        let mut it = TokenIter::new(tokens);
        assert_eq!(
            parse_children_options(&mut it),
            Ok(vec![vec![child(vi("b"), true, true), child(vi("c"), false, false)]])
        );
    }
}
