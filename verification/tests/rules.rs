use grammar_macros::rules::{
    parse_arrow, parse_child, parse_grammar_rule, parse_grammar_rules, parse_name,
    parse_rule_content, parse_symbol, Child, ConcatinativeRuleChild, GrammarRule,
    GrammarRuleContent, ParseError,
};
use grammar_macros::token::{Delimiter, Spacing, Token, TokenIter};

fn ident(s: &str) -> Token {
    Token::Ident(s.to_string())
}

fn lit(s: &str) -> Token {
    Token::Literal(s.to_string())
}

fn p(c: char) -> Token {
    Token::Punct(c, Spacing::Alone)
}

fn joint(c: char) -> Token {
    Token::Punct(c, Spacing::Joint)
}

fn arrow() -> Vec<Token> {
    vec![joint('-'), p('>')]
}

/// `name -> body`, with the body's tokens given.
fn rule(name: &str, body: Vec<Token>) -> Vec<Token> {
    let mut v = vec![ident(name)];
    v.extend(arrow());
    v.extend(body);
    v
}

fn cc(child: Child, imediate_next: bool, repeated: bool) -> ConcatinativeRuleChild {
    ConcatinativeRuleChild { child, imediate_next, repeated }
}

fn ci(s: &str) -> Child {
    Child::Ident(s.to_string())
}

fn cl(s: &str) -> Child {
    Child::Literal(s.to_string())
}

#[test]
fn token_iter_hands_out_tokens_in_order() {
    let mut it = TokenIter::new(vec![ident("a"), p(';'), lit("1")]);
    assert_eq!(it.len(), 3);
    assert_eq!(it.next(), Some(ident("a")));
    assert_eq!(it.next(), Some(p(';')));
    assert_eq!(it.next(), Some(lit("1")));
    assert_eq!(it.next(), None);
    assert_eq!(it.next(), None);
}

#[test]
fn options_rule() {
    let mut it = TokenIter::new(rule("a", vec![ident("b"), p('|'), lit("\"c\""), p('|'), ident("d"), p(';')]));
    let r = parse_grammar_rule(&mut it).unwrap();
    assert_eq!(
        r,
        GrammarRule {
            name: "a".to_string(),
            content: GrammarRuleContent::Options(vec![ci("b"), cl("\"c\""), ci("d")]),
        }
    );
    assert_eq!(it.len(), 0);
}

#[test]
fn single_option_rule() {
    let mut it = TokenIter::new(rule("a", vec![ident("b"), p(';')]));
    let r = parse_grammar_rule(&mut it).unwrap();
    assert_eq!(r.content, GrammarRuleContent::Options(vec![ci("b")]));
}

#[test]
fn concatenation_with_marks() {
    let body = vec![
        ident("b"),
        ident("c"), p('.'), p('*'),
        lit("\"x\""), p('*'),
        ident("d"), p('*'), p('.'),
        ident("e"), p('.'),
        ident("f"), p(';'),
    ];
    let mut it = TokenIter::new(rule("a", body));
    let r = parse_grammar_rule(&mut it).unwrap();
    assert_eq!(
        r.content,
        GrammarRuleContent::Concatinative(vec![
            cc(ci("b"), false, false),
            cc(ci("c"), true, true),
            cc(cl("\"x\""), false, true),
            cc(ci("d"), true, true),
            cc(ci("e"), true, false),
            cc(ci("f"), false, false),
        ])
    );
}

#[test]
fn first_child_marks_in_front_of_the_end() {
    let cases = vec![
        (vec![p('.')], cc(ci("b"), true, false)),
        (vec![p('*')], cc(ci("b"), true, false)),
        (vec![p('.'), p('*')], cc(ci("b"), true, true)),
        (vec![p('*'), p('.')], cc(ci("b"), true, true)),
    ];
    for (marks, expected) in cases {
        let mut body = vec![ident("b")];
        body.extend(marks);
        body.push(p(';'));
        let mut it = TokenIter::new(body);
        let c = parse_rule_content(&mut it).unwrap();
        assert_eq!(c, GrammarRuleContent::Concatinative(vec![expected]));
    }
}

#[test]
fn last_child_marks_in_front_of_the_end() {
    let cases = vec![
        (vec![], cc(ci("c"), false, false)),
        (vec![p('.')], cc(ci("c"), true, false)),
        (vec![p('*')], cc(ci("c"), false, true)),
        (vec![p('.'), p('*')], cc(ci("c"), true, true)),
        (vec![p('*'), p('.')], cc(ci("c"), true, true)),
    ];
    for (marks, expected) in cases {
        let mut body = vec![ident("b"), ident("c")];
        body.extend(marks);
        body.push(p(';'));
        let mut it = TokenIter::new(body);
        let c = parse_rule_content(&mut it).unwrap();
        assert_eq!(c, GrammarRuleContent::Concatinative(vec![cc(ci("b"), false, false), expected]));
    }
}

#[test]
fn repeated_mark_is_an_error() {
    let mut it = TokenIter::new(vec![ident("b"), p('.'), p('.'), p(';')]);
    assert_eq!(parse_rule_content(&mut it), Err(ParseError::UnexpectedToken(p('.'))));
    assert_eq!(it.len(), 1);
    let mut it = TokenIter::new(vec![ident("b"), ident("c"), p('*'), p('*'), p(';')]);
    assert_eq!(parse_rule_content(&mut it), Err(ParseError::UnexpectedToken(p('*'))));
    let mut it = TokenIter::new(vec![ident("b"), ident("c"), p('.'), p('*'), p('.'), p(';')]);
    assert_eq!(parse_rule_content(&mut it), Err(ParseError::UnexpectedToken(p('.'))));
}

#[test]
fn bar_after_marks_or_in_concatenation_is_an_error() {
    let mut it = TokenIter::new(vec![ident("b"), p('.'), p('|'), ident("c"), p(';')]);
    assert_eq!(parse_rule_content(&mut it), Err(ParseError::UnexpectedToken(p('|'))));
    let mut it = TokenIter::new(vec![ident("b"), ident("c"), p('|'), ident("d"), p(';')]);
    assert_eq!(parse_rule_content(&mut it), Err(ParseError::UnexpectedToken(p('|'))));
}

#[test]
fn option_followed_by_child_is_an_error() {
    let mut it = TokenIter::new(vec![ident("b"), p('|'), ident("c"), ident("d"), p(';')]);
    assert_eq!(parse_rule_content(&mut it), Err(ParseError::UnexpectedToken(ident("d"))));
    let mut it = TokenIter::new(vec![ident("b"), p('|'), p('|')]);
    assert_eq!(parse_rule_content(&mut it), Err(ParseError::UnexpectedToken(p('|'))));
}

#[test]
fn group_is_unexpected() {
    let g = Token::Group(Delimiter::Parenthesis, "x".to_string());
    let mut it = TokenIter::new(vec![Token::Group(Delimiter::Parenthesis, "x".to_string())]);
    assert_eq!(parse_rule_content(&mut it), Err(ParseError::UnexpectedToken(g)));
    let mut it = TokenIter::new(vec![ident("b"), Token::Group(Delimiter::Brace, String::new())]);
    assert_eq!(
        parse_rule_content(&mut it),
        Err(ParseError::UnexpectedToken(Token::Group(Delimiter::Brace, String::new())))
    );
}

#[test]
fn body_cut_short() {
    for body in vec![vec![], vec![ident("b")], vec![ident("b"), p('.')], vec![ident("b"), p('*'), p('.')], vec![ident("b"), p('|'), ident("c")], vec![ident("b"), ident("c"), p('*')]] {
        let mut it = TokenIter::new(body);
        assert_eq!(parse_rule_content(&mut it), Err(ParseError::NoTokensLeft));
        assert_eq!(it.len(), 0);
    }
}

#[test]
fn arrow_must_be_joint_minus_then_alone_greater() {
    let mut it = TokenIter::new(arrow());
    assert_eq!(parse_arrow(&mut it), Ok(()));
    let mut it = TokenIter::new(vec![p('-'), p('>')]);
    assert_eq!(parse_arrow(&mut it), Err(ParseError::UnexpectedToken(p('-'))));
    let mut it = TokenIter::new(vec![joint('-'), joint('>')]);
    assert_eq!(parse_arrow(&mut it), Err(ParseError::UnexpectedToken(joint('>'))));
    let mut it = TokenIter::new(vec![joint('='), p('>')]);
    assert_eq!(parse_arrow(&mut it), Err(ParseError::UnexpectedToken(joint('='))));
    let mut it = TokenIter::new(vec![joint('-')]);
    assert_eq!(parse_arrow(&mut it), Err(ParseError::NoTokensLeft));
}

#[test]
fn symbol_and_name_and_child() {
    let mut it = TokenIter::new(vec![joint(':'), ident("x")]);
    assert_eq!(parse_symbol(&mut it, ':', true), Ok(()));
    assert_eq!(parse_symbol(&mut it, ':', false), Err(ParseError::UnexpectedToken(ident("x"))));
    let mut it = TokenIter::new(vec![lit("1")]);
    assert_eq!(parse_name(&mut it), Err(ParseError::UnexpectedToken(lit("1"))));
    let mut it = TokenIter::new(vec![ident("n")]);
    assert_eq!(parse_name(&mut it), Ok("n".to_string()));
    assert_eq!(parse_name(&mut it), Err(ParseError::NoTokensLeft));
    let mut it = TokenIter::new(vec![lit("1"), p(';')]);
    assert_eq!(parse_child(&mut it), Ok(cl("1")));
    assert_eq!(parse_child(&mut it), Err(ParseError::UnexpectedToken(p(';'))));
}

#[test]
fn several_rules() {
    let mut tokens = rule("a", vec![ident("b"), p(';')]);
    tokens.extend(rule("c", vec![ident("d"), ident("e"), p('*'), p(';')]));
    let mut it = TokenIter::new(tokens);
    let rules = parse_grammar_rules(&mut it).unwrap();
    assert_eq!(rules.len(), 2);
    assert_eq!(rules[0].name, "a");
    assert_eq!(rules[1].name, "c");
    assert_eq!(
        rules[1].content,
        GrammarRuleContent::Concatinative(vec![cc(ci("d"), false, false), cc(ci("e"), false, true)])
    );
    assert_eq!(it.len(), 0);
}

#[test]
fn rule_cut_short_is_dropped() {
    let mut tokens = rule("a", vec![ident("b"), p(';')]);
    tokens.extend(rule("c", vec![ident("d"), p('|')]));
    let mut it = TokenIter::new(tokens);
    let rules = parse_grammar_rules(&mut it).unwrap();
    assert_eq!(rules.len(), 1);
    assert_eq!(rules[0].name, "a");
    let mut it = TokenIter::new(vec![]);
    assert_eq!(parse_grammar_rules(&mut it), Ok(vec![]));
}

#[test]
fn error_in_a_later_rule_ends_the_reading() {
    let mut tokens = rule("a", vec![ident("b"), p(';')]);
    tokens.push(lit("1"));
    tokens.push(ident("z"));
    let mut it = TokenIter::new(tokens);
    assert_eq!(parse_grammar_rules(&mut it), Err(ParseError::UnexpectedToken(lit("1"))));
    assert_eq!(it.len(), 1);
}

#[test]
fn a_rule_leaves_what_follows_it() {
    let mut tokens = rule("a", vec![ident("b"), p('.'), p(';')]);
    tokens.push(ident("rest"));
    let mut it = TokenIter::new(tokens);
    let r = parse_grammar_rule(&mut it).unwrap();
    assert_eq!(r.content, GrammarRuleContent::Concatinative(vec![cc(ci("b"), true, false)]));
    assert_eq!(it.next(), Some(ident("rest")));
}

#[test]
fn written_rule_reads_back() {
    // b . c * d ;  and  x | y ;
    let original = vec![
        GrammarRule {
            name: "r".to_string(),
            content: GrammarRuleContent::Concatinative(vec![
                cc(ci("b"), true, false),
                cc(ci("c"), false, true),
                cc(cl("'d'"), false, false),
            ]),
        },
        GrammarRule { name: "s".to_string(), content: GrammarRuleContent::Options(vec![ci("x"), ci("y")]) },
    ];
    let mut tokens = rule("r", vec![ident("b"), p('.'), ident("c"), p('*'), lit("'d'"), p(';')]);
    tokens.extend(rule("s", vec![ident("x"), p('|'), ident("y"), p(';')]));
    let mut it = TokenIter::new(tokens);
    assert_eq!(parse_grammar_rules(&mut it), Ok(original));
}
