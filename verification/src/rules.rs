//! Grammar rules of the form `name -> body;`.
//!
//! A body is either a list of options, `a | b | c`, or a concatenation of
//! children, `a b c`, in which each child may be followed by `.` (the next
//! child follows immediately) and by `*` (the child repeats), in either order
//! and each at most once. A rule ends with `;`.
use vstd::prelude::*;
use crate::token::{Token, TokenIter, Spacing};

verus! {

/// Why reading a rule failed.
#[derive(Debug, PartialEq, Eq)]
pub enum ParseError {
    /// A token that cannot stand where it was found.
    UnexpectedToken(Token),
    /// The tokens ran out in the middle of a rule.
    NoTokensLeft,
}

/// A child of a rule: the name of another rule or a literal.
#[derive(Debug, PartialEq, Eq)]
pub enum Child {
    Ident(String),
    Literal(String),
}

/// A child of a concatenation, with its marks.
#[derive(Debug, PartialEq, Eq)]
pub struct ConcatinativeRuleChild {
    pub child: Child,
    /// The child was marked with `.`.
    pub imediate_next: bool,
    /// The child was marked with `*`.
    pub repeated: bool,
}

/// The body of a rule.
#[derive(Debug, PartialEq, Eq)]
pub enum GrammarRuleContent {
    Options(Vec<Child>),
    Concatinative(Vec<ConcatinativeRuleChild>),
}

/// A rule: its name and its body.
#[derive(Debug, PartialEq, Eq)]
pub struct GrammarRule {
    pub name: String,
    pub content: GrammarRuleContent,
}

/// The mathematical value of a rule body.
pub enum ContentModel {
    Options(Seq<Child>),
    Concatinative(Seq<ConcatinativeRuleChild>),
}

/// The mathematical value of a rule.
pub struct RuleModel {
    pub name: String,
    pub content: ContentModel,
}

impl View for GrammarRuleContent {
    type V = ContentModel;

    open spec fn view(&self) -> ContentModel {
        match self {
            GrammarRuleContent::Options(v) => ContentModel::Options(v@),
            GrammarRuleContent::Concatinative(v) => ContentModel::Concatinative(v@),
        }
    }
}

impl View for GrammarRule {
    type V = RuleModel;

    open spec fn view(&self) -> RuleModel {
        RuleModel { name: self.name, content: self.content@ }
    }
}

/// The values of a list of rules.
pub open spec fn rules_view(v: Seq<GrammarRule>) -> Seq<RuleModel> {
    v.map_values(|r: GrammarRule| r@)
}

/// `res` is what `expected` describes: the same error, or a success whose
/// value has the expected view.
pub open spec fn agrees<T: View>(res: Result<T, ParseError>, expected: Result<T::V, ParseError>) -> bool {
    match expected {
        Ok(v) => res matches Ok(x) && x@ == v,
        Err(e) => res matches Err(f) && f == e,
    }
}

/// A parse outcome: the result, and how many tokens were taken from the input.
pub type Outcome<T> = (Result<T, ParseError>, nat);

/// The child that a token stands for, if it is an identifier or a literal.
pub open spec fn child_of(t: Token) -> Option<Child> {
    match t {
        Token::Ident(s) => Some(Child::Ident(s)),
        Token::Literal(s) => Some(Child::Literal(s)),
        _ => None,
    }
}

/// The token is the punctuation character `c`, whatever its spacing.
pub open spec fn is_punct(t: Token, c: char) -> bool {
    t matches Token::Punct(d, _) && d == c
}

pub open spec fn marked(c: Child, dot: bool, star: bool) -> ConcatinativeRuleChild {
    ConcatinativeRuleChild { child: c, imediate_next: dot, repeated: star }
}

/// Adds `k` tokens taken before the outcome's own.
pub open spec fn after<T>(k: nat, o: Outcome<T>) -> Outcome<T> {
    (o.0, k + o.1)
}

/// Reading one child: an identifier or a literal.
pub open spec fn spec_child(s: Seq<Token>) -> Outcome<Child> {
    if s.len() == 0 {
        (Err(ParseError::NoTokensLeft), 0)
    } else {
        match child_of(s[0]) {
            Some(c) => (Ok(c), 1),
            None => (Err(ParseError::UnexpectedToken(s[0])), 1),
        }
    }
}

/// Reading one identifier, the name of a rule.
pub open spec fn spec_name(s: Seq<Token>) -> Outcome<String> {
    if s.len() == 0 {
        (Err(ParseError::NoTokensLeft), 0)
    } else {
        match s[0] {
            Token::Ident(n) => (Ok(n), 1),
            _ => (Err(ParseError::UnexpectedToken(s[0])), 1),
        }
    }
}

/// Reading the punctuation character `c`, joint to the next token exactly
/// when `imediate` holds.
pub open spec fn spec_symbol(s: Seq<Token>, c: char, imediate: bool) -> Outcome<()> {
    if s.len() == 0 {
        (Err(ParseError::NoTokensLeft), 0)
    } else {
        match s[0] {
            Token::Punct(d, sp) => if d == c && (sp == Spacing::Joint) == imediate {
                (Ok(()), 1)
            } else {
                (Err(ParseError::UnexpectedToken(s[0])), 1)
            },
            _ => (Err(ParseError::UnexpectedToken(s[0])), 1),
        }
    }
}

/// Reading the arrow `->`, with the `-` joint to the `>` and the `>` alone.
pub open spec fn spec_arrow(s: Seq<Token>) -> Outcome<()> {
    let first = spec_symbol(s, '-', true);
    match first.0 {
        Ok(_) => after(first.1, spec_symbol(s.skip(first.1 as int), '>', false)),
        Err(e) => (Err(e), first.1),
    }
}

/// Reading the rest of a concatenation, where `cur` is the child read last
/// and `dot` and `star` say which of its marks were read already. Each child
/// takes at most one `.` and one `*`, in either order; a `;` ends the list.
pub open spec fn spec_concatinative(cur: Child, dot: bool, star: bool, s: Seq<Token>) -> Outcome<
    Seq<ConcatinativeRuleChild>,
>
    decreases s.len(),
{
    if s.len() == 0 {
        (Err(ParseError::NoTokensLeft), 0)
    } else {
        let t = s[0];
        let rest = s.drop_first();
        if is_punct(t, ';') {
            (Ok(seq![marked(cur, dot, star)]), 1)
        } else if is_punct(t, '.') && !dot {
            after(1, spec_concatinative(cur, true, star, rest))
        } else if is_punct(t, '*') && !star {
            after(1, spec_concatinative(cur, dot, true, rest))
        } else if child_of(t) is Some {
            let o = spec_concatinative(child_of(t)->0, false, false, rest);
            (
                match o.0 {
                    Ok(v) => Ok(seq![marked(cur, dot, star)] + v),
                    Err(e) => Err(e),
                },
                1 + o.1,
            )
        } else {
            (Err(ParseError::UnexpectedToken(t)), 1)
        }
    }
}

/// The children, with their marks, that reading the rest of a concatenation
/// appends, whether it succeeds or fails: a child is appended once a child
/// token follows its marks, and the last one once `;` follows them.
pub open spec fn concatinative_pushed(cur: Child, dot: bool, star: bool, s: Seq<Token>) -> Seq<
    ConcatinativeRuleChild,
>
    decreases s.len(),
{
    if s.len() == 0 {
        seq![]
    } else {
        let t = s[0];
        let rest = s.drop_first();
        if is_punct(t, ';') {
            seq![marked(cur, dot, star)]
        } else if is_punct(t, '.') && !dot {
            concatinative_pushed(cur, true, star, rest)
        } else if is_punct(t, '*') && !star {
            concatinative_pushed(cur, dot, true, rest)
        } else if child_of(t) is Some {
            seq![marked(cur, dot, star)] + concatinative_pushed(child_of(t)->0, false, false, rest)
        } else {
            seq![]
        }
    }
}

/// The options that reading a list of options appends, whether it succeeds
/// or fails: each child that is read.
pub open spec fn options_pushed(s: Seq<Token>) -> Seq<Child>
    decreases s.len(),
{
    if s.len() == 0 || child_of(s[0]) is None {
        seq![]
    } else if s.len() >= 2 && is_punct(s[1], '|') {
        seq![child_of(s[0])->0] + options_pushed(s.skip(2))
    } else {
        seq![child_of(s[0])->0]
    }
}

/// Reading a list of options `a | b | c;` (without a leading child).
pub open spec fn spec_options(s: Seq<Token>) -> Outcome<Seq<Child>>
    decreases s.len(),
{
    if s.len() == 0 {
        (Err(ParseError::NoTokensLeft), 0)
    } else if child_of(s[0]) is None {
        (Err(ParseError::UnexpectedToken(s[0])), 1)
    } else if s.len() == 1 {
        (Err(ParseError::NoTokensLeft), 1)
    } else {
        let c = child_of(s[0])->0;
        let t = s[1];
        if is_punct(t, ';') {
            (Ok(seq![c]), 2)
        } else if is_punct(t, '|') {
            let o = spec_options(s.skip(2));
            (
                match o.0 {
                    Ok(v) => Ok(seq![c] + v),
                    Err(e) => Err(e),
                },
                2 + o.1,
            )
        } else {
            (Err(ParseError::UnexpectedToken(t)), 2)
        }
    }
}

/// Reading what follows the first child `first` of a body, where `dot` and
/// `star` say which of its marks were read already. A `;` straight after it
/// makes a single option; after marks it makes a concatenation of one child,
/// marked with `.`, and with `*` when both marks were read.
pub open spec fn spec_first_marks(first: Child, dot: bool, star: bool, s: Seq<Token>) -> Outcome<
    ContentModel,
>
    decreases s.len(),
{
    if s.len() == 0 {
        (Err(ParseError::NoTokensLeft), 0)
    } else {
        let t = s[0];
        let rest = s.drop_first();
        if is_punct(t, ';') {
            if !dot && !star {
                (Ok(ContentModel::Options(seq![first])), 1)
            } else {
                (Ok(ContentModel::Concatinative(seq![marked(first, true, dot && star)])), 1)
            }
        } else if is_punct(t, '|') && !dot && !star {
            let o = spec_options(rest);
            (
                match o.0 {
                    Ok(v) => Ok(ContentModel::Options(seq![first] + v)),
                    Err(e) => Err(e),
                },
                1 + o.1,
            )
        } else if is_punct(t, '.') && !dot {
            after(1, spec_first_marks(first, true, star, rest))
        } else if is_punct(t, '*') && !star {
            after(1, spec_first_marks(first, dot, true, rest))
        } else if child_of(t) is Some {
            let o = spec_concatinative(child_of(t)->0, false, false, rest);
            (
                match o.0 {
                    Ok(v) => Ok(ContentModel::Concatinative(seq![marked(first, dot, star)] + v)),
                    Err(e) => Err(e),
                },
                1 + o.1,
            )
        } else {
            (Err(ParseError::UnexpectedToken(t)), 1)
        }
    }
}

/// Reading the body of a rule, up to and with its `;`.
pub open spec fn spec_rule_content(s: Seq<Token>) -> Outcome<ContentModel> {
    if s.len() == 0 {
        (Err(ParseError::NoTokensLeft), 0)
    } else {
        match child_of(s[0]) {
            Some(c) => after(1, spec_first_marks(c, false, false, s.drop_first())),
            None => (Err(ParseError::UnexpectedToken(s[0])), 1),
        }
    }
}

/// Reading one rule: a name, an arrow and a body.
pub open spec fn spec_grammar_rule(s: Seq<Token>) -> Outcome<RuleModel> {
    let name = spec_name(s);
    match name.0 {
        Err(e) => (Err(e), name.1),
        Ok(n) => {
            let arrow = spec_arrow(s.skip(1));
            match arrow.0 {
                Err(e) => (Err(e), 1 + arrow.1),
                Ok(_) => {
                    let body = spec_rule_content(s.skip((1 + arrow.1) as int));
                    (
                        match body.0 {
                            Ok(c) => Ok(RuleModel { name: n, content: c }),
                            Err(e) => Err(e),
                        },
                        1 + arrow.1 + body.1,
                    )
                },
            }
        },
    }
}

/// Reading rules until the tokens run out. A rule that the end of the
/// tokens cuts short is dropped; any other error ends the reading.
pub open spec fn spec_grammar_rules(s: Seq<Token>) -> Outcome<Seq<RuleModel>>
    decreases s.len(),
{
    let first = spec_grammar_rule(s);
    match first.0 {
        Ok(rule) => {
            proof {
                lemma_grammar_rule_used(s);
            }
            let rest = spec_grammar_rules(s.skip(first.1 as int));
            (
                match rest.0 {
                    Ok(v) => Ok(seq![rule] + v),
                    Err(e) => Err(e),
                },
                first.1 + rest.1,
            )
        },
        Err(ParseError::NoTokensLeft) => (Ok(seq![]), first.1),
        Err(e) => (Err(e), first.1),
    }
}

// ---------------------------------------------------------------------------
// Reading from a token cursor.

/// Reads one identifier or literal.
pub fn parse_child(input: &mut TokenIter) -> (res: Result<Child, ParseError>)
    ensures
        res == spec_child(old(input)@).0,
        final(input)@ == old(input)@.skip(spec_child(old(input)@).1 as int),
{
    match input.next().ok_or(ParseError::NoTokensLeft)? {
        Token::Ident(it) => Ok(Child::Ident(it)),
        Token::Literal(it) => Ok(Child::Literal(it)),
        it => Err(ParseError::UnexpectedToken(it)),
    }
}

/// Reads the name of a rule, an identifier.
pub fn parse_name(input: &mut TokenIter) -> (res: Result<String, ParseError>)
    ensures
        res == spec_name(old(input)@).0,
        final(input)@ == old(input)@.skip(spec_name(old(input)@).1 as int),
{
    match input.next().ok_or(ParseError::NoTokensLeft)? {
        Token::Ident(it) => Ok(it),
        it => Err(ParseError::UnexpectedToken(it)),
    }
}

/// Reads the punctuation character `c`, which must be joint to the next
/// token exactly when `imediate` holds.
pub fn parse_symbol(input: &mut TokenIter, c: char, imediate: bool) -> (res: Result<(), ParseError>)
    ensures
        res == spec_symbol(old(input)@, c, imediate).0,
        final(input)@ == old(input)@.skip(spec_symbol(old(input)@, c, imediate).1 as int),
{
    match input.next().ok_or(ParseError::NoTokensLeft)? {
        Token::Punct(ch, sp) => if ch == c && (sp == Spacing::Joint) == imediate {
            Ok(())
        } else {
            Err(ParseError::UnexpectedToken(Token::Punct(ch, sp)))
        },
        it => Err(ParseError::UnexpectedToken(it)),
    }
}

/// Reads the arrow `->`.
pub fn parse_arrow(input: &mut TokenIter) -> (res: Result<(), ParseError>)
    ensures
        res == spec_arrow(old(input)@).0,
        final(input)@ == old(input)@.skip(spec_arrow(old(input)@).1 as int),
{
    parse_symbol(input, '-', true)?;
    parse_symbol(input, '>', false)?;
    proof {
        assert(input@ =~= old(input)@.skip(2));
    }
    Ok(())
}

/// Reads a list of options `a | b | c;`, appending them to `vec`.
fn parse_options(input: &mut TokenIter, vec: &mut Vec<Child>) -> (res: Result<(), ParseError>)
    ensures
        final(input)@ == old(input)@.skip(spec_options(old(input)@).1 as int),
        final(vec)@ == old(vec)@ + options_pushed(old(input)@),
        match spec_options(old(input)@).0 {
            Ok(v) => res is Ok && final(vec)@ == old(vec)@ + v,
            Err(e) => res == Err::<(), ParseError>(e),
        },
    decreases old(input)@.len(),
{
    let ghost s = input@;
    proof {
        lemma_options_pushed(s);
    }
    vec.push(parse_child(input)?);
    match input.next().ok_or(ParseError::NoTokensLeft)? {
        Token::Punct(it, sp) => if it == ';' {
            proof {
                assert(input@ =~= s.skip(2));
                assert(vec@ =~= old(vec)@ + seq![child_of(s[0])->0]);
            }
            Ok(())
        } else if it == '|' {
            proof {
                assert(input@ =~= s.skip(2));
            }
            let r = parse_options(input, vec);
            proof {
                lemma_options_used(s.skip(2));
                assert(input@ =~= s.skip((2 + spec_options(s.skip(2)).1) as int));
                if let Ok(v) = spec_options(s.skip(2)).0 {
                    assert(vec@ =~= old(vec)@ + (seq![child_of(s[0])->0] + v));
                }
                assert(vec@ =~= old(vec)@ + (seq![child_of(s[0])->0] + options_pushed(s.skip(2))));
            }
            r
        } else {
            proof {
                assert(input@ =~= s.skip(2));
            }
            Err(ParseError::UnexpectedToken(Token::Punct(it, sp)))
        },
        it => {
            proof {
                assert(input@ =~= s.skip(2));
            }
            Err(ParseError::UnexpectedToken(it))
        },
    }
}

/// Reads the rest of a concatenation whose last child read is `next`, up to
/// and with the `;`, appending the children with their marks to `vec`.
fn parse_concatinative(input: &mut TokenIter, vec: &mut Vec<ConcatinativeRuleChild>, next: Child) -> (res: Result<(), ParseError>)
    ensures
        concatinative_done(next, old(input)@, old(vec)@, final(input)@, final(vec)@, res),
    decreases old(input)@.len(),
{
    let ghost s = input@;
    let ghost v0 = vec@;
    let ghost cur = next;
    proof { assert(input@ =~= s.skip(0)); lemma_concat_exhausted(cur, false, false, s, 0, v0); }
    match input.next().ok_or(ParseError::NoTokensLeft)? {
        Token::Punct(it, sp) => if it == ';' {
            vec.push(ConcatinativeRuleChild { child: next, imediate_next: false, repeated: false });
            proof { lemma_concat_end(cur, false, false, s, 0, v0, vec@, input@); }
            Ok(())
        } else if it == '.' {
            proof { assert(input@ =~= s.skip(1)); lemma_concat_exhausted(cur, true, false, s, 1, v0); }
            match input.next().ok_or(ParseError::NoTokensLeft)? {
                Token::Punct(it, sp) => if it == ';' {
                    vec.push(ConcatinativeRuleChild { child: next, imediate_next: true, repeated: false });
                    proof { lemma_concat_end(cur, true, false, s, 1, v0, vec@, input@); }
                    Ok(())
                } else if it == '*' {
                    proof { assert(input@ =~= s.skip(2)); lemma_concat_exhausted(cur, true, true, s, 2, v0); }
                    match input.next().ok_or(ParseError::NoTokensLeft)? {
                        Token::Punct(it, sp) => if it == ';' {
                            vec.push(ConcatinativeRuleChild { child: next, imediate_next: true, repeated: true });
                            proof { lemma_concat_end(cur, true, true, s, 2, v0, vec@, input@); }
                            Ok(())
                        } else {
                            proof { lemma_concat_error(cur, true, true, s, 2, v0, vec@); }
                            Err(ParseError::UnexpectedToken(Token::Punct(it, sp)))
                        },
                        Token::Ident(it) => {
                            vec.push(ConcatinativeRuleChild { child: next, imediate_next: true, repeated: true });
                            let ghost (c, v1) = (Child::Ident(it), vec@);
                            let r = parse_concatinative(input, vec, Child::Ident(it));
                            proof { lemma_concat_child(cur, true, true, s, 2, c, v0, v1, input@, vec@, r); }
                            r?;
                            Ok(())
                        },
                        Token::Literal(it) => {
                            vec.push(ConcatinativeRuleChild { child: next, imediate_next: true, repeated: true });
                            let ghost (c, v1) = (Child::Literal(it), vec@);
                            let r = parse_concatinative(input, vec, Child::Literal(it));
                            proof { lemma_concat_child(cur, true, true, s, 2, c, v0, v1, input@, vec@, r); }
                            r?;
                            Ok(())
                        },
                        it => {
                            proof { lemma_concat_error(cur, true, true, s, 2, v0, vec@); }
                            Err(ParseError::UnexpectedToken(it))
                        },
                    }
                } else {
                    proof { lemma_concat_error(cur, true, false, s, 1, v0, vec@); }
                    Err(ParseError::UnexpectedToken(Token::Punct(it, sp)))
                },
                Token::Ident(it) => {
                    vec.push(ConcatinativeRuleChild { child: next, imediate_next: true, repeated: false });
                    let ghost (c, v1) = (Child::Ident(it), vec@);
                    let r = parse_concatinative(input, vec, Child::Ident(it));
                    proof { lemma_concat_child(cur, true, false, s, 1, c, v0, v1, input@, vec@, r); }
                    r?;
                    Ok(())
                },
                Token::Literal(it) => {
                    vec.push(ConcatinativeRuleChild { child: next, imediate_next: true, repeated: false });
                    let ghost (c, v1) = (Child::Literal(it), vec@);
                    let r = parse_concatinative(input, vec, Child::Literal(it));
                    proof { lemma_concat_child(cur, true, false, s, 1, c, v0, v1, input@, vec@, r); }
                    r?;
                    Ok(())
                },
                it => {
                    proof { lemma_concat_error(cur, true, false, s, 1, v0, vec@); }
                    Err(ParseError::UnexpectedToken(it))
                },
            }
        } else if it == '*' {
            proof { assert(input@ =~= s.skip(1)); lemma_concat_exhausted(cur, false, true, s, 1, v0); }
            match input.next().ok_or(ParseError::NoTokensLeft)? {
                Token::Punct(it, sp) => if it == ';' {
                    vec.push(ConcatinativeRuleChild { child: next, imediate_next: false, repeated: true });
                    proof { lemma_concat_end(cur, false, true, s, 1, v0, vec@, input@); }
                    Ok(())
                } else if it == '.' {
                    proof { assert(input@ =~= s.skip(2)); lemma_concat_exhausted(cur, true, true, s, 2, v0); }
                    match input.next().ok_or(ParseError::NoTokensLeft)? {
                        Token::Punct(it, sp) => if it == ';' {
                            vec.push(ConcatinativeRuleChild { child: next, imediate_next: true, repeated: true });
                            proof { lemma_concat_end(cur, true, true, s, 2, v0, vec@, input@); }
                            Ok(())
                        } else {
                            proof { lemma_concat_error(cur, true, true, s, 2, v0, vec@); }
                            Err(ParseError::UnexpectedToken(Token::Punct(it, sp)))
                        },
                        Token::Ident(it) => {
                            vec.push(ConcatinativeRuleChild { child: next, imediate_next: true, repeated: true });
                            let ghost (c, v1) = (Child::Ident(it), vec@);
                            let r = parse_concatinative(input, vec, Child::Ident(it));
                            proof { lemma_concat_child(cur, true, true, s, 2, c, v0, v1, input@, vec@, r); }
                            r?;
                            Ok(())
                        },
                        Token::Literal(it) => {
                            vec.push(ConcatinativeRuleChild { child: next, imediate_next: true, repeated: true });
                            let ghost (c, v1) = (Child::Literal(it), vec@);
                            let r = parse_concatinative(input, vec, Child::Literal(it));
                            proof { lemma_concat_child(cur, true, true, s, 2, c, v0, v1, input@, vec@, r); }
                            r?;
                            Ok(())
                        },
                        it => {
                            proof { lemma_concat_error(cur, true, true, s, 2, v0, vec@); }
                            Err(ParseError::UnexpectedToken(it))
                        },
                    }
                } else {
                    proof { lemma_concat_error(cur, false, true, s, 1, v0, vec@); }
                    Err(ParseError::UnexpectedToken(Token::Punct(it, sp)))
                },
                Token::Ident(it) => {
                    vec.push(ConcatinativeRuleChild { child: next, imediate_next: false, repeated: true });
                    let ghost (c, v1) = (Child::Ident(it), vec@);
                    let r = parse_concatinative(input, vec, Child::Ident(it));
                    proof { lemma_concat_child(cur, false, true, s, 1, c, v0, v1, input@, vec@, r); }
                    r?;
                    Ok(())
                },
                Token::Literal(it) => {
                    vec.push(ConcatinativeRuleChild { child: next, imediate_next: false, repeated: true });
                    let ghost (c, v1) = (Child::Literal(it), vec@);
                    let r = parse_concatinative(input, vec, Child::Literal(it));
                    proof { lemma_concat_child(cur, false, true, s, 1, c, v0, v1, input@, vec@, r); }
                    r?;
                    Ok(())
                },
                it => {
                    proof { lemma_concat_error(cur, false, true, s, 1, v0, vec@); }
                    Err(ParseError::UnexpectedToken(it))
                },
            }
        } else {
            proof { lemma_concat_error(cur, false, false, s, 0, v0, vec@); }
            Err(ParseError::UnexpectedToken(Token::Punct(it, sp)))
        },
        Token::Ident(it) => {
            vec.push(ConcatinativeRuleChild { child: next, imediate_next: false, repeated: false });
            let ghost (c, v1) = (Child::Ident(it), vec@);
            let r = parse_concatinative(input, vec, Child::Ident(it));
            proof { lemma_concat_child(cur, false, false, s, 0, c, v0, v1, input@, vec@, r); }
            r?;
            Ok(())
        },
        Token::Literal(it) => {
            vec.push(ConcatinativeRuleChild { child: next, imediate_next: false, repeated: false });
            let ghost (c, v1) = (Child::Literal(it), vec@);
            let r = parse_concatinative(input, vec, Child::Literal(it));
            proof { lemma_concat_child(cur, false, false, s, 0, c, v0, v1, input@, vec@, r); }
            r?;
            Ok(())
        },
        it => {
            proof { lemma_concat_error(cur, false, false, s, 0, v0, vec@); }
            Err(ParseError::UnexpectedToken(it))
        },
    }
}

/// What reading the rest of a concatenation after `cur` from `s` leaves:
/// the cursor advanced by the tokens read, and the vector with the children
/// appended before the reading ended or failed (on success, all of them).
pub open spec fn concatinative_done(
    cur: Child,
    s: Seq<Token>,
    v_before: Seq<ConcatinativeRuleChild>,
    s_after: Seq<Token>,
    v_after: Seq<ConcatinativeRuleChild>,
    res: Result<(), ParseError>,
) -> bool {
    let o = spec_concatinative(cur, false, false, s);
    &&& s_after == s.skip(o.1 as int)
    &&& v_after == v_before + concatinative_pushed(cur, false, false, s)
    &&& match o.0 {
        Ok(v) => res is Ok && v_after == v_before + v,
        Err(e) => res == Err::<(), ParseError>(e),
    }
}

/// The first `k` tokens of `s` are the marks `dot` and `star` (in some order).
pub open spec fn marks_prefix(s: Seq<Token>, k: nat, dot: bool, star: bool) -> bool {
    &&& k <= s.len()
    &&& k == (if dot { 1nat } else { 0nat }) + (if star { 1nat } else { 0nat })
    &&& k >= 1 ==> (if dot && !star { is_punct(s[0], '.') } else if star && !dot { is_punct(s[0], '*') } else {
        (is_punct(s[0], '.') && is_punct(s[1], '*')) || (is_punct(s[0], '*') && is_punct(s[1], '.'))
    })
}

proof fn lemma_concat_marks(cur: Child, dot: bool, star: bool, s: Seq<Token>, k: nat)
    requires
        marks_prefix(s, k, dot, star),
    ensures
        spec_concatinative(cur, false, false, s) == after(k, spec_concatinative(cur, dot, star, s.skip(k as int))),
        concatinative_pushed(cur, false, false, s) == concatinative_pushed(cur, dot, star, s.skip(k as int)),
{
    if k == 0 {
        assert(s.skip(0) =~= s);
    } else if k == 1 {
        assert(s.skip(1) =~= s.drop_first());
    } else {
        assert(s.drop_first().drop_first() =~= s.skip(2));
        if is_punct(s[0], '.') {
            assert(spec_concatinative(cur, true, false, s.drop_first()) == after(1, spec_concatinative(cur, true, true, s.skip(2))));
            assert(concatinative_pushed(cur, true, false, s.drop_first()) == concatinative_pushed(cur, true, true, s.skip(2)));
        } else {
            assert(spec_concatinative(cur, false, true, s.drop_first()) == after(1, spec_concatinative(cur, true, true, s.skip(2))));
            assert(concatinative_pushed(cur, false, true, s.drop_first()) == concatinative_pushed(cur, true, true, s.skip(2)));
        }
    }
}

proof fn lemma_concat_exhausted(cur: Child, dot: bool, star: bool, s: Seq<Token>, k: nat, v0: Seq<ConcatinativeRuleChild>)
    requires
        marks_prefix(s, k, dot, star),
    ensures
        s.len() == k ==> concatinative_done(cur, s, v0, s.skip(k as int), v0, Err(ParseError::NoTokensLeft)),
{
    lemma_concat_marks(cur, dot, star, s, k);
    assert(v0 + Seq::<ConcatinativeRuleChild>::empty() =~= v0);
}

proof fn lemma_concat_end(
    cur: Child,
    dot: bool,
    star: bool,
    s: Seq<Token>,
    k: nat,
    v0: Seq<ConcatinativeRuleChild>,
    v1: Seq<ConcatinativeRuleChild>,
    s_after: Seq<Token>,
)
    requires
        marks_prefix(s, k, dot, star),
        k < s.len(),
        is_punct(s[k as int], ';'),
        s_after == s.skip(k as int).drop_first(),
        v1 == v0.push(marked(cur, dot, star)),
    ensures
        concatinative_done(cur, s, v0, s_after, v1, Ok(())),
{
    lemma_concat_marks(cur, dot, star, s, k);
    assert(s_after =~= s.skip((k + 1) as int));
    assert(v1 =~= v0 + seq![marked(cur, dot, star)]);
}

proof fn lemma_concat_error(
    cur: Child,
    dot: bool,
    star: bool,
    s: Seq<Token>,
    k: nat,
    v0: Seq<ConcatinativeRuleChild>,
    v1: Seq<ConcatinativeRuleChild>,
)
    requires
        marks_prefix(s, k, dot, star),
        k < s.len(),
        !is_punct(s[k as int], ';'),
        !(is_punct(s[k as int], '.') && !dot),
        !(is_punct(s[k as int], '*') && !star),
        child_of(s[k as int]) is None,
        v1 == v0,
    ensures
        concatinative_done(cur, s, v0, s.skip(k as int).drop_first(), v1, Err(ParseError::UnexpectedToken(s[k as int]))),
{
    lemma_concat_marks(cur, dot, star, s, k);
    assert(v0 + Seq::<ConcatinativeRuleChild>::empty() =~= v0);
    assert(s.skip(k as int).drop_first() =~= s.skip((k + 1) as int));
}

proof fn lemma_concat_child(
    cur: Child,
    dot: bool,
    star: bool,
    s: Seq<Token>,
    k: nat,
    c: Child,
    v0: Seq<ConcatinativeRuleChild>,
    v1: Seq<ConcatinativeRuleChild>,
    s_after: Seq<Token>,
    v_after: Seq<ConcatinativeRuleChild>,
    r: Result<(), ParseError>,
)
    requires
        marks_prefix(s, k, dot, star),
        k < s.len(),
        child_of(s[k as int]) == Some(c),
        v1 == v0.push(marked(cur, dot, star)),
        concatinative_done(c, s.skip(k as int).drop_first(), v1, s_after, v_after, r),
    ensures
        concatinative_done(cur, s, v0, s_after, v_after, r),
{
    lemma_concat_marks(cur, dot, star, s, k);
    let u = s.skip(k as int);
    assert(u.drop_first() =~= s.skip((k + 1) as int));
    lemma_concatinative_used(c, false, false, s.skip((k + 1) as int));
    let o = spec_concatinative(c, false, false, s.skip((k + 1) as int));
    assert(s.skip((k + 1) as int).skip(o.1 as int) =~= s.skip((k + 1 + o.1) as int));
    if let Ok(v) = o.0 {
        assert(v_after =~= v0 + (seq![marked(cur, dot, star)] + v));
    }
    assert(v_after =~= v0 + (seq![marked(cur, dot, star)] + concatinative_pushed(c, false, false, s.skip((k + 1) as int))));
}

/// Reads the body of a rule, up to and with its `;`.
pub fn parse_rule_content(input: &mut TokenIter) -> (res: Result<GrammarRuleContent, ParseError>)
    ensures
        content_done(old(input)@, final(input)@, res),
{
    let ghost s = input@;
    proof {
        assert(s.skip(0) =~= s);
    }
    let first_child = parse_child(input)?;
    let ghost u = input@;
    let ghost first = first_child;
    proof { assert(u == s.drop_first()); }
    proof { assert(input@ =~= u.skip(0)); lemma_content_exhausted(s, first, false, false, 0); }
    match input.next().ok_or(ParseError::NoTokensLeft)? {
        Token::Punct(it, sp) => if it == '|' {
            let mut vec = vec![first_child];
            let ghost v0 = vec@;
            proof { assert(input@ =~= s.skip(2)); }
            let r = parse_options(input, &mut vec);
            proof { lemma_content_bar(s, first, v0, input@, vec@, r); }
            r?;
            Ok(GrammarRuleContent::Options(vec))
        } else if it == ';' {
            let vec = vec![first_child];
            proof {
                assert(vec@ =~= seq![first]);
                lemma_content_end(s, first, false, false, 0, input@);
            }
            Ok(GrammarRuleContent::Options(vec))
        } else if it == '.' {
            proof { assert(input@ =~= u.skip(1)); lemma_content_exhausted(s, first, true, false, 1); }
            match input.next().ok_or(ParseError::NoTokensLeft)? {
                Token::Punct(it, sp) => if it == ';' {
                    let vec = vec![ConcatinativeRuleChild { child: first_child, imediate_next: true, repeated: false }];
                    proof {
                        assert(vec@ =~= seq![marked(first, true, false)]);
                        lemma_content_end(s, first, true, false, 1, input@);
                    }
                    Ok(GrammarRuleContent::Concatinative(vec))
                } else if it == '*' {
                    proof { assert(input@ =~= u.skip(2)); lemma_content_exhausted(s, first, true, true, 2); }
                    match input.next().ok_or(ParseError::NoTokensLeft)? {
                        Token::Punct(it, sp) => if it == ';' {
                            let vec = vec![ConcatinativeRuleChild { child: first_child, imediate_next: true, repeated: true }];
                            proof {
                                assert(vec@ =~= seq![marked(first, true, true)]);
                                lemma_content_end(s, first, true, true, 2, input@);
                            }
                            Ok(GrammarRuleContent::Concatinative(vec))
                        } else {
                            proof { lemma_content_error(s, first, true, true, 2, input@); }
                            Err(ParseError::UnexpectedToken(Token::Punct(it, sp)))
                        },
                        Token::Ident(it) => {
                            let mut vec = vec![ConcatinativeRuleChild { child: first_child, imediate_next: true, repeated: true }];
                            let ghost (c, v0) = (Child::Ident(it), vec@);
                            let r = parse_concatinative(input, &mut vec, Child::Ident(it));
                            proof { lemma_content_child(s, first, true, true, 2, c, v0, input@, vec@, r); }
                            r?;
                            Ok(GrammarRuleContent::Concatinative(vec))
                        },
                        Token::Literal(it) => {
                            let mut vec = vec![ConcatinativeRuleChild { child: first_child, imediate_next: true, repeated: true }];
                            let ghost (c, v0) = (Child::Literal(it), vec@);
                            let r = parse_concatinative(input, &mut vec, Child::Literal(it));
                            proof { lemma_content_child(s, first, true, true, 2, c, v0, input@, vec@, r); }
                            r?;
                            Ok(GrammarRuleContent::Concatinative(vec))
                        },
                        it => {
                            proof { lemma_content_error(s, first, true, true, 2, input@); }
                            Err(ParseError::UnexpectedToken(it))
                        },
                    }
                } else {
                    proof { lemma_content_error(s, first, true, false, 1, input@); }
                    Err(ParseError::UnexpectedToken(Token::Punct(it, sp)))
                },
                Token::Ident(it) => {
                    let mut vec = vec![ConcatinativeRuleChild { child: first_child, imediate_next: true, repeated: false }];
                    let ghost (c, v0) = (Child::Ident(it), vec@);
                    let r = parse_concatinative(input, &mut vec, Child::Ident(it));
                    proof { lemma_content_child(s, first, true, false, 1, c, v0, input@, vec@, r); }
                    r?;
                    Ok(GrammarRuleContent::Concatinative(vec))
                },
                Token::Literal(it) => {
                    let mut vec = vec![ConcatinativeRuleChild { child: first_child, imediate_next: true, repeated: false }];
                    let ghost (c, v0) = (Child::Literal(it), vec@);
                    let r = parse_concatinative(input, &mut vec, Child::Literal(it));
                    proof { lemma_content_child(s, first, true, false, 1, c, v0, input@, vec@, r); }
                    r?;
                    Ok(GrammarRuleContent::Concatinative(vec))
                },
                it => {
                    proof { lemma_content_error(s, first, true, false, 1, input@); }
                    Err(ParseError::UnexpectedToken(it))
                },
            }
        } else if it == '*' {
            proof { assert(input@ =~= u.skip(1)); lemma_content_exhausted(s, first, false, true, 1); }
            match input.next().ok_or(ParseError::NoTokensLeft)? {
                Token::Punct(it, sp) => if it == ';' {
                    let vec = vec![ConcatinativeRuleChild { child: first_child, imediate_next: true, repeated: false }];
                    proof {
                        assert(vec@ =~= seq![marked(first, true, false)]);
                        lemma_content_end(s, first, false, true, 1, input@);
                    }
                    Ok(GrammarRuleContent::Concatinative(vec))
                } else if it == '.' {
                    proof { assert(input@ =~= u.skip(2)); lemma_content_exhausted(s, first, true, true, 2); }
                    match input.next().ok_or(ParseError::NoTokensLeft)? {
                        Token::Punct(it, sp) => if it == ';' {
                            let vec = vec![ConcatinativeRuleChild { child: first_child, imediate_next: true, repeated: true }];
                            proof {
                                assert(vec@ =~= seq![marked(first, true, true)]);
                                lemma_content_end(s, first, true, true, 2, input@);
                            }
                            Ok(GrammarRuleContent::Concatinative(vec))
                        } else {
                            proof { lemma_content_error(s, first, true, true, 2, input@); }
                            Err(ParseError::UnexpectedToken(Token::Punct(it, sp)))
                        },
                        Token::Ident(it) => {
                            let mut vec = vec![ConcatinativeRuleChild { child: first_child, imediate_next: true, repeated: true }];
                            let ghost (c, v0) = (Child::Ident(it), vec@);
                            let r = parse_concatinative(input, &mut vec, Child::Ident(it));
                            proof { lemma_content_child(s, first, true, true, 2, c, v0, input@, vec@, r); }
                            r?;
                            Ok(GrammarRuleContent::Concatinative(vec))
                        },
                        Token::Literal(it) => {
                            let mut vec = vec![ConcatinativeRuleChild { child: first_child, imediate_next: true, repeated: true }];
                            let ghost (c, v0) = (Child::Literal(it), vec@);
                            let r = parse_concatinative(input, &mut vec, Child::Literal(it));
                            proof { lemma_content_child(s, first, true, true, 2, c, v0, input@, vec@, r); }
                            r?;
                            Ok(GrammarRuleContent::Concatinative(vec))
                        },
                        it => {
                            proof { lemma_content_error(s, first, true, true, 2, input@); }
                            Err(ParseError::UnexpectedToken(it))
                        },
                    }
                } else {
                    proof { lemma_content_error(s, first, false, true, 1, input@); }
                    Err(ParseError::UnexpectedToken(Token::Punct(it, sp)))
                },
                Token::Ident(it) => {
                    let mut vec = vec![ConcatinativeRuleChild { child: first_child, imediate_next: false, repeated: true }];
                    let ghost (c, v0) = (Child::Ident(it), vec@);
                    let r = parse_concatinative(input, &mut vec, Child::Ident(it));
                    proof { lemma_content_child(s, first, false, true, 1, c, v0, input@, vec@, r); }
                    r?;
                    Ok(GrammarRuleContent::Concatinative(vec))
                },
                Token::Literal(it) => {
                    let mut vec = vec![ConcatinativeRuleChild { child: first_child, imediate_next: false, repeated: true }];
                    let ghost (c, v0) = (Child::Literal(it), vec@);
                    let r = parse_concatinative(input, &mut vec, Child::Literal(it));
                    proof { lemma_content_child(s, first, false, true, 1, c, v0, input@, vec@, r); }
                    r?;
                    Ok(GrammarRuleContent::Concatinative(vec))
                },
                it => {
                    proof { lemma_content_error(s, first, false, true, 1, input@); }
                    Err(ParseError::UnexpectedToken(it))
                },
            }
        } else {
            proof { lemma_content_error(s, first, false, false, 0, input@); }
            Err(ParseError::UnexpectedToken(Token::Punct(it, sp)))
        },
        Token::Ident(it) => {
            let mut vec = vec![ConcatinativeRuleChild { child: first_child, imediate_next: false, repeated: false }];
            let ghost (c, v0) = (Child::Ident(it), vec@);
            let r = parse_concatinative(input, &mut vec, Child::Ident(it));
            proof { lemma_content_child(s, first, false, false, 0, c, v0, input@, vec@, r); }
            r?;
            Ok(GrammarRuleContent::Concatinative(vec))
        },
        Token::Literal(it) => {
            let mut vec = vec![ConcatinativeRuleChild { child: first_child, imediate_next: false, repeated: false }];
            let ghost (c, v0) = (Child::Literal(it), vec@);
            let r = parse_concatinative(input, &mut vec, Child::Literal(it));
            proof { lemma_content_child(s, first, false, false, 0, c, v0, input@, vec@, r); }
            r?;
            Ok(GrammarRuleContent::Concatinative(vec))
        },
        it => {
            proof { lemma_content_error(s, first, false, false, 0, input@); }
            Err(ParseError::UnexpectedToken(it))
        },
    }
}

/// Reading a rule body from `s` leaves the cursor at `s_after` and gives `res`.
pub open spec fn content_done(s: Seq<Token>, s_after: Seq<Token>, res: Result<GrammarRuleContent, ParseError>) -> bool {
    let o = spec_rule_content(s);
    &&& s_after == s.skip(o.1 as int)
    &&& agrees(res, o.0)
}

/// `s` starts with the child `first`, followed by the marks `dot` and `star`
/// in its next `k` tokens.
pub open spec fn first_then_marks(s: Seq<Token>, first: Child, dot: bool, star: bool, k: nat) -> bool {
    &&& s.len() > 0
    &&& child_of(s[0]) == Some(first)
    &&& marks_prefix(s.drop_first(), k, dot, star)
}

proof fn lemma_first_marks(first: Child, dot: bool, star: bool, s: Seq<Token>, k: nat)
    requires
        marks_prefix(s, k, dot, star),
    ensures
        spec_first_marks(first, false, false, s) == after(k, spec_first_marks(first, dot, star, s.skip(k as int))),
{
    if k == 0 {
        assert(s.skip(0) =~= s);
    } else if k == 1 {
        assert(s.skip(1) =~= s.drop_first());
    } else {
        assert(s.drop_first().drop_first() =~= s.skip(2));
        if is_punct(s[0], '.') {
            assert(spec_first_marks(first, true, false, s.drop_first()) == after(1, spec_first_marks(first, true, true, s.skip(2))));
        } else {
            assert(spec_first_marks(first, false, true, s.drop_first()) == after(1, spec_first_marks(first, true, true, s.skip(2))));
        }
    }
}

/// Unfolds a body reading up to the marks of its first child.
proof fn lemma_content_marks(s: Seq<Token>, first: Child, dot: bool, star: bool, k: nat)
    requires
        first_then_marks(s, first, dot, star, k),
    ensures
        spec_rule_content(s) == after(1 + k, spec_first_marks(first, dot, star, s.drop_first().skip(k as int))),
{
    lemma_first_marks(first, dot, star, s.drop_first(), k);
}

proof fn lemma_content_exhausted(s: Seq<Token>, first: Child, dot: bool, star: bool, k: nat)
    requires
        first_then_marks(s, first, dot, star, k),
    ensures
        s.len() == 1 + k ==> content_done(
            s,
            s.drop_first().skip(k as int),
            Err::<GrammarRuleContent, ParseError>(ParseError::NoTokensLeft),
        ),
{
    lemma_content_marks(s, first, dot, star, k);
    assert(s.drop_first().skip(k as int) =~= s.skip((1 + k) as int));
}

/// The body that a `;` after the first child and its marks gives.
pub open spec fn single_child_content(first: Child, dot: bool, star: bool) -> ContentModel {
    if !dot && !star {
        ContentModel::Options(seq![first])
    } else {
        ContentModel::Concatinative(seq![marked(first, true, dot && star)])
    }
}

proof fn lemma_content_end(s: Seq<Token>, first: Child, dot: bool, star: bool, k: nat, s_after: Seq<Token>)
    requires
        first_then_marks(s, first, dot, star, k),
        s.len() > 1 + k,
        is_punct(s[(1 + k) as int], ';'),
        s_after == s.drop_first().skip(k as int).drop_first(),
    ensures
        spec_rule_content(s) == (Ok::<ContentModel, ParseError>(single_child_content(first, dot, star)), 2 + k),
        s_after == s.skip((2 + k) as int),
{
    lemma_content_marks(s, first, dot, star, k);
    assert(s_after =~= s.skip((2 + k) as int));
}

proof fn lemma_content_error(s: Seq<Token>, first: Child, dot: bool, star: bool, k: nat, s_after: Seq<Token>)
    requires
        first_then_marks(s, first, dot, star, k),
        s.len() > 1 + k,
        !is_punct(s[(1 + k) as int], ';'),
        !(is_punct(s[(1 + k) as int], '|') && !dot && !star),
        !(is_punct(s[(1 + k) as int], '.') && !dot),
        !(is_punct(s[(1 + k) as int], '*') && !star),
        child_of(s[(1 + k) as int]) is None,
        s_after == s.drop_first().skip(k as int).drop_first(),
    ensures
        content_done(s, s_after, Err::<GrammarRuleContent, ParseError>(ParseError::UnexpectedToken(s[(1 + k) as int]))),
{
    lemma_content_marks(s, first, dot, star, k);
    assert(s_after =~= s.skip((2 + k) as int));
}

proof fn lemma_content_bar(
    s: Seq<Token>,
    first: Child,
    v0: Seq<Child>,
    s_after: Seq<Token>,
    v_after: Seq<Child>,
    r: Result<(), ParseError>,
)
    requires
        first_then_marks(s, first, false, false, 0),
        s.len() > 1,
        is_punct(s[1], '|'),
        v0.len() == 1,
        v0[0] == first,
        s_after == s.skip(2).skip(spec_options(s.skip(2)).1 as int),
        match spec_options(s.skip(2)).0 {
            Ok(v) => r is Ok && v_after == v0 + v,
            Err(e) => r == Err::<(), ParseError>(e),
        },
    ensures
        s_after == s.skip(spec_rule_content(s).1 as int),
        match spec_rule_content(s).0 {
            Ok(m) => r is Ok && m == ContentModel::Options(v_after),
            Err(e) => r == Err::<(), ParseError>(e),
        },
{
    lemma_content_marks(s, first, false, false, 0);
    assert(v0 =~= seq![first]);
    assert(s.drop_first().skip(0).drop_first() =~= s.skip(2));
    lemma_options_used(s.skip(2));
    assert(s_after =~= s.skip((2 + spec_options(s.skip(2)).1) as int));
}

proof fn lemma_content_child(
    s: Seq<Token>,
    first: Child,
    dot: bool,
    star: bool,
    k: nat,
    c: Child,
    v0: Seq<ConcatinativeRuleChild>,
    s_after: Seq<Token>,
    v_after: Seq<ConcatinativeRuleChild>,
    r: Result<(), ParseError>,
)
    requires
        first_then_marks(s, first, dot, star, k),
        s.len() > 1 + k,
        child_of(s[(1 + k) as int]) == Some(c),
        v0.len() == 1,
        v0[0] == marked(first, dot, star),
        concatinative_done(c, s.drop_first().skip(k as int).drop_first(), v0, s_after, v_after, r),
    ensures
        s_after == s.skip(spec_rule_content(s).1 as int),
        match spec_rule_content(s).0 {
            Ok(m) => r is Ok && m == ContentModel::Concatinative(v_after),
            Err(e) => r == Err::<(), ParseError>(e),
        },
{
    lemma_content_marks(s, first, dot, star, k);
    assert(v0 =~= seq![marked(first, dot, star)]);
    let w = s.drop_first().skip(k as int).drop_first();
    assert(w =~= s.skip((2 + k) as int));
    lemma_concatinative_used(c, false, false, w);
    let o = spec_concatinative(c, false, false, w);
    assert(s_after =~= s.skip((2 + k + o.1) as int));
}

/// Reads one rule: a name, the arrow `->` and a body ending with `;`.
pub fn parse_grammar_rule(input: &mut TokenIter) -> (res: Result<GrammarRule, ParseError>)
    ensures
        final(input)@ == old(input)@.skip(spec_grammar_rule(old(input)@).1 as int),
        agrees(res, spec_grammar_rule(old(input)@).0),
{
    let ghost s = input@;
    proof {
        assert(s.skip(0) =~= s);
    }
    let name = parse_name(input)?;
    let ghost s1 = input@;
    proof {
        assert(s1 =~= s.skip(1));
    }
    parse_arrow(input)?;
    let ghost s2 = input@;
    proof {
        let a = spec_arrow(s1);
        assert(a.1 <= 2);
        assert(s2 =~= s.skip((1 + a.1) as int));
    }
    let content = parse_rule_content(input);
    proof {
        let a = spec_arrow(s1);
        lemma_rule_content_used(s2);
        assert(input@ =~= s.skip((1 + a.1 + spec_rule_content(s2).1) as int));
    }
    let content = content?;
    Ok(GrammarRule { name, content })
}

/// Rules `pre` read from the first `k` tokens, followed by the outcome `o`
/// of reading on.
pub open spec fn with_prefix(pre: Seq<RuleModel>, k: nat, o: Outcome<Seq<RuleModel>>) -> Outcome<Seq<RuleModel>> {
    (
        match o.0 {
            Ok(v) => Ok(pre + v),
            Err(e) => Err(e),
        },
        k + o.1,
    )
}

/// Reads rules until the tokens run out.
///
/// A rule that the end of the tokens cuts short is dropped; any other error
/// ends the reading with that error. On success every token was read, and
/// the error is never `NoTokensLeft`.
pub fn parse_grammar_rules(input: &mut TokenIter) -> (res: Result<Vec<GrammarRule>, ParseError>)
    ensures
        final(input)@ == old(input)@.skip(spec_grammar_rules(old(input)@).1 as int),
        match spec_grammar_rules(old(input)@).0 {
            Ok(v) => res matches Ok(w) && rules_view(w@) == v,
            Err(e) => res == Err::<Vec<GrammarRule>, ParseError>(e),
        },
        res is Ok ==> final(input)@.len() == 0,
        !(res matches Err(ParseError::NoTokensLeft)),
{
    let ghost s = input@;
    let ghost mut used: nat = 0;
    proof {
        assert(s.skip(0) =~= s);
        assert(rules_view(Seq::<GrammarRule>::empty()) =~= Seq::<RuleModel>::empty());
        assert(with_prefix(seq![], 0, spec_grammar_rules(s)).0 =~= spec_grammar_rules(s).0) by {
            if let Ok(v) = spec_grammar_rules(s).0 {
                assert(Seq::<RuleModel>::empty() + v =~= v);
            }
        }
        lemma_grammar_rules_outcome(s);
    }
    let mut res = vec![];
    loop
        invariant
            s == old(input)@,
            used <= s.len(),
            input@ == s.skip(used as int),
            spec_grammar_rules(s) == with_prefix(rules_view(res@), used, spec_grammar_rules(input@)),
        decreases input@.len(),
    {
        let ghost cur = input@;
        let next = parse_grammar_rule(input);
        proof {
            lemma_grammar_rule_used(cur);
            lemma_grammar_rules_outcome(s);
        }
        match next {
            Ok(it) => {
                let ghost rule = it@;
                let ghost n = spec_grammar_rule(cur).1;
                let ghost pre = rules_view(res@);
                res.push(it);
                proof {
                    assert(rules_view(res@) =~= pre.push(rule));
                    assert(input@ =~= s.skip((used + n) as int));
                    let rest = spec_grammar_rules(input@);
                    if let Ok(v) = rest.0 {
                        assert(pre + (seq![rule] + v) =~= pre.push(rule) + v);
                    }
                    used = used + n;
                }
            },
            Err(ParseError::NoTokensLeft) => {
                proof {
                    let n = spec_grammar_rule(cur).1;
                    assert(spec_grammar_rules(cur) == (Ok::<Seq<RuleModel>, ParseError>(Seq::empty()), n));
                    assert(input@ =~= s.skip((used + n) as int));
                    assert(rules_view(res@) + Seq::<RuleModel>::empty() =~= rules_view(res@));
                }
                return Ok(res);
            },
            Err(it) => {
                proof {
                    let n = spec_grammar_rule(cur).1;
                    assert(spec_grammar_rules(cur) == (Err::<Seq<RuleModel>, ParseError>(it), n));
                    assert(input@ =~= s.skip((used + n) as int));
                }
                return Err(it);
            },
        }
    }
}

/// Reading rules until the tokens run out never fails for want of tokens,
/// and when it succeeds it has read every token.
pub proof fn lemma_grammar_rules_outcome(s: Seq<Token>)
    ensures
        !(spec_grammar_rules(s).0 matches Err(ParseError::NoTokensLeft)),
        spec_grammar_rules(s).0 is Ok ==> spec_grammar_rules(s).1 == s.len(),
        spec_grammar_rules(s).1 <= s.len(),
    decreases s.len(),
{
    lemma_grammar_rule_used(s);
    let first = spec_grammar_rule(s);
    if first.0 is Ok {
        lemma_grammar_rules_outcome(s.skip(first.1 as int));
    }
}

// ---------------------------------------------------------------------------
// What a successful reading appends.

pub proof fn lemma_options_pushed(s: Seq<Token>)
    ensures
        spec_options(s).0 matches Ok(v) ==> v == options_pushed(s),
    decreases s.len(),
{
    if s.len() >= 2 && child_of(s[0]) is Some && is_punct(s[1], '|') {
        lemma_options_pushed(s.skip(2));
    }
}

// ---------------------------------------------------------------------------
// How many tokens each reading takes.

pub proof fn lemma_concatinative_used(cur: Child, dot: bool, star: bool, s: Seq<Token>)
    ensures
        spec_concatinative(cur, dot, star, s).0 matches Err(ParseError::NoTokensLeft) ==> spec_concatinative(cur, dot, star, s).1 == s.len(),
        spec_concatinative(cur, dot, star, s).1 <= s.len(),
        spec_concatinative(cur, dot, star, s).0 is Ok ==> spec_concatinative(cur, dot, star, s).1 >= 1,
    decreases s.len(),
{
    if s.len() > 0 {
        let t = s[0];
        let rest = s.drop_first();
        if is_punct(t, ';') {
        } else if is_punct(t, '.') && !dot {
            lemma_concatinative_used(cur, true, star, rest);
        } else if is_punct(t, '*') && !star {
            lemma_concatinative_used(cur, dot, true, rest);
        } else if child_of(t) is Some {
            lemma_concatinative_used(child_of(t)->0, false, false, rest);
        }
    }
}

pub proof fn lemma_options_used(s: Seq<Token>)
    ensures
        spec_options(s).0 matches Err(ParseError::NoTokensLeft) ==> spec_options(s).1 == s.len(),
        spec_options(s).1 <= s.len(),
        spec_options(s).0 is Ok ==> spec_options(s).1 >= 1,
    decreases s.len(),
{
    if s.len() >= 2 && child_of(s[0]) is Some && is_punct(s[1], '|') {
        lemma_options_used(s.skip(2));
    }
}

pub proof fn lemma_first_marks_used(first: Child, dot: bool, star: bool, s: Seq<Token>)
    ensures
        spec_first_marks(first, dot, star, s).0 matches Err(ParseError::NoTokensLeft) ==> spec_first_marks(first, dot, star, s).1 == s.len(),
        spec_first_marks(first, dot, star, s).1 <= s.len(),
        spec_first_marks(first, dot, star, s).0 is Ok ==> spec_first_marks(first, dot, star, s).1 >= 1,
    decreases s.len(),
{
    if s.len() > 0 {
        let t = s[0];
        let rest = s.drop_first();
        if is_punct(t, ';') {
        } else if is_punct(t, '|') && !dot && !star {
            lemma_options_used(rest);
        } else if is_punct(t, '.') && !dot {
            lemma_first_marks_used(first, true, star, rest);
        } else if is_punct(t, '*') && !star {
            lemma_first_marks_used(first, dot, true, rest);
        } else if child_of(t) is Some {
            lemma_concatinative_used(child_of(t)->0, false, false, rest);
        }
    }
}

pub proof fn lemma_arrow_used(s: Seq<Token>)
    ensures
        spec_arrow(s).1 <= s.len(),
        spec_arrow(s).0 matches Err(ParseError::NoTokensLeft) ==> spec_arrow(s).1 == s.len(),
        spec_arrow(s).0 is Ok ==> spec_arrow(s).1 == 2,
{
}

pub proof fn lemma_rule_content_used(s: Seq<Token>)
    ensures
        spec_rule_content(s).0 matches Err(ParseError::NoTokensLeft) ==> spec_rule_content(s).1 == s.len(),
        spec_rule_content(s).1 <= s.len(),
{
    if s.len() > 0 && child_of(s[0]) is Some {
        lemma_first_marks_used(child_of(s[0])->0, false, false, s.drop_first());
    }
}

pub proof fn lemma_grammar_rule_used(s: Seq<Token>)
    ensures
        spec_grammar_rule(s).0 matches Err(ParseError::NoTokensLeft) ==> spec_grammar_rule(s).1 == s.len(),
        spec_grammar_rule(s).1 <= s.len(),
        spec_grammar_rule(s).0 is Ok ==> spec_grammar_rule(s).1 >= 1,
{
    if s.len() > 0 {
        let arrow = spec_arrow(s.skip(1));
        if arrow.0 is Ok {
            lemma_rule_content_used(s.skip((1 + arrow.1) as int));
        }
    }
}

} // verus!
