//! Grammar rules of the form `name -> a & b | c;`.
//!
//! The body of a rule is a list of options separated by `|`; an option is a
//! list of children joined by `&`. A child may be followed by any number of
//! marks `.` (the next child follows immediately) and `*` (the child
//! repeats), in any order. The arrow may be written `->` or `=>`. A rule
//! ends with `;`.
use vstd::prelude::*;
use crate::token::{Token, TokenIter, Spacing};

verus! {

/// Why reading a rule failed.
#[derive(Debug, PartialEq, Eq)]
pub enum ParseError {
    /// The tokens ran out in the middle of a rule.
    NoTokensLeft(),
    /// A token that cannot stand where it was found.
    UnexpectedToken(),
}

/// The value of a child: the name of another rule or a literal.
#[derive(Debug, PartialEq, Eq)]
pub enum ChildValue {
    Ident(String),
    Literal(String),
}

/// A child of an option, with its marks.
#[derive(Debug, PartialEq, Eq)]
pub struct Child {
    pub value: ChildValue,
    /// The child was marked with `*`.
    pub repeatable: bool,
    /// The child was marked with `.`.
    pub next_imediat: bool,
}

/// The children of one option.
pub type ChildrenOption = Vec<Child>;

/// A rule: its name and its options.
#[derive(Debug, PartialEq, Eq)]
pub struct GrammarRule {
    pub parent: String,
    pub children_options: Vec<ChildrenOption>,
}

/// The mathematical value of a rule.
pub struct RuleModel {
    pub parent: String,
    pub children_options: Seq<Seq<Child>>,
}

/// The values of a list of options.
pub open spec fn options_view(v: Seq<ChildrenOption>) -> Seq<Seq<Child>> {
    v.map_values(|o: ChildrenOption| o@)
}

impl View for GrammarRule {
    type V = RuleModel;

    open spec fn view(&self) -> RuleModel {
        RuleModel { parent: self.parent, children_options: options_view(self.children_options@) }
    }
}

/// The values of a list of rules.
pub open spec fn rules_view(v: Seq<GrammarRule>) -> Seq<RuleModel> {
    v.map_values(|r: GrammarRule| r@)
}

/// A parse outcome: the result, and how many tokens were taken from the input.
pub type Outcome<T> = (Result<T, ParseError>, nat);

/// Adds `k` tokens taken before the outcome's own.
pub open spec fn after<T>(k: nat, o: Outcome<T>) -> Outcome<T> {
    (o.0, k + o.1)
}

/// The value that a token stands for, if it is an identifier or a literal.
pub open spec fn value_of(t: Token) -> Option<ChildValue> {
    match t {
        Token::Ident(s) => Some(ChildValue::Ident(s)),
        Token::Literal(s) => Some(ChildValue::Literal(s)),
        _ => None,
    }
}

/// The token is the punctuation character `c`, whatever its spacing.
pub open spec fn is_punct(t: Token, c: char) -> bool {
    t matches Token::Punct(d, _) && d == c
}

/// A child without marks.
pub open spec fn plain(v: ChildValue) -> Child {
    Child { value: v, repeatable: false, next_imediat: false }
}

/// `opt` with its last child marked with `.` (when `dot`) or `*` (otherwise).
pub open spec fn mark_last(opt: Seq<Child>, dot: bool) -> Seq<Child> {
    let c = opt.last();
    opt.update(
        opt.len() - 1,
        if dot {
            Child { value: c.value, repeatable: c.repeatable, next_imediat: true }
        } else {
            Child { value: c.value, repeatable: true, next_imediat: c.next_imediat }
        },
    )
}

/// Reading one child.
pub open spec fn spec_child(s: Seq<Token>) -> Outcome<Child> {
    if s.len() == 0 {
        (Err(ParseError::NoTokensLeft()), 0)
    } else {
        match value_of(s[0]) {
            Some(v) => (Ok(plain(v)), 1),
            None => (Err(ParseError::UnexpectedToken()), 1),
        }
    }
}

/// Reading what follows a child of the option `opt` (its last child): marks,
/// then `&` and another child, `|` (another option follows: `true`) or `;`
/// (the last option: `false`).
pub open spec fn spec_after_child(opt: Seq<Child>, s: Seq<Token>) -> Outcome<(Seq<Child>, bool)>
    decreases s.len(), 0int,
{
    if s.len() == 0 {
        (Err(ParseError::NoTokensLeft()), 0)
    } else {
        let t = s[0];
        let rest = s.drop_first();
        if is_punct(t, '.') {
            after(1, spec_after_child(mark_last(opt, true), rest))
        } else if is_punct(t, '*') {
            after(1, spec_after_child(mark_last(opt, false), rest))
        } else if is_punct(t, '&') {
            after(1, spec_child_then(opt, rest))
        } else if is_punct(t, '|') {
            (Ok((opt, true)), 1)
        } else if is_punct(t, ';') {
            (Ok((opt, false)), 1)
        } else {
            (Err(ParseError::UnexpectedToken()), 1)
        }
    }
}

/// Reading a child of the option `opt` and what follows it.
pub open spec fn spec_child_then(opt: Seq<Child>, s: Seq<Token>) -> Outcome<(Seq<Child>, bool)>
    decreases s.len(), 1int,
{
    let c = spec_child(s);
    match c.0 {
        Ok(child) => after(1, spec_after_child(opt.push(child), s.drop_first())),
        Err(e) => (Err(e), c.1),
    }
}

/// The option that reading what follows a child of `opt` leaves, whether it
/// succeeds or fails: marks set on the child read last, and children joined
/// by `&` appended.
pub open spec fn after_child_opt(opt: Seq<Child>, s: Seq<Token>) -> Seq<Child>
    decreases s.len(), 0int,
{
    if s.len() == 0 {
        opt
    } else {
        let t = s[0];
        let rest = s.drop_first();
        if is_punct(t, '.') {
            after_child_opt(mark_last(opt, true), rest)
        } else if is_punct(t, '*') {
            after_child_opt(mark_last(opt, false), rest)
        } else if is_punct(t, '&') {
            child_then_opt(opt, rest)
        } else {
            opt
        }
    }
}

/// The option that reading a child of `opt` and what follows it leaves,
/// whether it succeeds or fails.
pub open spec fn child_then_opt(opt: Seq<Child>, s: Seq<Token>) -> Seq<Child>
    decreases s.len(), 1int,
{
    match spec_child(s).0 {
        Ok(child) => after_child_opt(opt.push(child), s.drop_first()),
        Err(_) => opt,
    }
}

/// The options that reading the options of a rule body appends, whether it
/// succeeds or fails: each option that was read up to its `|` or `;`.
pub open spec fn options_list_pushed(s: Seq<Token>) -> Seq<Seq<Child>>
    decreases s.len(),
{
    let o = spec_child_then(seq![], s);
    match o.0 {
        Err(_) => seq![],
        Ok((opt, more)) => if more {
            proof {
                lemma_child_then_used(seq![], s);
            }
            seq![opt] + options_list_pushed(s.skip(o.1 as int))
        } else {
            seq![opt]
        },
    }
}

/// Reading the options of a rule body, up to and with its `;`.
pub open spec fn spec_children_options_list(s: Seq<Token>) -> Outcome<Seq<Seq<Child>>>
    decreases s.len(),
{
    let o = spec_child_then(seq![], s);
    match o.0 {
        Err(e) => (Err(e), o.1),
        Ok((opt, more)) => if more {
            proof {
                lemma_child_then_used(seq![], s);
            }
            let rest = spec_children_options_list(s.skip(o.1 as int));
            (
                match rest.0 {
                    Ok(v) => Ok(seq![opt] + v),
                    Err(e) => Err(e),
                },
                o.1 + rest.1,
            )
        } else {
            (Ok(seq![opt]), o.1)
        },
    }
}

/// Reading the arrow: `-` or `=` joint to the next token, then `>`.
pub open spec fn spec_arrow(s: Seq<Token>) -> Outcome<()> {
    if s.len() == 0 {
        (Err(ParseError::NoTokensLeft()), 0)
    } else {
        match s[0] {
            Token::Punct(c, sp) => if c == '-' || c == '=' {
                if sp == Spacing::Joint {
                    if s.len() == 1 {
                        (Err(ParseError::NoTokensLeft()), 1)
                    } else if is_punct(s[1], '>') {
                        (Ok(()), 2)
                    } else {
                        (Err(ParseError::UnexpectedToken()), 2)
                    }
                } else {
                    (Err(ParseError::UnexpectedToken()), 1)
                }
            } else {
                (Err(ParseError::UnexpectedToken()), 1)
            },
            _ => (Err(ParseError::UnexpectedToken()), 1),
        }
    }
}

/// Reading an arrow and the options after it.
pub open spec fn spec_children_options(s: Seq<Token>) -> Outcome<Seq<Seq<Child>>> {
    let a = spec_arrow(s);
    match a.0 {
        Err(e) => (Err(e), a.1),
        Ok(_) => after(a.1, spec_children_options_list(s.skip(a.1 as int))),
    }
}

/// Reading one rule: `None` when there is no token left, else a name and its
/// options.
pub open spec fn spec_grammar_rule(s: Seq<Token>) -> Outcome<Option<RuleModel>> {
    if s.len() == 0 {
        (Ok(None), 0)
    } else {
        match s[0] {
            Token::Ident(parent) => {
                let o = spec_children_options(s.drop_first());
                (
                    match o.0 {
                        Ok(v) => Ok(Some(RuleModel { parent, children_options: v })),
                        Err(e) => Err(e),
                    },
                    1 + o.1,
                )
            },
            _ => (Err(ParseError::UnexpectedToken()), 1),
        }
    }
}

/// Reading rules until no token is left.
pub open spec fn spec_grammar_rules(s: Seq<Token>) -> Outcome<Seq<RuleModel>>
    decreases s.len(),
{
    let first = spec_grammar_rule(s);
    match first.0 {
        Err(e) => (Err(e), first.1),
        Ok(None) => (Ok(seq![]), first.1),
        Ok(Some(rule)) => {
            proof {
                lemma_grammar_rule_used(s);
            }
            let rest = spec_grammar_rules(s.skip(first.1 as int));
            (
                match rest.0 {
                    Ok(v) => Ok(seq![rule] + v),
                    Err(e) => Err(e),
                },
                first.1 + rest.1,
            )
        },
    }
}

// ---------------------------------------------------------------------------
// Reading from a token cursor.

/// Reads rules until no token is left.
pub fn parse_grammar_rules(input: &mut TokenIter) -> (res: Result<Vec<GrammarRule>, ParseError>)
    ensures
        final(input)@ == old(input)@.skip(spec_grammar_rules(old(input)@).1 as int),
        match spec_grammar_rules(old(input)@).0 {
            Ok(v) => res matches Ok(w) && rules_view(w@) == v,
            Err(e) => res == Err::<Vec<GrammarRule>, ParseError>(e),
        },
        res is Ok ==> final(input)@.len() == 0,
{
    let ghost s = input@;
    let ghost mut used: nat = 0;
    proof {
        lemma_grammar_rules_read_all(s);
        lemma_grammar_rules_used(s);
    }
    proof {
        assert(s.skip(0) =~= s);
        assert(rules_view(Seq::<GrammarRule>::empty()) =~= Seq::<RuleModel>::empty());
        if let Ok(v) = spec_grammar_rules(s).0 {
            assert(Seq::<RuleModel>::empty() + v =~= v);
        }
    }
    let mut grammar_rules = Vec::new();
    loop
        invariant
            s == old(input)@,
            used <= s.len(),
            input@ == s.skip(used as int),
            spec_grammar_rules(s) == with_prefix(rules_view(grammar_rules@), used, spec_grammar_rules(input@)),
        decreases input@.len(),
    {
        let ghost cur = input@;
        let ghost n = spec_grammar_rule(cur).1;
        let next = parse_grammar_rule(input);
        proof {
            lemma_grammar_rule_used(cur);
            assert(input@ =~= s.skip((used + n) as int));
        }
        match next? {
            Some(grammar_rule) => {
                let ghost pre = rules_view(grammar_rules@);
                let ghost rule = grammar_rule@;
                grammar_rules.push(grammar_rule);
                proof {
                    assert(rules_view(grammar_rules@) =~= pre.push(rule));
                    if let Ok(v) = spec_grammar_rules(input@).0 {
                        assert(pre + (seq![rule] + v) =~= pre.push(rule) + v);
                    }
                    used = used + n;
                }
            },
            None => {
                proof {
                    assert(rules_view(grammar_rules@) + Seq::<RuleModel>::empty() =~= rules_view(grammar_rules@));
                }
                return Ok(grammar_rules);
            },
        }
    }
}

/// Rules `pre` read from the first `k` tokens, followed by the outcome `o`
/// of reading on.
pub open spec fn with_prefix(pre: Seq<RuleModel>, k: nat, o: Outcome<Seq<RuleModel>>) -> Outcome<Seq<RuleModel>> {
    (
        match o.0 {
            Ok(v) => Ok(pre + v),
            Err(e) => Err(e),
        },
        k + o.1,
    )
}

/// Reads one rule, or gives `None` when no token is left.
pub fn parse_grammar_rule(input: &mut TokenIter) -> (res: Result<Option<GrammarRule>, ParseError>)
    ensures
        final(input)@ == old(input)@.skip(spec_grammar_rule(old(input)@).1 as int),
        match spec_grammar_rule(old(input)@).0 {
            Ok(None) => res matches Ok(None),
            Ok(Some(m)) => res matches Ok(Some(r)) && r@ == m,
            Err(e) => res == Err::<Option<GrammarRule>, ParseError>(e),
        },
{
    let ghost s = input@;
    proof {
        assert(s.skip(0) =~= s);
    }
    match input.next() {
        None => return Ok(None),
        Some(tree) => match tree {
            Token::Ident(parent) => {
                let children_options = parse_children_options(input);
                proof {
                    lemma_children_options_used(s.drop_first());
                    assert(input@ =~= s.skip((1 + spec_children_options(s.drop_first()).1) as int));
                }
                let children_options = children_options?;
                Ok(Some(GrammarRule { parent, children_options }))
            },
            _ => return Err(ParseError::UnexpectedToken()),
        },
    }
}

/// Reads an arrow and the options of a rule body.
pub fn parse_children_options(input: &mut TokenIter) -> (res: Result<Vec<ChildrenOption>, ParseError>)
    ensures
        final(input)@ == old(input)@.skip(spec_children_options(old(input)@).1 as int),
        match spec_children_options(old(input)@).0 {
            Ok(v) => res matches Ok(w) && options_view(w@) == v,
            Err(e) => res == Err::<Vec<ChildrenOption>, ParseError>(e),
        },
{
    let ghost s = input@;
    parse_arrow(input)?;
    let ghost a = spec_arrow(s).1;
    let mut children_options = Vec::new();
    proof {
        assert(options_view(children_options@) =~= Seq::<Seq<Child>>::empty());
    }
    let r = recursive_parse_children_options(input, &mut children_options);
    proof {
        lemma_children_options_list_used(s.skip(a as int));
        assert(input@ =~= s.skip((a + spec_children_options_list(s.skip(a as int)).1) as int));
        if let Ok(v) = spec_children_options_list(s.skip(a as int)).0 {
            assert(Seq::<Seq<Child>>::empty() + v =~= v);
        }
    }
    r?;
    Ok(children_options)
}

/// Reads options, each followed by `|` or, for the last, `;`, appending them
/// to `children_options`.
fn recursive_parse_children_options(input: &mut TokenIter, children_options: &mut Vec<ChildrenOption>) -> (res: Result<(), ParseError>)
    ensures
        final(input)@ == old(input)@.skip(spec_children_options_list(old(input)@).1 as int),
        options_view(final(children_options)@) == options_view(old(children_options)@) + options_list_pushed(old(input)@),
        match spec_children_options_list(old(input)@).0 {
            Ok(v) => res is Ok && options_view(final(children_options)@) == options_view(old(children_options)@) + v,
            Err(e) => res == Err::<(), ParseError>(e),
        },
    decreases old(input)@.len(),
{
    let ghost s = input@;
    let mut children_option = Vec::new();
    proof {
        assert(children_option@ =~= seq![]);
    }
    let next = recursive_parse_children_option(input, &mut children_option);
    proof {
        lemma_child_then_used(seq![], s);
    }
    let next = next?;
    let ghost opt = children_option@;
    let ghost pre = options_view(children_options@);
    let ghost n = spec_child_then(seq![], s).1;
    children_options.push(children_option);
    proof {
        assert(options_view(children_options@) =~= pre.push(opt));
    }
    if next {
        let r = recursive_parse_children_options(input, children_options);
        proof {
            lemma_children_options_list_used(s.skip(n as int));
            assert(input@ =~= s.skip((n + spec_children_options_list(s.skip(n as int)).1) as int));
            if let Ok(v) = spec_children_options_list(s.skip(n as int)).0 {
                assert(pre.push(opt) + v =~= pre + (seq![opt] + v));
            }
        }
        return r;
    } else {
        proof {
            assert(pre.push(opt) =~= pre + seq![opt]);
        }
        return Ok(());
    }
}

/// Reads a child of an option and what follows it, appending the child (with
/// its marks, and the children joined to it by `&`) to `children_option`.
/// Gives whether another option follows.
fn recursive_parse_children_option(input: &mut TokenIter, children_option: &mut ChildrenOption) -> (res: Result<bool, ParseError>)
    ensures
        final(input)@ == old(input)@.skip(spec_child_then(old(children_option)@, old(input)@).1 as int),
        final(children_option)@ == child_then_opt(old(children_option)@, old(input)@),
        match spec_child_then(old(children_option)@, old(input)@).0 {
            Ok((opt, more)) => res == Ok::<bool, ParseError>(more) && final(children_option)@ == opt,
            Err(e) => res == Err::<bool, ParseError>(e),
        },
    decreases old(input)@.len(), 1int,
{
    let ghost s = input@;
    proof {
        assert(s.skip(0) =~= s);
    }
    children_option.push(parse_child(input)?);
    proof {
        assert(input@ =~= s.drop_first());
    }
    let ghost pushed = children_option@;
    let r = do_next(input, children_option);
    proof {
        lemma_after_child_used(pushed, s.drop_first());
        let c = spec_child(s);
        assert(input@ =~= s.skip((1 + spec_after_child(old(children_option)@.push(c.0->Ok_0), s.drop_first()).1) as int));
    }
    r
}

/// Reads what follows a child: its marks, then `&` and another child, `|`
/// or `;`. Gives whether another option follows.
fn do_next(input: &mut TokenIter, children_option: &mut ChildrenOption) -> (res: Result<bool, ParseError>)
    requires
        old(children_option)@.len() > 0,
    ensures
        final(input)@ == old(input)@.skip(spec_after_child(old(children_option)@, old(input)@).1 as int),
        final(children_option)@ == after_child_opt(old(children_option)@, old(input)@),
        match spec_after_child(old(children_option)@, old(input)@).0 {
            Ok((opt, more)) => res == Ok::<bool, ParseError>(more) && final(children_option)@ == opt,
            Err(e) => res == Err::<bool, ParseError>(e),
        },
    decreases old(input)@.len(), 0int,
{
    let ghost s = input@;
    proof {
        assert(s.skip(0) =~= s);
    }
    let next = match input.next() {
        None => return Err(ParseError::NoTokensLeft()),
        Some(it) => it,
    };
    let ghost rest = input@;
    if let Token::Punct(it, _) = next {
        if it == '.' {
            let mut last = children_option.pop().unwrap();
            last.next_imediat = true;
            children_option.push(last);
            proof {
                assert(children_option@ =~= mark_last(old(children_option)@, true));
            }
            let r = do_next(input, children_option);
            proof {
                lemma_after_child_used(mark_last(old(children_option)@, true), rest);
                assert(input@ =~= s.skip((1 + spec_after_child(mark_last(old(children_option)@, true), rest).1) as int));
            }
            return r;
        }
        if it == '*' {
            let mut last = children_option.pop().unwrap();
            last.repeatable = true;
            children_option.push(last);
            proof {
                assert(children_option@ =~= mark_last(old(children_option)@, false));
            }
            let r = do_next(input, children_option);
            proof {
                lemma_after_child_used(mark_last(old(children_option)@, false), rest);
                assert(input@ =~= s.skip((1 + spec_after_child(mark_last(old(children_option)@, false), rest).1) as int));
            }
            return r;
        }
        if it == '&' {
            let r = recursive_parse_children_option(input, children_option);
            proof {
                lemma_child_then_used(old(children_option)@, rest);
                assert(input@ =~= s.skip((1 + spec_child_then(old(children_option)@, rest).1) as int));
            }
            return r;
        }
        if it == '|' {
            return Ok(true);
        }
        if it == ';' {
            return Ok(false);
        }
    }
    return Err(ParseError::UnexpectedToken());
}

/// Reads one child, without marks.
pub fn parse_child(input: &mut TokenIter) -> (res: Result<Child, ParseError>)
    ensures
        res == spec_child(old(input)@).0,
        final(input)@ == old(input)@.skip(spec_child(old(input)@).1 as int),
{
    let child_value = match input.next() {
        None => return Err(ParseError::NoTokensLeft()),
        Some(it) => it,
    };
    let child_value = match child_value {
        Token::Ident(it) => ChildValue::Ident(it),
        Token::Literal(it) => ChildValue::Literal(it),
        _ => return Err(ParseError::UnexpectedToken()),
    };
    Ok(Child { value: child_value, next_imediat: false, repeatable: false })
}

/// Reads the arrow: `-` or `=` joint to the next token, then `>`.
pub fn parse_arrow(input: &mut TokenIter) -> (res: Result<(), ParseError>)
    ensures
        res == spec_arrow(old(input)@).0,
        final(input)@ == old(input)@.skip(spec_arrow(old(input)@).1 as int),
{
    let ghost s = input@;
    proof {
        assert(s.skip(0) =~= s);
        if s.len() >= 2 {
            assert(s.drop_first().drop_first() =~= s.skip(2));
        }
    }
    match input.next() {
        None => return Err(ParseError::NoTokensLeft()),
        Some(first) => match first {
            Token::Punct(it, spacing) => if it == '-' || it == '=' {
                match spacing {
                    Spacing::Joint => match input.next() {
                        None => return Err(ParseError::NoTokensLeft()),
                        Some(second) => match second {
                            Token::Punct(it, _) => if it == '>' {
                                return Ok(());
                            } else {
                                Err(ParseError::UnexpectedToken())
                            },
                            _ => Err(ParseError::UnexpectedToken()),
                        },
                    },
                    _ => Err(ParseError::UnexpectedToken()),
                }
            } else {
                Err(ParseError::UnexpectedToken())
            },
            _ => return Err(ParseError::UnexpectedToken()),
        },
    }
}

pub proof fn lemma_children_options_used(s: Seq<Token>)
    ensures
        spec_children_options(s).1 <= s.len(),
{
    let a = spec_arrow(s);
    if a.0 is Ok {
        lemma_children_options_list_used(s.skip(a.1 as int));
    }
}

// ---------------------------------------------------------------------------
// Reading rules to the end.

/// Reading rules succeeds only by reading every token.
pub proof fn lemma_grammar_rules_read_all(s: Seq<Token>)
    ensures
        spec_grammar_rules(s).0 is Ok ==> spec_grammar_rules(s).1 == s.len(),
    decreases s.len(),
{
    lemma_grammar_rule_used(s);
    let first = spec_grammar_rule(s);
    if first.0 matches Ok(Some(_)) {
        lemma_grammar_rules_read_all(s.skip(first.1 as int));
    }
}

// ---------------------------------------------------------------------------
// How many tokens each reading takes.

pub proof fn lemma_grammar_rules_used(s: Seq<Token>)
    ensures
        spec_grammar_rules(s).1 <= s.len(),
    decreases s.len(),
{
    lemma_grammar_rule_used(s);
    let first = spec_grammar_rule(s);
    if first.0 matches Ok(Some(_)) {
        lemma_grammar_rules_used(s.skip(first.1 as int));
    }
}

pub proof fn lemma_after_child_used(opt: Seq<Child>, s: Seq<Token>)
    ensures
        spec_after_child(opt, s).1 <= s.len(),
        spec_after_child(opt, s).0 is Ok ==> spec_after_child(opt, s).1 >= 1,
    decreases s.len(), 0int,
{
    if s.len() > 0 {
        let t = s[0];
        let rest = s.drop_first();
        if is_punct(t, '.') {
            lemma_after_child_used(mark_last(opt, true), rest);
        } else if is_punct(t, '*') {
            lemma_after_child_used(mark_last(opt, false), rest);
        } else if is_punct(t, '&') {
            lemma_child_then_used(opt, rest);
        }
    }
}

pub proof fn lemma_child_then_used(opt: Seq<Child>, s: Seq<Token>)
    ensures
        spec_child_then(opt, s).1 <= s.len(),
        spec_child_then(opt, s).0 is Ok ==> spec_child_then(opt, s).1 >= 1,
    decreases s.len(), 1int,
{
    if s.len() > 0 && value_of(s[0]) is Some {
        lemma_after_child_used(opt.push(plain(value_of(s[0])->0)), s.drop_first());
    }
}

pub proof fn lemma_children_options_list_used(s: Seq<Token>)
    ensures
        spec_children_options_list(s).1 <= s.len(),
    decreases s.len(),
{
    lemma_child_then_used(seq![], s);
    let o = spec_child_then(seq![], s);
    if let Ok((_, more)) = o.0 {
        if more {
            lemma_children_options_list_used(s.skip(o.1 as int));
        }
    }
}

pub proof fn lemma_grammar_rule_used(s: Seq<Token>)
    ensures
        spec_grammar_rule(s).1 <= s.len(),
        spec_grammar_rule(s).0 matches Ok(Some(_)) ==> spec_grammar_rule(s).1 >= 1,
        spec_grammar_rule(s).0 matches Ok(None) ==> s.len() == 0,
{
    if s.len() > 0 {
        let u = s.drop_first();
        let a = spec_arrow(u);
        if a.0 is Ok {
            lemma_children_options_list_used(u.skip(a.1 as int));
        }
    }
}

} // verus!
