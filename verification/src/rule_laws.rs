//! Laws of reading grammar rules.
use vstd::prelude::*;
use crate::token::{Token, Spacing, same_but_spacing, respaced, lemma_respaced_skip};
use crate::rules::{
    Child, ConcatinativeRuleChild, ContentModel, ParseError, RuleModel, child_of, is_punct, marked,
    spec_arrow, spec_concatinative, spec_first_marks, spec_grammar_rule, spec_grammar_rules,
    spec_name, spec_options, spec_rule_content, spec_symbol, lemma_arrow_used, lemma_grammar_rule_used,
    lemma_grammar_rules_outcome,
};

verus! {

// ---------------------------------------------------------------------------
// What follows a rule does not change how the rule is read.

proof fn lemma_concatinative_prefix(cur: Child, dot: bool, star: bool, s: Seq<Token>, t: Seq<Token>)
    requires
        !(spec_concatinative(cur, dot, star, s).0 matches Err(ParseError::NoTokensLeft)),
    ensures
        spec_concatinative(cur, dot, star, s + t) == spec_concatinative(cur, dot, star, s),
    decreases s.len(),
{
    assert((s + t)[0] == s[0]);
    assert((s + t).drop_first() =~= s.drop_first() + t);
    let x = s[0];
    if is_punct(x, ';') {
    } else if is_punct(x, '.') && !dot {
        lemma_concatinative_prefix(cur, true, star, s.drop_first(), t);
    } else if is_punct(x, '*') && !star {
        lemma_concatinative_prefix(cur, dot, true, s.drop_first(), t);
    } else if child_of(x) is Some {
        lemma_concatinative_prefix(child_of(x)->0, false, false, s.drop_first(), t);
    }
}

proof fn lemma_options_prefix(s: Seq<Token>, t: Seq<Token>)
    requires
        !(spec_options(s).0 matches Err(ParseError::NoTokensLeft)),
    ensures
        spec_options(s + t) == spec_options(s),
    decreases s.len(),
{
    assert((s + t)[0] == s[0]);
    if child_of(s[0]) is Some {
        assert((s + t)[1] == s[1]);
        assert((s + t).skip(2) =~= s.skip(2) + t);
        if is_punct(s[1], '|') {
            lemma_options_prefix(s.skip(2), t);
        }
    }
}

proof fn lemma_first_marks_prefix(first: Child, dot: bool, star: bool, s: Seq<Token>, t: Seq<Token>)
    requires
        !(spec_first_marks(first, dot, star, s).0 matches Err(ParseError::NoTokensLeft)),
    ensures
        spec_first_marks(first, dot, star, s + t) == spec_first_marks(first, dot, star, s),
    decreases s.len(),
{
    assert((s + t)[0] == s[0]);
    assert((s + t).drop_first() =~= s.drop_first() + t);
    let x = s[0];
    if is_punct(x, ';') {
    } else if is_punct(x, '|') && !dot && !star {
        lemma_options_prefix(s.drop_first(), t);
    } else if is_punct(x, '.') && !dot {
        lemma_first_marks_prefix(first, true, star, s.drop_first(), t);
    } else if is_punct(x, '*') && !star {
        lemma_first_marks_prefix(first, dot, true, s.drop_first(), t);
    } else if child_of(x) is Some {
        lemma_concatinative_prefix(child_of(x)->0, false, false, s.drop_first(), t);
    }
}

proof fn lemma_rule_content_prefix(s: Seq<Token>, t: Seq<Token>)
    requires
        !(spec_rule_content(s).0 matches Err(ParseError::NoTokensLeft)),
    ensures
        spec_rule_content(s + t) == spec_rule_content(s),
{
    assert((s + t)[0] == s[0]);
    assert((s + t).drop_first() =~= s.drop_first() + t);
    if child_of(s[0]) is Some {
        lemma_first_marks_prefix(child_of(s[0])->0, false, false, s.drop_first(), t);
    }
}

proof fn lemma_arrow_prefix(s: Seq<Token>, t: Seq<Token>)
    requires
        !(spec_arrow(s).0 matches Err(ParseError::NoTokensLeft)),
    ensures
        spec_arrow(s + t) == spec_arrow(s),
{
    assert((s + t)[0] == s[0]);
    if spec_symbol(s, '-', true).0 is Ok {
        assert((s + t).skip(1) =~= s.skip(1) + t);
        assert((s + t)[1] == s[1]);
    }
}

/// Reading a rule looks at no token after the ones it takes: unless the
/// tokens ran out in the middle of it, appending tokens to the input changes
/// neither what is read nor how many tokens are taken.
pub proof fn lemma_grammar_rule_prefix(s: Seq<Token>, t: Seq<Token>)
    requires
        !(spec_grammar_rule(s).0 matches Err(ParseError::NoTokensLeft)),
    ensures
        spec_grammar_rule(s + t) == spec_grammar_rule(s),
{
    assert((s + t)[0] == s[0]);
    if spec_name(s).0 is Ok {
        assert((s + t).skip(1) =~= s.skip(1) + t);
        lemma_arrow_prefix(s.skip(1), t);
        let a = spec_arrow(s.skip(1));
        if a.0 is Ok {
            lemma_arrow_used(s.skip(1));
            assert((s + t).skip((1 + a.1) as int) =~= s.skip((1 + a.1) as int) + t);
            lemma_rule_content_prefix(s.skip((1 + a.1) as int), t);
        }
    }
}

// ---------------------------------------------------------------------------
// Writing rules as tokens, and reading them back.

/// A punctuation token standing alone.
pub open spec fn punct(c: char) -> Token {
    Token::Punct(c, Spacing::Alone)
}

/// The token that writes a child.
pub open spec fn child_token(c: Child) -> Token {
    match c {
        Child::Ident(s) => Token::Ident(s),
        Child::Literal(s) => Token::Literal(s),
    }
}

/// The marks of a child of a concatenation: `.` when the next child follows
/// immediately, then `*` when the child repeats.
pub open spec fn mark_tokens(dot: bool, star: bool) -> Seq<Token> {
    (if dot { seq![punct('.')] } else { seq![] }) + (if star { seq![punct('*')] } else { seq![] })
}

/// What follows the first child of the concatenation `v`: the marks of each
/// child, the next child, and the `;` after the last one.
pub open spec fn concat_tail_tokens(v: Seq<ConcatinativeRuleChild>) -> Seq<Token>
    decreases v.len(),
{
    if v.len() == 0 {
        seq![]
    } else {
        mark_tokens(v[0].imediate_next, v[0].repeated) + if v.len() == 1 {
            seq![punct(';')]
        } else {
            seq![child_token(v[1].child)] + concat_tail_tokens(v.drop_first())
        }
    }
}

/// The options `v` written `a | b | c ;`.
pub open spec fn options_tokens(v: Seq<Child>) -> Seq<Token>
    decreases v.len(),
{
    if v.len() == 0 {
        seq![]
    } else {
        seq![child_token(v[0])] + if v.len() == 1 {
            seq![punct(';')]
        } else {
            seq![punct('|')] + options_tokens(v.drop_first())
        }
    }
}

/// A rule body written as tokens.
pub open spec fn content_tokens(c: ContentModel) -> Seq<Token> {
    match c {
        ContentModel::Options(v) => options_tokens(v),
        ContentModel::Concatinative(v) => if v.len() == 0 {
            seq![]
        } else {
            seq![child_token(v[0].child)] + concat_tail_tokens(v)
        },
    }
}

/// A rule written as tokens: `name -> body`.
pub open spec fn rule_tokens(r: RuleModel) -> Seq<Token> {
    seq![Token::Ident(r.name), Token::Punct('-', Spacing::Joint), Token::Punct('>', Spacing::Alone)]
        + content_tokens(r.content)
}

/// Rules written one after the other.
pub open spec fn rules_tokens(rs: Seq<RuleModel>) -> Seq<Token>
    decreases rs.len(),
{
    if rs.len() == 0 {
        seq![]
    } else {
        rule_tokens(rs[0]) + rules_tokens(rs.drop_first())
    }
}

/// A body that can be written: it has a child, and a concatenation of one
/// child has that child marked with `.` (without marks, or marked with `*`
/// alone, one child followed by `;` reads as something else).
pub open spec fn well_formed_content(c: ContentModel) -> bool {
    match c {
        ContentModel::Options(v) => v.len() >= 1,
        ContentModel::Concatinative(v) => v.len() >= 1 && (v.len() == 1 ==> v[0].imediate_next),
    }
}

pub open spec fn well_formed_rule(r: RuleModel) -> bool {
    well_formed_content(r.content)
}

proof fn lemma_concatinative_marks(cur: Child, dot: bool, star: bool, x: Seq<Token>)
    ensures
        spec_concatinative(cur, false, false, mark_tokens(dot, star) + x)
            == (spec_concatinative(cur, dot, star, x).0, mark_tokens(dot, star).len() + spec_concatinative(cur, dot, star, x).1),
{
    let m = mark_tokens(dot, star);
    if !dot && !star {
        assert(m + x =~= x);
    } else if dot && !star {
        assert((m + x)[0] == punct('.'));
        assert((m + x).drop_first() =~= x);
    } else if !dot && star {
        assert((m + x)[0] == punct('*'));
        assert((m + x).drop_first() =~= x);
    } else {
        let y = seq![punct('*')] + x;
        assert((m + x)[0] == punct('.'));
        assert((m + x).drop_first() =~= y);
        assert(y[0] == punct('*'));
        assert(y.drop_first() =~= x);
        assert(spec_concatinative(cur, true, false, y) == (spec_concatinative(cur, true, true, x).0, 1 + spec_concatinative(cur, true, true, x).1));
    }
}

proof fn lemma_first_marks_marks(first: Child, dot: bool, star: bool, x: Seq<Token>)
    ensures
        spec_first_marks(first, false, false, mark_tokens(dot, star) + x)
            == (spec_first_marks(first, dot, star, x).0, mark_tokens(dot, star).len() + spec_first_marks(first, dot, star, x).1),
{
    let m = mark_tokens(dot, star);
    if !dot && !star {
        assert(m + x =~= x);
    } else if dot && !star {
        assert((m + x)[0] == punct('.'));
        assert((m + x).drop_first() =~= x);
    } else if !dot && star {
        assert((m + x)[0] == punct('*'));
        assert((m + x).drop_first() =~= x);
    } else {
        let y = seq![punct('*')] + x;
        assert((m + x)[0] == punct('.'));
        assert((m + x).drop_first() =~= y);
        assert(y[0] == punct('*'));
        assert(y.drop_first() =~= x);
        assert(spec_first_marks(first, true, false, y) == (spec_first_marks(first, true, true, x).0, 1 + spec_first_marks(first, true, true, x).1));
    }
}

proof fn lemma_concatinative_roundtrip(v: Seq<ConcatinativeRuleChild>, t: Seq<Token>)
    requires
        v.len() >= 1,
    ensures
        spec_concatinative(v[0].child, false, false, concat_tail_tokens(v) + t)
            == (Ok::<Seq<ConcatinativeRuleChild>, ParseError>(v), concat_tail_tokens(v).len()),
    decreases v.len(),
{
    let c = v[0];
    let m = mark_tokens(c.imediate_next, c.repeated);
    assert(marked(c.child, c.imediate_next, c.repeated) == c);
    if v.len() == 1 {
        let rest = seq![punct(';')];
        assert(concat_tail_tokens(v) + t =~= m + (rest + t));
        lemma_concatinative_marks(c.child, c.imediate_next, c.repeated, rest + t);
        assert(seq![c] =~= v);
    } else {
        let w = v.drop_first();
        let rest = seq![child_token(v[1].child)] + concat_tail_tokens(w);
        assert(concat_tail_tokens(v) + t =~= m + (rest + t));
        lemma_concatinative_marks(c.child, c.imediate_next, c.repeated, rest + t);
        assert((rest + t).drop_first() =~= concat_tail_tokens(w) + t);
        assert(child_of(child_token(v[1].child)) == Some(v[1].child));
        lemma_concatinative_roundtrip(w, t);
        assert(seq![c] + w =~= v);
    }
}

proof fn lemma_options_roundtrip(v: Seq<Child>, t: Seq<Token>)
    requires
        v.len() >= 1,
    ensures
        spec_options(options_tokens(v) + t) == (Ok::<Seq<Child>, ParseError>(v), options_tokens(v).len()),
    decreases v.len(),
{
    let s = options_tokens(v) + t;
    assert(child_of(child_token(v[0])) == Some(v[0]));
    assert(s[0] == child_token(v[0]));
    if v.len() == 1 {
        assert(s[1] == punct(';'));
        assert(seq![v[0]] =~= v);
    } else {
        let w = v.drop_first();
        assert(s[1] == punct('|'));
        assert(s.skip(2) =~= options_tokens(w) + t);
        lemma_options_roundtrip(w, t);
        assert(seq![v[0]] + w =~= v);
    }
}

proof fn lemma_options_content_roundtrip(v: Seq<Child>, t: Seq<Token>)
    requires
        v.len() >= 1,
    ensures
        spec_rule_content(options_tokens(v) + t)
            == (Ok::<ContentModel, ParseError>(ContentModel::Options(v)), options_tokens(v).len()),
{
    let s = options_tokens(v) + t;
    assert(child_of(child_token(v[0])) == Some(v[0]));
    assert(s[0] == child_token(v[0]));
    if v.len() == 1 {
        assert(s.drop_first()[0] == punct(';'));
        assert(seq![v[0]] =~= v);
    } else {
        let w = v.drop_first();
        assert(s.drop_first()[0] == punct('|'));
        assert(s.drop_first().drop_first() =~= options_tokens(w) + t);
        lemma_options_roundtrip(w, t);
        assert(seq![v[0]] + w =~= v);
    }
}

proof fn lemma_single_content_roundtrip(v: Seq<ConcatinativeRuleChild>, t: Seq<Token>)
    requires
        v.len() == 1,
        v[0].imediate_next,
    ensures
        spec_rule_content(content_tokens(ContentModel::Concatinative(v)) + t)
            == (Ok::<ContentModel, ParseError>(ContentModel::Concatinative(v)), content_tokens(ContentModel::Concatinative(v)).len()),
{
    let s = content_tokens(ContentModel::Concatinative(v)) + t;
    let first = v[0];
    let m = mark_tokens(first.imediate_next, first.repeated);
    let rest = seq![punct(';')];
    assert(child_of(child_token(first.child)) == Some(first.child));
    assert(s[0] == child_token(first.child));
    assert(s.drop_first() =~= m + (rest + t));
    lemma_first_marks_marks(first.child, first.imediate_next, first.repeated, rest + t);
    assert(marked(first.child, true, first.imediate_next && first.repeated) == first);
    assert(seq![first] =~= v);
}

proof fn lemma_long_content_roundtrip(v: Seq<ConcatinativeRuleChild>, t: Seq<Token>)
    requires
        v.len() >= 2,
    ensures
        spec_rule_content(content_tokens(ContentModel::Concatinative(v)) + t)
            == (Ok::<ContentModel, ParseError>(ContentModel::Concatinative(v)), content_tokens(ContentModel::Concatinative(v)).len()),
{
    let s = content_tokens(ContentModel::Concatinative(v)) + t;
    let first = v[0];
    let m = mark_tokens(first.imediate_next, first.repeated);
    let w = v.drop_first();
    let rest = seq![child_token(v[1].child)] + concat_tail_tokens(w);
    assert(child_of(child_token(first.child)) == Some(first.child));
    assert(s[0] == child_token(first.child));
    assert(concat_tail_tokens(v) =~= m + rest);
    assert(s.drop_first() =~= m + (rest + t));
    lemma_first_marks_marks(first.child, first.imediate_next, first.repeated, rest + t);
    assert((rest + t)[0] == child_token(v[1].child));
    assert((rest + t).drop_first() =~= concat_tail_tokens(w) + t);
    assert(child_of(child_token(v[1].child)) == Some(v[1].child));
    lemma_concatinative_roundtrip(w, t);
    assert(marked(first.child, first.imediate_next, first.repeated) == first);
    assert(seq![first] + w =~= v);
}

proof fn lemma_content_roundtrip(c: ContentModel, t: Seq<Token>)
    requires
        well_formed_content(c),
    ensures
        spec_rule_content(content_tokens(c) + t) == (Ok::<ContentModel, ParseError>(c), content_tokens(c).len()),
{
    match c {
        ContentModel::Options(v) => lemma_options_content_roundtrip(v, t),
        ContentModel::Concatinative(v) => if v.len() == 1 {
            lemma_single_content_roundtrip(v, t);
        } else {
            lemma_long_content_roundtrip(v, t);
        },
    }
}

/// A well-formed rule written as tokens reads back as itself, taking exactly
/// its own tokens, whatever follows it.
pub proof fn lemma_rule_roundtrip(r: RuleModel, t: Seq<Token>)
    requires
        well_formed_rule(r),
    ensures
        spec_grammar_rule(rule_tokens(r) + t) == (Ok::<RuleModel, ParseError>(r), rule_tokens(r).len()),
{
    let s = rule_tokens(r) + t;
    assert(s[0] == Token::Ident(r.name));
    assert(s.skip(1)[0] == Token::Punct('-', Spacing::Joint));
    assert(s.skip(1).skip(1)[0] == Token::Punct('>', Spacing::Alone));
    assert(s.skip(3) =~= content_tokens(r.content) + t);
    lemma_content_roundtrip(r.content, t);
}

/// Rules written one after the other read back as the same rules, and every
/// token is read.
pub proof fn lemma_rules_roundtrip(rs: Seq<RuleModel>)
    requires
        forall|i: int| 0 <= i < rs.len() ==> well_formed_rule(#[trigger] rs[i]),
    ensures
        spec_grammar_rules(rules_tokens(rs)) == (Ok::<Seq<RuleModel>, ParseError>(rs), rules_tokens(rs).len()),
    decreases rs.len(),
{
    let s = rules_tokens(rs);
    if rs.len() == 0 {
        assert(rs =~= Seq::<RuleModel>::empty());
    } else {
        let rest = rules_tokens(rs.drop_first());
        lemma_rule_roundtrip(rs[0], rest);
        assert(s.skip(rule_tokens(rs[0]).len() as int) =~= rest);
        lemma_rules_roundtrip(rs.drop_first());
        assert(seq![rs[0]] + rs.drop_first() =~= rs);
        assert(spec_grammar_rule(s) == (Ok::<RuleModel, ParseError>(rs[0]), rule_tokens(rs[0]).len()));
    }
}

// ---------------------------------------------------------------------------
// Every rule read can be written.

proof fn lemma_concatinative_nonempty(cur: Child, dot: bool, star: bool, s: Seq<Token>)
    ensures
        spec_concatinative(cur, dot, star, s).0 matches Ok(v) ==> v.len() >= 1,
    decreases s.len(),
{
    if s.len() > 0 {
        let x = s[0];
        if is_punct(x, ';') {
        } else if is_punct(x, '.') && !dot {
            lemma_concatinative_nonempty(cur, true, star, s.drop_first());
        } else if is_punct(x, '*') && !star {
            lemma_concatinative_nonempty(cur, dot, true, s.drop_first());
        }
    }
}

proof fn lemma_first_marks_well_formed(first: Child, dot: bool, star: bool, s: Seq<Token>)
    ensures
        spec_first_marks(first, dot, star, s).0 matches Ok(c) ==> well_formed_content(c),
    decreases s.len(),
{
    if s.len() > 0 {
        let x = s[0];
        if is_punct(x, ';') {
        } else if is_punct(x, '|') && !dot && !star {
        } else if is_punct(x, '.') && !dot {
            lemma_first_marks_well_formed(first, true, star, s.drop_first());
        } else if is_punct(x, '*') && !star {
            lemma_first_marks_well_formed(first, dot, true, s.drop_first());
        } else if child_of(x) is Some {
            lemma_concatinative_nonempty(child_of(x)->0, false, false, s.drop_first());
        }
    }
}

/// Every rule that is read is well formed, so that writing it as tokens and
/// reading those gives it back.
pub proof fn lemma_parsed_rule_well_formed(s: Seq<Token>)
    ensures
        spec_grammar_rule(s).0 matches Ok(r) ==> well_formed_rule(r),
{
    if spec_name(s).0 is Ok {
        let a = spec_arrow(s.skip(1));
        if a.0 is Ok {
            let b = s.skip((1 + a.1) as int);
            if b.len() > 0 && child_of(b[0]) is Some {
                lemma_first_marks_well_formed(child_of(b[0])->0, false, false, b.drop_first());
            }
        }
    }
}

/// Every rule in a successful reading of rules is well formed.
pub proof fn lemma_parsed_rules_well_formed(s: Seq<Token>)
    ensures
        spec_grammar_rules(s).0 matches Ok(rs) ==> forall|i: int| 0 <= i < rs.len() ==> well_formed_rule(#[trigger] rs[i]),
    decreases s.len(),
{
    let first = spec_grammar_rule(s);
    if first.0 is Ok {
        lemma_grammar_rule_used(s);
        lemma_parsed_rule_well_formed(s);
        lemma_parsed_rules_well_formed(s.skip(first.1 as int));
        if let Ok(rs) = spec_grammar_rules(s).0 {
            let rest = spec_grammar_rules(s.skip(first.1 as int)).0->Ok_0;
            assert forall|i: int| 0 <= i < rs.len() implies well_formed_rule(#[trigger] rs[i]) by {
                if i > 0 {
                    assert(rs[i] == rest[i - 1]);
                }
            }
        }
    }
}

/// Reading rules, writing what was read as tokens and reading those again
/// gives the same rules.
pub proof fn lemma_reread_rules(s: Seq<Token>)
    ensures
        spec_grammar_rules(s).0 matches Ok(rs) ==> spec_grammar_rules(rules_tokens(rs)).0 == Ok::<Seq<RuleModel>, ParseError>(rs),
{
    lemma_parsed_rules_well_formed(s);
    if let Ok(rs) = spec_grammar_rules(s).0 {
        lemma_rules_roundtrip(rs);
    }
}

// ---------------------------------------------------------------------------
// Reading rules one after another.

/// Reading rules is reading one rule after another. A rule read is followed
/// by the rules read after it. Only a rule that the end of the tokens cuts
/// short is dropped, and then every token was read; a rule that fails in any
/// other way, even on the last token, is the failure of the whole reading.
pub proof fn lemma_rules_one_by_one(s: Seq<Token>)
    ensures
        spec_grammar_rule(s).0 matches Err(ParseError::NoTokensLeft) ==> spec_grammar_rules(s)
            == (Ok::<Seq<RuleModel>, ParseError>(seq![]), s.len()),
        spec_grammar_rule(s).0 matches Err(ParseError::UnexpectedToken(t)) ==> spec_grammar_rules(s)
            == (Err::<Seq<RuleModel>, ParseError>(ParseError::UnexpectedToken(t)), spec_grammar_rule(s).1),
        spec_grammar_rule(s).0 matches Ok(r) ==> {
            let n = spec_grammar_rule(s).1;
            let rest = spec_grammar_rules(s.skip(n as int));
            &&& 0 < n <= s.len()
            &&& spec_grammar_rules(s).1 == n + rest.1
            &&& spec_grammar_rules(s).0 == match rest.0 {
                Ok(v) => Ok::<Seq<RuleModel>, ParseError>(seq![r] + v),
                Err(e) => Err(e),
            }
        },
{
    lemma_grammar_rule_used(s);
}

/// A reading of rules fails exactly when some rule, read where the rules
/// before it end, fails other than by running out of tokens; it then fails
/// with that rule's error.
pub proof fn lemma_rules_error_is_a_rule_error(s: Seq<Token>)
    ensures
        spec_grammar_rules(s).0 matches Err(e) ==> !(e is NoTokensLeft),
        spec_grammar_rule(s).0 matches Err(e) ==> (!(e is NoTokensLeft) <==> spec_grammar_rules(s).0 == Err::<
            Seq<RuleModel>,
            ParseError,
        >(e)),
{
    lemma_grammar_rules_outcome(s);
    lemma_grammar_rule_used(s);
}

// ---------------------------------------------------------------------------
// In a rule body, spacing does not matter.

/// Two errors are the same but for the spacing of the token they carry.
pub open spec fn same_error(e: ParseError, e2: ParseError) -> bool {
    match (e, e2) {
        (ParseError::UnexpectedToken(a), ParseError::UnexpectedToken(b)) => same_but_spacing(a, b),
        (ParseError::NoTokensLeft, ParseError::NoTokensLeft) => true,
        _ => false,
    }
}

/// Two outcomes are the same but for the spacing of the token an error
/// carries.
pub open spec fn same_outcome<T>(o: (Result<T, ParseError>, nat), o2: (Result<T, ParseError>, nat)) -> bool {
    &&& o.1 == o2.1
    &&& match (o.0, o2.0) {
        (Ok(a), Ok(b)) => a == b,
        (Err(e), Err(e2)) => same_error(e, e2),
        _ => false,
    }
}

proof fn lemma_token_respaced(t: Token, t2: Token)
    requires
        same_but_spacing(t, t2),
    ensures
        forall|c: char| #[trigger] is_punct(t, c) == is_punct(t2, c),
        child_of(t) == child_of(t2),
        same_error(ParseError::UnexpectedToken(t), ParseError::UnexpectedToken(t2)),
{
}

proof fn lemma_concatinative_respaced(cur: Child, dot: bool, star: bool, s: Seq<Token>, s2: Seq<Token>)
    requires
        respaced(s, s2),
    ensures
        same_outcome(spec_concatinative(cur, dot, star, s), spec_concatinative(cur, dot, star, s2)),
    decreases s.len(),
{
    if s.len() > 0 {
        lemma_token_respaced(s[0], s2[0]);
        lemma_respaced_skip(s, s2, 1);
        let t = s[0];
        if is_punct(t, ';') {
        } else if is_punct(t, '.') && !dot {
            lemma_concatinative_respaced(cur, true, star, s.drop_first(), s2.drop_first());
        } else if is_punct(t, '*') && !star {
            lemma_concatinative_respaced(cur, dot, true, s.drop_first(), s2.drop_first());
        } else if child_of(t) is Some {
            lemma_concatinative_respaced(child_of(t)->0, false, false, s.drop_first(), s2.drop_first());
        }
    }
}

proof fn lemma_options_respaced(s: Seq<Token>, s2: Seq<Token>)
    requires
        respaced(s, s2),
    ensures
        same_outcome(spec_options(s), spec_options(s2)),
    decreases s.len(),
{
    if s.len() > 0 {
        lemma_token_respaced(s[0], s2[0]);
        if s.len() > 1 {
            lemma_token_respaced(s[1], s2[1]);
            lemma_respaced_skip(s, s2, 2);
            if child_of(s[0]) is Some && is_punct(s[1], '|') {
                lemma_options_respaced(s.skip(2), s2.skip(2));
            }
        }
    }
}

proof fn lemma_first_marks_respaced(first: Child, dot: bool, star: bool, s: Seq<Token>, s2: Seq<Token>)
    requires
        respaced(s, s2),
    ensures
        same_outcome(spec_first_marks(first, dot, star, s), spec_first_marks(first, dot, star, s2)),
    decreases s.len(),
{
    if s.len() > 0 {
        lemma_token_respaced(s[0], s2[0]);
        lemma_respaced_skip(s, s2, 1);
        let t = s[0];
        if is_punct(t, ';') {
        } else if is_punct(t, '|') && !dot && !star {
            lemma_options_respaced(s.drop_first(), s2.drop_first());
        } else if is_punct(t, '.') && !dot {
            lemma_first_marks_respaced(first, true, star, s.drop_first(), s2.drop_first());
        } else if is_punct(t, '*') && !star {
            lemma_first_marks_respaced(first, dot, true, s.drop_first(), s2.drop_first());
        } else if child_of(t) is Some {
            lemma_concatinative_respaced(child_of(t)->0, false, false, s.drop_first(), s2.drop_first());
        }
    }
}

/// Reading a rule body looks at the character of each punctuation token,
/// never at its spacing: the marks `.` and `*` and the separators `|` and
/// `;` are read whether joint or alone. Token sequences that differ only in
/// spacing read the same body and take the same tokens; an error carries the
/// same token but for its spacing.
pub proof fn lemma_rule_content_ignores_spacing(s: Seq<Token>, s2: Seq<Token>)
    requires
        respaced(s, s2),
    ensures
        same_outcome(spec_rule_content(s), spec_rule_content(s2)),
{
    if s.len() > 0 {
        lemma_token_respaced(s[0], s2[0]);
        lemma_respaced_skip(s, s2, 1);
        if child_of(s[0]) is Some {
            lemma_first_marks_respaced(child_of(s[0])->0, false, false, s.drop_first(), s2.drop_first());
        }
    }
}

// ---------------------------------------------------------------------------
// The arrow.

/// The arrow is read exactly when the tokens start with `-` joint to the
/// next token and then `>` standing alone; it then takes those two tokens.
pub proof fn lemma_arrow_exact(s: Seq<Token>)
    ensures
        spec_arrow(s).0 is Ok <==> (s.len() >= 2 && s[0] == Token::Punct('-', Spacing::Joint) && s[1]
            == Token::Punct('>', Spacing::Alone)),
        spec_arrow(s).0 is Ok ==> spec_arrow(s).1 == 2,
{
    if s.len() >= 2 {
        assert(s.skip(1)[0] == s[1]);
    }
}

} // verus!
