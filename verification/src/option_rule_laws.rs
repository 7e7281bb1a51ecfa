//! Laws of reading rules whose options join children with `&`.
use vstd::prelude::*;
use crate::token::{Token, Spacing, same_but_spacing, respaced, lemma_respaced_skip};
use crate::option_rules::{
    Child, ChildValue, ParseError, RuleModel, after, after_child_opt, is_punct, mark_last, plain, value_of,
    spec_after_child, spec_arrow, spec_child_then, child_then_opt,
    spec_children_options_list, spec_grammar_rule, spec_grammar_rules, lemma_child_then_used,
    lemma_grammar_rule_used,
};

verus! {

// ---------------------------------------------------------------------------
// Writing rules as tokens, and reading them back.

/// A punctuation token standing alone.
pub open spec fn punct(c: char) -> Token {
    Token::Punct(c, Spacing::Alone)
}

/// The token that writes a child's value.
pub open spec fn value_token(v: ChildValue) -> Token {
    match v {
        ChildValue::Ident(s) => Token::Ident(s),
        ChildValue::Literal(s) => Token::Literal(s),
    }
}

/// A child written as tokens: its value, then `.` when the next child
/// follows immediately and `*` when it repeats.
pub open spec fn child_tokens(c: Child) -> Seq<Token> {
    seq![value_token(c.value)] + (if c.next_imediat { seq![punct('.')] } else { seq![] }) + (if c.repeatable {
        seq![punct('*')]
    } else {
        seq![]
    })
}

/// The children of an option joined by `&`.
pub open spec fn option_tokens(opt: Seq<Child>) -> Seq<Token>
    decreases opt.len(),
{
    if opt.len() == 0 {
        seq![]
    } else if opt.len() == 1 {
        child_tokens(opt[0])
    } else {
        child_tokens(opt[0]) + seq![punct('&')] + option_tokens(opt.drop_first())
    }
}

/// Options separated by `|` and ended by `;`.
pub open spec fn options_tokens(os: Seq<Seq<Child>>) -> Seq<Token>
    decreases os.len(),
{
    if os.len() == 0 {
        seq![]
    } else if os.len() == 1 {
        option_tokens(os[0]) + seq![punct(';')]
    } else {
        option_tokens(os[0]) + seq![punct('|')] + options_tokens(os.drop_first())
    }
}

/// A rule written as tokens: `name -> options`.
pub open spec fn rule_tokens(r: RuleModel) -> Seq<Token> {
    seq![Token::Ident(r.parent), Token::Punct('-', Spacing::Joint), Token::Punct('>', Spacing::Alone)]
        + options_tokens(r.children_options)
}

/// Rules written one after the other.
pub open spec fn rules_tokens(rs: Seq<RuleModel>) -> Seq<Token>
    decreases rs.len(),
{
    if rs.len() == 0 {
        seq![]
    } else {
        rule_tokens(rs[0]) + rules_tokens(rs.drop_first())
    }
}

/// A rule that can be written: it has an option, and every option has a child.
pub open spec fn well_formed_rule(r: RuleModel) -> bool {
    &&& r.children_options.len() >= 1
    &&& forall|i: int| 0 <= i < r.children_options.len() ==> #[trigger] r.children_options[i].len() >= 1
}

/// Reading the marks of the child `c`, the last one read, after its value.
proof fn lemma_marks_roundtrip(pre: Seq<Child>, c: Child, x: Seq<Token>)
    ensures
        ({
            let m = child_tokens(c).drop_first();
            spec_after_child(pre.push(plain(c.value)), m + x)
                == after(m.len(), spec_after_child(pre.push(c), x))
        }),
{
    let m = child_tokens(c).drop_first();
    let p = pre.push(plain(c.value));
    let d = Child { value: c.value, repeatable: false, next_imediat: c.next_imediat };
    if c.next_imediat {
        assert((m + x)[0] == punct('.'));
        assert(mark_last(p, true) =~= pre.push(d));
        if c.repeatable {
            let y = seq![punct('*')] + x;
            assert((m + x).drop_first() =~= y);
            assert(y[0] == punct('*'));
            assert(y.drop_first() =~= x);
            assert(mark_last(pre.push(d), false) =~= pre.push(c));
            assert(spec_after_child(pre.push(d), y) == after(1, spec_after_child(pre.push(c), x)));
        } else {
            assert((m + x).drop_first() =~= x);
            assert(d == c);
        }
    } else {
        if c.repeatable {
            assert((m + x)[0] == punct('*'));
            assert((m + x).drop_first() =~= x);
            assert(mark_last(p, false) =~= pre.push(c));
        } else {
            assert(m + x =~= x);
            assert(plain(c.value) == c);
        }
    }
}

/// The token that ends an option: `|` when another option follows, else `;`.
pub open spec fn end_token(more: bool) -> Token {
    punct(if more { '|' } else { ';' })
}

proof fn lemma_last_child_roundtrip(pre: Seq<Child>, c: Child, more: bool, t: Seq<Token>)
    ensures
        spec_child_then(pre, child_tokens(c) + (seq![end_token(more)] + t))
            == (Ok::<(Seq<Child>, bool), ParseError>((pre.push(c), more)), child_tokens(c).len() + 1),
{
    let x = seq![end_token(more)] + t;
    let s = child_tokens(c) + x;
    let m = child_tokens(c).drop_first();
    assert(child_tokens(c) =~= seq![value_token(c.value)] + m);
    assert(s[0] == value_token(c.value));
    assert(value_of(value_token(c.value)) == Some(c.value));
    assert(s.drop_first() =~= m + x);
    lemma_marks_roundtrip(pre, c, x);
    assert(x[0] == end_token(more));
}

proof fn lemma_joined_child_roundtrip(pre: Seq<Child>, c: Child, x: Seq<Token>)
    ensures
        spec_child_then(pre, child_tokens(c) + (seq![punct('&')] + x))
            == after(child_tokens(c).len() + 1, spec_child_then(pre.push(c), x)),
{
    let y = seq![punct('&')] + x;
    let s = child_tokens(c) + y;
    let m = child_tokens(c).drop_first();
    assert(child_tokens(c) =~= seq![value_token(c.value)] + m);
    assert(s[0] == value_token(c.value));
    assert(value_of(value_token(c.value)) == Some(c.value));
    assert(s.drop_first() =~= m + y);
    lemma_marks_roundtrip(pre, c, y);
    assert(y[0] == punct('&'));
    assert(y.drop_first() =~= x);
}

/// An option written as tokens and ended by `|` (when `more`) or `;` reads
/// back as itself, appended to the children `pre` read before it.
proof fn lemma_option_roundtrip(pre: Seq<Child>, opt: Seq<Child>, more: bool, t: Seq<Token>)
    requires
        opt.len() >= 1,
    ensures
        spec_child_then(pre, option_tokens(opt) + (seq![end_token(more)] + t))
            == (Ok::<(Seq<Child>, bool), ParseError>((pre + opt, more)), option_tokens(opt).len() + 1),
    decreases opt.len(),
{
    let x = seq![end_token(more)] + t;
    if opt.len() == 1 {
        lemma_last_child_roundtrip(pre, opt[0], more, t);
        assert(pre.push(opt[0]) =~= pre + opt);
    } else {
        let w = opt.drop_first();
        assert(option_tokens(opt) + x =~= child_tokens(opt[0]) + (seq![punct('&')] + (option_tokens(w) + x)));
        lemma_joined_child_roundtrip(pre, opt[0], option_tokens(w) + x);
        lemma_option_roundtrip(pre.push(opt[0]), w, more, t);
        assert(pre.push(opt[0]) + w =~= pre + opt);
    }
}

proof fn lemma_options_roundtrip(os: Seq<Seq<Child>>, t: Seq<Token>)
    requires
        os.len() >= 1,
        forall|i: int| 0 <= i < os.len() ==> #[trigger] os[i].len() >= 1,
    ensures
        spec_children_options_list(options_tokens(os) + t)
            == (Ok::<Seq<Seq<Child>>, ParseError>(os), options_tokens(os).len()),
    decreases os.len(),
{
    let s = options_tokens(os) + t;
    assert(os[0].len() >= 1);
    assert(Seq::<Child>::empty() + os[0] =~= os[0]);
    if os.len() == 1 {
        assert(s =~= option_tokens(os[0]) + (seq![end_token(false)] + t));
        lemma_option_roundtrip(seq![], os[0], false, t);
        assert(seq![os[0]] =~= os);
    } else {
        let w = os.drop_first();
        assert(s =~= option_tokens(os[0]) + (seq![end_token(true)] + (options_tokens(w) + t)));
        lemma_option_roundtrip(seq![], os[0], true, options_tokens(w) + t);
        let n = option_tokens(os[0]).len() + 1;
        assert(s.skip(n as int) =~= options_tokens(w) + t);
        assert forall|i: int| 0 <= i < w.len() implies #[trigger] w[i].len() >= 1 by {
            assert(w[i] == os[i + 1]);
        }
        lemma_options_roundtrip(w, t);
        assert(seq![os[0]] + w =~= os);
    }
}

/// A well-formed rule written as tokens reads back as itself, taking exactly
/// its own tokens, whatever follows it.
pub proof fn lemma_rule_roundtrip(r: RuleModel, t: Seq<Token>)
    requires
        well_formed_rule(r),
    ensures
        spec_grammar_rule(rule_tokens(r) + t) == (Ok::<Option<RuleModel>, ParseError>(Some(r)), rule_tokens(r).len()),
{
    let s = rule_tokens(r) + t;
    assert(s[0] == Token::Ident(r.parent));
    let u = s.drop_first();
    assert(u[0] == Token::Punct('-', Spacing::Joint));
    assert(u[1] == Token::Punct('>', Spacing::Alone));
    assert(spec_arrow(u) == (Ok::<(), ParseError>(()), 2nat));
    assert(u.skip(2) =~= options_tokens(r.children_options) + t);
    lemma_options_roundtrip(r.children_options, t);
}

/// Rules written one after the other read back as the same rules, and every
/// token is read.
pub proof fn lemma_rules_roundtrip(rs: Seq<RuleModel>)
    requires
        forall|i: int| 0 <= i < rs.len() ==> well_formed_rule(#[trigger] rs[i]),
    ensures
        spec_grammar_rules(rules_tokens(rs)) == (Ok::<Seq<RuleModel>, ParseError>(rs), rules_tokens(rs).len()),
    decreases rs.len(),
{
    let s = rules_tokens(rs);
    if rs.len() == 0 {
        assert(rs =~= Seq::<RuleModel>::empty());
    } else {
        let rest = rules_tokens(rs.drop_first());
        lemma_rule_roundtrip(rs[0], rest);
        assert(s.skip(rule_tokens(rs[0]).len() as int) =~= rest);
        assert forall|i: int| 0 <= i < rs.drop_first().len() implies well_formed_rule(#[trigger] rs.drop_first()[i]) by {
            assert(rs.drop_first()[i] == rs[i + 1]);
        }
        lemma_rules_roundtrip(rs.drop_first());
        assert(seq![rs[0]] + rs.drop_first() =~= rs);
    }
}

// ---------------------------------------------------------------------------
// Every rule read can be written.

proof fn lemma_after_child_grows(opt: Seq<Child>, s: Seq<Token>)
    ensures
        spec_after_child(opt, s).0 matches Ok((o, _)) ==> o.len() >= opt.len(),
    decreases s.len(), 0int,
{
    if s.len() > 0 {
        let x = s[0];
        if is_punct(x, '.') {
            lemma_after_child_grows(mark_last(opt, true), s.drop_first());
        } else if is_punct(x, '*') {
            lemma_after_child_grows(mark_last(opt, false), s.drop_first());
        } else if is_punct(x, '&') {
            lemma_child_then_grows(opt, s.drop_first());
        }
    }
}

proof fn lemma_child_then_grows(opt: Seq<Child>, s: Seq<Token>)
    ensures
        spec_child_then(opt, s).0 matches Ok((o, _)) ==> o.len() >= opt.len() + 1,
    decreases s.len(), 1int,
{
    if s.len() > 0 && value_of(s[0]) is Some {
        lemma_after_child_grows(opt.push(plain(value_of(s[0])->0)), s.drop_first());
    }
}

proof fn lemma_options_list_well_formed(s: Seq<Token>)
    ensures
        spec_children_options_list(s).0 matches Ok(os) ==> {
            &&& os.len() >= 1
            &&& forall|i: int| 0 <= i < os.len() ==> #[trigger] os[i].len() >= 1
        },
    decreases s.len(),
{
    lemma_child_then_grows(seq![], s);
    lemma_child_then_used(seq![], s);
    let o = spec_child_then(seq![], s);
    if let Ok((opt, more)) = o.0 {
        if more {
            lemma_options_list_well_formed(s.skip(o.1 as int));
            if let Ok(os) = spec_children_options_list(s).0 {
                let rest = spec_children_options_list(s.skip(o.1 as int)).0->Ok_0;
                assert forall|i: int| 0 <= i < os.len() implies #[trigger] os[i].len() >= 1 by {
                    if i > 0 {
                        assert(os[i] == rest[i - 1]);
                    }
                }
            }
        }
    }
}

/// Every rule that is read is well formed, so that writing it as tokens and
/// reading those gives it back.
pub proof fn lemma_parsed_rule_well_formed(s: Seq<Token>)
    ensures
        spec_grammar_rule(s).0 matches Ok(Some(r)) ==> well_formed_rule(r),
{
    if s.len() > 0 {
        let u = s.drop_first();
        let a = spec_arrow(u);
        if a.0 is Ok {
            lemma_options_list_well_formed(u.skip(a.1 as int));
        }
    }
}

/// Every rule in a successful reading of rules is well formed.
pub proof fn lemma_parsed_rules_well_formed(s: Seq<Token>)
    ensures
        spec_grammar_rules(s).0 matches Ok(rs) ==> forall|i: int| 0 <= i < rs.len() ==> well_formed_rule(#[trigger] rs[i]),
    decreases s.len(),
{
    let first = spec_grammar_rule(s);
    if first.0 matches Ok(Some(_)) {
        lemma_grammar_rule_used(s);
        lemma_parsed_rule_well_formed(s);
        lemma_parsed_rules_well_formed(s.skip(first.1 as int));
        if let Ok(rs) = spec_grammar_rules(s).0 {
            let rest = spec_grammar_rules(s.skip(first.1 as int)).0->Ok_0;
            assert forall|i: int| 0 <= i < rs.len() implies well_formed_rule(#[trigger] rs[i]) by {
                if i > 0 {
                    assert(rs[i] == rest[i - 1]);
                }
            }
        }
    }
}

/// Reading rules, writing what was read as tokens and reading those again
/// gives the same rules.
pub proof fn lemma_reread_rules(s: Seq<Token>)
    ensures
        spec_grammar_rules(s).0 matches Ok(rs) ==> spec_grammar_rules(rules_tokens(rs)).0 == Ok::<Seq<RuleModel>, ParseError>(rs),
{
    lemma_parsed_rules_well_formed(s);
    if let Ok(rs) = spec_grammar_rules(s).0 {
        lemma_rules_roundtrip(rs);
    }
}

// ---------------------------------------------------------------------------
// What follows a rule does not change how the rule is read.

proof fn lemma_after_child_prefix(opt: Seq<Child>, s: Seq<Token>, t: Seq<Token>)
    requires
        !(spec_after_child(opt, s).0 matches Err(ParseError::NoTokensLeft())),
    ensures
        spec_after_child(opt, s + t) == spec_after_child(opt, s),
    decreases s.len(), 0int,
{
    assert((s + t)[0] == s[0]);
    assert((s + t).drop_first() =~= s.drop_first() + t);
    let x = s[0];
    if is_punct(x, '.') {
        lemma_after_child_prefix(mark_last(opt, true), s.drop_first(), t);
    } else if is_punct(x, '*') {
        lemma_after_child_prefix(mark_last(opt, false), s.drop_first(), t);
    } else if is_punct(x, '&') {
        lemma_child_then_prefix(opt, s.drop_first(), t);
    }
}

proof fn lemma_child_then_prefix(opt: Seq<Child>, s: Seq<Token>, t: Seq<Token>)
    requires
        !(spec_child_then(opt, s).0 matches Err(ParseError::NoTokensLeft())),
    ensures
        spec_child_then(opt, s + t) == spec_child_then(opt, s),
    decreases s.len(), 1int,
{
    assert((s + t)[0] == s[0]);
    assert((s + t).drop_first() =~= s.drop_first() + t);
    if value_of(s[0]) is Some {
        lemma_after_child_prefix(opt.push(plain(value_of(s[0])->0)), s.drop_first(), t);
    }
}

proof fn lemma_options_list_prefix(s: Seq<Token>, t: Seq<Token>)
    requires
        !(spec_children_options_list(s).0 matches Err(ParseError::NoTokensLeft())),
    ensures
        spec_children_options_list(s + t) == spec_children_options_list(s),
    decreases s.len(),
{
    lemma_child_then_prefix(seq![], s, t);
    lemma_child_then_used(seq![], s);
    let o = spec_child_then(seq![], s);
    if let Ok((_, more)) = o.0 {
        if more {
            assert((s + t).skip(o.1 as int) =~= s.skip(o.1 as int) + t);
            lemma_options_list_prefix(s.skip(o.1 as int), t);
        }
    }
}

/// Reading a rule looks at no token after the ones it takes: unless the
/// tokens ran out before or in the middle of it, appending tokens to the
/// input changes neither what is read nor how many tokens are taken.
pub proof fn lemma_grammar_rule_prefix(s: Seq<Token>, t: Seq<Token>)
    requires
        s.len() > 0,
        !(spec_grammar_rule(s).0 matches Err(ParseError::NoTokensLeft())),
    ensures
        spec_grammar_rule(s + t) == spec_grammar_rule(s),
{
    assert((s + t)[0] == s[0]);
    let u = s.drop_first();
    assert((s + t).drop_first() =~= u + t);
    if s[0] is Ident {
        let a = spec_arrow(u);
        if u.len() > 0 {
            assert((u + t)[0] == u[0]);
        }
        if u.len() > 1 {
            assert((u + t)[1] == u[1]);
        }
        if a.0 is Ok {
            assert(spec_arrow(u + t) == a);
            assert((u + t).skip(a.1 as int) =~= u.skip(a.1 as int) + t);
            lemma_options_list_prefix(u.skip(a.1 as int), t);
        }
    }
}

// ---------------------------------------------------------------------------
// Only which marks follow a child matters, not how often or in what order.

/// The tokens are all marks, `.` or `*`.
pub open spec fn all_marks(m: Seq<Token>) -> bool {
    forall|i: int| 0 <= i < m.len() ==> (#[trigger] m[i] matches Token::Punct(c, _) && (c == '.' || c == '*'))
}

/// The mark `c` occurs among the tokens.
pub open spec fn has_mark(m: Seq<Token>, c: char) -> bool {
    exists|i: int| 0 <= i < m.len() && (#[trigger] m[i] matches Token::Punct(d, _) && d == c)
}

/// `opt` with its last child also marked with `.` when `dot` and with `*`
/// when `star`; marks already set stay set.
pub open spec fn set_marks(opt: Seq<Child>, dot: bool, star: bool) -> Seq<Child> {
    let c = opt.last();
    opt.update(
        opt.len() - 1,
        Child { value: c.value, repeatable: c.repeatable || star, next_imediat: c.next_imediat || dot },
    )
}

proof fn lemma_has_mark_first(m: Seq<Token>, c: char)
    requires
        m.len() > 0,
    ensures
        has_mark(m, c) == (is_punct(m[0], c) || has_mark(m.drop_first(), c)),
{
    if has_mark(m, c) && !is_punct(m[0], c) {
        let i = choose|i: int| 0 <= i < m.len() && is_punct(#[trigger] m[i], c);
        assert(m.drop_first()[i - 1] == m[i]);
    }
    if has_mark(m.drop_first(), c) {
        let i = choose|i: int| 0 <= i < m.drop_first().len() && is_punct(#[trigger] m.drop_first()[i], c);
        assert(m[i + 1] == m.drop_first()[i]);
    }
    if is_punct(m[0], c) {
        assert(is_punct(m[0], c));
    }
}

/// Reading marks after a child sets on it the marks that occur, and reads on.
proof fn lemma_marks_set(opt: Seq<Child>, m: Seq<Token>, r: Seq<Token>)
    requires
        opt.len() > 0,
        all_marks(m),
    ensures
        spec_after_child(opt, m + r)
            == after(m.len(), spec_after_child(set_marks(opt, has_mark(m, '.'), has_mark(m, '*')), r)),
        after_child_opt(opt, m + r) == after_child_opt(set_marks(opt, has_mark(m, '.'), has_mark(m, '*')), r),
    decreases m.len(),
{
    if m.len() == 0 {
        assert(m + r =~= r);
        assert(set_marks(opt, false, false) =~= opt);
    } else {
        let w = m.drop_first();
        assert((m + r)[0] == m[0]);
        assert((m + r).drop_first() =~= w + r);
        assert(all_marks(w)) by {
            assert forall|i: int| 0 <= i < w.len() implies is_punct(#[trigger] w[i], '.') || is_punct(w[i], '*') by {
                assert(w[i] == m[i + 1]);
            }
        }
        lemma_has_mark_first(m, '.');
        lemma_has_mark_first(m, '*');
        assert(is_punct(m[0], '.') || is_punct(m[0], '*'));
        let dot = is_punct(m[0], '.');
        let opt1 = mark_last(opt, dot);
        lemma_marks_set(opt1, w, r);
        assert(set_marks(opt1, has_mark(w, '.'), has_mark(w, '*'))
            =~= set_marks(opt, has_mark(m, '.'), has_mark(m, '*')));
    }
}

/// After a child, runs of marks in which the same marks occur, followed by
/// the same tokens, read the same: the same result and the same option,
/// after taking the marks. Repeating or reordering marks changes nothing,
/// and a mark once set stays set.
pub proof fn lemma_marks_same_set(opt: Seq<Child>, m: Seq<Token>, m2: Seq<Token>, r: Seq<Token>)
    requires
        opt.len() > 0,
        all_marks(m),
        all_marks(m2),
        has_mark(m, '.') == has_mark(m2, '.'),
        has_mark(m, '*') == has_mark(m2, '*'),
    ensures
        spec_after_child(opt, m + r).0 == spec_after_child(opt, m2 + r).0,
        spec_after_child(opt, m + r).1 - m.len() == spec_after_child(opt, m2 + r).1 - m2.len(),
        after_child_opt(opt, m + r) == after_child_opt(opt, m2 + r),
{
    lemma_marks_set(opt, m, r);
    lemma_marks_set(opt, m2, r);
}

// ---------------------------------------------------------------------------
// After the arrow, spacing does not matter.

proof fn lemma_token_respaced(t: Token, t2: Token)
    requires
        same_but_spacing(t, t2),
    ensures
        forall|c: char| #[trigger] is_punct(t, c) == is_punct(t2, c),
        value_of(t) == value_of(t2),
{
}

proof fn lemma_after_child_respaced(opt: Seq<Child>, s: Seq<Token>, s2: Seq<Token>)
    requires
        respaced(s, s2),
    ensures
        spec_after_child(opt, s) == spec_after_child(opt, s2),
        after_child_opt(opt, s) == after_child_opt(opt, s2),
    decreases s.len(), 0int,
{
    if s.len() > 0 {
        lemma_token_respaced(s[0], s2[0]);
        lemma_respaced_skip(s, s2, 1);
        let t = s[0];
        if is_punct(t, '.') {
            lemma_after_child_respaced(mark_last(opt, true), s.drop_first(), s2.drop_first());
        } else if is_punct(t, '*') {
            lemma_after_child_respaced(mark_last(opt, false), s.drop_first(), s2.drop_first());
        } else if is_punct(t, '&') {
            lemma_child_then_respaced(opt, s.drop_first(), s2.drop_first());
        }
    }
}

proof fn lemma_child_then_respaced(opt: Seq<Child>, s: Seq<Token>, s2: Seq<Token>)
    requires
        respaced(s, s2),
    ensures
        spec_child_then(opt, s) == spec_child_then(opt, s2),
        child_then_opt(opt, s) == child_then_opt(opt, s2),
    decreases s.len(), 1int,
{
    if s.len() > 0 {
        lemma_token_respaced(s[0], s2[0]);
        lemma_respaced_skip(s, s2, 1);
        if value_of(s[0]) is Some {
            lemma_after_child_respaced(opt.push(plain(value_of(s[0])->0)), s.drop_first(), s2.drop_first());
        }
    }
}

/// Reading the options of a rule body looks at the character of each
/// punctuation token, never at its spacing: the marks `.` and `*` and the
/// separators `&`, `|` and `;` are read whether joint or alone, so token
/// sequences that differ only in spacing read the same.
pub proof fn lemma_options_ignore_spacing(s: Seq<Token>, s2: Seq<Token>)
    requires
        respaced(s, s2),
    ensures
        spec_children_options_list(s) == spec_children_options_list(s2),
    decreases s.len(),
{
    lemma_child_then_respaced(seq![], s, s2);
    lemma_child_then_used(seq![], s);
    let o = spec_child_then(seq![], s);
    if let Ok((_, more)) = o.0 {
        if more {
            lemma_respaced_skip(s, s2, o.1 as int);
            lemma_options_ignore_spacing(s.skip(o.1 as int), s2.skip(o.1 as int));
        }
    }
}

/// What follows a child is read the same whatever the spacing of its
/// punctuation: the same result, the same number of tokens and the same
/// option, also after a failure.
pub proof fn lemma_after_child_ignores_spacing(opt: Seq<Child>, s: Seq<Token>, s2: Seq<Token>)
    requires
        respaced(s, s2),
    ensures
        spec_after_child(opt, s) == spec_after_child(opt, s2),
        after_child_opt(opt, s) == after_child_opt(opt, s2),
{
    lemma_after_child_respaced(opt, s, s2);
}

// ---------------------------------------------------------------------------
// Reading rules one after another.

/// Reading rules is reading one rule after another: no token left gives no
/// rules, a rule read is followed by the rules read after it, and any
/// failure of a rule (running out of tokens included) is the failure of the
/// whole reading.
pub proof fn lemma_rules_one_by_one(s: Seq<Token>)
    ensures
        spec_grammar_rule(s).0 matches Ok(None) ==> spec_grammar_rules(s) == (Ok::<Seq<RuleModel>, ParseError>(seq![]), 0nat),
        spec_grammar_rule(s).0 matches Err(e) ==> spec_grammar_rules(s) == (Err::<Seq<RuleModel>, ParseError>(e), spec_grammar_rule(s).1),
        spec_grammar_rule(s).0 matches Ok(Some(r)) ==> {
            let n = spec_grammar_rule(s).1;
            let rest = spec_grammar_rules(s.skip(n as int));
            &&& 0 < n <= s.len()
            &&& spec_grammar_rules(s).1 == n + rest.1
            &&& spec_grammar_rules(s).0 == match rest.0 {
                Ok(v) => Ok::<Seq<RuleModel>, ParseError>(seq![r] + v),
                Err(e) => Err(e),
            }
        },
{
    lemma_grammar_rule_used(s);
}

// ---------------------------------------------------------------------------
// The arrow.

/// The arrow is read exactly when the tokens start with `-` or `=` joint to
/// the next token and then `>`, whatever its spacing; it then takes those
/// two tokens.
pub proof fn lemma_arrow_exact(s: Seq<Token>)
    ensures
        spec_arrow(s).0 is Ok <==> (s.len() >= 2 && (s[0] == Token::Punct('-', Spacing::Joint) || s[0]
            == Token::Punct('=', Spacing::Joint)) && (s[1] matches Token::Punct(c, _) && c == '>')),
        spec_arrow(s).0 is Ok ==> spec_arrow(s).1 == 2,
{
}

} // verus!
