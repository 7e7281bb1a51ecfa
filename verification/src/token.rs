use vstd::prelude::*;

verus! {

/// Whether a punctuation character is immediately followed by another one
/// (`Joint`) or by whitespace or a non-punctuation token (`Alone`).
#[derive(Clone, Copy, Debug, PartialEq, Eq, Structural)]
pub enum Spacing {
    Joint,
    Alone,
}

/// The delimiter of a token group (`Invisible` for a group without visible delimiters).
#[derive(Clone, Copy, Debug, PartialEq, Eq, Structural)]
pub enum Delimiter {
    Parenthesis,
    Brace,
    Bracket,
    Invisible,
}

/// One token tree of a macro's input.
#[derive(Debug, PartialEq, Eq)]
pub enum Token {
    /// An identifier, by its text.
    Ident(String),
    /// A literal, by its source text.
    Literal(String),
    /// A punctuation character and its spacing.
    Punct(char, Spacing),
    /// A delimited group, by its delimiter and the text of the tokens inside.
    Group(Delimiter, String),
}

/// The two tokens are the same but for the spacing of punctuation.
pub open spec fn same_but_spacing(a: Token, b: Token) -> bool {
    match a {
        Token::Punct(c, _) => b matches Token::Punct(d, _) && d == c,
        _ => a == b,
    }
}

/// The two token sequences are the same but for the spacing of punctuation.
pub open spec fn respaced(s: Seq<Token>, s2: Seq<Token>) -> bool {
    &&& s.len() == s2.len()
    &&& forall|i: int| 0 <= i < s.len() ==> same_but_spacing(#[trigger] s[i], s2[i])
}

/// Dropping the same number of tokens from sequences that differ only in
/// spacing leaves sequences that differ only in spacing.
pub proof fn lemma_respaced_skip(s: Seq<Token>, s2: Seq<Token>, k: int)
    requires
        respaced(s, s2),
        0 <= k <= s.len(),
    ensures
        respaced(s.skip(k), s2.skip(k)),
        k == 1 ==> respaced(s.drop_first(), s2.drop_first()),
{
    assert forall|i: int| 0 <= i < s.skip(k).len() implies same_but_spacing(#[trigger] s.skip(k)[i], s2.skip(k)[i]) by {
        assert(s.skip(k)[i] == s[i + k]);
        assert(s2.skip(k)[i] == s2[i + k]);
    }
    if k == 1 {
        assert(s.drop_first() =~= s.skip(1));
        assert(s2.drop_first() =~= s2.skip(1));
    }
}

/// A cursor over a sequence of tokens that hands them out one by one,
/// from the first to the last.
pub struct TokenIter {
    /// The tokens not handed out yet, the next one last.
    rev: Vec<Token>,
}

impl View for TokenIter {
    type V = Seq<Token>;

    /// The tokens not handed out yet, in order.
    closed spec fn view(&self) -> Seq<Token> {
        Seq::new(self.rev@.len(), |i: int| self.rev@[self.rev@.len() - 1 - i])
    }
}

impl TokenIter {
    /// A cursor that hands out `tokens` in order.
    pub fn new(tokens: Vec<Token>) -> (it: TokenIter)
        ensures
            it@ == tokens@,
    {
        let ghost orig = tokens@;
        let mut tokens = tokens;
        let mut rev: Vec<Token> = Vec::new();
        while tokens.len() > 0
            invariant
                tokens@.len() + rev@.len() == orig.len(),
                tokens@ == orig.take(tokens@.len() as int),
                forall|i: int| 0 <= i < rev@.len() ==> #[trigger] rev@[i] == orig[orig.len() - 1 - i],
            decreases tokens@.len(),
        {
            let t = tokens.pop().unwrap();
            rev.push(t);
        }
        let it = TokenIter { rev };
        assert(it@ =~= orig);
        it
    }

    /// The number of tokens not handed out yet.
    pub fn len(&self) -> (n: usize)
        ensures
            n == self@.len(),
    {
        self.rev.len()
    }

    /// Hands out the next token, or `None` when there is none left.
    pub fn next(&mut self) -> (t: Option<Token>)
        ensures
            old(self)@.len() == 0 ==> t is None && final(self)@ == old(self)@,
            old(self)@.len() > 0 ==> t == Some(old(self)@[0]) && final(self)@ == old(self)@.drop_first(),
    {
        let t = self.rev.pop();
        proof {
            if old(self)@.len() > 0 {
                assert(self@ =~= old(self)@.drop_first());
            } else {
                assert(self@ =~= old(self)@);
            }
        }
        t
    }
}

} // verus!
