//! The token stream: a queue of tokens that is filled from text and emptied
//! from the front by the grammar.
use crate::error::{outcome, CfgError, LexError, ParseError};
use crate::text::chars_of;
use crate::token::{tokens_view, Token, TokenView};
use crate::tokenizer::{extended, lemma_lex_prefix, scan, tokenized};
use std::collections::VecDeque;
use vstd::prelude::*;

verus! {

/// A queue of tokens.
pub struct Lexer {
    tokens: VecDeque<Token>,
}

impl View for Lexer {
    type V = Seq<TokenView>;

    open spec fn view(&self) -> Seq<TokenView> {
        self.tokens().map_values(|t: Token| t@)
    }
}

impl Lexer {
    /// The tokens of the queue, front first.
    pub closed spec fn tokens(&self) -> Seq<Token> {
        self.tokens@
    }

    /// An empty queue.
    pub fn new() -> (lexer: Self)
        ensures
            lexer.tokens() == Seq::<Token>::empty(),
            lexer@ == Seq::<TokenView>::empty(),
    {
        let lexer = Self { tokens: VecDeque::new() };
        assert(lexer@ =~= Seq::<TokenView>::empty());
        lexer
    }

    /// Reads the text `s` and puts its tokens behind those of the queue. A
    /// first string literal is joined to a string at the end of the queue.
    /// Where the text cannot be read, the queue is left as it was.
    pub fn parse_string(&mut self, s: &str) -> (r: Result<(), LexError>)
        ensures
            match extended(old(self)@, s@) {
                Ok(tokens) => r is Ok && final(self)@ == tokens,
                Err(e) => r is Err && r->Err_0@ == e && final(self)@ == old(self)@,
            },
    {
        if !s.is_ascii() {
            return Err(LexError::MultiByte);
        }
        let chars = chars_of(s);
        let n = self.tokens.len();
        let mut acc: Vec<Token> = Vec::new();
        let seam = n > 0 && matches!(self.tokens[n - 1], Token::String(_));
        if seam {
            acc.push(self.tokens[n - 1].clone());
        }
        let ghost pre = if seam {
            old(self)@.drop_last()
        } else {
            old(self)@
        };
        proof {
            assert(pre + tokens_view(acc@) =~= old(self)@);
            lemma_lex_prefix(s@, pre, tokens_view(acc@));
        }
        match scan(&chars, acc) {
            Err(e) => Err(e),
            Ok(tokens) => {
                if seam {
                    self.tokens.pop_back();
                }
                assert(self@ =~= pre);
                let ghost all = tokens_view(tokens@);
                for t in it: tokens
                    invariant
                        it.seq() == tokens@,
                        all == tokens_view(tokens@),
                        self@ == pre + all.take(it.index() as int),
                {
                    let ghost before = self@;
                    self.tokens.push_back(t);
                    assert(self@ =~= before.push(t@));
                    assert(all.take(it.index() + 1) =~= all.take(it.index() as int).push(t@));
                }
                assert(all.take(all.len() as int) =~= all);
                Ok(())
            },
        }
    }

    /// Removes every token.
    pub fn clear(&mut self)
        ensures
            final(self).tokens() == Seq::<Token>::empty(),
            final(self)@ == Seq::<TokenView>::empty(),
    {
        self.tokens.clear();
        assert(self@ =~= Seq::<TokenView>::empty());
    }

    /// Tells whether the queue holds no token.
    pub fn is_empty(&self) -> (r: bool)
        ensures
            r == (self@.len() == 0),
    {
        self.tokens.len() == 0
    }

    /// The number of tokens in the queue.
    pub fn len(&self) -> (n: usize)
        ensures
            n == self@.len(),
    {
        self.tokens.len()
    }

    /// Puts a token in front of the others.
    pub fn push_front(&mut self, token: Token)
        ensures
            final(self).tokens() == seq![token] + old(self).tokens(),
            final(self)@ == seq![token@] + old(self)@,
    {
        self.tokens.push_front(token);
        assert(self@ =~= seq![token@] + old(self)@);
    }

    /// Takes the token at the front, where there is one.
    pub fn pop_front(&mut self) -> (r: Option<Token>)
        ensures
            match r {
                Some(t) => {
                    &&& old(self)@.len() > 0
                    &&& t == old(self).tokens()[0]
                    &&& t@ == old(self)@[0]
                    &&& final(self).tokens() == old(self).tokens().skip(1)
                    &&& final(self)@ == old(self)@.skip(1)
                },
                None => old(self)@.len() == 0 && final(self)@ == old(self)@,
            },
    {
        let r = self.tokens.pop_front();
        proof {
            if r is Some {
                assert(self.tokens() =~= old(self).tokens().skip(1));
                assert(self@ =~= old(self)@.skip(1));
            }
        }
        r
    }

    /// The token at the front, where there is one.
    pub fn peek(&self) -> (r: Option<&Token>)
        ensures
            match r {
                Some(t) => self@.len() > 0 && *t == self.tokens()[0] && t@ == self@[0],
                None => self@.len() == 0,
            },
    {
        if self.is_empty() {
            None
        } else {
            Some(&self.tokens[0])
        }
    }

    /// The first `count` tokens, or all of them where there are fewer.
    pub fn peek_to(&self, count: usize) -> (r: Vec<&Token>)
        ensures
            r.len() == if count < self@.len() {
                count as int
            } else {
                self@.len() as int
            },
            forall|i: int| 0 <= i < r.len() ==> *r[i] == self.tokens()[i] && r[i]@ == self@[i],
    {
        let mut vector: Vec<&Token> = Vec::new();
        let count = if count < self.len() {
            count
        } else {
            self.len()
        };
        let mut i: usize = 0;
        while i < count
            invariant
                i <= count <= self@.len(),
                vector.len() == i,
                forall|j: int|
                    0 <= j < i ==> *vector[j] == self.tokens()[j] && vector[j]@ == self@[j],
            decreases count - i,
        {
            vector.push(&self.tokens[i]);
            i += 1;
        }
        vector
    }

    /// Applies `check` to the token at the front. False where the queue is
    /// empty.
    pub fn check<F: Fn(&Token) -> bool>(&self, check: F) -> (r: bool)
        requires
            self@.len() > 0 ==> call_requires(check, (&self.tokens()[0],)),
        ensures
            self@.len() == 0 ==> !r,
            self@.len() > 0 ==> call_ensures(check, (&self.tokens()[0],), r),
    {
        if self.is_empty() {
            false
        } else {
            check(&self.tokens[0])
        }
    }

    /// Takes the token at the front if `check` accepts it. Fails with a
    /// fixed message where the queue is empty, and with `msg` where `check`
    /// refuses the token; the queue is then left as it was.
    pub fn expect<F: Fn(&Token) -> bool>(&mut self, check: F, msg: &str) -> (r: Result<
        Token,
        CfgError,
    >)
        requires
            old(self)@.len() > 0 ==> call_requires(check, (&old(self).tokens()[0],)),
        ensures
            match r {
                Ok(t) => {
                    &&& old(self)@.len() > 0
                    &&& call_ensures(check, (&old(self).tokens()[0],), true)
                    &&& t == old(self).tokens()[0]
                    &&& final(self).tokens() == old(self).tokens().skip(1)
                    &&& final(self)@ == old(self)@.skip(1)
                },
                Err(e) => {
                    &&& final(self).tokens() == old(self).tokens()
                    &&& if old(self)@.len() == 0 {
                        e@ == "Expected token but lexer is empty."@
                    } else {
                        call_ensures(check, (&old(self).tokens()[0],), false) && e@ == msg@
                    }
                },
            },
    {
        if self.is_empty() {
            return Err(CfgError::new("Expected token but lexer is empty."));
        }
        if !self.check(check) {
            Err(CfgError::new(msg))
        } else {
            match self.pop_front() {
                Some(t) => Ok(t),
                None => Err(CfgError::new(msg)),
            }
        }
    }
}

/// Trait for types that can be loaded from tokens.
pub trait FromLexer: Sized {
    /// Read tokens from `lexer` to create an instance of `Self`.
    fn from_lexer(lexer: &mut Lexer) -> Result<Self, ParseError>;
}

/// Turns a text into its tokens, in the order of the text, without white
/// space and comments.
pub fn tokenize(source: &str) -> (r: Result<Lexer, LexError>)
    ensures
        outcome(r) == tokenized(source@),
{
    let mut lexer = Lexer::new();
    match lexer.parse_string(source) {
        Ok(()) => Ok(lexer),
        Err(e) => Err(e),
    }
}

} // verus!
