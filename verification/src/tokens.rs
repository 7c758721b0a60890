//! The token stream the lexer produces and the parser consumes: a queue of
//! tokens, each with the line and column it started at, plus the position
//! of the most recently popped token for error reporting.

use vstd::prelude::*;
use std::collections::VecDeque;

verus! {

#[derive(Debug, Eq)]
pub enum Token {
    LParen,
    Id(String),
    Str(String),
    RParen,
}

/// The mathematical value of a [`Token`].
pub enum TokenView {
    LParen,
    Id(Seq<char>),
    Str(Seq<char>),
    RParen,
}

impl View for Token {
    type V = TokenView;

    open spec fn view(&self) -> TokenView {
        match self {
            Token::LParen => TokenView::LParen,
            Token::Id(s) => TokenView::Id(s@),
            Token::Str(s) => TokenView::Str(s@),
            Token::RParen => TokenView::RParen,
        }
    }
}

impl Clone for Token {
    fn clone(&self) -> (r: Token)
        ensures
            r == *self,
    {
        match self {
            Token::LParen => Token::LParen,
            Token::Id(s) => Token::Id(s.clone()),
            Token::Str(s) => Token::Str(s.clone()),
            Token::RParen => Token::RParen,
        }
    }
}

impl PartialEq for Token {
    fn eq(&self, other: &Token) -> (r: bool) {
        match (self, other) {
            (Token::LParen, Token::LParen) => true,
            (Token::RParen, Token::RParen) => true,
            (Token::Id(a), Token::Id(b)) => *a == *b,
            (Token::Str(a), Token::Str(b)) => *a == *b,
            _ => false,
        }
    }
}

impl vstd::std_specs::cmp::PartialEqSpecImpl for Token {
    open spec fn obeys_eq_spec() -> bool {
        true
    }

    open spec fn eq_spec(&self, other: &Token) -> bool {
        self@ == other@
    }
}

#[derive(Debug)]
pub struct Tokens {
    curlineno: u64,
    curcol: u64,
    lineno: VecDeque<u64>,
    col: VecDeque<u64>,
    toks: VecDeque<Token>,
}

impl Default for Tokens {
    fn default() -> (r: Self)
        ensures
            r.wf(),
            r.items() =~= Seq::<(Token, u64, u64)>::empty(),
    {
        Self::new()
    }
}

impl Tokens {
    /// The queued tokens with their positions, front first.
    pub closed spec fn items(self) -> Seq<(Token, u64, u64)> {
        Seq::new(self.toks@.len(), |i: int| (self.toks@[i], self.lineno@[i], self.col@[i]))
    }

    /// The queued tokens as mathematical values.
    pub open spec fn items_view(self) -> Seq<(TokenView, int, int)> {
        self.items().map_values(|e: (Token, u64, u64)| (e.0@, e.1 as int, e.2 as int))
    }

    /// The position of the token popped last.
    pub closed spec fn cur(self) -> (u64, u64) {
        (self.curlineno, self.curcol)
    }

    /// The three queues run in step.
    pub closed spec fn wf(self) -> bool {
        self.lineno@.len() == self.toks@.len() && self.col@.len() == self.toks@.len()
    }

    pub fn new() -> (r: Tokens)
        ensures
            r.wf(),
            r.items() =~= Seq::<(Token, u64, u64)>::empty(),
            r.cur() == (0u64, 0u64),
    {
        Tokens {
            curlineno: 0,
            curcol: 0,
            lineno: VecDeque::new(),
            col: VecDeque::new(),
            toks: VecDeque::new(),
        }
    }

    pub fn push(&mut self, tok: Token, lineno: u64, col: u64)
        requires
            old(self).wf(),
        ensures
            final(self).wf(),
            final(self).items() =~= old(self).items().push((tok, lineno, col)),
            final(self).cur() == old(self).cur(),
    {
        self.lineno.push_back(lineno);
        self.col.push_back(col);
        self.toks.push_back(tok);
    }

    /// Pops the front token and remembers its position.
    pub fn pop(&mut self) -> (r: Option<(Token, u64, u64)>)
        requires
            old(self).wf(),
        ensures
            final(self).wf(),
            match r {
                Some(t) => {
                    &&& old(self).items().len() > 0
                    &&& (t.0, t.1, t.2) == old(self).items()[0]
                    &&& final(self).items() =~= old(self).items().drop_first()
                    &&& final(self).cur() == (t.1, t.2)
                },
                None => {
                    &&& old(self).items().len() == 0
                    &&& final(self).items() =~= old(self).items()
                    &&& final(self).cur() == old(self).cur()
                },
            },
    {
        if self.toks.len() == 0 {
            return None;
        }
        self.curlineno = self.lineno[0];
        self.curcol = self.col[0];
        let tok = match self.toks.pop_front() {
            Some(t) => t,
            None => vstd::pervasive::unreached(),
        };
        let ln = match self.lineno.pop_front() {
            Some(t) => t,
            None => vstd::pervasive::unreached(),
        };
        let cl = match self.col.pop_front() {
            Some(t) => t,
            None => vstd::pervasive::unreached(),
        };
        Some((tok, ln, cl))
    }

    pub fn is_empty(&self) -> (r: bool)
        requires
            self.wf(),
        ensures
            r == (self.items().len() == 0),
    {
        self.len() == 0
    }

    /// A copy of the front token, without consuming it.
    pub fn peek(&self) -> (r: Option<Token>)
        requires
            self.wf(),
        ensures
            match r {
                Some(t) => self.items().len() > 0 && t == self.items()[0].0,
                None => self.items().len() == 0,
            },
    {
        if self.toks.len() == 0 {
            return None;
        }
        Some(self.toks[0].clone())
    }

    pub fn lineno(&self) -> (r: u64)
        ensures
            r == self.cur().0,
    {
        self.curlineno
    }

    pub fn col(&self) -> (r: u64)
        ensures
            r == self.cur().1,
    {
        self.curcol
    }

    pub fn len(&self) -> (r: usize)
        requires
            self.wf(),
        ensures
            r == self.items().len(),
    {
        self.toks.len()
    }
}

} // verus!
