//! The recursive-descent parser: turns the token stream into a sequence of
//! s-expression trees.
//!
//! The grammar is modelled by the step-indexed spec functions
//! [`spec_members`] (the members of one parenthesized list, up to and
//! including its closing parenthesis) and [`spec_parse`] (a whole input: a
//! sequence of lists).  `None` means the index was too small; the
//! executable parser's result is what the model settles on.

use vstd::prelude::*;
use std::collections::VecDeque;
use crate::sexpr::SExpr;
use crate::sexpr::SExprView;
use crate::sexpr::lemma_sexpr_views_prepend;
use crate::sexpr::sexpr_view;
use crate::sexpr::sexpr_views;
use crate::tokens::Token;
use crate::tokens::Tokens;

verus! {

/// The members of a list, reading up to the matching closing parenthesis.
/// `cur` is the position of the last consumed token, reported when the
/// input ends inside a list.
pub open spec fn spec_members(toks: Seq<(Token, u64, u64)>, cur: (u64, u64), fuel: nat) -> Option<
    Result<(Seq<SExprView>, Seq<(Token, u64, u64)>, (u64, u64)), (Seq<char>, u64, u64)>,
>
    decreases fuel,
{
    if fuel == 0 {
        None
    } else if toks.len() == 0 {
        Some(Err(("abrupt end of list"@, cur.0, cur.1)))
    } else {
        let cur2 = (toks[0].1, toks[0].2);
        match toks[0].0 {
            Token::RParen => Some(Ok((Seq::empty(), toks.drop_first(), cur2))),
            Token::LParen => match spec_members(toks.drop_first(), cur2, (fuel - 1) as nat) {
                None => None,
                Some(Err(e)) => Some(Err(e)),
                Some(Ok(k)) => match spec_members(k.1, k.2, (fuel - 1) as nat) {
                    None => None,
                    Some(Err(e)) => Some(Err(e)),
                    Some(Ok(k2)) => Some(
                        Ok((seq![SExprView::List(k.0)] + k2.0, k2.1, k2.2)),
                    ),
                },
            },
            Token::Id(s) => match spec_members(toks.drop_first(), cur2, (fuel - 1) as nat) {
                None => None,
                Some(Err(e)) => Some(Err(e)),
                Some(Ok(k)) => Some(Ok((seq![SExprView::Id(s@)] + k.0, k.1, k.2))),
            },
            Token::Str(s) => match spec_members(toks.drop_first(), cur2, (fuel - 1) as nat) {
                None => None,
                Some(Err(e)) => Some(Err(e)),
                Some(Ok(k)) => Some(Ok((seq![SExprView::Str(s@)] + k.0, k.1, k.2))),
            },
        }
    }
}

/// A settled outcome does not change with a larger index.
pub proof fn lemma_members_mono(toks: Seq<(Token, u64, u64)>, cur: (u64, u64), f1: nat, f2: nat)
    requires
        f1 <= f2,
        spec_members(toks, cur, f1) is Some,
    ensures
        spec_members(toks, cur, f2) == spec_members(toks, cur, f1),
    decreases f1,
{
    if f1 > 0 && toks.len() > 0 {
        let cur2 = (toks[0].1, toks[0].2);
        match toks[0].0 {
            Token::RParen => {},
            Token::LParen => {
                lemma_members_mono(toks.drop_first(), cur2, (f1 - 1) as nat, (f2 - 1) as nat);
                match spec_members(toks.drop_first(), cur2, (f1 - 1) as nat) {
                    Some(Ok(k)) => {
                        lemma_members_mono(k.1, k.2, (f1 - 1) as nat, (f2 - 1) as nat);
                    },
                    _ => {},
                }
            },
            Token::Id(_) => {
                lemma_members_mono(toks.drop_first(), cur2, (f1 - 1) as nat, (f2 - 1) as nat);
            },
            Token::Str(_) => {
                lemma_members_mono(toks.drop_first(), cur2, (f1 - 1) as nat, (f2 - 1) as nat);
            },
        }
    }
}

/// A whole input: any number of lists, each opened by `(`.
pub open spec fn spec_parse(toks: Seq<(Token, u64, u64)>, cur: (u64, u64), fuel: nat) -> Option<
    Result<Seq<SExprView>, (Seq<char>, u64, u64)>,
>
    decreases fuel,
{
    if fuel == 0 {
        None
    } else if toks.len() == 0 {
        Some(Ok(Seq::empty()))
    } else if !(toks[0].0 is LParen) {
        Some(Err(("expecting '('"@, cur.0, cur.1)))
    } else {
        let cur2 = (toks[0].1, toks[0].2);
        match spec_members(toks.drop_first(), cur2, fuel) {
            None => None,
            Some(Err(e)) => Some(Err(e)),
            Some(Ok(k)) => match spec_parse(k.1, k.2, (fuel - 1) as nat) {
                None => None,
                Some(Err(e)) => Some(Err(e)),
                Some(Ok(rest)) => Some(Ok(seq![SExprView::List(k.0)] + rest)),
            },
        }
    }
}

pub proof fn lemma_parse_mono(toks: Seq<(Token, u64, u64)>, cur: (u64, u64), f1: nat, f2: nat)
    requires
        f1 <= f2,
        spec_parse(toks, cur, f1) is Some,
    ensures
        spec_parse(toks, cur, f2) == spec_parse(toks, cur, f1),
    decreases f1,
{
    if f1 > 0 && toks.len() > 0 && toks[0].0 is LParen {
        let cur2 = (toks[0].1, toks[0].2);
        lemma_members_mono(toks.drop_first(), cur2, f1, f2);
        match spec_members(toks.drop_first(), cur2, f1) {
            Some(Ok(k)) => {
                lemma_parse_mono(k.1, k.2, (f1 - 1) as nat, (f2 - 1) as nat);
            },
            _ => {},
        }
    }
}

/// A parse error: what went wrong and where.
#[derive(Debug, Clone)]
pub struct ParseError {
    msg: String,
    lineno: u64,
    col: u64,
}

impl ParseError {
    /// The message and position as mathematical values.
    pub closed spec fn model(self) -> (Seq<char>, u64, u64) {
        (self.msg@, self.lineno, self.col)
    }

    pub fn new(msg: &str, lineno: u64, col: u64) -> (r: ParseError)
        ensures
            r.model() == (msg@, lineno, col),
    {
        ParseError { msg: msg.to_owned(), lineno, col }
    }

    /// The stored message, for reporting.
    pub fn message(&self) -> (r: &str)
        ensures
            r@ == self.model().0,
    {
        self.msg.as_str()
    }
}

/// Reads the members of one list, the opening parenthesis already
/// consumed, up to and including the closing one.
fn list_members(toks: &mut Tokens) -> (r: Result<Vec<SExpr>, ParseError>)
    requires
        old(toks).wf(),
    ensures
        final(toks).wf(),
        final(toks).items().len() <= old(toks).items().len(),
        r is Ok ==> final(toks).items().len() < old(toks).items().len(),
        match r {
            Ok(v) => exists|f: nat|
                #[trigger] spec_members(old(toks).items(), old(toks).cur(), f) == Some(
                    Ok::<
                        (Seq<SExprView>, Seq<(Token, u64, u64)>, (u64, u64)),
                        (Seq<char>, u64, u64),
                    >((sexpr_views(v@), final(toks).items(), final(toks).cur())),
                ),
            Err(e) => exists|f: nat|
                #[trigger] spec_members(old(toks).items(), old(toks).cur(), f) == Some(
                    Err::<
                        (Seq<SExprView>, Seq<(Token, u64, u64)>, (u64, u64)),
                        (Seq<char>, u64, u64),
                    >(e.model()),
                ),
        },
    decreases old(toks).items().len(),
{
    match toks.pop() {
        None => {
            let e = ParseError::new("abrupt end of list", toks.lineno(), toks.col());
            proof {
                assert(spec_members(old(toks).items(), old(toks).cur(), 1) == Some(Err::<
                    (Seq<SExprView>, Seq<(Token, u64, u64)>, (u64, u64)),
                    (Seq<char>, u64, u64),
                >(e.model())));
            }
            Err(e)
        },
        Some((Token::RParen, _l, _c)) => {
            let v: Vec<SExpr> = Vec::new();
            proof {
                assert(sexpr_views(v@) =~= Seq::<SExprView>::empty());
                assert(spec_members(old(toks).items(), old(toks).cur(), 1) == Some(Ok::<
                    (Seq<SExprView>, Seq<(Token, u64, u64)>, (u64, u64)),
                    (Seq<char>, u64, u64),
                >((sexpr_views(v@), toks.items(), toks.cur()))));
            }
            Ok(v)
        },
        Some((Token::LParen, _l, _c)) => {
            let ghost afterpop = *toks;
            let sub = match list_members(toks) {
                Ok(ms) => ms,
                Err(e) => {
                    proof {
                        let f1 = choose|f: nat|
                            #[trigger] spec_members(afterpop.items(), afterpop.cur(), f) == Some(
                                Err::<
                                    (Seq<SExprView>, Seq<(Token, u64, u64)>, (u64, u64)),
                                    (Seq<char>, u64, u64),
                                >(e.model()),
                            );
                        assert(spec_members(old(toks).items(), old(toks).cur(), f1 + 1) == Some(
                            Err::<
                                (Seq<SExprView>, Seq<(Token, u64, u64)>, (u64, u64)),
                                (Seq<char>, u64, u64),
                            >(e.model()),
                        ));
                    }
                    return Err(e);
                },
            };
            let ghost aftersub = *toks;
            match list_members(toks) {
                Err(e) => {
                    proof {
                        let f1 = choose|f: nat|
                            #[trigger] spec_members(afterpop.items(), afterpop.cur(), f) == Some(
                                Ok::<
                                    (Seq<SExprView>, Seq<(Token, u64, u64)>, (u64, u64)),
                                    (Seq<char>, u64, u64),
                                >((sexpr_views(sub@), aftersub.items(), aftersub.cur())),
                            );
                        let f2 = choose|f: nat|
                            #[trigger] spec_members(aftersub.items(), aftersub.cur(), f) == Some(
                                Err::<
                                    (Seq<SExprView>, Seq<(Token, u64, u64)>, (u64, u64)),
                                    (Seq<char>, u64, u64),
                                >(e.model()),
                            );
                        let f = if f1 <= f2 {
                            f2
                        } else {
                            f1
                        };
                        lemma_members_mono(afterpop.items(), afterpop.cur(), f1, f);
                        lemma_members_mono(aftersub.items(), aftersub.cur(), f2, f);
                        assert(spec_members(old(toks).items(), old(toks).cur(), f + 1) == Some(
                            Err::<
                                (Seq<SExprView>, Seq<(Token, u64, u64)>, (u64, u64)),
                                (Seq<char>, u64, u64),
                            >(e.model()),
                        ));
                    }
                    Err(e)
                },
                Ok(mut rest) => {
                    let ghost restsnap = rest@;
                    rest.insert(0, SExpr::List(sub));
                    proof {
                        assert(rest@ =~= seq![SExpr::List(sub)] + restsnap);
                        lemma_sexpr_views_prepend(SExpr::List(sub), restsnap);
                        let f1 = choose|f: nat|
                            #[trigger] spec_members(afterpop.items(), afterpop.cur(), f) == Some(
                                Ok::<
                                    (Seq<SExprView>, Seq<(Token, u64, u64)>, (u64, u64)),
                                    (Seq<char>, u64, u64),
                                >((sexpr_views(sub@), aftersub.items(), aftersub.cur())),
                            );
                        let f2 = choose|f: nat|
                            #[trigger] spec_members(aftersub.items(), aftersub.cur(), f) == Some(
                                Ok::<
                                    (Seq<SExprView>, Seq<(Token, u64, u64)>, (u64, u64)),
                                    (Seq<char>, u64, u64),
                                >((sexpr_views(restsnap), toks.items(), toks.cur())),
                            );
                        let f = if f1 <= f2 {
                            f2
                        } else {
                            f1
                        };
                        lemma_members_mono(afterpop.items(), afterpop.cur(), f1, f);
                        lemma_members_mono(aftersub.items(), aftersub.cur(), f2, f);
                        assert(spec_members(old(toks).items(), old(toks).cur(), f + 1) == Some(
                            Ok::<
                                (Seq<SExprView>, Seq<(Token, u64, u64)>, (u64, u64)),
                                (Seq<char>, u64, u64),
                            >((sexpr_views(rest@), toks.items(), toks.cur())),
                        ));
                    }
                    Ok(rest)
                },
            }
        },
        Some((Token::Id(s), _l, _c)) => {
            let ghost afterpop = *toks;
            let ghost sv = s@;
            match list_members(toks) {
                Err(e) => {
                    proof {
                        let f1 = choose|f: nat|
                            #[trigger] spec_members(afterpop.items(), afterpop.cur(), f) == Some(
                                Err::<
                                    (Seq<SExprView>, Seq<(Token, u64, u64)>, (u64, u64)),
                                    (Seq<char>, u64, u64),
                                >(e.model()),
                            );
                        assert(spec_members(old(toks).items(), old(toks).cur(), f1 + 1) == Some(
                            Err::<
                                (Seq<SExprView>, Seq<(Token, u64, u64)>, (u64, u64)),
                                (Seq<char>, u64, u64),
                            >(e.model()),
                        ));
                    }
                    Err(e)
                },
                Ok(mut rest) => {
                    let ghost restsnap = rest@;
                    rest.insert(0, SExpr::Id(s));
                    proof {
                        assert(rest@ =~= seq![SExpr::Id(s)] + restsnap);
                        lemma_sexpr_views_prepend(SExpr::Id(s), restsnap);
                        let f1 = choose|f: nat|
                            #[trigger] spec_members(afterpop.items(), afterpop.cur(), f) == Some(
                                Ok::<
                                    (Seq<SExprView>, Seq<(Token, u64, u64)>, (u64, u64)),
                                    (Seq<char>, u64, u64),
                                >((sexpr_views(restsnap), toks.items(), toks.cur())),
                            );
                        assert(spec_members(old(toks).items(), old(toks).cur(), f1 + 1) == Some(
                            Ok::<
                                (Seq<SExprView>, Seq<(Token, u64, u64)>, (u64, u64)),
                                (Seq<char>, u64, u64),
                            >((sexpr_views(rest@), toks.items(), toks.cur())),
                        ));
                    }
                    Ok(rest)
                },
            }
        },
        Some((Token::Str(s), _l, _c)) => {
            let ghost afterpop = *toks;
            match list_members(toks) {
                Err(e) => {
                    proof {
                        let f1 = choose|f: nat|
                            #[trigger] spec_members(afterpop.items(), afterpop.cur(), f) == Some(
                                Err::<
                                    (Seq<SExprView>, Seq<(Token, u64, u64)>, (u64, u64)),
                                    (Seq<char>, u64, u64),
                                >(e.model()),
                            );
                        assert(spec_members(old(toks).items(), old(toks).cur(), f1 + 1) == Some(
                            Err::<
                                (Seq<SExprView>, Seq<(Token, u64, u64)>, (u64, u64)),
                                (Seq<char>, u64, u64),
                            >(e.model()),
                        ));
                    }
                    Err(e)
                },
                Ok(mut rest) => {
                    let ghost restsnap = rest@;
                    rest.insert(0, SExpr::Str(s));
                    proof {
                        assert(rest@ =~= seq![SExpr::Str(s)] + restsnap);
                        lemma_sexpr_views_prepend(SExpr::Str(s), restsnap);
                        let f1 = choose|f: nat|
                            #[trigger] spec_members(afterpop.items(), afterpop.cur(), f) == Some(
                                Ok::<
                                    (Seq<SExprView>, Seq<(Token, u64, u64)>, (u64, u64)),
                                    (Seq<char>, u64, u64),
                                >((sexpr_views(restsnap), toks.items(), toks.cur())),
                            );
                        assert(spec_members(old(toks).items(), old(toks).cur(), f1 + 1) == Some(
                            Ok::<
                                (Seq<SExprView>, Seq<(Token, u64, u64)>, (u64, u64)),
                                (Seq<char>, u64, u64),
                            >((sexpr_views(rest@), toks.items(), toks.cur())),
                        ));
                    }
                    Ok(rest)
                },
            }
        },
    }
}

/// Reads one list, the opening parenthesis already consumed.
pub fn list(toks: &mut Tokens) -> (r: Result<SExpr, ParseError>)
    requires
        old(toks).wf(),
    ensures
        final(toks).wf(),
        final(toks).items().len() <= old(toks).items().len(),
        r is Ok ==> final(toks).items().len() < old(toks).items().len(),
        match r {
            Ok(e) => exists|f: nat|
                #[trigger] spec_members(old(toks).items(), old(toks).cur(), f) == Some(
                    Ok::<
                        (Seq<SExprView>, Seq<(Token, u64, u64)>, (u64, u64)),
                        (Seq<char>, u64, u64),
                    >((sexpr_view(e)->List_0, final(toks).items(), final(toks).cur())),
                ) && sexpr_view(e) is List,
            Err(e) => exists|f: nat|
                #[trigger] spec_members(old(toks).items(), old(toks).cur(), f) == Some(
                    Err::<
                        (Seq<SExprView>, Seq<(Token, u64, u64)>, (u64, u64)),
                        (Seq<char>, u64, u64),
                    >(e.model()),
                ),
        },
{
    match list_members(toks) {
        Ok(ms) => Ok(SExpr::List(ms)),
        Err(e) => Err(e),
    }
}

/// Parses a whole input: a sequence of parenthesized lists.
pub fn parse(mut toks: Tokens) -> (r: Result<VecDeque<SExpr>, ParseError>)
    requires
        toks.wf(),
    ensures
        match r {
            Ok(es) => exists|f: nat|
                #[trigger] spec_parse(toks.items(), toks.cur(), f) == Some(
                    Ok::<Seq<SExprView>, (Seq<char>, u64, u64)>(sexpr_views(es@)),
                ),
            Err(e) => exists|f: nat|
                #[trigger] spec_parse(toks.items(), toks.cur(), f) == Some(
                    Err::<Seq<SExprView>, (Seq<char>, u64, u64)>(e.model()),
                ),
        },
{
    parse_rec(&mut toks)
}

fn parse_rec(toks: &mut Tokens) -> (r: Result<VecDeque<SExpr>, ParseError>)
    requires
        old(toks).wf(),
    ensures
        final(toks).wf(),
        match r {
            Ok(es) => exists|f: nat|
                #[trigger] spec_parse(old(toks).items(), old(toks).cur(), f) == Some(
                    Ok::<Seq<SExprView>, (Seq<char>, u64, u64)>(sexpr_views(es@)),
                ),
            Err(e) => exists|f: nat|
                #[trigger] spec_parse(old(toks).items(), old(toks).cur(), f) == Some(
                    Err::<Seq<SExprView>, (Seq<char>, u64, u64)>(e.model()),
                ),
        },
    decreases old(toks).items().len(),
{
    let next = toks.peek();
    match next {
        None => {
            let es: VecDeque<SExpr> = VecDeque::new();
            proof {
                assert(sexpr_views(es@) =~= Seq::<SExprView>::empty());
                assert(spec_parse(old(toks).items(), old(toks).cur(), 1) == Some(Ok::<
                    Seq<SExprView>,
                    (Seq<char>, u64, u64),
                >(sexpr_views(es@))));
            }
            Ok(es)
        },
        Some(Token::LParen) => {
            toks.pop();
            let ghost afterpop = *toks;
            let head = match list(toks) {
                Ok(e) => e,
                Err(e) => {
                    proof {
                        let f1 = choose|f: nat|
                            #[trigger] spec_members(afterpop.items(), afterpop.cur(), f) == Some(
                                Err::<
                                    (Seq<SExprView>, Seq<(Token, u64, u64)>, (u64, u64)),
                                    (Seq<char>, u64, u64),
                                >(e.model()),
                            );
                        lemma_members_mono(afterpop.items(), afterpop.cur(), f1, f1 + 1);
                        assert(spec_parse(old(toks).items(), old(toks).cur(), f1 + 1) == Some(
                            Err::<Seq<SExprView>, (Seq<char>, u64, u64)>(e.model()),
                        ));
                    }
                    return Err(e);
                },
            };
            let ghost afterlist = *toks;
            match parse_rec(toks) {
                Err(e) => {
                    proof {
                        let f1 = choose|f: nat|
                            #[trigger] spec_members(afterpop.items(), afterpop.cur(), f) == Some(
                                Ok::<
                                    (Seq<SExprView>, Seq<(Token, u64, u64)>, (u64, u64)),
                                    (Seq<char>, u64, u64),
                                >((sexpr_view(head)->List_0, afterlist.items(), afterlist.cur())),
                            );
                        let f2 = choose|f: nat|
                            #[trigger] spec_parse(afterlist.items(), afterlist.cur(), f) == Some(
                                Err::<Seq<SExprView>, (Seq<char>, u64, u64)>(e.model()),
                            );
                        let f = if f1 <= f2 {
                            f2
                        } else {
                            f1
                        };
                        lemma_members_mono(afterpop.items(), afterpop.cur(), f1, f + 1);
                        lemma_parse_mono(afterlist.items(), afterlist.cur(), f2, f);
                        assert(spec_parse(old(toks).items(), old(toks).cur(), f + 1) == Some(
                            Err::<Seq<SExprView>, (Seq<char>, u64, u64)>(e.model()),
                        ));
                    }
                    Err(e)
                },
                Ok(mut rest) => {
                    let ghost restsnap = rest@;
                    rest.push_front(head);
                    proof {
                        assert(rest@ =~= seq![head] + restsnap);
                        lemma_sexpr_views_prepend(head, restsnap);
                        let f1 = choose|f: nat|
                            #[trigger] spec_members(afterpop.items(), afterpop.cur(), f) == Some(
                                Ok::<
                                    (Seq<SExprView>, Seq<(Token, u64, u64)>, (u64, u64)),
                                    (Seq<char>, u64, u64),
                                >((sexpr_view(head)->List_0, afterlist.items(), afterlist.cur())),
                            );
                        let f2 = choose|f: nat|
                            #[trigger] spec_parse(afterlist.items(), afterlist.cur(), f) == Some(
                                Ok::<Seq<SExprView>, (Seq<char>, u64, u64)>(sexpr_views(restsnap)),
                            );
                        let f = if f1 <= f2 {
                            f2
                        } else {
                            f1
                        };
                        lemma_members_mono(afterpop.items(), afterpop.cur(), f1, f + 1);
                        lemma_parse_mono(afterlist.items(), afterlist.cur(), f2, f);
                        assert(sexpr_views(rest@) =~= seq![sexpr_view(head)] + sexpr_views(
                            restsnap,
                        ));
                        assert(seq![sexpr_view(head)] + sexpr_views(restsnap) =~= seq![
                            SExprView::List(sexpr_view(head)->List_0),
                        ] + sexpr_views(restsnap));
                        assert(spec_parse(old(toks).items(), old(toks).cur(), f + 1) == Some(Ok::<
                            Seq<SExprView>,
                            (Seq<char>, u64, u64),
                        >(sexpr_views(rest@))));
                    }
                    Ok(rest)
                },
            }
        },
        Some(_) => {
            let e = ParseError::new("expecting '('", toks.lineno(), toks.col());
            proof {
                assert(spec_parse(old(toks).items(), old(toks).cur(), 1) == Some(Err::<
                    Seq<SExprView>,
                    (Seq<char>, u64, u64),
                >(e.model())));
            }
            Err(e)
        },
    }
}

} // verus!
