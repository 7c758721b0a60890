//! The small s-expression tree the parser produces and the rule evaluator
//! consumes.

use vstd::prelude::*;

verus! {

#[derive(Debug, PartialEq, Eq)]
pub enum SExpr {
    Nil,
    List(Vec<SExpr>),
    Id(String),
    Str(String),
}

/// The mathematical value of an [`SExpr`].
pub enum SExprView {
    Nil,
    List(Seq<SExprView>),
    Id(Seq<char>),
    Str(Seq<char>),
}

/// The mathematical value of an expression tree.
pub open spec fn sexpr_view(e: SExpr) -> SExprView
    decreases e,
{
    match e {
        SExpr::Nil => SExprView::Nil,
        SExpr::List(ms) => SExprView::List(sexpr_views(ms@)),
        SExpr::Id(s) => SExprView::Id(s@),
        SExpr::Str(s) => SExprView::Str(s@),
    }
}

/// The mathematical values of a sequence of expression trees.
pub open spec fn sexpr_views(ms: Seq<SExpr>) -> Seq<SExprView>
    decreases ms,
{
    if ms.len() == 0 {
        Seq::empty()
    } else {
        sexpr_views(ms.drop_last()).push(sexpr_view(ms.last()))
    }
}

/// Prepending one tree prepends its value.
pub proof fn lemma_sexpr_views_prepend(x: SExpr, s: Seq<SExpr>)
    ensures
        sexpr_views(seq![x] + s) == seq![sexpr_view(x)] + sexpr_views(s),
    decreases s.len(),
{
    if s.len() == 0 {
        assert(seq![x] + s =~= seq![x]);
        assert(seq![x].drop_last() =~= Seq::<SExpr>::empty());
        assert(seq![x].last() == x);
        assert(sexpr_views(seq![x]) == sexpr_views(seq![x].drop_last()).push(
            sexpr_view(seq![x].last()),
        ));
        assert(sexpr_views(Seq::<SExpr>::empty()) =~= Seq::<SExprView>::empty());
        assert(sexpr_views(seq![x]) =~= seq![sexpr_view(x)]);
        assert(seq![sexpr_view(x)] + sexpr_views(s) =~= seq![sexpr_view(x)]);
    } else {
        assert((seq![x] + s).drop_last() =~= seq![x] + s.drop_last());
        assert((seq![x] + s).last() == s.last());
        lemma_sexpr_views_prepend(x, s.drop_last());
        assert(seq![sexpr_view(x)] + sexpr_views(s) =~= (seq![sexpr_view(x)] + sexpr_views(
            s.drop_last(),
        )).push(sexpr_view(s.last())));
    }
}

/// The values of a sequence of trees, element by element.
pub proof fn lemma_sexpr_views_index(s: Seq<SExpr>)
    ensures
        sexpr_views(s).len() == s.len(),
        forall|i: int| 0 <= i < s.len() ==> sexpr_views(s)[i] == sexpr_view(s[i]),
    decreases s.len(),
{
    if s.len() > 0 {
        lemma_sexpr_views_index(s.drop_last());
    }
}

impl View for SExpr {
    type V = SExprView;

    open spec fn view(&self) -> SExprView {
        sexpr_view(*self)
    }
}

} // verus!
