//! The rule evaluator: turns parsed s-expressions into a finished
//! [`Recipe`].  A top-level list is either `(target name (deps...)
//! (cmds...))`, which declares a rule, or `(set "name" "value")`, which
//! defines a variable.

use vstd::prelude::*;
use std::collections::VecDeque;
use crate::expand::ExpandOutcome;
use crate::expand::EXPAND_LIMIT;
use crate::expand::expand_n;
use crate::recipe::Recipe;
use crate::recipe::Thing;
use crate::recipe::ThingView;
use crate::sexpr::SExpr;
use crate::sexpr::SExprView;
use crate::sexpr::lemma_sexpr_views_index;
use crate::sexpr::sexpr_view;
use crate::sexpr::sexpr_views;

verus! {

/// A malformed rule file construct.
#[derive(Debug)]
pub struct SyntaxError {
    msg: String,
}

impl SyntaxError {
    /// The message as a mathematical value.
    pub closed spec fn model(self) -> Seq<char> {
        self.msg@
    }

    fn new(msg: &str) -> (r: SyntaxError)
        ensures
            r.model() == msg@,
    {
        SyntaxError { msg: msg.to_owned() }
    }

    /// The stored message, for reporting.
    pub fn message(&self) -> (r: &str)
        ensures
            r@ == self.model(),
    {
        self.msg.as_str()
    }
}

/// The target identity an atom stands for: a string is a real path, an
/// identifier a symbolic name.
pub open spec fn thing_of(e: SExprView) -> ThingView {
    match e {
        SExprView::Str(s) => ThingView::Actual(s),
        SExprView::Id(s) => ThingView::Pseudo(s),
        _ => ThingView::Pseudo(Seq::empty()),
    }
}

/// Every element is an atom that can stand for a target identity.
pub open spec fn stridlist_ok(l: Seq<SExprView>) -> bool {
    forall|k: int| 0 <= k < l.len() ==> (#[trigger] l[k]) is Str || l[k] is Id
}

/// The identities of a list of atoms.
pub open spec fn stridlist_things(l: Seq<SExprView>) -> Seq<ThingView> {
    l.map_values(|e: SExprView| thing_of(e))
}

/// Every element is a string literal.
pub open spec fn strlist_ok(l: Seq<SExprView>) -> bool {
    forall|k: int| 0 <= k < l.len() ==> (#[trigger] l[k]) is Str
}

/// The strings of a list of string literals.
pub open spec fn strlist_strs(l: Seq<SExprView>) -> Seq<Seq<char>> {
    l.map_values(|e: SExprView| e->Str_0)
}

/// A well-formed `target` form: the keyword, a name atom, a dependency
/// list and a command list.
pub open spec fn target_ok(l: Seq<SExprView>) -> bool {
    &&& l.len() == 4
    &&& (l[1] is Str || l[1] is Id)
    &&& l[2] is List && stridlist_ok(l[2]->List_0)
    &&& l[3] is List && strlist_ok(l[3]->List_0)
}

/// A well-formed `set` form: the keyword and two string literals.
pub open spec fn set_ok(l: Seq<SExprView>) -> bool {
    l.len() == 3 && l[1] is Str && l[2] is Str
}

/// Converts a list of atoms into target identities.
fn eval_stridlist(sexpr: &Vec<SExpr>) -> (r: Result<Vec<Thing>, SyntaxError>)
    ensures
        match r {
            Ok(v) => {
                &&& stridlist_ok(sexpr_views(sexpr@))
                &&& v@.len() == sexpr@.len()
                &&& forall|k: int|
                    0 <= k < v@.len() ==> (#[trigger] v@[k])@ == stridlist_things(
                        sexpr_views(sexpr@),
                    )[k]
            },
            Err(_) => !stridlist_ok(sexpr_views(sexpr@)),
        },
{
    proof {
        lemma_sexpr_views_index(sexpr@);
    }
    let ghost views = sexpr_views(sexpr@);
    let mut ret: Vec<Thing> = Vec::new();
    let n = sexpr.len();
    let mut k: usize = 0;
    while k < n
        invariant
            k <= n,
            n == sexpr@.len(),
            views == sexpr_views(sexpr@),
            views.len() == n,
            forall|i: int| 0 <= i < n ==> views[i] == sexpr_view(sexpr@[i]),
            ret@.len() == k,
            forall|i: int| 0 <= i < k ==> (#[trigger] views[i]) is Str || views[i] is Id,
            forall|i: int| 0 <= i < k ==> (#[trigger] ret@[i])@ == thing_of(views[i]),
        decreases n - k,
    {
        match &sexpr[k] {
            SExpr::Str(s) => {
                ret.push(Thing::Actual(s.clone()));
            },
            SExpr::Id(s) => {
                ret.push(Thing::Pseudo(s.clone()));
            },
            _ => {
                proof {
                    assert(views[k as int] == sexpr_view(sexpr@[k as int]));
                    assert(!(views[k as int] is Str || views[k as int] is Id));
                }
                return Err(SyntaxError::new("not a string or identifier"));
            },
        }
        k += 1;
    }
    proof {
        assert forall|i: int| 0 <= i < n implies (#[trigger] ret@[i])@ == stridlist_things(
            views,
        )[i] by {}
    }
    Ok(ret)
}

/// Converts a list of string literals into plain strings.
fn eval_strlist(sexpr: &Vec<SExpr>) -> (r: Result<Vec<String>, SyntaxError>)
    ensures
        match r {
            Ok(v) => {
                &&& strlist_ok(sexpr_views(sexpr@))
                &&& v@.len() == sexpr@.len()
                &&& forall|k: int|
                    0 <= k < v@.len() ==> (#[trigger] v@[k])@ == strlist_strs(
                        sexpr_views(sexpr@),
                    )[k]
            },
            Err(_) => !strlist_ok(sexpr_views(sexpr@)),
        },
{
    proof {
        lemma_sexpr_views_index(sexpr@);
    }
    let ghost views = sexpr_views(sexpr@);
    let mut ret: Vec<String> = Vec::new();
    let n = sexpr.len();
    let mut k: usize = 0;
    while k < n
        invariant
            k <= n,
            n == sexpr@.len(),
            views == sexpr_views(sexpr@),
            views.len() == n,
            forall|i: int| 0 <= i < n ==> views[i] == sexpr_view(sexpr@[i]),
            ret@.len() == k,
            forall|i: int| 0 <= i < k ==> (#[trigger] views[i]) is Str,
            forall|i: int| 0 <= i < k ==> (#[trigger] ret@[i])@ == views[i]->Str_0,
        decreases n - k,
    {
        match &sexpr[k] {
            SExpr::Str(s) => {
                ret.push(s.clone());
            },
            _ => {
                proof {
                    assert(views[k as int] == sexpr_view(sexpr@[k as int]));
                    assert(!(views[k as int] is Str));
                }
                return Err(SyntaxError::new("not a string"));
            },
        }
        k += 1;
    }
    proof {
        assert forall|i: int| 0 <= i < n implies (#[trigger] ret@[i])@ == strlist_strs(
            views,
        )[i] by {}
    }
    Ok(ret)
}

/// Handles a `target` form: declares the rule via [`Recipe::add_rule`].
fn eval_target(rec: &mut Recipe, sexpr: &Vec<SExpr>) -> (r: Result<(), SyntaxError>)
    requires
        old(rec).wf(),
    ensures
        final(rec).wf(),
        match r {
            Ok(_) => {
                let l = sexpr_views(sexpr@);
                let name = thing_of(l[1]);
                let deps = stridlist_things(l[2]->List_0);
                &&& target_ok(l)
                &&& final(rec).default_target() == (if old(rec).default_target() is None {
                    Some(name)
                } else {
                    old(rec).default_target()
                })
                &&& final(rec).vars_model() == old(rec).vars_model()
                &&& forall|j: int|
                    0 <= j < old(rec).node_count() ==> final(rec).node_at(j) == old(rec).node_at(j)
                &&& final(rec).node_count() >= old(rec).node_count()
                &&& forall|t: ThingView|
                    final(rec).known(t) <==> old(rec).known(t) || t == name || (exists|k: int|
                        0 <= k < deps.len() && deps[k] == t)
                &&& final(rec).cmd_templates(name) == Some(strlist_strs(l[3]->List_0))
                &&& forall|t: ThingView|
                    t != name && old(rec).known(t) ==> final(rec).cmd_templates(t) == old(
                        rec,
                    ).cmd_templates(t)
            },
            Err(_) => !target_ok(sexpr_views(sexpr@)) && *final(rec) == *old(rec),
        },
{
    proof {
        lemma_sexpr_views_index(sexpr@);
    }
    let ghost l = sexpr_views(sexpr@);
    if sexpr.len() != 4 {
        return Err(SyntaxError::new("target: expecting 4 list elements"));
    }
    let name: Thing = match &sexpr[1] {
        SExpr::Str(s) => Thing::Actual(s.clone()),
        SExpr::Id(s) => Thing::Pseudo(s.clone()),
        _ => {
            return Err(SyntaxError::new("target: expecting target name"));
        },
    };
    let deps: Vec<Thing> = match &sexpr[2] {
        SExpr::List(dl) => {
            match eval_stridlist(dl) {
                Ok(v) => v,
                Err(e) => {
                    return Err(e);
                },
            }
        },
        _ => {
            return Err(SyntaxError::new("target: expecting a list of dependencies"));
        },
    };
    let cmds: Vec<String> = match &sexpr[3] {
        SExpr::List(cl) => {
            match eval_strlist(cl) {
                Ok(v) => v,
                Err(e) => {
                    return Err(e);
                },
            }
        },
        _ => {
            return Err(SyntaxError::new("target: expecting a list of commands"));
        },
    };
    proof {
        assert(name@ == thing_of(l[1]));
        assert(l[2] is List && l[2]->List_0 == sexpr_views(sexpr@[2]->List_0@));
        assert(l[3] is List && l[3]->List_0 == sexpr_views(sexpr@[3]->List_0@));
        assert(target_ok(l));
    }
    let ghost depviews = stridlist_things(l[2]->List_0);
    let ghost cmdviews = strlist_strs(l[3]->List_0);
    proof {
        lemma_sexpr_views_index(sexpr@[2]->List_0@);
        lemma_sexpr_views_index(sexpr@[3]->List_0@);
        assert(deps@.len() == depviews.len());
        assert(forall|k: int| 0 <= k < deps@.len() ==> (#[trigger] deps@[k])@ == depviews[k]);
        assert(cmds@.map_values(|c: String| c@) =~= cmdviews);
    }
    rec.add_rule(name, deps, cmds);
    proof {
        assert forall|t: ThingView|
            final(rec).known(t) <==> old(rec).known(t) || t == thing_of(l[1]) || (exists|k: int|
                0 <= k < depviews.len() && depviews[k] == t) by {
            if exists|k: int| 0 <= k < deps@.len() && deps@[k]@ == t {
                let k = choose|k: int| 0 <= k < deps@.len() && deps@[k]@ == t;
                assert(depviews[k] == t);
            }
            if exists|k: int| 0 <= k < depviews.len() && depviews[k] == t {
                let k = choose|k: int| 0 <= k < depviews.len() && depviews[k] == t;
                assert(deps@[k]@ == t);
            }
        }
    }
    Ok(())
}

/// Handles a `set` form: defines the variable via [`Recipe::set_var`].
fn eval_set(rec: &mut Recipe, sexpr: &Vec<SExpr>) -> (r: Result<(), SyntaxError>)
    requires
        old(rec).wf(),
    ensures
        final(rec).wf(),
        final(rec).node_count() == old(rec).node_count(),
        forall|j: int|
            0 <= j < old(rec).node_count() ==> final(rec).node_at(j) == old(rec).node_at(j),
        forall|j: int|
            0 <= j < old(rec).node_count() ==> final(rec).deps_of(j) == old(rec).deps_of(j),
        forall|j: int|
            0 <= j < old(rec).node_count() ==> final(rec).cmds_at(j) == old(rec).cmds_at(j),
        final(rec).default_target() == old(rec).default_target(),
        match r {
            Ok(_) => {
                let l = sexpr_views(sexpr@);
                let name = l[1]->Str_0;
                let val = l[2]->Str_0;
                &&& set_ok(l)
                &&& final(rec).var_value(name) is Some
                &&& exists|n: nat|
                    n <= EXPAND_LIMIT && #[trigger] expand_n(
                        old(rec).vars_model(),
                        Seq::<(Seq<char>, Seq<char>)>::empty(),
                        val,
                        n,
                    ) == ExpandOutcome::Done(final(rec).var_value(name)->Some_0)
                &&& forall|q: Seq<char>|
                    q != name ==> final(rec).var_value(q) == old(rec).var_value(q)
            },
            Err(_) => final(rec).vars_model() == old(rec).vars_model() && (!set_ok(
                sexpr_views(sexpr@),
            ) || {
                let val = sexpr_views(sexpr@)[2]->Str_0;
                ||| exists|n: nat|
                    #[trigger] expand_n(
                        old(rec).vars_model(),
                        Seq::<(Seq<char>, Seq<char>)>::empty(),
                        val,
                        n,
                    ) is Fail
                ||| expand_n(
                    old(rec).vars_model(),
                    Seq::<(Seq<char>, Seq<char>)>::empty(),
                    val,
                    EXPAND_LIMIT as nat,
                ) == ExpandOutcome::More
            }),
        },
{
    proof {
        lemma_sexpr_views_index(sexpr@);
    }
    if sexpr.len() != 3 {
        return Err(SyntaxError::new("set: expecting 2 list elements"));
    }
    let name: &String = match &sexpr[1] {
        SExpr::Str(s) => s,
        _ => {
            return Err(SyntaxError::new("set: expecting parameter name as string"));
        },
    };
    let value: &String = match &sexpr[2] {
        SExpr::Str(s) => s,
        _ => {
            return Err(SyntaxError::new("set: expecting parameter value as string"));
        },
    };
    match rec.set_var(name.as_str(), value.as_str()) {
        Ok(_) => Ok(()),
        Err(_e) => Err(SyntaxError::new("set: parameter expansion failed")),
    }
}

/// The effect of one well-formed `target` form on the registry: what
/// [`Recipe::add_rule`] promises for the extracted name, dependencies and
/// commands.
pub open spec fn target_applies(a: Recipe, l: Seq<SExprView>, b: Recipe) -> bool {
    let name = thing_of(l[1]);
    let deps = stridlist_things(l[2]->List_0);
    &&& b.wf()
    &&& b.default_target() == (if a.default_target() is None {
        Some(name)
    } else {
        a.default_target()
    })
    &&& b.vars_model() == a.vars_model()
    &&& b.node_count() >= a.node_count()
    &&& forall|j: int| 0 <= j < a.node_count() ==> b.node_at(j) == a.node_at(j)
    &&& forall|t: ThingView|
        b.known(t) <==> a.known(t) || t == name || (exists|k: int|
            0 <= k < deps.len() && deps[k] == t)
    &&& b.cmd_templates(name) == Some(strlist_strs(l[3]->List_0))
    &&& forall|t: ThingView|
        t != name && a.known(t) ==> b.cmd_templates(t) == a.cmd_templates(t)
}

/// The effect of one well-formed `set` form on the registry: what
/// [`Recipe::set_var`] promises on success.
pub open spec fn set_applies(a: Recipe, l: Seq<SExprView>, b: Recipe) -> bool {
    let name = l[1]->Str_0;
    let val = l[2]->Str_0;
    &&& b.wf()
    &&& b.node_count() == a.node_count()
    &&& forall|j: int| 0 <= j < a.node_count() ==> b.node_at(j) == a.node_at(j)
    &&& forall|j: int| 0 <= j < a.node_count() ==> b.deps_of(j) == a.deps_of(j)
    &&& forall|j: int| 0 <= j < a.node_count() ==> b.cmds_at(j) == a.cmds_at(j)
    &&& b.default_target() == a.default_target()
    &&& b.var_value(name) is Some
    &&& exists|n: nat|
        n <= EXPAND_LIMIT && #[trigger] expand_n(
            a.vars_model(),
            Seq::<(Seq<char>, Seq<char>)>::empty(),
            val,
            n,
        ) == ExpandOutcome::Done(b.var_value(name)->Some_0)
    &&& forall|q: Seq<char>| q != name ==> b.var_value(q) == a.var_value(q)
}

/// One well-formed top-level list applied to registry state `a` gives `b`.
pub open spec fn list_applies(a: Recipe, l: Seq<SExprView>, b: Recipe) -> bool {
    ||| (is_target_form(l) && target_ok(l) && target_applies(a, l, b))
    ||| (is_set_form(l) && set_ok(l) && set_applies(a, l, b))
}

/// One top-level s-expression applied to registry state `a` gives `b`.
pub open spec fn form_applies(a: Recipe, e: SExpr, b: Recipe) -> bool {
    e is List && list_applies(a, sexpr_views((e->List_0)@), b)
}

/// The forms applied in order, front first, lead from `a` to `b`.
pub open spec fn forms_apply(a: Recipe, forms: Seq<SExpr>, b: Recipe) -> bool
    decreases forms.len(),
{
    if forms.len() == 0 {
        b == a
    } else {
        exists|mid: Recipe|
            #[trigger] form_applies(a, forms[0], mid) && forms_apply(
                mid,
                forms.drop_first(),
                b,
            )
    }
}

/// Appending one applied form extends an applied sequence.
proof fn lemma_forms_apply_push(a: Recipe, s: Seq<SExpr>, b: Recipe, e: SExpr, c: Recipe)
    requires
        forms_apply(a, s, b),
        form_applies(b, e, c),
    ensures
        forms_apply(a, s.push(e), c),
    decreases s.len(),
{
    if s.len() == 0 {
        assert(b == a);
        assert(s.push(e)[0] == e);
        assert(s.push(e).drop_first() =~= Seq::<SExpr>::empty());
        assert(form_applies(a, s.push(e)[0], c) && forms_apply(
            c,
            s.push(e).drop_first(),
            c,
        ));
    } else {
        let mid = choose|mid: Recipe|
            #[trigger] form_applies(a, s[0], mid) && forms_apply(mid, s.drop_first(), b);
        lemma_forms_apply_push(mid, s.drop_first(), b, e, c);
        assert(s.push(e)[0] == s[0]);
        assert(s.push(e).drop_first() =~= s.drop_first().push(e));
        assert(form_applies(a, s.push(e)[0], mid) && forms_apply(
            mid,
            s.push(e).drop_first(),
            c,
        ));
    }
}

/// A top-level form that declares a rule: the `target` keyword first.
pub open spec fn is_target_form(l: Seq<SExprView>) -> bool {
    l.len() > 0 && l[0] == SExprView::Id("target"@)
}

/// A top-level form that defines a variable: the `set` keyword first.
pub open spec fn is_set_form(l: Seq<SExprView>) -> bool {
    l.len() > 0 && l[0] == SExprView::Id("set"@)
}

/// Dispatches one top-level list on its keyword.
fn eval_list(rec: &mut Recipe, sexpr: &Vec<SExpr>) -> (r: Result<(), SyntaxError>)
    requires
        old(rec).wf(),
    ensures
        final(rec).wf(),
        r is Ok ==> list_applies(*old(rec), sexpr_views(sexpr@), *final(rec)),
        !(is_target_form(sexpr_views(sexpr@)) || is_set_form(sexpr_views(sexpr@))) ==> r is Err
            && *final(rec) == *old(rec),
        is_target_form(sexpr_views(sexpr@)) ==> match r {
            Ok(_) => {
                let l = sexpr_views(sexpr@);
                let name = thing_of(l[1]);
                let deps = stridlist_things(l[2]->List_0);
                &&& target_ok(l)
                &&& final(rec).default_target() == (if old(rec).default_target() is None {
                    Some(name)
                } else {
                    old(rec).default_target()
                })
                &&& final(rec).vars_model() == old(rec).vars_model()
                &&& forall|t: ThingView|
                    final(rec).known(t) <==> old(rec).known(t) || t == name || (exists|k: int|
                        0 <= k < deps.len() && deps[k] == t)
                &&& final(rec).cmd_templates(name) == Some(strlist_strs(l[3]->List_0))
            },
            Err(_) => !target_ok(sexpr_views(sexpr@)) && *final(rec) == *old(rec),
        },
        is_set_form(sexpr_views(sexpr@)) ==> match r {
            Ok(_) => {
                let l = sexpr_views(sexpr@);
                let name = l[1]->Str_0;
                &&& set_ok(l)
                &&& final(rec).var_value(name) is Some
                &&& final(rec).default_target() == old(rec).default_target()
                &&& forall|q: Seq<char>|
                    q != name ==> final(rec).var_value(q) == old(rec).var_value(q)
            },
            Err(_) => final(rec).vars_model() == old(rec).vars_model(),
        },
    {
        proof {
            lemma_sexpr_views_index(sexpr@);
        }
        let ghost l = sexpr_views(sexpr@);
        proof {
            reveal_strlit("target");
            reveal_strlit("set");
            assert("target"@ != "set"@) by {
                assert("target"@.len() != "set"@.len());
            }
        }
        if sexpr.len() == 0 {
            return Err(SyntaxError::new("nil list"));
        }
        let id: &String = match &sexpr[0] {
            SExpr::Id(s) => s,
            _ => {
                proof {
                    assert(l[0] == sexpr_view(sexpr@[0]));
                    assert(!(l[0] is Id));
                }
                return Err(SyntaxError::new("expecting identifier"));
            },
        };
        proof {
            assert(l[0] == sexpr_view(sexpr@[0]));
            assert(l[0] == SExprView::Id(id@));
        }
        if crate::expand::str_eq(id.as_str(), "target") {
            eval_target(rec, sexpr)
        } else if crate::expand::str_eq(id.as_str(), "set") {
            eval_set(rec, sexpr)
        } else {
            Err(SyntaxError::new("unrecognized command"))
        }
    }

/// Builds a [`Recipe`] from a sequence of parsed top-level forms,
/// stopping at the first malformed one.  On success every form was a
/// well-formed `target` or `set` list, applied in order to a fresh
/// registry.
pub fn eval(sexprs: VecDeque<SExpr>) -> (r: Result<Recipe, SyntaxError>)
    ensures
        r matches Ok(rec) ==> {
            &&& rec.wf()
            &&& forall|k: int|
                0 <= k < sexprs@.len() ==> sexpr_view(#[trigger] sexprs@[k]) is List
            &&& exists|r0: Recipe|
                {
                    &&& r0.wf()
                    &&& r0.node_count() == 0
                    &&& r0.vars_model() == Seq::<(Seq<char>, Seq<char>)>::empty()
                    &&& r0.default_target() is None
                    &&& #[trigger] forms_apply(r0, sexprs@, rec)
                }
        },
{
    let mut rec = Recipe::new();
    let ghost r0 = rec;
    let mut rest = sexprs;
    let ghost all = rest@;
    let ghost done: int = 0;
    proof {
        assert(all.take(0) =~= Seq::<SExpr>::empty());
    }
    while rest.len() > 0
        invariant
            rec.wf(),
            r0.wf(),
            r0.node_count() == 0,
            r0.vars_model() == Seq::<(Seq<char>, Seq<char>)>::empty(),
            r0.default_target() is None,
            0 <= done <= all.len(),
            done == all.len() - rest@.len(),
            rest@ == all.skip(done),
            forall|k: int| 0 <= k < done ==> sexpr_view(#[trigger] all[k]) is List,
            forms_apply(r0, all.take(done), rec),
        decreases rest@.len(),
    {
        let cur = match rest.pop_front() {
            Some(c) => c,
            None => vstd::pervasive::unreached(),
        };
        proof {
            assert(cur == all[done]);
            assert(rest@ =~= all.skip(done + 1));
        }
        let ghost pre = rec;
        match cur {
            SExpr::List(l) => {
                match eval_list(&mut rec, &l) {
                    Ok(_) => {},
                    Err(e) => {
                        return Err(e);
                    },
                }
                proof {
                    assert(cur is List && (cur->List_0)@ == l@);
                    assert(form_applies(pre, cur, rec));
                    lemma_forms_apply_push(r0, all.take(done), pre, cur, rec);
                    assert(all.take(done).push(cur) =~= all.take(done + 1));
                }
            },
            _ => {
                return Err(SyntaxError::new("top-level expression not a list"));
            },
        }
        proof {
            done = done + 1;
        }
    }
    proof {
        assert(all.take(done) =~= all);
        assert(all == sexprs@);
    }
    Ok(rec)
}

} // verus!
