//! The rule registry and the build evaluator.
//!
//! A [`Recipe`] owns the dependency graph: each target identity is a node,
//! each dependency an edge, and per-target command lists, global variables
//! and the default target sit beside the graph.  The registry is built
//! incrementally by [`Recipe::add_rule`] and [`Recipe::set_var`] and is
//! read-only afterwards; [`Recipe::toposort`] walks it depth-first with
//! memoization, consulting two caller-supplied strategies.

use vstd::prelude::*;
use vstd::string::StringExecFns;
use vstd::pervasive::unreached;
use crate::Verbosity;
use crate::expand::ExpandOutcome;
use crate::expand::EXPAND_LIMIT;
use crate::expand::expand_n;
use crate::expand::expand_tables;
use crate::expand::lemma_expand_determined;
use crate::expand::limit_msg;
use crate::expand::opt_table;
use crate::expand::table_lookup;
use crate::expand::table_view;
use crate::expand::unknown_msg;
use crate::graph;
use crate::graph::GraphIndex;

verus! {

/// The overall outcome of one evaluation: every needed command ran and
/// succeeded (`Done`), or the walk was cancelled by the first failure.
#[derive(Debug, PartialEq, Eq, Structural)]
pub enum SearchResult {
    Cancelled,
    Done,
}

/// A target identity: a real filesystem path or a symbolic name.
/// The tag takes part in equality: `Actual("x") != Pseudo("x")`.
#[derive(Debug, Eq, Hash)]
pub enum Thing {
    Actual(String),
    Pseudo(String),
}

/// The mathematical value of a [`Thing`]: the tag plus the characters.
pub enum ThingView {
    Actual(Seq<char>),
    Pseudo(Seq<char>),
}

impl ThingView {
    /// The characters of the identity, whichever the tag.
    pub open spec fn chars(self) -> Seq<char> {
        match self {
            ThingView::Actual(s) => s,
            ThingView::Pseudo(s) => s,
        }
    }
}

impl View for Thing {
    type V = ThingView;

    open spec fn view(&self) -> ThingView {
        match self {
            Thing::Actual(s) => ThingView::Actual(s@),
            Thing::Pseudo(s) => ThingView::Pseudo(s@),
        }
    }
}

impl Clone for Thing {
    fn clone(&self) -> (r: Thing)
        ensures
            r == *self,
    {
        match self {
            Thing::Actual(s) => Thing::Actual(s.clone()),
            Thing::Pseudo(s) => Thing::Pseudo(s.clone()),
        }
    }
}

impl PartialEq for Thing {
    fn eq(&self, other: &Thing) -> (r: bool) {
        match (self, other) {
            (Thing::Actual(a), Thing::Actual(b)) => *a == *b,
            (Thing::Pseudo(a), Thing::Pseudo(b)) => *a == *b,
            _ => false,
        }
    }
}

impl vstd::std_specs::cmp::PartialEqSpecImpl for Thing {
    open spec fn obeys_eq_spec() -> bool {
        true
    }

    open spec fn eq_spec(&self, other: &Thing) -> bool {
        self@ == other@
    }
}

/// The rule registry: the dependency graph plus its bookkeeping.
#[derive(Debug)]
pub struct Recipe {
    depgraph: graph::DAG<Thing>,
    cmds: Vec<Option<Vec<String>>>,
    vars: Vec<(String, String)>,
    first: Option<Thing>,
    v: Verbosity,
}

impl Default for Recipe {
    fn default() -> (r: Self)
        ensures
            r.wf(),
            r.node_count() == 0,
            r.default_target() is None,
    {
        Self::new()
    }
}

impl Recipe {
    /// Number of graph nodes (known target identities).
    pub closed spec fn node_count(self) -> nat {
        self.depgraph.spec_len()
    }

    /// The identity stored at node `i`.
    pub closed spec fn node_at(self, i: int) -> ThingView {
        self.depgraph.payloads()[i]@
    }

    /// The outgoing edges of node `i`, in the order they were connected.
    pub closed spec fn deps_of(self, i: int) -> Seq<GraphIndex> {
        self.depgraph.edge_lists()[i]
    }

    /// The command templates registered for node `i`; `None` for an
    /// identity that only ever appeared as a dependency.
    pub closed spec fn cmds_at(self, i: int) -> Option<Seq<Seq<char>>> {
        match self.cmds@[i] {
            Some(cs) => Some(cs@.map_values(|c: String| c@)),
            None => None,
        }
    }

    /// The global variable table, first match winning on lookup.
    pub closed spec fn vars_model(self) -> Seq<(Seq<char>, Seq<char>)> {
        table_view(self.vars@)
    }

    /// The value a variable name currently expands to.
    pub open spec fn var_value(self, name: Seq<char>) -> Option<Seq<char>> {
        table_lookup(self.vars_model(), name)
    }

    /// The identity of the first target ever declared.
    pub closed spec fn default_target(self) -> Option<ThingView> {
        match self.first {
            Some(t) => Some(t@),
            None => None,
        }
    }

    pub closed spec fn verbosity(self) -> Verbosity {
        self.v
    }

    /// An identity is known iff some node carries it.
    pub open spec fn known(self, t: ThingView) -> bool {
        exists|i: int| 0 <= i < self.node_count() && self.node_at(i) == t
    }

    /// The node of a known identity (well defined because nodes are
    /// pairwise distinct).
    pub open spec fn index_of(self, t: ThingView) -> int {
        choose|i: int| 0 <= i < self.node_count() && self.node_at(i) == t
    }

    /// The command templates of an identity, `None` when it was never the
    /// subject of a rule.
    pub open spec fn cmd_templates(self, t: ThingView) -> Option<Seq<Seq<char>>> {
        if self.known(t) {
            self.cmds_at(self.index_of(t))
        } else {
            None
        }
    }

    /// Well-formedness: the graph is sound, every node has a command slot,
    /// and no two nodes carry the same identity.
    pub closed spec fn wf(self) -> bool {
        &&& self.depgraph.wf()
        &&& self.cmds@.len() == self.node_count()
        &&& forall|i: int, j: int|
            0 <= i < j < self.node_count() ==> self.node_at(i) != self.node_at(j)
    }

    /// Everything the registry's invariant and node views speak of lives
    /// in the graph and the command slots: two values equal there agree on
    /// all of it.
    proof fn lemma_wf_frame(a: Recipe, b: Recipe)
        requires
            a.wf(),
            b.depgraph == a.depgraph,
            b.cmds == a.cmds,
        ensures
            b.wf(),
            b.node_count() == a.node_count(),
            forall|j: int| #![trigger b.node_at(j)] b.node_at(j) == a.node_at(j),
            forall|j: int| #![trigger b.deps_of(j)] b.deps_of(j) == a.deps_of(j),
            forall|j: int| #![trigger b.cmds_at(j)] b.cmds_at(j) == a.cmds_at(j),
    {
        assert forall|j: int| #![trigger b.node_at(j)] b.node_at(j) == a.node_at(j) by {}
        assert forall|j: int| #![trigger b.deps_of(j)] b.deps_of(j) == a.deps_of(j) by {}
        assert forall|j: int| #![trigger b.cmds_at(j)] b.cmds_at(j) == a.cmds_at(j) by {}
        assert forall|i: int, j: int|
            0 <= i < j < b.node_count() implies b.node_at(i) != b.node_at(j) by {
            assert(a.node_at(i) != a.node_at(j));
        }
        assert(b.wf());
    }

    /// A known identity has exactly one node.
    pub proof fn lemma_index_of(self, i: int)
        requires
            self.wf(),
            0 <= i < self.node_count(),
        ensures
            self.known(self.node_at(i)),
            self.index_of(self.node_at(i)) == i,
    {
        assert(0 <= i < self.node_count() && self.node_at(i) == self.node_at(i));
        let j = self.index_of(self.node_at(i));
        if i != j {
            if i < j {
                assert(self.node_at(i) != self.node_at(j));
            } else {
                assert(self.node_at(j) != self.node_at(i));
            }
        }
    }

    pub fn new() -> (r: Recipe)
        ensures
            r.wf(),
            r.node_count() == 0,
            r.vars_model() =~= Seq::<(Seq<char>, Seq<char>)>::empty(),
            r.default_target() is None,
            r.verbosity() == Verbosity::Minimal,
    {
        Recipe {
            depgraph: graph::DAG::new(),
            cmds: Vec::new(),
            vars: Vec::new(),
            first: None,
            v: Verbosity::Minimal,
        }
    }

    /// The node carrying `thing`, if any.
    fn find_node(&self, thing: &Thing) -> (r: Option<GraphIndex>)
        requires
            self.wf(),
        ensures
            match r {
                Some(i) => i < self.node_count() && self.node_at(i as int) == thing@
                    && self.index_of(thing@) == i && self.known(thing@),
                None => !self.known(thing@),
            },
    {
        let n = self.depgraph.len_nodes();
        let mut i: usize = 0;
        while i < n
            invariant
                self.wf(),
                i <= n,
                n == self.node_count(),
                forall|j: int| 0 <= j < i ==> self.node_at(j) != thing@,
            decreases n - i,
        {
            let here = match self.depgraph.get(i) {
                Some(t) => t == thing,
                None => false,
            };
            if here {
                proof {
                    self.lemma_index_of(i as int);
                }
                return Some(i);
            }
            i += 1;
        }
        None
    }

    /// Reuses the node of a known identity, or appends a fresh one with no
    /// commands and no edges.
    fn intern(&mut self, thing: Thing) -> (i: GraphIndex)
        requires
            old(self).wf(),
        ensures
            final(self).wf(),
            i < final(self).node_count(),
            final(self).node_at(i as int) == thing@,
            final(self).index_of(thing@) == i,
            final(self).known(thing@),
            final(self).vars_model() == old(self).vars_model(),
            final(self).default_target() == old(self).default_target(),
            final(self).verbosity() == old(self).verbosity(),
            forall|j: int| 0 <= j < old(self).node_count() ==> final(self).node_at(j) == old(
                self,
            ).node_at(j),
            forall|j: int|
                0 <= j < old(self).node_count() ==> final(self).deps_of(j) == old(self).deps_of(j),
            forall|j: int|
                0 <= j < old(self).node_count() ==> final(self).cmds_at(j) == old(self).cmds_at(j),
            old(self).known(thing@) ==> final(self).node_count() == old(self).node_count() && i
                < old(self).node_count(),
            !old(self).known(thing@) ==> final(self).node_count() == old(self).node_count() + 1 && i
                == old(self).node_count() && final(self).deps_of(i as int) =~= Seq::<
                GraphIndex,
            >::empty() && final(self).cmds_at(i as int) is None,
    {
        let ghost tv = thing@;
        let ghost tval = thing;
        match self.find_node(&thing) {
            Some(i) => i,
            None => {
                let ghost pre = *self;
                let i = self.depgraph.node(thing);
                self.cmds.push(None);
                proof {
                    assert(self.depgraph.payloads() == pre.depgraph.payloads().push(tval));
                    assert(self.depgraph.payloads()[i as int] == tval);
                    assert(self.node_at(i as int) == tv);
                    assert forall|j: int| 0 <= j < pre.node_count() implies self.node_at(j)
                        == pre.node_at(j) by {
                        assert(self.depgraph.payloads()[j] == pre.depgraph.payloads().push(tval)[j]);
                    }
                    assert forall|a: int, b: int|
                        0 <= a < b < self.node_count() implies self.node_at(a) != self.node_at(
                        b,
                    ) by {
                        if b < pre.node_count() {
                            assert(pre.node_at(a) != pre.node_at(b));
                        } else {
                            assert(!(0 <= a < pre.node_count() && pre.node_at(a) == tv));
                        }
                    }
                    assert(self.wf());
                    self.lemma_index_of(i as int);
                }
                i
            },
        }
    }

    /// A known identity keeps its node (and index) when nodes are only
    /// appended.
    proof fn lemma_known_stable(a: Recipe, b: Recipe, t: ThingView)
        requires
            b.wf(),
            a.known(t),
            a.node_count() <= b.node_count(),
            forall|j: int| 0 <= j < a.node_count() ==> b.node_at(j) == a.node_at(j),
        ensures
            b.known(t),
            b.index_of(t) == a.index_of(t),
            0 <= a.index_of(t) < a.node_count(),
            a.node_at(a.index_of(t)) == t,
    {
        let i = a.index_of(t);
        assert(0 <= i < a.node_count() && a.node_at(i) == t);
        assert(b.node_at(i) == t);
        b.lemma_index_of(i);
    }

    /// Declares (or re-declares) a rule: `thing` depends on `deps`, in
    /// order, and is produced by `cmds`.
    ///
    /// The first declaration ever fixes the default target for good.  A
    /// re-declaration overwrites the command list and appends further
    /// dependency edges without creating a duplicate node.
    pub fn add_rule(&mut self, thing: Thing, deps: Vec<Thing>, cmds: Vec<String>)
        requires
            old(self).wf(),
        ensures
            final(self).wf(),
            final(self).default_target() == (if old(self).default_target() is None {
                Some(thing@)
            } else {
                old(self).default_target()
            }),
            final(self).vars_model() == old(self).vars_model(),
            final(self).verbosity() == old(self).verbosity(),
            final(self).node_count() >= old(self).node_count(),
            forall|j: int|
                0 <= j < old(self).node_count() ==> final(self).node_at(j) == old(self).node_at(j),
            final(self).known(thing@),
            forall|t: ThingView|
                final(self).known(t) <==> old(self).known(t) || t == thing@ || (exists|k: int|
                    0 <= k < deps@.len() && deps@[k]@ == t),
            final(self).cmd_templates(thing@) == Some(cmds@.map_values(|c: String| c@)),
            forall|t: ThingView|
                t != thing@ && old(self).known(t) ==> final(self).cmd_templates(t) == old(
                    self,
                ).cmd_templates(t),
            forall|t: ThingView|
                t != thing@ && !old(self).known(t) ==> final(self).cmd_templates(t) is None,
            ({
                let ti = final(self).index_of(thing@);
                let base = if old(self).known(thing@) {
                    old(self).deps_of(old(self).index_of(thing@))
                } else {
                    Seq::<GraphIndex>::empty()
                };
                &&& final(self).deps_of(ti).len() == base.len() + deps@.len()
                &&& forall|e: int| 0 <= e < base.len() ==> final(self).deps_of(ti)[e] == base[e]
                &&& forall|k: int|
                    0 <= k < deps@.len() ==> final(self).node_at(
                        final(self).deps_of(ti)[base.len() + k] as int,
                    ) == deps@[k]@
            }),
            forall|j: int|
                0 <= j < final(self).node_count() && j != final(self).index_of(thing@)
                    ==> final(self).deps_of(j) == (if j < old(self).node_count() {
                    old(self).deps_of(j)
                } else {
                    Seq::<GraphIndex>::empty()
                }),
    {
        let ghost g0 = *self;
        let ghost tv = thing@;
        if self.first.is_none() {
            self.first = Some(thing.clone());
        }
        let ghost g1 = *self;
        proof {
            assert(g1.depgraph == g0.depgraph);
            assert(g1.cmds == g0.cmds);
            assert(g1.vars == g0.vars);
            Recipe::lemma_wf_frame(g0, g1);
            assert(g1.default_target() == (if g0.default_target() is None {
                Some(tv)
            } else {
                g0.default_target()
            }));
        }
        let ti = self.intern(thing);
        let ghost g2 = *self;
        self.cmds[ti] = Some(cmds);
        proof {
            assert(self.depgraph == g2.depgraph);
            assert(self.vars == g2.vars);
            assert(self.first == g2.first);
            assert(self.v == g2.v);
            assert(self.cmds@ == g2.cmds@.update(ti as int, self.cmds@[ti as int]));
        }
        let ghost mid = *self;
        proof {
            assert(mid.cmds@.len() == g2.cmds@.len());
            assert(mid.node_count() == g2.node_count());
            assert forall|x: int| #![trigger mid.node_at(x)] mid.node_at(x) == g2.node_at(
                x,
            ) by {}
            assert forall|x: int| #![trigger mid.deps_of(x)] mid.deps_of(x) == g2.deps_of(
                x,
            ) by {}
            assert forall|a: int, b: int|
                0 <= a < b < mid.node_count() implies mid.node_at(a) != mid.node_at(b) by {
                assert(g2.node_at(a) != g2.node_at(b));
            }
            assert(mid.wf());
            assert(mid.cmds_at(ti as int) == Some(cmds@.map_values(|c: String| c@)));
            assert forall|j: int| 0 <= j < mid.node_count() && j != ti implies mid.cmds_at(j)
                == g2.cmds_at(j) by {}
            mid.lemma_index_of(ti as int);
        }
        let n = deps.len();
        let mut k: usize = 0;
        let ghost base = mid.deps_of(ti as int);
        while k < n
            invariant
                self.wf(),
                k <= n,
                n == deps@.len(),
                ti < self.node_count(),
                self.node_at(ti as int) == tv,
                self.index_of(tv) == ti,
                self.node_count() >= mid.node_count(),
                ti < mid.node_count(),
                forall|j: int| 0 <= j < mid.node_count() ==> self.node_at(j) == mid.node_at(j),
                forall|t: ThingView|
                    self.known(t) <==> mid.known(t) || (exists|x: int|
                        0 <= x < k && deps@[x]@ == t),
                forall|x: int| 0 <= x < k ==> self.known(deps@[x]@),
                forall|j: int|
                    0 <= j < self.node_count() ==> self.cmds_at(j) == (if j < mid.node_count() {
                        mid.cmds_at(j)
                    } else {
                        Option::<Seq<Seq<char>>>::None
                    }),
                self.deps_of(ti as int).len() == base.len() + k,
                forall|e: int| 0 <= e < base.len() ==> self.deps_of(ti as int)[e] == base[e],
                forall|x: int|
                    0 <= x < k ==> self.node_at(
                        self.deps_of(ti as int)[base.len() + x] as int,
                    ) == deps@[x]@,
                forall|j: int|
                    0 <= j < self.node_count() && j != ti ==> self.deps_of(j) == (if j
                        < mid.node_count() {
                        mid.deps_of(j)
                    } else {
                        Seq::<GraphIndex>::empty()
                    }),
                self.vars_model() == mid.vars_model(),
                self.default_target() == mid.default_target(),
                self.verbosity() == mid.verbosity(),
            decreases n - k,
        {
            let ghost pre = *self;
            let ghost dv = deps@[k as int]@;
            let di = self.intern(deps[k].clone());
            let ghost ai = *self;
            proof {
                assert(ai.node_at(di as int) == dv);
                assert forall|t: ThingView|
                    ai.known(t) <==> pre.known(t) || t == dv by {
                    if ai.known(t) {
                        let j = choose|j: int| 0 <= j < ai.node_count() && ai.node_at(j) == t;
                        if j < pre.node_count() {
                            assert(pre.node_at(j) == t);
                        } else {
                            assert(j == di && t == dv);
                        }
                    }
                    if pre.known(t) {
                        let j = choose|j: int|
                            0 <= j < pre.node_count() && pre.node_at(j) == t;
                        assert(ai.node_at(j) == t);
                    }
                    if t == dv {
                        assert(ai.node_at(di as int) == t);
                    }
                }
            }
            self.depgraph.connect(ti, di);
            proof {
                assert(self.cmds == ai.cmds);
                assert(self.vars == ai.vars);
                assert(self.first == ai.first);
                assert(self.v == ai.v);
                assert(self.depgraph.payloads() == ai.depgraph.payloads());
                assert forall|x: int| #![trigger self.node_at(x)] self.node_at(x) == ai.node_at(
                    x,
                ) by {}
                assert forall|x: int| #![trigger self.cmds_at(x)] self.cmds_at(x) == ai.cmds_at(
                    x,
                ) by {}
                assert forall|a: int, b: int|
                    0 <= a < b < self.node_count() implies self.node_at(a) != self.node_at(
                    b,
                ) by {
                    assert(ai.node_at(a) != ai.node_at(b));
                }
                assert(self.wf());
                assert forall|t: ThingView|
                    self.known(t) <==> ai.known(t) by {
                    if self.known(t) {
                        let j = choose|j: int|
                            0 <= j < self.node_count() && self.node_at(j) == t;
                        assert(ai.node_at(j) == t);
                    }
                    if ai.known(t) {
                        let j = choose|j: int| 0 <= j < ai.node_count() && ai.node_at(j) == t;
                        assert(self.node_at(j) == t);
                    }
                }
                assert(self.node_at(ti as int) == tv);
                self.lemma_index_of(ti as int);
                assert(self.deps_of(ti as int) == ai.deps_of(ti as int).push(di));
                assert forall|j: int|
                    0 <= j < self.node_count() && j != ti implies self.deps_of(j) == (if j
                    < mid.node_count() {
                    mid.deps_of(j)
                } else {
                    Seq::<GraphIndex>::empty()
                }) by {
                    assert(self.deps_of(j) == ai.deps_of(j));
                    if j < pre.node_count() {
                        assert(ai.deps_of(j) == pre.deps_of(j));
                    } else {
                        assert(j == di);
                        assert(ai.deps_of(j) =~= Seq::<GraphIndex>::empty());
                    }
                }
                assert(self.node_at(self.deps_of(ti as int)[base.len() + k] as int) == dv);
            }
            k += 1;
        }
        proof {
            // Stitch the loop frame (stated against `mid`) back to the
            // entry state `g0`.
            assert(g1.node_count() == g0.node_count());
            assert(mid.node_count() == g2.node_count());
            assert(mid.depgraph == g2.depgraph);
            assert forall|j: int| 0 <= j < g0.node_count() implies self.node_at(j) == g0.node_at(
                j,
            ) by {
                assert(self.node_at(j) == mid.node_at(j));
                assert(mid.node_at(j) == g2.node_at(j));
                assert(g2.node_at(j) == g1.node_at(j));
                assert(g1.node_at(j) == g0.node_at(j));
            }
            // The known identities afterwards: the old ones, the target,
            // and every dependency.
            assert forall|t: ThingView|
                self.known(t) <==> g0.known(t) || t == tv || (exists|x: int|
                    0 <= x < deps@.len() && deps@[x]@ == t) by {
                if self.known(t) && !mid.known(t) {
                }
                if mid.known(t) {
                    let j = choose|j: int| 0 <= j < mid.node_count() && mid.node_at(j) == t;
                    if j < g1.node_count() {
                        assert(g1.node_at(j) == t);
                        assert(g0.node_at(j) == t);
                        assert(g0.known(t));
                    } else {
                        assert(j == ti && t == tv);
                    }
                }
                if g0.known(t) {
                    let j = choose|j: int| 0 <= j < g0.node_count() && g0.node_at(j) == t;
                    assert(self.node_at(j) == t);
                    assert(self.known(t));
                }
                if t == tv {
                    assert(self.node_at(ti as int) == t);
                    assert(self.known(t));
                }
            }
            // Command lists: overwritten for the target, untouched elsewhere.
            assert(self.cmd_templates(tv) == Some(cmds@.map_values(|c: String| c@))) by {
                assert(self.cmds_at(ti as int) == mid.cmds_at(ti as int));
            }
            assert forall|t: ThingView| t != tv && g0.known(t) implies self.cmd_templates(t)
                == g0.cmd_templates(t) by {
                Recipe::lemma_known_stable(g0, *self, t);
                let j = g0.index_of(t);
                assert(self.cmds_at(j) == mid.cmds_at(j));
                assert(j != ti) by {
                    assert(mid.node_at(ti as int) == tv && mid.node_at(j) == t);
                }
                assert(mid.cmds_at(j) == g2.cmds_at(j));
                assert(g2.cmds_at(j) == g1.cmds_at(j));
                assert(g1.cmds_at(j) == g0.cmds_at(j));
            }
            assert forall|t: ThingView| t != tv && !g0.known(t) && self.known(
                t,
            ) implies self.cmd_templates(t) is None by {
                let j = self.index_of(t);
                assert(0 <= j < self.node_count() && self.node_at(j) == t);
                assert(self.cmds_at(j) is None) by {
                    if j < mid.node_count() {
                        assert(mid.node_at(j) == t);
                        if j < g1.node_count() {
                            assert(g0.node_at(j) == t);
                            assert(g0.known(t));
                        } else {
                            assert(j == ti && t == tv);
                        }
                    }
                }
            }
            // Edges: the target's list grew by one edge per dependency.
            assert(self.index_of(tv) == ti);
            assert(base == (if g0.known(tv) {
                g0.deps_of(g0.index_of(tv))
            } else {
                Seq::<GraphIndex>::empty()
            })) by {
                if g0.known(tv) {
                    Recipe::lemma_known_stable(g0, g1, tv);
                    let j = g0.index_of(tv);
                    g1.lemma_index_of(j);
                    assert(ti == j);
                    assert(g2.deps_of(j) == g1.deps_of(j));
                    assert(g1.deps_of(j) == g0.deps_of(j));
                    assert(mid.deps_of(j) == g2.deps_of(j));
                } else {
                    assert(!g1.known(tv));
                    assert(ti == g1.node_count());
                    assert(g2.deps_of(ti as int) =~= Seq::<GraphIndex>::empty());
                    assert(mid.deps_of(ti as int) == g2.deps_of(ti as int));
                }
            }
            // Edges of every other node are untouched.
            assert forall|j: int|
                0 <= j < self.node_count() && j != self.index_of(tv) implies self.deps_of(j) == (
            if j < g0.node_count() {
                g0.deps_of(j)
            } else {
                Seq::<GraphIndex>::empty()
            }) by {
                if j < mid.node_count() {
                    assert(self.deps_of(j) == mid.deps_of(j));
                    assert(mid.deps_of(j) == g2.deps_of(j));
                    if j < g1.node_count() {
                        assert(g2.deps_of(j) == g1.deps_of(j));
                        assert(g1.deps_of(j) == g0.deps_of(j));
                    } else {
                        assert(j == ti);
                    }
                }
            }
        }
    }

    /// Defines a global variable: the raw value is expanded against the
    /// variables known so far and the frozen result is stored; on an
    /// expansion error nothing is stored.
    pub fn set_var(&mut self, name: &str, val: &str) -> (r: Result<(), String>)
        requires
            old(self).wf(),
        ensures
            final(self).wf(),
            final(self).node_count() == old(self).node_count(),
            forall|j: int|
                0 <= j < old(self).node_count() ==> final(self).node_at(j) == old(self).node_at(j),
            forall|j: int|
                0 <= j < old(self).node_count() ==> final(self).deps_of(j) == old(self).deps_of(j),
            forall|j: int|
                0 <= j < old(self).node_count() ==> final(self).cmds_at(j) == old(self).cmds_at(j),
            final(self).default_target() == old(self).default_target(),
            final(self).verbosity() == old(self).verbosity(),
            match r {
                Ok(_) => {
                    &&& final(self).var_value(name@) is Some
                    &&& exists|n: nat|
                        n <= EXPAND_LIMIT && #[trigger] expand_n(
                            old(self).vars_model(),
                            Seq::<(Seq<char>, Seq<char>)>::empty(),
                            val@,
                            n,
                        ) == ExpandOutcome::Done(final(self).var_value(name@)->Some_0)
                    &&& forall|q: Seq<char>|
                        q != name@ ==> final(self).var_value(q) == old(self).var_value(q)
                },
                Err(e) => {
                    &&& final(self).vars_model() == old(self).vars_model()
                    &&& {
                        ||| exists|n: nat|
                            {
                                &&& #[trigger] expand_n(
                                    old(self).vars_model(),
                                    Seq::<(Seq<char>, Seq<char>)>::empty(),
                                    val@,
                                    n,
                                ) is Fail
                                &&& e@ == set_var_msg(
                                    unknown_msg(
                                        expand_n(
                                            old(self).vars_model(),
                                            Seq::<(Seq<char>, Seq<char>)>::empty(),
                                            val@,
                                            n,
                                        )->Fail_0,
                                    ),
                                )
                            }
                        ||| {
                            &&& expand_n(
                                old(self).vars_model(),
                                Seq::<(Seq<char>, Seq<char>)>::empty(),
                                val@,
                                EXPAND_LIMIT as nat,
                            ) == ExpandOutcome::More
                            &&& e@ == set_var_msg(limit_msg())
                        }
                    }
                },
            },
    {
        let expanded = match expand_tables(&self.vars, None, val) {
            Ok(ev) => ev,
            Err(e) => {
                let em = String::from_str("Parameter expansion failed: ").concat(e.as_str());
                return Err(em);
            },
        };
        let ghost pre = table_view(self.vars@);
        let entry = (String::from_str(name), expanded);
        self.vars.insert(0, entry);
        proof {
            assert(self.depgraph == old(self).depgraph);
            assert(self.cmds == old(self).cmds);
            assert(self.first == old(self).first);
            assert(self.v == old(self).v);
            Recipe::lemma_wf_frame(*old(self), *self);
            assert(self.vars_model().drop_first() =~= pre);
            assert(self.vars_model()[0].0 == name@);
            assert(self.vars_model().len() == pre.len() + 1);
            assert forall|q: Seq<char>| q != name@ implies self.var_value(q) == table_lookup(
                pre,
                q,
            ) by {}
        }
        Ok(())
    }

    /// Expands `msg` against the global variables, with `overrides` taking
    /// precedence; see [`expand_tables`] for the exact outcome.
    pub fn expand_vars(&self, overrides: Option<&Vec<(String, String)>>, msg: &str) -> (r: Result<
        String,
        String,
    >)
        ensures
            ({
                let g = self.vars_model();
                let ov = opt_table(overrides);
                match r {
                    Ok(out) => exists|n: nat|
                        n <= EXPAND_LIMIT && #[trigger] expand_n(g, ov, msg@, n)
                            == ExpandOutcome::Done(out@),
                    Err(e) => {
                        ||| exists|n: nat|
                            {
                                &&& #[trigger] expand_n(g, ov, msg@, n) is Fail
                                &&& e@ == unknown_msg(expand_n(g, ov, msg@, n)->Fail_0)
                            }
                        ||| {
                            &&& expand_n(g, ov, msg@, EXPAND_LIMIT as nat) == ExpandOutcome::More
                            &&& e@ == limit_msg()
                        }
                    },
                }
            }),
    {
        expand_tables(&self.vars, overrides, msg)
    }

    /// The stored (already expanded) value of a variable.
    pub fn get_var(&self, name: &str) -> (r: Option<&String>)
        ensures
            match r {
                Some(v) => self.var_value(name@) == Some(v@),
                None => self.var_value(name@) is None,
            },
    {
        crate::expand::table_get(&self.vars, name)
    }

    /// The identity of the first target ever declared, if any.
    pub fn get_default(&self) -> (r: Option<&Thing>)
        ensures
            match r {
                Some(t) => self.default_target() == Some(t@),
                None => self.default_target() is None,
            },
    {
        self.first.as_ref()
    }

    /// Whether `thing` is known, as a target or as a dependency.
    pub fn rule_exists(&self, thing: &Thing) -> (r: bool)
        requires
            self.wf(),
        ensures
            r == self.known(thing@),
    {
        self.find_node(thing).is_some()
    }

    /// The command templates registered for `thing`, if it was ever the
    /// subject of a rule.
    pub fn get_cmds(&self, thing: Thing) -> (r: Option<&Vec<String>>)
        requires
            self.wf(),
        ensures
            match r {
                Some(cs) => self.cmd_templates(thing@) == Some(cs@.map_values(|c: String| c@)),
                None => self.cmd_templates(thing@) is None,
            },
    {
        match self.find_node(&thing) {
            Some(i) => self.cmds[i].as_ref(),
            None => None,
        }
    }

    pub fn set_verbosity(&mut self, verbosity: Verbosity)
        ensures
            final(self).verbosity() == verbosity,
            final(self).wf() == old(self).wf(),
            final(self).node_count() == old(self).node_count(),
            forall|j: int|
                0 <= j < old(self).node_count() ==> final(self).node_at(j) == old(self).node_at(j),
            forall|j: int|
                0 <= j < old(self).node_count() ==> final(self).deps_of(j) == old(self).deps_of(j),
            forall|j: int|
                0 <= j < old(self).node_count() ==> final(self).cmds_at(j) == old(self).cmds_at(j),
            final(self).vars_model() == old(self).vars_model(),
            final(self).default_target() == old(self).default_target(),
    {
        self.v = verbosity;
        proof {
            assert(self.depgraph == old(self).depgraph);
            assert(self.cmds == old(self).cmds);
            assert(self.vars == old(self).vars);
            assert(self.first == old(self).first);
            if old(self).wf() {
                Recipe::lemma_wf_frame(*old(self), *self);
            }
            if self.wf() {
                Recipe::lemma_wf_frame(*self, *old(self));
            }
        }
    }

    pub fn get_verbosity(&self) -> (r: Verbosity)
        ensures
            r == self.verbosity(),
    {
        self.v
    }

    /// How one requested name resolves: the real path of that spelling
    /// wins over the symbolic name.
    pub open spec fn name_resolution(self, name: Seq<char>) -> Option<ThingView> {
        if self.known(ThingView::Actual(name)) {
            Some(ThingView::Actual(name))
        } else if self.known(ThingView::Pseudo(name)) {
            Some(ThingView::Pseudo(name))
        } else {
            None
        }
    }

    /// Builds the queue of targets to evaluate: each requested name is
    /// looked up first as a real path, then as a symbolic name; with no
    /// names the default target is queued.  The unknown names, if any,
    /// come back as an explicit error.
    pub fn determine_targets(&self, names: &Vec<String>) -> (r: Result<Vec<Thing>, TargetsError>)
        requires
            self.wf(),
        ensures
            match r {
                Ok(q) => {
                    &&& self.default_target() is Some
                    &&& names@.len() == 0 ==> q@.len() == 1 && q@[0]@ == self.default_target()->Some_0
                    &&& names@.len() > 0 ==> q@.len() == names@.len() && (forall|k: int|
                        0 <= k < names@.len() ==> self.name_resolution(names@[k]@) == Some(
                            (#[trigger] q@[k])@,
                        ))
                },
                Err(e) => match e {
                    TargetsError::NoDefault => self.default_target() is None,
                    TargetsError::Unknown(m) => {
                        &&& self.default_target() is Some
                        &&& m@.len() > 0
                        &&& forall|x: int|
                            0 <= x < m@.len() ==> self.name_resolution(
                                (#[trigger] m@[x])@,
                            ) is None
                        &&& forall|k: int|
                            0 <= k < names@.len() && self.name_resolution(
                                (#[trigger] names@[k])@,
                            ) is None ==> (exists|x: int|
                                0 <= x < m@.len() && m@[x]@ == names@[k]@)
                    },
                },
            },
    {
        let dflt: Thing = match self.get_default() {
            None => {
                return Err(TargetsError::NoDefault);
            },
            Some(d) => d.clone(),
        };
        let mut queue: Vec<Thing> = Vec::new();
        if names.len() == 0 {
            queue.push(dflt);
            return Ok(queue);
        }
        let mut missing: Vec<String> = Vec::new();
        let n = names.len();
        let mut k: usize = 0;
        while k < n
            invariant
                self.wf(),
                k <= n,
                n == names@.len(),
                forall|x: int|
                    0 <= x < missing@.len() ==> self.name_resolution(
                        (#[trigger] missing@[x])@,
                    ) is None,
                forall|kk: int|
                    0 <= kk < k && self.name_resolution((#[trigger] names@[kk])@) is None
                        ==> (exists|x: int|
                        0 <= x < missing@.len() && missing@[x]@ == names@[kk]@),
                missing@.len() == 0 ==> queue@.len() == k && (forall|x: int|
                    0 <= x < k ==> self.name_resolution(names@[x]@) == Some(
                        (#[trigger] queue@[x])@,
                    )),
            decreases n - k,
        {
            let ghost pre_missing = missing@;
            let act = Thing::Actual(names[k].clone());
            let pse = Thing::Pseudo(names[k].clone());
            if self.rule_exists(&act) {
                queue.push(act);
            } else if self.rule_exists(&pse) {
                queue.push(pse);
            } else {
                missing.push(names[k].clone());
            }
            proof {
                assert forall|kk: int|
                    0 <= kk <= k && self.name_resolution((#[trigger] names@[kk])@) is None
                        implies (exists|x: int|
                    0 <= x < missing@.len() && missing@[x]@ == names@[kk]@) by {
                    if kk < k {
                        let x = choose|x: int|
                            0 <= x < pre_missing.len() && pre_missing[x]@ == names@[kk]@;
                        assert(missing@[x]@ == names@[kk]@);
                    } else {
                        assert(missing@[missing@.len() - 1]@ == names@[kk]@);
                    }
                }
            }
            k += 1;
        }
        if missing.len() > 0 {
            return Err(TargetsError::Unknown(missing));
        }
        Ok(queue)
    }

    /// The dependency names of node `i`, in the order the walk visits them
    /// (last connected first).
    pub open spec fn dep_names(self, i: int) -> Seq<Seq<char>> {
        self.deps_of(i).reverse().map_values(|e: GraphIndex| self.node_at(e as int).chars())
    }

    /// The override table laid over the globals while node `i`'s commands
    /// are materialized: `TARGET` is the identity's text, `DEPS` the
    /// space-joined dependency names in walk order.
    pub open spec fn override_table(self, i: int) -> Seq<(Seq<char>, Seq<char>)> {
        seq![("TARGET"@, self.node_at(i).chars()), ("DEPS"@, join_space(self.dep_names(i)))]
    }

    /// How many commands node `i` would run.
    pub open spec fn cmd_count(self, i: int) -> nat {
        match self.cmds_at(i) {
            Some(cs) => cs.len(),
            None => 0,
        }
    }

    /// Running node `i`'s template `j` materializes to exactly `out`.
    pub closed spec fn run_matches(self, i: int, j: int, out: Seq<char>) -> bool {
        exists|n: nat|
            n <= EXPAND_LIMIT && #[trigger] expand_n(
                self.vars_model(),
                self.override_table(i),
                self.cmds_at(i)->Some_0[j],
                n,
            ) == ExpandOutcome::Done(out)
    }

    /// The runs recorded for node `i` in a trace are expansions of its
    /// first templates, in declared order: the `j`-th entry for the node
    /// carries the expansion of template `j`.
    pub closed spec fn runs_in_order(self, tr: Seq<(Thing, String)>, i: int) -> bool {
        let runs = trace_for(tr, self.node_at(i));
        &&& runs.len() <= self.cmd_count(i)
        &&& runs.len() > 0 ==> self.cmds_at(i) is Some
        &&& forall|j: int|
            0 <= j < runs.len() ==> #[trigger] self.run_matches(i, j, runs[j].1@)
    }

    /// Equal run lists satisfy the same order property.
    proof fn lemma_runs_same(self, tr1: Seq<(Thing, String)>, tr2: Seq<(Thing, String)>, i: int)
        requires
            self.runs_in_order(tr1, i),
            trace_for(tr2, self.node_at(i)) == trace_for(tr1, self.node_at(i)),
        ensures
            self.runs_in_order(tr2, i),
    {
        let runs1 = trace_for(tr1, self.node_at(i));
        let runs2 = trace_for(tr2, self.node_at(i));
        assert forall|j: int| 0 <= j < runs2.len() implies #[trigger] self.run_matches(
            i,
            j,
            runs2[j].1@,
        ) by {
            assert(runs2[j] == runs1[j]);
            assert(self.run_matches(i, j, runs1[j].1@));
        }
    }

    /// A trace entry is honest: it names a node and carries one of that
    /// node's command templates, expanded under the node's overrides.
    pub open spec fn trace_entry_ok(self, e: (Thing, String)) -> bool {
        exists|i: int, j: int, n: nat|
            {
                &&& 0 <= i < self.node_count()
                &&& e.0@ == self.node_at(i)
                &&& self.cmds_at(i) is Some
                &&& 0 <= j < self.cmds_at(i)->Some_0.len()
                &&& expand_n(
                    self.vars_model(),
                    self.override_table(i),
                    self.cmds_at(i)->Some_0[j],
                    n,
                ) == ExpandOutcome::Done(e.1@)
            }
    }

    /// Every command of node `i` reaches a fixed point within the
    /// expander's budget.
    pub open spec fn expansions_done_at(self, i: int) -> bool {
        forall|j: int| 0 <= j < self.cmd_count(i) ==> #[trigger] self.template_settles(i, j)
    }

    /// Node `i`'s template `j` reaches a fixed point within the expander's
    /// budget.
    pub closed spec fn template_settles(self, i: int, j: int) -> bool {
        exists|n: nat|
            n <= EXPAND_LIMIT && (#[trigger] expand_n(
                self.vars_model(),
                self.override_table(i),
                self.cmds_at(i)->Some_0[j],
                n,
            )) is Done
    }

    /// Every command of every node expands within budget.
    pub open spec fn all_expansions_done(self) -> bool {
        forall|i: int| 0 <= i < self.node_count() ==> #[trigger] self.expansions_done_at(i)
    }

    /// The memoized depth-first walk from node `target`.
    ///
    /// `memmark` is the per-evaluation visited set (one slot per node) and
    /// `trace` records, in order, every command handed to `runner`: the
    /// node's identity and the materialized command text.  Dependencies are
    /// visited in last-connected-first order, each exactly once per
    /// evaluation; a revisit (diamond or cycle) returns `Done` at once, so
    /// a cycle is never an error.  The first failure anywhere — a
    /// `regener` error, a failed expansion, a `runner` returning false —
    /// cancels the whole walk.
    pub fn toposort<R: Fn(&Recipe, &String) -> bool, G: Fn(&Thing, &Thing) -> Result<
        bool,
        String,
    >>(
        &self,
        memmark: &mut Vec<bool>,
        trace: &mut Vec<(Thing, String)>,
        target: GraphIndex,
        runner: &R,
        regener: &G,
    ) -> (res: SearchResult)
        requires
            self.wf(),
            target < self.node_count(),
            old(memmark).len() == self.node_count(),
            forall|a: &Recipe, c: &String| call_requires(*runner, (a, c)),
            forall|a: &Thing, b: &Thing| call_requires(*regener, (a, b)),
        ensures
            final(memmark).len() == self.node_count(),
            forall|i: int|
                0 <= i < self.node_count() && old(memmark)[i] ==> final(memmark)[i],
            final(memmark)[target as int],
            old(trace)@.is_prefix_of(final(trace)@),
            forall|e: int|
                old(trace)@.len() <= e < final(trace)@.len() ==> self.trace_entry_ok(
                    final(trace)@[e],
                ),
            forall|i: int|
                0 <= i < self.node_count() && old(memmark)[i] ==> trace_count(
                    final(trace)@.skip(old(trace)@.len() as int),
                    self.node_at(i),
                ) == 0,
            forall|i: int|
                0 <= i < self.node_count() && !final(memmark)[i] ==> trace_count(
                    final(trace)@.skip(old(trace)@.len() as int),
                    self.node_at(i),
                ) == 0,
            forall|i: int|
                0 <= i < self.node_count() ==> trace_count(
                    final(trace)@.skip(old(trace)@.len() as int),
                    self.node_at(i),
                ) <= self.cmd_count(i),
            (forall|a: &Thing, b: &Thing, rr: Result<bool, String>|
                call_ensures(*regener, (a, b), rr) ==> rr == Result::<bool, String>::Ok(false))
                ==> forall|i: int|
                0 <= i < self.node_count() && self.deps_of(i).len() > 0 ==> trace_count(
                    final(trace)@.skip(old(trace)@.len() as int),
                    self.node_at(i),
                ) == 0,
            (res == SearchResult::Done && !old(memmark)[target as int] && self.deps_of(
                target as int,
            ).len() == 0 && self.cmds_at(target as int) is Some) ==> trace_count(
                final(trace)@.skip(old(trace)@.len() as int),
                self.node_at(target as int),
            ) == self.cmd_count(target as int),
            ((forall|a: &Recipe, c: &String, b: bool|
                call_ensures(*runner, (a, c), b) ==> b == true) && (forall|
                a: &Thing,
                b: &Thing,
                rr: Result<bool, String>,
            |
                call_ensures(*regener, (a, b), rr) ==> rr is Ok) && self.all_expansions_done())
                ==> res == SearchResult::Done,
            // A revisit is a pure no-op: nothing runs, nothing changes.
            old(memmark)[target as int] ==> res == SearchResult::Done && final(memmark)@ == old(
                memmark,
            )@ && final(trace)@ == old(trace)@,
            // Each node's recorded runs are its first templates, in order.
            forall|i: int|
                0 <= i < self.node_count() ==> #[trigger] self.runs_in_order(
                    final(trace)@.skip(old(trace)@.len() as int),
                    i,
                ),
            // A fresh leaf with no commands succeeds without consulting
            // either strategy.
            (!old(memmark)[target as int] && self.deps_of(target as int).len() == 0
                && self.cmd_count(target as int) == 0) ==> res == SearchResult::Done,
            // An always-stale staleness check makes a fresh target run all
            // of its commands, provided nothing fails.
            ((forall|a: &Thing, b: &Thing, rr: Result<bool, String>|
                call_ensures(*regener, (a, b), rr) ==> rr == Result::<bool, String>::Ok(true))
                && (forall|a: &Recipe, c: &String, b: bool|
                call_ensures(*runner, (a, c), b) ==> b == true) && self.all_expansions_done()
                && !old(memmark)[target as int]) ==> trace_count(
                final(trace)@.skip(old(trace)@.len() as int),
                self.node_at(target as int),
            ) == self.cmd_count(target as int),
            // A staleness check that always errors cancels any fresh target
            // that has a dependency.
            ((forall|a: &Thing, b: &Thing, rr: Result<bool, String>|
                call_ensures(*regener, (a, b), rr) ==> rr is Err) && !old(
                memmark,
            )[target as int] && self.deps_of(target as int).len() > 0) ==> res
                == SearchResult::Cancelled,
            // A runner that always fails cancels a fresh leaf with commands.
            ((forall|a: &Recipe, c: &String, b: bool|
                call_ensures(*runner, (a, c), b) ==> b == false) && !old(
                memmark,
            )[target as int] && self.deps_of(target as int).len() == 0 && self.cmd_count(
                target as int,
            ) > 0 && self.expansions_done_at(target as int)) ==> res == SearchResult::Cancelled,
            // A fresh leaf one of whose commands cannot be materialized is
            // cancelled, whatever the strategies.
            (!old(memmark)[target as int] && self.deps_of(target as int).len() == 0
                && self.cmds_at(target as int) is Some && !self.expansions_done_at(
                target as int,
            )) ==> res == SearchResult::Cancelled,
            // Under an always-stale check, a fresh target whose own
            // commands are due but cannot all be materialized is cancelled.
            ((forall|a: &Thing, b: &Thing, rr: Result<bool, String>|
                call_ensures(*regener, (a, b), rr) ==> rr == Result::<bool, String>::Ok(true))
                && !old(memmark)[target as int] && self.cmds_at(target as int) is Some
                && !self.expansions_done_at(target as int)) ==> res == SearchResult::Cancelled,
            // Under an always-stale check, a runner that always fails
            // cancels a fresh target with commands that materialize.
            ((forall|a: &Thing, b: &Thing, rr: Result<bool, String>|
                call_ensures(*regener, (a, b), rr) ==> rr == Result::<bool, String>::Ok(true))
                && (forall|a: &Recipe, c: &String, b: bool|
                call_ensures(*runner, (a, c), b) ==> b == false) && !old(
                memmark,
            )[target as int] && self.cmd_count(target as int) > 0 && self.expansions_done_at(
                target as int,
            )) ==> res == SearchResult::Cancelled,
        decreases count_falses(old(memmark)@),
    {
        let ghost m0 = trace@.len() as int;
        let ghost mm_entry = memmark@;
        let ghost ns = (forall|a: &Thing, b: &Thing, rr: Result<bool, String>|
            call_ensures(*regener, (a, b), rr) ==> rr == Result::<bool, String>::Ok(false));
        let ghost stale_hyp = (forall|a: &Thing, b: &Thing, rr: Result<bool, String>|
            call_ensures(*regener, (a, b), rr) ==> rr == Result::<bool, String>::Ok(true));
        let ghost err_hyp = (forall|a: &Thing, b: &Thing, rr: Result<bool, String>|
            call_ensures(*regener, (a, b), rr) ==> rr is Err);
        let ghost rf_hyp = (forall|a: &Recipe, c: &String, b: bool|
            call_ensures(*runner, (a, c), b) ==> b == false);
        proof {
            assert(trace@.skip(m0) =~= Seq::<(Thing, String)>::empty());
        }
        if memmark[target] {
            return SearchResult::Done;
        }
        memmark[target] = true;
        proof {
            lemma_count_falses_update(mm_entry, target as int);
            assert(memmark@ == mm_entry.update(target as int, true));
        }
        let thingtarget: &Thing = match self.depgraph.get(target) {
            Some(t) => t,
            None => unreached(),
        };
        let sit = match self.depgraph.successors(target) {
            Some(s) => s,
            None => unreached(),
        };
        let ghost deps = self.deps_of(target as int);
        let ndeps = sit.data.len();
        let mut regen = false;
        let mut k: usize = 0;
        while k < ndeps
            invariant
                self.wf(),
                target < self.node_count(),
                thingtarget@ == self.node_at(target as int),
                deps == self.deps_of(target as int),
                ndeps == deps.len(),
                sit.data@ == deps,
                k <= ndeps,
                mm_entry == old(memmark)@,
                m0 == old(trace)@.len(),
                memmark@.len() == self.node_count(),
                mm_entry.len() == self.node_count(),
                !mm_entry[target as int],
                memmark@[target as int],
                forall|i: int|
                    0 <= i < self.node_count() && mm_entry[i] ==> memmark@[i],
                count_falses(memmark@) < count_falses(mm_entry),
                m0 <= trace@.len(),
                old(trace)@.len() == m0,
                old(trace)@.is_prefix_of(trace@),
                forall|e: int|
                    m0 <= e < trace@.len() ==> self.trace_entry_ok(trace@[e]),
                forall|i: int|
                    0 <= i < self.node_count() && mm_entry[i] ==> trace_count(
                        trace@.skip(m0),
                        self.node_at(i),
                    ) == 0,
                forall|i: int|
                    0 <= i < self.node_count() && !memmark@[i] ==> trace_count(
                        trace@.skip(m0),
                        self.node_at(i),
                    ) == 0,
                forall|i: int|
                    0 <= i < self.node_count() ==> trace_count(trace@.skip(m0), self.node_at(i))
                        <= self.cmd_count(i),
                trace_count(trace@.skip(m0), self.node_at(target as int)) == 0,
                ns == (forall|a: &Thing, b: &Thing, rr: Result<bool, String>|
                    call_ensures(*regener, (a, b), rr) ==> rr == Result::<bool, String>::Ok(
                        false,
                    )),
                ns ==> (!regen && forall|i: int|
                    0 <= i < self.node_count() && self.deps_of(i).len() > 0 ==> trace_count(
                        trace@.skip(m0),
                        self.node_at(i),
                    ) == 0),
                stale_hyp == (forall|a: &Thing, b: &Thing, rr: Result<bool, String>|
                    call_ensures(*regener, (a, b), rr) ==> rr == Result::<bool, String>::Ok(
                        true,
                    )),
                stale_hyp ==> (k == 0 || regen),
                err_hyp == (forall|a: &Thing, b: &Thing, rr: Result<bool, String>|
                    call_ensures(*regener, (a, b), rr) ==> rr is Err),
                err_hyp ==> k == 0,
                forall|i: int|
                    0 <= i < self.node_count() ==> #[trigger] self.runs_in_order(
                        trace@.skip(m0),
                        i,
                    ),
                forall|a: &Recipe, c: &String| call_requires(*runner, (a, c)),
                forall|a: &Thing, b: &Thing| call_requires(*regener, (a, b)),
            decreases ndeps - k,
        {
            let dep = sit.data[ndeps - 1 - k];
            proof {
                assert(deps[ndeps - 1 - k] == dep);
                assert(dep < self.node_count());
            }
            let ghost mm_before = memmark@;
            let ghost tr_before = trace@;
            let sub = self.toposort(memmark, trace, dep, runner, regener);
            proof {
                lemma_count_falses_mono(mm_before, memmark@);
                assert forall|i: int|
                    0 <= i < self.node_count() implies trace_count(
                    trace@.skip(m0),
                    self.node_at(i),
                ) == trace_count(tr_before.skip(m0), self.node_at(i)) + trace_count(
                    trace@.skip(tr_before.len() as int),
                    self.node_at(i),
                ) by {
                    lemma_trace_split(tr_before, trace@, m0, self.node_at(i));
                }
                assert(old(trace)@.is_prefix_of(trace@)) by {
                    assert forall|e: int| 0 <= e < m0 implies trace@[e] == old(trace)@[e] by {
                        assert(tr_before[e] == old(trace)@[e]);
                    }
                }
                assert forall|e: int| m0 <= e < trace@.len() implies self.trace_entry_ok(
                    trace@[e],
                ) by {
                    if e < tr_before.len() {
                        assert(trace@[e] == tr_before[e]);
                    }
                }
                assert forall|i: int| 0 <= i < self.node_count() implies trace_count(
                    trace@.skip(m0),
                    self.node_at(i),
                ) <= self.cmd_count(i) by {
                    if mm_before[i] {
                        assert(trace_count(
                            trace@.skip(tr_before.len() as int),
                            self.node_at(i),
                        ) == 0);
                    } else {
                        assert(trace_count(tr_before.skip(m0), self.node_at(i)) == 0);
                    }
                }
                assert forall|i: int|
                    0 <= i < self.node_count() && mm_entry[i] implies trace_count(
                    trace@.skip(m0),
                    self.node_at(i),
                ) == 0 by {
                    assert(mm_before[i]);
                    assert(trace_count(tr_before.skip(m0), self.node_at(i)) == 0);
                    assert(trace_count(trace@.skip(tr_before.len() as int), self.node_at(i))
                        == 0);
                }
                assert forall|i: int|
                    0 <= i < self.node_count() && !memmark@[i] implies trace_count(
                    trace@.skip(m0),
                    self.node_at(i),
                ) == 0 by {
                    assert(!mm_before[i]);
                    assert(trace_count(tr_before.skip(m0), self.node_at(i)) == 0);
                    assert(trace_count(trace@.skip(tr_before.len() as int), self.node_at(i))
                        == 0);
                }
                assert(trace_count(trace@.skip(m0), self.node_at(target as int)) == 0) by {
                    assert(mm_before[target as int]);
                    assert(trace_count(
                        trace@.skip(tr_before.len() as int),
                        self.node_at(target as int),
                    ) == 0);
                }
                if ns {
                    assert forall|i: int|
                        0 <= i < self.node_count() && self.deps_of(i).len() > 0 implies
                        trace_count(trace@.skip(m0), self.node_at(i)) == 0 by {
                        assert(trace_count(tr_before.skip(m0), self.node_at(i)) == 0);
                        assert(trace_count(
                            trace@.skip(tr_before.len() as int),
                            self.node_at(i),
                        ) == 0);
                    }
                }
                assert forall|i: int|
                    0 <= i < self.node_count() implies #[trigger] self.runs_in_order(
                    trace@.skip(m0),
                    i,
                ) by {
                    lemma_trace_for_split(tr_before, trace@, m0, self.node_at(i));
                    lemma_trace_for_count(tr_before.skip(m0), self.node_at(i));
                    lemma_trace_for_count(
                        trace@.skip(tr_before.len() as int),
                        self.node_at(i),
                    );
                    if mm_before[i] {
                        assert(trace_count(
                            trace@.skip(tr_before.len() as int),
                            self.node_at(i),
                        ) == 0);
                        assert(trace_for(trace@.skip(m0), self.node_at(i)) =~= trace_for(
                            tr_before.skip(m0),
                            self.node_at(i),
                        ));
                        assert(self.runs_in_order(tr_before.skip(m0), i));
                        self.lemma_runs_same(tr_before.skip(m0), trace@.skip(m0), i);
                    } else {
                        assert(trace_count(tr_before.skip(m0), self.node_at(i)) == 0);
                        assert(trace_for(trace@.skip(m0), self.node_at(i)) =~= trace_for(
                            trace@.skip(tr_before.len() as int),
                            self.node_at(i),
                        ));
                        assert(self.runs_in_order(trace@.skip(tr_before.len() as int), i));
                        self.lemma_runs_same(
                            trace@.skip(tr_before.len() as int),
                            trace@.skip(m0),
                            i,
                        );
                    }
                }
            }
            match sub {
                SearchResult::Cancelled => {
                    return SearchResult::Cancelled;
                },
                SearchResult::Done => {},
            }
            let thingdep: &Thing = match self.depgraph.get(dep) {
                Some(t) => t,
                None => unreached(),
            };
            let verdict = regener(thingtarget, thingdep);
            match verdict {
                Err(_e) => {
                    return SearchResult::Cancelled;
                },
                Ok(false) => {},
                Ok(true) => {
                    regen = true;
                },
            }
            k += 1;
        }
        if regen || ndeps == 0 {
            match &self.cmds[target] {
                None => {},
                Some(cs) => {
                    let tstr: String = match thingtarget {
                        Thing::Actual(q) => q.clone(),
                        Thing::Pseudo(q) => q.clone(),
                    };
                    let mut dstr = String::new();
                    let mut x: usize = 0;
                    proof {
                        assert(self.dep_names(target as int).len() == ndeps);
                    }
                    while x < ndeps
                        invariant
                            self.wf(),
                            target < self.node_count(),
                            deps == self.deps_of(target as int),
                            ndeps == deps.len(),
                            sit.data@ == deps,
                            x <= ndeps,
                            self.dep_names(target as int).len() == ndeps,
                            dstr@ == join_space(self.dep_names(target as int).take(x as int)),
                        decreases ndeps - x,
                    {
                        let e = sit.data[ndeps - 1 - x];
                        proof {
                            assert(deps[ndeps - 1 - x] == e);
                            assert(e < self.node_count());
                        }
                        let dthing: &Thing = match self.depgraph.get(e) {
                            Some(t) => t,
                            None => unreached(),
                        };
                        let dname: &str = match dthing {
                            Thing::Actual(q) => q.as_str(),
                            Thing::Pseudo(q) => q.as_str(),
                        };
                        proof {
                            reveal_strlit(" ");
                            assert(" "@ =~= seq![' ']);
                            assert(self.dep_names(target as int)[x as int] == dname@) by {
                                assert(self.deps_of(target as int).reverse()[x as int] == deps[
                                    ndeps - 1 - x
                                ]);
                            }
                            assert(self.dep_names(target as int).take(x + 1).drop_last() =~= self
                                .dep_names(target as int).take(x as int));
                            assert(self.dep_names(target as int).take(x + 1) =~= self.dep_names(
                                target as int,
                            ).take(x as int).push(dname@));
                            lemma_join_push(
                                self.dep_names(target as int).take(x as int),
                                dname@,
                            );
                        }
                        if x > 0 {
                            dstr.append(" ");
                        }
                        dstr.append(dname);
                        x += 1;
                    }
                    proof {
                        assert(self.dep_names(target as int).take(ndeps as int) =~= self.dep_names(
                            target as int,
                        ));
                        assert(dstr@ == join_space(self.dep_names(target as int)));
                    }
                    let mut ov: Vec<(String, String)> = Vec::new();
                    ov.push((String::from_str("TARGET"), tstr));
                    ov.push((String::from_str("DEPS"), dstr));
                    proof {
                        assert(table_view(ov@) =~= self.override_table(target as int));
                    }
                    let ghost tr_mid = trace@;
                    proof {
                        lemma_trace_for_count(tr_mid.skip(m0), self.node_at(target as int));
                        assert(trace_for(tr_mid.skip(m0), self.node_at(target as int)) =~= Seq::<
                            (Thing, String),
                        >::empty());
                    }
                    let ncmds = cs.len();
                    let mut j: usize = 0;
                    while j < ncmds
                        invariant
                            self.wf(),
                            target < self.node_count(),
                            thingtarget@ == self.node_at(target as int),
                            deps == self.deps_of(target as int),
                            ndeps == deps.len(),
                            self.cmds_at(target as int) is Some,
                            cs@.map_values(|c: String| c@) == self.cmds_at(target as int)->Some_0,
                            ncmds == cs@.len(),
                            j <= ncmds,
                            ncmds == self.cmd_count(target as int),
                            table_view(ov@) == self.override_table(target as int),
                            mm_entry == old(memmark)@,
                            memmark@.len() == self.node_count(),
                            mm_entry.len() == self.node_count(),
                            !mm_entry[target as int],
                            memmark@[target as int],
                            forall|i: int|
                                0 <= i < self.node_count() && mm_entry[i] ==> memmark@[i],
                            m0 <= tr_mid.len(),
                            old(trace)@.len() == m0,
                            old(trace)@.is_prefix_of(tr_mid),
                            tr_mid.is_prefix_of(trace@),
                            old(trace)@.is_prefix_of(trace@),
                            trace@.len() == tr_mid.len() + j,
                            forall|e: int|
                                m0 <= e < trace@.len() ==> self.trace_entry_ok(trace@[e]),
                            forall|i: int|
                                0 <= i < self.node_count() && i != target ==> trace_count(
                                    trace@.skip(m0),
                                    self.node_at(i),
                                ) == trace_count(tr_mid.skip(m0), self.node_at(i)),
                            forall|i: int|
                                0 <= i < self.node_count() && mm_entry[i] ==> trace_count(
                                    tr_mid.skip(m0),
                                    self.node_at(i),
                                ) == 0,
                            forall|i: int|
                                0 <= i < self.node_count() && !memmark@[i] ==> trace_count(
                                    tr_mid.skip(m0),
                                    self.node_at(i),
                                ) == 0,
                            forall|i: int|
                                0 <= i < self.node_count() ==> trace_count(
                                    tr_mid.skip(m0),
                                    self.node_at(i),
                                ) <= self.cmd_count(i),
                            trace_count(tr_mid.skip(m0), self.node_at(target as int)) == 0,
                            trace_count(trace@.skip(m0), self.node_at(target as int)) == j,
                            trace_for(trace@.skip(m0), self.node_at(target as int)).len() == j,
                            forall|j2: int|
                                0 <= j2 < j ==> #[trigger] self.run_matches(
                                    target as int,
                                    j2,
                                    trace_for(
                                        trace@.skip(m0),
                                        self.node_at(target as int),
                                    )[j2].1@,
                                ),
                            forall|i: int|
                                0 <= i < self.node_count() && i != target ==> trace_for(
                                    trace@.skip(m0),
                                    self.node_at(i),
                                ) == trace_for(tr_mid.skip(m0), self.node_at(i)),
                            forall|i: int|
                                0 <= i < self.node_count() ==> #[trigger] self.runs_in_order(
                                    trace@.skip(m0),
                                    i,
                                ),
                            rf_hyp == (forall|a: &Recipe, c: &String, b: bool|
                                call_ensures(*runner, (a, c), b) ==> b == false),
                            rf_hyp ==> j == 0,
                            ns == (forall|a: &Thing, b: &Thing, rr: Result<bool, String>|
                                call_ensures(*regener, (a, b), rr) ==> rr == Result::<
                                    bool,
                                    String,
                                >::Ok(false)),
                            ns ==> ndeps == 0,
                            ns ==> forall|i: int|
                                0 <= i < self.node_count() && self.deps_of(i).len() > 0
                                    ==> trace_count(trace@.skip(m0), self.node_at(i)) == 0,
                            forall|a: &Recipe, c: &String| call_requires(*runner, (a, c)),
                        decreases ncmds - j,
                    {
                        let ghost tr_prev = trace@;
                        let ghost g = self.vars_model();
                        let ghost ovv = self.override_table(target as int);
                        let ghost tmpl = self.cmds_at(target as int)->Some_0[j as int];
                        let ecmd = match self.expand_vars(Some(&ov), cs[j].as_str()) {
                            Ok(e) => e,
                            Err(_e) => {
                                proof {
                                    if self.all_expansions_done() {
                                        assert(self.expansions_done_at(target as int));
                                        assert(self.template_settles(target as int, j as int));
                                        assert(tmpl == cs@[j as int]@);
                                        assert(tmpl == self.cmds_at(target as int)->Some_0[
                                            j as int
                                        ]);
                                        let n1 = choose|n: nat|
                                            n <= EXPAND_LIMIT && (#[trigger] expand_n(
                                                self.vars_model(),
                                                self.override_table(target as int),
                                                self.cmds_at(target as int)->Some_0[j as int],
                                                n,
                                            )) is Done;
                                        assert(expand_n(g, ovv, tmpl, n1) is Done);
                                        if exists|n: nat| #[trigger] expand_n(
                                            g,
                                            ovv,
                                            tmpl,
                                            n,
                                        ) is Fail {
                                            let n2 = choose|n: nat| #[trigger] expand_n(
                                                g,
                                                ovv,
                                                tmpl,
                                                n,
                                            ) is Fail;
                                            if n1 <= n2 {
                                                lemma_expand_determined(g, ovv, tmpl, n1, n2);
                                            } else {
                                                lemma_expand_determined(g, ovv, tmpl, n2, n1);
                                            }
                                            assert(false);
                                        } else {
                                            assert(expand_n(g, ovv, tmpl, EXPAND_LIMIT as nat)
                                                == ExpandOutcome::More);
                                            lemma_expand_determined(
                                                g,
                                                ovv,
                                                tmpl,
                                                n1,
                                                EXPAND_LIMIT as nat,
                                            );
                                            assert(false);
                                        }
                                    }
                                }
                                return SearchResult::Cancelled;
                            },
                        };
                        trace.push((thingtarget.clone(), ecmd.clone()));
                        proof {
                            assert(trace@.drop_last() =~= tr_prev);
                            assert(trace@.last().0@ == self.node_at(target as int));
                            assert(self.trace_entry_ok(trace@[trace@.len() - 1]));
                            assert forall|i: int|
                                0 <= i < self.node_count() implies trace_count(
                                trace@.skip(m0),
                                self.node_at(i),
                            ) == trace_count(tr_prev.skip(m0), self.node_at(i)) + (
                            if self.node_at(i) == self.node_at(target as int) {
                                1nat
                            } else {
                                0nat
                            }) by {
                                assert(trace@.skip(m0).drop_last() =~= tr_prev.skip(m0));
                                assert(trace@.skip(m0).last() == trace@.last());
                            }
                            assert forall|e: int| 0 <= e < tr_prev.len() implies trace@[e]
                                == tr_prev[e] by {}
                            // The new entry extends the target's run list by
                            // exactly the expansion of template `j`.
                            assert(trace@.skip(m0).drop_last() =~= tr_prev.skip(m0));
                            assert(trace@.skip(m0).last() == trace@.last());
                            assert(trace_for(trace@.skip(m0), self.node_at(target as int))
                                == trace_for(
                                tr_prev.skip(m0),
                                self.node_at(target as int),
                            ).push(trace@.last()));
                            assert forall|i: int|
                                0 <= i < self.node_count() && i != target implies trace_for(
                                trace@.skip(m0),
                                self.node_at(i),
                            ) == trace_for(tr_prev.skip(m0), self.node_at(i)) by {
                                assert(self.node_at(i) != self.node_at(target as int));
                            }
                            let tgt_runs = trace_for(
                                trace@.skip(m0),
                                self.node_at(target as int),
                            );
                            let prev_runs = trace_for(
                                tr_prev.skip(m0),
                                self.node_at(target as int),
                            );
                            assert(tgt_runs == prev_runs.push(trace@.last()));
                            assert(trace@.last().1@ == ecmd@);
                            // The freshly pushed entry is the expansion of
                            // template `j`; earlier entries are untouched.
                            assert(self.cmds_at(target as int)->Some_0[j as int] == cs@[
                                j as int
                            ]@);
                            assert(self.run_matches(target as int, j as int, ecmd@)) by {
                                let nw = choose|n: nat|
                                    n <= EXPAND_LIMIT && #[trigger] expand_n(
                                        self.vars_model(),
                                        table_view(ov@),
                                        cs@[j as int]@,
                                        n,
                                    ) == ExpandOutcome::Done(ecmd@);
                                assert(nw <= EXPAND_LIMIT && expand_n(
                                    self.vars_model(),
                                    self.override_table(target as int),
                                    self.cmds_at(target as int)->Some_0[j as int],
                                    nw,
                                ) == ExpandOutcome::Done(ecmd@));
                            }
                            assert forall|j2: int|
                                0 <= j2 < j + 1 implies #[trigger] self.run_matches(
                                target as int,
                                j2,
                                tgt_runs[j2].1@,
                            ) by {
                                if j2 < j {
                                    assert(tgt_runs[j2] == prev_runs[j2]);
                                    assert(self.run_matches(
                                        target as int,
                                        j2,
                                        prev_runs[j2].1@,
                                    ));
                                } else {
                                    assert(tgt_runs[j2] == trace@.last());
                                }
                            }
                            assert forall|i: int|
                                0 <= i < self.node_count() implies #[trigger] self.runs_in_order(
                                trace@.skip(m0),
                                i,
                            ) by {
                                if i == target {
                                    assert(trace_for(
                                        trace@.skip(m0),
                                        self.node_at(target as int),
                                    ).len() == j + 1);
                                } else {
                                    assert(trace_for(trace@.skip(m0), self.node_at(i))
                                        == trace_for(tr_prev.skip(m0), self.node_at(i)));
                                    assert(self.runs_in_order(tr_prev.skip(m0), i));
                                    self.lemma_runs_same(
                                        tr_prev.skip(m0),
                                        trace@.skip(m0),
                                        i,
                                    );
                                }
                            }
                        }
                        if !runner(self, &ecmd) {
                            return SearchResult::Cancelled;
                        }
                        j += 1;
                    }
                    proof {
                        // Every template ran, so every template expands
                        // within budget.
                        assert forall|j2: int|
                            0 <= j2 < self.cmd_count(target as int) implies #[trigger] self.template_settles(
                            target as int,
                            j2,
                        ) by {
                            assert(self.run_matches(
                                target as int,
                                j2,
                                trace_for(
                                    trace@.skip(m0),
                                    self.node_at(target as int),
                                )[j2].1@,
                            ));
                            let nw = choose|n: nat|
                                n <= EXPAND_LIMIT && #[trigger] expand_n(
                                    self.vars_model(),
                                    self.override_table(target as int),
                                    self.cmds_at(target as int)->Some_0[j2],
                                    n,
                                ) == ExpandOutcome::Done(
                                    trace_for(
                                        trace@.skip(m0),
                                        self.node_at(target as int),
                                    )[j2].1@,
                                );
                            assert(nw <= EXPAND_LIMIT && expand_n(
                                self.vars_model(),
                                self.override_table(target as int),
                                self.cmds_at(target as int)->Some_0[j2],
                                nw,
                            ) is Done);
                        }
                        assert(self.expansions_done_at(target as int));
                    }
                },
            }
        }
        SearchResult::Done
    }

    /// Evaluates `thing`: walks its dependency graph depth-first with a
    /// fresh visited set, asking `regener` which dependencies make a target
    /// stale and handing each materialized command to `runner`.
    ///
    /// Looking up an unknown identity is a programming error, not a normal
    /// outcome: the precondition rejects it statically, so the library
    /// surfaces no runtime error for it, and unverified callers must check
    /// [`Recipe::rule_exists`] first (as the companion application does).
    /// The full command-by-command account of a walk, including which
    /// templates ran and in what order, is the contract of
    /// [`Recipe::toposort`], which this entry calls with a fresh visited
    /// set and an empty trace.
    pub fn evaluate<R: Fn(&Recipe, &String) -> bool, G: Fn(&Thing, &Thing) -> Result<
        bool,
        String,
    >>(&self, thing: &Thing, runner: R, regener: G) -> (res: SearchResult)
        requires
            self.wf(),
            self.known(thing@),
            forall|a: &Recipe, c: &String| call_requires(runner, (a, c)),
            forall|a: &Thing, b: &Thing| call_requires(regener, (a, b)),
        ensures
            ((forall|a: &Recipe, c: &String, b: bool|
                call_ensures(runner, (a, c), b) ==> b == true) && (forall|
                a: &Thing,
                b: &Thing,
                rr: Result<bool, String>,
            |
                call_ensures(regener, (a, b), rr) ==> rr is Ok) && self.all_expansions_done())
                ==> res == SearchResult::Done,
            // A root with no dependencies and nothing to run succeeds
            // without consulting either strategy.
            (self.deps_of(self.index_of(thing@)).len() == 0 && self.cmd_count(
                self.index_of(thing@),
            ) == 0) ==> res == SearchResult::Done,
            // A staleness check that always errors cancels a root that has
            // a dependency.
            ((forall|a: &Thing, b: &Thing, rr: Result<bool, String>|
                call_ensures(regener, (a, b), rr) ==> rr is Err) && self.deps_of(
                self.index_of(thing@),
            ).len() > 0) ==> res == SearchResult::Cancelled,
            // A runner that always fails cancels a leaf root whose commands
            // all materialize.
            ((forall|a: &Recipe, c: &String, b: bool|
                call_ensures(runner, (a, c), b) ==> b == false) && self.deps_of(
                self.index_of(thing@),
            ).len() == 0 && self.cmd_count(self.index_of(thing@)) > 0 && self.expansions_done_at(
                self.index_of(thing@),
            )) ==> res == SearchResult::Cancelled,
            // A leaf root one of whose commands cannot be materialized is
            // cancelled, whatever the strategies.
            (self.deps_of(self.index_of(thing@)).len() == 0 && self.cmds_at(
                self.index_of(thing@),
            ) is Some && !self.expansions_done_at(self.index_of(thing@))) ==> res
                == SearchResult::Cancelled,
            // Under an always-stale check, a root whose own commands are
            // due but cannot all be materialized is cancelled.
            ((forall|a: &Thing, b: &Thing, rr: Result<bool, String>|
                call_ensures(regener, (a, b), rr) ==> rr == Result::<bool, String>::Ok(true))
                && self.cmds_at(self.index_of(thing@)) is Some && !self.expansions_done_at(
                self.index_of(thing@),
            )) ==> res == SearchResult::Cancelled,
            // Under an always-stale check, a runner that always fails
            // cancels a root with commands that materialize.
            ((forall|a: &Thing, b: &Thing, rr: Result<bool, String>|
                call_ensures(regener, (a, b), rr) ==> rr == Result::<bool, String>::Ok(true))
                && (forall|a: &Recipe, c: &String, b: bool|
                call_ensures(runner, (a, c), b) ==> b == false) && self.cmd_count(
                self.index_of(thing@),
            ) > 0 && self.expansions_done_at(self.index_of(thing@))) ==> res
                == SearchResult::Cancelled,
    {
        let ti = match self.find_node(thing) {
            Some(i) => i,
            None => unreached(),
        };
        let n = self.depgraph.len_nodes();
        let mut mm: Vec<bool> = Vec::new();
        while mm.len() < n
            invariant
                mm@.len() <= n,
                n == self.node_count(),
                forall|x: int| 0 <= x < mm@.len() ==> !mm@[x],
            decreases n - mm@.len(),
        {
            mm.push(false);
        }
        let mut tr: Vec<(Thing, String)> = Vec::new();
        self.toposort(&mut mm, &mut tr, ti, &runner, &regener)
    }
}

/// The number of `false` slots: how many nodes an evaluation may still
/// visit.  The termination measure of [`Recipe::toposort`].
pub open spec fn count_falses(s: Seq<bool>) -> nat
    decreases s.len(),
{
    if s.len() == 0 {
        0
    } else {
        (if s[0] {
            0nat
        } else {
            1nat
        }) + count_falses(s.drop_first())
    }
}

/// Marking more slots can only shrink the measure.
proof fn lemma_count_falses_mono(a: Seq<bool>, b: Seq<bool>)
    requires
        a.len() == b.len(),
        forall|i: int| 0 <= i < a.len() && a[i] ==> b[i],
    ensures
        count_falses(b) <= count_falses(a),
    decreases a.len(),
{
    if a.len() > 0 {
        assert forall|i: int| 0 <= i < a.drop_first().len() && a.drop_first()[i] implies
            b.drop_first()[i] by {
            assert(a[i + 1] ==> b[i + 1]);
        }
        lemma_count_falses_mono(a.drop_first(), b.drop_first());
    }
}

/// Marking one unmarked slot shrinks the measure by exactly one.
proof fn lemma_count_falses_update(a: Seq<bool>, i: int)
    requires
        0 <= i < a.len(),
        !a[i],
    ensures
        count_falses(a.update(i, true)) == count_falses(a) - 1,
    decreases a.len(),
{
    let b = a.update(i, true);
    if i == 0 {
        assert(b.drop_first() =~= a.drop_first());
    } else {
        assert(b.drop_first() =~= a.drop_first().update(i - 1, true));
        lemma_count_falses_update(a.drop_first(), i - 1);
    }
}

/// How many entries of an execution trace belong to identity `t`.
pub open spec fn trace_count(tr: Seq<(Thing, String)>, t: ThingView) -> nat
    decreases tr.len(),
{
    if tr.len() == 0 {
        0
    } else {
        trace_count(tr.drop_last(), t) + (if tr.last().0@ == t {
            1nat
        } else {
            0nat
        })
    }
}

proof fn lemma_trace_count_concat(x: Seq<(Thing, String)>, y: Seq<(Thing, String)>, t: ThingView)
    ensures
        trace_count(x + y, t) == trace_count(x, t) + trace_count(y, t),
    decreases y.len(),
{
    if y.len() == 0 {
        assert(x + y =~= x);
    } else {
        assert((x + y).drop_last() =~= x + y.drop_last());
        assert((x + y).last() == y.last());
        lemma_trace_count_concat(x, y.drop_last(), t);
    }
}

/// The trace entries that belong to identity `t`, in order.
pub open spec fn trace_for(tr: Seq<(Thing, String)>, t: ThingView) -> Seq<(Thing, String)>
    decreases tr.len(),
{
    if tr.len() == 0 {
        Seq::empty()
    } else if tr.last().0@ == t {
        trace_for(tr.drop_last(), t).push(tr.last())
    } else {
        trace_for(tr.drop_last(), t)
    }
}

proof fn lemma_trace_for_count(tr: Seq<(Thing, String)>, t: ThingView)
    ensures
        trace_for(tr, t).len() == trace_count(tr, t),
    decreases tr.len(),
{
    if tr.len() > 0 {
        lemma_trace_for_count(tr.drop_last(), t);
    }
}

proof fn lemma_trace_for_concat(x: Seq<(Thing, String)>, y: Seq<(Thing, String)>, t: ThingView)
    ensures
        trace_for(x + y, t) == trace_for(x, t) + trace_for(y, t),
    decreases y.len(),
{
    if y.len() == 0 {
        assert(x + y =~= x);
        assert(trace_for(x, t) + trace_for(y, t) =~= trace_for(x, t));
    } else {
        assert((x + y).drop_last() =~= x + y.drop_last());
        assert((x + y).last() == y.last());
        lemma_trace_for_concat(x, y.drop_last(), t);
        if y.last().0@ == t {
            assert(trace_for(x, t) + trace_for(y, t) =~= (trace_for(x, t) + trace_for(
                y.drop_last(),
                t,
            )).push(y.last()));
        }
    }
}

/// Filtering a tail of `b` splits at the end of its prefix `a`.
proof fn lemma_trace_for_split(
    a: Seq<(Thing, String)>,
    b: Seq<(Thing, String)>,
    m: int,
    t: ThingView,
)
    requires
        0 <= m <= a.len(),
        a.is_prefix_of(b),
    ensures
        trace_for(b.skip(m), t) == trace_for(a.skip(m), t) + trace_for(b.skip(a.len() as int), t),
{
    assert(b.skip(m) =~= a.skip(m) + b.skip(a.len() as int));
    lemma_trace_for_concat(a.skip(m), b.skip(a.len() as int), t);
}

/// Counting a tail of `b` splits at the end of its prefix `a`.
proof fn lemma_trace_split(a: Seq<(Thing, String)>, b: Seq<(Thing, String)>, m: int, t: ThingView)
    requires
        0 <= m <= a.len(),
        a.is_prefix_of(b),
    ensures
        trace_count(b.skip(m), t) == trace_count(a.skip(m), t) + trace_count(
            b.skip(a.len() as int),
            t,
        ),
{
    assert(b.skip(m) =~= a.skip(m) + b.skip(a.len() as int));
    lemma_trace_count_concat(a.skip(m), b.skip(a.len() as int), t);
}

/// The parts joined by single spaces.
pub open spec fn join_space(parts: Seq<Seq<char>>) -> Seq<char>
    decreases parts.len(),
{
    if parts.len() == 0 {
        Seq::empty()
    } else if parts.len() == 1 {
        parts[0]
    } else {
        parts[0] + seq![' '] + join_space(parts.drop_first())
    }
}

proof fn lemma_join_push(parts: Seq<Seq<char>>, y: Seq<char>)
    ensures
        join_space(parts.push(y)) == (if parts.len() == 0 {
            y
        } else {
            join_space(parts) + seq![' '] + y
        }),
    decreases parts.len(),
{
    if parts.len() == 0 {
        assert(parts.push(y)[0] == y);
    } else {
        assert(parts.push(y).drop_first() =~= parts.drop_first().push(y));
        lemma_join_push(parts.drop_first(), y);
        if parts.len() == 1 {
            assert(parts.drop_first().len() == 0);
            assert(join_space(parts.push(y)) == parts[0] + seq![' '] + y);
        } else {
            assert(join_space(parts) == parts[0] + seq![' '] + join_space(parts.drop_first()));
            assert((parts[0] + seq![' '] + join_space(parts.drop_first())) + seq![' '] + y =~= parts[0]
                + seq![' '] + (join_space(parts.drop_first()) + seq![' '] + y));
        }
    }
}

/// Why no target queue could be built: nothing was ever declared, or
/// some requested names match no rule.
#[derive(Debug, PartialEq, Eq)]
pub enum TargetsError {
    NoDefault,
    Unknown(Vec<String>),
}

/// The error wrapper [`Recipe::set_var`] puts around an expansion failure.
pub open spec fn set_var_msg(inner: Seq<char>) -> Seq<char> {
    "Parameter expansion failed: "@ + inner
}

} // verus!
