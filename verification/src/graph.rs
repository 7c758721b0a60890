//! An append-only directed graph held in an arena: node payloads and
//! outgoing-edge lists addressed by dense integer indices.  Nodes and edges
//! are never removed, indices are never reused, and nothing checks for
//! duplicate edges, self-loops or cycles.

use vstd::prelude::*;

verus! {

pub type GraphIndex = usize;

#[derive(Debug)]
pub struct DAG<T> {
    data: Vec<T>,                // payload of each node
    edges: Vec<Vec<GraphIndex>>, // outgoing edges of each node
}

impl<T> DAG<T> {
    /// Number of nodes created so far.
    pub open spec fn spec_len(self) -> nat {
        self.payloads().len()
    }

    /// The payloads, in creation order.
    pub closed spec fn payloads(self) -> Seq<T> {
        self.data@
    }

    /// The outgoing-edge lists, in creation order of the source node and,
    /// within one list, in the order the edges were added.
    pub closed spec fn edge_lists(self) -> Seq<Seq<GraphIndex>> {
        self.edges@.map_values(|es: Vec<GraphIndex>| es@)
    }

    /// Every node has an edge list, and every edge endpoint is a valid index.
    pub open spec fn wf(self) -> bool {
        &&& self.edge_lists().len() == self.spec_len()
        &&& forall|i: int, j: int|
            0 <= i < self.spec_len() && 0 <= j < self.edge_lists()[i].len()
                ==> self.edge_lists()[i][j] < self.spec_len()
    }

    pub fn new() -> (d: DAG<T>)
        ensures
            d.wf(),
            d.spec_len() == 0,
            d.payloads() =~= Seq::<T>::empty(),
    {
        DAG { data: Vec::new(), edges: Vec::new() }
    }

    /// The number of nodes, as an executable value.
    pub fn len_nodes(&self) -> (n: usize)
        ensures
            n == self.spec_len(),
    {
        self.data.len()
    }

    pub fn get(&self, from: GraphIndex) -> (r: Option<&T>)
        ensures
            match r {
                Some(t) => from < self.spec_len() && *t == self.payloads()[from as int],
                None => from >= self.spec_len(),
            },
    {
        self.data.get(from)
    }

    /// Appends a node and returns its index; indices are assigned in
    /// creation order and stay stable forever.
    pub fn node(&mut self, value: T) -> (index: GraphIndex)
        requires
            old(self).wf(),
        ensures
            final(self).wf(),
            index == old(self).spec_len(),
            final(self).spec_len() == old(self).spec_len() + 1,
            final(self).payloads() == old(self).payloads().push(value),
            final(self).edge_lists() == old(self).edge_lists().push(
                Seq::<GraphIndex>::empty(),
            ),
    {
        let index = self.data.len();
        self.data.push(value);
        self.edges.push(Vec::new());
        proof {
            assert(self.edge_lists() =~= old(self).edge_lists().push(Seq::<GraphIndex>::empty()));
            assert forall|i: int, j: int|
                0 <= i < self.spec_len() && 0 <= j < self.edge_lists()[i].len() implies self.edge_lists()[i][j]
                < self.spec_len() by {
                if i < old(self).spec_len() {
                    assert(self.edge_lists()[i] == old(self).edge_lists()[i]);
                }
            }
        }
        index
    }

    /// Appends `to` to `from`'s edge list; a no-op returning `false` when
    /// either index is out of range.  Duplicates and self-loops are allowed.
    pub fn connect(&mut self, from: GraphIndex, to: GraphIndex) -> (r: bool)
        requires
            old(self).wf(),
        ensures
            final(self).wf(),
            r == (from < old(self).spec_len() && to < old(self).spec_len()),
            final(self).spec_len() == old(self).spec_len(),
            final(self).payloads() == old(self).payloads(),
            r ==> final(self).edge_lists() == old(self).edge_lists().update(
                from as int,
                old(self).edge_lists()[from as int].push(to),
            ),
            !r ==> final(self).edge_lists() == old(self).edge_lists(),
    {
        if from >= self.data.len() || to >= self.data.len() {
            return false;
        }
        let list = &mut self.edges[from];
        list.push(to);
        assert(self.edges@.map_values(|es: Vec<GraphIndex>| es@) =~= old(
            self,
        ).edges@.map_values(|es: Vec<GraphIndex>| es@).update(
            from as int,
            old(self).edges@.map_values(|es: Vec<GraphIndex>| es@)[from as int].push(to),
        ));
        true
    }

    /// The successors of `from`, handed out in last-connected-first order
    /// (the `Successors` value yields the most recently added edge first).
    pub fn successors(&self, from: GraphIndex) -> (r: Option<Successors>)
        requires
            self.wf(),
        ensures
            match r {
                Some(s) => from < self.spec_len() && s.data@ == self.edge_lists()[from as int],
                None => from >= self.spec_len(),
            },
    {
        if from >= self.data.len() {
            return None;
        }
        let mut data: Vec<GraphIndex> = Vec::new();
        let list = &self.edges[from];
        let n = list.len();
        let mut i: usize = 0;
        while i < n
            invariant
                i <= n,
                n == list@.len(),
                data@ =~= list@.take(i as int),
            decreases n - i,
        {
            data.push(list[i]);
            i += 1;
        }
        assert(data@ =~= list@);
        assert(self.edge_lists()[from as int] == list@);
        Some(Successors { data })
    }
}

impl<T> Default for DAG<T> {
    fn default() -> (d: Self)
        ensures
            d.wf(),
            d.spec_len() == 0,
    {
        Self::new()
    }
}

/// A snapshot of one node's outgoing edges, yielded back to front.
#[derive(Debug, PartialEq)]
pub struct Successors {
    pub data: Vec<GraphIndex>,
}

impl Successors {
    /// Yields the next edge, starting from the one added last.
    pub fn next(&mut self) -> (r: Option<GraphIndex>)
        ensures
            match r {
                Some(x) => old(self).data@.len() > 0 && x == old(self).data@.last()
                    && final(self).data@ =~= old(self).data@.drop_last(),
                None => old(self).data@.len() == 0 && final(self).data@ =~= old(self).data@,
            },
    {
        self.data.pop()
    }
}

} // verus!
