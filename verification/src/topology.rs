//! Topological sorting: a node is handed out once everything it depends on has been.

use crate::adjacency::{
    adjacency_wf, ensure_key, find_key, key_at, keys, link, link_at, links, remove_key, unlink,
    Adjacency, Node,
};
use vstd::prelude::*;

verus! {

/// A dependency graph.
#[verifier::ext_equal]
#[verifier::reject_recursive_types(V)]
pub struct Graph<V> {
    /// The nodes that were inserted.
    pub nodes: Set<V>,
    /// The pairs of a node and one of its dependencies.
    pub edges: Set<(V, V)>,
}

impl<V> Graph<V> {
    /// The graph with a node inserted, which depends on everything in `deps`.
    pub open spec fn with(self, node: V, deps: Seq<V>) -> Graph<V> {
        Graph {
            nodes: self.nodes.insert(node),
            edges: self.edges.union(
                Set::new(|e: (V, V)| e.0 == node && deps.contains(e.1)),
            ),
        }
    }

    /// Whether `x` stands in the graph: it was inserted, or something depends on it.
    pub open spec fn mentions(self, x: V) -> bool {
        self.nodes.contains(x) || exists|n: V| self.edges.contains((n, x))
    }

    /// Whether `x` may come next when the nodes in `done` have been handed out: it has not been,
    /// and all of its dependencies have.
    pub open spec fn is_ready(self, done: Seq<V>, x: V) -> bool {
        &&& self.mentions(x)
        &&& !done.contains(x)
        &&& forall|d: V| #[trigger] self.edges.contains((x, d)) ==> done.contains(d)
    }

    /// Whether everything in the graph has been handed out.
    pub open spec fn is_finished(self, done: Seq<V>) -> bool {
        forall|x: V| #[trigger] self.mentions(x) ==> done.contains(x)
    }

    /// Whether `done` lists nodes of the graph, each once, and none before its dependencies.
    pub open spec fn is_order(self, done: Seq<V>) -> bool {
        &&& done.no_duplicates()
        &&& forall|i: int| 0 <= i < done.len() ==> self.mentions(#[trigger] done[i])
        &&& forall|i: int, d: V|
            0 <= i < done.len() && #[trigger] self.edges.contains((done[i], d)) ==> done.take(
                i,
            ).contains(d)
    }
}

/// The views of a sequence of nodes.
pub open spec fn views<T: Node>(s: Seq<T>) -> Seq<T::V> {
    Seq::new(s.len(), |i: int| s[i]@)
}

/// A dependency graph that is to be sorted.
pub struct SimpleTopoSort<T> {
    out_graph: Vec<Adjacency<T>>,
    in_graph: Vec<Adjacency<T>>,
}

impl<T: Node> View for SimpleTopoSort<T> {
    type V = Graph<T::V>;

    closed spec fn view(&self) -> Graph<T::V> {
        Graph { nodes: keys(self.out_graph@), edges: links(self.out_graph@) }
    }
}

impl<T: Node> SimpleTopoSort<T> {
    /// The two adjacency lists hold the same edges, one by the dependent node and the other by
    /// the dependency.
    pub closed spec fn wf(&self) -> bool {
        &&& adjacency_wf(self.out_graph@)
        &&& adjacency_wf(self.in_graph@)
        &&& forall|n: T::V, d: T::V|
            #![trigger links(self.out_graph@).contains((n, d))]
            #![trigger links(self.in_graph@).contains((d, n))]
            links(self.out_graph@).contains((n, d)) <==> links(self.in_graph@).contains((d, n))
        &&& forall|d: T::V| #[trigger]
            keys(self.in_graph@).contains(d) ==> exists|n: T::V|
                links(self.in_graph@).contains((d, n))
    }

    /// The empty graph.
    pub fn new() -> (r: Self)
        ensures
            r.wf(),
            r@ == (Graph { nodes: Set::<T::V>::empty(), edges: Set::<(T::V, T::V)>::empty() }),
    {
        let r = SimpleTopoSort { out_graph: Vec::new(), in_graph: Vec::new() };
        assert(r@.nodes =~= Set::empty());
        assert(r@.edges =~= Set::empty());
        r
    }

    /// Inserts a node that depends on everything in `deps`.
    pub fn insert(&mut self, node: T, deps: Vec<T>)
        requires
            old(self).wf(),
        ensures
            final(self).wf(),
            final(self)@ == old(self)@.with(node@, views(deps@)),
    {
        let _entry: usize = ensure_key(&mut self.out_graph, &node);
        let mut i: usize = 0;
        assert(self@ =~= old(self)@.with(node@, views(deps@.take(0))));
        while i < deps.len()
            invariant
                i <= deps@.len(),
                self.wf(),
                self@ == old(self)@.with(node@, views(deps@.take(i as int))),
            decreases deps@.len() - i,
        {
            let ghost before = *self;
            link(&mut self.out_graph, &node, &deps[i]);
            link(&mut self.in_graph, &deps[i], &node);
            proof {
                let dep = deps@[i as int]@;
                let head = views(deps@.take(i as int));
                let more = views(deps@.take(i + 1));
                assert(more =~= head.push(dep));
                assert forall|d: T::V| keys(self.in_graph@).contains(d) implies exists|n: T::V|
                    links(self.in_graph@).contains((d, n)) by {
                    if d == dep {
                        assert(links(self.in_graph@).contains((d, node@)));
                    } else {
                        let n = choose|n: T::V| links(before.in_graph@).contains((d, n));
                        assert(links(self.in_graph@).contains((d, n)));
                    }
                }
                assert forall|e: (T::V, T::V)| self@.edges.contains(e) <==> old(self)@.with(
                    node@,
                    more,
                ).edges.contains(e) by {
                    if more.contains(e.1) {
                        let k = choose|k: int| 0 <= k < more.len() && more[k] == e.1;
                        if k < head.len() {
                            assert(head[k] == e.1);
                        }
                    }
                    if head.contains(e.1) {
                        let k = choose|k: int| 0 <= k < head.len() && head[k] == e.1;
                        assert(more[k] == e.1);
                    }
                    assert(more[head.len() as int] == dep);
                }
                assert(self@ =~= old(self)@.with(node@, more));
            }
            i += 1;
        }
        assert(deps@.take(i as int) =~= deps@);
    }

    /// The nodes of the graph, in an order in which dependencies come first.
    pub fn into_iter(self) -> (r: SimpleTopoSortIter<T>)
        requires
            self.wf(),
        ensures
            r.wf(),
            r.graph() == self@,
            r.yielded() == Seq::<T::V>::empty(),
    {
        SimpleTopoSortIter::new(self)
    }
}

/// Hands out the nodes of a graph, dependencies first.
pub struct SimpleTopoSortIter<T: Node> {
    data: SimpleTopoSort<T>,
    zero_indegree: Vec<T>,
    graph: Ghost<Graph<T::V>>,
    yielded: Ghost<Seq<T::V>>,
}

impl<T: Node> SimpleTopoSortIter<T> {
    /// The graph that is being sorted.
    pub closed spec fn graph(&self) -> Graph<T::V> {
        self.graph@
    }

    /// The nodes handed out so far.
    pub closed spec fn yielded(&self) -> Seq<T::V> {
        self.yielded@
    }

    /// The nodes that have not been handed out.
    pub open spec fn pending(&self) -> Set<T::V> {
        Set::new(|x: T::V| self.graph().mentions(x) && !self.yielded().contains(x))
    }

    /// What is left in the adjacency lists, and what waits to be handed out, is what the graph
    /// and the nodes handed out so far say.
    pub closed spec fn wf(&self) -> bool {
        let out = self.data.out_graph@;
        let ready = views(self.zero_indegree@);
        &&& adjacency_wf(out)
        &&& adjacency_wf(self.data.in_graph@)
        &&& forall|e: (T::V, T::V)| self.graph@.edges.contains(e) ==> self.graph@.nodes.contains(e.0)
        &&& forall|n: T::V, d: T::V|
            #![trigger self.graph@.edges.contains((n, d))]
            #![trigger links(self.data.in_graph@).contains((d, n))]
            self.graph@.edges.contains((n, d)) <==> links(self.data.in_graph@).contains((d, n))
        &&& forall|n: T::V| #[trigger]
            keys(out).contains(n) <==> self.graph@.nodes.contains(n) && !self.yielded@.contains(n)
        &&& forall|n: T::V, d: T::V| #[trigger]
            links(out).contains((n, d)) <==> self.graph@.edges.contains((n, d))
                && !self.yielded@.contains(n) && !self.yielded@.contains(d)
        &&& ready.no_duplicates()
        &&& forall|x: T::V| #[trigger]
            ready.contains(x) <==> self.graph@.is_ready(self.yielded@, x)
        &&& self.graph@.is_order(self.yielded@)
        &&& self.pending().finite()
    }

    /// Starts to sort a graph.
    pub fn new(data: SimpleTopoSort<T>) -> (r: Self)
        requires
            data.wf(),
        ensures
            r.wf(),
            r.graph() == data@,
            r.yielded() == Seq::<T::V>::empty(),
    {
        let mut zero_indegree: Vec<T> = Vec::new();
        let ghost ins = data.in_graph@;
        let ghost outs = data.out_graph@;
        let mut i: usize = 0;
        while i < data.in_graph.len()
            invariant
                i <= ins.len(),
                ins == data.in_graph@,
                outs == data.out_graph@,
                adjacency_wf(ins),
                views(zero_indegree@).no_duplicates(),
                forall|x: T::V| #[trigger]
                    views(zero_indegree@).contains(x) <==> !keys(outs).contains(x) && exists|k: int|
                        0 <= k < i && key_at(ins, k, x),
            decreases ins.len() - i,
        {
            let ghost before = views(zero_indegree@);
            let ghost x = ins[i as int].node@;
            if find_key(&data.out_graph, &data.in_graph[i].node).is_none() {
                zero_indegree.push(data.in_graph[i].node.duplicate());
                assert(views(zero_indegree@) =~= before.push(x));
                proof {
                    if before.contains(x) {
                        let k = choose|k: int| 0 <= k < i && key_at(ins, k, x);
                        assert(ins[k].node@ == ins[i as int].node@);
                    }
                    lemma_push(before, x);
                }
            }
            proof {
                assert forall|y: T::V| #[trigger]
                    views(zero_indegree@).contains(y) <==> !keys(outs).contains(y) && exists|k: int|
                        0 <= k < i + 1 && key_at(ins, k, y) by {
                    assert(key_at(ins, i as int, x));
                    if exists|k: int| 0 <= k < i + 1 && key_at(ins, k, y) {
                        let k = choose|k: int| 0 <= k < i + 1 && key_at(ins, k, y);
                        assert(k < i || y == x);
                    }
                }
            }
            i += 1;
        }
        let ghost leaves = views(zero_indegree@);
        let mut j: usize = 0;
        while j < data.out_graph.len()
            invariant
                j <= outs.len(),
                outs == data.out_graph@,
                adjacency_wf(outs),
                views(zero_indegree@).no_duplicates(),
                forall|x: T::V| #[trigger] leaves.contains(x) ==> !keys(outs).contains(x),
                forall|x: T::V| #[trigger]
                    views(zero_indegree@).contains(x) <==> leaves.contains(x) || exists|k: int|
                        0 <= k < j && key_at(outs, k, x) && outs[k].peers@.len() == 0,
            decreases outs.len() - j,
        {
            let ghost before = views(zero_indegree@);
            let ghost x = outs[j as int].node@;
            assert(key_at(outs, j as int, x));
            if data.out_graph[j].peers.len() == 0 {
                zero_indegree.push(data.out_graph[j].node.duplicate());
                assert(views(zero_indegree@) =~= before.push(x));
                proof {
                    if before.contains(x) {
                        assert(keys(outs).contains(x));
                        let k = choose|k: int|
                            0 <= k < j && key_at(outs, k, x) && outs[k].peers@.len() == 0;
                        assert(outs[k].node@ == outs[j as int].node@);
                    }
                    lemma_push(before, x);
                }
            }
            proof {
                assert forall|y: T::V| #[trigger]
                    views(zero_indegree@).contains(y) <==> leaves.contains(y) || exists|k: int|
                        0 <= k < j + 1 && key_at(outs, k, y) && outs[k].peers@.len() == 0 by {
                    if exists|k: int|
                        0 <= k < j + 1 && key_at(outs, k, y) && outs[k].peers@.len() == 0 {
                        let k = choose|k: int|
                            0 <= k < j + 1 && key_at(outs, k, y) && outs[k].peers@.len() == 0;
                        assert(k < j || y == x);
                    }
                }
            }
            j += 1;
        }
        let r = SimpleTopoSortIter {
            data,
            zero_indegree,
            graph: Ghost(data@),
            yielded: Ghost(Seq::empty()),
        };
        proof {
            let g = data@;
            let ready = views(zero_indegree@);
            lemma_keys_finite(ins);
            lemma_keys_finite(outs);
            assert forall|x: T::V| #[trigger] r.pending().contains(x) implies keys(ins).union(
                keys(outs),
            ).contains(x) by {
                if !keys(outs).contains(x) {
                    let n = choose|n: T::V| g.edges.contains((n, x));
                    let e = (x, n);
                    assert(links(ins).contains(e));
                    let (a, b) = choose|a: int, b: int| link_at(ins, a, b, e.0, e.1);
                    assert(key_at(ins, a, e.0));
                }
            }
            vstd::set_lib::lemma_set_subset_finite(keys(ins).union(keys(outs)), r.pending());
            assert forall|e: (T::V, T::V)| g.edges.contains(e) implies g.nodes.contains(e.0) by {
                let (a, b) = choose|a: int, b: int| link_at(outs, a, b, e.0, e.1);
                assert(key_at(outs, a, e.0));
            }
            assert forall|x: T::V| #[trigger] ready.contains(x) <==> g.is_ready(Seq::empty(), x) by {
                if leaves.contains(x) {
                    assert(keys(ins).contains(x));
                    let n = choose|n: T::V| links(ins).contains((x, n));
                    assert(g.edges.contains((n, x)));
                    assert(g.mentions(x));
                    assert(g.is_ready(Seq::empty(), x));
                } else if ready.contains(x) {
                    let k = choose|k: int|
                        0 <= k < outs.len() && key_at(outs, k, x) && outs[k].peers@.len() == 0;
                    assert(keys(outs).contains(x));
                    assert forall|d: T::V| !g.edges.contains((x, d)) by {
                        if g.edges.contains((x, d)) {
                            let (a, b) = choose|a: int, b: int| link_at(outs, a, b, x, d);
                            assert(outs[a].node@ == outs[k].node@);
                        }
                    }
                }
                if g.is_ready(Seq::empty(), x) {
                    if keys(outs).contains(x) {
                        let k = choose|k: int| key_at(outs, k, x);
                        if outs[k].peers@.len() != 0 {
                            let e = (x, outs[k].peers@[0]@);
                            assert(link_at(outs, k, 0, e.0, e.1));
                            assert(g.edges.contains(e));
                            assert(!Seq::<T::V>::empty().contains(e.1));
                        }
                    } else {
                        let n = choose|n: T::V| g.edges.contains((n, x));
                        assert(links(ins).contains((x, n)));
                        let (a, b) = choose|a: int, b: int| link_at(ins, a, b, x, n);
                        assert(key_at(ins, a, x));
                    }
                }
            }
        }
        r
    }
}

impl<T: Node> SimpleTopoSortIter<T> {
    /// The next node: any one that has not been handed out and whose dependencies all have been.
    /// Where nothing is left the result is `None`, and where something is left but nothing is
    /// ready, an error.
    pub fn next(&mut self) -> (r: Option<Result<T, &'static str>>)
        requires
            old(self).wf(),
        ensures
            final(self).wf(),
            final(self).graph() == old(self).graph(),
            match r {
                Some(Ok(node)) => {
                    &&& old(self).graph().is_ready(old(self).yielded(), node@)
                    &&& final(self).yielded() == old(self).yielded().push(node@)
                    &&& final(self).pending().len() < old(self).pending().len()
                },
                Some(Err(message)) => {
                    &&& message@ == "Cycle detected"@
                    &&& final(self).yielded() == old(self).yielded()
                    &&& !old(self).graph().is_finished(old(self).yielded())
                    &&& forall|x: T::V| !old(self).graph().is_ready(old(self).yielded(), x)
                },
                None => {
                    &&& final(self).yielded() == old(self).yielded()
                    &&& old(self).graph().is_finished(old(self).yielded())
                },
            },
    {
        let ghost g = self.graph@;
        let ghost done = self.yielded@;
        let ghost ready = views(self.zero_indegree@);
        if self.zero_indegree.is_empty() {
            assert forall|x: T::V| !g.is_ready(done, x) by {
                assert(!ready.contains(x));
            }
            if self.data.out_graph.is_empty() {
                proof {
                    assert forall|x: T::V| #[trigger] g.mentions(x) implies done.contains(x) by {
                        if !done.contains(x) {
                            assert(!keys(self.data.out_graph@).contains(x));
                            assert(!g.nodes.contains(x));
                            assert(g.is_ready(done, x));
                        }
                    }
                }
                return None;
            }
            proof {
                let x = self.data.out_graph@[0].node@;
                assert(key_at(self.data.out_graph@, 0, x));
                assert(keys(self.data.out_graph@).contains(x));
                assert(g.mentions(x));
            }
            return Some(Err("Cycle detected"));
        }
        let popped: Option<T> = self.zero_indegree.pop();
        let node: T = popped.unwrap();
        let ghost base = views(self.zero_indegree@);
        let ghost ins = self.data.in_graph@;
        let ghost before = links(self.data.out_graph@);
        proof {
            assert(base =~= ready.drop_last());
            assert(ready.last() == node@);
            assert(ready.contains(node@));
            assert forall|x: T::V| ready.contains(x) <==> base.contains(x) || x == node@ by {
                if ready.contains(x) {
                    let k = choose|k: int| 0 <= k < ready.len() && ready[k] == x;
                    if k < base.len() {
                        assert(base[k] == x);
                    }
                }
                if base.contains(x) {
                    let k = choose|k: int| 0 <= k < base.len() && base[k] == x;
                    assert(ready[k] == x);
                }
            }
            if base.contains(node@) {
                let k = choose|k: int| 0 <= k < base.len() && base[k] == node@;
                assert(ready[k] == ready[ready.len() - 1]);
            }
        }
        let ghost mut parents: Seq<T::V> = Seq::empty();
        let entry: Option<usize> = find_key(&self.data.in_graph, &node);
        proof {
            if let Some(i) = entry {
                parents = views(ins[i as int].peers@);
                assert forall|p: T::V| parents.contains(p) <==> g.edges.contains((p, node@)) by {
                    if parents.contains(p) {
                        let k = choose|k: int| 0 <= k < parents.len() && parents[k] == p;
                        let e = (node@, p);
                        assert(link_at(ins, i as int, k, e.0, e.1));
                        assert(links(ins).contains(e));
                    }
                    if g.edges.contains((p, node@)) {
                        let e = (node@, p);
                        assert(links(ins).contains(e));
                        let (a, b) = choose|a: int, b: int| link_at(ins, a, b, e.0, e.1);
                        assert(ins[a].node@ == ins[i as int].node@);
                        assert(parents[b] == p);
                    }
                }
            } else {
                assert forall|p: T::V| parents.contains(p) <==> g.edges.contains((p, node@)) by {
                    if g.edges.contains((p, node@)) {
                        let e = (node@, p);
                        assert(links(ins).contains(e));
                        let (a, b) = choose|a: int, b: int| link_at(ins, a, b, e.0, e.1);
                        assert(key_at(ins, a, e.0));
                    }
                }
            }
            assert forall|p: T::V| parents.contains(p) implies !done.contains(p)
                && before.contains((p, node@)) by {
                if done.contains(p) {
                    let k = choose|k: int| 0 <= k < done.len() && done[k] == p;
                    assert(g.edges.contains((done[k], node@)));
                    let m = choose|m: int| 0 <= m < k && done.take(k)[m] == node@;
                    assert(done[m] == node@);
                }
            }
        }
        if let Some(i) = entry {
            let mut k: usize = 0;
            while k < self.data.in_graph[i].peers.len()
                invariant
                    self.graph@ == g,
                    self.yielded@ == done,
                    self.data.in_graph@ == ins,
                    i < ins.len(),
                    k <= ins[i as int].peers@.len(),
                    adjacency_wf(ins),
                    adjacency_wf(self.data.out_graph@),
                    parents == views(ins[i as int].peers@),
                    forall|n: T::V| #[trigger]
                        keys(self.data.out_graph@).contains(n) <==> g.nodes.contains(n)
                            && !done.contains(n),
                    forall|e: (T::V, T::V)| g.edges.contains(e) ==> g.nodes.contains(e.0),
                    forall|p: T::V| #[trigger]
                        parents.contains(p) ==> g.edges.contains((p, node@)) && !done.contains(p)
                            && before.contains((p, node@)),
                    forall|x: T::V| #[trigger]
                        base.contains(x) ==> g.is_ready(done, x),
                    !done.contains(node@),
                    forall|n: T::V, d: T::V| #[trigger]
                        links(self.data.out_graph@).contains((n, d)) <==> before.contains((n, d))
                            && !(d == node@ && parents.take(k as int).contains(n)),
                    views(self.zero_indegree@).no_duplicates(),
                    forall|x: T::V| #[trigger]
                        views(self.zero_indegree@).contains(x) <==> base.contains(x) || (
                        parents.take(k as int).contains(x) && only_link(before, x, node@)),
                decreases ins[i as int].peers@.len() - k,
            {
                let ghost out = self.data.out_graph@;
                let ghost waiting = views(self.zero_indegree@);
                let ghost p = ins[i as int].peers@[k as int]@;
                let ghost head = parents.take(k as int);
                let ghost more = parents.take(k + 1);
                proof {
                    assert(parents[k as int] == p);
                    assert(parents.contains(p));
                    assert(more =~= head.push(p));
                    lemma_push(head, p);
                    if head.contains(p) {
                        let m = choose|m: int| 0 <= m < head.len() && head[m] == p;
                        assert(ins[i as int].peers@[m]@ == ins[i as int].peers@[k as int]@);
                    }
                    if base.contains(p) {
                        assert(g.edges.contains((p, node@)));
                    }
                    assert(!waiting.contains(p));
                }
                let emptied: bool = unlink(
                    &mut self.data.out_graph,
                    &self.data.in_graph[i].peers[k],
                    &node,
                );
                proof {
                    assert forall|d: T::V| links(self.data.out_graph@).contains((p, d))
                        <==> before.contains((p, d)) && d != node@ by {
                        assert(links(out).contains((p, d)) <==> before.contains((p, d)));
                    }
                    if only_link(before, p, node@) {
                        assert forall|d: T::V| !links(self.data.out_graph@).contains((p, d)) by {}
                    } else {
                        let d = choose|d: T::V| before.contains((p, d)) && d != node@;
                        assert(links(self.data.out_graph@).contains((p, d)));
                    }
                    assert(emptied == only_link(before, p, node@));
                }
                if emptied {
                    self.zero_indegree.push(self.data.in_graph[i].peers[k].duplicate());
                    proof {
                        assert(views(self.zero_indegree@) =~= waiting.push(p));
                        lemma_push(waiting, p);
                    }
                }
                k += 1;
            }
            assert(parents.take(k as int) =~= parents);
        } else {
            assert(parents.take(0) =~= parents);
        }
        remove_key(&mut self.data.out_graph, &node);
        self.yielded = Ghost(done.push(node@));
        proof {
            let now = done.push(node@);
            let waiting = views(self.zero_indegree@);
            lemma_push(done, node@);
            assert(old(self).pending().contains(node@));
            assert(self.pending() =~= old(self).pending().remove(node@));
            assert forall|x: T::V| waiting.contains(x) <==> base.contains(x) || (parents.contains(x)
                && only_link(before, x, node@)) by {}
            assert forall|x: T::V| #[trigger] waiting.contains(x) <==> g.is_ready(now, x) by {
                if base.contains(x) {
                    assert(g.is_ready(done, x));
                    assert(g.is_ready(now, x));
                }
                if parents.contains(x) && only_link(before, x, node@) {
                    assert(g.edges.contains((x, node@)));
                    assert(g.nodes.contains(x));
                    if x == node@ {
                        assert(g.edges.contains((node@, node@)));
                    }
                    assert forall|d: T::V| #[trigger] g.edges.contains((x, d)) implies now.contains(
                        d,
                    ) by {
                        if !done.contains(d) {
                            assert(before.contains((x, d)));
                        }
                    }
                    assert(g.is_ready(now, x));
                }
                if g.is_ready(now, x) && !g.is_ready(done, x) {
                    let d = choose|d: T::V| g.edges.contains((x, d)) && !done.contains(d);
                    assert(now.contains(d));
                    assert(parents.contains(x));
                    assert forall|e: T::V| #[trigger] before.contains((x, e)) implies e == node@ by {
                        assert(g.edges.contains((x, e)));
                        assert(now.contains(e));
                    }
                    assert(only_link(before, x, node@));
                }
                if g.is_ready(now, x) && g.is_ready(done, x) {
                    assert(ready.contains(x));
                }
            }
            assert forall|n: T::V, d: T::V| #[trigger]
                links(self.data.out_graph@).contains((n, d)) <==> g.edges.contains((n, d))
                    && !now.contains(n) && !now.contains(d) by {
                if before.contains((n, d)) && d == node@ {
                    assert(g.edges.contains((n, node@)));
                    assert(parents.contains(n));
                }
            }
            assert forall|i: int, d: T::V|
                0 <= i < now.len() && #[trigger] g.edges.contains((now[i], d)) implies now.take(
                i,
            ).contains(d) by {
                if i < done.len() {
                    assert(now[i] == done[i]);
                    assert(now.take(i) =~= done.take(i));
                } else {
                    assert(now.take(i) =~= done);
                }
            }
        }
        Some(Ok(node))
    }
}

/// What has been handed out at any time is an order of nodes of the graph: each stands in it once,
/// and none before one of its dependencies.
pub proof fn law_dependencies_come_first<T: Node>(iter: SimpleTopoSortIter<T>)
    requires
        iter.wf(),
    ensures
        iter.graph().is_order(iter.yielded()),
{
}

/// Only so many nodes have not been handed out at any time, so that sorting comes to an end.
pub proof fn law_pending_is_finite<T: Node>(iter: SimpleTopoSortIter<T>)
    requires
        iter.wf(),
    ensures
        iter.pending().finite(),
{
}

/// A graph without cycles, that is one whose nodes can be ranked above their dependencies, is
/// sorted to the end: as long as something is left, something is ready.
pub proof fn law_acyclic_graph_is_never_stuck<V>(
    graph: Graph<V>,
    done: Seq<V>,
    rank: spec_fn(V) -> nat,
)
    requires
        forall|n: V, d: V| #[trigger] graph.edges.contains((n, d)) ==> rank(d) < rank(n),
        !graph.is_finished(done),
    ensures
        exists|x: V| graph.is_ready(done, x),
{
    let x = choose|x: V| #[trigger] graph.mentions(x) && !done.contains(x);
    lemma_ready_below(graph, done, rank, x);
}

proof fn lemma_ready_below<V>(graph: Graph<V>, done: Seq<V>, rank: spec_fn(V) -> nat, x: V)
    requires
        forall|n: V, d: V| #[trigger] graph.edges.contains((n, d)) ==> rank(d) < rank(n),
        graph.mentions(x),
        !done.contains(x),
    ensures
        exists|y: V| graph.is_ready(done, y),
    decreases rank(x),
{
    if !graph.is_ready(done, x) {
        let d = choose|d: V| graph.edges.contains((x, d)) && !done.contains(d);
        assert(graph.mentions(d));
        lemma_ready_below(graph, done, rank, d);
    }
}

/// Nodes that depend on one another in a cycle are never handed out: where each node of a set
/// depends on a node of the set, no order holds any of them.
pub proof fn law_cycle_is_never_handed_out<V>(graph: Graph<V>, cycle: Set<V>, done: Seq<V>)
    requires
        forall|n: V| #[trigger]
            cycle.contains(n) ==> exists|d: V|
                cycle.contains(d) && graph.edges.contains((n, d)),
        graph.is_order(done),
    ensures
        forall|n: V| cycle.contains(n) ==> !done.contains(n),
{
    assert forall|n: V| cycle.contains(n) implies !done.contains(n) by {
        if done.contains(n) {
            let i = choose|i: int| 0 <= i < done.len() && done[i] == n;
            lemma_not_at(graph, cycle, done, i);
        }
    }
}

proof fn lemma_not_at<V>(graph: Graph<V>, cycle: Set<V>, done: Seq<V>, i: int)
    requires
        forall|n: V| #[trigger]
            cycle.contains(n) ==> exists|d: V|
                cycle.contains(d) && graph.edges.contains((n, d)),
        graph.is_order(done),
        0 <= i < done.len(),
    ensures
        !cycle.contains(done[i]),
    decreases i,
{
    if cycle.contains(done[i]) {
        let d = choose|d: V| cycle.contains(d) && graph.edges.contains((done[i], d));
        let j = choose|j: int| 0 <= j < i && done.take(i)[j] == d;
        assert(done[j] == d);
        lemma_not_at(graph, cycle, done, j);
    }
}

/// Whether the node at a position of a sequence depends on the one behind it.
pub open spec fn leads_on<V>(graph: Graph<V>, path: Seq<V>, i: int) -> bool {
    graph.edges.contains((path[i], path[i + 1]))
}

/// Whether each node of a sequence depends on the one behind it.
pub open spec fn is_path<V>(graph: Graph<V>, path: Seq<V>) -> bool {
    &&& path.len() > 0
    &&& forall|i: int| 0 <= i < path.len() - 1 ==> #[trigger] leads_on(graph, path, i)
}

/// Whether a node depends, through others, on nodes that depend on one another in a cycle.
pub open spec fn reaches_cycle<V>(graph: Graph<V>, x: V) -> bool {
    exists|path: Seq<V>| #[trigger]
        is_path(graph, path) && path[0] == x && !path.no_duplicates()
}

/// In an order, each node of a path that starts in it stands before those that the path leads from.
proof fn lemma_path_descends<V>(graph: Graph<V>, done: Seq<V>, path: Seq<V>, i: int, j: int)
    requires
        graph.is_order(done),
        is_path(graph, path),
        0 <= i < j < path.len(),
        done.contains(path[i]),
    ensures
        done.contains(path[j]),
        done.index_of(path[j]) < done.index_of(path[i]),
    decreases j - i,
{
    let at = done.index_of(path[i]);
    assert(leads_on(graph, path, i));
    assert(graph.edges.contains((done[at], path[i + 1])));
    let k = choose|k: int| 0 <= k < at && done.take(at)[k] == path[i + 1];
    assert(done[k] == path[i + 1]);
    assert(done.index_of(path[i + 1]) == k);
    if i + 1 < j {
        lemma_path_descends(graph, done, path, i + 1, j);
    }
}

/// What is handed out depends on no cycle.
pub proof fn law_what_is_handed_out_reaches_no_cycle<V>(graph: Graph<V>, done: Seq<V>, x: V)
    requires
        graph.is_order(done),
        done.contains(x),
    ensures
        !reaches_cycle(graph, x),
{
    if reaches_cycle(graph, x) {
        let path = choose|path: Seq<V>| #[trigger]
            is_path(graph, path) && path[0] == x && !path.no_duplicates();
        let (i, j) = choose|i: int, j: int|
            0 <= i < path.len() && 0 <= j < path.len() && i != j && path[i] == path[j];
        let a = if i < j {
            i
        } else {
            j
        };
        let b = if i < j {
            j
        } else {
            i
        };
        if a > 0 {
            lemma_path_descends(graph, done, path, 0, a);
        }
        lemma_path_descends(graph, done, path, a, b);
    }
}

/// Where nothing is ready, a path through nodes that are left can be of any length.
proof fn lemma_path_of_stuck_nodes<V>(graph: Graph<V>, done: Seq<V>, x: V, n: nat) -> (path: Seq<V>)
    requires
        graph.mentions(x),
        !done.contains(x),
        forall|y: V| !graph.is_ready(done, y),
        n > 0,
    ensures
        path.len() == n,
        path[0] == x,
        is_path(graph, path),
        forall|i: int|
            0 <= i < path.len() ==> graph.mentions(#[trigger] path[i]) && !done.contains(path[i]),
    decreases n,
{
    if n == 1 {
        seq![x]
    } else {
        let shorter = lemma_path_of_stuck_nodes(graph, done, x, (n - 1) as nat);
        let y = shorter.last();
        assert(!graph.is_ready(done, y));
        let d = choose|d: V| graph.edges.contains((y, d)) && !done.contains(d);
        assert(graph.mentions(d));
        let path = shorter.push(d);
        assert forall|i: int| 0 <= i < path.len() - 1 implies #[trigger] leads_on(
            graph,
            path,
            i,
        ) by {
            if i < shorter.len() - 1 {
                assert(leads_on(graph, shorter, i));
                assert(shorter[i] == path[i] && shorter[i + 1] == path[i + 1]);
            }
        }
        path
    }
}

/// Where nothing is ready, what is left depends on a cycle.
proof fn lemma_stuck_nodes_reach_a_cycle<V>(graph: Graph<V>, done: Seq<V>, left: Set<V>, x: V)
    requires
        left.finite(),
        forall|y: V| #[trigger] graph.mentions(y) && !done.contains(y) ==> left.contains(y),
        graph.mentions(x),
        !done.contains(x),
        forall|y: V| !graph.is_ready(done, y),
    ensures
        reaches_cycle(graph, x),
{
    let path = lemma_path_of_stuck_nodes(graph, done, x, left.len() + 1);
    if path.no_duplicates() {
        path.unique_seq_to_set();
        assert(path.to_set().subset_of(left));
        vstd::set_lib::lemma_len_subset(path.to_set(), left);
    }
    assert(is_path(graph, path) && path[0] == x);
}

/// When sorting comes to its end, or can go no further, what has been handed out is exactly what
/// depends on no cycle.
pub proof fn law_exactly_what_reaches_no_cycle_is_handed_out<T: Node>(
    iter: SimpleTopoSortIter<T>,
    x: T::V,
)
    requires
        iter.wf(),
        forall|y: T::V| !iter.graph().is_ready(iter.yielded(), y),
    ensures
        iter.yielded().contains(x) <==> iter.graph().mentions(x) && !reaches_cycle(iter.graph(), x),
{
    let graph = iter.graph();
    let done = iter.yielded();
    law_dependencies_come_first(iter);
    if done.contains(x) {
        let i = choose|i: int| 0 <= i < done.len() && done[i] == x;
        assert(graph.mentions(done[i]));
        law_what_is_handed_out_reaches_no_cycle(graph, done, x);
    } else if graph.mentions(x) {
        law_pending_is_finite(iter);
        lemma_stuck_nodes_reach_a_cycle(graph, done, iter.pending(), x);
    }
}

proof fn lemma_keys_finite<T: Node>(s: Seq<Adjacency<T>>)
    ensures
        keys(s).finite(),
{
    let nodes = Seq::new(s.len(), |i: int| s[i].node@);
    assert forall|k: T::V| #[trigger] keys(s).contains(k) <==> nodes.to_set().contains(k) by {
        if keys(s).contains(k) {
            let i = choose|i: int| key_at(s, i, k);
            assert(nodes[i] == k);
        }
        if nodes.contains(k) {
            let i = choose|i: int| 0 <= i < nodes.len() && nodes[i] == k;
            assert(key_at(s, i, k));
        }
    }
    assert(keys(s) =~= nodes.to_set());
    vstd::seq_lib::seq_to_set_is_finite(nodes);
}

/// Whether `x` has no link but to `d`.
spec fn only_link<V>(links: Set<(V, V)>, x: V, d: V) -> bool {
    forall|e: V| #[trigger] links.contains((x, e)) ==> e == d
}

proof fn lemma_push<V>(s: Seq<V>, x: V)
    ensures
        forall|y: V| #[trigger] s.push(x).contains(y) <==> s.contains(y) || y == x,
        s.no_duplicates() && !s.contains(x) ==> s.push(x).no_duplicates(),
{
    assert(s.push(x)[s.len() as int] == x);
    assert forall|y: V| s.contains(y) implies s.push(x).contains(y) by {
        let k = choose|k: int| 0 <= k < s.len() && s[k] == y;
        assert(s.push(x)[k] == y);
    }
}

/// A node that is inserted is in the graph, and depends on what it is inserted with beside what it
/// depended on; no other node and no other dependency comes into the graph, and none goes.
pub proof fn law_insertion_adds_a_node_and_its_dependencies<V>(
    graph: Graph<V>,
    node: V,
    deps: Seq<V>,
    n: V,
    d: V,
)
    ensures
        graph.with(node, deps).nodes.contains(n) <==> graph.nodes.contains(n) || n == node,
        graph.with(node, deps).edges.contains((n, d)) <==> graph.edges.contains((n, d)) || n == node
            && exists|k: int| 0 <= k < deps.len() && #[trigger] deps[k] == d,
{
}

/// At any time, each dependency of a node that has been handed out was handed out before it, and no
/// node has been handed out twice.
pub proof fn law_each_dependency_was_handed_out_before<T: Node>(
    iter: SimpleTopoSortIter<T>,
    i: int,
    d: T::V,
)
    requires
        iter.wf(),
        0 <= i < iter.yielded().len(),
    ensures
        iter.graph().edges.contains((iter.yielded()[i], d)) ==> exists|j: int|
            0 <= j < i && #[trigger] iter.yielded()[j] == d,
        forall|j: int| 0 <= j < i ==> #[trigger] iter.yielded()[j] != iter.yielded()[i],
{
    law_dependencies_come_first(iter);
    let done = iter.yielded();
    if iter.graph().edges.contains((done[i], d)) {
        assert(done.take(i).contains(d));
        let j = choose|j: int| 0 <= j < i && done.take(i)[j] == d;
        assert(done[j] == d);
    }
}

/// A node may come next exactly if it is in the graph, or something in it depends on it, it has not
/// been handed out, and all that it depends on has been.
pub proof fn law_a_node_is_ready_once_its_dependencies_are_done<V>(
    graph: Graph<V>,
    done: Seq<V>,
    x: V,
)
    ensures
        graph.is_ready(done, x) <==> {
            &&& graph.nodes.contains(x) || exists|n: V| #[trigger] graph.edges.contains((n, x))
            &&& forall|k: int| 0 <= k < done.len() ==> #[trigger] done[k] != x
            &&& forall|d: V| #[trigger]
                graph.edges.contains((x, d)) ==> exists|k: int|
                    0 <= k < done.len() && #[trigger] done[k] == d
        },
{
    if graph.is_ready(done, x) {
        assert forall|k: int| 0 <= k < done.len() implies #[trigger] done[k] != x by {
            if done[k] == x {
                assert(done.contains(x));
            }
        }
        assert forall|d: V| #[trigger] graph.edges.contains((x, d)) implies exists|k: int|
            0 <= k < done.len() && #[trigger] done[k] == d by {
            assert(done.contains(d));
        }
    }
    if (forall|d: V| #[trigger]
        graph.edges.contains((x, d)) ==> exists|k: int|
            0 <= k < done.len() && #[trigger] done[k] == d) {
        assert forall|d: V| #[trigger] graph.edges.contains((x, d)) implies done.contains(d) by {
            let k = choose|k: int| 0 <= k < done.len() && #[trigger] done[k] == d;
            assert(done[k] == d);
        }
    }
}

/// Sorting is finished exactly if all nodes, and all that they depend on, have been handed out.
pub proof fn law_sorting_is_finished_once_all_are_done<V>(graph: Graph<V>, done: Seq<V>)
    ensures
        graph.is_finished(done) <==> {
            &&& forall|n: V| #[trigger] graph.nodes.contains(n) ==> done.contains(n)
            &&& forall|n: V, d: V| #[trigger] graph.edges.contains((n, d)) ==> done.contains(d)
        },
{
    if graph.is_finished(done) {
        assert forall|n: V| #[trigger] graph.nodes.contains(n) implies done.contains(n) by {
            assert(graph.mentions(n));
        }
        assert forall|n: V, d: V| #[trigger] graph.edges.contains((n, d)) implies done.contains(
            d,
        ) by {
            assert(graph.mentions(d));
        }
    }
}

/// Views are taken one by one.
pub proof fn law_views_are_taken_one_by_one<T: Node>(s: Seq<T>, i: int)
    ensures
        views(s).len() == s.len(),
        0 <= i < s.len() ==> views(s)[i] == s[i]@,
{
}

} // verus!
