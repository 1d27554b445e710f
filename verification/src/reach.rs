//! Structural diagnostics: the nodes reachable from a `Bdd`'s root, and
//! the connections among them.

use crate::counting::{lemma_sum_ext, lemma_sum_mono, sum_to};
use crate::manager::{Bdd, Manager};
use crate::node::{bconn_view, BConnVec, Connection, NodeId, NodeRecord};
use crate::semantics::{conn_ok, extends_seq, level_of, record_ok, store_wf};
use vstd::prelude::*;

verus! {

/// A set of node ids: a `hashbrown::HashSet` of the ids' numbers.
#[verifier::external_body]
pub struct NodeSet {
    ids: hashbrown::HashSet<usize>,
}

/// The ids a `NodeSet` holds.
pub uninterp spec fn node_set_contents(s: NodeSet) -> Set<usize>;

impl NodeSet {
    /// Calls `hashbrown::HashSet::new`: the set is empty.
    #[verifier::external_body]
    pub(crate) fn new() -> (r: NodeSet)
        ensures
            node_set_contents(r) =~= Set::empty(),
    {
        NodeSet { ids: hashbrown::HashSet::new() }
    }

    /// Calls `hashbrown::HashSet::insert`: afterwards the set holds `id`;
    /// the result tells whether it was absent before.
    #[verifier::external_body]
    pub(crate) fn insert(&mut self, id: usize) -> (r: bool)
        ensures
            node_set_contents(*final(self)) == node_set_contents(*old(self)).insert(id),
            r == !node_set_contents(*old(self)).contains(id),
    {
        self.ids.insert(id)
    }

    /// Calls `hashbrown::HashSet::len`: the number of ids held.
    #[verifier::external_body]
    pub(crate) fn len(&self) -> (r: usize)
        requires
            node_set_contents(*self).finite(),
        ensures
            r == node_set_contents(*self).len(),
    {
        self.ids.len()
    }

    /// Calls `hashbrown::HashSet::iter`, collecting the ids: each id held
    /// comes out exactly once, in an order the set leaves open.
    #[verifier::external_body]
    pub(crate) fn to_vec(&self) -> (r: Vec<usize>)
        ensures
            r@.no_duplicates(),
            r@.to_set() == node_set_contents(*self),
    {
        self.ids.iter().copied().collect()
    }
}

/// The ids reachable from node `id`: `id` itself and every node its
/// connections reach.
pub(crate) open spec fn reach(recs: Seq<NodeRecord>, id: usize) -> Set<usize>
    decreases id, 1nat, 0nat,
{
    match recs[id as int] {
        NodeRecord::Internal { a_conn, b_conns, .. } => {
            let t = a_conn.target.0;
            let below_a = if t < id {
                reach(recs, t)
            } else {
                Set::empty()
            };
            set![id].union(below_a).union(
                reach_from(recs, id, bconn_view(b_conns), bconn_view(b_conns).len()),
            )
        },
        _ => set![id],
    }
}

/// The ids reachable through the first `k` of the connections `bs` of
/// node `id`.
pub(crate) open spec fn reach_from(recs: Seq<NodeRecord>, id: usize, bs: Seq<Connection>, k: nat) -> Set<
    usize,
>
    decreases id, 0nat, k,
{
    if k == 0 {
        Set::empty()
    } else {
        let t = bs[k - 1].target.0;
        reach_from(recs, id, bs, (k - 1) as nat).union(
            if t < id {
                reach(recs, t)
            } else {
                Set::empty()
            },
        )
    }
}

/// Every id of `s` up to `bound` has all it reaches in `s`.
pub(crate) open spec fn closed_below(recs: Seq<NodeRecord>, s: Set<usize>, bound: int) -> bool {
    forall|x: usize| #[trigger] s.contains(x) && x <= bound ==> reach(recs, x).subset_of(s)
}

/// The connections of a node: its A-connection and its B-connections for
/// an internal node, none for a leaf.
pub(crate) open spec fn edges_at(r: NodeRecord) -> int {
    match r {
        NodeRecord::Internal { b_conns, .. } => 1 + bconn_view(b_conns).len() as int,
        _ => 0int,
    }
}

/// The connections of the nodes among `ids`, for ids below `n`.
pub(crate) open spec fn edge_term(recs: Seq<NodeRecord>, ids: Set<usize>) -> spec_fn(int) -> int {
    |x: int|
        if 0 <= x <= usize::MAX && ids.contains(x as usize) {
            edges_at(recs[x])
        } else {
            0int
        }
}

/// `g(v[0]) + ... + g(v[len - 1])`.
pub(crate) open spec fn seq_sum(v: Seq<usize>, g: spec_fn(int) -> int) -> int
    decreases v.len(),
{
    if v.len() == 0 {
        0
    } else {
        seq_sum(v.drop_last(), g) + g(v.last() as int)
    }
}

/// What `id` reaches is finite, holds `id`, and holds only stored ids no
/// larger than `id`.
pub(crate) proof fn lemma_reach_basic(recs: Seq<NodeRecord>, maps: Seq<Seq<usize>>, id: usize)
    requires
        store_wf(recs, maps),
        id < recs.len(),
    ensures
        reach(recs, id).finite(),
        reach(recs, id).contains(id),
        forall|x: usize| #[trigger] reach(recs, id).contains(x) ==> x <= id,
    decreases id, 1nat, 0nat,
{
    if let NodeRecord::Internal { a_conn, b_conns, .. } = recs[id as int] {
        assert(id >= 2);
        assert(record_ok(recs, maps, id as int, recs[id as int]));
        let bs = bconn_view(b_conns);
        lemma_children_below(recs, maps, id);
        lemma_reach_basic(recs, maps, a_conn.target.0);
        lemma_reach_from_basic(recs, maps, id, bs, bs.len());
    }
}

/// A longer store that keeps the first records reaches the same nodes
/// from each of them.
proof fn lemma_reach_extends(recs1: Seq<NodeRecord>, recs2: Seq<NodeRecord>, id: usize)
    requires
        extends_seq(recs1, recs2),
        id < recs1.len(),
    ensures
        reach(recs2, id) == reach(recs1, id),
    decreases id, 1nat, 0nat,
{
    assert(recs2[id as int] == recs1[id as int]);
    if let NodeRecord::Internal { a_conn, b_conns, .. } = recs1[id as int] {
        let t = a_conn.target.0;
        if t < id {
            lemma_reach_extends(recs1, recs2, t);
        }
        let bs = bconn_view(b_conns);
        lemma_reach_from_extends(recs1, recs2, id, bs, bs.len());
    }
}

proof fn lemma_reach_from_extends(
    recs1: Seq<NodeRecord>,
    recs2: Seq<NodeRecord>,
    id: usize,
    bs: Seq<Connection>,
    k: nat,
)
    requires
        extends_seq(recs1, recs2),
        id < recs1.len(),
        k <= bs.len(),
    ensures
        reach_from(recs2, id, bs, k) == reach_from(recs1, id, bs, k),
    decreases id, 0nat, k,
{
    if k > 0 {
        lemma_reach_from_extends(recs1, recs2, id, bs, (k - 1) as nat);
        let t = bs[k - 1].target.0;
        if t < id {
            lemma_reach_extends(recs1, recs2, t);
        }
    }
}

/// A node of level `k` reaches at least `k + 1` nodes: following
/// A-connections down to a leaf meets one node of each level.
pub(crate) proof fn lemma_reach_levels(recs: Seq<NodeRecord>, maps: Seq<Seq<usize>>, id: usize)
    requires
        store_wf(recs, maps),
        id < recs.len(),
    ensures
        reach(recs, id).len() >= level_of(recs[id as int]) + 1,
    decreases id,
{
    lemma_reach_basic(recs, maps, id);
    if let NodeRecord::Internal { a_conn, b_conns, .. } = recs[id as int] {
        assert(id >= 2);
        assert(record_ok(recs, maps, id as int, recs[id as int]));
        lemma_children_below(recs, maps, id);
        let c = a_conn.target.0;
        assert(level_of(recs[c as int]) + 1 == level_of(recs[id as int]));
        lemma_reach_levels(recs, maps, c);
        lemma_reach_basic(recs, maps, c);
        let below = reach(recs, c);
        assert(!below.contains(id));
        let s = below.insert(id);
        assert(s.subset_of(reach(recs, id)));
        vstd::set_lib::lemma_len_subset(s, reach(recs, id));
    } else {
        assert(reach(recs, id) =~= set![id]);
    }
}

pub(crate) proof fn lemma_reach_from_basic(
    recs: Seq<NodeRecord>,
    maps: Seq<Seq<usize>>,
    id: usize,
    bs: Seq<Connection>,
    k: nat,
)
    requires
        store_wf(recs, maps),
        id < recs.len(),
        k <= bs.len(),
        forall|q: int| 0 <= q < bs.len() ==> (#[trigger] bs[q]).target.0 < id,
    ensures
        reach_from(recs, id, bs, k).finite(),
        forall|x: usize| #[trigger] reach_from(recs, id, bs, k).contains(x) ==> x < id,
    decreases id, 0nat, k,
{
    if k > 0 {
        lemma_reach_from_basic(recs, maps, id, bs, (k - 1) as nat);
        let t = bs[k - 1].target.0;
        assert(t < id);
        lemma_reach_basic(recs, maps, t);
    }
}

/// Whatever a reachable node reaches is reachable.
pub(crate) proof fn lemma_reach_trans(recs: Seq<NodeRecord>, maps: Seq<Seq<usize>>, id: usize, x: usize)
    requires
        store_wf(recs, maps),
        id < recs.len(),
        reach(recs, id).contains(x),
    ensures
        reach(recs, x).subset_of(reach(recs, id)),
    decreases id, 1nat, 0nat,
{
    if x != id {
        if let NodeRecord::Internal { a_conn, b_conns, .. } = recs[id as int] {
            assert(id >= 2);
            assert(record_ok(recs, maps, id as int, recs[id as int]));
            let bs = bconn_view(b_conns);
            let t = a_conn.target.0;
            lemma_children_below(recs, maps, id);
            if reach(recs, t).contains(x) {
                lemma_reach_trans(recs, maps, t, x);
            } else {
                lemma_reach_from_trans(recs, maps, id, bs, bs.len(), x);
            }
        }
    }
}

proof fn lemma_reach_from_trans(
    recs: Seq<NodeRecord>,
    maps: Seq<Seq<usize>>,
    id: usize,
    bs: Seq<Connection>,
    k: nat,
    x: usize,
)
    requires
        store_wf(recs, maps),
        id < recs.len(),
        k <= bs.len(),
        forall|q: int| 0 <= q < bs.len() ==> (#[trigger] bs[q]).target.0 < id,
        reach_from(recs, id, bs, k).contains(x),
    ensures
        reach(recs, x).subset_of(reach_from(recs, id, bs, k)),
    decreases id, 0nat, k,
{
    if k > 0 {
        let t = bs[k - 1].target.0;
        assert(t < id);
        if reach(recs, t).contains(x) {
            lemma_reach_trans(recs, maps, t, x);
        } else {
            lemma_reach_from_trans(recs, maps, id, bs, (k - 1) as nat, x);
        }
    }
}

/// What the `k`-th connection of node `id` points to reaches is reached
/// by the first `n > k` connections.
proof fn lemma_reach_from_contains(
    recs: Seq<NodeRecord>,
    maps: Seq<Seq<usize>>,
    id: usize,
    bs: Seq<Connection>,
    n: nat,
    k: int,
)
    requires
        store_wf(recs, maps),
        id < recs.len(),
        n <= bs.len(),
        0 <= k < n,
        forall|q: int| 0 <= q < bs.len() ==> (#[trigger] bs[q]).target.0 < id,
    ensures
        reach_from(recs, id, bs, n).contains(bs[k].target.0),
    decreases n,
{
    if k < n - 1 {
        lemma_reach_from_contains(recs, maps, id, bs, (n - 1) as nat, k);
    } else {
        assert(bs[k].target.0 < id);
        lemma_reach_basic(recs, maps, bs[k].target.0);
    }
}

/// A set closed under connections.
pub(crate) open spec fn conn_closed(recs: Seq<NodeRecord>, s: Set<usize>) -> bool {
    forall|x: usize|
        #[trigger] s.contains(x) && x < recs.len() && recs[x as int] is Internal ==> s.contains(
            recs[x as int]->a_conn.target.0,
        ) && forall|k: int|
            0 <= k < bconn_view(recs[x as int]->b_conns).len() ==> s.contains(
                #[trigger] bconn_view(recs[x as int]->b_conns)[k].target.0,
            )
}

/// A set of ids closed under connections that holds `id` holds all that
/// `id` reaches.
proof fn lemma_reach_least(recs: Seq<NodeRecord>, maps: Seq<Seq<usize>>, s: Set<usize>, id: usize)
    requires
        store_wf(recs, maps),
        id < recs.len(),
        s.contains(id),
        conn_closed(recs, s),
    ensures
        reach(recs, id).subset_of(s),
    decreases id, 1nat, 0nat,
{
    if let NodeRecord::Internal { a_conn, b_conns, .. } = recs[id as int] {
        lemma_children_below(recs, maps, id);
        let bs = bconn_view(b_conns);
        lemma_reach_least(recs, maps, s, a_conn.target.0);
        lemma_reach_from_least(recs, maps, s, id, bs.len());
    } else {
        assert(reach(recs, id) =~= set![id]);
    }
}

proof fn lemma_reach_from_least(recs: Seq<NodeRecord>, maps: Seq<Seq<usize>>, s: Set<usize>, id: usize, k: nat)
    requires
        store_wf(recs, maps),
        id < recs.len(),
        recs[id as int] is Internal,
        k <= bconn_view(recs[id as int]->b_conns).len(),
        s.contains(id),
        conn_closed(recs, s),
    ensures
        reach_from(recs, id, bconn_view(recs[id as int]->b_conns), k).subset_of(s),
    decreases id, 0nat, k,
{
    let bs = bconn_view(recs[id as int]->b_conns);
    if k > 0 {
        lemma_children_below(recs, maps, id);
        lemma_reach_from_least(recs, maps, s, id, (k - 1) as nat);
        let t = bs[k - 1].target.0;
        assert(t < id);
        assert(s.contains(bs[k - 1].target.0));
        lemma_reach_least(recs, maps, s, t);
    }
}

/// A node's connections all point to smaller ids.
proof fn lemma_children_below(recs: Seq<NodeRecord>, maps: Seq<Seq<usize>>, id: usize)
    requires
        store_wf(recs, maps),
        id < recs.len(),
        recs[id as int] is Internal,
    ensures
        recs[id as int]->a_conn.target.0 < id,
        forall|q: int|
            0 <= q < bconn_view(recs[id as int]->b_conns).len() ==> (#[trigger] bconn_view(
                recs[id as int]->b_conns,
            )[q]).target.0 < id,
{
    assert(id >= 2);
    let r = recs[id as int];
    assert(record_ok(recs, maps, id as int, r));
    let bs = bconn_view(r->b_conns);
    assert forall|q: int| 0 <= q < bs.len() implies (#[trigger] bs[q]).target.0 < id by {
        assert(crate::semantics::bconn_ok(recs, maps, id as int, (crate::semantics::level_of(r) - 1) as nat, r->num_exits, bs[q]));
    }
}

/// Adding one id to the set adds its term to the sum over all ids.
proof fn lemma_sum_add_point(n: nat, recs: Seq<NodeRecord>, s: Set<usize>, y: usize)
    requires
        !s.contains(y),
        y < n,
    ensures
        sum_to(n, edge_term(recs, s.insert(y))) == sum_to(n, edge_term(recs, s)) + edges_at(recs[y as int]),
    decreases n,
{
    let g1 = edge_term(recs, s.insert(y));
    let g0 = edge_term(recs, s);
    if n > 0 {
        let m = (n - 1) as nat;
        if y < m {
            lemma_sum_add_point(m, recs, s, y);
            assert(g1(m as int) == g0(m as int));
        } else {
            assert forall|v: int| 0 <= v < m implies #[trigger] g1(v) == g0(v) by {}
            lemma_sum_ext(m, g1, g0);
            assert(g1(m as int) == edges_at(recs[y as int]));
            assert(g0(m as int) == 0);
        }
    }
}

/// Summing over a duplicate-free sequence of ids below `n` is summing over
/// its set of ids.
proof fn lemma_seq_sum_set(v: Seq<usize>, n: nat, recs: Seq<NodeRecord>)
    requires
        v.no_duplicates(),
        forall|t: int| 0 <= t < v.len() ==> #[trigger] v[t] < n,
    ensures
        seq_sum(v, edge_term(recs, v.to_set())) == sum_to(n, edge_term(recs, v.to_set())),
        seq_sum(v, edge_term(recs, v.to_set())) == seq_sum(v, edges_fn(recs)),
    decreases v.len(),
{
    if v.len() == 0 {
        assert(v.to_set() =~= Set::empty());
        assert forall|x: int| 0 <= x < n implies #[trigger] edge_term(recs, v.to_set())(x) == 0int by {}
        lemma_sum_zero(n, edge_term(recs, v.to_set()));
    } else {
        let w = v.drop_last();
        let y = v.last();
        assert(w.no_duplicates());
        assert forall|t: int| 0 <= t < w.len() implies #[trigger] w[t] < n by {
            assert(w[t] == v[t]);
        }
        lemma_seq_sum_set(w, n, recs);
        assert forall|a: usize| #[trigger] v.to_set().contains(a) == w.to_set().insert(y).contains(a) by {
            if v.contains(a) {
                let i = choose|i: int| 0 <= i < v.len() && v[i] == a;
                if i < w.len() {
                    assert(w[i] == a);
                }
            }
            if w.contains(a) {
                let i = choose|i: int| 0 <= i < w.len() && w[i] == a;
                assert(v[i] == a);
            }
            if a == y {
                assert(v[v.len() - 1] == y);
            }
        }
        assert(v.to_set() =~= w.to_set().insert(y));
        assert(!w.to_set().contains(y)) by {
            if w.contains(y) {
                let t = choose|t: int| 0 <= t < w.len() && w[t] == y;
                assert(v[t] == v[v.len() - 1]);
            }
        }
        lemma_sum_add_point(n, recs, w.to_set(), y);
        assert forall|t: int| 0 <= t < w.len() implies #[trigger] edge_term(recs, v.to_set())(w[t] as int)
            == edges_fn(recs)(w[t] as int) by {
            assert(w[t] == v[t]);
            assert(v.to_set().contains(v[t]));
        }
        lemma_seq_sum_terms(w, edge_term(recs, v.to_set()), edges_fn(recs));
        assert(v.to_set().contains(y));
        assert(v[v.len() - 1] == y);
    }
}

/// The connections of the node with id `x`.
pub(crate) open spec fn edges_fn(recs: Seq<NodeRecord>) -> spec_fn(int) -> int {
    |x: int| edges_at(recs[x])
}

/// Terms that agree on the entries of `v` give the same sum over `v`.
proof fn lemma_seq_sum_terms(v: Seq<usize>, g1: spec_fn(int) -> int, g2: spec_fn(int) -> int)
    requires
        forall|t: int| 0 <= t < v.len() ==> #[trigger] g1(v[t] as int) == g2(v[t] as int),
    ensures
        seq_sum(v, g1) == seq_sum(v, g2),
    decreases v.len(),
{
    if v.len() > 0 {
        let w = v.drop_last();
        assert forall|t: int| 0 <= t < w.len() implies #[trigger] g1(w[t] as int) == g2(w[t] as int) by {
            assert(w[t] == v[t]);
        }
        lemma_seq_sum_terms(w, g1, g2);
        assert(g1(v[v.len() - 1] as int) == g2(v[v.len() - 1] as int));
    }
}

/// A sum of zero terms is zero.
proof fn lemma_sum_zero(n: nat, g: spec_fn(int) -> int)
    requires
        forall|x: int| 0 <= x < n ==> #[trigger] g(x) == 0,
    ensures
        sum_to(n, g) == 0,
    decreases n,
{
    if n > 0 {
        lemma_sum_zero((n - 1) as nat, g);
        assert(g(n - 1) == 0);
    }
}

/// Prefix sums of non-negative terms stay within the whole sum.
proof fn lemma_seq_sum_prefix(v: Seq<usize>, g: spec_fn(int) -> int, t: int)
    requires
        0 <= t <= v.len(),
        forall|x: int| #[trigger] g(x) >= 0,
    ensures
        0 <= seq_sum(v.take(t), g) <= seq_sum(v, g),
    decreases v.len(),
{
    if t == v.len() {
        assert(v.take(t) =~= v);
        if v.len() > 0 {
            lemma_seq_sum_prefix(v.drop_last(), g, t - 1);
            assert(v.drop_last().take(t - 1) =~= v.drop_last());
            assert(g(v.last() as int) >= 0);
        }
    } else {
        let w = v.drop_last();
        lemma_seq_sum_prefix(w, g, t);
        assert(w.take(t) =~= v.take(t));
        assert(g(v.last() as int) >= 0);
    }
}

impl Manager {
    /// The ids of the nodes reachable from `f`'s root: the root, and every
    /// node that a connection of a reachable node points to.
    pub closed spec fn reachable(&self, f: Bdd) -> Set<usize> {
        reach(self.recs(), f.root.0)
    }

    /// The number of connections of the internal nodes among `ids`: for
    /// each, its A-connection and its B-connections.
    pub closed spec fn edges_among(&self, ids: Set<usize>) -> int {
        sum_to(self.recs().len(), edge_term(self.recs(), ids))
    }

    /// Stored node `x` is an internal node (not one of the two leaves).
    pub closed spec fn is_internal(&self, x: usize) -> bool {
        self.recs()[x as int] is Internal
    }

    /// The node that the A-connection of internal node `x` points to.
    pub closed spec fn a_target(&self, x: usize) -> usize {
        self.recs()[x as int]->a_conn.target.0
    }

    /// The number of B-connections of internal node `x`.
    pub closed spec fn b_count(&self, x: usize) -> nat {
        bconn_view(self.recs()[x as int]->b_conns).len()
    }

    /// The node that the `k`-th B-connection of internal node `x` points to.
    pub closed spec fn b_target(&self, x: usize, k: int) -> usize {
        bconn_view(self.recs()[x as int]->b_conns)[k].target.0
    }

    /// What `f` reaches is closed under connections: with each reachable
    /// internal node, the targets of its A-connection and of every one of
    /// its B-connections are reachable.
    pub proof fn lemma_reachable_closed(&self, f: Bdd)
        requires
            self.inv(),
            self.valid(f),
        ensures
            self.reachable(f).contains(f.root_index()),
            forall|x: usize| #[trigger] self.reachable(f).contains(x) && self.is_internal(x)
                ==> self.reachable(f).contains(self.a_target(x)),
            forall|x: usize, k: int| #[trigger] self.reachable(f).contains(x) && self.is_internal(x)
                && 0 <= k < self.b_count(x) ==> self.reachable(f).contains(#[trigger] self.b_target(x, k)),
    {
        self.lemma_reveal();
        let recs = self.recs();
        let maps = self.maps();
        let root = f.root.0;
        lemma_reach_basic(recs, maps, root);
        assert forall|x: usize| #[trigger] self.reachable(f).contains(x) && self.is_internal(x)
            implies self.reachable(f).contains(self.a_target(x)) by {
            lemma_reach_trans(recs, maps, root, x);
            lemma_children_below(recs, maps, x);
            lemma_reach_basic(recs, maps, self.a_target(x));
        }
        assert forall|x: usize, k: int| #[trigger] self.reachable(f).contains(x) && self.is_internal(x)
            && 0 <= k < self.b_count(x) implies self.reachable(f).contains(#[trigger] self.b_target(x, k)) by {
            lemma_reach_trans(recs, maps, root, x);
            lemma_children_below(recs, maps, x);
            let bs = bconn_view(recs[x as int]->b_conns);
            lemma_reach_from_contains(recs, maps, x, bs, bs.len(), k);
        }
    }

    /// What `f` reaches is the least set closed under connections that
    /// holds the root: every such set holds all of it.
    pub proof fn lemma_reachable_least(&self, f: Bdd, s: Set<usize>)
        requires
            self.inv(),
            self.valid(f),
            s.contains(f.root_index()),
            forall|x: usize| #[trigger] s.contains(x) && x < self.stored_nodes() && self.is_internal(x)
                ==> s.contains(self.a_target(x)),
            forall|x: usize, k: int| #[trigger] s.contains(x) && x < self.stored_nodes() && self.is_internal(x)
                && 0 <= k < self.b_count(x) ==> s.contains(#[trigger] self.b_target(x, k)),
        ensures
            self.reachable(f).subset_of(s),
    {
        self.lemma_reveal();
        let recs = self.recs();
        assert forall|x: usize|
            #[trigger] s.contains(x) && x < recs.len() && recs[x as int] is Internal implies s.contains(
                recs[x as int]->a_conn.target.0,
            ) && forall|k: int|
                0 <= k < bconn_view(recs[x as int]->b_conns).len() ==> s.contains(
                    #[trigger] bconn_view(recs[x as int]->b_conns)[k].target.0,
                ) by {
            assert(s.contains(self.a_target(x)));
            assert forall|k: int| 0 <= k < bconn_view(recs[x as int]->b_conns).len() implies s.contains(
                #[trigger] bconn_view(recs[x as int]->b_conns)[k].target.0,
            ) by {
                assert(s.contains(self.b_target(x, k)));
            }
        }
        lemma_reach_least(recs, self.maps(), s, f.root.0);
    }

    /// No ids hold no connections.
    pub proof fn lemma_edges_among_empty(&self)
        ensures
            self.edges_among(Set::empty()) == 0,
    {
        let g = edge_term(self.recs(), Set::empty());
        assert forall|x: int| 0 <= x < self.recs().len() implies #[trigger] g(x) == 0int by {}
        lemma_sum_zero(self.recs().len(), g);
    }

    /// Adding a stored node to a set of ids adds its connections: one
    /// A-connection and each of its B-connections for an internal node,
    /// none for a leaf.
    pub proof fn lemma_edges_among_insert(&self, s: Set<usize>, x: usize)
        requires
            x < self.stored_nodes(),
            !s.contains(x),
        ensures
            self.edges_among(s.insert(x)) == self.edges_among(s) + (if self.is_internal(x) {
                1 + self.b_count(x)
            } else {
                0
            }),
    {
        self.lemma_reveal();
        lemma_sum_add_point(self.recs().len(), self.recs(), s, x);
    }

    /// The reachable nodes form a finite set of stored nodes that holds
    /// the root.
    pub proof fn lemma_reachable(&self, f: Bdd)
        requires
            self.inv(),
            self.valid(f),
        ensures
            self.reachable(f).finite(),
            self.reachable(f).contains(f.root_index()),
            forall|x: usize| #[trigger] self.reachable(f).contains(x) ==> x < self.stored_nodes(),
            self.reachable(f).len() >= self.top_level() + 1,
    {
        self.lemma_reveal();
        lemma_reach_basic(self.recs(), self.maps(), f.root.0);
        lemma_reach_levels(self.recs(), self.maps(), f.root.0);
    }

    /// What a `Bdd` reaches depends on its root alone.
    pub proof fn lemma_reachable_root(&self, f: Bdd, g: Bdd)
        requires
            f.root_index() == g.root_index(),
        ensures
            self.reachable(f) == self.reachable(g),
    {
        self.lemma_reveal();
    }

    /// A later state of a manager reaches the same nodes from a `Bdd` as
    /// the state it was built in: what is added later is never reached.
    pub proof fn lemma_reachable_extends(later: Manager, earlier: Manager, f: Bdd)
        requires
            earlier.inv(),
            later.extends(earlier),
            earlier.valid(f),
        ensures
            later.reachable(f) == earlier.reachable(f),
    {
        later.lemma_reveal();
        earlier.lemma_reveal();
        lemma_reach_extends(earlier.recs(), later.recs(), f.root.0);
    }

    /// Count distinct nodes reachable from this Bdd's root, including
    /// the level-0 leaves (DontCare and Fork) when reachable.
    pub fn reachable_node_count(&self, bdd: Bdd) -> (r: usize)
        requires
            self.inv(),
            self.valid(bdd),
        ensures
            r == self.reachable(bdd).len(),
            r >= self.top_level() + 1,
    {
        proof {
            self.lemma_reveal();
            lemma_reach_basic(self.recs(), self.maps(), bdd.root.0);
            lemma_reach_levels(self.recs(), self.maps(), bdd.root.0);
        }
        let mut seen = NodeSet::new();
        self.walk(bdd.root, &mut seen);
        proof {
            assert(node_set_contents(seen) =~= reach(self.recs(), bdd.root.0));
        }
        seen.len()
    }

    /// Count edges (A-connections + B-connections) over the reachable
    /// subgraph. Each distinct internal node contributes `1 + |B-conns|`.
    /// Leaves contribute zero.
    pub fn reachable_edge_count(&self, bdd: Bdd) -> (r: usize)
        requires
            self.inv(),
            self.valid(bdd),
            self.edges_among(self.reachable(bdd)) <= usize::MAX,
        ensures
            r == self.edges_among(self.reachable(bdd)),
    {
        proof {
            self.lemma_reveal();
            lemma_reach_basic(self.recs(), self.maps(), bdd.root.0);
        }
        let ghost recs = self.recs();
        let mut seen = NodeSet::new();
        self.walk(bdd.root, &mut seen);
        let ids = seen.to_vec();
        let ghost v = ids@;
        let ghost g = edges_fn(recs);
        proof {
            assert(v.to_set() =~= reach(recs, bdd.root.0));
            assert forall|t: int| 0 <= t < v.len() implies #[trigger] v[t] < recs.len() by {
                assert(v.to_set().contains(v[t]));
            }
            lemma_seq_sum_set(v, recs.len(), recs);
            assert forall|x: int| #[trigger] g(x) >= 0 by {}
        }
        let mut total: usize = 0;
        let n = ids.len();
        let mut t: usize = 0;
        while t < n
            invariant
                n == v.len(),
                v == ids@,
                g == edges_fn(recs),
                recs == self.recs(),
                self.wf(),
                forall|x: int| #[trigger] g(x) >= 0,
                forall|q: int| 0 <= q < v.len() ==> #[trigger] v[q] < recs.len(),
                seq_sum(v, g) <= usize::MAX,
                t <= n,
                total == seq_sum(v.take(t as int), g),
            decreases n - t,
        {
            let id = ids[t];
            proof {
                lemma_seq_sum_prefix(v, g, t + 1);
                assert(v.take(t + 1).drop_last() =~= v.take(t as int));
                assert(v.take(t + 1).last() == id);
                lemma_seq_sum_prefix(v, g, t as int);
                assert(g(id as int) == edges_at(recs[id as int]));
            }
            let e: usize = match self.nodes.record(NodeId(id)) {
                NodeRecord::Internal { b_conns, .. } => 1 + b_conns.len(),
                _ => 0,
            };
            total = total + e;
            t = t + 1;
        }
        proof {
            assert(v.take(n as int) =~= v);
        }
        total
    }

    /// Visit `id` and everything it reaches, adding the ids to `seen`.
    fn walk(&self, id: NodeId, seen: &mut NodeSet)
        requires
            self.wf(),
            id.0 < self.recs().len(),
            closed_below(self.recs(), node_set_contents(*old(seen)), id.0 as int),
        ensures
            node_set_contents(*final(seen)) == node_set_contents(*old(seen)).union(reach(self.recs(), id.0)),
        decreases id.0,
    {
        let ghost recs = self.recs();
        let ghost maps = self.maps();
        let ghost s0 = node_set_contents(*seen);
        if !seen.insert(id.0) {
            proof {
                assert(reach(recs, id.0).subset_of(s0));
                assert(s0.union(reach(recs, id.0)) =~= s0);
            }
            return;
        }
        if let NodeRecord::Internal { a_conn, b_conns, .. } = self.nodes.record(id) {
            let ghost bs = bconn_view(*b_conns);
            let ghost below_a = reach(recs, a_conn.target.0);
            proof {
                lemma_children_below(recs, maps, id.0);
                assert forall|x: usize| #[trigger] node_set_contents(*seen).contains(x) && x <= id.0 - 1
                    implies reach(recs, x).subset_of(node_set_contents(*seen)) by {
                    assert(s0.contains(x));
                }
            }
            self.walk(a_conn.target, seen);
            proof {
                let s = node_set_contents(*seen);
                assert forall|x: usize| #[trigger] s.contains(x) && x <= id.0 - 1 implies reach(
                    recs,
                    x,
                ).subset_of(s) by {
                    if below_a.contains(x) {
                        lemma_reach_trans(recs, maps, a_conn.target.0, x);
                    }
                }
                assert(s =~= s0.insert(id.0).union(below_a).union(reach_from(recs, id.0, bs, 0)));
            }
            let n = b_conns.len();
            let mut k: usize = 0;
            while k < n
                invariant
                    self.wf(),
                    recs == self.recs(),
                    maps == self.maps(),
                    store_wf(recs, maps),
                    id.0 < recs.len(),
                    n == bs.len(),
                    bs == bconn_view(*b_conns),
                    forall|q: int| 0 <= q < bs.len() ==> (#[trigger] bs[q]).target.0 < id.0,
                    k <= n,
                    closed_below(recs, node_set_contents(*seen), id.0 - 1),
                    node_set_contents(*seen) == s0.insert(id.0).union(below_a).union(
                        reach_from(recs, id.0, bs, k as nat),
                    ),
                decreases n - k,
            {
                let b = b_conns.get(k);
                let ghost sk = node_set_contents(*seen);
                proof {
                    assert(b.target.0 < id.0);
                }
                self.walk(b.target, seen);
                proof {
                    let s = node_set_contents(*seen);
                    let rb = reach(recs, b.target.0);
                    assert forall|x: usize| #[trigger] s.contains(x) && x <= id.0 - 1 implies reach(
                        recs,
                        x,
                    ).subset_of(s) by {
                        if rb.contains(x) {
                            lemma_reach_trans(recs, maps, b.target.0, x);
                        } else {
                            assert(sk.contains(x));
                        }
                    }
                    assert(s =~= s0.insert(id.0).union(below_a).union(
                        reach_from(recs, id.0, bs, (k + 1) as nat),
                    ));
                }
                k = k + 1;
            }
            proof {
                assert(node_set_contents(*seen) =~= s0.union(reach(recs, id.0)));
            }
        } else {
            proof {
                assert(node_set_contents(*seen) =~= s0.union(reach(recs, id.0)));
            }
        }
    }
}

} // verus!
