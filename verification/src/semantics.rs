//! The mathematical model of a CFLOBDD store.
//!
//! A store is a sequence of node records and a sequence of return-map
//! bodies. A node at level `k` reads an assignment of `2^k` booleans and
//! picks one of its exits: a leaf reads one boolean; an internal node
//! sends the left half of the assignment through its A-connection, which
//! selects a B-connection, and the right half through that B-connection,
//! whose return map names the exit.

use crate::node::{bconn_view, BConnVec, Connection, NodeId, NodeRecord};
use crate::return_map::ReturnMapId;
use vstd::arithmetic::power2::{lemma_pow2_unfold, pow2};
use vstd::prelude::*;

verus! {

/// An internal node's structure: level, exit count, A-connection and the
/// B-connections in order.
pub(crate) type NodeKey = (u8, usize, Connection, Seq<Connection>);

pub(crate) open spec fn record_key(r: NodeRecord) -> NodeKey {
    match r {
        NodeRecord::Internal { level, num_exits, a_conn, b_conns } => (
            level,
            num_exits,
            a_conn,
            bconn_view(b_conns),
        ),
        _ => (0, 0, Connection { target: NodeId(0), return_map: ReturnMapId(0) }, Seq::empty()),
    }
}

/// Both records are the same leaf, or internal records with the same key.
pub(crate) open spec fn same_record(r1: NodeRecord, r2: NodeRecord) -> bool {
    match r1 {
        NodeRecord::DontCare => r2 is DontCare,
        NodeRecord::Fork => r2 is Fork,
        NodeRecord::Internal { .. } => r2 is Internal && record_key(r1) == record_key(r2),
    }
}

pub(crate) open spec fn level_of(r: NodeRecord) -> nat {
    match r {
        NodeRecord::Internal { level, .. } => level as nat,
        _ => 0,
    }
}

pub(crate) open spec fn num_exits_of(r: NodeRecord) -> nat {
    match r {
        NodeRecord::DontCare => 1,
        NodeRecord::Fork => 2,
        NodeRecord::Internal { num_exits, .. } => num_exits as nat,
    }
}

/// The number of variables a level-`level` node reads.
pub(crate) open spec fn vars_at(level: nat) -> nat {
    pow2(level)
}

/// [0, 1, ..., n - 1].
pub open spec fn identity_seq(n: nat) -> Seq<usize> {
    Seq::new(n, |i: int| i as usize)
}

/// `s2` starts with `s1`.
pub(crate) open spec fn extends_seq<A>(s1: Seq<A>, s2: Seq<A>) -> bool {
    &&& s1.len() <= s2.len()
    &&& forall|i: int| 0 <= i < s1.len() ==> #[trigger] s2[i] == s1[i]
}

/// The exit that node `id`, read as a level-`level` node, picks on the
/// assignment `a`.
pub(crate) open spec fn exit_at(
    recs: Seq<NodeRecord>,
    maps: Seq<Seq<usize>>,
    level: nat,
    id: usize,
    a: Seq<bool>,
) -> nat
    decreases level,
{
    match recs[id as int] {
        NodeRecord::DontCare => 0,
        NodeRecord::Fork => if a[0] {
            1
        } else {
            0
        },
        NodeRecord::Internal { a_conn, b_conns, .. } => if level == 0 {
            0
        } else {
            let h = vars_at((level - 1) as nat) as int;
            let i = exit_at(recs, maps, (level - 1) as nat, a_conn.target.0, a.subrange(0, h));
            let bi = maps[a_conn.return_map.0 as int][i as int];
            let b = bconn_view(b_conns)[bi as int];
            let j = exit_at(
                recs,
                maps,
                (level - 1) as nat,
                b.target.0,
                a.subrange(h, a.len() as int),
            );
            maps[b.return_map.0 as int][j as int] as nat
        },
    }
}

/// The exit picked by an internal node at level `child_level + 1` with the
/// given A-connection and B-connections.
pub(crate) open spec fn internal_exit(
    recs: Seq<NodeRecord>,
    maps: Seq<Seq<usize>>,
    child_level: nat,
    a_conn: Connection,
    bs: Seq<Connection>,
    a: Seq<bool>,
) -> nat {
    let h = vars_at(child_level) as int;
    let i = exit_at(recs, maps, child_level, a_conn.target.0, a.subrange(0, h));
    let bi = maps[a_conn.return_map.0 as int][i as int];
    let b = bs[bi as int];
    let j = exit_at(recs, maps, child_level, b.target.0, a.subrange(h, a.len() as int));
    maps[b.return_map.0 as int][j as int] as nat
}

/// Connection `c` points below `bound` to a node at `child_level`, through
/// a stored return map with one entry per exit of the child.
pub(crate) open spec fn conn_ok(
    recs: Seq<NodeRecord>,
    maps: Seq<Seq<usize>>,
    bound: int,
    child_level: nat,
    c: Connection,
) -> bool {
    &&& c.target.0 < bound
    &&& c.target.0 < recs.len()
    &&& level_of(recs[c.target.0 as int]) == child_level
    &&& c.return_map.0 < maps.len()
    &&& maps[c.return_map.0 as int].len() == num_exits_of(recs[c.target.0 as int])
}

/// A B-connection: a connection whose return map lands in `[0, num_exits)`.
pub(crate) open spec fn bconn_ok(
    recs: Seq<NodeRecord>,
    maps: Seq<Seq<usize>>,
    bound: int,
    child_level: nat,
    num_exits: usize,
    c: Connection,
) -> bool {
    &&& conn_ok(recs, maps, bound, child_level, c)
    &&& forall|j: int|
        0 <= j < maps[c.return_map.0 as int].len() ==> #[trigger] maps[c.return_map.0 as int][j]
            < num_exits
}

/// An internal record whose children all lie below `bound`: its A-connection
/// return map is the identity onto its B-connections, and every
/// B-connection lands in its exits.
pub(crate) open spec fn record_ok(
    recs: Seq<NodeRecord>,
    maps: Seq<Seq<usize>>,
    bound: int,
    r: NodeRecord,
) -> bool {
    match r {
        NodeRecord::Internal { level, num_exits, a_conn, b_conns } => {
            let bs = bconn_view(b_conns);
            &&& level >= 1
            &&& num_exits >= 1
            &&& conn_ok(recs, maps, bound, (level - 1) as nat, a_conn)
            &&& bs.len() >= 1
            &&& maps[a_conn.return_map.0 as int] == identity_seq(bs.len())
            &&& forall|k: int|
                0 <= k < bs.len() ==> #[trigger] bconn_ok(
                    recs,
                    maps,
                    bound,
                    (level - 1) as nat,
                    num_exits,
                    bs[k],
                )
        },
        _ => false,
    }
}

/// The leaves sit at ids 0 and 1; every other record is a well-formed
/// internal node whose children have smaller ids.
pub(crate) open spec fn store_wf(recs: Seq<NodeRecord>, maps: Seq<Seq<usize>>) -> bool {
    &&& recs.len() >= 2
    &&& recs[0] is DontCare
    &&& recs[1] is Fork
    &&& forall|i: int| 2 <= i < recs.len() ==> #[trigger] record_ok(recs, maps, i, recs[i])
}

/// `id` names a stored node of level `level`.
pub(crate) open spec fn node_ok(recs: Seq<NodeRecord>, id: usize, level: nat) -> bool {
    id < recs.len() && level_of(recs[id as int]) == level
}

/// Every entry of `s` is either 0 or one more than an earlier entry: the
/// distinct values appear in increasing order, without gaps.
pub open spec fn first_seen(s: Seq<usize>) -> bool {
    forall|i: int| 0 <= i < s.len() ==> #[trigger] seen_before(s, i)
}

/// Entry `i` of `s` is 0, or one more than an entry before it.
pub open spec fn seen_before(s: Seq<usize>, i: int) -> bool {
    s[i] == 0 || exists|j: int| 0 <= j < i && #[trigger] s[j] + 1 == s[i]
}

/// `s` is a first-seen numbering onto exactly `[0, n)`.
pub open spec fn reduction_ok(s: Seq<usize>, n: nat) -> bool {
    &&& first_seen(s)
    &&& forall|i: int| 0 <= i < s.len() ==> #[trigger] s[i] < n
    &&& forall|v: int| 0 <= v < n ==> #[trigger] occurs(s, v)
}

/// `v` is an entry of `s`.
pub open spec fn occurs(s: Seq<usize>, v: int) -> bool {
    exists|i: int| 0 <= i < s.len() && #[trigger] s[i] == v
}

/// Every entry of `s` is below `n`.
pub open spec fn all_below(s: Seq<usize>, n: nat) -> bool {
    forall|i: int| 0 <= i < s.len() ==> #[trigger] s[i] < n
}

/// The entries of `s` are pairwise distinct.
/// `b` holds the entries of `s` once each, in the order they first occur,
/// and `q` gives the position in `b` of each entry of `s`.
pub open spec fn dedupes(s: Seq<usize>, b: Seq<usize>, q: Seq<usize>) -> bool {
    &&& q.len() == s.len()
    &&& reduction_ok(q, b.len())
    &&& distinct(b)
    &&& forall|i: int| 0 <= i < s.len() ==> #[trigger] b[q[i] as int] == s[i]
}

pub open spec fn distinct(s: Seq<usize>) -> bool {
    forall|i: int, j: int| 0 <= i < s.len() && 0 <= j < s.len() && i != j ==> s[i] != s[j]
}

pub(crate) proof fn lemma_vars_unfold(level: nat)
    requires
        level >= 1,
    ensures
        vars_at(level) == 2 * vars_at((level - 1) as nat),
        vars_at((level - 1) as nat) >= 1,
{
    lemma_pow2_unfold(level);
    vstd::arithmetic::power2::lemma_pow2_pos((level - 1) as nat);
}

/// Computes `2^(level - 1)`, the width of each half of a level-`level`
/// node's input.
pub(crate) fn half_width(level: u8) -> (r: u32)
    requires
        1 <= level <= 31,
    ensures
        r == vars_at((level - 1) as nat),
        2 * r == vars_at(level as nat),
        r == 1u32 << ((level - 1) as u32),
{
    let k: u32 = (level - 1) as u32;
    proof {
        vstd::bits::lemma_u32_pow2_no_overflow(k as nat);
        vstd::bits::lemma_u32_shl_is_mul(1, k);
        lemma_vars_unfold(level as nat);
    }
    1u32 << k
}

/// Connections and records stay well formed when the store grows.
pub(crate) proof fn lemma_conn_ok_extends(
    recs1: Seq<NodeRecord>,
    maps1: Seq<Seq<usize>>,
    recs2: Seq<NodeRecord>,
    maps2: Seq<Seq<usize>>,
    bound: int,
    child_level: nat,
    c: Connection,
)
    requires
        extends_seq(recs1, recs2),
        extends_seq(maps1, maps2),
        conn_ok(recs1, maps1, bound, child_level, c),
    ensures
        conn_ok(recs2, maps2, bound, child_level, c),
        maps2[c.return_map.0 as int] == maps1[c.return_map.0 as int],
        recs2[c.target.0 as int] == recs1[c.target.0 as int],
{
}

pub(crate) proof fn lemma_record_ok_extends(
    recs1: Seq<NodeRecord>,
    maps1: Seq<Seq<usize>>,
    recs2: Seq<NodeRecord>,
    maps2: Seq<Seq<usize>>,
    bound: int,
    r: NodeRecord,
)
    requires
        extends_seq(recs1, recs2),
        extends_seq(maps1, maps2),
        record_ok(recs1, maps1, bound, r),
    ensures
        record_ok(recs2, maps2, bound, r),
{
    if let NodeRecord::Internal { level, num_exits, a_conn, b_conns } = r {
        let bs = bconn_view(b_conns);
        lemma_conn_ok_extends(recs1, maps1, recs2, maps2, bound, (level - 1) as nat, a_conn);
        assert forall|k: int| 0 <= k < bs.len() implies #[trigger] bconn_ok(
            recs2,
            maps2,
            bound,
            (level - 1) as nat,
            num_exits,
            bs[k],
        ) by {
            assert(bconn_ok(recs1, maps1, bound, (level - 1) as nat, num_exits, bs[k]));
            lemma_conn_ok_extends(recs1, maps1, recs2, maps2, bound, (level - 1) as nat, bs[k]);
        }
    }
}

/// Whether an internal record is well formed depends only on its key.
pub(crate) proof fn lemma_record_ok_by_key(
    recs: Seq<NodeRecord>,
    maps: Seq<Seq<usize>>,
    bound: int,
    r1: NodeRecord,
    r2: NodeRecord,
)
    requires
        r1 is Internal,
        r2 is Internal,
        record_key(r1) == record_key(r2),
        record_ok(recs, maps, bound, r1),
    ensures
        record_ok(recs, maps, bound, r2),
        level_of(r2) == level_of(r1),
        num_exits_of(r2) == num_exits_of(r1),
{
}

/// Growing the store keeps it well formed when the added records are.
pub(crate) proof fn lemma_store_wf_extends(
    recs1: Seq<NodeRecord>,
    maps1: Seq<Seq<usize>>,
    recs2: Seq<NodeRecord>,
    maps2: Seq<Seq<usize>>,
)
    requires
        store_wf(recs1, maps1),
        extends_seq(recs1, recs2),
        extends_seq(maps1, maps2),
        forall|i: int|
            recs1.len() <= i < recs2.len() ==> #[trigger] record_ok(recs2, maps2, i, recs2[i]),
    ensures
        store_wf(recs2, maps2),
{
    assert forall|i: int| 2 <= i < recs2.len() implies #[trigger] record_ok(
        recs2,
        maps2,
        i,
        recs2[i],
    ) by {
        if i < recs1.len() {
            assert(record_ok(recs1, maps1, i, recs1[i]));
            lemma_record_ok_extends(recs1, maps1, recs2, maps2, i, recs1[i]);
        }
    }
}

/// The exit of an internal node unfolds into the exits of its children.
pub(crate) proof fn lemma_exit_internal(
    recs: Seq<NodeRecord>,
    maps: Seq<Seq<usize>>,
    level: nat,
    id: usize,
    a: Seq<bool>,
)
    requires
        level >= 1,
        id < recs.len(),
        recs[id as int] is Internal,
    ensures
        exit_at(recs, maps, level, id, a) == internal_exit(
            recs,
            maps,
            (level - 1) as nat,
            recs[id as int]->a_conn,
            bconn_view(recs[id as int]->b_conns),
            a,
        ),
{
}

/// Exits of stored nodes do not change when the store grows.
pub(crate) proof fn lemma_exit_extends(
    recs1: Seq<NodeRecord>,
    maps1: Seq<Seq<usize>>,
    recs2: Seq<NodeRecord>,
    maps2: Seq<Seq<usize>>,
    level: nat,
    id: usize,
    a: Seq<bool>,
)
    requires
        store_wf(recs1, maps1),
        extends_seq(recs1, recs2),
        extends_seq(maps1, maps2),
        node_ok(recs1, id, level),
    ensures
        exit_at(recs2, maps2, level, id, a) == exit_at(recs1, maps1, level, id, a),
    decreases level,
{
    assert(recs2[id as int] == recs1[id as int]);
    if id >= 2 {
        assert(record_ok(recs1, maps1, id as int, recs1[id as int]));
        if let NodeRecord::Internal { level: l, num_exits, a_conn, b_conns } = recs1[id as int] {
            let bs = bconn_view(b_conns);
            let h = vars_at((level - 1) as nat) as int;
            let left = a.subrange(0, h);
            let right = a.subrange(h, a.len() as int);
            lemma_exit_extends(recs1, maps1, recs2, maps2, (level - 1) as nat, a_conn.target.0, left);
            let i = exit_at(recs1, maps1, (level - 1) as nat, a_conn.target.0, left);
            let bi = maps1[a_conn.return_map.0 as int][i as int];
            assert(maps2[a_conn.return_map.0 as int] == maps1[a_conn.return_map.0 as int]);
            lemma_exit_bound(recs1, maps1, (level - 1) as nat, a_conn.target.0, left);
            assert(0 <= bi < bs.len());
            let b = bs[bi as int];
            assert(bconn_ok(recs1, maps1, id as int, (level - 1) as nat, num_exits, b));
            lemma_exit_extends(recs1, maps1, recs2, maps2, (level - 1) as nat, b.target.0, right);
            assert(maps2[b.return_map.0 as int] == maps1[b.return_map.0 as int]);
        }
    }
}

/// A stored node picks one of its exits.
pub(crate) proof fn lemma_exit_bound(
    recs: Seq<NodeRecord>,
    maps: Seq<Seq<usize>>,
    level: nat,
    id: usize,
    a: Seq<bool>,
)
    requires
        store_wf(recs, maps),
        node_ok(recs, id, level),
    ensures
        exit_at(recs, maps, level, id, a) < num_exits_of(recs[id as int]),
    decreases level,
{
    if id >= 2 {
        assert(record_ok(recs, maps, id as int, recs[id as int]));
        if let NodeRecord::Internal { level: l, num_exits, a_conn, b_conns } = recs[id as int] {
            let bs = bconn_view(b_conns);
            let h = vars_at((level - 1) as nat) as int;
            let left = a.subrange(0, h);
            let right = a.subrange(h, a.len() as int);
            lemma_exit_bound(recs, maps, (level - 1) as nat, a_conn.target.0, left);
            let i = exit_at(recs, maps, (level - 1) as nat, a_conn.target.0, left);
            let bi = maps[a_conn.return_map.0 as int][i as int];
            assert(bi == i);
            let b = bs[bi as int];
            assert(bconn_ok(recs, maps, id as int, (level - 1) as nat, num_exits, b));
            lemma_exit_bound(recs, maps, (level - 1) as nat, b.target.0, right);
            let j = exit_at(recs, maps, (level - 1) as nat, b.target.0, right);
            assert(maps[b.return_map.0 as int][j as int] < num_exits);
        }
    }
}

/// A node with a single exit picks it on every assignment.
pub(crate) proof fn lemma_single_exit(
    recs: Seq<NodeRecord>,
    maps: Seq<Seq<usize>>,
    level: nat,
    id: usize,
    a: Seq<bool>,
)
    requires
        store_wf(recs, maps),
        node_ok(recs, id, level),
        num_exits_of(recs[id as int]) == 1,
    ensures
        exit_at(recs, maps, level, id, a) == 0,
{
    lemma_exit_bound(recs, maps, level, id, a);
}

/// A first-seen numbering onto at least two values is never constant on
/// two entries, and a one-entry first-seen numbering is the identity.
pub(crate) proof fn lemma_first_seen_short(s: Seq<usize>, n: nat)
    requires
        reduction_ok(s, n),
    ensures
        s.len() >= 1 ==> s[0] == 0,
        s.len() == 1 ==> s == identity_seq(1),
        s.len() == 2 && n >= 2 ==> s == identity_seq(2),
{
    if s.len() >= 1 {
        assert(seen_before(s, 0));
    }
    if s.len() == 1 {
        assert(s =~= identity_seq(1));
    }
    if s.len() == 2 && n >= 2 {
        assert(occurs(s, 1));
        let w = choose|i: int| 0 <= i < s.len() && #[trigger] s[i] == 1;
        assert(seen_before(s, 0));
        assert(w == 1);
        assert(s =~= identity_seq(2));
    }
}

/// An identity numbering onto `n` values has exactly `n` entries.
pub(crate) proof fn lemma_identity_reduction(s: Seq<usize>, n: nat)
    requires
        reduction_ok(s, n),
        s == identity_seq(s.len()),
        s.len() <= usize::MAX,
    ensures
        s.len() == n,
{
    if s.len() > 0 {
        assert(s[s.len() - 1] == s.len() - 1);
    }
    if n > s.len() {
        assert(occurs(s, s.len() as int));
        let w = choose|i: int| 0 <= i < s.len() && #[trigger] s[i] == s.len();
        assert(s[w] == w);
    }
}

/// Appending keeps earlier entries.
pub(crate) proof fn lemma_occurs_push(s: Seq<usize>, x: usize, v: int)
    requires
        occurs(s, v) || v == x,
    ensures
        occurs(s.push(x), v),
{
    if v == x {
        assert(s.push(x)[s.len() as int] == x);
    } else {
        let w = choose|i: int| 0 <= i < s.len() && #[trigger] s[i] == v;
        assert(s.push(x)[w] == v);
    }
}

/// Appending 0, or one more than an earlier entry, keeps a numbering
/// first-seen.
pub(crate) proof fn lemma_first_seen_push(s: Seq<usize>, x: usize)
    requires
        first_seen(s),
        x == 0 || occurs(s, x - 1),
    ensures
        first_seen(s.push(x)),
{
    let t = s.push(x);
    assert forall|i: int| 0 <= i < t.len() implies #[trigger] seen_before(t, i) by {
        if i < s.len() {
            assert(seen_before(s, i));
            if s[i] != 0 {
                let j = choose|j: int| 0 <= j < i && #[trigger] s[j] + 1 == s[i];
                assert(t[j] + 1 == t[i]);
            }
        } else if x != 0 {
            let j = choose|j: int| 0 <= j < s.len() && #[trigger] s[j] == x - 1;
            assert(t[j] + 1 == t[i]);
        }
    }
}

/// The identity numbering of `n` entries is first-seen onto `[0, n)`.
pub(crate) proof fn lemma_identity_reduction_ok(n: nat)
    requires
        n <= usize::MAX + 1,
    ensures
        reduction_ok(identity_seq(n), n),
{
    let s = identity_seq(n);
    assert forall|i: int| 0 <= i < s.len() implies #[trigger] seen_before(s, i) by {
        if i > 0 {
            assert(s[i - 1] + 1 == s[i]);
        }
    }
    assert forall|v: int| 0 <= v < n implies #[trigger] occurs(s, v) by {
        assert(s[v] == v);
    }
}
/// A first-seen numbering determines how many values it numbers onto.
pub(crate) proof fn lemma_reduction_count_unique(s: Seq<usize>, n1: nat, n2: nat)
    requires
        reduction_ok(s, n1),
        reduction_ok(s, n2),
    ensures
        n1 == n2,
{
    if n1 < n2 {
        assert(occurs(s, n1 as int));
        let w = choose|i: int| 0 <= i < s.len() && #[trigger] s[i] == n1;
        assert(s[w] < n1);
    } else if n2 < n1 {
        assert(occurs(s, n2 as int));
        let w = choose|i: int| 0 <= i < s.len() && #[trigger] s[i] == n2;
        assert(s[w] < n2);
    }
}

/// A non-empty numbering onto `n` values has `n >= 1`.
pub(crate) proof fn lemma_reduction_nonempty(s: Seq<usize>, n: nat)
    requires
        reduction_ok(s, n),
        s.len() >= 1,
    ensures
        n >= 1,
{
    assert(s[0] < n);
}

/// Every stored node has at least one exit.
pub(crate) proof fn lemma_exits_pos(recs: Seq<NodeRecord>, maps: Seq<Seq<usize>>, id: usize)
    requires
        store_wf(recs, maps),
        id < recs.len(),
    ensures
        num_exits_of(recs[id as int]) >= 1,
{
    if id >= 2 {
        assert(record_ok(recs, maps, id as int, recs[id as int]));
    }
}
} // verus!
