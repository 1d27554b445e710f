//! Canonical form.
//!
//! A node is in canonical form when its A-connection's return map is the
//! identity, its B-connections are pairwise distinct, each B-connection's
//! return map is injective, the B-connections' return maps read one after
//! another number the node's exits in first-seen order, and its children
//! are in canonical form. Two canonical nodes of the same level whose exits
//! agree on every assignment, up to a renaming of exits, are the same node
//! and the renaming is the identity: with hash-consing, canonical `Bdd`s
//! denoting the same function are equal.

use crate::node::{bconn_view, Connection, NodeId, NodeRecord};
use crate::semantics::{
    distinct, exit_at, first_seen, identity_seq, lemma_exit_bound, lemma_exit_internal,
    lemma_vars_unfold, level_of, num_exits_of, occurs, record_key, record_ok, reduction_ok,
    same_record, seen_before, store_wf, vars_at, extends_seq, dedupes,
};
use vstd::prelude::*;

verus! {

/// The return maps of the connections `bs`, one after another.
pub(crate) open spec fn concat_maps(maps: Seq<Seq<usize>>, bs: Seq<Connection>) -> Seq<usize>
    decreases bs.len(),
{
    if bs.len() == 0 {
        Seq::empty()
    } else {
        concat_maps(maps, bs.drop_last()) + maps[bs.last().return_map.0 as int]
    }
}

/// One more than the largest value among the first `t` entries of a
/// first-seen numbering: the number of values they use.
pub(crate) open spec fn seen_count(s: Seq<usize>, t: nat) -> nat
    decreases t,
{
    if t == 0 {
        0
    } else {
        let c = seen_count(s, (t - 1) as nat);
        if s[t - 1] == c {
            c + 1
        } else {
            c
        }
    }
}

/// `v` is among the first `t` entries of `s`.
pub(crate) open spec fn occurs_in_prefix(s: Seq<usize>, t: nat, v: int) -> bool {
    exists|i: int| 0 <= i < t && #[trigger] s[i] == v
}

/// The first `t` entries of a first-seen numbering use exactly the values
/// below `seen_count(s, t)`.
pub(crate) proof fn lemma_seen_count(s: Seq<usize>, t: nat)
    requires
        first_seen(s),
        t <= s.len(),
    ensures
        forall|i: int| 0 <= i < t ==> #[trigger] s[i] < seen_count(s, t),
        forall|v: int| 0 <= v < seen_count(s, t) ==> #[trigger] occurs_in_prefix(s, t, v),
    decreases t,
{
    if t > 0 {
        let k = (t - 1) as nat;
        lemma_seen_count(s, k);
        let c = seen_count(s, k);
        assert(seen_before(s, k as int));
        if s[k as int] != 0 {
            let j = choose|j: int| 0 <= j < k && #[trigger] s[j] + 1 == s[k as int];
            assert(s[j] < c);
        }
        assert(s[k as int] <= c);
        assert forall|v: int| 0 <= v < seen_count(s, t) implies #[trigger] occurs_in_prefix(s, t, v) by {
            if v < c {
                assert(occurs_in_prefix(s, k, v));
                let i = choose|i: int| 0 <= i < k && #[trigger] s[i] == v;
                assert(0 <= i < t && s[i] == v);
            } else {
                assert(s[k as int] == v);
            }
        }
    }
}

/// A first-seen numbering onto `[0, n)` uses `n` values.
pub(crate) proof fn lemma_seen_count_total(s: Seq<usize>, n: nat)
    requires
        reduction_ok(s, n),
    ensures
        seen_count(s, s.len()) == n,
{
    lemma_seen_count(s, s.len());
    let c = seen_count(s, s.len());
    if c < n {
        assert(occurs(s, c as int));
        let i = choose|i: int| 0 <= i < s.len() && #[trigger] s[i] == c;
        assert(s[i] < c);
    } else if c > n {
        assert(occurs_in_prefix(s, s.len(), n as int));
        let i = choose|i: int| 0 <= i < s.len() && #[trigger] s[i] == n;
        assert(s[i] < n);
    }
}

/// First-seen deduplication is unique: two bodies without repeats, each
/// with a first-seen numbering of `s` that picks every entry of `s` out of
/// it, are the same body with the same numbering.
pub proof fn lemma_dedupe_unique(
    s: Seq<usize>,
    b1: Seq<usize>,
    r1: Seq<usize>,
    b2: Seq<usize>,
    r2: Seq<usize>,
)
    requires
        dedupes(s, b1, r1),
        dedupes(s, b2, r2),
    ensures
        b1 == b2,
        r1 == r2,
{
    let n2 = b2.len();
    let pi = |x: nat| choose|y: nat| y < b1.len() && b1[y as int] == b2[x as int];
    assert forall|x: nat| x < n2 implies #[trigger] pi(x) < b1.len() && b1[pi(x) as int] == b2[x as int] by {
        assert(occurs(r2, x as int));
        let i = choose|i: int| 0 <= i < r2.len() && #[trigger] r2[i] == x;
        assert(b2[r2[i] as int] == s[i]);
        assert(b1[r1[i] as int] == s[i]);
        assert(r1[i] < b1.len());
        let y = r1[i] as nat;
        assert(y < b1.len() && b1[y as int] == b2[x as int]);
    }
    assert forall|i: int| 0 <= i < r2.len() implies #[trigger] r1[i] == pi(r2[i] as nat) by {
        assert(b2[r2[i] as int] == s[i]);
        assert(b1[r1[i] as int] == s[i]);
        assert(r2[i] < n2);
        let p = pi(r2[i] as nat);
        assert(b1[p as int] == b1[r1[i] as int]);
    }
    assert forall|x: nat, y: nat| x < n2 && y < n2 && #[trigger] pi(x) == #[trigger] pi(y) implies x == y by {
        assert(b1[pi(x) as int] == b2[x as int]);
        assert(b1[pi(y) as int] == b2[y as int]);
    }
    lemma_first_seen_renaming(r1, r2, pi, n2, s.len());
    lemma_seen_count_total(r1, b1.len());
    lemma_seen_count_total(r2, b2.len());
    assert forall|i: int| 0 <= i < r2.len() implies r1[i] == r2[i] by {
        assert(r1[i] == pi(r2[i] as nat));
        assert(r2[i] < n2);
    }
    assert(r1 =~= r2);
    assert forall|v: int| 0 <= v < b2.len() implies b1[v] == b2[v] by {
        assert(occurs(r2, v));
        let i = choose|i: int| 0 <= i < r2.len() && #[trigger] r2[i] == v;
        assert(b2[r2[i] as int] == s[i]);
        assert(b1[r1[i] as int] == s[i]);
    }
    assert(b1 =~= b2);
}

/// If one first-seen numbering is an injective renaming of another, the
/// renaming is the identity on the values used.
pub(crate) proof fn lemma_first_seen_renaming(
    s1: Seq<usize>,
    s2: Seq<usize>,
    pi: spec_fn(nat) -> nat,
    n2: nat,
    t: nat,
)
    requires
        first_seen(s1),
        first_seen(s2),
        s1.len() == s2.len(),
        t <= s2.len(),
        forall|i: int| 0 <= i < s2.len() ==> #[trigger] s2[i] < n2,
        forall|i: int| 0 <= i < s2.len() ==> #[trigger] s1[i] == pi(s2[i] as nat),
        forall|x: nat, y: nat| x < n2 && y < n2 && #[trigger] pi(x) == #[trigger] pi(y) ==> x == y,
    ensures
        seen_count(s1, t) == seen_count(s2, t),
        forall|v: nat| v < seen_count(s2, t) ==> #[trigger] pi(v) == v,
    decreases t,
{
    if t > 0 {
        let k = (t - 1) as nat;
        lemma_first_seen_renaming(s1, s2, pi, n2, k);
        lemma_seen_count(s1, k);
        lemma_seen_count(s2, k);
        let c = seen_count(s2, k);
        let x = s2[k as int];
        assert(seen_before(s2, k as int));
        if x != 0 {
            let j = choose|j: int| 0 <= j < k && #[trigger] s2[j] + 1 == s2[k as int];
            assert(s2[j] < c);
        }
        assert(seen_before(s1, k as int));
        if s1[k as int] != 0 {
            let j = choose|j: int| 0 <= j < k && #[trigger] s1[j] + 1 == s1[k as int];
            assert(s1[j] < c);
        }
        if x < c {
            assert(pi(x as nat) == x);
        } else {
            assert(x == c);
            let v = s1[k as int];
            if v < c {
                assert(pi(v as nat) == v);
                assert(pi(c) == v);
                assert(v < n2 && c < n2);
            }
        }
    }
}

/// Concatenating the return maps of connections that are renamed one by
/// one renames the concatenation.
pub(crate) proof fn lemma_concat_renamed(
    maps: Seq<Seq<usize>>,
    bs1: Seq<Connection>,
    bs2: Seq<Connection>,
    pi: spec_fn(nat) -> nat,
)
    requires
        bs1.len() == bs2.len(),
        forall|k: int|
            0 <= k < bs1.len() ==> (#[trigger] maps[bs1[k].return_map.0 as int]).len()
                == maps[bs2[k].return_map.0 as int].len(),
        forall|k: int, j: int|
            0 <= k < bs1.len() && 0 <= j < maps[bs2[k].return_map.0 as int].len() ==> #[trigger] maps[bs1[k].return_map.0 as int][j]
                == pi(maps[bs2[k].return_map.0 as int][j] as nat),
    ensures
        concat_maps(maps, bs1).len() == concat_maps(maps, bs2).len(),
        forall|i: int|
            0 <= i < concat_maps(maps, bs2).len() ==> #[trigger] concat_maps(maps, bs1)[i] == pi(
                concat_maps(maps, bs2)[i] as nat,
            ),
    decreases bs1.len(),
{
    if bs1.len() > 0 {
        let k = bs1.len() - 1;
        let w1 = bs1.drop_last();
        let w2 = bs2.drop_last();
        assert forall|q: int| 0 <= q < w1.len() implies (#[trigger] maps[w1[q].return_map.0 as int]).len()
            == maps[w2[q].return_map.0 as int].len() by {
            assert(w1[q] == bs1[q] && w2[q] == bs2[q]);
        }
        assert forall|q: int, j: int|
            0 <= q < w1.len() && 0 <= j < maps[w2[q].return_map.0 as int].len() implies #[trigger] maps[w1[q].return_map.0 as int][j]
            == pi(maps[w2[q].return_map.0 as int][j] as nat) by {
            assert(w1[q] == bs1[q] && w2[q] == bs2[q]);
        }
        lemma_concat_renamed(maps, w1, w2, pi);
        let c1 = concat_maps(maps, bs1.drop_last());
        let c2 = concat_maps(maps, bs2.drop_last());
        let r1 = maps[bs1[k].return_map.0 as int];
        let r2 = maps[bs2[k].return_map.0 as int];
        assert forall|i: int| 0 <= i < concat_maps(maps, bs2).len() implies #[trigger] concat_maps(
            maps,
            bs1,
        )[i] == pi(concat_maps(maps, bs2)[i] as nat) by {
            if i < c2.len() {
                assert(concat_maps(maps, bs1)[i] == c1[i]);
                assert(concat_maps(maps, bs2)[i] == c2[i]);
            } else {
                assert(concat_maps(maps, bs1)[i] == r1[i - c1.len()]);
                assert(concat_maps(maps, bs2)[i] == r2[i - c2.len()]);
            }
        }
    }
}

/// `v` is an entry of the return map of one of the connections `bs`.
pub(crate) open spec fn in_some_map(maps: Seq<Seq<usize>>, bs: Seq<Connection>, v: int) -> bool {
    exists|k: int, j: int|
        0 <= k < bs.len() && 0 <= j < maps[bs[k].return_map.0 as int].len() && #[trigger] maps[bs[k].return_map.0 as int][j]
            == v
}

/// Every entry of a connection's return map sits in the concatenation, and
/// every entry of the concatenation comes from some connection.
pub(crate) proof fn lemma_concat_entries(maps: Seq<Seq<usize>>, bs: Seq<Connection>)
    ensures
        forall|k: int, j: int|
            0 <= k < bs.len() && 0 <= j < maps[bs[k].return_map.0 as int].len() ==> occurs(
                concat_maps(maps, bs),
                #[trigger] maps[bs[k].return_map.0 as int][j] as int,
            ),
        forall|i: int|
            0 <= i < concat_maps(maps, bs).len() ==> #[trigger] in_some_map(
                maps,
                bs,
                concat_maps(maps, bs)[i] as int,
            ),
    decreases bs.len(),
{
    if bs.len() > 0 {
        let last = bs.len() - 1;
        let w = bs.drop_last();
        lemma_concat_entries(maps, w);
        let c = concat_maps(maps, w);
        let r = maps[bs[last].return_map.0 as int];
        let cc = concat_maps(maps, bs);
        assert(cc == c + r);
        assert forall|k: int, j: int|
            0 <= k < bs.len() && 0 <= j < maps[bs[k].return_map.0 as int].len() implies occurs(
            cc,
            #[trigger] maps[bs[k].return_map.0 as int][j] as int,
        ) by {
            if k < last {
                assert(w[k] == bs[k]);
                assert(occurs(c, maps[w[k].return_map.0 as int][j] as int));
                let i = choose|i: int| 0 <= i < c.len() && #[trigger] c[i] == maps[w[k].return_map.0 as int][j] as int;
                assert(cc[i] == c[i]);
            } else {
                assert(cc[c.len() + j] == r[j]);
            }
        }
        assert forall|i: int| 0 <= i < cc.len() implies #[trigger] in_some_map(maps, bs, cc[i] as int) by {
            if i < c.len() {
                assert(in_some_map(maps, w, c[i] as int));
                let (k, j) = choose|k: int, j: int|
                    0 <= k < w.len() && 0 <= j < maps[w[k].return_map.0 as int].len() && #[trigger] maps[w[k].return_map.0 as int][j]
                        == c[i] as int;
                assert(w[k] == bs[k]);
                assert(cc[i] == c[i]);
                assert(maps[bs[k].return_map.0 as int][j] == cc[i] as int);
            } else {
                let j = i - c.len();
                assert(cc[i] == r[j]);
                assert(maps[bs[last].return_map.0 as int][j] == cc[i] as int);
            }
        }
    }
}


/// Distinct stored records sit at distinct ids.
pub(crate) open spec fn keys_unique(recs: Seq<NodeRecord>) -> bool {
    forall|i: int, j: int|
        0 <= i < recs.len() && 0 <= j < recs.len() && #[trigger] same_record(recs[i], recs[j]) ==> i == j
}

/// Distinct stored return maps sit at distinct ids.
pub(crate) open spec fn maps_unique(maps: Seq<Seq<usize>>) -> bool {
    forall|i: int, j: int|
        0 <= i < maps.len() && 0 <= j < maps.len() && #[trigger] maps[i] == #[trigger] maps[j] ==> i == j
}

/// Node `id`, read at level `lv`, is in canonical form.
pub(crate) open spec fn canonical(recs: Seq<NodeRecord>, maps: Seq<Seq<usize>>, lv: nat, id: usize) -> bool
    decreases lv, 1nat, 0nat,
{
    &&& id < recs.len()
    &&& level_of(recs[id as int]) == lv
    &&& if lv == 0 {
        !(recs[id as int] is Internal)
    } else {
        match recs[id as int] {
            NodeRecord::Internal { num_exits, a_conn, b_conns, .. } => {
                let bs = bconn_view(b_conns);
                &&& canonical(recs, maps, (lv - 1) as nat, a_conn.target.0)
                &&& targets_canonical(recs, maps, (lv - 1) as nat, bs, bs.len())
                &&& forall|k: int|
                    0 <= k < bs.len() ==> #[trigger] distinct(maps[bs[k].return_map.0 as int])
                &&& forall|k1: int, k2: int|
                    0 <= k1 < bs.len() && 0 <= k2 < bs.len() && k1 != k2 ==> #[trigger] bs[k1]
                        != #[trigger] bs[k2]
                &&& reduction_ok(concat_maps(maps, bs), num_exits as nat)
            },
            _ => false,
        }
    }
}

/// The targets of the first `k` connections of `bs` are canonical at level
/// `cl`.
pub(crate) open spec fn targets_canonical(
    recs: Seq<NodeRecord>,
    maps: Seq<Seq<usize>>,
    cl: nat,
    bs: Seq<Connection>,
    k: nat,
) -> bool
    decreases cl + 1, 0nat, k,
{
    if k == 0 {
        true
    } else {
        targets_canonical(recs, maps, cl, bs, (k - 1) as nat) && canonical(
            recs,
            maps,
            cl,
            bs[k - 1].target.0,
        )
    }
}

/// `targets_canonical` says it of each target.
pub(crate) proof fn lemma_targets_canonical(
    recs: Seq<NodeRecord>,
    maps: Seq<Seq<usize>>,
    cl: nat,
    bs: Seq<Connection>,
    k: nat,
)
    ensures
        targets_canonical(recs, maps, cl, bs, k) <==> forall|q: int|
            0 <= q < k ==> #[trigger] canonical(recs, maps, cl, bs[q].target.0),
    decreases k,
{
    if k > 0 {
        let j = (k - 1) as nat;
        lemma_targets_canonical(recs, maps, cl, bs, j);
        if forall|q: int| 0 <= q < k ==> #[trigger] canonical(recs, maps, cl, bs[q].target.0) {
            assert(canonical(recs, maps, cl, bs[j as int].target.0));
            assert(forall|q: int| 0 <= q < j ==> #[trigger] canonical(recs, maps, cl, bs[q].target.0));
            assert(targets_canonical(recs, maps, cl, bs, j));
        }
        if targets_canonical(recs, maps, cl, bs, k) {
            assert(targets_canonical(recs, maps, cl, bs, j));
            assert(canonical(recs, maps, cl, bs[j as int].target.0));
            assert forall|q: int| 0 <= q < k implies #[trigger] canonical(recs, maps, cl, bs[q].target.0) by {
                if q < j {
                    assert(canonical(recs, maps, cl, bs[q].target.0));
                }
            }
        }
    }
}

/// Some assignment of the node's variables reaches exit `e`.
pub(crate) open spec fn reached(
    recs: Seq<NodeRecord>,
    maps: Seq<Seq<usize>>,
    lv: nat,
    id: usize,
    e: int,
) -> bool {
    exists|a: Seq<bool>| a.len() == vars_at(lv) && #[trigger] exit_at(recs, maps, lv, id, a) == e
}

/// The exit of a node that connection `c` leads to, on assignment `r` of
/// the child's variables.
pub(crate) open spec fn conn_exit(
    recs: Seq<NodeRecord>,
    maps: Seq<Seq<usize>>,
    cl: nat,
    c: Connection,
    r: Seq<bool>,
) -> int {
    maps[c.return_map.0 as int][exit_at(recs, maps, cl, c.target.0, r) as int] as int
}

/// The exit of an internal node on the assignment `l + r` is the exit its
/// A-connection's target picks on `l` selecting a B-connection, which then
/// reads `r`.
pub(crate) proof fn lemma_split_exit(
    recs: Seq<NodeRecord>,
    maps: Seq<Seq<usize>>,
    id: usize,
    l: Seq<bool>,
    r: Seq<bool>,
)
    requires
        store_wf(recs, maps),
        2 <= id < recs.len(),
        l.len() == vars_at((level_of(recs[id as int]) - 1) as nat),
        r.len() == vars_at((level_of(recs[id as int]) - 1) as nat),
    ensures
        ({
            let lv = level_of(recs[id as int]);
            let cl = (lv - 1) as nat;
            let bs = bconn_view(recs[id as int]->b_conns);
            let i = exit_at(recs, maps, cl, recs[id as int]->a_conn.target.0, l);
            &&& (l + r).len() == vars_at(lv)
            &&& i < bs.len()
            &&& exit_at(recs, maps, lv, id, l + r) == conn_exit(recs, maps, cl, bs[i as int], r)
        }),
{
    let rec = recs[id as int];
    assert(record_ok(recs, maps, id as int, rec));
    let lv = level_of(rec);
    let cl = (lv - 1) as nat;
    let bs = bconn_view(rec->b_conns);
    let a = l + r;
    let h = vars_at(cl) as int;
    lemma_vars_unfold(lv);
    assert(a.subrange(0, h) =~= l);
    assert(a.subrange(h, a.len() as int) =~= r);
    lemma_exit_internal(recs, maps, lv, id, a);
    lemma_exit_bound(recs, maps, cl, rec->a_conn.target.0, l);
    let i = exit_at(recs, maps, cl, rec->a_conn.target.0, l);
    assert(maps[rec->a_conn.return_map.0 as int] == identity_seq(bs.len()));
    assert(maps[rec->a_conn.return_map.0 as int][i as int] == i);
}

/// Every exit of a canonical node is reached by some assignment.
pub(crate) proof fn lemma_exits_reached(
    recs: Seq<NodeRecord>,
    maps: Seq<Seq<usize>>,
    lv: nat,
    id: usize,
    e: int,
)
    requires
        store_wf(recs, maps),
        canonical(recs, maps, lv, id),
        0 <= e < num_exits_of(recs[id as int]),
    ensures
        reached(recs, maps, lv, id, e),
    decreases lv,
{
    if lv == 0 {
        vstd::arithmetic::power2::lemma2_to64();
        let a = seq![e == 1];
        assert(a[0] == (e == 1));
        assert(exit_at(recs, maps, lv, id, a) == e);
    } else {
        let rec = recs[id as int];
        assert(id >= 2);
        assert(record_ok(recs, maps, id as int, rec));
        let cl = (lv - 1) as nat;
        let bs = bconn_view(rec->b_conns);
        let a_conn = rec->a_conn;
        let cc = concat_maps(maps, bs);
        assert(occurs(cc, e));
        let i = choose|i: int| 0 <= i < cc.len() && #[trigger] cc[i] == e;
        lemma_concat_entries(maps, bs);
        assert(in_some_map(maps, bs, cc[i] as int));
        let (k, j) = choose|k: int, j: int|
            0 <= k < bs.len() && 0 <= j < maps[bs[k].return_map.0 as int].len() && #[trigger] maps[bs[k].return_map.0 as int][j]
                == cc[i] as int;
        assert(crate::semantics::bconn_ok(recs, maps, id as int, cl, rec->num_exits, bs[k]));
        assert(maps[a_conn.return_map.0 as int] == identity_seq(bs.len()));
        lemma_targets_canonical(recs, maps, cl, bs, bs.len());
        assert(canonical(recs, maps, cl, bs[k].target.0));
        lemma_exits_reached(recs, maps, cl, a_conn.target.0, k);
        lemma_exits_reached(recs, maps, cl, bs[k].target.0, j);
        let l = choose|l: Seq<bool>| l.len() == vars_at(cl) && #[trigger] exit_at(recs, maps, cl, a_conn.target.0, l) == k;
        let r = choose|r: Seq<bool>| r.len() == vars_at(cl) && #[trigger] exit_at(recs, maps, cl, bs[k].target.0, r) == j;
        lemma_split_exit(recs, maps, id, l, r);
        assert(exit_at(recs, maps, lv, id, l + r) == e);
    }
}


/// `pi` is injective on `[0, n)`.
pub(crate) open spec fn injective_below(pi: spec_fn(nat) -> nat, n: nat) -> bool {
    forall|x: nat, y: nat| x < n && y < n && #[trigger] pi(x) == #[trigger] pi(y) ==> x == y
}

/// On every assignment of level `lv`, node `n1` picks `pi` of the exit that
/// node `n2` picks.
pub(crate) open spec fn renames(
    recs: Seq<NodeRecord>,
    maps: Seq<Seq<usize>>,
    lv: nat,
    n1: usize,
    n2: usize,
    pi: spec_fn(nat) -> nat,
) -> bool {
    forall|a: Seq<bool>|
        a.len() == vars_at(lv) ==> #[trigger] exit_at(recs, maps, lv, n1, a) == pi(
            exit_at(recs, maps, lv, n2, a),
        )
}

/// The hypotheses shared by the uniqueness lemmas.
pub(crate) open spec fn unique_setting(
    recs: Seq<NodeRecord>,
    maps: Seq<Seq<usize>>,
    lv: nat,
    n1: usize,
    n2: usize,
    pi: spec_fn(nat) -> nat,
) -> bool {
    &&& store_wf(recs, maps)
    &&& keys_unique(recs)
    &&& maps_unique(maps)
    &&& canonical(recs, maps, lv, n1)
    &&& canonical(recs, maps, lv, n2)
    &&& injective_below(pi, num_exits_of(recs[n2 as int]))
    &&& renames(recs, maps, lv, n1, n2, pi)
}

/// Distinct B-connections of a canonical node lead to distinct functions
/// of the right half.
#[verifier::spinoff_prover]
pub(crate) proof fn lemma_conns_differ(
    recs: Seq<NodeRecord>,
    maps: Seq<Seq<usize>>,
    lv: nat,
    n: usize,
    k1: int,
    k2: int,
)
    requires
        store_wf(recs, maps),
        keys_unique(recs),
        maps_unique(maps),
        canonical(recs, maps, lv, n),
        lv >= 1,
        0 <= k1 < bconn_view(recs[n as int]->b_conns).len(),
        0 <= k2 < bconn_view(recs[n as int]->b_conns).len(),
        k1 != k2,
    ensures
        exists|r: Seq<bool>|
            r.len() == vars_at((lv - 1) as nat) && #[trigger] conn_exit(
                recs,
                maps,
                (lv - 1) as nat,
                bconn_view(recs[n as int]->b_conns)[k1],
                r,
            ) != conn_exit(recs, maps, (lv - 1) as nat, bconn_view(recs[n as int]->b_conns)[k2], r),
    decreases lv, 0nat,
{
    let rec = recs[n as int];
    assert(n >= 2);
    assert(record_ok(recs, maps, n as int, rec));
    let cl = (lv - 1) as nat;
    let bs = bconn_view(rec->b_conns);
    let b1 = bs[k1];
    let b2 = bs[k2];
    let t1 = b1.target.0;
    let t2 = b2.target.0;
    let m1 = maps[b1.return_map.0 as int];
    let m2 = maps[b2.return_map.0 as int];
    if forall|r: Seq<bool>|
        r.len() == vars_at(cl) ==> #[trigger] conn_exit(recs, maps, cl, b1, r) == conn_exit(
            recs,
            maps,
            cl,
            b2,
            r,
        ) {
        assert(crate::semantics::bconn_ok(recs, maps, n as int, cl, rec->num_exits, b1));
        assert(crate::semantics::bconn_ok(recs, maps, n as int, cl, rec->num_exits, b2));
        lemma_targets_canonical(recs, maps, cl, bs, bs.len());
        assert(canonical(recs, maps, cl, t1));
        assert(canonical(recs, maps, cl, t2));
        assert(distinct(m1));
        assert(distinct(m2));
        let rho = |x: nat| choose|y: nat| y < m1.len() && m1[y as int] == m2[x as int];
        assert forall|x: nat| x < num_exits_of(recs[t2 as int]) implies #[trigger] rho(x) < m1.len()
            && m1[rho(x) as int] == m2[x as int] by {
            lemma_exits_reached(recs, maps, cl, t2, x as int);
            let r = choose|r: Seq<bool>| r.len() == vars_at(cl) && #[trigger] exit_at(recs, maps, cl, t2, r) == x;
            assert(conn_exit(recs, maps, cl, b1, r) == conn_exit(recs, maps, cl, b2, r));
            lemma_exit_bound(recs, maps, cl, t1, r);
            let y = exit_at(recs, maps, cl, t1, r);
            assert(y < m1.len() && m1[y as int] == m2[x as int]);
        }
        assert forall|a: Seq<bool>| a.len() == vars_at(cl) implies #[trigger] exit_at(recs, maps, cl, t1, a)
            == rho(exit_at(recs, maps, cl, t2, a)) by {
            lemma_exit_bound(recs, maps, cl, t1, a);
            lemma_exit_bound(recs, maps, cl, t2, a);
            let x = exit_at(recs, maps, cl, t2, a);
            assert(rho(x) < m1.len() && m1[rho(x) as int] == m2[x as int]);
            assert(conn_exit(recs, maps, cl, b1, a) == conn_exit(recs, maps, cl, b2, a));
        }
        assert forall|x: nat, y: nat|
            x < num_exits_of(recs[t2 as int]) && y < num_exits_of(recs[t2 as int]) && #[trigger] rho(x)
                == #[trigger] rho(y) implies x == y by {
            assert(m1[rho(x) as int] == m2[x as int]);
            assert(m1[rho(y) as int] == m2[y as int]);
        }
        lemma_canonical_unique(recs, maps, cl, t1, t2, rho);
        assert(m1.len() == m2.len());
        assert forall|x: int| 0 <= x < m2.len() implies m1[x] == m2[x] by {
            assert(rho(x as nat) == x);
            assert(m1[rho(x as nat) as int] == m2[x]);
        }
        assert(m1 =~= m2);
        assert(b1.return_map.0 == b2.return_map.0);
        assert(b1 == b2);
    }
}

/// Under the hypotheses of uniqueness, the two A-connections lead to the
/// same node, which picks the same exit on both sides.
#[verifier::spinoff_prover]
pub(crate) proof fn lemma_unique_a(
    recs: Seq<NodeRecord>,
    maps: Seq<Seq<usize>>,
    lv: nat,
    n1: usize,
    n2: usize,
    pi: spec_fn(nat) -> nat,
)
    requires
        unique_setting(recs, maps, lv, n1, n2, pi),
        lv >= 1,
    ensures
        recs[n1 as int]->a_conn.target == recs[n2 as int]->a_conn.target,
        bconn_view(recs[n1 as int]->b_conns).len() == bconn_view(recs[n2 as int]->b_conns).len(),
    decreases lv, 1nat,
{
    let cl = (lv - 1) as nat;
    let h = vars_at(cl);
    let r1 = recs[n1 as int];
    let r2 = recs[n2 as int];
    assert(n1 >= 2 && n2 >= 2);
    assert(record_ok(recs, maps, n1 as int, r1));
    assert(record_ok(recs, maps, n2 as int, r2));
    let a1 = r1->a_conn.target.0;
    let a2 = r2->a_conn.target.0;
    let bs1 = bconn_view(r1->b_conns);
    let bs2 = bconn_view(r2->b_conns);
    let e2 = num_exits_of(r2);
    assert(maps[r1->a_conn.return_map.0 as int] == identity_seq(bs1.len()));
    assert(maps[r2->a_conn.return_map.0 as int] == identity_seq(bs2.len()));
    // Along the left half, the B-connection each side selects behaves the
    // same, up to `pi`.
    assert forall|l: Seq<bool>, r: Seq<bool>| l.len() == h && r.len() == h implies #[trigger] conn_exit(
        recs,
        maps,
        cl,
        bs1[exit_at(recs, maps, cl, a1, l) as int],
        r,
    ) == pi(conn_exit(recs, maps, cl, bs2[exit_at(recs, maps, cl, a2, l) as int], r) as nat) by {
        lemma_split_exit(recs, maps, n1, l, r);
        lemma_split_exit(recs, maps, n2, l, r);
    }
    let sigma = |x: nat|
        exit_at(
            recs,
            maps,
            cl,
            a1,
            choose|l: Seq<bool>| l.len() == h && #[trigger] exit_at(recs, maps, cl, a2, l) == x,
        );
    assert forall|l: Seq<bool>| l.len() == h implies #[trigger] exit_at(recs, maps, cl, a1, l) == sigma(
        exit_at(recs, maps, cl, a2, l),
    ) by {
        let x = exit_at(recs, maps, cl, a2, l);
        let l2 = choose|l2: Seq<bool>| l2.len() == h && #[trigger] exit_at(recs, maps, cl, a2, l2) == x;
        assert(l2.len() == h && exit_at(recs, maps, cl, a2, l2) == x);
        let i = exit_at(recs, maps, cl, a1, l);
        let j = exit_at(recs, maps, cl, a1, l2);
        lemma_split_exit(recs, maps, n1, l, seq_of_len(h));
        lemma_split_exit(recs, maps, n1, l2, seq_of_len(h));
        if i != j {
            lemma_conns_differ(recs, maps, lv, n1, i as int, j as int);
            let r = choose|r: Seq<bool>|
                r.len() == h && #[trigger] conn_exit(recs, maps, cl, bs1[i as int], r) != conn_exit(
                    recs,
                    maps,
                    cl,
                    bs1[j as int],
                    r,
                );
            assert(conn_exit(recs, maps, cl, bs1[i as int], r) == pi(
                conn_exit(recs, maps, cl, bs2[x as int], r) as nat,
            ));
            assert(conn_exit(recs, maps, cl, bs1[j as int], r) == pi(
                conn_exit(recs, maps, cl, bs2[x as int], r) as nat,
            ));
        }
    }
    lemma_targets_canonical(recs, maps, cl, bs2, bs2.len());
    assert forall|x: nat, y: nat|
        x < bs2.len() && y < bs2.len() && #[trigger] sigma(x) == #[trigger] sigma(y) implies x == y by {
        lemma_exits_reached(recs, maps, cl, a2, x as int);
        lemma_exits_reached(recs, maps, cl, a2, y as int);
        let lx = choose|l: Seq<bool>| l.len() == h && #[trigger] exit_at(recs, maps, cl, a2, l) == x;
        let ly = choose|l: Seq<bool>| l.len() == h && #[trigger] exit_at(recs, maps, cl, a2, l) == y;
        assert(exit_at(recs, maps, cl, a1, lx) == sigma(x));
        assert(exit_at(recs, maps, cl, a1, ly) == sigma(y));
        if x != y {
            lemma_conns_differ(recs, maps, lv, n2, x as int, y as int);
            let r = choose|r: Seq<bool>|
                r.len() == h && #[trigger] conn_exit(recs, maps, cl, bs2[x as int], r) != conn_exit(
                    recs,
                    maps,
                    cl,
                    bs2[y as int],
                    r,
                );
            assert(conn_exit(recs, maps, cl, bs1[sigma(x) as int], r) == pi(
                conn_exit(recs, maps, cl, bs2[x as int], r) as nat,
            ));
            assert(conn_exit(recs, maps, cl, bs1[sigma(y) as int], r) == pi(
                conn_exit(recs, maps, cl, bs2[y as int], r) as nat,
            ));
            lemma_conn_exit_bound(recs, maps, n2, x as int, r);
            lemma_conn_exit_bound(recs, maps, n2, y as int, r);
        }
    }
    assert(num_exits_of(recs[a2 as int]) == bs2.len());
    lemma_canonical_unique(recs, maps, cl, a1, a2, sigma);
}

/// Some sequence of length `n`.
pub(crate) open spec fn seq_of_len(n: nat) -> Seq<bool> {
    Seq::new(n, |i: int| false)
}

/// A B-connection of a stored node lands in the node's exits.
pub(crate) proof fn lemma_conn_exit_bound(
    recs: Seq<NodeRecord>,
    maps: Seq<Seq<usize>>,
    n: usize,
    k: int,
    r: Seq<bool>,
)
    requires
        store_wf(recs, maps),
        2 <= n < recs.len(),
        0 <= k < bconn_view(recs[n as int]->b_conns).len(),
    ensures
        0 <= conn_exit(
            recs,
            maps,
            (level_of(recs[n as int]) - 1) as nat,
            bconn_view(recs[n as int]->b_conns)[k],
            r,
        ) < num_exits_of(recs[n as int]),
{
    let rec = recs[n as int];
    assert(record_ok(recs, maps, n as int, rec));
    let cl = (level_of(rec) - 1) as nat;
    let b = bconn_view(rec->b_conns)[k];
    assert(crate::semantics::bconn_ok(recs, maps, n as int, cl, rec->num_exits, b));
    lemma_exit_bound(recs, maps, cl, b.target.0, r);
}

/// Canonical nodes of the same level that agree on every assignment, up to
/// an injective renaming of exits, are the same node, and the renaming is
/// the identity.
#[verifier::spinoff_prover]
pub(crate) proof fn lemma_canonical_unique(
    recs: Seq<NodeRecord>,
    maps: Seq<Seq<usize>>,
    lv: nat,
    n1: usize,
    n2: usize,
    pi: spec_fn(nat) -> nat,
)
    requires
        unique_setting(recs, maps, lv, n1, n2, pi),
    ensures
        n1 == n2,
        forall|x: nat| x < num_exits_of(recs[n2 as int]) ==> #[trigger] pi(x) == x,
    decreases lv, 2nat,
{
    let r1 = recs[n1 as int];
    let r2 = recs[n2 as int];
    let e2 = num_exits_of(r2);
    if lv == 0 {
        vstd::arithmetic::power2::lemma2_to64();
        let f = seq![false];
        let t = seq![true];
        assert(f[0] == false && t[0] == true);
        assert(exit_at(recs, maps, lv, n1, f) == pi(exit_at(recs, maps, lv, n2, f)));
        assert(exit_at(recs, maps, lv, n1, t) == pi(exit_at(recs, maps, lv, n2, t)));
        if r2 is Fork {
            assert(pi(0) != pi(1));
        }
        assert(same_record(r1, r2));
    } else {
        let cl = (lv - 1) as nat;
        assert(n1 >= 2 && n2 >= 2);
        assert(record_ok(recs, maps, n1 as int, r1));
        assert(record_ok(recs, maps, n2 as int, r2));
        let bs1 = bconn_view(r1->b_conns);
        let bs2 = bconn_view(r2->b_conns);
        lemma_unique_a(recs, maps, lv, n1, n2, pi);
        assert forall|x: int| 0 <= x < bs2.len() implies #[trigger] bs1[x].target == bs2[x].target by {
            lemma_unique_b(recs, maps, lv, n1, n2, pi, x);
        }
        assert forall|x: int| 0 <= x < bs1.len() implies (#[trigger] maps[bs1[x].return_map.0 as int]).len()
            == maps[bs2[x].return_map.0 as int].len() by {
            lemma_unique_b(recs, maps, lv, n1, n2, pi, x);
        }
        assert forall|x: int, y: int|
            0 <= x < bs1.len() && 0 <= y < maps[bs2[x].return_map.0 as int].len() implies #[trigger] maps[bs1[x].return_map.0 as int][y]
            == pi(maps[bs2[x].return_map.0 as int][y] as nat) by {
            lemma_unique_b(recs, maps, lv, n1, n2, pi, x);
        }
        // The concatenated return maps are renamed by `pi`, and both number
        // their exits first-seen, so `pi` is the identity.
        let c1 = concat_maps(maps, bs1);
        let c2 = concat_maps(maps, bs2);
        lemma_concat_renamed(maps, bs1, bs2, pi);
        lemma_seen_count_total(c1, num_exits_of(r1));
        lemma_seen_count_total(c2, e2);
        lemma_first_seen_renaming(c1, c2, pi, e2, c2.len());
        // The two records are the same.
        assert forall|x: int| 0 <= x < bs2.len() implies #[trigger] bs1[x] == bs2[x] by {
            let m1 = maps[bs1[x].return_map.0 as int];
            let m2 = maps[bs2[x].return_map.0 as int];
            assert(crate::semantics::bconn_ok(recs, maps, n2 as int, cl, r2->num_exits, bs2[x]));
            assert(crate::semantics::bconn_ok(recs, maps, n1 as int, cl, r1->num_exits, bs1[x]));
            assert forall|y: int| 0 <= y < m2.len() implies m1[y] == m2[y] by {
                assert(m2[y] < e2);
                assert(pi(m2[y] as nat) == m2[y]);
            }
            assert(m1 =~= m2);
        }
        assert(bs1 =~= bs2);
        assert(maps[r1->a_conn.return_map.0 as int] == identity_seq(bs1.len()));
        assert(maps[r2->a_conn.return_map.0 as int] == identity_seq(bs2.len()));
        assert(r1->a_conn == r2->a_conn);
        assert(record_key(r1) == record_key(r2));
        assert(same_record(r1, r2));
    }
}

/// Under the hypotheses of uniqueness, the B-connections at the same
/// position lead to the same node, and their return maps differ by `pi`.
#[verifier::spinoff_prover]
pub(crate) proof fn lemma_unique_b(
    recs: Seq<NodeRecord>,
    maps: Seq<Seq<usize>>,
    lv: nat,
    n1: usize,
    n2: usize,
    pi: spec_fn(nat) -> nat,
    x: int,
)
    requires
        unique_setting(recs, maps, lv, n1, n2, pi),
        lv >= 1,
        recs[n1 as int]->a_conn.target == recs[n2 as int]->a_conn.target,
        bconn_view(recs[n1 as int]->b_conns).len() == bconn_view(recs[n2 as int]->b_conns).len(),
        0 <= x < bconn_view(recs[n2 as int]->b_conns).len(),
    ensures
        bconn_view(recs[n1 as int]->b_conns)[x].target == bconn_view(recs[n2 as int]->b_conns)[x].target,
        maps[bconn_view(recs[n1 as int]->b_conns)[x].return_map.0 as int].len() == maps[bconn_view(
            recs[n2 as int]->b_conns,
        )[x].return_map.0 as int].len(),
        forall|y: int|
            0 <= y < maps[bconn_view(recs[n2 as int]->b_conns)[x].return_map.0 as int].len() ==> #[trigger] maps[bconn_view(
                recs[n1 as int]->b_conns,
            )[x].return_map.0 as int][y] == pi(
                maps[bconn_view(recs[n2 as int]->b_conns)[x].return_map.0 as int][y] as nat,
            ),
    decreases lv, 1nat,
{
    let cl = (lv - 1) as nat;
    let h = vars_at(cl);
    let r1 = recs[n1 as int];
    let r2 = recs[n2 as int];
    assert(n1 >= 2 && n2 >= 2);
    assert(record_ok(recs, maps, n1 as int, r1));
    assert(record_ok(recs, maps, n2 as int, r2));
    let a = r2->a_conn.target.0;
    let bs1 = bconn_view(r1->b_conns);
    let bs2 = bconn_view(r2->b_conns);
    let b1 = bs1[x];
    let b2 = bs2[x];
    let t1 = b1.target.0;
    let t2 = b2.target.0;
    let m1 = maps[b1.return_map.0 as int];
    let m2 = maps[b2.return_map.0 as int];
    let e2 = num_exits_of(r2);
    assert(crate::semantics::bconn_ok(recs, maps, n1 as int, cl, r1->num_exits, b1));
    assert(crate::semantics::bconn_ok(recs, maps, n2 as int, cl, r2->num_exits, b2));
    lemma_targets_canonical(recs, maps, cl, bs1, bs1.len());
    lemma_targets_canonical(recs, maps, cl, bs2, bs2.len());
    assert(canonical(recs, maps, cl, t1));
    assert(canonical(recs, maps, cl, t2));
    assert(distinct(m1));
    assert(distinct(m2));
    // A left half selecting B-connection `x` on both sides.
    assert(num_exits_of(recs[a as int]) == bs2.len());
    lemma_exits_reached(recs, maps, cl, a, x);
    let lx = choose|l: Seq<bool>| l.len() == h && #[trigger] exit_at(recs, maps, cl, a, l) == x;
    assert forall|r: Seq<bool>| r.len() == h implies #[trigger] conn_exit(recs, maps, cl, b1, r) == pi(
        conn_exit(recs, maps, cl, b2, r) as nat,
    ) by {
        lemma_split_exit(recs, maps, n1, lx, r);
        lemma_split_exit(recs, maps, n2, lx, r);
    }
    let tau = |y: nat|
        exit_at(
            recs,
            maps,
            cl,
            t1,
            choose|r: Seq<bool>| r.len() == h && #[trigger] exit_at(recs, maps, cl, t2, r) == y,
        );
    assert forall|r: Seq<bool>| r.len() == h implies #[trigger] exit_at(recs, maps, cl, t1, r) == tau(
        exit_at(recs, maps, cl, t2, r),
    ) by {
        let y = exit_at(recs, maps, cl, t2, r);
        let r2_ = choose|q: Seq<bool>| q.len() == h && #[trigger] exit_at(recs, maps, cl, t2, q) == y;
        assert(r2_.len() == h && exit_at(recs, maps, cl, t2, r2_) == y);
        assert(conn_exit(recs, maps, cl, b1, r) == pi(conn_exit(recs, maps, cl, b2, r) as nat));
        assert(conn_exit(recs, maps, cl, b1, r2_) == pi(conn_exit(recs, maps, cl, b2, r2_) as nat));
        lemma_exit_bound(recs, maps, cl, t1, r);
        lemma_exit_bound(recs, maps, cl, t1, r2_);
    }
    assert forall|y: nat, z: nat|
        y < num_exits_of(recs[t2 as int]) && z < num_exits_of(recs[t2 as int]) && #[trigger] tau(y)
            == #[trigger] tau(z) implies y == z by {
        lemma_exits_reached(recs, maps, cl, t2, y as int);
        lemma_exits_reached(recs, maps, cl, t2, z as int);
        let ry = choose|r: Seq<bool>| r.len() == h && #[trigger] exit_at(recs, maps, cl, t2, r) == y;
        let rz = choose|r: Seq<bool>| r.len() == h && #[trigger] exit_at(recs, maps, cl, t2, r) == z;
        assert(conn_exit(recs, maps, cl, b1, ry) == pi(conn_exit(recs, maps, cl, b2, ry) as nat));
        assert(conn_exit(recs, maps, cl, b1, rz) == pi(conn_exit(recs, maps, cl, b2, rz) as nat));
        assert(m2[y as int] < e2 && m2[z as int] < e2);
    }
    lemma_canonical_unique(recs, maps, cl, t1, t2, tau);
    assert forall|y: int| 0 <= y < m2.len() implies #[trigger] m1[y] == pi(m2[y] as nat) by {
        lemma_exits_reached(recs, maps, cl, t2, y);
        let ry = choose|r: Seq<bool>| r.len() == h && #[trigger] exit_at(recs, maps, cl, t2, r) == y;
        assert(conn_exit(recs, maps, cl, b1, ry) == pi(conn_exit(recs, maps, cl, b2, ry) as nat));
        assert(tau(y as nat) == y);
    }
}


/// The concatenation only reads the return maps of the connections.
pub(crate) proof fn lemma_concat_extends(maps1: Seq<Seq<usize>>, maps2: Seq<Seq<usize>>, bs: Seq<Connection>)
    requires
        extends_seq(maps1, maps2),
        forall|k: int| 0 <= k < bs.len() ==> (#[trigger] bs[k]).return_map.0 < maps1.len(),
    ensures
        concat_maps(maps2, bs) == concat_maps(maps1, bs),
    decreases bs.len(),
{
    if bs.len() > 0 {
        let w = bs.drop_last();
        assert forall|k: int| 0 <= k < w.len() implies (#[trigger] w[k]).return_map.0 < maps1.len() by {
            assert(w[k] == bs[k]);
        }
        lemma_concat_extends(maps1, maps2, w);
        assert(bs.last() == bs[bs.len() - 1]);
        assert(maps2[bs.last().return_map.0 as int] == maps1[bs.last().return_map.0 as int]);
    }
}

/// Canonical form survives growth of the store.
pub(crate) proof fn lemma_canonical_extends(
    recs1: Seq<NodeRecord>,
    maps1: Seq<Seq<usize>>,
    recs2: Seq<NodeRecord>,
    maps2: Seq<Seq<usize>>,
    lv: nat,
    id: usize,
)
    requires
        store_wf(recs1, maps1),
        extends_seq(recs1, recs2),
        extends_seq(maps1, maps2),
        canonical(recs1, maps1, lv, id),
    ensures
        canonical(recs2, maps2, lv, id),
    decreases lv, 1nat,
{
    assert(recs2[id as int] == recs1[id as int]);
    if lv > 0 {
        let rec = recs1[id as int];
        assert(id >= 2);
        assert(record_ok(recs1, maps1, id as int, rec));
        let cl = (lv - 1) as nat;
        let bs = bconn_view(rec->b_conns);
        lemma_canonical_extends(recs1, maps1, recs2, maps2, cl, rec->a_conn.target.0);
        lemma_targets_canonical_extends(recs1, maps1, recs2, maps2, cl, bs, bs.len());
        assert forall|k: int| 0 <= k < bs.len() implies (#[trigger] bs[k]).return_map.0 < maps1.len() by {
            assert(crate::semantics::bconn_ok(recs1, maps1, id as int, cl, rec->num_exits, bs[k]));
        }
        lemma_concat_extends(maps1, maps2, bs);
        assert forall|k: int| 0 <= k < bs.len() implies #[trigger] distinct(maps2[bs[k].return_map.0 as int]) by {
            assert(maps2[bs[k].return_map.0 as int] == maps1[bs[k].return_map.0 as int]);
        }
    }
}

pub(crate) proof fn lemma_targets_canonical_extends(
    recs1: Seq<NodeRecord>,
    maps1: Seq<Seq<usize>>,
    recs2: Seq<NodeRecord>,
    maps2: Seq<Seq<usize>>,
    cl: nat,
    bs: Seq<Connection>,
    k: nat,
)
    requires
        store_wf(recs1, maps1),
        extends_seq(recs1, recs2),
        extends_seq(maps1, maps2),
        targets_canonical(recs1, maps1, cl, bs, k),
    ensures
        targets_canonical(recs2, maps2, cl, bs, k),
    decreases cl + 1, 0nat, k,
{
    if k > 0 {
        lemma_targets_canonical_extends(recs1, maps1, recs2, maps2, cl, bs, (k - 1) as nat);
        lemma_canonical_extends(recs1, maps1, recs2, maps2, cl, bs[k - 1].target.0);
    }
}

/// Canonical form of a node already stored does not depend on later
/// growth of the store.
pub(crate) proof fn lemma_canonical_shrinks(
    recs1: Seq<NodeRecord>,
    maps1: Seq<Seq<usize>>,
    recs2: Seq<NodeRecord>,
    maps2: Seq<Seq<usize>>,
    lv: nat,
    id: usize,
)
    requires
        store_wf(recs1, maps1),
        extends_seq(recs1, recs2),
        extends_seq(maps1, maps2),
        id < recs1.len(),
        canonical(recs2, maps2, lv, id),
    ensures
        canonical(recs1, maps1, lv, id),
    decreases lv, 1nat,
{
    assert(recs2[id as int] == recs1[id as int]);
    if lv > 0 {
        let rec = recs1[id as int];
        assert(id >= 2);
        assert(record_ok(recs1, maps1, id as int, rec));
        let cl = (lv - 1) as nat;
        let bs = bconn_view(rec->b_conns);
        lemma_canonical_shrinks(recs1, maps1, recs2, maps2, cl, rec->a_conn.target.0);
        assert forall|k: int| 0 <= k < bs.len() implies (#[trigger] bs[k]).return_map.0 < maps1.len()
            && bs[k].target.0 < recs1.len() by {
            assert(crate::semantics::bconn_ok(recs1, maps1, id as int, cl, rec->num_exits, bs[k]));
        }
        lemma_targets_canonical_shrinks(recs1, maps1, recs2, maps2, cl, bs, bs.len());
        lemma_concat_extends(maps1, maps2, bs);
        assert forall|k: int| 0 <= k < bs.len() implies #[trigger] distinct(maps1[bs[k].return_map.0 as int]) by {
            assert(maps2[bs[k].return_map.0 as int] == maps1[bs[k].return_map.0 as int]);
            assert(distinct(maps2[bs[k].return_map.0 as int]));
        }
    }
}

pub(crate) proof fn lemma_targets_canonical_shrinks(
    recs1: Seq<NodeRecord>,
    maps1: Seq<Seq<usize>>,
    recs2: Seq<NodeRecord>,
    maps2: Seq<Seq<usize>>,
    cl: nat,
    bs: Seq<Connection>,
    k: nat,
)
    requires
        store_wf(recs1, maps1),
        extends_seq(recs1, recs2),
        extends_seq(maps1, maps2),
        k <= bs.len(),
        forall|q: int| 0 <= q < bs.len() ==> (#[trigger] bs[q]).target.0 < recs1.len(),
        targets_canonical(recs2, maps2, cl, bs, k),
    ensures
        targets_canonical(recs1, maps1, cl, bs, k),
    decreases cl + 1, 0nat, k,
{
    if k > 0 {
        lemma_targets_canonical_shrinks(recs1, maps1, recs2, maps2, cl, bs, (k - 1) as nat);
        assert(bs[k - 1].target.0 < recs1.len());
        lemma_canonical_shrinks(recs1, maps1, recs2, maps2, cl, bs[k - 1].target.0);
    }
}

/// A canonical node with a single exit: its A-connection leads, through
/// the map `[0]`, to a canonical single-exit node `c`, and its one
/// B-connection leads to `c` as well through the same map.
pub(crate) proof fn lemma_canonical_single(
    recs: Seq<NodeRecord>,
    maps: Seq<Seq<usize>>,
    lv: nat,
    id: usize,
)
    requires
        store_wf(recs, maps),
        lv >= 1,
        id < recs.len(),
        recs[id as int] is Internal,
        level_of(recs[id as int]) == lv,
        num_exits_of(recs[id as int]) == 1,
        canonical(recs, maps, (lv - 1) as nat, recs[id as int]->a_conn.target.0),
        maps[recs[id as int]->a_conn.return_map.0 as int] == seq![0usize],
        bconn_view(recs[id as int]->b_conns) == seq![recs[id as int]->a_conn],
    ensures
        canonical(recs, maps, lv, id),
{
    let rec = recs[id as int];
    let bs = bconn_view(rec->b_conns);
    let cl = (lv - 1) as nat;
    lemma_targets_canonical(recs, maps, cl, bs, bs.len());
    assert(bs.drop_last() =~= Seq::<Connection>::empty());
    assert(concat_maps(maps, bs.drop_last()) =~= Seq::<usize>::empty());
    assert(bs.last() == rec->a_conn);
    assert(concat_maps(maps, bs) =~= seq![0usize]);
    let cc = concat_maps(maps, bs);
    assert(seen_before(cc, 0));
    assert(occurs(cc, 0));
    assert(distinct(maps[bs[0].return_map.0 as int]));
}


/// An internal node whose children are canonical, whose B-connections are
/// pairwise distinct with injective return maps, and whose concatenated
/// return maps number its exits first-seen, is canonical.
pub(crate) proof fn lemma_canonical_intro(recs: Seq<NodeRecord>, maps: Seq<Seq<usize>>, id: usize)
    requires
        id < recs.len(),
        recs[id as int] is Internal,
        level_of(recs[id as int]) >= 1,
        canonical(recs, maps, (level_of(recs[id as int]) - 1) as nat, recs[id as int]->a_conn.target.0),
        forall|k: int|
            0 <= k < bconn_view(recs[id as int]->b_conns).len() ==> #[trigger] canonical(
                recs,
                maps,
                (level_of(recs[id as int]) - 1) as nat,
                bconn_view(recs[id as int]->b_conns)[k].target.0,
            ),
        forall|k: int|
            0 <= k < bconn_view(recs[id as int]->b_conns).len() ==> #[trigger] distinct(
                maps[bconn_view(recs[id as int]->b_conns)[k].return_map.0 as int],
            ),
        forall|k1: int, k2: int|
            0 <= k1 < bconn_view(recs[id as int]->b_conns).len() && 0 <= k2 < bconn_view(
                recs[id as int]->b_conns,
            ).len() && k1 != k2 ==> #[trigger] bconn_view(recs[id as int]->b_conns)[k1]
                != #[trigger] bconn_view(recs[id as int]->b_conns)[k2],
        reduction_ok(
            concat_maps(maps, bconn_view(recs[id as int]->b_conns)),
            num_exits_of(recs[id as int]),
        ),
    ensures
        canonical(recs, maps, level_of(recs[id as int]), id),
{
    let rec = recs[id as int];
    let bs = bconn_view(rec->b_conns);
    let lv = level_of(rec);
    lemma_targets_canonical(recs, maps, (lv - 1) as nat, bs, bs.len());
}

/// The return maps of two connections, one after the other.
pub(crate) proof fn lemma_concat_two(maps: Seq<Seq<usize>>, c0: Connection, c1: Connection)
    ensures
        concat_maps(maps, seq![c0, c1]) == maps[c0.return_map.0 as int] + maps[c1.return_map.0 as int],
        concat_maps(maps, seq![c0]) == maps[c0.return_map.0 as int],
{
    let two = seq![c0, c1];
    let one = seq![c0];
    assert(one.drop_last() =~= Seq::<Connection>::empty());
    assert(concat_maps(maps, one.drop_last()) =~= Seq::<usize>::empty());
    assert(concat_maps(maps, one) =~= maps[c0.return_map.0 as int]);
    assert(two.drop_last() =~= one);
}


/// The number of values a numbering uses after its first `t` entries,
/// starting from `c` values used before them.
pub(crate) open spec fn count_from(c: nat, s: Seq<usize>, t: nat) -> nat
    decreases t,
{
    if t == 0 {
        c
    } else {
        let d = count_from(c, s, (t - 1) as nat);
        if s[t - 1] == d {
            d + 1
        } else {
            d
        }
    }
}

/// Each entry of `s` is a value already used or the next one, counting
/// from `c` values used before `s`.
pub(crate) open spec fn fresh_ok(c: nat, s: Seq<usize>) -> bool {
    forall|i: int| 0 <= i < s.len() ==> #[trigger] s[i] <= count_from(c, s, i as nat)
}

/// The count only reads the entries before `t`.
pub(crate) proof fn lemma_count_from_prefix(c: nat, s1: Seq<usize>, s2: Seq<usize>, t: nat)
    requires
        t <= s1.len(),
        t <= s2.len(),
        forall|i: int| 0 <= i < t ==> #[trigger] s1[i] == s2[i],
    ensures
        count_from(c, s1, t) == count_from(c, s2, t),
    decreases t,
{
    if t > 0 {
        lemma_count_from_prefix(c, s1, s2, (t - 1) as nat);
        assert(s1[t - 1] == s2[t - 1]);
    }
}

/// Under `fresh_ok`, the entries before `t` lie below the count, and every
/// value from `c` up to the count is among them.
#[verifier::spinoff_prover]
pub(crate) proof fn lemma_fresh_values(c: nat, s: Seq<usize>, t: nat)
    requires
        forall|i: int| 0 <= i < t ==> #[trigger] s[i] <= count_from(c, s, i as nat),
        t <= s.len(),
    ensures
        forall|i: int| 0 <= i < t ==> #[trigger] s[i] < count_from(c, s, t),
        forall|v: int| c <= v < count_from(c, s, t) ==> #[trigger] occurs_in_prefix(s, t, v),
    decreases t,
{
    if t > 0 {
        let k = (t - 1) as nat;
        assert forall|i: int| 0 <= i < k implies #[trigger] s[i] <= count_from(c, s, i as nat) by {
            assert(i < t);
        }
        lemma_fresh_values(c, s, k);
        let d = count_from(c, s, k);
        let e = count_from(c, s, t);
        assert(s[k as int] <= d);
        assert(e == if s[k as int] == d { d + 1 } else { d });
        assert forall|i: int| 0 <= i < t implies #[trigger] s[i] < e by {
            if i < k {
                assert(s[i] < d);
            }
        }
        assert forall|v: int| c <= v < e implies #[trigger] occurs_in_prefix(s, t, v) by {
            if v < d {
                assert(occurs_in_prefix(s, k, v));
                let i = choose|i: int| 0 <= i < k && #[trigger] s[i] == v;
                assert(0 <= i < t && s[i] == v);
            } else {
                assert(s[k as int] == v);
            }
        }
    }
}

/// The first-seen numberings are the `fresh_ok` ones counting from zero,
/// and `seen_count` is the count from zero.
pub(crate) proof fn lemma_first_seen_fresh(s: Seq<usize>)
    ensures
        first_seen(s) <==> fresh_ok(0, s),
        forall|t: nat| #[trigger] seen_count(s, t) == count_from(0, s, t),
{
    assert forall|t: nat| #[trigger] seen_count(s, t) == count_from(0, s, t) by {
        lemma_seen_count_is_count(s, t);
    }
    if first_seen(s) {
        assert forall|i: int| 0 <= i < s.len() implies #[trigger] s[i] <= count_from(0, s, i as nat) by {
            lemma_seen_count(s, i as nat);
            assert(seen_before(s, i));
            if s[i] != 0 {
                let j = choose|j: int| 0 <= j < i && #[trigger] s[j] + 1 == s[i];
                assert(s[j] < seen_count(s, i as nat));
            }
        }
    }
    if fresh_ok(0, s) {
        assert forall|i: int| 0 <= i < s.len() implies #[trigger] seen_before(s, i) by {
            lemma_fresh_values(0, s, i as nat);
            if s[i] != 0 {
                assert(occurs_in_prefix(s, i as nat, s[i] - 1));
                let j = choose|j: int| 0 <= j < i && #[trigger] s[j] == s[i] - 1;
                assert(s[j] + 1 == s[i]);
            }
        }
    }
}

proof fn lemma_seen_count_is_count(s: Seq<usize>, t: nat)
    ensures
        seen_count(s, t) == count_from(0, s, t),
    decreases t,
{
    if t > 0 {
        lemma_seen_count_is_count(s, (t - 1) as nat);
    }
}

/// Appending: the count over `p + q` continues from the count over `p`,
/// and `p + q` is `fresh_ok` when `p` is and `q` is from there on.
pub(crate) proof fn lemma_fresh_append(c: nat, p: Seq<usize>, q: Seq<usize>)
    ensures
        forall|i: nat| i <= q.len() ==> #[trigger] count_from(c, p + q, p.len() + i) == count_from(
            count_from(c, p, p.len()),
            q,
            i,
        ),
        fresh_ok(c, p + q) <==> (fresh_ok(c, p) && fresh_ok(count_from(c, p, p.len()), q)),
{
    let pq = p + q;
    assert forall|t: nat| t <= p.len() implies #[trigger] count_from(c, pq, t) == count_from(c, p, t) by {
        lemma_count_from_prefix(c, pq, p, t);
    }
    assert forall|i: nat| i <= q.len() implies #[trigger] count_from(c, pq, p.len() + i) == count_from(
        count_from(c, p, p.len()),
        q,
        i,
    ) by {
        lemma_fresh_append_at(c, p, q, i);
    }
    if fresh_ok(c, pq) {
        assert forall|i: int| 0 <= i < p.len() implies #[trigger] p[i] <= count_from(c, p, i as nat) by {
            assert(pq[i] == p[i]);
            assert(count_from(c, pq, i as nat) == count_from(c, p, i as nat));
        }
        assert forall|i: int| 0 <= i < q.len() implies #[trigger] q[i] <= count_from(
            count_from(c, p, p.len()),
            q,
            i as nat,
        ) by {
            assert(pq[p.len() + i] == q[i]);
            assert(count_from(c, pq, p.len() + (i as nat)) == count_from(count_from(c, p, p.len()), q, i as nat));
        }
    }
    if fresh_ok(c, p) && fresh_ok(count_from(c, p, p.len()), q) {
        assert forall|i: int| 0 <= i < pq.len() implies #[trigger] pq[i] <= count_from(c, pq, i as nat) by {
            if i < p.len() {
                assert(pq[i] == p[i]);
                assert(count_from(c, pq, i as nat) == count_from(c, p, i as nat));
            } else {
                let j = (i - p.len()) as nat;
                assert(pq[i] == q[j as int]);
                assert(count_from(c, pq, p.len() + j) == count_from(count_from(c, p, p.len()), q, j));
            }
        }
    }
}

proof fn lemma_fresh_append_at(c: nat, p: Seq<usize>, q: Seq<usize>, i: nat)
    requires
        i <= q.len(),
    ensures
        count_from(c, p + q, p.len() + i) == count_from(count_from(c, p, p.len()), q, i),
    decreases i,
{
    if i == 0 {
        lemma_count_from_prefix(c, p + q, p, p.len());
    } else {
        lemma_fresh_append_at(c, p, q, (i - 1) as nat);
        assert((p + q)[p.len() + i - 1] == q[i - 1]);
    }
}

/// A block whose entries all lie below the count adds no value.
pub(crate) proof fn lemma_fresh_no_new(c: nat, s: Seq<usize>, t: nat)
    requires
        t <= s.len(),
        forall|i: int| 0 <= i < s.len() ==> #[trigger] s[i] < c,
    ensures
        count_from(c, s, t) == c,
        fresh_ok(c, s),
    decreases t,
{
    if t > 0 {
        lemma_fresh_no_new(c, s, (t - 1) as nat);
    }
    assert forall|i: int| 0 <= i < s.len() implies #[trigger] s[i] <= count_from(c, s, i as nat) by {
        lemma_fresh_no_new_at(c, s, i as nat);
    }
}

proof fn lemma_fresh_no_new_at(c: nat, s: Seq<usize>, t: nat)
    requires
        t <= s.len(),
        forall|i: int| 0 <= i < s.len() ==> #[trigger] s[i] < c,
    ensures
        count_from(c, s, t) == c,
    decreases t,
{
    if t > 0 {
        lemma_fresh_no_new_at(c, s, (t - 1) as nat);
    }
}


/// `red` read at each entry of `cs`.
pub(crate) open spec fn compose_seq(cs: Seq<usize>, red: Seq<usize>) -> Seq<usize> {
    Seq::new(cs.len(), |i: int| red[cs[i] as int])
}

/// A first-seen numbering counted from zero, as `reduction_ok` states it.
pub(crate) proof fn lemma_reduction_fresh(s: Seq<usize>, n: nat)
    ensures
        reduction_ok(s, n) ==> fresh_ok(0, s) && count_from(0, s, s.len()) == n,
        fresh_ok(0, s) && count_from(0, s, s.len()) == n ==> reduction_ok(s, n),
{
    lemma_first_seen_fresh(s);
    if reduction_ok(s, n) {
        lemma_seen_count_total(s, n);
    }
    if fresh_ok(0, s) && count_from(0, s, s.len()) == n {
        lemma_fresh_values(0, s, s.len());
        assert forall|v: int| 0 <= v < n implies #[trigger] occurs(s, v) by {
            assert(occurs_in_prefix(s, s.len(), v));
            let i = choose|i: int| 0 <= i < s.len() && #[trigger] s[i] == v;
            assert(s[i] == v);
        }
    }
}

/// Reading a first-seen numbering `red` along a first-seen numbering `cs`
/// gives a first-seen numbering, whose count is `red`'s count at `cs`'s.
pub(crate) proof fn lemma_compose_fresh(cs: Seq<usize>, red: Seq<usize>)
    requires
        fresh_ok(0, red),
        fresh_ok(0, cs),
        forall|i: int| 0 <= i < cs.len() ==> #[trigger] cs[i] < red.len(),
    ensures
        fresh_ok(0, compose_seq(cs, red)),
        forall|t: nat|
            t <= cs.len() ==> #[trigger] count_from(0, compose_seq(cs, red), t) == count_from(
                0,
                red,
                count_from(0, cs, t),
            ),
{
    assert forall|t: nat| t <= cs.len() implies #[trigger] count_from(0, compose_seq(cs, red), t)
        == count_from(0, red, count_from(0, cs, t)) && (t < cs.len() ==> compose_seq(cs, red)[t as int]
        <= count_from(0, compose_seq(cs, red), t)) by {
        lemma_compose_count(cs, red, t);
    }
    let d = compose_seq(cs, red);
    assert forall|i: int| 0 <= i < d.len() implies #[trigger] d[i] <= count_from(0, d, i as nat) by {
        lemma_compose_count(cs, red, i as nat);
    }
}

#[verifier::spinoff_prover]
proof fn lemma_compose_count(cs: Seq<usize>, red: Seq<usize>, t: nat)
    requires
        fresh_ok(0, red),
        fresh_ok(0, cs),
        forall|i: int| 0 <= i < cs.len() ==> #[trigger] cs[i] < red.len(),
        t <= cs.len(),
    ensures
        count_from(0, compose_seq(cs, red), t) == count_from(0, red, count_from(0, cs, t)),
        count_from(0, cs, t) <= red.len(),
        t < cs.len() ==> compose_seq(cs, red)[t as int] <= count_from(0, compose_seq(cs, red), t),
    decreases t,
{
    let d = compose_seq(cs, red);
    if t > 0 {
        let k = (t - 1) as nat;
        lemma_compose_count(cs, red, k);
        let a = count_from(0, cs, k);
        let b = count_from(0, red, a);
        assert(cs[k as int] <= a);
        if cs[k as int] < a {
            lemma_fresh_values(0, red, a);
            assert(d[k as int] == red[cs[k as int] as int]);
            assert(d[k as int] < b);
        } else {
            assert(red[a as int] <= b);
            assert(d[k as int] == red[a as int]);
        }
    }
    if t < cs.len() {
        let a = count_from(0, cs, t);
        let b = count_from(0, red, a);
        assert(cs[t as int] <= a);
        if cs[t as int] < a {
            lemma_fresh_values(0, red, a);
        } else {
            assert(red[a as int] <= b);
        }
        assert(d[t as int] == red[cs[t as int] as int]);
    }
}

/// A numbering `o` listed by first use along a numbering `s` (each entry
/// of `s` is `o` at a first-seen index onto `o`) takes on `s`'s freshness
/// and count.
pub(crate) proof fn lemma_dedup_fresh(c: nat, s: Seq<usize>, o: Seq<usize>, ind: Seq<usize>)
    requires
        fresh_ok(c, s),
        ind.len() == s.len(),
        reduction_ok(ind, o.len()),
        forall|i: int| 0 <= i < ind.len() ==> #[trigger] o[ind[i] as int] == s[i],
    ensures
        fresh_ok(c, o),
        count_from(c, o, o.len()) == count_from(c, s, s.len()),
{
    lemma_dedup_step(c, s, o, ind, s.len());
    lemma_reduction_fresh(ind, o.len());
}

#[verifier::spinoff_prover]
proof fn lemma_dedup_step(c: nat, s: Seq<usize>, o: Seq<usize>, ind: Seq<usize>, t: nat)
    requires
        fresh_ok(c, s),
        ind.len() == s.len(),
        reduction_ok(ind, o.len()),
        forall|i: int| 0 <= i < ind.len() ==> #[trigger] o[ind[i] as int] == s[i],
        t <= s.len(),
    ensures
        count_from(0, ind, t) <= o.len(),
        forall|j: int| 0 <= j < count_from(0, ind, t) ==> #[trigger] o[j] <= count_from(c, o, j as nat),
        count_from(c, o, count_from(0, ind, t)) == count_from(c, s, t),
    decreases t,
{
    if t > 0 {
        let k = (t - 1) as nat;
        lemma_dedup_step(c, s, o, ind, k);
        let p = count_from(0, ind, k);
        lemma_reduction_fresh(ind, o.len());
        assert(ind[k as int] <= p);
        assert(ind[k as int] < o.len());
        assert(s[k as int] <= count_from(c, s, k));
        if ind[k as int] < p {
            lemma_fresh_values(c, o, p);
            assert(o[ind[k as int] as int] < count_from(c, o, p));
        } else {
            assert forall|j: int| 0 <= j < p + 1 implies #[trigger] o[j] <= count_from(c, o, j as nat) by {
                if j == p {
                    assert(o[ind[k as int] as int] == s[k as int]);
                }
            }
        }
    }
}


/// The concatenation splits at any connection.
pub(crate) proof fn lemma_concat_take(maps: Seq<Seq<usize>>, bs: Seq<Connection>, j: int)
    requires
        0 <= j <= bs.len(),
    ensures
        concat_maps(maps, bs) == concat_maps(maps, bs.take(j)) + concat_maps(maps, bs.skip(j)),
    decreases bs.len(),
{
    if j == bs.len() {
        assert(bs.take(j) =~= bs);
        assert(bs.skip(j) =~= Seq::<Connection>::empty());
        assert(concat_maps(maps, bs) + Seq::<usize>::empty() =~= concat_maps(maps, bs));
    } else {
        let w = bs.drop_last();
        lemma_concat_take(maps, w, j);
        assert(w.take(j) =~= bs.take(j));
        assert(bs.skip(j).drop_last() =~= w.skip(j));
        assert(bs.skip(j).last() == bs.last());
        assert(concat_maps(maps, bs.skip(j)) == concat_maps(maps, w.skip(j)) + maps[bs.last().return_map.0 as int]);
        assert(concat_maps(maps, bs) =~= concat_maps(maps, bs.take(j)) + concat_maps(maps, bs.skip(j)));
    }
}

/// Appending one connection appends its return map.
pub(crate) proof fn lemma_concat_push(maps: Seq<Seq<usize>>, bs: Seq<Connection>, c: Connection)
    ensures
        concat_maps(maps, bs.push(c)) == concat_maps(maps, bs) + maps[c.return_map.0 as int],
{
    assert(bs.push(c).drop_last() =~= bs);
    assert(bs.push(c).last() == c);
}

/// Reading along a concatenation is concatenating the readings.
pub(crate) proof fn lemma_compose_append(p: Seq<usize>, q: Seq<usize>, red: Seq<usize>)
    ensures
        compose_seq(p + q, red) == compose_seq(p, red) + compose_seq(q, red),
{
    assert(compose_seq(p + q, red) =~= compose_seq(p, red) + compose_seq(q, red));
}


/// Appending a value already counted, or the next one.
pub(crate) proof fn lemma_fresh_push(c: nat, s: Seq<usize>, v: usize)
    requires
        fresh_ok(c, s),
        v <= count_from(c, s, s.len()),
    ensures
        fresh_ok(c, s.push(v)),
        count_from(c, s.push(v), s.len() + 1) == if v == count_from(c, s, s.len()) {
            count_from(c, s, s.len()) + 1
        } else {
            count_from(c, s, s.len())
        },
{
    let sp = s.push(v);
    assert forall|t: nat| t <= s.len() implies #[trigger] count_from(c, sp, t) == count_from(c, s, t) by {
        lemma_count_from_prefix(c, sp, s, t);
    }
    assert forall|i: int| 0 <= i < sp.len() implies #[trigger] sp[i] <= count_from(c, sp, i as nat) by {
        if i < s.len() {
            assert(sp[i] == s[i]);
            assert(count_from(c, sp, i as nat) == count_from(c, s, i as nat));
        } else {
            assert(count_from(c, sp, s.len()) == count_from(c, s, s.len()));
        }
    }
    assert(count_from(c, sp, s.len()) == count_from(c, s, s.len()));
    assert(sp[s.len() as int] == v);
}

} // verus!
