//! Path counting.
//!
//! For each node we want, per exit, the number of assignments to the
//! node's variables that reach that exit. Counts are kept in `i128`
//! linear space and memoized per node id on the manager.
//!
//! Leaves:
//! - `DontCare` (one exit): `paths = [2]`, both values of its variable
//!   reach the exit.
//! - `Fork` (two exits): `paths = [1, 1]`.
//!
//! Internal node with A-connection target `A` and B-connections `b_i`:
//!
//! ```text
//! paths[k] = sum over (i, j) with b_i.return_map[j] == k
//!   of  paths_A[i] * paths_{b_i}[j]
//! ```
//!
//! (the A-connection's return map is the identity). The count of
//! satisfying assignments of a `Bdd` sums the root's counts over the exits
//! whose value is 1. At level 6 there are `2^64` assignments, so every
//! count fits an `i128`.

use crate::counting::{
    both_halves, count_where, entry_true, lemma_count_all, lemma_count_complement,
    lemma_count_entry, lemma_count_ext, lemma_count_le, lemma_count_none, lemma_count_partition,
    lemma_count_split, lemma_sum_ext, lemma_sum_mono, sum_to, with_value,
};
use crate::manager::{Bdd, Manager};
use crate::node::{bconn_view, BConnVec, Connection, NodeId, NodeRecord};
use crate::return_map::rmv_view;
use crate::semantics::{
    bconn_ok, conn_ok, exit_at, extends_seq, identity_seq, lemma_exit_bound, lemma_exit_extends,
    lemma_exit_internal, lemma_vars_unfold, level_of, node_ok, num_exits_of, record_key, record_ok,
    same_record, store_wf, vars_at,
};
use vstd::arithmetic::power2::pow2;
use vstd::prelude::*;

verus! {

/// Memo cache keyed by node id: a `hashbrown::HashMap` from the id's
/// number to the node's per-exit path counts.
#[verifier::external_body]
pub struct PathCountCache {
    paths: hashbrown::HashMap<usize, Vec<i128>>,
}

/// What the path-count cache holds, each id by its number.
pub uninterp spec fn path_cache_contents(c: PathCountCache) -> Map<usize, Seq<i128>>;

impl PathCountCache {
    /// Calls `hashbrown::HashMap::new`: the cache is empty.
    #[verifier::external_body]
    pub(crate) fn new() -> (r: PathCountCache)
        ensures
            path_cache_contents(r) =~= Map::empty(),
    {
        PathCountCache { paths: hashbrown::HashMap::new() }
    }

    /// Calls `hashbrown::HashMap::get` and clones the counts found: a copy
    /// of what is stored under `id`, if anything is.
    #[verifier::external_body]
    pub(crate) fn get(&self, id: usize) -> (r: Option<Vec<i128>>)
        ensures
            r is Some <==> path_cache_contents(*self).contains_key(id),
            r matches Some(v) ==> v@ == path_cache_contents(*self)[id],
    {
        self.paths.get(&id).cloned()
    }

    /// Calls `hashbrown::HashMap::insert`: afterwards `id` maps to
    /// `counts` and every other entry is unchanged.
    #[verifier::external_body]
    pub(crate) fn insert(&mut self, id: usize, counts: Vec<i128>)
        ensures
            path_cache_contents(*final(self)) == path_cache_contents(*old(self)).insert(id, counts@),
    {
        self.paths.insert(id, counts);
    }
}

/// On an assignment, node `id` read at level `lv` picks exit `k`.
pub(crate) open spec fn exit_is(
    recs: Seq<NodeRecord>,
    maps: Seq<Seq<usize>>,
    lv: nat,
    id: usize,
    k: int,
) -> spec_fn(Seq<bool>) -> bool {
    |a: Seq<bool>| exit_at(recs, maps, lv, id, a) == k
}

/// The number of assignments of a level-`lv` node's variables on which
/// node `id` picks exit `k`.
pub(crate) open spec fn exit_count(
    recs: Seq<NodeRecord>,
    maps: Seq<Seq<usize>>,
    lv: nat,
    id: usize,
    k: int,
) -> nat {
    count_where(vars_at(lv), exit_is(recs, maps, lv, id, k))
}

/// The exit node `id` picks, read at level `lv`, on the first `h` entries.
pub(crate) open spec fn left_exit(
    recs: Seq<NodeRecord>,
    maps: Seq<Seq<usize>>,
    lv: nat,
    id: usize,
    h: int,
) -> spec_fn(Seq<bool>) -> int {
    |a: Seq<bool>| exit_at(recs, maps, lv, id, a.subrange(0, h)) as int
}

/// The exit node `id` picks, read at level `lv`, on the entries from `h`
/// on.
pub(crate) open spec fn right_exit(
    recs: Seq<NodeRecord>,
    maps: Seq<Seq<usize>>,
    lv: nat,
    id: usize,
    h: int,
) -> spec_fn(Seq<bool>) -> int {
    |a: Seq<bool>| exit_at(recs, maps, lv, id, a.subrange(h, a.len() as int)) as int
}

/// The exit node `id` picks, read at level `lv`.
pub(crate) open spec fn exit_fn(
    recs: Seq<NodeRecord>,
    maps: Seq<Seq<usize>>,
    lv: nat,
    id: usize,
) -> spec_fn(Seq<bool>) -> int {
    |a: Seq<bool>| exit_at(recs, maps, lv, id, a) as int
}

/// Term `j` of the count of exit `k` that flows from A-exit `i` through
/// B-connection `b`: the A-count times the B-count when `b` sends its
/// exit `j` to `k`.
pub(crate) open spec fn via_b_term(
    recs: Seq<NodeRecord>,
    maps: Seq<Seq<usize>>,
    cl: nat,
    a_target: usize,
    i: int,
    b: Connection,
    k: int,
) -> spec_fn(int) -> int {
    |j: int|
        if maps[b.return_map.0 as int][j] == k {
            (exit_count(recs, maps, cl, a_target, i) * exit_count(recs, maps, cl, b.target.0, j)) as int
        } else {
            0int
        }
}

/// The terms `j < upto` of `via_b_term`.
pub(crate) open spec fn via_b(
    recs: Seq<NodeRecord>,
    maps: Seq<Seq<usize>>,
    cl: nat,
    a_target: usize,
    i: int,
    b: Connection,
    k: int,
    upto: nat,
) -> int {
    sum_to(upto, via_b_term(recs, maps, cl, a_target, i, b, k))
}

/// The count of exit `k` that flows from A-exit `i`.
pub(crate) open spec fn via_a_term(
    recs: Seq<NodeRecord>,
    maps: Seq<Seq<usize>>,
    cl: nat,
    a_target: usize,
    bs: Seq<Connection>,
    k: int,
) -> spec_fn(int) -> int {
    |i: int| via_b(recs, maps, cl, a_target, i, bs[i], k, maps[bs[i].return_map.0 as int].len())
}

/// The count of exit `k` that flows from the A-exits below `upto`.
pub(crate) open spec fn via_a(
    recs: Seq<NodeRecord>,
    maps: Seq<Seq<usize>>,
    cl: nat,
    a_target: usize,
    bs: Seq<Connection>,
    k: int,
    upto: nat,
) -> int {
    sum_to(upto, via_a_term(recs, maps, cl, a_target, bs, k))
}

/// Term `x` of the satisfying count: the count of exit `x` of `root`
/// when the value map `vals` sends `x` to 1.
pub(crate) open spec fn value_term(
    recs: Seq<NodeRecord>,
    maps: Seq<Seq<usize>>,
    lv: nat,
    root: usize,
    vals: Seq<usize>,
) -> spec_fn(int) -> int {
    |x: int|
        if vals[x] == 1 {
            exit_count(recs, maps, lv, root, x) as int
        } else {
            0int
        }
}

/// `p` holds the path counts of node `id`, one per exit.
pub(crate) open spec fn paths_ok(
    recs: Seq<NodeRecord>,
    maps: Seq<Seq<usize>>,
    id: usize,
    p: Seq<i128>,
) -> bool {
    &&& id < recs.len()
    &&& p.len() == num_exits_of(recs[id as int])
    &&& forall|k: int|
        0 <= k < p.len() ==> #[trigger] p[k] == exit_count(recs, maps, level_of(recs[id as int]), id, k)
}

/// Path counts of stored nodes do not change when the store grows.
pub(crate) proof fn lemma_exit_count_extends(
    recs1: Seq<NodeRecord>,
    maps1: Seq<Seq<usize>>,
    recs2: Seq<NodeRecord>,
    maps2: Seq<Seq<usize>>,
    lv: nat,
    id: usize,
    k: int,
)
    requires
        store_wf(recs1, maps1),
        extends_seq(recs1, recs2),
        extends_seq(maps1, maps2),
        node_ok(recs1, id, lv),
    ensures
        exit_count(recs2, maps2, lv, id, k) == exit_count(recs1, maps1, lv, id, k),
{
    let p2 = exit_is(recs2, maps2, lv, id, k);
    let p1 = exit_is(recs1, maps1, lv, id, k);
    assert forall|a: Seq<bool>| a.len() == vars_at(lv) implies #[trigger] p2(a) == p1(a) by {
        lemma_exit_extends(recs1, maps1, recs2, maps2, lv, id, a);
    }
    lemma_count_ext(vars_at(lv), p2, p1);
}

/// A node's path counts are at most the number of assignments of its
/// variables.
pub(crate) proof fn lemma_exit_count_le(
    recs: Seq<NodeRecord>,
    maps: Seq<Seq<usize>>,
    lv: nat,
    id: usize,
    k: int,
)
    requires
        lv <= 6,
    ensures
        exit_count(recs, maps, lv, id, k) <= 0x10000000000000000,
        lv <= 5 ==> exit_count(recs, maps, lv, id, k) <= 0x100000000,
{
    lemma_count_le(vars_at(lv), exit_is(recs, maps, lv, id, k));
    vstd::arithmetic::power2::lemma2_to64();
    if lv < 6 {
        vstd::arithmetic::power2::lemma_pow2_strictly_increases(lv, 6);
    }
    if lv < 5 {
        vstd::arithmetic::power2::lemma_pow2_strictly_increases(lv, 5);
    }
    if vars_at(lv) < 64 {
        vstd::arithmetic::power2::lemma_pow2_strictly_increases(vars_at(lv), 64);
    }
    if vars_at(lv) < 32 {
        vstd::arithmetic::power2::lemma_pow2_strictly_increases(vars_at(lv), 32);
    }
}

/// The count of one (A-exit, B-exit) cell of an internal node: the
/// assignments whose left half reaches A-exit `i` and whose right half
/// reaches exit `j` of the selected B-connection count as the product of
/// the two counts, and reach exit `k` exactly when the B-connection sends
/// `j` to `k`.
proof fn lemma_cell_count(
    recs: Seq<NodeRecord>,
    maps: Seq<Seq<usize>>,
    id: usize,
    k: int,
    i: int,
    j: int,
)
    requires
        store_wf(recs, maps),
        2 <= id < recs.len(),
        0 <= i < bconn_view(recs[id as int]->b_conns).len(),
        0 <= j < maps[bconn_view(recs[id as int]->b_conns)[i].return_map.0 as int].len(),
    ensures
        ({
            let lv = level_of(recs[id as int]);
            let cl = (lv - 1) as nat;
            let h = vars_at(cl) as int;
            let a_conn = recs[id as int]->a_conn;
            let b = bconn_view(recs[id as int]->b_conns)[i];
            count_where(
                vars_at(lv),
                with_value(
                    with_value(exit_is(recs, maps, lv, id, k), left_exit(recs, maps, cl, a_conn.target.0, h), i),
                    right_exit(recs, maps, cl, b.target.0, h),
                    j,
                ),
            ) == via_b_term(recs, maps, cl, a_conn.target.0, i, b, k)(j)
        }),
{
    let r = recs[id as int];
    assert(record_ok(recs, maps, id as int, r));
    let lv = level_of(r);
    let cl = (lv - 1) as nat;
    let h = vars_at(cl) as int;
    let a_conn = r->a_conn;
    let bs = bconn_view(r->b_conns);
    let b = bs[i];
    let rm = maps[b.return_map.0 as int];
    lemma_vars_unfold(lv);
    let n = vars_at(lv);
    let pred = with_value(
        with_value(exit_is(recs, maps, lv, id, k), left_exit(recs, maps, cl, a_conn.target.0, h), i),
        right_exit(recs, maps, cl, b.target.0, h),
        j,
    );
    let pa = exit_is(recs, maps, cl, a_conn.target.0, i);
    let pb = exit_is(recs, maps, cl, b.target.0, j);
    assert(bconn_ok(recs, maps, id as int, cl, r->num_exits, b));
    // On an assignment whose halves reach A-exit `i` and B-exit `j`, the
    // node reaches exit `rm[j]`.
    assert forall|a: Seq<bool>| a.len() == n implies #[trigger] pred(a) == (rm[j] == k && both_halves(
        h as nat,
        pa,
        pb,
    )(a)) by {
        lemma_exit_internal(recs, maps, lv, id, a);
        let left = a.subrange(0, h);
        let right = a.subrange(h, a.len() as int);
        let e = exit_at(recs, maps, cl, a_conn.target.0, left);
        lemma_exit_bound(recs, maps, cl, a_conn.target.0, left);
        assert(maps[a_conn.return_map.0 as int] == identity_seq(bs.len()));
        if e == i {
            assert(maps[a_conn.return_map.0 as int][e as int] == e);
        }
    }
    if rm[j] == k {
        lemma_count_ext(n, pred, both_halves(h as nat, pa, pb));
        lemma_count_split(h as nat, h as nat, pa, pb);
        assert(h as nat + h as nat == n);
    } else {
        lemma_count_none(n, pred);
    }
}

/// The path count of exit `k` of an internal node is the sum, over its
/// A-exits `i` and the exits `j` of the selected B-connection that lead
/// to `k`, of the product of the two counts.
pub(crate) proof fn lemma_exit_count_internal(recs: Seq<NodeRecord>, maps: Seq<Seq<usize>>, id: usize, k: int)
    requires
        store_wf(recs, maps),
        2 <= id < recs.len(),
    ensures
        exit_count(recs, maps, level_of(recs[id as int]), id, k) == via_a(
            recs,
            maps,
            (level_of(recs[id as int]) - 1) as nat,
            recs[id as int]->a_conn.target.0,
            bconn_view(recs[id as int]->b_conns),
            k,
            bconn_view(recs[id as int]->b_conns).len(),
        ),
{
    let r = recs[id as int];
    assert(record_ok(recs, maps, id as int, r));
    let lv = level_of(r);
    let cl = (lv - 1) as nat;
    let h = vars_at(cl) as int;
    let a_conn = r->a_conn;
    let bs = bconn_view(r->b_conns);
    lemma_vars_unfold(lv);
    let n = vars_at(lv);
    let p = exit_is(recs, maps, lv, id, k);
    let f1 = left_exit(recs, maps, cl, a_conn.target.0, h);
    assert forall|a: Seq<bool>| a.len() == n implies 0 <= #[trigger] f1(a) < bs.len() by {
        lemma_exit_bound(recs, maps, cl, a_conn.target.0, a.subrange(0, h));
    }
    lemma_count_partition(n, p, f1, bs.len());
    let g1 = |v: int| count_where(n, with_value(p, f1, v)) as int;
    let ga = via_a_term(recs, maps, cl, a_conn.target.0, bs, k);
    assert forall|i: int| 0 <= i < bs.len() implies #[trigger] g1(i) == ga(i) by {
        let b = bs[i];
        assert(bconn_ok(recs, maps, id as int, cl, r->num_exits, b));
        let q = with_value(p, f1, i);
        let f2 = right_exit(recs, maps, cl, b.target.0, h);
        let m2 = maps[b.return_map.0 as int].len();
        assert forall|a: Seq<bool>| a.len() == n implies 0 <= #[trigger] f2(a) < m2 by {
            lemma_exit_bound(recs, maps, cl, b.target.0, a.subrange(h, a.len() as int));
        }
        lemma_count_partition(n, q, f2, m2);
        let g2 = |v: int| count_where(n, with_value(q, f2, v)) as int;
        let gb = via_b_term(recs, maps, cl, a_conn.target.0, i, b, k);
        assert forall|j: int| 0 <= j < m2 implies #[trigger] g2(j) == gb(j) by {
            lemma_cell_count(recs, maps, id, k, i, j);
        }
        lemma_sum_ext(m2, g2, gb);
    }
    lemma_sum_ext(bs.len(), g1, ga);
}

/// Partial sums of the internal-node formula stay within the total, and
/// finishing A-exit `i` moves on to `i + 1`.
proof fn lemma_via_partial(
    recs: Seq<NodeRecord>,
    maps: Seq<Seq<usize>>,
    cl: nat,
    a_target: usize,
    bs: Seq<Connection>,
    k: int,
    i: int,
    j: nat,
)
    requires
        0 <= i < bs.len(),
        j <= maps[bs[i].return_map.0 as int].len(),
    ensures
        0 <= via_a(recs, maps, cl, a_target, bs, k, i as nat) + via_b(recs, maps, cl, a_target, i, bs[i], k, j)
            <= via_a(recs, maps, cl, a_target, bs, k, bs.len()),
        via_a(recs, maps, cl, a_target, bs, k, i as nat) + via_b(
            recs,
            maps,
            cl,
            a_target,
            i,
            bs[i],
            k,
            maps[bs[i].return_map.0 as int].len(),
        ) == via_a(recs, maps, cl, a_target, bs, k, (i + 1) as nat),
{
    let ga = via_a_term(recs, maps, cl, a_target, bs, k);
    let full = maps[bs[i].return_map.0 as int].len();
    let gb = via_b_term(recs, maps, cl, a_target, i, bs[i], k);
    assert forall|v: int| 0 <= v < full implies #[trigger] gb(v) >= 0 by {
        let x = exit_count(recs, maps, cl, a_target, i);
        let y = exit_count(recs, maps, cl, bs[i].target.0, v);
        assert(x * y >= 0) by (nonlinear_arith)
            requires
                x >= 0,
                y >= 0,
        ;
    }
    lemma_sum_mono(j, full, gb);
    assert forall|v: int| 0 <= v < bs.len() implies #[trigger] ga(v) >= 0 by {
        let fv = maps[bs[v].return_map.0 as int].len();
        let gv = via_b_term(recs, maps, cl, a_target, v, bs[v], k);
        assert forall|w: int| 0 <= w < fv implies #[trigger] gv(w) >= 0 by {
            let x = exit_count(recs, maps, cl, a_target, v);
            let y = exit_count(recs, maps, cl, bs[v].target.0, w);
            assert(x * y >= 0) by (nonlinear_arith)
                requires
                    x >= 0,
                    y >= 0,
            ;
        }
        lemma_sum_mono(0, fv, gv);
    }
    lemma_sum_mono((i + 1) as nat, bs.len(), ga);
    lemma_sum_mono(i as nat, bs.len(), ga);
    assert(sum_to((i + 1) as nat, ga) == sum_to(i as nat, ga) + ga(i));
}

impl Manager {
    /// Every cached path-count vector is correct.
    pub(crate) open spec fn path_cache_wf(&self) -> bool {
        let c = path_cache_contents(self.path_counts);
        forall|id: usize| #[trigger] c.contains_key(id) ==> paths_ok(self.recs(), self.maps(), id, c[id])
    }

    pub(crate) proof fn lemma_path_cache_grows(earlier: Manager, later: Manager)
        requires
            store_wf(earlier.recs(), earlier.maps()),
            earlier.path_cache_wf(),
            later.grows_from(earlier),
            later.path_counts == earlier.path_counts,
        ensures
            later.path_cache_wf(),
    {
        let c = path_cache_contents(later.path_counts);
        assert forall|id: usize| #[trigger] c.contains_key(id) implies paths_ok(
            later.recs(),
            later.maps(),
            id,
            c[id],
        ) by {
            let p = c[id];
            assert(paths_ok(earlier.recs(), earlier.maps(), id, p));
            assert(later.recs()[id as int] == earlier.recs()[id as int]);
            let lv = level_of(earlier.recs()[id as int]);
            assert forall|k: int| 0 <= k < p.len() implies #[trigger] p[k] == exit_count(
                later.recs(),
                later.maps(),
                lv,
                id,
                k,
            ) by {
                lemma_exit_count_extends(earlier.recs(), earlier.maps(), later.recs(), later.maps(), lv, id, k);
            }
        }
    }

    /// The number of assignments of the manager's variables on which `f`
    /// is true.
    pub open spec fn sat_count(&self, f: Bdd) -> nat {
        count_where(self.num_vars(), |a: Seq<bool>| self.value(f, a))
    }

    /// The count of satisfying assignments depends only on the function
    /// denoted: Bdds with the same value on every assignment, in states
    /// over the same variables, have the same count.
    pub proof fn lemma_sat_count_by_value(m1: Manager, f: Bdd, m2: Manager, g: Bdd)
        requires
            m1.num_vars() == m2.num_vars(),
            forall|a: Seq<bool>| a.len() == m1.num_vars() ==> #[trigger] m1.value(f, a) == m2.value(g, a),
        ensures
            m1.sat_count(f) == m2.sat_count(g),
    {
        let p = |a: Seq<bool>| m1.value(f, a);
        let q = |a: Seq<bool>| m2.value(g, a);
        assert forall|a: Seq<bool>| a.len() == m1.num_vars() implies #[trigger] p(a) == q(a) by {
            assert(m1.value(f, a) == m2.value(g, a));
        }
        lemma_count_ext(m1.num_vars(), p, q);
    }

    /// A Bdd's count of satisfying assignments stays the same as its
    /// manager grows.
    pub proof fn lemma_sat_count_extends(later: Manager, earlier: Manager, f: Bdd)
        requires
            earlier.inv(),
            later.extends(earlier),
            earlier.valid(f),
        ensures
            later.sat_count(f) == earlier.sat_count(f),
    {
        Self::lemma_extends_keeps(later, earlier, f);
        Self::lemma_sat_count_by_value(later, f, earlier, f);
    }

    /// A function and its negation split all `2^n` assignments between
    /// them.
    pub proof fn lemma_sat_count_complement(m: Manager, f: Bdd, g: Bdd)
        requires
            forall|a: Seq<bool>| a.len() == m.num_vars() ==> #[trigger] m.value(g, a) == !m.value(f, a),
        ensures
            m.sat_count(f) + m.sat_count(g) == pow2(m.num_vars()),
    {
        let p = |a: Seq<bool>| m.value(f, a);
        let q = |a: Seq<bool>| m.value(g, a);
        assert forall|a: Seq<bool>| a.len() == m.num_vars() implies #[trigger] q(a) == !p(a) by {
            assert(m.value(g, a) == !m.value(f, a));
        }
        lemma_count_complement(m.num_vars(), p, q);
    }

    /// A function true everywhere is satisfied by all `2^n` assignments,
    /// and one false everywhere by none.
    pub proof fn lemma_sat_count_constant(m: Manager, f: Bdd)
        ensures
            (forall|a: Seq<bool>| a.len() == m.num_vars() ==> #[trigger] m.value(f, a)) ==> m.sat_count(f)
                == pow2(m.num_vars()),
            (forall|a: Seq<bool>| a.len() == m.num_vars() ==> !#[trigger] m.value(f, a)) ==> m.sat_count(f)
                == 0,
    {
        let p = |a: Seq<bool>| m.value(f, a);
        if forall|a: Seq<bool>| a.len() == m.num_vars() ==> #[trigger] m.value(f, a) {
            assert forall|a: Seq<bool>| a.len() == m.num_vars() implies #[trigger] p(a) by {
                assert(m.value(f, a));
            }
            lemma_count_all(m.num_vars(), p);
        }
        if forall|a: Seq<bool>| a.len() == m.num_vars() ==> !#[trigger] m.value(f, a) {
            assert forall|a: Seq<bool>| a.len() == m.num_vars() implies !#[trigger] p(a) by {
                assert(!m.value(f, a));
            }
            lemma_count_none(m.num_vars(), p);
        }
    }

    /// The projection `x_i` is satisfied by exactly half of the
    /// assignments.
    pub proof fn lemma_sat_count_projection(m: Manager, f: Bdd, i: int)
        requires
            0 <= i < m.num_vars(),
            forall|a: Seq<bool>| a.len() == m.num_vars() ==> #[trigger] m.value(f, a) == a[i],
        ensures
            m.sat_count(f) * 2 == pow2(m.num_vars()),
    {
        let p = |a: Seq<bool>| m.value(f, a);
        assert forall|a: Seq<bool>| a.len() == m.num_vars() implies #[trigger] p(a) == entry_true(i)(a) by {
            assert(m.value(f, a) == a[i]);
        }
        lemma_count_ext(m.num_vars(), p, entry_true(i));
        lemma_count_entry(m.num_vars(), i);
    }

    /// Number of satisfying assignments for `bdd`.
    ///
    /// Sums per-exit path counts for exits whose value-map entry is `1`.
    /// Later calls on the same node are O(exits) thanks to the per-node
    /// memo cache. Counts fit an `i128` up to level 6 (`2^64`
    /// assignments), the largest level this accepts.
    pub fn path_count(&mut self, bdd: Bdd) -> (r: i128)
        requires
            old(self).inv(),
            old(self).valid(bdd),
            old(self).top_level() <= 6,
        ensures
            final(self).inv(),
            final(self).extends(*old(self)),
            final(self).stored_nodes() == old(self).stored_nodes(),
            final(self).stored_maps() == old(self).stored_maps(),
            r == old(self).sat_count(bdd),
    {
        proof {
            self.lemma_reveal();
        }
        let ghost s0 = *self;
        let ghost recs = s0.recs();
        let ghost maps = s0.maps();
        let ghost lv = s0.top();
        let root_paths = self.compute_paths(bdd.root);
        let values = self.rm_body(bdd.values).duplicate();
        let ghost vals = rmv_view(values);
        let ghost term = value_term(recs, maps, lv, bdd.root.0, vals);
        let ghost ne = vals.len();
        proof {
            // The count of satisfying assignments splits over the root's
            // exits.
            let p = |a: Seq<bool>| s0.value(bdd, a);
            let f = exit_fn(recs, maps, lv, bdd.root.0);
            let nv = vars_at(lv);
            assert forall|a: Seq<bool>| a.len() == nv implies 0 <= #[trigger] f(a) < ne by {
                lemma_exit_bound(recs, maps, lv, bdd.root.0, a);
            }
            lemma_count_partition(nv, p, f, ne);
            let g = |v: int| count_where(nv, with_value(p, f, v)) as int;
            assert forall|x: int| 0 <= x < ne implies #[trigger] g(x) == term(x) by {
                let q = with_value(p, f, x);
                assert(vals[x] <= 1);
                if vals[x] == 1 {
                    assert forall|a: Seq<bool>| a.len() == nv implies #[trigger] q(a) == exit_is(
                        recs,
                        maps,
                        lv,
                        bdd.root.0,
                        x,
                    )(a) by {
                        lemma_exit_bound(recs, maps, lv, bdd.root.0, a);
                    }
                    lemma_count_ext(nv, q, exit_is(recs, maps, lv, bdd.root.0, x));
                } else {
                    lemma_count_none(nv, q);
                }
            }
            lemma_sum_ext(ne, g, term);
            assert(s0.sat_count(bdd) == sum_to(ne, term));
            assert forall|x: int| 0 <= x < ne implies #[trigger] term(x) >= 0 by {}
            lemma_count_le(nv, p);
            lemma_exit_count_le(recs, maps, lv, bdd.root.0, 0);
            lemma_count_le(vars_at(lv), p);
            assert(s0.sat_count(bdd) <= 0x10000000000000000) by {
                vstd::arithmetic::power2::lemma2_to64();
                if lv < 6 {
                    vstd::arithmetic::power2::lemma_pow2_strictly_increases(lv, 6);
                }
                if nv < 64 {
                    vstd::arithmetic::power2::lemma_pow2_strictly_increases(nv, 64);
                }
            }
        }
        let mut acc: i128 = 0;
        let n = values.len();
        let mut e: usize = 0;
        while e < n
            invariant
                n == ne,
                ne == vals.len(),
                term == value_term(recs, maps, lv, bdd.root.0, vals),
                vals == rmv_view(values),
                root_paths@.len() == ne,
                forall|x: int| 0 <= x < ne ==> #[trigger] root_paths@[x] == exit_count(recs, maps, lv, bdd.root.0, x),
                forall|x: int| 0 <= x < ne ==> #[trigger] term(x) >= 0,
                sum_to(ne, term) <= 0x10000000000000000,
                e <= n,
                acc == sum_to(e as nat, term),
            decreases n - e,
        {
            proof {
                lemma_sum_mono((e + 1) as nat, ne, term);
                lemma_sum_mono(e as nat, ne, term);
            }
            if values.get(e) == 1 {
                acc = acc + root_paths[e];
            }
            e = e + 1;
        }
        proof {
            self.lemma_reveal();
            s0.lemma_reveal();
        }
        acc
    }

    /// Compute (or fetch) the per-exit path-count vector for a node.
    #[verifier::spinoff_prover]
    fn compute_paths(&mut self, id: NodeId) -> (r: Vec<i128>)
        requires
            old(self).wf(),
            id.0 < old(self).recs().len(),
            level_of(old(self).recs()[id.0 as int]) <= 6,
        ensures
            final(self).wf(),
            final(self).recs() == old(self).recs(),
            final(self).maps() == old(self).maps(),
            final(self).level == old(self).level,
            paths_ok(final(self).recs(), final(self).maps(), id.0, r@),
        decreases level_of(old(self).recs()[id.0 as int]), 1nat,
    {
        // Cache hit?
        if let Some(p) = self.path_counts.get(id.0) {
            return p;
        }
        let ghost s0 = *self;
        let ghost recs = s0.recs();
        let ghost maps = s0.maps();
        let result: Vec<i128> = match self.nodes.snapshot(id) {
            NodeRecord::DontCare => {
                proof {
                    vstd::arithmetic::power2::lemma2_to64();
                    reveal_with_fuel(count_where, 2);
                    assert((seq![false] + Seq::<bool>::empty())[0] == false);
                    assert((seq![true] + Seq::<bool>::empty())[0] == true);
                    assert(count_where(1, exit_is(recs, maps, 0, id.0, 0)) == 2);
                }
                vec![2i128]
            },
            NodeRecord::Fork => {
                proof {
                    vstd::arithmetic::power2::lemma2_to64();
                    reveal_with_fuel(count_where, 2);
                    assert((seq![false] + Seq::<bool>::empty())[0] == false);
                    assert((seq![true] + Seq::<bool>::empty())[0] == true);
                    assert(count_where(1, exit_is(recs, maps, 0, id.0, 0)) == 1);
                    assert(count_where(1, exit_is(recs, maps, 0, id.0, 1)) == 1);
                }
                vec![1i128, 1i128]
            },
            NodeRecord::Internal { num_exits, a_conn, b_conns, .. } => {
                self.internal_paths(Ghost(id), num_exits, a_conn, b_conns)
            },
        };
        let ghost s1 = *self;
        let ghost p = result@;
        let stored = result.clone();
        self.path_counts.insert(id.0, stored);
        proof {
            let c = path_cache_contents(self.path_counts);
            assert forall|x: usize| #[trigger] c.contains_key(x) implies paths_ok(
                self.recs(),
                self.maps(),
                x,
                c[x],
            ) by {
                if x != id.0 {
                    assert(path_cache_contents(s1.path_counts).contains_key(x));
                }
            }
        }
        result
    }

    /// The path counts of an internal node: recurse on the A-target and
    /// each B-target, then merge.
    fn internal_paths(
        &mut self,
        Ghost(id): Ghost<NodeId>,
        num_exits: usize,
        a_conn: Connection,
        b_conns: BConnVec,
    ) -> (r: Vec<i128>)
        requires
            old(self).wf(),
            id.0 < old(self).recs().len(),
            level_of(old(self).recs()[id.0 as int]) <= 6,
            old(self).recs()[id.0 as int] is Internal,
            record_key(old(self).recs()[id.0 as int]) == (
                level_of(old(self).recs()[id.0 as int]) as u8,
                num_exits,
                a_conn,
                bconn_view(b_conns),
            ),
        ensures
            final(self).wf(),
            final(self).recs() == old(self).recs(),
            final(self).maps() == old(self).maps(),
            final(self).level == old(self).level,
            paths_ok(final(self).recs(), final(self).maps(), id.0, r@),
        decreases level_of(old(self).recs()[id.0 as int]), 0nat,
    {
        let ghost s0 = *self;
        let ghost recs = s0.recs();
        let ghost maps = s0.maps();
        let ghost lv = level_of(recs[id.0 as int]);
        let ghost cl = (lv - 1) as nat;
        let ghost bs = bconn_view(b_conns);
        proof {
            assert(id.0 >= 2);
            assert(record_ok(recs, maps, id.0 as int, recs[id.0 as int]));
            assert(lv <= s0.level);
            assert(level_of(recs[a_conn.target.0 as int]) == cl);
        }
        let a_paths = self.compute_paths(a_conn.target);
        proof {
            assert(maps[a_conn.return_map.0 as int] == identity_seq(bs.len()));
        }
        let mut out: Vec<i128> = Vec::new();
        let mut t: usize = 0;
        while t < num_exits
            invariant
                t <= num_exits,
                out@.len() == t,
                forall|x: int| 0 <= x < t ==> #[trigger] out@[x] == 0,
            decreases num_exits - t,
        {
            out.push(0);
            t = t + 1;
        }
        proof {
            assert forall|x: int| 0 <= x < num_exits implies #[trigger] out@[x] == via_a(
                recs,
                maps,
                cl,
                a_conn.target.0,
                bs,
                x,
                0,
            ) by {}
        }
        let n = b_conns.len();
        let mut i: usize = 0;
        while i < n
            invariant
                s0 == *old(self),
                recs == s0.recs(),
                maps == s0.maps(),
                self.wf(),
                self.recs() == recs,
                self.maps() == maps,
                self.level == s0.level,
                store_wf(recs, maps),
                2 <= id.0 < recs.len(),
                recs[id.0 as int] is Internal,
                record_ok(recs, maps, id.0 as int, recs[id.0 as int]),
                recs[id.0 as int]->a_conn == a_conn,
                recs[id.0 as int]->num_exits == num_exits,
                bconn_view(recs[id.0 as int]->b_conns) == bs,
                bs == bconn_view(b_conns),
                lv == level_of(recs[id.0 as int]),
                1 <= lv <= 6,
                cl == lv - 1,
                n == bs.len(),
                i <= n,
                paths_ok(recs, maps, a_conn.target.0, a_paths@),
                level_of(recs[a_conn.target.0 as int]) == cl,
                a_paths@.len() == bs.len(),
                out@.len() == num_exits,
                forall|x: int| 0 <= x < num_exits ==> #[trigger] out@[x] == via_a(
                    recs,
                    maps,
                    cl,
                    a_conn.target.0,
                    bs,
                    x,
                    i as nat,
                ),
            decreases n - i,
        {
            let b_conn = b_conns.get(i);
            proof {
                assert(bconn_ok(recs, maps, id.0 as int, cl, num_exits, b_conn));
                assert(level_of(self.recs()[b_conn.target.0 as int]) == cl);
            }
            let b_paths = self.compute_paths(b_conn.target);
            let b_rm = self.rm_body(b_conn.return_map).duplicate();
            let ghost rm = rmv_view(b_rm);
            let a_paths_i = a_paths[i];
            let m = b_rm.len();
            let mut j: usize = 0;
            while j < m
                invariant
                    self.recs() == recs,
                    self.maps() == maps,
                    recs[id.0 as int]->num_exits == num_exits,
                    lv == level_of(recs[id.0 as int]),
                    1 <= lv <= 6,
                    cl == lv - 1,
                    n == bs.len(),
                    i < n,
                    b_conn == bs[i as int],
                    rm == rmv_view(b_rm),
                    rm == maps[b_conn.return_map.0 as int],
                    m == rm.len(),
                    forall|t: int| 0 <= t < m ==> #[trigger] rm[t] < num_exits,
                    paths_ok(recs, maps, b_conn.target.0, b_paths@),
                    level_of(recs[b_conn.target.0 as int]) == cl,
                    b_paths@.len() == m,
                    a_paths_i == exit_count(recs, maps, cl, a_conn.target.0, i as int),
                    store_wf(recs, maps),
                    2 <= id.0 < recs.len(),
                    recs[id.0 as int]->a_conn == a_conn,
                    bconn_view(recs[id.0 as int]->b_conns) == bs,
                    j <= m,
                    out@.len() == num_exits,
                    forall|x: int| 0 <= x < num_exits ==> #[trigger] out@[x] == via_a(
                        recs,
                        maps,
                        cl,
                        a_conn.target.0,
                        bs,
                        x,
                        i as nat,
                    ) + via_b(recs, maps, cl, a_conn.target.0, i as int, b_conn, x, j as nat),
                decreases m - j,
            {
                let k = b_rm.get(j);
                let ghost kk = k as int;
                proof {
                    lemma_via_partial(recs, maps, cl, a_conn.target.0, bs, kk, i as int, (j + 1) as nat);
                    lemma_via_partial(recs, maps, cl, a_conn.target.0, bs, kk, i as int, j as nat);
                    lemma_exit_count_le(recs, maps, lv, id.0, kk);
                    lemma_exit_count_internal(recs, maps, id.0, kk);
                    assert(b_paths@[j as int] == exit_count(recs, maps, cl, b_conn.target.0, j as int));
                    assert(via_b(recs, maps, cl, a_conn.target.0, i as int, b_conn, kk, (j + 1) as nat)
                        == via_b(recs, maps, cl, a_conn.target.0, i as int, b_conn, kk, j as nat)
                        + a_paths_i * b_paths@[j as int]);
                }
                let term = a_paths_i * b_paths[j];
                let cur = out[k];
                out.set(k, cur + term);
                proof {
                    assert forall|x: int| 0 <= x < num_exits implies #[trigger] out@[x] == via_a(
                        recs,
                        maps,
                        cl,
                        a_conn.target.0,
                        bs,
                        x,
                        i as nat,
                    ) + via_b(recs, maps, cl, a_conn.target.0, i as int, b_conn, x, (j + 1) as nat) by {
                        let g = via_b_term(recs, maps, cl, a_conn.target.0, i as int, b_conn, x);
                        assert(sum_to((j + 1) as nat, g) == sum_to(j as nat, g) + g(j as int));
                    }
                }
                j = j + 1;
            }
            proof {
                assert forall|x: int| 0 <= x < num_exits implies #[trigger] out@[x] == via_a(
                    recs,
                    maps,
                    cl,
                    a_conn.target.0,
                    bs,
                    x,
                    (i + 1) as nat,
                ) by {
                    lemma_via_partial(recs, maps, cl, a_conn.target.0, bs, x, i as int, m as nat);
                }
            }
            i = i + 1;
        }
        proof {
            assert forall|x: int| 0 <= x < out@.len() implies #[trigger] out@[x] == exit_count(
                recs,
                maps,
                lv,
                id.0,
                x,
            ) by {
                lemma_exit_count_internal(recs, maps, id.0, x);
            }
        }
        out
    }
}


/// The return map `body` is the identity `[0, 1, ..., len - 1]`.
pub fn is_identity_return_map(body: &[usize]) -> (r: bool)
    ensures
        r == (body@ == identity_seq(body@.len())),
{
    let n = body.len();
    let mut i: usize = 0;
    while i < n
        invariant
            n == body@.len(),
            i <= n,
            forall|t: int| 0 <= t < i ==> #[trigger] body@[t] == t,
        decreases n - i,
    {
        if body[i] != i {
            proof {
                if body@ == identity_seq(body@.len()) {
                    assert(body@[i as int] == identity_seq(body@.len())[i as int]);
                }
            }
            return false;
        }
        i = i + 1;
    }
    assert(body@ =~= identity_seq(body@.len()));
    true
}

} // verus!
