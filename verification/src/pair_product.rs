//! PairProduct + ApplyAndReduce.
//!
//! PairProduct is the structural cross-product of two CFLOBDDs at the same
//! level. It returns a single combined node whose exits are pairs `(i, j)`
//! of exit indices (one from each operand). ApplyAndReduce then
//! collapses these pairs by applying a pointwise operator to the
//! corresponding values.

use crate::canonical::{
    canonical, concat_maps, count_from, fresh_ok, lemma_canonical_extends, lemma_canonical_shrinks,
    lemma_concat_extends, lemma_concat_push, lemma_fresh_push, lemma_reduction_fresh,
    lemma_targets_canonical, lemma_conns_differ, conn_exit, keys_unique, maps_unique,
};
use crate::reduce::lemma_reduce_canon_result;
use crate::manager::{Bdd, Manager};
use crate::reduce::reduce_ok;
use crate::node::{bconn_view, BConnVec, Connection, NodeId, NodeRecord, DONT_CARE, FORK};
use crate::return_map::{rmv_view, ReturnMapId, ReturnMapVec};
use crate::semantics::{
    all_below, bconn_ok, conn_ok, exit_at, extends_seq, identity_seq, internal_exit,
    lemma_conn_ok_extends, lemma_exit_bound, lemma_exit_extends, lemma_exit_internal,
    lemma_single_exit, level_of, node_ok, num_exits_of, record_key, record_ok, same_record,
    store_wf, vars_at, occurs, lemma_first_seen_push, lemma_occurs_push, reduction_ok, distinct,
};
use vstd::prelude::*;

verus! {

/// A pair-product map: the result node's exit `k` corresponds to the
/// operands' exits `(i, j)` at position `k` (a `SmallVec` with room for
/// four pairs).
#[verifier::external_body]
pub struct PairProductMap {
    items: smallvec::SmallVec<[(usize, usize); 4]>,
}

/// The pairs held by a `PairProductMap`.
pub uninterp spec fn pm_view(v: PairProductMap) -> Seq<(usize, usize)>;

impl PairProductMap {
    /// Calls `SmallVec::new`: the result is empty.
    #[verifier::external_body]
    pub(crate) fn new() -> (r: PairProductMap)
        ensures
            pm_view(r) == Seq::<(usize, usize)>::empty(),
    {
        PairProductMap { items: smallvec::SmallVec::new() }
    }

    /// Calls `SmallVec::push`: the pair is appended at the end.
    #[verifier::external_body]
    pub(crate) fn push(&mut self, x: (usize, usize))
        ensures
            pm_view(*final(self)) == pm_view(*old(self)).push(x),
            pm_view(*final(self)).len() <= usize::MAX,
    {
        self.items.push(x)
    }

    /// Calls `SmallVec::len`: the number of pairs.
    #[verifier::external_body]
    pub(crate) fn len(&self) -> (r: usize)
        ensures
            r == pm_view(*self).len(),
    {
        self.items.len()
    }

    /// Calls `SmallVec`'s indexing: the pair at position `i`.
    #[verifier::external_body]
    pub(crate) fn get(&self, i: usize) -> (r: (usize, usize))
        requires
            i < pm_view(*self).len(),
        ensures
            r == pm_view(*self)[i as int],
    {
        self.items[i]
    }

    /// Calls `SmallVec::clone`: the copy holds the same pairs in the same
    /// order.
    #[verifier::external_body]
    pub(crate) fn duplicate(&self) -> (r: PairProductMap)
        ensures
            pm_view(r) == pm_view(*self),
    {
        PairProductMap { items: self.items.clone() }
    }
}

/// Cached PairProduct result.
pub struct PairProductMemo {
    pub node: NodeId,
    pub pair_map: PairProductMap,
}

/// PairProduct memo cache: a `hashbrown::HashMap` keyed on the operands'
/// node ids.
#[verifier::external_body]
pub struct PairProductCache {
    map: hashbrown::HashMap<(usize, usize), PairProductMemo>,
}

/// What the PairProduct cache holds: each memo by its node id and pairs.
pub uninterp spec fn pp_cache_contents(c: PairProductCache) -> Map<
    (usize, usize),
    (usize, Seq<(usize, usize)>),
>;

impl PairProductCache {
    /// Calls `hashbrown::HashMap::new`: the cache is empty.
    #[verifier::external_body]
    pub(crate) fn new() -> (r: PairProductCache)
        ensures
            pp_cache_contents(r) =~= Map::empty(),
    {
        PairProductCache { map: hashbrown::HashMap::new() }
    }

    /// Calls `hashbrown::HashMap::get`: the memo stored under `key`, if any.
    #[verifier::external_body]
    pub(crate) fn get(&self, key: (usize, usize)) -> (r: Option<&PairProductMemo>)
        ensures
            r is Some <==> pp_cache_contents(*self).contains_key(key),
            r matches Some(m) ==> pp_cache_contents(*self)[key] == (m.node.0, pm_view(m.pair_map)),
    {
        self.map.get(&key)
    }

    /// Calls `hashbrown::HashMap::insert`: afterwards `key` maps to `memo`
    /// and every other entry is unchanged.
    #[verifier::external_body]
    pub(crate) fn insert(&mut self, key: (usize, usize), memo: PairProductMemo)
        ensures
            pp_cache_contents(*final(self)) == pp_cache_contents(*old(self)).insert(
                key,
                (memo.node.0, pm_view(memo.pair_map)),
            ),
    {
        self.map.insert(key, memo);
    }
}

/// Exit-pair dedup table for one PairProduct step: a `hashbrown::HashMap`
/// from a pair of exits to its position.
#[verifier::external_body]
pub struct ExitDedup {
    map: hashbrown::HashMap<(usize, usize), usize>,
}

/// What the exit-pair dedup table holds.
pub uninterp spec fn exit_dedup_contents(d: ExitDedup) -> Map<(usize, usize), usize>;

impl ExitDedup {
    /// Calls `hashbrown::HashMap::new`: the table is empty.
    #[verifier::external_body]
    pub(crate) fn new() -> (r: ExitDedup)
        ensures
            exit_dedup_contents(r) =~= Map::empty(),
    {
        ExitDedup { map: hashbrown::HashMap::new() }
    }

    /// Calls `hashbrown::HashMap::get`: the position stored under `key`, if
    /// any.
    #[verifier::external_body]
    pub(crate) fn get(&self, key: (usize, usize)) -> (r: Option<usize>)
        ensures
            r is Some <==> exit_dedup_contents(*self).contains_key(key),
            r matches Some(v) ==> v == exit_dedup_contents(*self)[key],
    {
        self.map.get(&key).copied()
    }

    /// Calls `hashbrown::HashMap::insert`: afterwards `key` maps to `value`
    /// and every other entry is unchanged.
    #[verifier::external_body]
    pub(crate) fn insert(&mut self, key: (usize, usize), value: usize)
        ensures
            exit_dedup_contents(*final(self)) == exit_dedup_contents(*old(self)).insert(key, value),
    {
        self.map.insert(key, value);
    }
}

/// On assignment `a`, node `r` picks an exit whose pair names the exits
/// that `n1` and `n2` pick.
pub(crate) open spec fn pp_exits(
    recs: Seq<NodeRecord>,
    maps: Seq<Seq<usize>>,
    lv: nat,
    n1: usize,
    n2: usize,
    r: usize,
    pm: Seq<(usize, usize)>,
    a: Seq<bool>,
) -> bool {
    let e = exit_at(recs, maps, lv, r, a) as int;
    &&& pm[e].0 == exit_at(recs, maps, lv, n1, a)
    &&& pm[e].1 == exit_at(recs, maps, lv, n2, a)
}

/// `(r, pm)` is the pair product of `n1` and `n2`: three nodes of the same
/// level, one pair per exit of `r`, each pair a pair of exits of the
/// operands, and on every assignment `r`'s exit names the operands' exits.
pub(crate) open spec fn pp_ok(
    recs: Seq<NodeRecord>,
    maps: Seq<Seq<usize>>,
    n1: usize,
    n2: usize,
    r: usize,
    pm: Seq<(usize, usize)>,
) -> bool {
    let lv = level_of(recs[n1 as int]);
    &&& node_ok(recs, n1, lv)
    &&& node_ok(recs, n2, lv)
    &&& node_ok(recs, r, lv)
    &&& pm.len() == num_exits_of(recs[r as int])
    &&& forall|p: int|
        0 <= p < pm.len() ==> (#[trigger] pm[p]).0 < num_exits_of(recs[n1 as int]) && pm[p].1
            < num_exits_of(recs[n2 as int])
    &&& forall|a: Seq<bool>| #[trigger] pp_exits(recs, maps, lv, n1, n2, r, pm, a)
    &&& distinct_pairs(pm)
}

/// The pairs of `pm` are pairwise distinct.
pub(crate) open spec fn distinct_pairs(pm: Seq<(usize, usize)>) -> bool {
    forall|i: int, j: int| 0 <= i < pm.len() && 0 <= j < pm.len() && i != j ==> #[trigger] pm[i] != #[trigger] pm[j]
}

pub(crate) open spec fn flip_pairs(pm: Seq<(usize, usize)>) -> Seq<(usize, usize)> {
    pm.map_values(|p: (usize, usize)| (p.1, p.0))
}

pub(crate) proof fn lemma_pp_ok_flip(
    recs: Seq<NodeRecord>,
    maps: Seq<Seq<usize>>,
    n1: usize,
    n2: usize,
    r: usize,
    pm: Seq<(usize, usize)>,
)
    requires
        store_wf(recs, maps),
        pp_ok(recs, maps, n2, n1, r, pm),
    ensures
        pp_ok(recs, maps, n1, n2, r, flip_pairs(pm)),
{
    let fp = flip_pairs(pm);
    let lv = level_of(recs[n1 as int]);
    assert forall|p: int| 0 <= p < fp.len() implies (#[trigger] fp[p]).0 < num_exits_of(
        recs[n1 as int],
    ) && fp[p].1 < num_exits_of(recs[n2 as int]) by {
        assert(pm[p].0 < num_exits_of(recs[n2 as int]));
    }
    assert forall|a: Seq<bool>| #[trigger] pp_exits(recs, maps, lv, n1, n2, r, fp, a) by {
        assert(pp_exits(recs, maps, lv, n2, n1, r, pm, a));
        lemma_exit_bound(recs, maps, lv, r, a);
    }
    assert forall|i: int, j: int| 0 <= i < fp.len() && 0 <= j < fp.len() && i != j implies #[trigger] fp[i] != #[trigger] fp[j] by {
        assert(pm[i] != pm[j]);
    }
}

pub(crate) proof fn lemma_pp_ok_extends(
    recs1: Seq<NodeRecord>,
    maps1: Seq<Seq<usize>>,
    recs2: Seq<NodeRecord>,
    maps2: Seq<Seq<usize>>,
    n1: usize,
    n2: usize,
    r: usize,
    pm: Seq<(usize, usize)>,
)
    requires
        store_wf(recs1, maps1),
        extends_seq(recs1, recs2),
        extends_seq(maps1, maps2),
        pp_ok(recs1, maps1, n1, n2, r, pm),
    ensures
        pp_ok(recs2, maps2, n1, n2, r, pm),
{
    let lv = level_of(recs1[n1 as int]);
    assert(recs2[n1 as int] == recs1[n1 as int]);
    assert(recs2[n2 as int] == recs1[n2 as int]);
    assert(recs2[r as int] == recs1[r as int]);
    assert forall|a: Seq<bool>| #[trigger] pp_exits(recs2, maps2, lv, n1, n2, r, pm, a) by {
        lemma_exit_extends(recs1, maps1, recs2, maps2, lv, r, a);
        lemma_exit_extends(recs1, maps1, recs2, maps2, lv, n1, a);
        lemma_exit_extends(recs1, maps1, recs2, maps2, lv, n2, a);
        assert(pp_exits(recs1, maps1, lv, n1, n2, r, pm, a));
    }
}

/// New B-connection `nb` pairs old B-connections `b1` and `b2`: on every
/// assignment of the child's variables, the pair at the exit that `nb`
/// lands on names the exits that `b1` and `b2` land on.
pub(crate) open spec fn paired_exits(
    recs: Seq<NodeRecord>,
    maps: Seq<Seq<usize>>,
    cl: nat,
    b1: Connection,
    b2: Connection,
    nb: Connection,
    pairs: Seq<(usize, usize)>,
) -> bool {
    forall|x: Seq<bool>| #[trigger] paired_at(recs, maps, cl, b1, b2, nb, pairs, x)
}

pub(crate) open spec fn paired_at(
    recs: Seq<NodeRecord>,
    maps: Seq<Seq<usize>>,
    cl: nat,
    b1: Connection,
    b2: Connection,
    nb: Connection,
    pairs: Seq<(usize, usize)>,
    x: Seq<bool>,
) -> bool {
    let e = exit_at(recs, maps, cl, nb.target.0, x) as int;
    let k = maps[nb.return_map.0 as int][e] as int;
    &&& e < maps[nb.return_map.0 as int].len()
    &&& k < pairs.len()
    &&& pairs[k].0 == maps[b1.return_map.0 as int][exit_at(recs, maps, cl, b1.target.0, x) as int]
    &&& pairs[k].1 == maps[b2.return_map.0 as int][exit_at(recs, maps, cl, b2.target.0, x) as int]
}

pub(crate) proof fn lemma_paired_exits_extends(
    recs1: Seq<NodeRecord>,
    maps1: Seq<Seq<usize>>,
    recs2: Seq<NodeRecord>,
    maps2: Seq<Seq<usize>>,
    cl: nat,
    b1: Connection,
    b2: Connection,
    nb: Connection,
    pairs1: Seq<(usize, usize)>,
    pairs2: Seq<(usize, usize)>,
)
    requires
        store_wf(recs1, maps1),
        extends_seq(recs1, recs2),
        extends_seq(maps1, maps2),
        extends_seq(pairs1, pairs2),
        conn_ok(recs1, maps1, recs1.len() as int, cl, b1),
        conn_ok(recs1, maps1, recs1.len() as int, cl, b2),
        conn_ok(recs1, maps1, recs1.len() as int, cl, nb),
        paired_exits(recs1, maps1, cl, b1, b2, nb, pairs1),
    ensures
        paired_exits(recs2, maps2, cl, b1, b2, nb, pairs2),
{
    lemma_conn_ok_extends(recs1, maps1, recs2, maps2, recs1.len() as int, cl, b1);
    lemma_conn_ok_extends(recs1, maps1, recs2, maps2, recs1.len() as int, cl, b2);
    lemma_conn_ok_extends(recs1, maps1, recs2, maps2, recs1.len() as int, cl, nb);
    assert forall|x: Seq<bool>| #[trigger] paired_at(recs2, maps2, cl, b1, b2, nb, pairs2, x) by {
        assert(paired_at(recs1, maps1, cl, b1, b2, nb, pairs1, x));
        lemma_exit_extends(recs1, maps1, recs2, maps2, cl, b1.target.0, x);
        lemma_exit_extends(recs1, maps1, recs2, maps2, cl, b2.target.0, x);
        lemma_exit_extends(recs1, maps1, recs2, maps2, cl, nb.target.0, x);
    }
}

/// Every stored node has at least one exit.
pub(crate) proof fn lemma_some_exit(recs: Seq<NodeRecord>, maps: Seq<Seq<usize>>, id: usize)
    requires
        store_wf(recs, maps),
        id < recs.len(),
    ensures
        num_exits_of(recs[id as int]) >= 1,
{
    if id >= 2 {
        assert(record_ok(recs, maps, id as int, recs[id as int]));
    }
}

/// Distinct pairs of child exits, read through injective return maps,
/// land on distinct positions.
pub(crate) proof fn lemma_rv_distinct(
    m1: Seq<usize>,
    m2: Seq<usize>,
    bpm: Seq<(usize, usize)>,
    rv: Seq<usize>,
    pn: Seq<(usize, usize)>,
)
    requires
        distinct(m1),
        distinct(m2),
        distinct_pairs(bpm),
        rv.len() == bpm.len(),
        forall|q: int| 0 <= q < bpm.len() ==> (#[trigger] bpm[q]).0 < m1.len() && bpm[q].1 < m2.len(),
        forall|q: int|
            0 <= q < rv.len() ==> #[trigger] rv[q] < pn.len() && pn[rv[q] as int].0 == m1[bpm[q].0 as int]
                && pn[rv[q] as int].1 == m2[bpm[q].1 as int],
    ensures
        distinct(rv),
{
    assert forall|i: int, j: int| 0 <= i < rv.len() && 0 <= j < rv.len() && i != j implies rv[i] != rv[j] by {
        assert(bpm[i] != bpm[j]);
        if rv[i] == rv[j] {
            assert(m1[bpm[i].0 as int] == m1[bpm[j].0 as int]);
            assert(m2[bpm[i].1 as int] == m2[bpm[j].1 as int]);
        }
    }
}

/// The B-connections built by the cross product of two canonical nodes
/// are pairwise distinct: equal ones would make two B-connections of an
/// operand agree everywhere.
#[verifier::spinoff_prover]
pub(crate) proof fn lemma_cross_distinct(
    recs: Seq<NodeRecord>,
    maps: Seq<Seq<usize>>,
    cl: nat,
    n1: usize,
    n2: usize,
    apm: Seq<(usize, usize)>,
    nbv: Seq<Connection>,
    pv: Seq<(usize, usize)>,
)
    requires
        store_wf(recs, maps),
        keys_unique(recs),
        maps_unique(maps),
        canonical(recs, maps, cl + 1, n1),
        canonical(recs, maps, cl + 1, n2),
        distinct_pairs(apm),
        nbv.len() == apm.len(),
        forall|s: int|
            0 <= s < apm.len() ==> (#[trigger] apm[s]).0 < bconn_view(recs[n1 as int]->b_conns).len()
                && apm[s].1 < bconn_view(recs[n2 as int]->b_conns).len(),
        forall|s: int|
            0 <= s < apm.len() ==> #[trigger] paired_exits(
                recs,
                maps,
                cl,
                bconn_view(recs[n1 as int]->b_conns)[apm[s].0 as int],
                bconn_view(recs[n2 as int]->b_conns)[apm[s].1 as int],
                nbv[s],
                pv,
            ),
    ensures
        forall|s1: int, s2: int|
            0 <= s1 < nbv.len() && 0 <= s2 < nbv.len() && s1 != s2 ==> #[trigger] nbv[s1] != #[trigger] nbv[s2],
{
    let bv1 = bconn_view(recs[n1 as int]->b_conns);
    let bv2 = bconn_view(recs[n2 as int]->b_conns);
    assert forall|s1: int, s2: int| 0 <= s1 < nbv.len() && 0 <= s2 < nbv.len() && s1 != s2 implies #[trigger] nbv[s1]
        != #[trigger] nbv[s2] by {
        if nbv[s1] == nbv[s2] {
            let (i1, j1) = apm[s1];
            let (i2, j2) = apm[s2];
            assert(apm[s1] != apm[s2]);
            assert(paired_exits(recs, maps, cl, bv1[i1 as int], bv2[j1 as int], nbv[s1], pv));
            assert(paired_exits(recs, maps, cl, bv1[i2 as int], bv2[j2 as int], nbv[s2], pv));
            if i1 != i2 {
                lemma_conns_differ(recs, maps, cl + 1, n1, i1 as int, i2 as int);
                let r = choose|r: Seq<bool>|
                    r.len() == vars_at(cl) && #[trigger] conn_exit(recs, maps, cl, bv1[i1 as int], r) != conn_exit(
                        recs,
                        maps,
                        cl,
                        bv1[i2 as int],
                        r,
                    );
                assert(paired_at(recs, maps, cl, bv1[i1 as int], bv2[j1 as int], nbv[s1], pv, r));
                assert(paired_at(recs, maps, cl, bv1[i2 as int], bv2[j2 as int], nbv[s2], pv, r));
            } else {
                assert(j1 != j2);
                lemma_conns_differ(recs, maps, cl + 1, n2, j1 as int, j2 as int);
                let r = choose|r: Seq<bool>|
                    r.len() == vars_at(cl) && #[trigger] conn_exit(recs, maps, cl, bv2[j1 as int], r) != conn_exit(
                        recs,
                        maps,
                        cl,
                        bv2[j2 as int],
                        r,
                    );
                assert(paired_at(recs, maps, cl, bv1[i1 as int], bv2[j1 as int], nbv[s1], pv, r));
                assert(paired_at(recs, maps, cl, bv1[i2 as int], bv2[j2 as int], nbv[s2], pv, r));
            }
        }
    }
}

/// Boolean op as a flat 2x2 truth table. Index `op[a][b]` for
/// `a, b` in `{0, 1}`.
pub type BoolOp = [[u32; 2]; 2];

/// Every entry of `op` is 0 or 1.
pub open spec fn op_ok(op: BoolOp) -> bool {
    forall|i: int, j: int| 0 <= i < 2 && 0 <= j < 2 ==> op[i][j] <= 1
}

/// The value of the truth table `op` on two booleans.
pub open spec fn op_value(op: BoolOp, x: bool, y: bool) -> bool {
    op[if x {
        1int
    } else {
        0int
    }][if y {
        1int
    } else {
        0int
    }] != 0
}

/// The seven named tables are 0/1 tables computing their connective.
pub proof fn lemma_op_tables()
    ensures
        op_ok(AND_OP),
        op_ok(OR_OP),
        op_ok(XOR_OP),
        op_ok(IFF_OP),
        op_ok(IMPLIES_OP),
        op_ok(NAND_OP),
        op_ok(NOR_OP),
        forall|x: bool, y: bool| #[trigger] op_value(AND_OP, x, y) == (x && y),
        forall|x: bool, y: bool| #[trigger] op_value(OR_OP, x, y) == (x || y),
        forall|x: bool, y: bool| #[trigger] op_value(XOR_OP, x, y) == (x != y),
        forall|x: bool, y: bool| #[trigger] op_value(IFF_OP, x, y) == (x == y),
        forall|x: bool, y: bool| #[trigger] op_value(IMPLIES_OP, x, y) == (x ==> y),
        forall|x: bool, y: bool| #[trigger] op_value(NAND_OP, x, y) == !(x && y),
        forall|x: bool, y: bool| #[trigger] op_value(NOR_OP, x, y) == !(x || y),
{
}

pub const AND_OP: BoolOp = [[0, 0], [0, 1]];

pub const OR_OP: BoolOp = [[0, 1], [1, 1]];

pub const XOR_OP: BoolOp = [[0, 1], [1, 0]];

pub const IFF_OP: BoolOp = [[1, 0], [0, 1]];

pub const IMPLIES_OP: BoolOp = [[1, 1], [0, 1]];

pub const NAND_OP: BoolOp = [[1, 1], [1, 0]];

pub const NOR_OP: BoolOp = [[1, 0], [0, 0]];

impl Manager {
    /// Every cached pair product is a correct one, canonical when both
    /// operands are.
    pub(crate) open spec fn pp_cache_wf(&self) -> bool {
        let c = pp_cache_contents(self.pair_product_cache);
        forall|k: (usize, usize)| #[trigger]
            c.contains_key(k) ==> pp_ok(self.recs(), self.maps(), k.0, k.1, c[k].0, c[k].1) && (
            canonical(self.recs(), self.maps(), level_of(self.recs()[k.0 as int]), k.0) && canonical(
                self.recs(),
                self.maps(),
                level_of(self.recs()[k.0 as int]),
                k.1,
            ) ==> canonical(self.recs(), self.maps(), level_of(self.recs()[k.0 as int]), c[k].0))
    }

    pub(crate) proof fn lemma_pp_cache_grows(earlier: Manager, later: Manager)
        requires
            store_wf(earlier.recs(), earlier.maps()),
            earlier.pp_cache_wf(),
            later.grows_from(earlier),
            later.pair_product_cache == earlier.pair_product_cache,
        ensures
            later.pp_cache_wf(),
    {
        let c = pp_cache_contents(later.pair_product_cache);
        assert forall|k: (usize, usize)| #[trigger] c.contains_key(k) implies pp_ok(
            later.recs(),
            later.maps(),
            k.0,
            k.1,
            c[k].0,
            c[k].1,
        ) && (canonical(later.recs(), later.maps(), level_of(later.recs()[k.0 as int]), k.0)
            && canonical(later.recs(), later.maps(), level_of(later.recs()[k.0 as int]), k.1)
            ==> canonical(later.recs(), later.maps(), level_of(later.recs()[k.0 as int]), c[k].0)) by {
            assert(pp_ok(earlier.recs(), earlier.maps(), k.0, k.1, c[k].0, c[k].1));
            assert(later.recs()[k.0 as int] == earlier.recs()[k.0 as int]);
            let lvk = level_of(later.recs()[k.0 as int]);
            if canonical(later.recs(), later.maps(), lvk, k.0) && canonical(later.recs(), later.maps(), lvk, k.1) {
                lemma_canonical_shrinks(earlier.recs(), earlier.maps(), later.recs(), later.maps(), lvk, k.0);
                lemma_canonical_shrinks(earlier.recs(), earlier.maps(), later.recs(), later.maps(), lvk, k.1);
                lemma_canonical_extends(earlier.recs(), earlier.maps(), later.recs(), later.maps(), lvk, c[k].0);
            }
            lemma_pp_ok_extends(
                earlier.recs(),
                earlier.maps(),
                later.recs(),
                later.maps(),
                k.0,
                k.1,
                c[k].0,
                c[k].1,
            );
        }
    }

    /// PairProduct at the node level. Memoized; symmetric in (n1, n2)
    /// because the cache also checks `(n2, n1)` and flips the pair map.
    pub(crate) fn pair_product(&mut self, n1: NodeId, n2: NodeId) -> (r: (NodeId, PairProductMap))
        requires
            old(self).wf(),
            n1.0 < old(self).recs().len(),
            n2.0 < old(self).recs().len(),
            level_of(old(self).recs()[n1.0 as int]) == level_of(old(self).recs()[n2.0 as int]),
        ensures
            final(self).wf(),
            final(self).grows_from(*old(self)),
            pp_ok(final(self).recs(), final(self).maps(), n1.0, n2.0, r.0.0, pm_view(r.1)),
            canonical(old(self).recs(), old(self).maps(), level_of(old(self).recs()[n1.0 as int]), n1.0)
                && canonical(old(self).recs(), old(self).maps(), level_of(old(self).recs()[n1.0 as int]), n2.0)
                ==> canonical(final(self).recs(), final(self).maps(), level_of(old(self).recs()[n1.0 as int]), r.0.0),
        decreases level_of(old(self).recs()[n1.0 as int]), 2nat,
    {
        // Check both orderings in the cache.
        if let Some(memo) = self.pair_product_cache.get((n1.0, n2.0)) {
            proof {
                Self::lemma_grows_refl(*self);
            }
            return (memo.node, memo.pair_map.duplicate());
        }
        if let Some(memo) = self.pair_product_cache.get((n2.0, n1.0)) {
            let ghost pm = pm_view(memo.pair_map);
            let mut flipped = PairProductMap::new();
            let len = memo.pair_map.len();
            let mut i: usize = 0;
            while i < len
                invariant
                    i <= len,
                    len == pm.len(),
                    pm == pm_view(memo.pair_map),
                    pm_view(flipped) == flip_pairs(pm).subrange(0, i as int),
                decreases len - i,
            {
                let (a, b) = memo.pair_map.get(i);
                flipped.push((b, a));
                i = i + 1;
                assert(pm_view(flipped) =~= flip_pairs(pm).subrange(0, i as int));
            }
            proof {
                Self::lemma_grows_refl(*self);
                assert(pm_view(flipped) =~= flip_pairs(pm));
                let c = pp_cache_contents(self.pair_product_cache);
                assert(c.contains_key((n2.0, n1.0)));
                lemma_pp_ok_flip(self.recs(), self.maps(), n1.0, n2.0, memo.node.0, pm);
            }
            return (memo.node, flipped);
        }
        let ghost s1 = *self;
        let (node, pair_map) = self.pair_product_uncached(n1, n2);
        let ghost s2 = *self;
        let memo = PairProductMemo { node, pair_map: pair_map.duplicate() };
        self.pair_product_cache.insert((n1.0, n2.0), memo);
        proof {
            let c = pp_cache_contents(self.pair_product_cache);
            assert forall|k: (usize, usize)| #[trigger] c.contains_key(k) implies pp_ok(
                self.recs(),
                self.maps(),
                k.0,
                k.1,
                c[k].0,
                c[k].1,
            ) && (canonical(self.recs(), self.maps(), level_of(self.recs()[k.0 as int]), k.0)
                && canonical(self.recs(), self.maps(), level_of(self.recs()[k.0 as int]), k.1)
                ==> canonical(self.recs(), self.maps(), level_of(self.recs()[k.0 as int]), c[k].0)) by {
                if k != (n1.0, n2.0) {
                    assert(pp_cache_contents(s2.pair_product_cache).contains_key(k));
                    assert(s2.pp_cache_wf());
                } else {
                    let lv = level_of(s1.recs()[n1.0 as int]);
                    assert(self.recs()[n1.0 as int] == s1.recs()[n1.0 as int]);
                    if canonical(self.recs(), self.maps(), lv, n1.0) && canonical(self.recs(), self.maps(), lv, n2.0) {
                        lemma_canonical_shrinks(s1.recs(), s1.maps(), s2.recs(), s2.maps(), lv, n1.0);
                        lemma_canonical_shrinks(s1.recs(), s1.maps(), s2.recs(), s2.maps(), lv, n2.0);
                    }
                }
            }
            assert(self.pp_cache_wf());
        }
        (node, pair_map)
    }

    #[verifier::spinoff_prover]
    fn pair_product_uncached(&mut self, n1: NodeId, n2: NodeId) -> (r: (NodeId, PairProductMap))
        requires
            old(self).wf(),
            n1.0 < old(self).recs().len(),
            n2.0 < old(self).recs().len(),
            level_of(old(self).recs()[n1.0 as int]) == level_of(old(self).recs()[n2.0 as int]),
        ensures
            final(self).wf(),
            final(self).grows_from(*old(self)),
            pp_ok(final(self).recs(), final(self).maps(), n1.0, n2.0, r.0.0, pm_view(r.1)),
            canonical(old(self).recs(), old(self).maps(), level_of(old(self).recs()[n1.0 as int]), n1.0)
                && canonical(old(self).recs(), old(self).maps(), level_of(old(self).recs()[n1.0 as int]), n2.0)
                ==> canonical(final(self).recs(), final(self).maps(), level_of(old(self).recs()[n1.0 as int]), r.0.0),
        decreases level_of(old(self).recs()[n1.0 as int]), 1nat,
    {
        let ghost s0 = *self;
        let ghost lv = level_of(s0.recs()[n1.0 as int]);
        proof {
            Self::lemma_grows_refl(s0);
        }
        // Dispatch by node kind.
        let r1 = self.nodes.snapshot(n1);
        let r2 = self.nodes.snapshot(n2);
        match (r1, r2) {
            (NodeRecord::DontCare, NodeRecord::DontCare) => {
                let mut m = PairProductMap::new();
                m.push((0, 0));
                proof {
                    assert(pm_view(m) =~= seq![(0usize, 0usize)]);
                    self.lemma_pp_leaves(n1, n2, DONT_CARE, pm_view(m));
                }
                (NodeId(DONT_CARE), m)
            },
            (NodeRecord::Fork, NodeRecord::Fork) => {
                let mut m = PairProductMap::new();
                m.push((0, 0));
                m.push((1, 1));
                proof {
                    assert(pm_view(m) =~= seq![(0usize, 0usize), (1usize, 1usize)]);
                    self.lemma_pp_leaves(n1, n2, FORK, pm_view(m));
                }
                (NodeId(FORK), m)
            },
            (NodeRecord::Fork, NodeRecord::DontCare) => {
                let mut m = PairProductMap::new();
                m.push((0, 0));
                m.push((1, 0));
                proof {
                    assert(pm_view(m) =~= seq![(0usize, 0usize), (1usize, 0usize)]);
                    self.lemma_pp_leaves(n1, n2, FORK, pm_view(m));
                }
                (NodeId(FORK), m)
            },
            (NodeRecord::DontCare, NodeRecord::Fork) => {
                let mut m = PairProductMap::new();
                m.push((0, 0));
                m.push((0, 1));
                proof {
                    assert(pm_view(m) =~= seq![(0usize, 0usize), (0usize, 1usize)]);
                    self.lemma_pp_leaves(n1, n2, FORK, pm_view(m));
                }
                (NodeId(FORK), m)
            },
            (
                NodeRecord::Internal { level: l1, num_exits: ne1, a_conn: a1, b_conns: b1 },
                NodeRecord::Internal { level: l2, num_exits: ne2, a_conn: a2, b_conns: b2 },
            ) => {
                let level = l1;
                proof {
                    assert(record_ok(s0.recs(), s0.maps(), n1.0 as int, s0.recs()[n1.0 as int]));
                    assert(record_ok(s0.recs(), s0.maps(), n2.0 as int, s0.recs()[n2.0 as int]));
                    assert(level <= s0.level) by {
                        assert(level_of(s0.recs()[n1.0 as int]) <= s0.level);
                    }
                }
                // NoDistinction shortcuts: if either side is the
                // all-don't-care node at this level, the result is the
                // other side.
                let nd = self.no_distinction(level);
                if n1 == nd && n2 == nd {
                    let mut m = PairProductMap::new();
                    m.push((0, 0));
                    proof {
                        self.lemma_pp_nd(s0, n1, n2, n1, pm_view(m));
                        if canonical(s0.recs(), s0.maps(), lv, n1.0) {
                            lemma_canonical_extends(s0.recs(), s0.maps(), self.recs(), self.maps(), lv, n1.0);
                        }
                    }
                    return (n1, m);
                }
                if n1 == nd {
                    let mut m = PairProductMap::new();
                    let mut k: usize = 0;
                    while k < ne2
                        invariant
                            k <= ne2,
                            pm_view(m) == Seq::new(k as nat, |i: int| (0usize, i as usize)),
                        decreases ne2 - k,
                    {
                        m.push((0, k));
                        k = k + 1;
                        assert(pm_view(m) =~= Seq::new(k as nat, |i: int| (0usize, i as usize)));
                    }
                    proof {
                        self.lemma_pp_nd(s0, n1, n2, n2, pm_view(m));
                        if canonical(s0.recs(), s0.maps(), lv, n2.0) {
                            lemma_canonical_extends(s0.recs(), s0.maps(), self.recs(), self.maps(), lv, n2.0);
                        }
                    }
                    return (n2, m);
                }
                if n2 == nd {
                    let mut m = PairProductMap::new();
                    let mut k: usize = 0;
                    while k < ne1
                        invariant
                            k <= ne1,
                            pm_view(m) == Seq::new(k as nat, |i: int| (i as usize, 0usize)),
                        decreases ne1 - k,
                    {
                        m.push((k, 0));
                        k = k + 1;
                        assert(pm_view(m) =~= Seq::new(k as nat, |i: int| (i as usize, 0usize)));
                    }
                    proof {
                        self.lemma_pp_nd(s0, n1, n2, n1, pm_view(m));
                        if canonical(s0.recs(), s0.maps(), lv, n1.0) {
                            lemma_canonical_extends(s0.recs(), s0.maps(), self.recs(), self.maps(), lv, n1.0);
                        }
                    }
                    return (n1, m);
                }
                proof {
                    Self::lemma_grows_trans(s0, s0, *self);
                }
                self.pair_product_cross(n1, n2, level, a1, a2, b1, b2, Ghost(s0))
            },
            _ => {
                // One internal node and one leaf: impossible at matched levels.
                proof {
                    if s0.recs()[n1.0 as int] is Internal {
                        assert(record_ok(s0.recs(), s0.maps(), n1.0 as int, s0.recs()[n1.0 as int]));
                    }
                    if s0.recs()[n2.0 as int] is Internal {
                        assert(record_ok(s0.recs(), s0.maps(), n2.0 as int, s0.recs()[n2.0 as int]));
                    }
                    assert(false);
                }
                (NodeId(DONT_CARE), PairProductMap::new())
            },
        }
    }

    /// The pair product of two leaves.
    proof fn lemma_pp_leaves(&self, n1: NodeId, n2: NodeId, r: usize, pm: Seq<(usize, usize)>)
        requires
            self.wf(),
            n1.0 < self.recs().len(),
            n2.0 < self.recs().len(),
            !(self.recs()[n1.0 as int] is Internal),
            !(self.recs()[n2.0 as int] is Internal),
            r == (if self.recs()[n1.0 as int] is Fork || self.recs()[n2.0 as int] is Fork {
                FORK
            } else {
                DONT_CARE
            }),
            pm == (if self.recs()[n1.0 as int] is Fork {
                if self.recs()[n2.0 as int] is Fork {
                    seq![(0usize, 0usize), (1usize, 1usize)]
                } else {
                    seq![(0usize, 0usize), (1usize, 0usize)]
                }
            } else {
                if self.recs()[n2.0 as int] is Fork {
                    seq![(0usize, 0usize), (0usize, 1usize)]
                } else {
                    seq![(0usize, 0usize)]
                }
            }),
        ensures
            pp_ok(self.recs(), self.maps(), n1.0, n2.0, r, pm),
    {
        let recs = self.recs();
        let maps = self.maps();
        assert forall|a: Seq<bool>| #[trigger] pp_exits(recs, maps, 0, n1.0, n2.0, r, pm, a) by {
        }
        assert forall|i: int, j: int| 0 <= i < pm.len() && 0 <= j < pm.len() && i != j implies #[trigger] pm[i] != #[trigger] pm[j] by {
        }
    }

    /// The pair product with a single-exit node is the other node.
    proof fn lemma_pp_nd(&self, s0: Manager, n1: NodeId, n2: NodeId, r: NodeId, pm: Seq<(usize, usize)>)
        requires
            s0.wf(),
            self.wf(),
            self.grows_from(s0),
            n1.0 < s0.recs().len(),
            n2.0 < s0.recs().len(),
            level_of(s0.recs()[n1.0 as int]) == level_of(s0.recs()[n2.0 as int]),
            r == n1 || r == n2,
            r == n1 ==> num_exits_of(s0.recs()[n2.0 as int]) == 1,
            r == n2 ==> num_exits_of(s0.recs()[n1.0 as int]) == 1,
            r == n1 && r != n2 ==> pm == Seq::new(num_exits_of(s0.recs()[n1.0 as int]), |i: int| (i as usize, 0usize)),
            r == n2 && r != n1 ==> pm == Seq::new(num_exits_of(s0.recs()[n2.0 as int]), |i: int| (0usize, i as usize)),
            r == n1 && r == n2 ==> pm == seq![(0usize, 0usize)] && num_exits_of(s0.recs()[n1.0 as int]) == 1,
            num_exits_of(s0.recs()[n1.0 as int]) <= usize::MAX,
            num_exits_of(s0.recs()[n2.0 as int]) <= usize::MAX,
        ensures
            pp_ok(self.recs(), self.maps(), n1.0, n2.0, r.0, pm),
    {
        let recs = self.recs();
        let maps = self.maps();
        let lv = level_of(s0.recs()[n1.0 as int]);
        Self::lemma_node_keeps(*self, s0, lv, n1.0);
        Self::lemma_node_keeps(*self, s0, lv, n2.0);
        assert forall|a: Seq<bool>| #[trigger] pp_exits(recs, maps, lv, n1.0, n2.0, r.0, pm, a) by {
            lemma_exit_bound(recs, maps, lv, n1.0, a);
            lemma_exit_bound(recs, maps, lv, n2.0, a);
        }
        assert forall|i: int, j: int| 0 <= i < pm.len() && 0 <= j < pm.len() && i != j implies #[trigger] pm[i] != #[trigger] pm[j] by {
        }
    }

    /// Cross product of two internal nodes of the same level, neither of
    /// them the no-distinction node.
    #[verifier::spinoff_prover]
    fn pair_product_cross(
        &mut self,
        n1: NodeId,
        n2: NodeId,
        level: u8,
        a1: Connection,
        a2: Connection,
        b1: BConnVec,
        b2: BConnVec,
        Ghost(s0): Ghost<Manager>,
    ) -> (r: (NodeId, PairProductMap))
        requires
            s0.wf(),
            old(self).wf(),
            old(self).grows_from(s0),
            n1.0 < s0.recs().len(),
            n2.0 < s0.recs().len(),
            s0.recs()[n1.0 as int] is Internal,
            s0.recs()[n2.0 as int] is Internal,
            record_key(s0.recs()[n1.0 as int]).0 == level,
            record_key(s0.recs()[n2.0 as int]).0 == level,
            s0.recs()[n1.0 as int]->a_conn == a1,
            s0.recs()[n2.0 as int]->a_conn == a2,
            bconn_view(s0.recs()[n1.0 as int]->b_conns) == bconn_view(b1),
            bconn_view(s0.recs()[n2.0 as int]->b_conns) == bconn_view(b2),
            record_ok(s0.recs(), s0.maps(), n1.0 as int, s0.recs()[n1.0 as int]),
            record_ok(s0.recs(), s0.maps(), n2.0 as int, s0.recs()[n2.0 as int]),
            level <= s0.level,
        ensures
            final(self).wf(),
            final(self).grows_from(*old(self)),
            pp_ok(final(self).recs(), final(self).maps(), n1.0, n2.0, r.0.0, pm_view(r.1)),
            canonical(s0.recs(), s0.maps(), level as nat, n1.0) && canonical(s0.recs(), s0.maps(), level as nat, n2.0)
                ==> canonical(final(self).recs(), final(self).maps(), level as nat, r.0.0),
        decreases level_of(s0.recs()[n1.0 as int]), 0nat,
    {
        let ghost lv = level as nat;
        let ghost cl = (lv - 1) as nat;
        let ghost bv1 = bconn_view(b1);
        let ghost bv2 = bconn_view(b2);
        let ghost ne1 = s0.recs()[n1.0 as int]->num_exits;
        let ghost ne2 = s0.recs()[n2.0 as int]->num_exits;
        let ghost s1 = *self;
        let ghost canon: bool = canonical(s0.recs(), s0.maps(), lv, n1.0) && canonical(
            s0.recs(),
            s0.maps(),
            lv,
            n2.0,
        );
        proof {
            lemma_conn_ok_extends(s0.recs(), s0.maps(), s1.recs(), s1.maps(), n1.0 as int, cl, a1);
            lemma_conn_ok_extends(s0.recs(), s0.maps(), s1.recs(), s1.maps(), n2.0 as int, cl, a2);
            if canon {
                lemma_targets_canonical(s0.recs(), s0.maps(), cl, bv1, bv1.len());
                lemma_targets_canonical(s0.recs(), s0.maps(), cl, bv2, bv2.len());
                lemma_canonical_extends(s0.recs(), s0.maps(), s1.recs(), s1.maps(), cl, a1.target.0);
                lemma_canonical_extends(s0.recs(), s0.maps(), s1.recs(), s1.maps(), cl, a2.target.0);
                assert(s1.recs()[a1.target.0 as int] == s0.recs()[a1.target.0 as int]);
            }
        }
        // Cross product on A-connections.
        let (a_node, a_pair_map) = self.pair_product(a1.target, a2.target);
        let ghost apm = pm_view(a_pair_map);
        let ghost sa = *self;
        // The A-connection: identity return map of length |a_pair_map|.
        let a_len = a_pair_map.len();
        let a_return_map = self.rm_identity(a_len);
        let ghost sa2 = *self;
        proof {
            Self::lemma_grows_trans(s0, s1, sa);
            Self::lemma_grows_trans(s0, sa, sa2);
            lemma_pp_ok_extends(sa.recs(), sa.maps(), sa2.recs(), sa2.maps(), a1.target.0, a2.target.0, a_node.0, apm);
            assert(s0.maps()[a1.return_map.0 as int] == identity_seq(bv1.len()));
            assert(s0.maps()[a2.return_map.0 as int] == identity_seq(bv2.len()));
            Self::lemma_grows_refl(*self);
            if canon {
                lemma_canonical_extends(sa.recs(), sa.maps(), sa2.recs(), sa2.maps(), cl, a_node.0);
            }
        }
        // For each entry in a_pair_map, cross the selected B-connections,
        // building the result's B-connections and the exit pair map.
        let mut new_b_conns = BConnVec::new();
        let mut pair_map = PairProductMap::new();
        let mut exit_dedup = ExitDedup::new();
        let mut t: usize = 0;
        while t < a_len
            invariant
                s0.wf(),
                sa2.wf(),
                self.wf(),
                sa2.grows_from(s0),
                self.grows_from(sa2),
                lv == level as nat,
                cl == (lv - 1) as nat,
                level >= 1,
                level <= s0.level,
                bv1 == bconn_view(b1),
                bv2 == bconn_view(b2),
                n1.0 < s0.recs().len(),
                n2.0 < s0.recs().len(),
                ne1 == s0.recs()[n1.0 as int]->num_exits,
                ne2 == s0.recs()[n2.0 as int]->num_exits,
                record_ok(s0.recs(), s0.maps(), n1.0 as int, s0.recs()[n1.0 as int]),
                record_ok(s0.recs(), s0.maps(), n2.0 as int, s0.recs()[n2.0 as int]),
                s0.recs()[n1.0 as int] is Internal,
                s0.recs()[n2.0 as int] is Internal,
                record_key(s0.recs()[n1.0 as int]).0 == level,
                record_key(s0.recs()[n2.0 as int]).0 == level,
                s0.recs()[n1.0 as int]->a_conn == a1,
                s0.recs()[n2.0 as int]->a_conn == a2,
                bconn_view(s0.recs()[n1.0 as int]->b_conns) == bv1,
                bconn_view(s0.recs()[n2.0 as int]->b_conns) == bv2,
                apm == pm_view(a_pair_map),
                a_len == apm.len(),
                pp_ok(sa2.recs(), sa2.maps(), a1.target.0, a2.target.0, a_node.0, apm),
                a_return_map.0 < sa2.maps().len(),
                sa2.maps()[a_return_map.0 as int] == identity_seq(a_len as nat),
                t <= a_len,
                bconn_view(new_b_conns).len() == t,
                forall|key: (usize, usize)| #[trigger]
                    exit_dedup_contents(exit_dedup).contains_key(key) ==> exit_dedup_contents(
                        exit_dedup,
                    )[key] < pm_view(pair_map).len() && pm_view(pair_map)[exit_dedup_contents(
                        exit_dedup,
                    )[key] as int] == key,
                forall|p: int|
                    0 <= p < pm_view(pair_map).len() ==> (#[trigger] pm_view(pair_map)[p]).0 < ne1
                        && pm_view(pair_map)[p].1 < ne2,
                t > 0 ==> pm_view(pair_map).len() > 0,
                pm_view(pair_map).len() <= usize::MAX,
                forall|s: int|
                    0 <= s < t ==> #[trigger] bconn_ok(
                        self.recs(),
                        self.maps(),
                        self.recs().len() as int,
                        cl,
                        pm_view(pair_map).len() as usize,
                        bconn_view(new_b_conns)[s],
                    ),
                forall|s: int|
                    0 <= s < t ==> #[trigger] paired_exits(
                        self.recs(),
                        self.maps(),
                        cl,
                        bv1[apm[s].0 as int],
                        bv2[apm[s].1 as int],
                        bconn_view(new_b_conns)[s],
                        pm_view(pair_map),
                    ),
                forall|p: int|
                    0 <= p < pm_view(pair_map).len() ==> exit_dedup_contents(exit_dedup).contains_key(
                        #[trigger] pm_view(pair_map)[p],
                    ) && exit_dedup_contents(exit_dedup)[pm_view(pair_map)[p]] == p,
                fresh_ok(0, concat_maps(self.maps(), bconn_view(new_b_conns))),
                count_from(
                    0,
                    concat_maps(self.maps(), bconn_view(new_b_conns)),
                    concat_maps(self.maps(), bconn_view(new_b_conns)).len(),
                ) == pm_view(pair_map).len(),
                canon == (canonical(s0.recs(), s0.maps(), lv, n1.0) && canonical(
                    s0.recs(),
                    s0.maps(),
                    lv,
                    n2.0,
                )),
                canon ==> canonical(sa2.recs(), sa2.maps(), cl, a_node.0),
                canon ==> forall|j: int|
                    0 <= j < bv1.len() ==> canonical(s0.recs(), s0.maps(), cl, (#[trigger] bv1[j]).target.0)
                        && distinct(s0.maps()[bv1[j].return_map.0 as int]),
                canon ==> forall|j: int|
                    0 <= j < bv2.len() ==> canonical(s0.recs(), s0.maps(), cl, (#[trigger] bv2[j]).target.0)
                        && distinct(s0.maps()[bv2[j].return_map.0 as int]),
                canon ==> forall|q: int|
                    0 <= q < t ==> canonical(
                        self.recs(),
                        self.maps(),
                        cl,
                        (#[trigger] bconn_view(new_b_conns)[q]).target.0,
                    ) && distinct(self.maps()[bconn_view(new_b_conns)[q].return_map.0 as int]),
            decreases a_len - t,
        {
            let ghost sp = *self;
            let ghost p0 = pm_view(pair_map);
            let ghost nb0 = bconn_view(new_b_conns);
            let (b1_idx, b2_idx) = a_pair_map.get(t);
            proof {
                assert(apm[t as int].0 < num_exits_of(sa2.recs()[a1.target.0 as int]));
                assert(apm[t as int].1 < num_exits_of(sa2.recs()[a2.target.0 as int]));
                assert(sa2.recs()[a1.target.0 as int] == s0.recs()[a1.target.0 as int]);
                assert(sa2.recs()[a2.target.0 as int] == s0.recs()[a2.target.0 as int]);
            }
            let b1c = b1.get(b1_idx);
            let b2c = b2.get(b2_idx);
            proof {
                assert(bconn_ok(s0.recs(), s0.maps(), n1.0 as int, cl, ne1, b1c));
                assert(bconn_ok(s0.recs(), s0.maps(), n2.0 as int, cl, ne2, b2c));
                Self::lemma_grows_trans(s0, sa2, sp);
                lemma_conn_ok_extends(s0.recs(), s0.maps(), sp.recs(), sp.maps(), n1.0 as int, cl, b1c);
                lemma_conn_ok_extends(s0.recs(), s0.maps(), sp.recs(), sp.maps(), n2.0 as int, cl, b2c);
                if canon {
                    assert(canonical(s0.recs(), s0.maps(), cl, bv1[b1_idx as int].target.0));
                    assert(canonical(s0.recs(), s0.maps(), cl, bv2[b2_idx as int].target.0));
                    lemma_canonical_extends(s0.recs(), s0.maps(), sp.recs(), sp.maps(), cl, b1c.target.0);
                    lemma_canonical_extends(s0.recs(), s0.maps(), sp.recs(), sp.maps(), cl, b2c.target.0);
                    assert(sp.recs()[b1c.target.0 as int] == s0.recs()[b1c.target.0 as int]);
                }
            }
            let (b_node, b_pair_map) = self.pair_product(b1c.target, b2c.target);
            let ghost sb = *self;
            let ghost bpm = pm_view(b_pair_map);
            let b1c_map_body = self.rm_body(b1c.return_map).duplicate();
            let b2c_map_body = self.rm_body(b2c.return_map).duplicate();
            let ghost m1 = rmv_view(b1c_map_body);
            let ghost m2 = rmv_view(b2c_map_body);
            proof {
                lemma_conn_ok_extends(s0.recs(), s0.maps(), sb.recs(), sb.maps(), n1.0 as int, cl, b1c);
                lemma_conn_ok_extends(s0.recs(), s0.maps(), sb.recs(), sb.maps(), n2.0 as int, cl, b2c);
                assert forall|j: int| 0 <= j < m1.len() implies #[trigger] m1[j] < ne1 by {
                    assert(s0.maps()[b1c.return_map.0 as int][j] < ne1);
                }
                assert forall|j: int| 0 <= j < m2.len() implies #[trigger] m2[j] < ne2 by {
                    assert(s0.maps()[b2c.return_map.0 as int][j] < ne2);
                }
                lemma_some_exit(sb.recs(), sb.maps(), b_node.0);
            }
            let mut b_return_map = ReturnMapVec::new();
            let blen = b_pair_map.len();
            let mut c: usize = 0;
            let ghost e0 = concat_maps(sb.maps(), nb0);
            proof {
                assert forall|s: int| 0 <= s < nb0.len() implies (#[trigger] nb0[s]).return_map.0 < sp.maps().len() by {
                    assert(bconn_ok(sp.recs(), sp.maps(), sp.recs().len() as int, cl, p0.len() as usize, nb0[s]));
                }
                lemma_concat_extends(sp.maps(), sb.maps(), nb0);
                assert(e0 + rmv_view(b_return_map) =~= e0);
            }
            while c < blen
                invariant
                    c <= blen,
                    bpm == pm_view(b_pair_map),
                    blen == bpm.len(),
                    m1 == rmv_view(b1c_map_body),
                    m2 == rmv_view(b2c_map_body),
                    forall|q: int|
                        0 <= q < blen ==> (#[trigger] bpm[q]).0 < m1.len() && bpm[q].1 < m2.len(),
                    forall|j: int| 0 <= j < m1.len() ==> #[trigger] m1[j] < ne1,
                    forall|j: int| 0 <= j < m2.len() ==> #[trigger] m2[j] < ne2,
                    rmv_view(b_return_map).len() == c,
                    forall|q: int|
                        0 <= q < c ==> #[trigger] rmv_view(b_return_map)[q] < pm_view(pair_map).len()
                            && pm_view(pair_map)[rmv_view(b_return_map)[q] as int].0 == m1[bpm[q].0 as int]
                            && pm_view(pair_map)[rmv_view(b_return_map)[q] as int].1 == m2[bpm[q].1 as int],
                    forall|key: (usize, usize)| #[trigger]
                        exit_dedup_contents(exit_dedup).contains_key(key) ==> exit_dedup_contents(
                            exit_dedup,
                        )[key] < pm_view(pair_map).len() && pm_view(pair_map)[exit_dedup_contents(
                            exit_dedup,
                        )[key] as int] == key,
                    forall|p: int|
                        0 <= p < pm_view(pair_map).len() ==> (#[trigger] pm_view(pair_map)[p]).0
                            < ne1 && pm_view(pair_map)[p].1 < ne2,
                    extends_seq(p0, pm_view(pair_map)),
                    c > 0 ==> pm_view(pair_map).len() > 0,
                    pm_view(pair_map).len() <= usize::MAX,
                    forall|p: int|
                        0 <= p < pm_view(pair_map).len() ==> exit_dedup_contents(exit_dedup).contains_key(
                            #[trigger] pm_view(pair_map)[p],
                        ) && exit_dedup_contents(exit_dedup)[pm_view(pair_map)[p]] == p,
                    fresh_ok(0, e0 + rmv_view(b_return_map)),
                    count_from(0, e0 + rmv_view(b_return_map), (e0.len() + c) as nat) == pm_view(pair_map).len(),
                decreases blen - c,
            {
                let (c1, c2) = b_pair_map.get(c);
                let parent_exit_1 = b1c_map_body.get(c1);
                let parent_exit_2 = b2c_map_body.get(c2);
                let key = (parent_exit_1, parent_exit_2);
                let ghost pp = pm_view(pair_map);
                let ghost dd = exit_dedup;
                let ghost ev = e0 + rmv_view(b_return_map);
                let pos = match exit_dedup.get(key) {
                    Some(p) => p,
                    None => {
                        let p = pair_map.len();
                        pair_map.push(key);
                        exit_dedup.insert(key, p);
                        p
                    },
                };
                b_return_map.push(pos);
                proof {
                    let pn = pm_view(pair_map);
                    assert forall|q: int| 0 <= q < c + 1 implies #[trigger] rmv_view(b_return_map)[q]
                        < pn.len() && pn[rmv_view(b_return_map)[q] as int].0 == m1[bpm[q].0 as int]
                        && pn[rmv_view(b_return_map)[q] as int].1 == m2[bpm[q].1 as int] by {
                        if q < c {
                            assert(pn[rmv_view(b_return_map)[q] as int] == pp[rmv_view(b_return_map)[q] as int]);
                        }
                    }
                    assert forall|k2: (usize, usize)| #[trigger]
                        exit_dedup_contents(exit_dedup).contains_key(k2) implies exit_dedup_contents(
                            exit_dedup,
                        )[k2] < pn.len() && pn[exit_dedup_contents(exit_dedup)[k2] as int] == k2 by {
                        if k2 != key {
                            assert(pn[exit_dedup_contents(exit_dedup)[k2] as int] == pp[exit_dedup_contents(exit_dedup)[k2] as int]);
                        }
                    }
                    assert forall|p: int| 0 <= p < pn.len() implies exit_dedup_contents(exit_dedup).contains_key(
                        #[trigger] pn[p],
                    ) && exit_dedup_contents(exit_dedup)[pn[p]] == p by {
                        if p < pp.len() {
                            assert(pn[p] == pp[p]);
                            assert(exit_dedup_contents(dd).contains_key(pp[p]));
                            if pp[p] == key {
                                assert(exit_dedup_contents(dd).contains_key(key));
                            }
                        }
                    }
                    lemma_fresh_push(0, ev, pos);
                    assert(ev.push(pos) =~= e0 + rmv_view(b_return_map));
                }
                c = c + 1;
            }
            let ghost rv = rmv_view(b_return_map);
            let b_return_id = self.rm_intern(b_return_map);
            let nc = Connection { target: b_node, return_map: b_return_id };
            new_b_conns.push(nc);
            proof {
                assert(bconn_view(new_b_conns) == nb0.push(nc));
                lemma_concat_push(self.maps(), nb0, nc);
                lemma_concat_extends(sb.maps(), self.maps(), nb0);
                assert(concat_maps(self.maps(), bconn_view(new_b_conns)) == e0 + rv);
                if canon {
                    let nbn = bconn_view(new_b_conns);
                    assert(m1 =~= s0.maps()[b1c.return_map.0 as int]);
                    assert(m2 =~= s0.maps()[b2c.return_map.0 as int]);
                    assert(distinct(s0.maps()[bv1[b1_idx as int].return_map.0 as int]));
                    assert(distinct(s0.maps()[bv2[b2_idx as int].return_map.0 as int]));
                    lemma_rv_distinct(m1, m2, bpm, rv, pm_view(pair_map));
                    lemma_canonical_extends(sb.recs(), sb.maps(), self.recs(), self.maps(), cl, b_node.0);
                    assert forall|q: int| 0 <= q < t + 1 implies canonical(
                        self.recs(),
                        self.maps(),
                        cl,
                        (#[trigger] nbn[q]).target.0,
                    ) && distinct(self.maps()[nbn[q].return_map.0 as int]) by {
                        if q < t {
                            assert(nbn[q] == nb0[q]);
                            assert(canonical(sp.recs(), sp.maps(), cl, nb0[q].target.0));
                            lemma_canonical_extends(sp.recs(), sp.maps(), self.recs(), self.maps(), cl, nb0[q].target.0);
                            assert(bconn_ok(sp.recs(), sp.maps(), sp.recs().len() as int, cl, p0.len() as usize, nb0[q]));
                            assert(self.maps()[nb0[q].return_map.0 as int] == sp.maps()[nb0[q].return_map.0 as int]);
                        } else {
                            assert(nbn[q] == nc);
                        }
                    }
                }
                self.lemma_cross_step(s0, sa2, sp, sb, n1, n2, a1, a2, bv1, bv2, apm, a_node, t as int, b1c, b2c, b_node, bpm, nc, rv, nb0, bconn_view(new_b_conns), p0, pm_view(pair_map));
            }
            t = t + 1;
        }
        let num_exits = pair_map.len();
        let ghost s3 = *self;
        let ghost nbv = bconn_view(new_b_conns);
        let ghost pv = pm_view(pair_map);
        let a_conn = Connection { target: a_node, return_map: a_return_map };
        proof {
            self.lemma_cross_node_ok(s0, sa2, n1, a1, a2, a_conn, apm, new_b_conns, pv, level);
            assert forall|i: int, j: int| 0 <= i < pv.len() && 0 <= j < pv.len() && i != j implies #[trigger] pv[i] != #[trigger] pv[j] by {
                assert(exit_dedup_contents(exit_dedup)[pv[i]] == i);
                assert(exit_dedup_contents(exit_dedup)[pv[j]] == j);
            }
            lemma_reduction_fresh(concat_maps(s3.maps(), nbv), pv.len());
            if canon {
                lemma_canonical_extends(s0.recs(), s0.maps(), s3.recs(), s3.maps(), lv, n1.0);
                lemma_canonical_extends(s0.recs(), s0.maps(), s3.recs(), s3.maps(), lv, n2.0);
                s3.lemma_stores_unique();
                assert(s3.recs()[n1.0 as int] == s0.recs()[n1.0 as int]);
                assert(s3.recs()[n2.0 as int] == s0.recs()[n2.0 as int]);
                assert(sa2.recs()[a1.target.0 as int] == s0.recs()[a1.target.0 as int]);
                assert(sa2.recs()[a2.target.0 as int] == s0.recs()[a2.target.0 as int]);
                assert forall|q: int| 0 <= q < apm.len() implies (#[trigger] apm[q]).0 < bv1.len() && apm[q].1
                    < bv2.len() by {
                    assert(apm[q].0 < num_exits_of(sa2.recs()[a1.target.0 as int]));
                    assert(apm[q].1 < num_exits_of(sa2.recs()[a2.target.0 as int]));
                }
                lemma_cross_distinct(s3.recs(), s3.maps(), cl, n1.0, n2.0, apm, nbv, pv);
            }
        }
        let result = self.node_intern(level, num_exits, a_conn, new_b_conns);
        proof {
            self.lemma_cross_exit(s0, sa2, s3, n1, n2, a1, a2, bv1, bv2, a_conn, apm, nbv, pv, result);
            if canon {
                lemma_canonical_extends(sa2.recs(), sa2.maps(), self.recs(), self.maps(), cl, a_node.0);
                assert forall|q: int| 0 <= q < nbv.len() implies (#[trigger] nbv[q]).return_map.0 < s3.maps().len() by {
                    assert(bconn_ok(s3.recs(), s3.maps(), s3.recs().len() as int, cl, pv.len() as usize, nbv[q]));
                }
                lemma_reduce_canon_result(s3.recs(), s3.maps(), self.recs(), self.maps(), cl, nbv, result.0, pv.len());
            }
        }
        (result, pair_map)
    }

    /// One step of the cross product keeps the facts about every
    /// B-connection built so far, and adds them for the new one.
    proof fn lemma_cross_step(
        &self,
        s0: Manager,
        sa2: Manager,
        sp: Manager,
        sb: Manager,
        n1: NodeId,
        n2: NodeId,
        a1: Connection,
        a2: Connection,
        bv1: Seq<Connection>,
        bv2: Seq<Connection>,
        apm: Seq<(usize, usize)>,
        a_node: NodeId,
        t: int,
        b1c: Connection,
        b2c: Connection,
        b_node: NodeId,
        bpm: Seq<(usize, usize)>,
        nc: Connection,
        rv: Seq<usize>,
        nb0: Seq<Connection>,
        nbv: Seq<Connection>,
        p0: Seq<(usize, usize)>,
        pn: Seq<(usize, usize)>,
    )
        requires
            s0.wf(),
            sa2.wf(),
            sp.wf(),
            sb.wf(),
            self.wf(),
            sa2.grows_from(s0),
            sp.grows_from(sa2),
            sb.grows_from(sp),
            self.grows_from(sb),
            n1.0 < s0.recs().len(),
            n2.0 < s0.recs().len(),
            s0.recs()[n1.0 as int] is Internal,
            s0.recs()[n2.0 as int] is Internal,
            level_of(s0.recs()[n1.0 as int]) >= 1,
            level_of(s0.recs()[n2.0 as int]) == level_of(s0.recs()[n1.0 as int]),
            bconn_view(s0.recs()[n1.0 as int]->b_conns) == bv1,
            bconn_view(s0.recs()[n2.0 as int]->b_conns) == bv2,
            record_ok(s0.recs(), s0.maps(), n1.0 as int, s0.recs()[n1.0 as int]),
            record_ok(s0.recs(), s0.maps(), n2.0 as int, s0.recs()[n2.0 as int]),
            0 <= t < apm.len(),
            forall|s: int| 0 <= s < apm.len() ==> (#[trigger] apm[s]).0 < bv1.len() && apm[s].1 < bv2.len(),
            b1c == bv1[apm[t].0 as int],
            b2c == bv2[apm[t].1 as int],
            pp_ok(sb.recs(), sb.maps(), b1c.target.0, b2c.target.0, b_node.0, bpm),
            nc.target == b_node,
            nc.return_map.0 < self.maps().len(),
            self.maps()[nc.return_map.0 as int] == rv,
            rv.len() == bpm.len(),
            forall|q: int|
                0 <= q < rv.len() ==> #[trigger] rv[q] < pn.len() && pn[rv[q] as int].0
                    == s0.maps()[b1c.return_map.0 as int][bpm[q].0 as int] && pn[rv[q] as int].1
                    == s0.maps()[b2c.return_map.0 as int][bpm[q].1 as int],
            nb0.len() == t,
            nbv == nb0.push(nc),
            extends_seq(p0, pn),
            forall|s: int|
                0 <= s < t ==> #[trigger] bconn_ok(
                    sp.recs(),
                    sp.maps(),
                    sp.recs().len() as int,
                    (level_of(s0.recs()[n1.0 as int]) - 1) as nat,
                    p0.len() as usize,
                    nb0[s],
                ),
            forall|s: int|
                0 <= s < t ==> #[trigger] paired_exits(
                    sp.recs(),
                    sp.maps(),
                    (level_of(s0.recs()[n1.0 as int]) - 1) as nat,
                    bv1[apm[s].0 as int],
                    bv2[apm[s].1 as int],
                    nb0[s],
                    p0,
                ),
            pn.len() <= usize::MAX,
        ensures
            forall|s: int|
                0 <= s < t + 1 ==> #[trigger] bconn_ok(
                    self.recs(),
                    self.maps(),
                    self.recs().len() as int,
                    (level_of(s0.recs()[n1.0 as int]) - 1) as nat,
                    pn.len() as usize,
                    nbv[s],
                ),
            forall|s: int|
                0 <= s < t + 1 ==> #[trigger] paired_exits(
                    self.recs(),
                    self.maps(),
                    (level_of(s0.recs()[n1.0 as int]) - 1) as nat,
                    bv1[apm[s].0 as int],
                    bv2[apm[s].1 as int],
                    nbv[s],
                    pn,
                ),
    {
        let lv = level_of(s0.recs()[n1.0 as int]);
        let cl = (lv - 1) as nat;
        let ne1 = s0.recs()[n1.0 as int]->num_exits;
        let ne2 = s0.recs()[n2.0 as int]->num_exits;
        Self::lemma_grows_trans(sa2, sp, sb);
        Self::lemma_grows_trans(s0, sa2, sb);
        Self::lemma_grows_trans(sp, sb, *self);
        Self::lemma_grows_trans(s0, sb, *self);
        let recs = self.recs();
        let maps = self.maps();
        // earlier B-connections
        assert forall|s: int| 0 <= s < t implies #[trigger] paired_exits(
            recs,
            maps,
            cl,
            bv1[apm[s].0 as int],
            bv2[apm[s].1 as int],
            nbv[s],
            pn,
        ) by {
            assert(nbv[s] == nb0[s]);
            assert(bconn_ok(sp.recs(), sp.maps(), sp.recs().len() as int, cl, p0.len() as usize, nb0[s]));
            lemma_conn_ok_extends(sp.recs(), sp.maps(), recs, maps, sp.recs().len() as int, cl, nb0[s]);
            assert(paired_exits(sp.recs(), sp.maps(), cl, bv1[apm[s].0 as int], bv2[apm[s].1 as int], nb0[s], p0));
            let c1 = bv1[apm[s].0 as int];
            let c2 = bv2[apm[s].1 as int];
            assert(apm[s].0 < bv1.len());
            assert(bconn_ok(s0.recs(), s0.maps(), n1.0 as int, cl, ne1, c1));
            assert(bconn_ok(s0.recs(), s0.maps(), n2.0 as int, cl, ne2, c2));
            lemma_conn_ok_extends(s0.recs(), s0.maps(), sp.recs(), sp.maps(), n1.0 as int, cl, c1);
            lemma_conn_ok_extends(s0.recs(), s0.maps(), sp.recs(), sp.maps(), n2.0 as int, cl, c2);
            lemma_paired_exits_extends(sp.recs(), sp.maps(), recs, maps, cl, c1, c2, nb0[s], p0, pn);
        }
        assert forall|s: int| 0 <= s < t implies #[trigger] bconn_ok(
            recs,
            maps,
            recs.len() as int,
            cl,
            pn.len() as usize,
            nbv[s],
        ) by {
            assert(nbv[s] == nb0[s]);
            assert(bconn_ok(sp.recs(), sp.maps(), sp.recs().len() as int, cl, p0.len() as usize, nb0[s]));
            lemma_conn_ok_extends(sp.recs(), sp.maps(), recs, maps, sp.recs().len() as int, cl, nb0[s]);
            assert(forall|j: int| 0 <= j < maps[nbv[s].return_map.0 as int].len() ==> #[trigger] maps[nbv[s].return_map.0 as int][j] == sp.maps()[nbv[s].return_map.0 as int][j]);
        }
        // the new B-connection
        assert(nbv[t] == nc);
        assert(bconn_ok(s0.recs(), s0.maps(), n1.0 as int, cl, ne1, b1c));
        assert(bconn_ok(s0.recs(), s0.maps(), n2.0 as int, cl, ne2, b2c));
        lemma_conn_ok_extends(s0.recs(), s0.maps(), recs, maps, n1.0 as int, cl, b1c);
        lemma_conn_ok_extends(s0.recs(), s0.maps(), recs, maps, n2.0 as int, cl, b2c);
        lemma_conn_ok_extends(s0.recs(), s0.maps(), sb.recs(), sb.maps(), n1.0 as int, cl, b1c);
        lemma_pp_ok_extends(sb.recs(), sb.maps(), recs, maps, b1c.target.0, b2c.target.0, b_node.0, bpm);
        assert(bconn_ok(recs, maps, recs.len() as int, cl, pn.len() as usize, nc));
        assert forall|x: Seq<bool>| #[trigger] paired_at(recs, maps, cl, b1c, b2c, nc, pn, x) by {
            assert(pp_exits(recs, maps, cl, b1c.target.0, b2c.target.0, b_node.0, bpm, x));
            lemma_exit_bound(recs, maps, cl, b_node.0, x);
        }
        assert(paired_exits(recs, maps, cl, b1c, b2c, nc, pn));
    }

    /// The node built by the cross product is well formed.
    proof fn lemma_cross_node_ok(
        &self,
        s0: Manager,
        sa2: Manager,
        n1: NodeId,
        a1: Connection,
        a2: Connection,
        a_conn: Connection,
        apm: Seq<(usize, usize)>,
        b_conns: BConnVec,
        pv: Seq<(usize, usize)>,
        level: u8,
    )
        requires
            s0.wf(),
            sa2.wf(),
            self.wf(),
            sa2.grows_from(s0),
            self.grows_from(sa2),
            level >= 1,
            n1.0 < s0.recs().len(),
            level_of(s0.recs()[n1.0 as int]) == level,
            a1 == s0.recs()[n1.0 as int]->a_conn,
            record_ok(s0.recs(), s0.maps(), n1.0 as int, s0.recs()[n1.0 as int]),
            pp_ok(sa2.recs(), sa2.maps(), a1.target.0, a2.target.0, a_conn.target.0, apm),
            a_conn.return_map.0 < sa2.maps().len(),
            sa2.maps()[a_conn.return_map.0 as int] == identity_seq(apm.len()),
            bconn_view(b_conns).len() == apm.len(),
            forall|s: int|
                0 <= s < apm.len() ==> #[trigger] bconn_ok(
                    self.recs(),
                    self.maps(),
                    self.recs().len() as int,
                    (level - 1) as nat,
                    pv.len() as usize,
                    bconn_view(b_conns)[s],
                ),
            apm.len() > 0 ==> pv.len() > 0,
            pv.len() <= usize::MAX,
        ensures
            record_ok(
                self.recs(),
                self.maps(),
                self.recs().len() as int,
                NodeRecord::Internal {
                    level,
                    num_exits: pv.len() as usize,
                    a_conn,
                    b_conns,
                },
            ),
    {
        let cl = (level - 1) as nat;
        assert(conn_ok(s0.recs(), s0.maps(), n1.0 as int, cl, a1));
        assert(sa2.recs()[a1.target.0 as int] == s0.recs()[a1.target.0 as int]);
        lemma_some_exit(sa2.recs(), sa2.maps(), a_conn.target.0);
        assert(self.recs()[a_conn.target.0 as int] == sa2.recs()[a_conn.target.0 as int]);
        assert(self.maps()[a_conn.return_map.0 as int] == sa2.maps()[a_conn.return_map.0 as int]);
        assert(conn_ok(self.recs(), self.maps(), self.recs().len() as int, cl, a_conn));
    }

    /// The node built by the cross product picks, on every assignment, the
    /// exit whose pair names the operands' exits.
    proof fn lemma_cross_exit(
        &self,
        s0: Manager,
        sa2: Manager,
        s3: Manager,
        n1: NodeId,
        n2: NodeId,
        a1: Connection,
        a2: Connection,
        bv1: Seq<Connection>,
        bv2: Seq<Connection>,
        a_conn: Connection,
        apm: Seq<(usize, usize)>,
        nbv: Seq<Connection>,
        pv: Seq<(usize, usize)>,
        result: NodeId,
    )
        requires
            s0.wf(),
            sa2.wf(),
            s3.wf(),
            self.wf(),
            sa2.grows_from(s0),
            s3.grows_from(sa2),
            self.grows_from(s3),
            n1.0 < s0.recs().len(),
            n2.0 < s0.recs().len(),
            s0.recs()[n1.0 as int] is Internal,
            s0.recs()[n2.0 as int] is Internal,
            level_of(s0.recs()[n1.0 as int]) >= 1,
            level_of(s0.recs()[n2.0 as int]) == level_of(s0.recs()[n1.0 as int]),
            s0.recs()[n1.0 as int]->a_conn == a1,
            s0.recs()[n2.0 as int]->a_conn == a2,
            bconn_view(s0.recs()[n1.0 as int]->b_conns) == bv1,
            bconn_view(s0.recs()[n2.0 as int]->b_conns) == bv2,
            record_ok(s0.recs(), s0.maps(), n1.0 as int, s0.recs()[n1.0 as int]),
            record_ok(s0.recs(), s0.maps(), n2.0 as int, s0.recs()[n2.0 as int]),
            pp_ok(sa2.recs(), sa2.maps(), a1.target.0, a2.target.0, a_conn.target.0, apm),
            a_conn.return_map.0 < sa2.maps().len(),
            sa2.maps()[a_conn.return_map.0 as int] == identity_seq(apm.len()),
            nbv.len() == apm.len(),
            forall|p: int|
                0 <= p < pv.len() ==> (#[trigger] pv[p]).0 < num_exits_of(s0.recs()[n1.0 as int])
                    && pv[p].1 < num_exits_of(s0.recs()[n2.0 as int]),
            forall|s: int|
                0 <= s < apm.len() ==> #[trigger] bconn_ok(
                    s3.recs(),
                    s3.maps(),
                    s3.recs().len() as int,
                    (level_of(s0.recs()[n1.0 as int]) - 1) as nat,
                    pv.len() as usize,
                    nbv[s],
                ),
            forall|s: int|
                0 <= s < apm.len() ==> #[trigger] paired_exits(
                    s3.recs(),
                    s3.maps(),
                    (level_of(s0.recs()[n1.0 as int]) - 1) as nat,
                    bv1[apm[s].0 as int],
                    bv2[apm[s].1 as int],
                    nbv[s],
                    pv,
                ),
            result.0 < self.recs().len(),
            self.recs()[result.0 as int] is Internal,
            self.recs()[result.0 as int]->a_conn == a_conn,
            bconn_view(self.recs()[result.0 as int]->b_conns) == nbv,
            level_of(self.recs()[result.0 as int]) == level_of(s0.recs()[n1.0 as int]),
            num_exits_of(self.recs()[result.0 as int]) == pv.len(),
            distinct_pairs(pv),
        ensures
            pp_ok(self.recs(), self.maps(), n1.0, n2.0, result.0, pv),
    {
        let lv = level_of(s0.recs()[n1.0 as int]);
        let cl = (lv - 1) as nat;
        let recs = self.recs();
        let maps = self.maps();
        let ne1 = s0.recs()[n1.0 as int]->num_exits;
        let ne2 = s0.recs()[n2.0 as int]->num_exits;
        Self::lemma_grows_trans(s0, sa2, s3);
        Self::lemma_grows_trans(sa2, s3, *self);
        Self::lemma_grows_trans(s0, s3, *self);
        Self::lemma_node_keeps(*self, s0, lv, n1.0);
        Self::lemma_node_keeps(*self, s0, lv, n2.0);
        let h = vars_at(cl) as int;
        assert forall|a: Seq<bool>| #[trigger] pp_exits(recs, maps, lv, n1.0, n2.0, result.0, pv, a) by {
            let left = a.subrange(0, h);
            let right = a.subrange(h, a.len() as int);
            // the operands
            lemma_exit_internal(s0.recs(), s0.maps(), lv, n1.0, a);
            lemma_exit_internal(s0.recs(), s0.maps(), lv, n2.0, a);
            let e1 = exit_at(s0.recs(), s0.maps(), cl, a1.target.0, left);
            let e2 = exit_at(s0.recs(), s0.maps(), cl, a2.target.0, left);
            lemma_exit_bound(s0.recs(), s0.maps(), cl, a1.target.0, left);
            lemma_exit_bound(s0.recs(), s0.maps(), cl, a2.target.0, left);
            assert(s0.maps()[a1.return_map.0 as int][e1 as int] == e1);
            assert(s0.maps()[a2.return_map.0 as int][e2 as int] == e2);
            let c1 = bv1[e1 as int];
            let c2 = bv2[e2 as int];
            assert(bconn_ok(s0.recs(), s0.maps(), n1.0 as int, cl, ne1, c1));
            assert(bconn_ok(s0.recs(), s0.maps(), n2.0 as int, cl, ne2, c2));
            // the A-connection of the product
            assert(pp_exits(sa2.recs(), sa2.maps(), cl, a1.target.0, a2.target.0, a_conn.target.0, apm, left));
            lemma_exit_extends(s0.recs(), s0.maps(), sa2.recs(), sa2.maps(), cl, a1.target.0, left);
            lemma_exit_extends(s0.recs(), s0.maps(), sa2.recs(), sa2.maps(), cl, a2.target.0, left);
            lemma_exit_extends(sa2.recs(), sa2.maps(), recs, maps, cl, a_conn.target.0, left);
            lemma_exit_bound(sa2.recs(), sa2.maps(), cl, a_conn.target.0, left);
            let i = exit_at(recs, maps, cl, a_conn.target.0, left);
            assert(apm[i as int].0 == e1 && apm[i as int].1 == e2);
            assert(maps[a_conn.return_map.0 as int][i as int] == i);
            // the selected B-connection of the product
            let nb = nbv[i as int];
            assert(paired_exits(s3.recs(), s3.maps(), cl, c1, c2, nb, pv));
            assert(bconn_ok(s3.recs(), s3.maps(), s3.recs().len() as int, cl, pv.len() as usize, nb));
            lemma_conn_ok_extends(s0.recs(), s0.maps(), s3.recs(), s3.maps(), n1.0 as int, cl, c1);
            lemma_conn_ok_extends(s0.recs(), s0.maps(), s3.recs(), s3.maps(), n2.0 as int, cl, c2);
            lemma_paired_exits_extends(s3.recs(), s3.maps(), recs, maps, cl, c1, c2, nb, pv, pv);
            assert(paired_at(recs, maps, cl, c1, c2, nb, pv, right));
            lemma_exit_internal(recs, maps, lv, result.0, a);
            lemma_exit_extends(s0.recs(), s0.maps(), recs, maps, cl, c1.target.0, right);
            lemma_exit_extends(s0.recs(), s0.maps(), recs, maps, cl, c2.target.0, right);
            lemma_conn_ok_extends(s0.recs(), s0.maps(), recs, maps, n1.0 as int, cl, c1);
            lemma_conn_ok_extends(s0.recs(), s0.maps(), recs, maps, n2.0 as int, cl, c2);
        }
    }

    /// Apply a binary boolean op pointwise to two CFLOBDDs and reduce the
    /// result. The two operands must be at this manager's top level.
    #[verifier::spinoff_prover]
    pub fn apply(&mut self, f: Bdd, g: Bdd, op: BoolOp) -> (r: Bdd)
        requires
            old(self).inv(),
            old(self).valid(f),
            old(self).valid(g),
            op_ok(op),
        ensures
            final(self).inv(),
            final(self).extends(*old(self)),
            final(self).valid(r),
            forall|a: Seq<bool>| #[trigger]
                final(self).value(r, a) == op_value(op, old(self).value(f, a), old(self).value(g, a)),
            old(self).is_canonical(f) && old(self).is_canonical(g) ==> final(self).is_canonical(r),
    {
        let ghost s0 = *self;
        proof {
            self.lemma_reveal();
        }
        // PairProduct on roots.
        let (combined, pair_map) = self.pair_product(f.root, g.root);
        let ghost s1 = *self;
        let ghost pm = pm_view(pair_map);
        // Build the new value map and the reduction map: for each pair,
        // apply op to the operands' values and dedup against the values
        // met so far.
        let f_vals = self.rm_body(f.values).duplicate();
        let g_vals = self.rm_body(g.values).duplicate();
        let ghost fv = rmv_view(f_vals);
        let ghost gv = rmv_view(g_vals);
        proof {
            Self::lemma_grows_trans(s0, s0, s1);
            s1.lemma_grows_keeps(s0, f);
            s1.lemma_grows_keeps(s0, g);
            assert(fv.len() == num_exits_of(s1.recs()[f.root.0 as int]));
            assert(gv.len() == num_exits_of(s1.recs()[g.root.0 as int]));
        }
        // For boolean ops the range has at most 2 values; track slot
        // indices for 0 and 1 explicitly.
        let mut new_vals = ReturnMapVec::new();
        let mut reduction: Vec<usize> = Vec::new();
        let mut slot: [i32; 2] = [-1, -1];
        let n = pair_map.len();
        let mut k: usize = 0;
        while k < n
            invariant
                pm == pm_view(pair_map),
                n == pm.len(),
                fv == rmv_view(f_vals),
                gv == rmv_view(g_vals),
                op_ok(op),
                forall|p: int| 0 <= p < n ==> (#[trigger] pm[p]).0 < fv.len() && pm[p].1 < gv.len(),
                forall|i: int| 0 <= i < fv.len() ==> #[trigger] fv[i] <= 1,
                forall|i: int| 0 <= i < gv.len() ==> #[trigger] gv[i] <= 1,
                k <= n,
                rmv_view(new_vals).len() <= 2,
                forall|q: int|
                    0 <= q < rmv_view(new_vals).len() ==> #[trigger] rmv_view(new_vals)[q] <= 1
                        && slot[rmv_view(new_vals)[q] as int] == q,
                forall|v: int|
                    0 <= v < 2 ==> (#[trigger] slot[v] >= 0 ==> slot[v] < rmv_view(new_vals).len()
                        && rmv_view(new_vals)[slot[v] as int] == v),
                reduction@.len() == k,
                forall|q: int|
                    0 <= q < k ==> #[trigger] reduction@[q] < rmv_view(new_vals).len()
                        && rmv_view(new_vals)[reduction@[q] as int] == op[fv[pm[q].0 as int] as int][gv[pm[q].1 as int] as int],
                reduction_ok(reduction@, rmv_view(new_vals).len()),
            decreases n - k,
        {
            let ghost nv0 = rmv_view(new_vals);
            let ghost rd0 = reduction@;
            let (i, j) = pair_map.get(k);
            let v1 = f_vals.get(i);
            let v2 = g_vals.get(j);
            let val = op[v1][v2];
            let s = slot[val as usize];
            let pos = if s < 0 {
                let p = new_vals.len();
                proof {
                    assert forall|q: int| 0 <= q < nv0.len() implies nv0[q] != val by {
                        assert(slot[nv0[q] as int] == q);
                    }
                    if nv0.len() == 2 {
                        assert(slot[nv0[0] as int] == 0);
                        assert(slot[nv0[1] as int] == 1);
                        assert(false);
                    }
                }
                new_vals.push(val as usize);
                slot[val as usize] = p as i32;
                p
            } else {
                s as usize
            };
            reduction.push(pos);
            proof {
                let nv = rmv_view(new_vals);
                let rd = reduction@;
                if pos > 0 {
                    assert(occurs(rd0, pos - 1));
                }
                lemma_first_seen_push(rd0, pos);
                assert forall|v: int| 0 <= v < nv.len() implies #[trigger] occurs(rd, v) by {
                    if v < nv0.len() {
                        assert(occurs(rd0, v));
                    }
                    lemma_occurs_push(rd0, pos, v);
                }
                assert forall|q: int| 0 <= q < k + 1 implies #[trigger] rd[q] < nv.len() && nv[rd[q] as int]
                    == op[fv[pm[q].0 as int] as int][gv[pm[q].1 as int] as int] by {
                    if q < k {
                        assert(rd[q] == rd0[q]);
                    }
                }
            }
            k = k + 1;
        }
        let new_num_exits = new_vals.len();
        let ghost nv = rmv_view(new_vals);
        let new_values_id = self.rm_intern(new_vals);
        let ghost s2 = *self;
        // Reduce the combined node by the reduction map.
        proof {
            if s0.bdd_canonical(f) && s0.bdd_canonical(g) {
                assert(s1.recs()[combined.0 as int] == s2.recs()[combined.0 as int]);
                lemma_canonical_extends(s1.recs(), s1.maps(), s2.recs(), s2.maps(), s0.top(), combined.0);
            }
        }
        let reduced = self.reduce(combined, reduction.as_slice(), new_num_exits);
        let r = Bdd { root: reduced, values: new_values_id };
        proof {
            if s0.bdd_canonical(f) && s0.bdd_canonical(g) {
                assert forall|i: int, j: int| 0 <= i < nv.len() && 0 <= j < nv.len() && i != j implies nv[i] != nv[j] by {
                    assert(slot[nv[i] as int] == i);
                    assert(slot[nv[j] as int] == j);
                }
                assert(self.maps()[new_values_id.0 as int] == nv);
                assert(self.bdd_canonical(r));
            }
            self.lemma_apply_value(s0, s1, s2, f, g, op, combined, pm, nv, reduction@, r);
            Self::lemma_grows_trans(s0, s1, s2);
            Self::lemma_grows_trans(s0, s2, *self);
            self.lemma_reveal();
            s0.lemma_reveal();
        }
        r
    }

    /// The Bdd built by `apply` is well formed and denotes `op` applied
    /// pointwise.
    proof fn lemma_apply_value(
        &self,
        s0: Manager,
        s1: Manager,
        s2: Manager,
        f: Bdd,
        g: Bdd,
        op: BoolOp,
        combined: NodeId,
        pm: Seq<(usize, usize)>,
        nv: Seq<usize>,
        rd: Seq<usize>,
        r: Bdd,
    )
        requires
            s0.wf(),
            s1.wf(),
            s2.wf(),
            self.wf(),
            s1.grows_from(s0),
            s2.grows_from(s1),
            self.grows_from(s2),
            s0.bdd_wf(f),
            s0.bdd_wf(g),
            op_ok(op),
            pp_ok(s1.recs(), s1.maps(), f.root.0, g.root.0, combined.0, pm),
            nv.len() <= 2,
            forall|q: int| 0 <= q < nv.len() ==> #[trigger] nv[q] <= 1,
            rd.len() == pm.len(),
            forall|q: int|
                0 <= q < rd.len() ==> #[trigger] rd[q] < nv.len() && nv[rd[q] as int]
                    == op[s0.maps()[f.values.0 as int][pm[q].0 as int] as int][s0.maps()[g.values.0 as int][pm[q].1 as int] as int],
            r.values.0 < s2.maps().len(),
            s2.maps()[r.values.0 as int] == nv,
            reduce_ok(self.recs(), self.maps(), combined.0, rd, r.root.0),
            num_exits_of(self.recs()[r.root.0 as int]) == nv.len(),
        ensures
            self.bdd_wf(r),
            forall|a: Seq<bool>| #[trigger]
                self.bdd_value(r, a) == op_value(op, s0.bdd_value(f, a), s0.bdd_value(g, a)),
    {
        let lv = s0.top();
        Self::lemma_grows_trans(s0, s1, s2);
        Self::lemma_grows_trans(s0, s2, *self);
        Self::lemma_grows_trans(s1, s2, *self);
        self.lemma_grows_keeps(s0, f);
        self.lemma_grows_keeps(s0, g);
        lemma_pp_ok_extends(s1.recs(), s1.maps(), self.recs(), self.maps(), f.root.0, g.root.0, combined.0, pm);
        assert(self.maps()[r.values.0 as int] == nv);
        assert(level_of(self.recs()[f.root.0 as int]) == lv);
        let fv = s0.maps()[f.values.0 as int];
        let gv = s0.maps()[g.values.0 as int];
        assert forall|a: Seq<bool>| #[trigger]
            self.bdd_value(r, a) == op_value(op, s0.bdd_value(f, a), s0.bdd_value(g, a)) by {
            let e = exit_at(self.recs(), self.maps(), lv, combined.0, a);
            lemma_exit_bound(self.recs(), self.maps(), lv, combined.0, a);
            assert(pp_exits(self.recs(), self.maps(), lv, f.root.0, g.root.0, combined.0, pm, a));
            assert(exit_at(self.recs(), self.maps(), lv, r.root.0, a) == rd[e as int]);
            let ef = exit_at(self.recs(), self.maps(), lv, f.root.0, a);
            let eg = exit_at(self.recs(), self.maps(), lv, g.root.0, a);
            lemma_exit_bound(s0.recs(), s0.maps(), lv, f.root.0, a);
            lemma_exit_bound(s0.recs(), s0.maps(), lv, g.root.0, a);
            assert(fv[ef as int] <= 1);
            assert(gv[eg as int] <= 1);
        }
    }

    /// Conjunction: `f AND g`.
    pub fn and(&mut self, f: Bdd, g: Bdd) -> (r: Bdd)
        requires
            old(self).inv(),
            old(self).valid(f),
            old(self).valid(g),
        ensures
            final(self).inv(),
            final(self).extends(*old(self)),
            final(self).valid(r),
            forall|a: Seq<bool>| #[trigger] final(self).value(r, a) == (old(self).value(f, a) && old(self).value(g, a)),
            old(self).is_canonical(f) && old(self).is_canonical(g) ==> final(self).is_canonical(r),
    {
        proof {
            lemma_op_tables();
        }
        self.apply(f, g, AND_OP)
    }

    /// Disjunction: `f OR g`.
    pub fn or(&mut self, f: Bdd, g: Bdd) -> (r: Bdd)
        requires
            old(self).inv(),
            old(self).valid(f),
            old(self).valid(g),
        ensures
            final(self).inv(),
            final(self).extends(*old(self)),
            final(self).valid(r),
            forall|a: Seq<bool>| #[trigger] final(self).value(r, a) == (old(self).value(f, a) || old(self).value(g, a)),
            old(self).is_canonical(f) && old(self).is_canonical(g) ==> final(self).is_canonical(r),
    {
        proof {
            lemma_op_tables();
        }
        self.apply(f, g, OR_OP)
    }

    /// Exclusive or: `f XOR g`.
    pub fn xor(&mut self, f: Bdd, g: Bdd) -> (r: Bdd)
        requires
            old(self).inv(),
            old(self).valid(f),
            old(self).valid(g),
        ensures
            final(self).inv(),
            final(self).extends(*old(self)),
            final(self).valid(r),
            forall|a: Seq<bool>| #[trigger] final(self).value(r, a) == (old(self).value(f, a) != old(self).value(g, a)),
            old(self).is_canonical(f) && old(self).is_canonical(g) ==> final(self).is_canonical(r),
    {
        proof {
            lemma_op_tables();
        }
        self.apply(f, g, XOR_OP)
    }

    /// Equivalence: `f IFF g`.
    pub fn iff(&mut self, f: Bdd, g: Bdd) -> (r: Bdd)
        requires
            old(self).inv(),
            old(self).valid(f),
            old(self).valid(g),
        ensures
            final(self).inv(),
            final(self).extends(*old(self)),
            final(self).valid(r),
            forall|a: Seq<bool>| #[trigger] final(self).value(r, a) == (old(self).value(f, a) == old(self).value(g, a)),
            old(self).is_canonical(f) && old(self).is_canonical(g) ==> final(self).is_canonical(r),
    {
        proof {
            lemma_op_tables();
        }
        self.apply(f, g, IFF_OP)
    }

    /// Implication: `f IMPLIES g`.
    pub fn implies(&mut self, f: Bdd, g: Bdd) -> (r: Bdd)
        requires
            old(self).inv(),
            old(self).valid(f),
            old(self).valid(g),
        ensures
            final(self).inv(),
            final(self).extends(*old(self)),
            final(self).valid(r),
            forall|a: Seq<bool>| #[trigger] final(self).value(r, a) == (old(self).value(f, a) ==> old(self).value(g, a)),
            old(self).is_canonical(f) && old(self).is_canonical(g) ==> final(self).is_canonical(r),
    {
        proof {
            lemma_op_tables();
        }
        self.apply(f, g, IMPLIES_OP)
    }

    /// `NOT (f AND g)`.
    pub fn nand(&mut self, f: Bdd, g: Bdd) -> (r: Bdd)
        requires
            old(self).inv(),
            old(self).valid(f),
            old(self).valid(g),
        ensures
            final(self).inv(),
            final(self).extends(*old(self)),
            final(self).valid(r),
            forall|a: Seq<bool>| #[trigger] final(self).value(r, a) == (!(old(self).value(f, a) && old(self).value(g, a))),
            old(self).is_canonical(f) && old(self).is_canonical(g) ==> final(self).is_canonical(r),
    {
        proof {
            lemma_op_tables();
        }
        self.apply(f, g, NAND_OP)
    }

    /// `NOT (f OR g)`.
    pub fn nor(&mut self, f: Bdd, g: Bdd) -> (r: Bdd)
        requires
            old(self).inv(),
            old(self).valid(f),
            old(self).valid(g),
        ensures
            final(self).inv(),
            final(self).extends(*old(self)),
            final(self).valid(r),
            forall|a: Seq<bool>| #[trigger] final(self).value(r, a) == (!(old(self).value(f, a) || old(self).value(g, a))),
            old(self).is_canonical(f) && old(self).is_canonical(g) ==> final(self).is_canonical(r),
    {
        proof {
            lemma_op_tables();
        }
        self.apply(f, g, NOR_OP)
    }

    /// Logical negation: flip the value map. No structural work: the root
    /// is shared, and the flipped map still gives distinct values to
    /// distinct exits, so canonical form is kept.
    pub fn not(&mut self, f: Bdd) -> (r: Bdd)
        requires
            old(self).inv(),
            old(self).valid(f),
        ensures
            final(self).inv(),
            final(self).extends(*old(self)),
            final(self).valid(r),
            forall|a: Seq<bool>| #[trigger] final(self).value(r, a) == !old(self).value(f, a),
            old(self).is_canonical(f) ==> final(self).is_canonical(r),
            r.root_index() == f.root_index(),
            final(self).stored_nodes() == old(self).stored_nodes(),
            final(self).reachable(r) == old(self).reachable(f),
    {
        proof {
            self.lemma_reveal();
        }
        let ghost s0 = *self;
        let body = self.rm_body(f.values).duplicate();
        let ghost bv = rmv_view(body);
        let mut flipped = ReturnMapVec::new();
        let n = body.len();
        let mut i: usize = 0;
        while i < n
            invariant
                n == bv.len(),
                bv == rmv_view(body),
                forall|k: int| 0 <= k < bv.len() ==> #[trigger] bv[k] <= 1,
                i <= n,
                rmv_view(flipped).len() == i,
                forall|k: int| 0 <= k < i ==> #[trigger] rmv_view(flipped)[k] == 1 - bv[k],
            decreases n - i,
        {
            flipped.push(1 - body.get(i));
            i = i + 1;
        }
        let ghost fl = rmv_view(flipped);
        let new_id = self.rm_intern(flipped);
        let r = Bdd { root: f.root, values: new_id };
        proof {
            self.lemma_grows_keeps(s0, f);
            assert(self.maps()[new_id.0 as int] == fl);
            assert forall|a: Seq<bool>| #[trigger] self.bdd_value(r, a) == !s0.bdd_value(f, a) by {
                lemma_exit_bound(s0.recs(), s0.maps(), s0.top(), f.root.0, a);
            }
            if s0.bdd_canonical(f) {
                lemma_canonical_extends(s0.recs(), s0.maps(), self.recs(), self.maps(), s0.top(), f.root.0);
                assert forall|i: int, j: int| 0 <= i < fl.len() && 0 <= j < fl.len() && i != j implies fl[i] != fl[j] by {
                    assert(bv[i] != bv[j]);
                }
                assert(bv =~= s0.maps()[f.values.0 as int]);
            }
            self.lemma_reveal();
            Self::lemma_reachable_extends(*self, s0, f);
            self.lemma_reachable_root(r, f);
        }
        r
    }
}


/// The return map `body` is the identity `[0, 1, ..., len - 1]`.
pub fn is_identity_return_map(body: &[usize]) -> (r: bool)
    ensures
        r == (body@ == identity_seq(body@.len())),
{
    let n = body.len();
    let mut i: usize = 0;
    while i < n
        invariant
            n == body@.len(),
            i <= n,
            forall|t: int| 0 <= t < i ==> #[trigger] body@[t] == t,
        decreases n - i,
    {
        if body[i] != i {
            proof {
                if body@ == identity_seq(body@.len()) {
                    assert(body@[i as int] == identity_seq(body@.len())[i as int]);
                }
            }
            return false;
        }
        i = i + 1;
    }
    assert(body@ =~= identity_seq(body@.len()));
    true
}


impl Manager {
    /// Double negation: negating twice gives back the function.
    pub proof fn lemma_double_negation(m0: Manager, f: Bdd, m1: Manager, g: Bdd, m2: Manager, h: Bdd)
        requires
            forall|a: Seq<bool>| #[trigger] m1.value(g, a) == !m0.value(f, a),
            forall|a: Seq<bool>| #[trigger] m2.value(h, a) == !m1.value(g, a),
        ensures
            forall|a: Seq<bool>| #[trigger] m2.value(h, a) == m0.value(f, a),
    {
        assert forall|a: Seq<bool>| #[trigger] m2.value(h, a) == m0.value(f, a) by {
            assert(m1.value(g, a) == !m0.value(f, a));
        }
    }

    /// De Morgan: `NOT (f AND g)` and `(NOT f) OR (NOT g)` denote the same
    /// function.
    pub proof fn lemma_de_morgan(
        m0: Manager,
        f: Bdd,
        g: Bdd,
        m1: Manager,
        fg: Bdd,
        m2: Manager,
        lhs: Bdd,
        m3: Manager,
        nf: Bdd,
        ng: Bdd,
        m4: Manager,
        rhs: Bdd,
    )
        requires
            forall|a: Seq<bool>| #[trigger] m1.value(fg, a) == (m0.value(f, a) && m0.value(g, a)),
            forall|a: Seq<bool>| #[trigger] m2.value(lhs, a) == !m1.value(fg, a),
            forall|a: Seq<bool>| #[trigger] m3.value(nf, a) == !m0.value(f, a),
            forall|a: Seq<bool>| #[trigger] m3.value(ng, a) == !m0.value(g, a),
            forall|a: Seq<bool>| #[trigger] m4.value(rhs, a) == (m3.value(nf, a) || m3.value(ng, a)),
        ensures
            forall|a: Seq<bool>| #[trigger] m2.value(lhs, a) == m4.value(rhs, a),
    {
        assert forall|a: Seq<bool>| #[trigger] m2.value(lhs, a) == m4.value(rhs, a) by {
            assert(m1.value(fg, a) == (m0.value(f, a) && m0.value(g, a)));
            assert(m3.value(nf, a) == !m0.value(f, a));
            assert(m3.value(ng, a) == !m0.value(g, a));
        }
    }

    /// Distributivity: `f AND (g OR h)` and `(f AND g) OR (f AND h)` denote
    /// the same function.
    pub proof fn lemma_distributive(
        m0: Manager,
        f: Bdd,
        g: Bdd,
        h: Bdd,
        m1: Manager,
        gh: Bdd,
        m2: Manager,
        lhs: Bdd,
        m3: Manager,
        fg: Bdd,
        fh: Bdd,
        m4: Manager,
        rhs: Bdd,
    )
        requires
            forall|a: Seq<bool>| #[trigger] m1.value(gh, a) == (m0.value(g, a) || m0.value(h, a)),
            forall|a: Seq<bool>| #[trigger] m2.value(lhs, a) == (m0.value(f, a) && m1.value(gh, a)),
            forall|a: Seq<bool>| #[trigger] m3.value(fg, a) == (m0.value(f, a) && m0.value(g, a)),
            forall|a: Seq<bool>| #[trigger] m3.value(fh, a) == (m0.value(f, a) && m0.value(h, a)),
            forall|a: Seq<bool>| #[trigger] m4.value(rhs, a) == (m3.value(fg, a) || m3.value(fh, a)),
        ensures
            forall|a: Seq<bool>| #[trigger] m2.value(lhs, a) == m4.value(rhs, a),
    {
        assert forall|a: Seq<bool>| #[trigger] m2.value(lhs, a) == m4.value(rhs, a) by {
            assert(m1.value(gh, a) == (m0.value(g, a) || m0.value(h, a)));
            assert(m3.value(fg, a) == (m0.value(f, a) && m0.value(g, a)));
            assert(m3.value(fh, a) == (m0.value(f, a) && m0.value(h, a)));
        }
    }

    /// Double negation gives back the same `Bdd`: negating a canonical
    /// `Bdd` twice yields that very `Bdd`.
    pub proof fn lemma_double_negation_eq(m0: Manager, f: Bdd, m1: Manager, g: Bdd, m2: Manager, h: Bdd)
        requires
            m0.inv(),
            m0.valid(f),
            m0.is_canonical(f),
            m2.inv(),
            m2.extends(m0),
            m2.valid(h),
            m2.is_canonical(h),
            forall|a: Seq<bool>| #[trigger] m1.value(g, a) == !m0.value(f, a),
            forall|a: Seq<bool>| #[trigger] m2.value(h, a) == !m1.value(g, a),
        ensures
            h == f,
    {
        Self::lemma_double_negation(m0, f, m1, g, m2, h);
        Self::lemma_canonical_eq_across(m0, f, m2, h);
    }

    /// De Morgan holds canonically: `NOT (f AND g)`, built first, and
    /// `(NOT f) OR (NOT g)`, built after it, are the same `Bdd`.
    pub proof fn lemma_de_morgan_eq(
        m0: Manager,
        f: Bdd,
        g: Bdd,
        m1: Manager,
        fg: Bdd,
        m2: Manager,
        lhs: Bdd,
        m3: Manager,
        nf: Bdd,
        ng: Bdd,
        m4: Manager,
        rhs: Bdd,
    )
        requires
            m2.inv(),
            m2.valid(lhs),
            m2.is_canonical(lhs),
            m4.inv(),
            m4.extends(m2),
            m4.valid(rhs),
            m4.is_canonical(rhs),
            forall|a: Seq<bool>| #[trigger] m1.value(fg, a) == (m0.value(f, a) && m0.value(g, a)),
            forall|a: Seq<bool>| #[trigger] m2.value(lhs, a) == !m1.value(fg, a),
            forall|a: Seq<bool>| #[trigger] m3.value(nf, a) == !m0.value(f, a),
            forall|a: Seq<bool>| #[trigger] m3.value(ng, a) == !m0.value(g, a),
            forall|a: Seq<bool>| #[trigger] m4.value(rhs, a) == (m3.value(nf, a) || m3.value(ng, a)),
        ensures
            lhs == rhs,
    {
        Self::lemma_de_morgan(m0, f, g, m1, fg, m2, lhs, m3, nf, ng, m4, rhs);
        Self::lemma_canonical_eq_across(m2, lhs, m4, rhs);
    }

    /// Distributivity holds canonically: `f AND (g OR h)`, built first, and
    /// `(f AND g) OR (f AND h)`, built after it, are the same `Bdd`.
    pub proof fn lemma_distributive_eq(
        m0: Manager,
        f: Bdd,
        g: Bdd,
        h: Bdd,
        m1: Manager,
        gh: Bdd,
        m2: Manager,
        lhs: Bdd,
        m3: Manager,
        fg: Bdd,
        fh: Bdd,
        m4: Manager,
        rhs: Bdd,
    )
        requires
            m2.inv(),
            m2.valid(lhs),
            m2.is_canonical(lhs),
            m4.inv(),
            m4.extends(m2),
            m4.valid(rhs),
            m4.is_canonical(rhs),
            forall|a: Seq<bool>| #[trigger] m1.value(gh, a) == (m0.value(g, a) || m0.value(h, a)),
            forall|a: Seq<bool>| #[trigger] m2.value(lhs, a) == (m0.value(f, a) && m1.value(gh, a)),
            forall|a: Seq<bool>| #[trigger] m3.value(fg, a) == (m0.value(f, a) && m0.value(g, a)),
            forall|a: Seq<bool>| #[trigger] m3.value(fh, a) == (m0.value(f, a) && m0.value(h, a)),
            forall|a: Seq<bool>| #[trigger] m4.value(rhs, a) == (m3.value(fg, a) || m3.value(fh, a)),
        ensures
            lhs == rhs,
    {
        Self::lemma_distributive(m0, f, g, h, m1, gh, m2, lhs, m3, fg, fh, m4, rhs);
        Self::lemma_canonical_eq_across(m2, lhs, m4, rhs);
    }

    /// Idempotence holds canonically: `f AND f` and `f OR f` are `f` itself.
    pub proof fn lemma_idempotence(m0: Manager, f: Bdd, m1: Manager, fa: Bdd, m2: Manager, fo: Bdd)
        requires
            m0.inv(),
            m0.valid(f),
            m0.is_canonical(f),
            m1.inv(),
            m1.extends(m0),
            m1.valid(fa),
            m1.is_canonical(fa),
            m2.inv(),
            m2.extends(m0),
            m2.valid(fo),
            m2.is_canonical(fo),
            forall|a: Seq<bool>| #[trigger] m1.value(fa, a) == (m0.value(f, a) && m0.value(f, a)),
            forall|a: Seq<bool>| #[trigger] m2.value(fo, a) == (m0.value(f, a) || m0.value(f, a)),
        ensures
            fa == f,
            fo == f,
    {
        Self::lemma_canonical_eq_across(m0, f, m1, fa);
        Self::lemma_canonical_eq_across(m0, f, m2, fo);
    }

    /// `f XOR f`, built first, is the constant-false `Bdd` built after it.
    pub proof fn lemma_xor_self(m0: Manager, f: Bdd, m1: Manager, r: Bdd, m2: Manager, fls: Bdd)
        requires
            m1.inv(),
            m1.valid(r),
            m1.is_canonical(r),
            m2.inv(),
            m2.extends(m1),
            m2.valid(fls),
            m2.is_canonical(fls),
            forall|a: Seq<bool>| #[trigger] m1.value(r, a) == (m0.value(f, a) != m0.value(f, a)),
            forall|a: Seq<bool>| !#[trigger] m2.value(fls, a),
        ensures
            r == fls,
    {
        Self::lemma_canonical_eq_across(m1, r, m2, fls);
    }

    /// The constants are units and zeros, canonically: `f AND true` and
    /// `f OR false` are `f`, `f AND false` is the false `Bdd`, and
    /// `f OR true` is the true `Bdd`.
    pub proof fn lemma_constant_identities(
        m0: Manager,
        f: Bdd,
        t: Bdd,
        fls: Bdd,
        m1: Manager,
        f_and_t: Bdd,
        m2: Manager,
        f_or_fls: Bdd,
        m3: Manager,
        f_and_fls: Bdd,
        m4: Manager,
        f_or_t: Bdd,
    )
        requires
            m0.inv(),
            m0.valid(f),
            m0.valid(t),
            m0.valid(fls),
            m0.is_canonical(f),
            m0.is_canonical(t),
            m0.is_canonical(fls),
            forall|a: Seq<bool>| #[trigger] m0.value(t, a),
            forall|a: Seq<bool>| !#[trigger] m0.value(fls, a),
            m1.inv(),
            m1.extends(m0),
            m1.valid(f_and_t),
            m1.is_canonical(f_and_t),
            m2.inv(),
            m2.extends(m0),
            m2.valid(f_or_fls),
            m2.is_canonical(f_or_fls),
            m3.inv(),
            m3.extends(m0),
            m3.valid(f_and_fls),
            m3.is_canonical(f_and_fls),
            m4.inv(),
            m4.extends(m0),
            m4.valid(f_or_t),
            m4.is_canonical(f_or_t),
            forall|a: Seq<bool>| #[trigger] m1.value(f_and_t, a) == (m0.value(f, a) && m0.value(t, a)),
            forall|a: Seq<bool>| #[trigger] m2.value(f_or_fls, a) == (m0.value(f, a) || m0.value(fls, a)),
            forall|a: Seq<bool>| #[trigger] m3.value(f_and_fls, a) == (m0.value(f, a) && m0.value(fls, a)),
            forall|a: Seq<bool>| #[trigger] m4.value(f_or_t, a) == (m0.value(f, a) || m0.value(t, a)),
        ensures
            f_and_t == f,
            f_or_fls == f,
            f_and_fls == fls,
            f_or_t == t,
    {
        assert forall|a: Seq<bool>| #[trigger] m1.value(f_and_t, a) == m0.value(f, a) by {
            assert(m0.value(t, a));
        }
        assert forall|a: Seq<bool>| #[trigger] m2.value(f_or_fls, a) == m0.value(f, a) by {
            assert(!m0.value(fls, a));
        }
        assert forall|a: Seq<bool>| #[trigger] m3.value(f_and_fls, a) == m0.value(fls, a) by {
            assert(!m0.value(fls, a));
        }
        assert forall|a: Seq<bool>| #[trigger] m4.value(f_or_t, a) == m0.value(t, a) by {
            assert(m0.value(t, a));
        }
        Self::lemma_canonical_eq_across(m0, f, m1, f_and_t);
        Self::lemma_canonical_eq_across(m0, f, m2, f_or_fls);
        Self::lemma_canonical_eq_across(m0, fls, m3, f_and_fls);
        Self::lemma_canonical_eq_across(m0, t, m4, f_or_t);
    }

    /// `AND`, `OR` and `XOR` commute canonically: the operation on `(f, g)`,
    /// built first, and on `(g, f)`, built after it, give the same `Bdd`.
    pub proof fn lemma_commutative(m0: Manager, f: Bdd, g: Bdd, m1: Manager, r1: Bdd, m2: Manager, r2: Bdd, op: BoolOp)
        requires
            op == AND_OP || op == OR_OP || op == XOR_OP,
            m1.inv(),
            m1.valid(r1),
            m1.is_canonical(r1),
            m2.inv(),
            m2.extends(m1),
            m2.valid(r2),
            m2.is_canonical(r2),
            forall|a: Seq<bool>| #[trigger] m1.value(r1, a) == op_value(op, m0.value(f, a), m0.value(g, a)),
            forall|a: Seq<bool>| #[trigger] m2.value(r2, a) == op_value(op, m0.value(g, a), m0.value(f, a)),
        ensures
            r1 == r2,
    {
        lemma_op_tables();
        assert forall|a: Seq<bool>| #[trigger] m1.value(r1, a) == m2.value(r2, a) by {
            let x = m0.value(f, a);
            let y = m0.value(g, a);
            assert(op_value(op, x, y) == op_value(op, y, x));
        }
        Self::lemma_canonical_eq_across(m1, r1, m2, r2);
    }

    /// `AND` is associative canonically: `(f AND g) AND h`, built first,
    /// and `f AND (g AND h)`, built after it, are the same `Bdd`.
    pub proof fn lemma_and_associative(
        m0: Manager,
        f: Bdd,
        g: Bdd,
        h: Bdd,
        m1: Manager,
        fg: Bdd,
        m2: Manager,
        left: Bdd,
        m3: Manager,
        gh: Bdd,
        m4: Manager,
        right: Bdd,
    )
        requires
            m2.inv(),
            m2.valid(left),
            m2.is_canonical(left),
            m4.inv(),
            m4.extends(m2),
            m4.valid(right),
            m4.is_canonical(right),
            forall|a: Seq<bool>| #[trigger] m1.value(fg, a) == (m0.value(f, a) && m0.value(g, a)),
            forall|a: Seq<bool>| #[trigger] m2.value(left, a) == (m1.value(fg, a) && m0.value(h, a)),
            forall|a: Seq<bool>| #[trigger] m3.value(gh, a) == (m0.value(g, a) && m0.value(h, a)),
            forall|a: Seq<bool>| #[trigger] m4.value(right, a) == (m0.value(f, a) && m3.value(gh, a)),
        ensures
            left == right,
    {
        assert forall|a: Seq<bool>| #[trigger] m2.value(left, a) == m4.value(right, a) by {
            assert(m1.value(fg, a) == (m0.value(f, a) && m0.value(g, a)));
            assert(m3.value(gh, a) == (m0.value(g, a) && m0.value(h, a)));
        }
        Self::lemma_canonical_eq_across(m2, left, m4, right);
    }
}

} // verus!
