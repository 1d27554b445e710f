//! Reduce: canonicalization of CFLOBDD nodes.
//!
//! Reduce takes a node `n`, a reduction map `red` (which translates `n`'s
//! exit indices into a smaller, contiguous set of new exit indices), and
//! the number `new_num_exits` of distinct values in `red`. It returns a
//! canonical node whose exits have been merged according to `red`.
//!
//! It works in two steps: compose each B-connection's return map with
//! `red` and reduce its target, then merge equal B-connections and reduce
//! the A-connection's target by that merging.

use crate::canonical::{
    canonical, compose_seq, concat_maps, count_from, fresh_ok, lemma_canonical_extends,
    lemma_canonical_intro, lemma_canonical_shrinks, lemma_compose_append, lemma_compose_fresh,
    lemma_concat_entries, lemma_concat_extends, lemma_concat_push, lemma_concat_take,
    lemma_dedup_fresh, lemma_fresh_append, lemma_fresh_no_new, lemma_fresh_values,
    lemma_reduction_fresh, lemma_targets_canonical,
};
use crate::manager::{single_canonical, Manager};
use crate::canonical::lemma_dedupe_unique;
use crate::node::{bconn_view, BConnVec, Connection, NodeId, NodeRecord, DONT_CARE, FORK};
use crate::return_map::{rmv_view, ReturnMapId, ReturnMapVec};
use crate::semantics::{
    all_below, bconn_ok, dedupes, seen_before, conn_ok, distinct, exit_at, extends_seq, first_seen, identity_seq,
    internal_exit, lemma_exit_bound, lemma_exit_extends, lemma_exit_internal,
    lemma_first_seen_push, lemma_first_seen_short, lemma_identity_reduction,
    lemma_identity_reduction_ok, lemma_occurs_push, lemma_single_exit, level_of, node_ok,
    lemma_conn_ok_extends, lemma_reduction_count_unique, lemma_reduction_nonempty, vars_at,
    num_exits_of, occurs, record_key, record_ok, reduction_ok, store_wf,
};
use rustc_hash::FxBuildHasher;
use std::collections::HashMap;
use vstd::prelude::*;

verus! {

/// What an `FxHashMap` keyed by pairs of ids holds.
pub uninterp spec fn pair_table_contents(m: HashMap<(usize, usize), usize, FxBuildHasher>) -> Map<
    (usize, usize),
    usize,
>;

/// Calls `FxHashMap::default` (`HashMap::default` with the Fx hasher): the
/// table is empty.
#[verifier::external_body]
pub(crate) fn pair_table_new() -> (r: HashMap<(usize, usize), usize, FxBuildHasher>)
    ensures
        pair_table_contents(r) =~= Map::empty(),
{
    HashMap::default()
}

/// Calls `HashMap::get`: the value stored under `key`, if any.
#[verifier::external_body]
pub(crate) fn pair_table_get(m: &HashMap<(usize, usize), usize, FxBuildHasher>, key: (
    usize,
    usize,
)) -> (r: Option<usize>)
    ensures
        r is Some <==> pair_table_contents(*m).contains_key(key),
        r matches Some(v) ==> v == pair_table_contents(*m)[key],
{
    m.get(&key).copied()
}

/// Calls `HashMap::insert`: afterwards `key` maps to `value` and every
/// other entry is unchanged.
#[verifier::external_body]
pub(crate) fn pair_table_insert(
    m: &mut HashMap<(usize, usize), usize, FxBuildHasher>,
    key: (usize, usize),
    value: usize,
)
    ensures
        pair_table_contents(*final(m)) == pair_table_contents(*old(m)).insert(key, value),
{
    m.insert(key, value);
}

/// Node `r` is node `n` with its exits merged by `red`: same level, one
/// exit per value of `red`, and on every assignment `r` picks `red` of
/// the exit that `n` picks.
pub(crate) open spec fn reduce_ok(
    recs: Seq<NodeRecord>,
    maps: Seq<Seq<usize>>,
    n: usize,
    red: Seq<usize>,
    r: usize,
) -> bool {
    let lv = level_of(recs[n as int]);
    &&& n < recs.len()
    &&& node_ok(recs, r, lv)
    &&& red.len() == num_exits_of(recs[n as int])
    &&& reduction_ok(red, num_exits_of(recs[r as int]))
    &&& forall|a: Seq<bool>| #[trigger]
        exit_at(recs, maps, lv, r, a) == red[exit_at(recs, maps, lv, n, a) as int]
}

pub(crate) proof fn lemma_reduce_ok_extends(
    recs1: Seq<NodeRecord>,
    maps1: Seq<Seq<usize>>,
    recs2: Seq<NodeRecord>,
    maps2: Seq<Seq<usize>>,
    n: usize,
    red: Seq<usize>,
    r: usize,
)
    requires
        store_wf(recs1, maps1),
        extends_seq(recs1, recs2),
        extends_seq(maps1, maps2),
        reduce_ok(recs1, maps1, n, red, r),
    ensures
        reduce_ok(recs2, maps2, n, red, r),
{
    let lv = level_of(recs1[n as int]);
    assert(recs2[n as int] == recs1[n as int]);
    assert(recs2[r as int] == recs1[r as int]);
    assert forall|a: Seq<bool>| #[trigger]
        exit_at(recs2, maps2, lv, r, a) == red[exit_at(recs2, maps2, lv, n, a) as int] by {
        lemma_exit_extends(recs1, maps1, recs2, maps2, lv, r, a);
        lemma_exit_extends(recs1, maps1, recs2, maps2, lv, n, a);
        assert(exit_at(recs1, maps1, lv, r, a) == red[exit_at(recs1, maps1, lv, n, a) as int]);
    }
}

/// `red[m[0]], red[m[1]], ...`: the entries of `m` renamed by `red`.
pub(crate) open spec fn composed(m: Seq<usize>, red: Seq<usize>) -> Seq<usize> {
    Seq::new(m.len(), |i: int| red[m[i] as int])
}

/// A deduplication of `composed(m, red)` without repeats is the only one.
proof fn lemma_compose_dedupes(m: Seq<usize>, red: Seq<usize>, b: Seq<usize>, q: Seq<usize>)
    requires
        q.len() == m.len(),
        reduction_ok(q, b.len()),
        distinct(b),
        forall|i: int| 0 <= i < m.len() ==> #[trigger] b[q[i] as int] == red[m[i] as int],
    ensures
        forall|b2: Seq<usize>, q2: Seq<usize>|
            #[trigger] dedupes(composed(m, red), b2, q2) ==> b2 == b && q2 == q,
{
    let s = composed(m, red);
    assert(dedupes(s, b, q));
    assert forall|b2: Seq<usize>, q2: Seq<usize>| #[trigger] dedupes(s, b2, q2) implies b2 == b && q2 == q by {
        lemma_dedupe_unique(s, b2, q2, b, q);
    }
}

impl Manager {
    /// Every cached reduction is a correct one, canonical when the reduced
    /// node is.
    pub(crate) open spec fn reduce_cache_wf(&self) -> bool {
        let c = pair_table_contents(self.reduce_cache);
        forall|k: (usize, usize)| #[trigger]
            c.contains_key(k) ==> k.1 < self.maps().len() && reduce_ok(
                self.recs(),
                self.maps(),
                k.0,
                self.maps()[k.1 as int],
                c[k],
            ) && (canonical(self.recs(), self.maps(), level_of(self.recs()[k.0 as int]), k.0)
                ==> canonical(self.recs(), self.maps(), level_of(self.recs()[k.0 as int]), c[k]))
    }

    pub(crate) proof fn lemma_reduce_cache_grows(earlier: Manager, later: Manager)
        requires
            store_wf(earlier.recs(), earlier.maps()),
            earlier.reduce_cache_wf(),
            later.grows_from(earlier),
            later.reduce_cache == earlier.reduce_cache,
        ensures
            later.reduce_cache_wf(),
    {
        let c = pair_table_contents(later.reduce_cache);
        assert forall|k: (usize, usize)| #[trigger] c.contains_key(k) implies k.1
            < later.maps().len() && reduce_ok(
            later.recs(),
            later.maps(),
            k.0,
            later.maps()[k.1 as int],
            c[k],
        ) && (canonical(later.recs(), later.maps(), level_of(later.recs()[k.0 as int]), k.0)
            ==> canonical(later.recs(), later.maps(), level_of(later.recs()[k.0 as int]), c[k])) by {
            assert(later.maps()[k.1 as int] == earlier.maps()[k.1 as int]);
            assert(later.recs()[k.0 as int] == earlier.recs()[k.0 as int]);
            let lvk = level_of(later.recs()[k.0 as int]);
            if canonical(later.recs(), later.maps(), lvk, k.0) {
                lemma_canonical_shrinks(earlier.recs(), earlier.maps(), later.recs(), later.maps(), lvk, k.0);
                lemma_canonical_extends(earlier.recs(), earlier.maps(), later.recs(), later.maps(), lvk, c[k]);
            }
            lemma_reduce_ok_extends(
                earlier.recs(),
                earlier.maps(),
                later.recs(),
                later.maps(),
                k.0,
                earlier.maps()[k.1 as int],
                c[k],
            );
        }
    }
}

/// `red` is the identity map `[0, 1, ..., len - 1]`.
pub fn is_identity(red: &[usize]) -> (r: bool)
    ensures
        r == (red@ == identity_seq(red@.len())),
{
    let n = red.len();
    let mut i: usize = 0;
    while i < n
        invariant
            n == red@.len(),
            i <= n,
            forall|t: int| 0 <= t < i ==> #[trigger] red@[t] == t,
        decreases n - i,
    {
        if red[i] != i {
            proof {
                if red@ == identity_seq(red@.len()) {
                    assert(red@[i as int] == identity_seq(red@.len())[i as int]);
                }
            }
            return false;
        }
        i = i + 1;
    }
    assert(red@ =~= identity_seq(red@.len()));
    true
}

/// The state of `compose_and_reduce` after `i` entries of `m`: `o` holds
/// the distinct values of `red[m[..i]]` in first-seen order, `slot` finds
/// each of them in `o`, and `ind` gives each entry's position in `o`.
#[verifier::opaque]
pub(crate) open spec fn compose_state(
    m: Seq<usize>,
    red: Seq<usize>,
    bound: nat,
    i: int,
    o: Seq<usize>,
    slot: Seq<Option<usize>>,
    ind: Seq<usize>,
) -> bool {
    &&& 0 <= i <= m.len()
    &&& m.len() <= usize::MAX
    &&& o.len() <= i
    &&& forall|t: int| 0 <= t < m.len() ==> #[trigger] m[t] < red.len()
    &&& all_below(red, bound)
    &&& all_below(red, slot.len())
    &&& ind.len() == i
    &&& forall|v: int|
        0 <= v < slot.len() ==> (#[trigger] slot[v] matches Some(p) ==> p < o.len() && o[p as int]
            == v)
    &&& forall|p: int|
        0 <= p < o.len() ==> #[trigger] o[p] < slot.len() && slot[o[p] as int] == Some(p as usize)
    &&& forall|t: int|
        0 <= t < i ==> #[trigger] ind[t] < o.len() && o[ind[t] as int] == red[m[t] as int]
    &&& reduction_ok(ind, o.len())
    &&& all_below(o, bound)
    &&& m == identity_seq(red.len()) && first_seen(red) ==> o == identity_seq(o.len()) && ind
        == red.subrange(0, i)
}

proof fn lemma_compose_step(
    m: Seq<usize>,
    red: Seq<usize>,
    bound: nat,
    i: int,
    o: Seq<usize>,
    slot: Seq<Option<usize>>,
    ind: Seq<usize>,
)
    requires
        compose_state(m, red, bound, i, o, slot, ind),
        i < m.len(),
    ensures
        o.len() < usize::MAX,
        m[i] < red.len(),
        red[m[i] as int] < slot.len(),
        slot[red[m[i] as int] as int] is None ==> compose_state(
            m,
            red,
            bound,
            i + 1,
            o.push(red[m[i] as int]),
            slot.update(red[m[i] as int] as int, Some(o.len() as usize)),
            ind.push(o.len() as usize),
        ),
        slot[red[m[i] as int] as int] matches Some(p) ==> compose_state(
            m,
            red,
            bound,
            i + 1,
            o,
            slot,
            ind.push(p),
        ),
{
    reveal(compose_state);
    let v = red[m[i] as int];
    if slot[v as int] is None {
        lemma_compose_step_new(m, red, bound, i, o, slot, ind);
    } else {
        lemma_compose_step_old(m, red, bound, i, o, slot, ind);
    }
}

proof fn lemma_compose_step_new(
    m: Seq<usize>,
    red: Seq<usize>,
    bound: nat,
    i: int,
    o: Seq<usize>,
    slot: Seq<Option<usize>>,
    ind: Seq<usize>,
)
    requires
        compose_state(m, red, bound, i, o, slot, ind),
        i < m.len(),
        slot[red[m[i] as int] as int] is None,
    ensures
        compose_state(
            m,
            red,
            bound,
            i + 1,
            o.push(red[m[i] as int]),
            slot.update(red[m[i] as int] as int, Some(o.len() as usize)),
            ind.push(o.len() as usize),
        ),
{
    reveal(compose_state);
    let v = red[m[i] as int];
    let pos = o.len() as usize;
    let o2 = o.push(v);
    let slot2 = slot.update(v as int, Some(pos));
    let ind2 = ind.push(pos);
    assert forall|p: int| 0 <= p < o.len() implies o[p] != v by {
        assert(slot[o[p] as int] == Some(p as usize));
    }
    if pos > 0 {
        assert(occurs(ind, pos - 1));
    }
    lemma_first_seen_push(ind, pos);
    assert forall|w: int| 0 <= w < o2.len() implies #[trigger] occurs(ind2, w) by {
        if w < o.len() {
            assert(occurs(ind, w));
        }
        lemma_occurs_push(ind, pos, w);
    }
    assert forall|w: int| 0 <= w < slot2.len() implies (#[trigger] slot2[w] matches Some(p) ==> p
        < o2.len() && o2[p as int] == w) by {
        if w != v {
            assert(slot2[w] == slot[w]);
        }
    }
    assert forall|p: int| 0 <= p < o2.len() implies #[trigger] o2[p] < slot2.len() && slot2[o2[p]
        as int] == Some(p as usize) by {
        if p < o.len() {
            assert(o2[p] == o[p]);
            assert(o[p] != v);
        }
    }
    assert forall|t: int| 0 <= t < i + 1 implies #[trigger] ind2[t] < o2.len() && o2[ind2[t] as int]
        == red[m[t] as int] by {
        if t < i {
            assert(ind2[t] == ind[t]);
        }
    }
    lemma_compose_special_new(m, red, i, o, ind);
}

/// When `m` is the identity and `red` is first-seen, a value met for the
/// first time is the next one.
proof fn lemma_compose_special_new(m: Seq<usize>, red: Seq<usize>, i: int, o: Seq<usize>, ind: Seq<usize>)
    requires
        0 <= i < m.len() <= usize::MAX,
        m == identity_seq(red.len()) && first_seen(red) ==> o == identity_seq(o.len()) && ind
            == red.subrange(0, i),
        forall|t: int| 0 <= t < i ==> #[trigger] ind[t] < o.len(),
        forall|p: int| 0 <= p < o.len() ==> o[p] != red[m[i] as int],
        o.len() < usize::MAX,
    ensures
        m == identity_seq(red.len()) && first_seen(red) ==> o.push(red[m[i] as int]) == identity_seq(
            (o.len() + 1) as nat,
        ) && ind.push(o.len() as usize) == red.subrange(0, i + 1),
{
    let v = red[m[i] as int];
    if m == identity_seq(red.len()) && first_seen(red) {
        assert(m[i] == i);
        if v != 0 {
            assert(seen_before(red, i));
            let w = choose|w: int| 0 <= w < i && #[trigger] red[w] + 1 == red[i];
            assert(ind[w] == red.subrange(0, i)[w]);
            assert(ind[w] < o.len());
            if v < o.len() {
                assert(o[v as int] == identity_seq(o.len())[v as int]);
            }
        } else if o.len() > 0 {
            assert(o[0] == identity_seq(o.len())[0]);
        }
        assert(v == o.len());
        assert(o.push(v) =~= identity_seq((o.len() + 1) as nat));
        assert(ind.push(o.len() as usize) =~= red.subrange(0, i + 1));
    }
}

proof fn lemma_compose_step_old(
    m: Seq<usize>,
    red: Seq<usize>,
    bound: nat,
    i: int,
    o: Seq<usize>,
    slot: Seq<Option<usize>>,
    ind: Seq<usize>,
)
    requires
        compose_state(m, red, bound, i, o, slot, ind),
        i < m.len(),
        slot[red[m[i] as int] as int] is Some,
    ensures
        compose_state(m, red, bound, i + 1, o, slot, ind.push(slot[red[m[i] as int] as int]->0)),
{
    reveal(compose_state);
    let v = red[m[i] as int];
    let p = slot[v as int]->0;
    let ind2 = ind.push(p);
    if p > 0 {
        assert(occurs(ind, p - 1));
    }
    lemma_first_seen_push(ind, p);
    assert forall|w: int| 0 <= w < o.len() implies #[trigger] occurs(ind2, w) by {
        assert(occurs(ind, w));
        lemma_occurs_push(ind, p, w);
    }
    assert forall|t: int| 0 <= t < i + 1 implies #[trigger] ind2[t] < o.len() && o[ind2[t] as int]
        == red[m[t] as int] by {
        if t < i {
            assert(ind2[t] == ind[t]);
        }
    }
    if m == identity_seq(red.len()) && first_seen(red) {
        assert(m[i] == i);
        assert(o[p as int] == identity_seq(o.len())[p as int]);
        assert(ind2 =~= red.subrange(0, i + 1));
    }
}

/// The finished state of `compose_and_reduce`.
proof fn lemma_compose_done(
    m: Seq<usize>,
    red: Seq<usize>,
    bound: nat,
    o: Seq<usize>,
    slot: Seq<Option<usize>>,
    ind: Seq<usize>,
)
    requires
        compose_state(m, red, bound, m.len() as int, o, slot, ind),
    ensures
        ind.len() == m.len(),
        reduction_ok(ind, o.len()),
        forall|t: int| 0 <= t < ind.len() ==> #[trigger] o[ind[t] as int] == red[m[t] as int],
        all_below(o, bound),
        distinct(o),
        m == identity_seq(red.len()) && first_seen(red) ==> o == identity_seq(o.len()) && ind
            == red,
{
    reveal(compose_state);
    assert forall|p: int, q: int| 0 <= p < o.len() && 0 <= q < o.len() && p != q implies o[p] != o[q] by {
        assert(slot[o[p] as int] == Some(p as usize));
        assert(slot[o[q] as int] == Some(q as usize));
    }
    assert forall|t: int| 0 <= t < ind.len() implies #[trigger] o[ind[t] as int] == red[m[t]
        as int] by {
        assert(ind[t] < o.len());
    }
    if m == identity_seq(red.len()) && first_seen(red) {
        assert(red.subrange(0, m.len() as int) =~= red);
    }
}

/// New B-connection `nb` stands for old B-connection `b` with the parent's
/// exits merged by `red`: on every assignment of the child's variables,
/// `nb` lands on `red` of the exit that `b` lands on.
pub(crate) open spec fn merged_exits(
    recs: Seq<NodeRecord>,
    maps: Seq<Seq<usize>>,
    child_level: nat,
    red: Seq<usize>,
    b: Connection,
    nb: Connection,
) -> bool {
    forall|x: Seq<bool>| #[trigger]
        exit_at(recs, maps, child_level, nb.target.0, x) < maps[nb.return_map.0 as int].len()
            && maps[nb.return_map.0 as int][exit_at(recs, maps, child_level, nb.target.0, x) as int]
            == red[maps[b.return_map.0 as int][exit_at(
            recs,
            maps,
            child_level,
            b.target.0,
            x,
        ) as int] as int]
}

pub(crate) proof fn lemma_merged_exits_extends(
    recs1: Seq<NodeRecord>,
    maps1: Seq<Seq<usize>>,
    recs2: Seq<NodeRecord>,
    maps2: Seq<Seq<usize>>,
    child_level: nat,
    red: Seq<usize>,
    b: Connection,
    nb: Connection,
)
    requires
        store_wf(recs1, maps1),
        extends_seq(recs1, recs2),
        extends_seq(maps1, maps2),
        conn_ok(recs1, maps1, recs1.len() as int, child_level, b),
        conn_ok(recs1, maps1, recs1.len() as int, child_level, nb),
        merged_exits(recs1, maps1, child_level, red, b, nb),
    ensures
        merged_exits(recs2, maps2, child_level, red, b, nb),
{
    assert(maps2[b.return_map.0 as int] == maps1[b.return_map.0 as int]);
    assert(maps2[nb.return_map.0 as int] == maps1[nb.return_map.0 as int]);
    assert forall|x: Seq<bool>| #[trigger]
        exit_at(recs2, maps2, child_level, nb.target.0, x) < maps2[nb.return_map.0 as int].len()
            && maps2[nb.return_map.0 as int][exit_at(recs2, maps2, child_level, nb.target.0, x) as int]
            == red[maps2[b.return_map.0 as int][exit_at(
            recs2,
            maps2,
            child_level,
            b.target.0,
            x,
        ) as int] as int] by {
        lemma_exit_extends(recs1, maps1, recs2, maps2, child_level, nb.target.0, x);
        lemma_exit_extends(recs1, maps1, recs2, maps2, child_level, b.target.0, x);
        assert(exit_at(recs1, maps1, child_level, nb.target.0, x) < maps1[nb.return_map.0 as int].len());
    }
}

impl Manager {
    /// ComposeAndReduce: given `map` (a return-map body, one entry per
    /// child exit) and `red` (a reduction map indexed by those entries),
    /// produce:
    ///
    /// 1. `induced_red`: for each entry of `map`, the position in the
    ///    dedup'd output of `red[map[i]]`;
    /// 2. the interned id of the dedup'd composition
    ///    `[red[map[0]], red[map[1]], ...]`, duplicates removed in
    ///    first-seen order;
    /// 3. the number of distinct values in the output.
    #[verifier::spinoff_prover]
    pub(crate) fn compose_and_reduce(
        &mut self,
        map: &ReturnMapVec,
        red: &[usize],
        Ghost(bound): Ghost<nat>,
    ) -> (r: (Vec<usize>, ReturnMapId, usize))
        requires
            old(self).wf(),
            forall|i: int|
                0 <= i < rmv_view(*map).len() ==> #[trigger] rmv_view(*map)[i] < red@.len(),
            all_below(red@, bound),
            bound <= usize::MAX,
        ensures
            final(self).wf(),
            final(self).grows_from(*old(self)),
            final(self).recs() == old(self).recs(),
            r.1.0 < final(self).maps().len(),
            final(self).maps()[r.1.0 as int].len() == r.2,
            r.0@.len() == rmv_view(*map).len(),
            reduction_ok(r.0@, r.2 as nat),
            forall|i: int|
                0 <= i < r.0@.len() ==> #[trigger] final(self).maps()[r.1.0 as int][r.0@[i] as int]
                    == red@[rmv_view(*map)[i] as int],
            all_below(final(self).maps()[r.1.0 as int], bound),
            distinct(rmv_view(*map)) ==> distinct(final(self).maps()[r.1.0 as int]),
            red@ != identity_seq(red@.len()) ==> distinct(final(self).maps()[r.1.0 as int]),
            rmv_view(*map) == identity_seq(red@.len()) && first_seen(red@) ==> final(self).maps()[r.1.0 as int] == identity_seq(r.2 as nat) && r.0@ == red@,
            distinct(rmv_view(*map)) || red@ != identity_seq(red@.len()) ==> forall|b: Seq<usize>, q: Seq<usize>|
                #[trigger] dedupes(composed(rmv_view(*map), red@), b, q) ==> b == final(self).maps()[r.1.0 as int]
                    && q == r.0@,
    {
        let ghost m = rmv_view(*map);
        let n = map.len();
        // Fast path: red is identity => output = map (unchanged), induced
        // red = identity of len map.len().
        if is_identity(red) {
            let body = map.duplicate();
            let id = self.rm_intern(body);
            let mut induced_red: Vec<usize> = Vec::new();
            let mut i: usize = 0;
            while i < n
                invariant
                    i <= n,
                    induced_red@ == identity_seq(i as nat),
                decreases n - i,
            {
                induced_red.push(i);
                i = i + 1;
                assert(induced_red@ =~= identity_seq(i as nat));
            }
            proof {
                lemma_identity_reduction_ok(n as nat);
                let o = self.maps()[id.0 as int];
                assert forall|i: int| 0 <= i < o.len() implies #[trigger] o[i] < bound by {
                    assert(m[i] < red@.len());
                    assert(red@[m[i] as int] == m[i]);
                }
                assert forall|i: int| 0 <= i < induced_red@.len() implies #[trigger] self.maps()[
                    id.0 as int][induced_red@[i] as int] == red@[m[i] as int] by {
                    assert(red@[m[i] as int] == m[i]);
                }
                if m == identity_seq(red@.len()) && first_seen(red@) {
                    assert(o =~= identity_seq(n as nat));
                    assert(induced_red@ =~= red@);
                }
                assert(o =~= m);
                if distinct(m) {
                    lemma_compose_dedupes(m, red@, o, induced_red@);
                }
            }
            return (induced_red, id, n);
        }
        // A dense array keyed on red's value space.
        let mut red_max: usize = 0;
        let mut j: usize = 0;
        while j < red.len()
            invariant
                j <= red@.len(),
                all_below(red@, bound),
                bound <= usize::MAX,
                red_max < bound || red_max == 0,
                forall|t: int| 0 <= t < j ==> #[trigger] red@[t] <= red_max,
            decreases red@.len() - j,
        {
            if red[j] > red_max {
                red_max = red[j];
            }
            j = j + 1;
        }
        let mut slot: Vec<Option<usize>> = Vec::new();
        let mut j: usize = 0;
        while j <= red_max
            invariant
                j <= red_max + 1,
                red_max < usize::MAX,
                slot@.len() == j,
                forall|v: int| 0 <= v < j ==> #[trigger] slot@[v] is None,
            decreases red_max + 1 - j,
        {
            slot.push(None);
            j = j + 1;
        }
        let mut output = ReturnMapVec::new();
        let mut induced_red: Vec<usize> = Vec::new();
        let mut i: usize = 0;
        proof {
            reveal(compose_state);
            assert(forall|v: int| 0 <= v < slot@.len() ==> #[trigger] slot@[v] is None);
            assert(reduction_ok(induced_red@, 0));
            assert(rmv_view(output) =~= identity_seq(0));
            assert(induced_red@ =~= red@.subrange(0, 0));
        }
        while i < n
            invariant
                n == m.len(),
                m == rmv_view(*map),
                i <= n,
                forall|t: int| 0 <= t < m.len() ==> #[trigger] m[t] < red@.len(),
                all_below(red@, (red_max + 1) as nat),
                slot@.len() == red_max + 1,
                compose_state(m, red@, bound, i as int, rmv_view(output), slot@, induced_red@),
            decreases n - i,
        {
            let ghost o = rmv_view(output);
            let ghost ind = induced_red@;
            let ghost sl = slot@;
            let child_exit = map.get(i);
            let parent_new = red[child_exit];
            proof {
                lemma_compose_step(m, red@, bound, i as int, o, sl, ind);
            }
            match slot[parent_new] {
                None => {
                    let pos = output.len();
                    output.push(parent_new);
                    slot.set(parent_new, Some(pos));
                    induced_red.push(pos);
                },
                Some(p) => {
                    induced_red.push(p);
                },
            }
            i = i + 1;
        }
        proof {
            lemma_compose_done(m, red@, bound, rmv_view(output), slot@, induced_red@);
        }
        let output_len = output.len();
        let ghost ov = rmv_view(output);
        let id = self.rm_intern(output);
        proof {
            lemma_compose_dedupes(m, red@, ov, induced_red@);
        }
        (induced_red, id, output_len)
    }

    /// Merge the exits of `node` by the reduction map `red` (which must
    /// number `node`'s exits first-seen onto exactly `new_num_exits`
    /// values), returning the canonical result.
    #[verifier::spinoff_prover]
    pub(crate) fn reduce(&mut self, node: NodeId, red: &[usize], new_num_exits: usize) -> (r: NodeId)
        requires
            old(self).wf(),
            node.0 < old(self).recs().len(),
            red@.len() == num_exits_of(old(self).recs()[node.0 as int]),
            reduction_ok(red@, new_num_exits as nat),
        ensures
            final(self).wf(),
            final(self).grows_from(*old(self)),
            reduce_ok(final(self).recs(), final(self).maps(), node.0, red@, r.0),
            num_exits_of(final(self).recs()[r.0 as int]) == new_num_exits,
            canonical(old(self).recs(), old(self).maps(), level_of(old(self).recs()[node.0 as int]), node.0)
                ==> canonical(
                final(self).recs(),
                final(self).maps(),
                level_of(old(self).recs()[node.0 as int]),
                r.0,
            ),
            new_num_exits != 1 && red@ == identity_seq(red@.len()) ==> r == node && final(self).recs()
                == old(self).recs() && final(self).maps() == old(self).maps(),
            new_num_exits == 1 ==> final(self).maps() == old(self).maps() && single_canonical(
                final(self).recs(),
                final(self).maps(),
                level_of(old(self).recs()[node.0 as int]),
                r.0,
            ),
            new_num_exits == 1 ==> forall|j: usize| #[trigger]
                single_canonical(
                    old(self).recs(),
                    old(self).maps(),
                    level_of(old(self).recs()[node.0 as int]),
                    j,
                ) ==> r.0 == j && final(self).recs() == old(self).recs(),
        decreases level_of(old(self).recs()[node.0 as int]), 1nat,
    {
        let ghost s0 = *self;
        let ghost lv = level_of(s0.recs()[node.0 as int]);
        // Shortcut 1: collapsing to a single exit => NoDistinctionNode.
        if new_num_exits == 1 {
            let level = self.nodes.level(node);
            proof {
                assert(level_of(s0.recs()[node.0 as int]) <= self.level);
            }
            let nd = self.no_distinction(level);
            proof {
                assert(lv == level as nat);
                Self::lemma_node_keeps(*self, s0, lv, node.0);
                assert forall|a: Seq<bool>| #[trigger] exit_at(self.recs(), self.maps(), lv, nd.0, a)
                    == red@[exit_at(self.recs(), self.maps(), lv, node.0, a) as int] by {
                    lemma_single_exit(self.recs(), self.maps(), lv, nd.0, a);
                    lemma_exit_bound(self.recs(), self.maps(), lv, node.0, a);
                }
            }
            return nd;
        }
        // Shortcut 2: identity reduction map => no change.
        if is_identity(red) {
            proof {
                lemma_identity_reduction(red@, new_num_exits as nat);
                assert forall|a: Seq<bool>| #[trigger] exit_at(self.recs(), self.maps(), lv, node.0, a)
                    == red@[exit_at(self.recs(), self.maps(), lv, node.0, a) as int] by {
                    lemma_exit_bound(self.recs(), self.maps(), lv, node.0, a);
                }
                Self::lemma_grows_refl(*self);
            }
            return node;
        }
        // Memo: intern the reduction map and check the cache.
        let red_id = {
            let body = ReturnMapVec::from_slice(red);
            self.rm_intern(body)
        };
        if let Some(cached) = pair_table_get(&self.reduce_cache, (node.0, red_id.0)) {
            proof {
                let c = pair_table_contents(self.reduce_cache);
                assert(c.contains_key((node.0, red_id.0)));
                assert(self.recs()[node.0 as int] == s0.recs()[node.0 as int]);
                if canonical(s0.recs(), s0.maps(), lv, node.0) {
                    lemma_canonical_extends(s0.recs(), s0.maps(), self.recs(), self.maps(), lv, node.0);
                }
                lemma_reduction_count_unique(
                    red@,
                    num_exits_of(self.recs()[cached as int]),
                    new_num_exits as nat,
                );
            }
            return NodeId(cached);
        }
        let ghost s1 = *self;
        proof {
            assert(s1.recs()[node.0 as int] == s0.recs()[node.0 as int]);
            if canonical(s0.recs(), s0.maps(), lv, node.0) {
                lemma_canonical_extends(s0.recs(), s0.maps(), s1.recs(), s1.maps(), lv, node.0);
            }
        }
        let result = self.reduce_inner(node, red, new_num_exits);
        let ghost s2 = *self;
        pair_table_insert(&mut self.reduce_cache, (node.0, red_id.0), result.0);
        proof {
            Self::lemma_grows_trans(s0, s1, s2);
            let c = pair_table_contents(self.reduce_cache);
            assert(self.maps()[red_id.0 as int] == red@);
            assert(s2.recs()[node.0 as int] == s1.recs()[node.0 as int]);
            if canonical(s2.recs(), s2.maps(), lv, node.0) {
                lemma_canonical_shrinks(s1.recs(), s1.maps(), s2.recs(), s2.maps(), lv, node.0);
            }
            assert forall|k: (usize, usize)| #[trigger] c.contains_key(k) implies k.1
                < self.maps().len() && reduce_ok(
                self.recs(),
                self.maps(),
                k.0,
                self.maps()[k.1 as int],
                c[k],
            ) by {
                if k != (node.0, red_id.0) {
                    assert(pair_table_contents(s2.reduce_cache).contains_key(k));
                    assert(s2.reduce_cache_wf());
                }
            }
            assert(self.reduce_cache_wf());
        }
        result
    }

    /// The reduction proper, for a node that neither collapses to a single
    /// exit nor stays as it is.
    #[verifier::spinoff_prover]
    fn reduce_inner(&mut self, node: NodeId, red: &[usize], new_num_exits: usize) -> (r: NodeId)
        requires
            old(self).wf(),
            node.0 < old(self).recs().len(),
            red@.len() == num_exits_of(old(self).recs()[node.0 as int]),
            reduction_ok(red@, new_num_exits as nat),
            new_num_exits != 1,
            red@ != identity_seq(red@.len()),
        ensures
            final(self).wf(),
            final(self).grows_from(*old(self)),
            reduce_ok(final(self).recs(), final(self).maps(), node.0, red@, r.0),
            num_exits_of(final(self).recs()[r.0 as int]) == new_num_exits,
            canonical(old(self).recs(), old(self).maps(), level_of(old(self).recs()[node.0 as int]), node.0)
                ==> canonical(
                final(self).recs(),
                final(self).maps(),
                level_of(old(self).recs()[node.0 as int]),
                r.0,
            ),
        decreases level_of(old(self).recs()[node.0 as int]), 0nat,
    {
        let ghost s0 = *self;
        let ghost lv = level_of(s0.recs()[node.0 as int]);
        proof {
            lemma_first_seen_short(red@, new_num_exits as nat);
            if red@.len() >= 1 {
                lemma_reduction_nonempty(red@, new_num_exits as nat);
            }
        }
        let (level, a_conn, b_conns) = match self.nodes.record(node) {
            NodeRecord::DontCare => {
                // One exit: the reduction map would be the identity.
                return NodeId(DONT_CARE);
            },
            NodeRecord::Fork => {
                // Two exits: a first-seen map onto two or more values is the
                // identity, and onto one value collapses; neither reaches here.
                if red[0] == red[1] {
                    return NodeId(DONT_CARE);
                } else {
                    return NodeId(FORK);
                }
            },
            NodeRecord::Internal { level, a_conn, b_conns, .. } => (
                *level,
                *a_conn,
                b_conns.duplicate(),
            ),
        };
        let ghost bs = bconn_view(b_conns);
        let ghost canon: bool = canonical(s0.recs(), s0.maps(), lv, node.0);
        proof {
            assert(record_ok(s0.recs(), s0.maps(), node.0 as int, s0.recs()[node.0 as int]));
            assert(lv == level as nat);
            if canon {
                lemma_targets_canonical(s0.recs(), s0.maps(), (lv - 1) as nat, bs, bs.len());
                lemma_reduction_fresh(red@, new_num_exits as nat);
            }
            lemma_reduce_canon_start(s0.recs(), s0.maps(), s0.maps(), (lv - 1) as nat, bs, red@);
        }
        // Reduce each B-connection: compose its return map with `red`,
        // recurse with the induced reduction map, dedup by (target,
        // return_map) pair. Track where each B-connection lands to build
        // the A-connection's reduction map.
        let mut new_b_conns = BConnVec::new();
        let mut a_red = ReturnMapVec::new();
        let mut seen = pair_table_new();
        let n = b_conns.len();
        let mut k: usize = 0;
        proof {
            assert(reduction_ok(rmv_view(a_red), 0));
        }
        while k < n
            invariant
                self.wf(),
                self.grows_from(s0),
                s0.wf(),
                s0 == *old(self),
                s0.recs()[node.0 as int] is Internal,
                lv == level_of(s0.recs()[node.0 as int]),
                n == bs.len(),
                bs == bconn_view(b_conns),
                k <= n,
                lv == level as nat,
                level >= 1,
                red@.len() == num_exits_of(s0.recs()[node.0 as int]),
                reduction_ok(red@, new_num_exits as nat),
                new_num_exits <= usize::MAX,
                forall|j: int|
                    0 <= j < bs.len() ==> #[trigger] bconn_ok(
                        s0.recs(),
                        s0.maps(),
                        node.0 as int,
                        (lv - 1) as nat,
                        s0.recs()[node.0 as int]->num_exits,
                        bs[j],
                    ),
                rmv_view(a_red).len() == k,
                reduction_ok(rmv_view(a_red), bconn_view(new_b_conns).len()),
                canon == canonical(s0.recs(), s0.maps(), lv, node.0),
                bs == bconn_view(s0.recs()[node.0 as int]->b_conns),
                canon ==> fresh_ok(0, red@),
                canon ==> forall|j: int|
                    0 <= j < bs.len() ==> #[trigger] canonical(
                        s0.recs(),
                        s0.maps(),
                        (lv - 1) as nat,
                        bs[j].target.0,
                    ),
                canon ==> reduce_canon_inv(
                    self.recs(),
                    self.maps(),
                    s0.maps(),
                    (lv - 1) as nat,
                    bs,
                    red@,
                    k as int,
                    bconn_view(new_b_conns),
                ),
                forall|q: int|
                    0 <= q < bconn_view(new_b_conns).len() ==> pair_table_contents(seen).contains_key(
                        (
                            (#[trigger] bconn_view(new_b_conns)[q]).target.0,
                            bconn_view(new_b_conns)[q].return_map.0,
                        ),
                    ),
                forall|q1: int, q2: int|
                    0 <= q1 < bconn_view(new_b_conns).len() && 0 <= q2 < bconn_view(new_b_conns).len()
                        && q1 != q2 ==> #[trigger] bconn_view(new_b_conns)[q1] != #[trigger] bconn_view(
                        new_b_conns,
                    )[q2],
                forall|key: (usize, usize)| #[trigger]
                    pair_table_contents(seen).contains_key(key) ==> pair_table_contents(seen)[key]
                        < bconn_view(new_b_conns).len() && bconn_view(new_b_conns)[pair_table_contents(
                        seen,
                    )[key] as int] == (Connection {
                        target: NodeId(key.0),
                        return_map: ReturnMapId(key.1),
                    }),
                forall|q: int|
                    0 <= q < bconn_view(new_b_conns).len() ==> #[trigger] bconn_ok(
                        self.recs(),
                        self.maps(),
                        self.recs().len() as int,
                        (lv - 1) as nat,
                        new_num_exits,
                        bconn_view(new_b_conns)[q],
                    ),
                forall|j: int|
                    0 <= j < k ==> #[trigger] merged_exits(
                        self.recs(),
                        self.maps(),
                        (lv - 1) as nat,
                        red@,
                        bs[j],
                        bconn_view(new_b_conns)[rmv_view(a_red)[j] as int],
                    ),
            decreases n - k,
        {
            let ghost s_prev = *self;
            let ghost nb0 = bconn_view(new_b_conns);
            let ghost ar0 = rmv_view(a_red);
            let b = b_conns.get(k);
            proof {
                assert(bconn_ok(s0.recs(), s0.maps(), node.0 as int, (lv - 1) as nat, s0.recs()[node.0 as int]->num_exits, bs[k as int]));
                lemma_conn_ok_extends(s0.recs(), s0.maps(), self.recs(), self.maps(), node.0 as int, (lv - 1) as nat, b);
            }
            let child_map_body = self.rm_body(b.return_map).duplicate();
            proof {
                let cm = rmv_view(child_map_body);
                assert forall|i: int| 0 <= i < cm.len() implies #[trigger] cm[i] < red@.len() by {
                    assert(cm[i] == s0.maps()[b.return_map.0 as int][i]);
                }
                assert(cm =~= s0.maps()[b.return_map.0 as int]);
            }
            let (induced_red, induced_return_map_id, induced_num_exits) = self.compose_and_reduce(
                &child_map_body,
                red,
                Ghost(new_num_exits as nat),
            );
            let ghost s_mid = *self;
            proof {
                assert(level_of(self.recs()[b.target.0 as int]) == lv - 1);
                assert(self.recs()[b.target.0 as int] == s0.recs()[b.target.0 as int]);
                if canon {
                    assert(canonical(s0.recs(), s0.maps(), (lv - 1) as nat, bs[k as int].target.0));
                    lemma_canonical_extends(s0.recs(), s0.maps(), self.recs(), self.maps(), (lv - 1) as nat, b.target.0);
                }
            }
            let new_target = self.reduce(b.target, induced_red.as_slice(), induced_num_exits);
            let ghost s_after = *self;
            let nc = Connection { target: new_target, return_map: induced_return_map_id };
            proof {
                Self::lemma_grows_trans(s_prev, s_mid, s_after);
                // the new connection is well formed and merges b's exits by red
                let recs = self.recs();
                let maps = self.maps();
                assert(maps[induced_return_map_id.0 as int] == s_mid.maps()[induced_return_map_id.0 as int]);
                assert(bconn_ok(recs, maps, recs.len() as int, (lv - 1) as nat, new_num_exits, nc));
                lemma_conn_ok_extends(s_prev.recs(), s_prev.maps(), recs, maps, node.0 as int, (lv - 1) as nat, b);
                assert forall|x: Seq<bool>| #[trigger]
                    exit_at(recs, maps, (lv - 1) as nat, nc.target.0, x) < maps[nc.return_map.0 as int].len()
                        && maps[nc.return_map.0 as int][exit_at(recs, maps, (lv - 1) as nat, nc.target.0, x) as int]
                        == red@[maps[b.return_map.0 as int][exit_at(recs, maps, (lv - 1) as nat, b.target.0, x) as int] as int] by {
                    assert(exit_at(recs, maps, (lv - 1) as nat, new_target.0, x) == induced_red@[exit_at(
                        recs,
                        maps,
                        (lv - 1) as nat,
                        b.target.0,
                        x,
                    ) as int]);
                    lemma_exit_bound(recs, maps, (lv - 1) as nat, b.target.0, x);
                    lemma_exit_extends(s_prev.recs(), s_prev.maps(), recs, maps, (lv - 1) as nat, b.target.0, x);
                }
                assert(merged_exits(recs, maps, (lv - 1) as nat, red@, b, nc));
                // earlier facts carry over to the grown store
                assert forall|q: int| 0 <= q < nb0.len() implies #[trigger] bconn_ok(
                    recs,
                    maps,
                    recs.len() as int,
                    (lv - 1) as nat,
                    new_num_exits,
                    nb0[q],
                ) by {
                    assert(bconn_ok(s_prev.recs(), s_prev.maps(), s_prev.recs().len() as int, (lv - 1) as nat, new_num_exits, nb0[q]));
                    lemma_conn_ok_extends(s_prev.recs(), s_prev.maps(), recs, maps, s_prev.recs().len() as int, (lv - 1) as nat, nb0[q]);
                    assert(conn_ok(recs, maps, recs.len() as int, (lv - 1) as nat, nb0[q]));
                }
                assert forall|j: int| 0 <= j < k implies #[trigger] merged_exits(
                    recs,
                    maps,
                    (lv - 1) as nat,
                    red@,
                    bs[j],
                    nb0[ar0[j] as int],
                ) by {
                    assert(ar0[j] < nb0.len());
                    assert(bconn_ok(s0.recs(), s0.maps(), node.0 as int, (lv - 1) as nat, s0.recs()[node.0 as int]->num_exits, bs[j]));
                    lemma_conn_ok_extends(s0.recs(), s0.maps(), s_prev.recs(), s_prev.maps(), s_prev.recs().len() as int, (lv - 1) as nat, bs[j]);
                    assert(bconn_ok(s_prev.recs(), s_prev.maps(), s_prev.recs().len() as int, (lv - 1) as nat, new_num_exits, nb0[ar0[j] as int]));
                    lemma_merged_exits_extends(s_prev.recs(), s_prev.maps(), recs, maps, (lv - 1) as nat, red@, bs[j], nb0[ar0[j] as int]);
                }
            }
            let key = (new_target.0, induced_return_map_id.0);
            let ghost s_seen = seen;
            let position = match pair_table_get(&seen, key) {
                Some(pos) => pos,
                None => {
                    let pos = new_b_conns.len();
                    new_b_conns.push(nc);
                    pair_table_insert(&mut seen, key, pos);
                    pos
                },
            };
            a_red.push(position);
            proof {
                let nb = bconn_view(new_b_conns);
                let ar = rmv_view(a_red);
                assert(nb[position as int] == nc);
                let fresh = position == nb0.len();
                if fresh {
                    assert(nb =~= nb0.push(nc));
                    assert forall|q: int| 0 <= q < nb0.len() implies nb0[q] != nc by {
                        assert(pair_table_contents(s_seen).contains_key((nb0[q].target.0, nb0[q].return_map.0)));
                    }
                } else {
                    assert(nb == nb0);
                }
                assert forall|q1: int, q2: int|
                    0 <= q1 < nb.len() && 0 <= q2 < nb.len() && q1 != q2 implies #[trigger] nb[q1] != #[trigger] nb[q2] by {
                    if fresh {
                        if q1 < nb0.len() && q2 < nb0.len() {
                            assert(nb[q1] == nb0[q1] && nb[q2] == nb0[q2]);
                        } else if q1 < nb0.len() {
                            assert(nb[q1] == nb0[q1]);
                        } else {
                            assert(nb[q2] == nb0[q2]);
                        }
                    }
                }
                assert forall|q: int| 0 <= q < nb.len() implies pair_table_contents(seen).contains_key(
                    ((#[trigger] nb[q]).target.0, nb[q].return_map.0),
                ) by {
                    if q < nb0.len() {
                        assert(nb[q] == nb0[q]);
                        assert(pair_table_contents(s_seen).contains_key((nb0[q].target.0, nb0[q].return_map.0)));
                    }
                }
                if canon {
                    assert forall|q: int| 0 <= q < nb0.len() implies (#[trigger] nb0[q]).return_map.0
                        < s_prev.maps().len() && nb0[q].target.0 < s_prev.recs().len() by {
                        assert(bconn_ok(s_prev.recs(), s_prev.maps(), s_prev.recs().len() as int, (lv - 1) as nat, new_num_exits, nb0[q]));
                    }
                    assert(canonical(s_mid.recs(), s_mid.maps(), (lv - 1) as nat, b.target.0));
                    assert(self.maps()[nc.return_map.0 as int] == s_mid.maps()[nc.return_map.0 as int]);
                    lemma_reduce_canon_step(
                        s0.recs(),
                        s0.maps(),
                        s_prev.recs(),
                        s_prev.maps(),
                        self.recs(),
                        self.maps(),
                        lv,
                        node.0,
                        red@,
                        k as int,
                        nb0,
                        nc,
                        induced_red@,
                        fresh,
                        position as int,
                    );
                }
                if position > 0 && position < nb0.len() {
                    assert(occurs(ar0, position - 1));
                } else if position > 0 {
                    assert(occurs(ar0, position - 1));
                }
                lemma_first_seen_push(ar0, position);
                assert forall|v: int| 0 <= v < nb.len() implies #[trigger] occurs(ar, v) by {
                    if v < nb0.len() {
                        assert(occurs(ar0, v));
                    }
                    lemma_occurs_push(ar0, position, v);
                }
                assert forall|q: int| 0 <= q < nb.len() implies #[trigger] bconn_ok(
                    self.recs(),
                    self.maps(),
                    self.recs().len() as int,
                    (lv - 1) as nat,
                    new_num_exits,
                    nb[q],
                ) by {
                    if q < nb0.len() {
                        assert(nb[q] == nb0[q]);
                    }
                }
                assert forall|j: int| 0 <= j < k + 1 implies #[trigger] merged_exits(
                    self.recs(),
                    self.maps(),
                    (lv - 1) as nat,
                    red@,
                    bs[j],
                    nb[ar[j] as int],
                ) by {
                    if j < k {
                        assert(ar[j] == ar0[j]);
                        assert(nb[ar0[j] as int] == nb0[ar0[j] as int]);
                    }
                }
            }
            k = k + 1;
        }
        // a_red has one entry per given B-connection; it is the
        // reduction map for the A-connection's exit space.
        let new_a_num_exits = new_b_conns.len();
        let ghost s3 = *self;
        proof {
            let nb = bconn_view(new_b_conns);
            assert forall|q: int| 0 <= q < nb.len() implies #[trigger] conn_ok(
                s3.recs(),
                s3.maps(),
                s3.recs().len() as int,
                (lv - 1) as nat,
                nb[q],
            ) by {
                assert(bconn_ok(s3.recs(), s3.maps(), s3.recs().len() as int, (lv - 1) as nat, new_num_exits, nb[q]));
            }
            lemma_conn_ok_extends(s0.recs(), s0.maps(), self.recs(), self.maps(), node.0 as int, (lv - 1) as nat, a_conn);
            assert(self.maps()[a_conn.return_map.0 as int] == identity_seq(bs.len()));
            if canon {
                lemma_reduce_canon_done(s0.recs(), s0.maps(), s3.recs(), s3.maps(), lv, node.0, red@, new_num_exits as nat, nb);
            }
        }
        let a_child_map_body = self.rm_body(a_conn.return_map).duplicate();
        let (induced_a_red, new_a_return_map_id, new_a_num_exits_after_compose) =
            self.compose_and_reduce(&a_child_map_body, a_red.as_slice(), Ghost(new_a_num_exits as nat));
        proof {
            lemma_reduction_count_unique(rmv_view(a_red), new_a_num_exits as nat, new_a_num_exits_after_compose as nat);
        }
        let ghost s4 = *self;
        proof {
            assert(s4.recs()[a_conn.target.0 as int] == s0.recs()[a_conn.target.0 as int]);
            if canon {
                assert(canonical(s0.recs(), s0.maps(), (lv - 1) as nat, a_conn.target.0));
                lemma_canonical_extends(s0.recs(), s0.maps(), s4.recs(), s4.maps(), (lv - 1) as nat, a_conn.target.0);
            }
        }
        let new_a_target = self.reduce(a_conn.target, induced_a_red.as_slice(), new_a_num_exits_after_compose);
        let new_a = Connection { target: new_a_target, return_map: new_a_return_map_id };
        let ghost s5 = *self;
        proof {
            Self::lemma_grows_trans(s3, s4, s5);
            let recs = self.recs();
            let maps = self.maps();
            let nb = bconn_view(new_b_conns);
            assert(maps[new_a_return_map_id.0 as int] == s4.maps()[new_a_return_map_id.0 as int]);
            assert(conn_ok(recs, maps, recs.len() as int, (lv - 1) as nat, new_a));
            assert forall|q: int| 0 <= q < nb.len() implies #[trigger] bconn_ok(
                recs,
                maps,
                recs.len() as int,
                (lv - 1) as nat,
                new_num_exits,
                nb[q],
            ) by {
                assert(bconn_ok(s3.recs(), s3.maps(), s3.recs().len() as int, (lv - 1) as nat, new_num_exits, nb[q]));
                lemma_conn_ok_extends(s3.recs(), s3.maps(), recs, maps, s3.recs().len() as int, (lv - 1) as nat, nb[q]);
            }
            if n >= 1 {
                lemma_reduction_nonempty(rmv_view(a_red), new_a_num_exits as nat);
            }
            assert(record_ok(
                recs,
                maps,
                recs.len() as int,
                NodeRecord::Internal { level, num_exits: new_num_exits, a_conn: new_a, b_conns: new_b_conns },
            ));
            assert(level <= self.level) by {
                assert(level_of(s0.recs()[node.0 as int]) <= s0.level);
            }
        }
        let ghost nb_final = bconn_view(new_b_conns);
        let result = self.node_intern(level, new_num_exits, new_a, new_b_conns);
        proof {
            let recs = self.recs();
            let maps = self.maps();
            Self::lemma_grows_trans(s0, s3, s5);
            Self::lemma_node_keeps(*self, s0, lv, node.0);
            assert forall|a: Seq<bool>| #[trigger] exit_at(recs, maps, lv, result.0, a)
                == red@[exit_at(recs, maps, lv, node.0, a) as int] by {
                self.lemma_reduce_inner_exit(s0, s3, s5, node, red@, a_conn, bs, new_a, nb_final, rmv_view(a_red), result, a);
            }
            assert(reduction_ok(red@, num_exits_of(recs[result.0 as int])));
            if canon {
                lemma_canonical_extends(s5.recs(), s5.maps(), recs, maps, (lv - 1) as nat, new_a_target.0);
                assert forall|q: int| 0 <= q < nb_final.len() implies (#[trigger] nb_final[q]).return_map.0
                    < s3.maps().len() by {
                    assert(bconn_ok(s3.recs(), s3.maps(), s3.recs().len() as int, (lv - 1) as nat, new_num_exits, nb_final[q]));
                }
                lemma_reduce_canon_result(s3.recs(), s3.maps(), recs, maps, (lv - 1) as nat, nb_final, result.0, new_num_exits as nat);
            }
        }
        result
    }

    /// The exit of the node built by `reduce_inner` is `red` of the
    /// given node's exit.
    proof fn lemma_reduce_inner_exit(
        &self,
        s0: Manager,
        s3: Manager,
        s5: Manager,
        node: NodeId,
        red: Seq<usize>,
        a_conn: Connection,
        bs: Seq<Connection>,
        new_a: Connection,
        nb: Seq<Connection>,
        ar: Seq<usize>,
        result: NodeId,
        a: Seq<bool>,
    )
        requires
            s0.wf(),
            s3.wf(),
            s5.wf(),
            s3.grows_from(s0),
            s5.grows_from(s3),
            self.grows_from(s5),
            node.0 < s0.recs().len(),
            s0.recs()[node.0 as int] is Internal,
            s0.recs()[node.0 as int]->a_conn == a_conn,
            bconn_view(s0.recs()[node.0 as int]->b_conns) == bs,
            level_of(s0.recs()[node.0 as int]) >= 1,
            record_ok(s0.recs(), s0.maps(), node.0 as int, s0.recs()[node.0 as int]),
            ar.len() == bs.len(),
            all_below(ar, nb.len()),
            forall|j: int|
                0 <= j < bs.len() ==> #[trigger] merged_exits(
                    s3.recs(),
                    s3.maps(),
                    (level_of(s0.recs()[node.0 as int]) - 1) as nat,
                    red,
                    bs[j],
                    nb[ar[j] as int],
                ),
            forall|q: int|
                0 <= q < nb.len() ==> #[trigger] conn_ok(
                    s3.recs(),
                    s3.maps(),
                    s3.recs().len() as int,
                    (level_of(s0.recs()[node.0 as int]) - 1) as nat,
                    nb[q],
                ),
            reduce_ok(s5.recs(), s5.maps(), a_conn.target.0, ar, new_a.target.0),
            new_a.return_map.0 < s5.maps().len(),
            s5.maps()[new_a.return_map.0 as int] == identity_seq(nb.len()),
            result.0 < self.recs().len(),
            self.recs()[result.0 as int] is Internal,
            self.recs()[result.0 as int]->a_conn == new_a,
            bconn_view(self.recs()[result.0 as int]->b_conns) == nb,
        ensures
            exit_at(self.recs(), self.maps(), level_of(s0.recs()[node.0 as int]), result.0, a)
                == red[exit_at(
                self.recs(),
                self.maps(),
                level_of(s0.recs()[node.0 as int]),
                node.0,
                a,
            ) as int],
    {
        let lv = level_of(s0.recs()[node.0 as int]);
        let cl = (lv - 1) as nat;
        let recs = self.recs();
        let maps = self.maps();
        let h = vars_at(cl) as int;
        let left = a.subrange(0, h);
        let right = a.subrange(h, a.len() as int);
        Self::lemma_grows_trans(s0, s3, s5);
        // the given node
        lemma_exit_internal(s0.recs(), s0.maps(), lv, node.0, a);
        lemma_exit_extends(s0.recs(), s0.maps(), recs, maps, lv, node.0, a);
        let e = exit_at(s0.recs(), s0.maps(), cl, a_conn.target.0, left);
        lemma_exit_bound(s0.recs(), s0.maps(), cl, a_conn.target.0, left);
        assert(s0.maps()[a_conn.return_map.0 as int] == identity_seq(bs.len()));
        assert(s0.maps()[a_conn.return_map.0 as int][e as int] == e);
        let b = bs[e as int];
        assert(bconn_ok(s0.recs(), s0.maps(), node.0 as int, cl, s0.recs()[node.0 as int]->num_exits, b));
        lemma_exit_extends(s0.recs(), s0.maps(), s3.recs(), s3.maps(), cl, b.target.0, right);
        assert(s3.maps()[b.return_map.0 as int] == s0.maps()[b.return_map.0 as int]);
        // the new node
        lemma_exit_internal(recs, maps, lv, result.0, a);
        lemma_exit_extends(s5.recs(), s5.maps(), recs, maps, cl, new_a.target.0, left);
        lemma_exit_extends(s0.recs(), s0.maps(), s5.recs(), s5.maps(), cl, a_conn.target.0, left);
        let i = exit_at(recs, maps, cl, new_a.target.0, left);
        assert(i == ar[e as int]);
        assert(maps[new_a.return_map.0 as int] == identity_seq(nb.len()));
        assert(maps[new_a.return_map.0 as int][i as int] == i);
        let nbe = nb[ar[e as int] as int];
        assert(merged_exits(s3.recs(), s3.maps(), cl, red, bs[e as int], nbe));
        assert(conn_ok(s3.recs(), s3.maps(), s3.recs().len() as int, cl, nbe));
        lemma_exit_extends(s3.recs(), s3.maps(), recs, maps, cl, nbe.target.0, right);
        assert(maps[nbe.return_map.0 as int] == s3.maps()[nbe.return_map.0 as int]);
        assert(exit_at(s3.recs(), s3.maps(), cl, nbe.target.0, right) < s3.maps()[nbe.return_map.0 as int].len());
    }
}


/// `red` read along the return maps of the first `k` connections of `bs`,
/// one after another.
pub(crate) open spec fn red_prefix(
    maps: Seq<Seq<usize>>,
    bs: Seq<Connection>,
    red: Seq<usize>,
    k: int,
) -> Seq<usize> {
    compose_seq(concat_maps(maps, bs.take(k)), red)
}

/// The B-connections `nb` built so far from the first `k` of `bs` lead
/// to canonical nodes through injective return maps, and those return maps,
/// one after another, number first-seen as many values as `red` read along
/// the first `k` return maps of `bs`.
pub(crate) open spec fn reduce_canon_inv(
    recs: Seq<NodeRecord>,
    maps: Seq<Seq<usize>>,
    maps0: Seq<Seq<usize>>,
    cl: nat,
    bs: Seq<Connection>,
    red: Seq<usize>,
    k: int,
    nb: Seq<Connection>,
) -> bool {
    let e = concat_maps(maps, nb);
    let d = red_prefix(maps0, bs, red, k);
    &&& forall|q: int| 0 <= q < nb.len() ==> #[trigger] canonical(recs, maps, cl, nb[q].target.0)
    &&& forall|q: int| 0 <= q < nb.len() ==> #[trigger] distinct(maps[nb[q].return_map.0 as int])
    &&& fresh_ok(0, e)
    &&& count_from(0, e, e.len()) == count_from(0, d, d.len())
}

/// Nothing is built before the first connection.
proof fn lemma_reduce_canon_start(
    recs: Seq<NodeRecord>,
    maps: Seq<Seq<usize>>,
    maps0: Seq<Seq<usize>>,
    cl: nat,
    bs: Seq<Connection>,
    red: Seq<usize>,
)
    ensures
        reduce_canon_inv(recs, maps, maps0, cl, bs, red, 0, Seq::empty()),
{
    assert(bs.take(0) =~= Seq::<Connection>::empty());
    assert(concat_maps(maps0, bs.take(0)) =~= Seq::<usize>::empty());
    assert(red_prefix(maps0, bs, red, 0) =~= Seq::<usize>::empty());
    assert(concat_maps(maps, Seq::<Connection>::empty()) =~= Seq::<usize>::empty());
}

/// One more connection of a canonical node, reduced: either a new
/// B-connection or one already built.
#[verifier::spinoff_prover]
proof fn lemma_reduce_canon_step(
    recs0: Seq<NodeRecord>,
    maps0: Seq<Seq<usize>>,
    recs1: Seq<NodeRecord>,
    maps1: Seq<Seq<usize>>,
    recs2: Seq<NodeRecord>,
    maps2: Seq<Seq<usize>>,
    lv: nat,
    node: usize,
    red: Seq<usize>,
    k: int,
    nb0: Seq<Connection>,
    nc: Connection,
    ind: Seq<usize>,
    fresh: bool,
    p: int,
)
    requires
        store_wf(recs0, maps0),
        store_wf(recs1, maps1),
        extends_seq(recs0, recs1),
        extends_seq(maps0, maps1),
        extends_seq(recs1, recs2),
        extends_seq(maps1, maps2),
        lv >= 1,
        canonical(recs0, maps0, lv, node),
        red.len() == num_exits_of(recs0[node as int]),
        fresh_ok(0, red),
        0 <= k < bconn_view(recs0[node as int]->b_conns).len(),
        reduce_canon_inv(
            recs1,
            maps1,
            maps0,
            (lv - 1) as nat,
            bconn_view(recs0[node as int]->b_conns),
            red,
            k,
            nb0,
        ),
        forall|q: int|
            0 <= q < nb0.len() ==> (#[trigger] nb0[q]).return_map.0 < maps1.len() && nb0[q].target.0
                < recs1.len(),
        nc.return_map.0 < maps2.len(),
        canonical(recs2, maps2, (lv - 1) as nat, nc.target.0),
        ind.len() == maps0[bconn_view(recs0[node as int]->b_conns)[k].return_map.0 as int].len(),
        reduction_ok(ind, maps2[nc.return_map.0 as int].len()),
        forall|i: int|
            0 <= i < ind.len() ==> #[trigger] maps2[nc.return_map.0 as int][ind[i] as int] == red[maps0[bconn_view(
                recs0[node as int]->b_conns,
            )[k].return_map.0 as int][i] as int],
        distinct(maps0[bconn_view(recs0[node as int]->b_conns)[k].return_map.0 as int]) ==> distinct(
            maps2[nc.return_map.0 as int],
        ),
        !fresh ==> 0 <= p < nb0.len() && nb0[p] == nc,
    ensures
        reduce_canon_inv(
            recs2,
            maps2,
            maps0,
            (lv - 1) as nat,
            bconn_view(recs0[node as int]->b_conns),
            red,
            k + 1,
            if fresh {
                nb0.push(nc)
            } else {
                nb0
            },
        ),
{
    let cl = (lv - 1) as nat;
    let rec = recs0[node as int];
    assert(node >= 2);
    assert(record_ok(recs0, maps0, node as int, rec));
    let bs = bconn_view(rec->b_conns);
    let nn = num_exits_of(rec);
    let mk = maps0[bs[k].return_map.0 as int];
    let o = maps2[nc.return_map.0 as int];
    // The composed prefix grows by `red` read along `mk`.
    let ck = concat_maps(maps0, bs.take(k));
    let c1 = concat_maps(maps0, bs.take(k + 1));
    let cc = concat_maps(maps0, bs);
    assert(bs.take(k + 1).drop_last() =~= bs.take(k));
    assert(bs.take(k + 1).last() == bs[k]);
    assert(c1 == ck + mk);
    lemma_concat_take(maps0, bs, k + 1);
    lemma_reduction_fresh(cc, nn);
    lemma_fresh_append(0, c1, concat_maps(maps0, bs.skip(k + 1)));
    assert forall|i: int| 0 <= i < c1.len() implies #[trigger] c1[i] < red.len() by {
        assert(cc[i] == c1[i]);
    }
    lemma_compose_fresh(c1, red);
    let dk = compose_seq(ck, red);
    let blk = compose_seq(mk, red);
    lemma_compose_append(ck, mk, red);
    let d1 = compose_seq(c1, red);
    assert(d1 == dk + blk);
    lemma_fresh_append(0, dk, blk);
    let cnt = count_from(0, dk, dk.len());
    assert(fresh_ok(cnt, blk));
    assert(count_from(0, d1, dk.len() + blk.len()) == count_from(cnt, blk, blk.len()));
    // What was built so far reads the same in the grown store.
    let e0 = concat_maps(maps1, nb0);
    lemma_concat_extends(maps1, maps2, nb0);
    assert(concat_maps(maps2, nb0) == e0);
    assert forall|i: int| 0 <= i < ind.len() implies #[trigger] o[ind[i] as int] == blk[i] by {}
    assert forall|q: int| 0 <= q < nb0.len() implies #[trigger] canonical(recs2, maps2, cl, nb0[q].target.0)
        && distinct(maps2[nb0[q].return_map.0 as int]) by {
        assert(canonical(recs1, maps1, cl, nb0[q].target.0));
        lemma_canonical_extends(recs1, maps1, recs2, maps2, cl, nb0[q].target.0);
        assert(maps2[nb0[q].return_map.0 as int] == maps1[nb0[q].return_map.0 as int]);
    }
    lemma_targets_canonical(recs0, maps0, cl, bs, bs.len());
    assert(distinct(mk));
    if fresh {
        let nb = nb0.push(nc);
        lemma_concat_push(maps2, nb0, nc);
        lemma_dedup_fresh(cnt, blk, o, ind);
        lemma_fresh_append(0, e0, o);
        assert forall|q: int| 0 <= q < nb.len() implies #[trigger] canonical(recs2, maps2, cl, nb[q].target.0)
            && distinct(maps2[nb[q].return_map.0 as int]) by {
            if q < nb0.len() {
                assert(nb[q] == nb0[q]);
            }
        }
    } else {
        // Every entry of `o` is already counted.
        lemma_concat_entries(maps2, nb0);
        lemma_fresh_values(0, e0, e0.len());
        assert forall|i: int| 0 <= i < blk.len() implies #[trigger] blk[i] < cnt by {
            assert(o[ind[i] as int] == blk[i]);
            assert(maps2[nb0[p].return_map.0 as int][ind[i] as int] == blk[i]);
            assert(crate::semantics::occurs(e0, blk[i] as int));
        }
        lemma_fresh_no_new(cnt, blk, blk.len());
    }
}

/// After all connections of a canonical node, the built B-connections'
/// return maps number the reduced exits first-seen.
proof fn lemma_reduce_canon_done(
    recs0: Seq<NodeRecord>,
    maps0: Seq<Seq<usize>>,
    recs: Seq<NodeRecord>,
    maps: Seq<Seq<usize>>,
    lv: nat,
    node: usize,
    red: Seq<usize>,
    m: nat,
    nb: Seq<Connection>,
)
    requires
        store_wf(recs0, maps0),
        lv >= 1,
        canonical(recs0, maps0, lv, node),
        red.len() == num_exits_of(recs0[node as int]),
        reduction_ok(red, m),
        reduce_canon_inv(
            recs,
            maps,
            maps0,
            (lv - 1) as nat,
            bconn_view(recs0[node as int]->b_conns),
            red,
            bconn_view(recs0[node as int]->b_conns).len() as int,
            nb,
        ),
    ensures
        reduction_ok(concat_maps(maps, nb), m),
{
    let rec = recs0[node as int];
    let bs = bconn_view(rec->b_conns);
    let nn = num_exits_of(rec);
    let cc = concat_maps(maps0, bs);
    assert(bs.take(bs.len() as int) =~= bs);
    lemma_reduction_fresh(cc, nn);
    lemma_reduction_fresh(red, m);
    lemma_compose_fresh(cc, red);
    lemma_reduction_fresh(concat_maps(maps, nb), m);
}

/// A node built from a canonical A-target and B-connections in canonical
/// form is canonical.
pub(crate) proof fn lemma_reduce_canon_result(
    recs3: Seq<NodeRecord>,
    maps3: Seq<Seq<usize>>,
    recs: Seq<NodeRecord>,
    maps: Seq<Seq<usize>>,
    cl: nat,
    nb: Seq<Connection>,
    result: usize,
    m: nat,
)
    requires
        store_wf(recs3, maps3),
        extends_seq(recs3, recs),
        extends_seq(maps3, maps),
        result < recs.len(),
        recs[result as int] is Internal,
        level_of(recs[result as int]) == cl + 1,
        num_exits_of(recs[result as int]) == m,
        bconn_view(recs[result as int]->b_conns) == nb,
        canonical(recs, maps, cl, recs[result as int]->a_conn.target.0),
        forall|q: int| 0 <= q < nb.len() ==> #[trigger] canonical(recs3, maps3, cl, nb[q].target.0),
        forall|q: int| 0 <= q < nb.len() ==> #[trigger] distinct(maps3[nb[q].return_map.0 as int]),
        forall|q: int| 0 <= q < nb.len() ==> (#[trigger] nb[q]).return_map.0 < maps3.len(),
        forall|q1: int, q2: int|
            0 <= q1 < nb.len() && 0 <= q2 < nb.len() && q1 != q2 ==> #[trigger] nb[q1] != #[trigger] nb[q2],
        reduction_ok(concat_maps(maps3, nb), m),
    ensures
        canonical(recs, maps, cl + 1, result),
{
    assert forall|q: int| 0 <= q < nb.len() implies #[trigger] canonical(recs, maps, cl, nb[q].target.0)
        && distinct(maps[nb[q].return_map.0 as int]) by {
        lemma_canonical_extends(recs3, maps3, recs, maps, cl, nb[q].target.0);
        assert(maps[nb[q].return_map.0 as int] == maps3[nb[q].return_map.0 as int]);
    }
    lemma_concat_extends(maps3, maps, nb);
    lemma_canonical_intro(recs, maps, result);
}

} // verus!
