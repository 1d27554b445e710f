//! Restrict + Compose.
//!
//! `restrict(f, x_i, v)` produces the CFLOBDD of `f | x_i = v`.
//!
//! The recursive helper returns the restricted node, at the same level, and
//! fills a *map handle*: entry `i` is the given node's exit that the new
//! exit `i` stands for. At the top level the map handle is composed with
//! the value map; duplicates in the composition are merged by Reduce so
//! that the result stays canonical.
//!
//! Compose is derived from Restrict and Apply:
//! `compose(f, x_i, g) = (g AND f|x_i=1) OR (NOT g AND f|x_i=0)`.

use crate::canonical::{
    canonical, concat_maps, count_from, fresh_ok, keys_unique, lemma_canonical_extends,
    lemma_concat_entries, lemma_concat_extends, lemma_concat_push, lemma_fresh_append,
    lemma_fresh_no_new, lemma_fresh_push, lemma_fresh_values, lemma_reduction_fresh,
    lemma_targets_canonical, maps_unique,
};
use crate::manager::{Bdd, Manager};
use crate::reduce::lemma_reduce_canon_result;
use crate::node::{bconn_view, BConnVec, Connection, NodeId, NodeRecord, DONT_CARE};
use crate::reduce::{pair_table_contents, pair_table_get, pair_table_insert, pair_table_new, reduce_ok};
use crate::return_map::{rmv_view, ReturnMapId, ReturnMapVec};
use crate::semantics::{
    all_below, bconn_ok, conn_ok, distinct, exit_at, extends_seq, first_seen, half_width, identity_seq,
    lemma_conn_ok_extends, lemma_exit_bound, lemma_exit_extends, lemma_exit_internal, lemma_exits_pos,
    lemma_first_seen_push, lemma_occurs_push, lemma_reduction_count_unique,
    lemma_reduction_nonempty, lemma_single_exit, level_of, node_ok, num_exits_of, occurs,
    record_key, record_ok, reduction_ok, same_record, seen_before, store_wf, vars_at,
};
use vstd::prelude::*;

verus! {

/// On an assignment `a` of the node's variables, `r`'s exit stands for the
/// exit that `node` picks once `x_var` is set to `value`.
pub(crate) open spec fn restricted_at(
    recs: Seq<NodeRecord>,
    maps: Seq<Seq<usize>>,
    lv: nat,
    node: usize,
    var: int,
    value: bool,
    r: usize,
    mh: Seq<usize>,
    a: Seq<bool>,
) -> bool {
    mh[exit_at(recs, maps, lv, r, a) as int] == exit_at(recs, maps, lv, node, a.update(var, value))
}

/// `(r, mh)` is `node` with `x_var` fixed to `value`: same level, one map
/// entry per exit of `r`, each entry an exit of `node`.
pub(crate) open spec fn restrict_ok(
    recs: Seq<NodeRecord>,
    maps: Seq<Seq<usize>>,
    node: usize,
    var: int,
    value: bool,
    r: usize,
    mh: Seq<usize>,
) -> bool {
    let lv = level_of(recs[node as int]);
    &&& node < recs.len()
    &&& node_ok(recs, r, lv)
    &&& mh.len() == num_exits_of(recs[r as int])
    &&& all_below(mh, num_exits_of(recs[node as int]))
    &&& forall|a: Seq<bool>|
        a.len() == vars_at(lv) ==> #[trigger] restricted_at(recs, maps, lv, node, var, value, r, mh, a)
}

/// New connection `nb` is old connection `b` with its return map renamed
/// through `mh`: same target, and entry `j` of the new map names, in `mh`,
/// entry `j` of the old one.
pub(crate) open spec fn renamed_conn(
    maps: Seq<Seq<usize>>,
    b: Connection,
    nb: Connection,
    mh: Seq<usize>,
) -> bool {
    let nr = maps[nb.return_map.0 as int];
    let or = maps[b.return_map.0 as int];
    &&& nb.target == b.target
    &&& nr.len() == or.len()
    &&& forall|j: int| 0 <= j < nr.len() ==> #[trigger] nr[j] < mh.len() && mh[nr[j] as int] == or[j]
}

/// New B-connection `nb` stands for old B-connection `b` with `x_var` of
/// the child fixed to `value`: on every assignment `x` of the child's
/// variables, the exit `nb` lands on names, in `mh`, the exit that `b`
/// lands on once `x_var` is set.
pub(crate) open spec fn restricted_conn(
    recs: Seq<NodeRecord>,
    maps: Seq<Seq<usize>>,
    cl: nat,
    var: int,
    value: bool,
    b: Connection,
    nb: Connection,
    mh: Seq<usize>,
) -> bool {
    forall|x: Seq<bool>|
        x.len() == vars_at(cl) ==> #[trigger] restricted_conn_at(recs, maps, cl, var, value, b, nb, mh, x)
}

pub(crate) open spec fn restricted_conn_at(
    recs: Seq<NodeRecord>,
    maps: Seq<Seq<usize>>,
    cl: nat,
    var: int,
    value: bool,
    b: Connection,
    nb: Connection,
    mh: Seq<usize>,
    x: Seq<bool>,
) -> bool {
    let e = exit_at(recs, maps, cl, nb.target.0, x) as int;
    let k = maps[nb.return_map.0 as int][e] as int;
    &&& e < maps[nb.return_map.0 as int].len()
    &&& k < mh.len()
    &&& mh[k] == maps[b.return_map.0 as int][exit_at(
        recs,
        maps,
        cl,
        b.target.0,
        x.update(var, value),
    ) as int]
}

pub(crate) proof fn lemma_restricted_conn_extends(
    recs1: Seq<NodeRecord>,
    maps1: Seq<Seq<usize>>,
    recs2: Seq<NodeRecord>,
    maps2: Seq<Seq<usize>>,
    cl: nat,
    var: int,
    value: bool,
    b: Connection,
    nb: Connection,
    mh1: Seq<usize>,
    mh2: Seq<usize>,
)
    requires
        store_wf(recs1, maps1),
        extends_seq(recs1, recs2),
        extends_seq(maps1, maps2),
        extends_seq(mh1, mh2),
        conn_ok(recs1, maps1, recs1.len() as int, cl, b),
        conn_ok(recs1, maps1, recs1.len() as int, cl, nb),
        restricted_conn(recs1, maps1, cl, var, value, b, nb, mh1),
    ensures
        restricted_conn(recs2, maps2, cl, var, value, b, nb, mh2),
{
    lemma_conn_ok_extends(recs1, maps1, recs2, maps2, recs1.len() as int, cl, b);
    lemma_conn_ok_extends(recs1, maps1, recs2, maps2, recs1.len() as int, cl, nb);
    assert forall|x: Seq<bool>| x.len() == vars_at(cl) implies #[trigger] restricted_conn_at(
        recs2,
        maps2,
        cl,
        var,
        value,
        b,
        nb,
        mh2,
        x,
    ) by {
        assert(restricted_conn_at(recs1, maps1, cl, var, value, b, nb, mh1, x));
        lemma_exit_extends(recs1, maps1, recs2, maps2, cl, nb.target.0, x);
        lemma_exit_extends(recs1, maps1, recs2, maps2, cl, b.target.0, x.update(var, value));
    }
}

/// The first position of `x` in `v`, if any.
fn position_of(v: &Vec<usize>, x: usize) -> (r: Option<usize>)
    ensures
        r matches Some(p) ==> p < v@.len() && v@[p as int] == x,
        r is None ==> forall|i: int| 0 <= i < v@.len() ==> #[trigger] v@[i] != x,
{
    let mut i: usize = 0;
    while i < v.len()
        invariant
            i <= v@.len(),
            forall|j: int| 0 <= j < i ==> #[trigger] v@[j] != x,
        decreases v@.len() - i,
    {
        if v[i] == x {
            return Some(i);
        }
        i = i + 1;
    }
    None
}

/// Dedupe `seq` in first-seen order, returning the deduped body and a
/// reduction map (`reduction[i]` is the position of `seq[i]` in the
/// deduped body).
pub fn dedupe_first_seen(seq: &[usize]) -> (r: (Vec<usize>, Vec<usize>))
    ensures
        r.1@.len() == seq@.len(),
        reduction_ok(r.1@, r.0@.len()),
        distinct(r.0@),
        forall|i: int| 0 <= i < seq@.len() ==> #[trigger] r.0@[r.1@[i] as int] == seq@[i],
        first_seen(seq@) ==> r.0@ == identity_seq(r.0@.len()) && r.1@ == seq@,
{
    let mut body: Vec<usize> = Vec::new();
    let mut reduction: Vec<usize> = Vec::new();
    let n = seq.len();
    let mut i: usize = 0;
    proof {
        assert(reduction_ok(reduction@, 0));
        assert(body@ =~= identity_seq(0));
        assert(reduction@ =~= seq@.subrange(0, 0));
    }
    while i < n
        invariant
            n == seq@.len(),
            i <= n,
            reduction@.len() == i,
            body@.len() <= i,
            forall|t: int|
                0 <= t < i ==> #[trigger] reduction@[t] < body@.len() && body@[reduction@[t] as int]
                    == seq@[t],
            forall|p: int, q: int|
                0 <= p < body@.len() && 0 <= q < body@.len() && p != q ==> body@[p] != body@[q],
            reduction_ok(reduction@, body@.len()),
            first_seen(seq@) ==> body@ == identity_seq(body@.len()) && reduction@ == seq@.subrange(
                0,
                i as int,
            ),
        decreases n - i,
    {
        let v = seq[i];
        let ghost b0 = body@;
        let ghost r0 = reduction@;
        let pos = match position_of(&body, v) {
            Some(p) => p,
            None => {
                let p = body.len();
                body.push(v);
                p
            },
        };
        reduction.push(pos);
        proof {
            let b1 = body@;
            let r1 = reduction@;
            if pos > 0 {
                assert(occurs(r0, pos - 1));
            }
            lemma_first_seen_push(r0, pos);
            assert forall|w: int| 0 <= w < b1.len() implies #[trigger] occurs(r1, w) by {
                if w < b0.len() {
                    assert(occurs(r0, w));
                }
                lemma_occurs_push(r0, pos, w);
            }
            assert forall|t: int| 0 <= t < i + 1 implies #[trigger] r1[t] < b1.len() && b1[r1[t] as int]
                == seq@[t] by {
                if t < i {
                    assert(r1[t] == r0[t]);
                }
            }
            if first_seen(seq@) {
                assert(seen_before(seq@, i as int));
                if pos == b0.len() {
                    if v != 0 {
                        let w = choose|w: int| 0 <= w < i && #[trigger] seq@[w] + 1 == seq@[i as int];
                        assert(r0[w] == seq@.subrange(0, i as int)[w]);
                        assert(r0[w] < b0.len());
                        if v < b0.len() {
                            assert(b0[v as int] == identity_seq(b0.len())[v as int]);
                        }
                    } else if b0.len() > 0 {
                        assert(b0[0] == identity_seq(b0.len())[0]);
                    }
                    assert(v == b0.len());
                    assert(b1 =~= identity_seq(b1.len()));
                } else {
                    assert(b0[pos as int] == identity_seq(b0.len())[pos as int]);
                }
                assert(r1 =~= seq@.subrange(0, i + 1));
            }
        }
        i = i + 1;
    }
    proof {
        if first_seen(seq@) {
            assert(seq@.subrange(0, n as int) =~= seq@);
        }
    }
    (body, reduction)
}


/// The position of `c` in `map_handle`, appending `c` when it is absent.
fn exit_slot(map_handle: &mut Vec<usize>, c: usize) -> (r: usize)
    requires
        distinct(old(map_handle)@),
    ensures
        distinct(final(map_handle)@),
        final(map_handle)@ == old(map_handle)@ || final(map_handle)@ == old(map_handle)@.push(c),
        r < final(map_handle)@.len(),
        final(map_handle)@[r as int] == c,
{
    match position_of(map_handle, c) {
        Some(p) => p,
        None => {
            let p = map_handle.len();
            map_handle.push(c);
            p
        },
    }
}

/// Renaming through a map handle survives growth of the store and of the
/// handle.
pub(crate) proof fn lemma_renamed_conn_extends(
    maps1: Seq<Seq<usize>>,
    maps2: Seq<Seq<usize>>,
    b: Connection,
    nb: Connection,
    mh1: Seq<usize>,
    mh2: Seq<usize>,
)
    requires
        extends_seq(maps1, maps2),
        extends_seq(mh1, mh2),
        b.return_map.0 < maps1.len(),
        nb.return_map.0 < maps1.len(),
        renamed_conn(maps1, b, nb, mh1),
    ensures
        renamed_conn(maps2, b, nb, mh2),
{
    assert(maps2[b.return_map.0 as int] == maps1[b.return_map.0 as int]);
    assert(maps2[nb.return_map.0 as int] == maps1[nb.return_map.0 as int]);
    let nr = maps1[nb.return_map.0 as int];
    assert forall|j: int| 0 <= j < nr.len() implies #[trigger] nr[j] < mh2.len() && mh2[nr[j] as int]
        == maps1[b.return_map.0 as int][j] by {
        assert(nr[j] < mh1.len());
    }
}

/// The deduped body of a sequence below `bound` lies below `bound`.
proof fn lemma_dedupe_below(seq: Seq<usize>, body: Seq<usize>, red: Seq<usize>, bound: nat)
    requires
        all_below(seq, bound),
        red.len() == seq.len(),
        reduction_ok(red, body.len()),
        forall|i: int| 0 <= i < seq.len() ==> #[trigger] body[red[i] as int] == seq[i],
    ensures
        all_below(body, bound),
{
    assert forall|v: int| 0 <= v < body.len() implies #[trigger] body[v] < bound by {
        assert(occurs(red, v));
        let w = choose|w: int| 0 <= w < red.len() && #[trigger] red[w] == v;
        assert(body[red[w] as int] == seq[w]);
    }
}

/// Placing one more entry through the map handle keeps the running
/// numbering first-seen, counting the handle's entries.
proof fn lemma_slot_step(e: Seq<usize>, mh1: Seq<usize>, mh2: Seq<usize>, c: usize, pos: usize)
    requires
        fresh_ok(0, e),
        count_from(0, e, e.len()) == mh1.len(),
        distinct(mh2),
        mh2 == mh1 || mh2 == mh1.push(c),
        pos < mh2.len(),
        mh2[pos as int] == c,
    ensures
        fresh_ok(0, e.push(pos)),
        count_from(0, e.push(pos), e.len() + 1) == mh2.len(),
{
    if mh2 != mh1 && pos < mh1.len() {
        assert(mh2[pos as int] == mh2[mh1.len() as int]);
    }
    lemma_fresh_push(0, e, pos);
}

/// A connection equal to one built before adds no value to the running
/// numbering.
proof fn lemma_dup_conn_count(maps: Seq<Seq<usize>>, nb0: Seq<Connection>, p: int, iv: Seq<usize>, m: nat)
    requires
        fresh_ok(0, concat_maps(maps, nb0)),
        0 <= p < nb0.len(),
        maps[nb0[p].return_map.0 as int] == iv,
        count_from(0, concat_maps(maps, nb0) + iv, concat_maps(maps, nb0).len() + iv.len()) == m,
    ensures
        count_from(0, concat_maps(maps, nb0), concat_maps(maps, nb0).len()) == m,
{
    let e0 = concat_maps(maps, nb0);
    let cnt = count_from(0, e0, e0.len());
    lemma_concat_entries(maps, nb0);
    lemma_fresh_values(0, e0, e0.len());
    assert forall|j: int| 0 <= j < iv.len() implies #[trigger] iv[j] < cnt by {
        assert(maps[nb0[p].return_map.0 as int][j] == iv[j]);
        assert(occurs(e0, iv[j] as int));
    }
    lemma_fresh_no_new(cnt, iv, iv.len());
    lemma_fresh_append(0, e0, iv);
}

/// The B-connections built by renaming distinct B-connections of a
/// canonical node are pairwise distinct.
proof fn lemma_renamed_distinct(
    maps: Seq<Seq<usize>>,
    bs: Seq<Connection>,
    amap: Seq<usize>,
    nbv: Seq<Connection>,
    mh: Seq<usize>,
)
    requires
        maps_unique(maps),
        nbv.len() == amap.len(),
        distinct(amap),
        all_below(amap, bs.len()),
        forall|j: int| 0 <= j < bs.len() ==> (#[trigger] bs[j]).return_map.0 < maps.len(),
        forall|j1: int, j2: int|
            0 <= j1 < bs.len() && 0 <= j2 < bs.len() && j1 != j2 ==> #[trigger] bs[j1] != #[trigger] bs[j2],
        forall|q: int| 0 <= q < nbv.len() ==> #[trigger] renamed_conn(maps, bs[amap[q] as int], nbv[q], mh),
    ensures
        forall|q1: int, q2: int|
            0 <= q1 < nbv.len() && 0 <= q2 < nbv.len() && q1 != q2 ==> #[trigger] nbv[q1] != #[trigger] nbv[q2],
{
    assert forall|q1: int, q2: int| 0 <= q1 < nbv.len() && 0 <= q2 < nbv.len() && q1 != q2 implies #[trigger] nbv[q1]
        != #[trigger] nbv[q2] by {
        if nbv[q1] == nbv[q2] {
            let b1 = bs[amap[q1] as int];
            let b2 = bs[amap[q2] as int];
            assert(renamed_conn(maps, b1, nbv[q1], mh));
            assert(renamed_conn(maps, b2, nbv[q2], mh));
            let o1 = maps[b1.return_map.0 as int];
            let o2 = maps[b2.return_map.0 as int];
            let nr = maps[nbv[q1].return_map.0 as int];
            assert forall|j: int| 0 <= j < o1.len() implies o1[j] == o2[j] by {
                assert(mh[nr[j] as int] == o1[j]);
                assert(mh[nr[j] as int] == o2[j]);
            }
            assert(o1 =~= o2);
            assert(b1.return_map.0 == b2.return_map.0);
            assert(b1 == b2);
            assert(amap[q1] != amap[q2]);
        }
    }
}

impl Manager {
    /// Restrict `node`: returns the node with `x_var_index` fixed to
    /// `value`, and fills `map_handle` (empty on entry) with, for each exit
    /// of the result, the exit of `node` it stands for.
    #[verifier::spinoff_prover]
    fn restrict_node(
        &mut self,
        node: NodeId,
        var_index: u32,
        value: bool,
        map_handle: &mut Vec<usize>,
    ) -> (r: NodeId)
        requires
            old(self).wf(),
            node.0 < old(self).recs().len(),
            var_index < vars_at(level_of(old(self).recs()[node.0 as int])),
            old(map_handle)@.len() == 0,
        ensures
            final(self).wf(),
            final(self).grows_from(*old(self)),
            restrict_ok(
                final(self).recs(),
                final(self).maps(),
                node.0,
                var_index as int,
                value,
                r.0,
                final(map_handle)@,
            ),
            distinct(final(map_handle)@),
            canonical(old(self).recs(), old(self).maps(), level_of(old(self).recs()[node.0 as int]), node.0)
                ==> canonical(
                final(self).recs(),
                final(self).maps(),
                level_of(old(self).recs()[node.0 as int]),
                r.0,
            ),
        decreases level_of(old(self).recs()[node.0 as int]), 1nat,
    {
        let ghost s0 = *self;
        let ghost lv = level_of(s0.recs()[node.0 as int]);
        let (level, a_conn, b_conns) = match self.nodes.record(node) {
            NodeRecord::DontCare => {
                map_handle.push(0);
                return NodeId(DONT_CARE);
            },
            NodeRecord::Fork => {
                if value {
                    map_handle.push(1);
                } else {
                    map_handle.push(0);
                }
                proof {
                    vstd::arithmetic::power2::lemma2_to64();
                    assert(var_index == 0);
                    assert forall|a: Seq<bool>| a.len() == vars_at(0) implies #[trigger] restricted_at(
                        s0.recs(),
                        s0.maps(),
                        0,
                        node.0,
                        var_index as int,
                        value,
                        DONT_CARE,
                        map_handle@,
                        a,
                    ) by {
                        assert(a.update(0, value)[0] == value);
                    }
                }
                return NodeId(DONT_CARE);
            },
            NodeRecord::Internal { level, a_conn, b_conns, .. } => (
                *level,
                *a_conn,
                b_conns.duplicate(),
            ),
        };
        proof {
            assert(node.0 >= 2);
            assert(record_ok(s0.recs(), s0.maps(), node.0 as int, s0.recs()[node.0 as int]));
            assert(level_of(s0.recs()[node.0 as int]) <= s0.level);
        }
        // The no-distinction node is unchanged by restriction.
        let nd = self.no_distinction(level);
        let ghost s1 = *self;
        if node == nd {
            map_handle.push(0);
            proof {
                Self::lemma_node_keeps(*self, s0, lv, node.0);
                if canonical(s0.recs(), s0.maps(), lv, node.0) {
                    lemma_canonical_extends(s0.recs(), s0.maps(), self.recs(), self.maps(), lv, node.0);
                }
                assert forall|a: Seq<bool>| a.len() == vars_at(lv) implies #[trigger] restricted_at(
                    self.recs(),
                    self.maps(),
                    lv,
                    node.0,
                    var_index as int,
                    value,
                    node.0,
                    map_handle@,
                    a,
                ) by {
                    lemma_single_exit(self.recs(), self.maps(), lv, node.0, a);
                    lemma_single_exit(self.recs(), self.maps(), lv, node.0, a.update(var_index as int, value));
                }
            }
            return node;
        }
        proof {
            Self::lemma_node_keeps(*self, s0, lv, node.0);
            if canonical(s0.recs(), s0.maps(), lv, node.0) {
                lemma_canonical_extends(s0.recs(), s0.maps(), self.recs(), self.maps(), lv, node.0);
            }
        }
        let half = half_width(level);
        if var_index < half {
            let r = self.restrict_a_case(Ghost(node), level, a_conn, &b_conns, var_index, value, map_handle);
            proof {
                Self::lemma_grows_trans(s0, s1, *self);
            }
            r
        } else {
            let r = self.restrict_b_case(
                Ghost(node),
                level,
                a_conn,
                &b_conns,
                var_index - half,
                value,
                map_handle,
            );
            proof {
                Self::lemma_grows_trans(s0, s1, *self);
            }
            r
        }
    }

    /// The variable lies in the A-connection's half: restrict the
    /// A-connection's target, then keep the B-connection each new A-exit
    /// selects, renaming its return map into the new exits.
    #[verifier::spinoff_prover]
    fn restrict_a_case(
        &mut self,
        Ghost(node): Ghost<NodeId>,
        level: u8,
        a_conn: Connection,
        b_conns: &BConnVec,
        var_index: u32,
        value: bool,
        map_handle: &mut Vec<usize>,
    ) -> (r: NodeId)
        requires
            old(self).wf(),
            node.0 < old(self).recs().len(),
            old(self).recs()[node.0 as int] is Internal,
            old(self).recs()[node.0 as int]->a_conn == a_conn,
            bconn_view(old(self).recs()[node.0 as int]->b_conns) == bconn_view(*b_conns),
            level_of(old(self).recs()[node.0 as int]) == level,
            level >= 1,
            var_index < vars_at((level - 1) as nat),
            old(map_handle)@.len() == 0,
        ensures
            final(self).wf(),
            final(self).grows_from(*old(self)),
            restrict_ok(
                final(self).recs(),
                final(self).maps(),
                node.0,
                var_index as int,
                value,
                r.0,
                final(map_handle)@,
            ),
            distinct(final(map_handle)@),
            canonical(old(self).recs(), old(self).maps(), level as nat, node.0) ==> canonical(
                final(self).recs(),
                final(self).maps(),
                level as nat,
                r.0,
            ),
        decreases level, 0nat,
    {
        let ghost s0 = *self;
        let ghost lv = level as nat;
        let ghost cl = (lv - 1) as nat;
        let ghost bs = bconn_view(*b_conns);
        let ghost en = num_exits_of(s0.recs()[node.0 as int]);
        let ghost canon: bool = canonical(s0.recs(), s0.maps(), lv, node.0);
        proof {
            assert(node.0 >= 2);
            assert(record_ok(s0.recs(), s0.maps(), node.0 as int, s0.recs()[node.0 as int]));
            assert(level_of(s0.recs()[a_conn.target.0 as int]) == cl);
            if canon {
                lemma_targets_canonical(s0.recs(), s0.maps(), cl, bs, bs.len());
                assert(canonical(s0.recs(), s0.maps(), cl, a_conn.target.0));
            }
        }
        let mut a_map: Vec<usize> = Vec::new();
        let new_a_target = self.restrict_node(a_conn.target, var_index, value, &mut a_map);
        let ghost s1 = *self;
        // The A-connection's return map translates A-exits into
        // B-connection indices.
        let a_conn_map_body = self.rm_body(a_conn.return_map).duplicate();
        proof {
            lemma_conn_ok_extends(s0.recs(), s0.maps(), s1.recs(), s1.maps(), node.0 as int, cl, a_conn);
            assert(rmv_view(a_conn_map_body) == identity_seq(bs.len()));
            assert(map_handle@ =~= Seq::<usize>::empty());
            assert(concat_maps(self.maps(), Seq::<Connection>::empty()) =~= Seq::<usize>::empty());
        }
        let mut new_b_conns = BConnVec::new();
        let n = a_map.len();
        let mut i: usize = 0;
        while i < n
            invariant
                self.wf(),
                s0.wf(),
                s1.wf(),
                s0 == *old(self),
                s1.grows_from(s0),
                self.grows_from(s1),
                node.0 < s0.recs().len(),
                s0.recs()[node.0 as int] is Internal,
                s0.recs()[node.0 as int]->a_conn == a_conn,
                bs == bconn_view(s0.recs()[node.0 as int]->b_conns),
                bs == bconn_view(*b_conns),
                lv == level_of(s0.recs()[node.0 as int]),
                lv >= 1,
                cl == lv - 1,
                en == num_exits_of(s0.recs()[node.0 as int]),
                record_ok(s0.recs(), s0.maps(), node.0 as int, s0.recs()[node.0 as int]),
                rmv_view(a_conn_map_body) == identity_seq(bs.len()),
                restrict_ok(s1.recs(), s1.maps(), a_conn.target.0, var_index as int, value, new_a_target.0, a_map@),
                num_exits_of(s0.recs()[a_conn.target.0 as int]) == bs.len(),
                n == a_map@.len(),
                i <= n,
                distinct(map_handle@),
                all_below(map_handle@, en),
                i > 0 ==> map_handle@.len() >= 1,
                bconn_view(new_b_conns).len() == i,
                forall|q: int|
                    0 <= q < i ==> #[trigger] conn_ok(
                        self.recs(),
                        self.maps(),
                        self.recs().len() as int,
                        cl,
                        bconn_view(new_b_conns)[q],
                    ),
                forall|q: int|
                    0 <= q < i ==> #[trigger] renamed_conn(
                        self.maps(),
                        bs[a_map@[q] as int],
                        bconn_view(new_b_conns)[q],
                        map_handle@,
                    ),
                distinct(a_map@),
                canon == canonical(s0.recs(), s0.maps(), lv, node.0),
                canon ==> canonical(s1.recs(), s1.maps(), cl, new_a_target.0),
                canon ==> forall|j: int|
                    0 <= j < bs.len() ==> canonical(s0.recs(), s0.maps(), cl, (#[trigger] bs[j]).target.0)
                        && distinct(s0.maps()[bs[j].return_map.0 as int]),
                canon ==> forall|q: int|
                    0 <= q < i ==> distinct(
                        self.maps()[(#[trigger] bconn_view(new_b_conns)[q]).return_map.0 as int],
                    ),
                fresh_ok(0, concat_maps(self.maps(), bconn_view(new_b_conns))),
                count_from(
                    0,
                    concat_maps(self.maps(), bconn_view(new_b_conns)),
                    concat_maps(self.maps(), bconn_view(new_b_conns)).len(),
                ) == map_handle@.len(),
            decreases n - i,
        {
            let ghost s_prev = *self;
            let ghost mh0 = map_handle@;
            let ghost nb0 = bconn_view(new_b_conns);
            proof {
                assert(s1.recs()[a_conn.target.0 as int] == s0.recs()[a_conn.target.0 as int]);
                assert(a_map@[i as int] < bs.len());
            }
            let b = a_conn_map_body.get(a_map[i]);
            let orig = b_conns.get(b);
            proof {
                assert(b == a_map@[i as int]);
                assert(bconn_ok(s0.recs(), s0.maps(), node.0 as int, cl, s0.recs()[node.0 as int]->num_exits, orig));
                lemma_conn_ok_extends(s0.recs(), s0.maps(), self.recs(), self.maps(), node.0 as int, cl, orig);
            }
            let orig_rm = self.rm_body(orig.return_map).duplicate();
            let ghost om = rmv_view(orig_rm);
            let mut new_rm = ReturnMapVec::new();
            let m = orig_rm.len();
            let mut j: usize = 0;
            let ghost e0 = concat_maps(self.maps(), nb0);
            proof {
                assert(e0 + rmv_view(new_rm) =~= e0);
            }
            while j < m
                invariant
                    m == om.len(),
                    om == rmv_view(orig_rm),
                    all_below(om, en),
                    j <= m,
                    extends_seq(mh0, map_handle@),
                    distinct(map_handle@),
                    all_below(map_handle@, en),
                    j > 0 ==> map_handle@.len() >= 1,
                    rmv_view(new_rm).len() == j,
                    forall|t: int|
                        0 <= t < j ==> #[trigger] rmv_view(new_rm)[t] < map_handle@.len()
                            && map_handle@[rmv_view(new_rm)[t] as int] == om[t],
                    fresh_ok(0, e0 + rmv_view(new_rm)),
                    count_from(0, e0 + rmv_view(new_rm), (e0.len() + j) as nat) == map_handle@.len(),
                decreases m - j,
            {
                let c = orig_rm.get(j);
                let ghost mh1 = map_handle@;
                let ghost nr0 = rmv_view(new_rm);
                let pos = exit_slot(map_handle, c);
                new_rm.push(pos);
                proof {
                    lemma_slot_step(e0 + nr0, mh1, map_handle@, c, pos);
                    assert((e0 + nr0).push(pos) =~= e0 + rmv_view(new_rm));
                    assert forall|t: int| 0 <= t < j + 1 implies #[trigger] rmv_view(new_rm)[t]
                        < map_handle@.len() && map_handle@[rmv_view(new_rm)[t] as int] == om[t] by {
                        if t < j {
                            assert(rmv_view(new_rm)[t] < mh1.len());
                            assert(map_handle@[rmv_view(new_rm)[t] as int] == mh1[rmv_view(new_rm)[t] as int]);
                        }
                    }
                }
                j = j + 1;
            }
            let ghost nr = rmv_view(new_rm);
            let new_rm_id = self.rm_intern(new_rm);
            let nc = Connection { target: orig.target, return_map: new_rm_id };
            new_b_conns.push(nc);
            proof {
                let recs = self.recs();
                let maps = self.maps();
                let nb = bconn_view(new_b_conns);
                assert(m >= 1) by {
                    lemma_conn_ok_extends(s0.recs(), s0.maps(), s_prev.recs(), s_prev.maps(), node.0 as int, cl, orig);
                    lemma_exits_pos(s_prev.recs(), s_prev.maps(), orig.target.0);
                }
                assert(maps[orig.return_map.0 as int] == om);
                assert(renamed_conn(maps, orig, nc, map_handle@));
                assert(nb == nb0.push(nc));
                lemma_concat_push(maps, nb0, nc);
                assert forall|q: int| 0 <= q < nb0.len() implies (#[trigger] nb0[q]).return_map.0 < s_prev.maps().len() by {
                    assert(conn_ok(s_prev.recs(), s_prev.maps(), s_prev.recs().len() as int, cl, nb0[q]));
                }
                lemma_concat_extends(s_prev.maps(), maps, nb0);
                assert(concat_maps(maps, nb) == e0 + nr);
                if canon {
                    assert(orig == bs[a_map@[i as int] as int]);
                    assert(distinct(om));
                    assert forall|t1: int, t2: int| 0 <= t1 < nr.len() && 0 <= t2 < nr.len() && t1 != t2 implies nr[t1] != nr[t2] by {
                        assert(map_handle@[nr[t1] as int] == om[t1]);
                        assert(map_handle@[nr[t2] as int] == om[t2]);
                    }
                    assert forall|q: int| 0 <= q < i + 1 implies distinct(maps[(#[trigger] nb[q]).return_map.0 as int]) by {
                        if q < i {
                            assert(nb[q] == nb0[q]);
                            assert(conn_ok(s_prev.recs(), s_prev.maps(), s_prev.recs().len() as int, cl, nb0[q]));
                            assert(maps[nb0[q].return_map.0 as int] == s_prev.maps()[nb0[q].return_map.0 as int]);
                        } else {
                            assert(nb[q] == nc);
                        }
                    }
                }
                assert(conn_ok(recs, maps, recs.len() as int, cl, nc));
                assert forall|q: int| 0 <= q < i + 1 implies #[trigger] conn_ok(
                    recs,
                    maps,
                    recs.len() as int,
                    cl,
                    nb[q],
                ) by {
                    if q < i {
                        assert(nb[q] == nb0[q]);
                        assert(conn_ok(s_prev.recs(), s_prev.maps(), s_prev.recs().len() as int, cl, nb0[q]));
                        lemma_conn_ok_extends(s_prev.recs(), s_prev.maps(), recs, maps, s_prev.recs().len() as int, cl, nb0[q]);
                    }
                }
                assert forall|q: int| 0 <= q < i + 1 implies #[trigger] renamed_conn(
                    maps,
                    bs[a_map@[q] as int],
                    nb[q],
                    map_handle@,
                ) by {
                    if q < i {
                        assert(nb[q] == nb0[q]);
                        assert(conn_ok(s_prev.recs(), s_prev.maps(), s_prev.recs().len() as int, cl, nb0[q]));
                        let bq = bs[a_map@[q] as int];
                        assert(a_map@[q] < bs.len());
                        assert(bconn_ok(s0.recs(), s0.maps(), node.0 as int, cl, s0.recs()[node.0 as int]->num_exits, bq));
                        lemma_renamed_conn_extends(s_prev.maps(), maps, bq, nb0[q], mh0, map_handle@);
                    }
                }
            }
            i = i + 1;
        }
        // Each new A-exit selects its own new B-connection.
        let ghost s2 = *self;
        let new_a_return_map = self.rm_identity(a_map.len());
        let new_num_exits = map_handle.len();
        let new_a = Connection { target: new_a_target, return_map: new_a_return_map };
        let ghost nbv = bconn_view(new_b_conns);
        proof {
            let recs = self.recs();
            let maps = self.maps();
            Self::lemma_grows_trans(s1, s2, *self);
            assert(recs[new_a_target.0 as int] == s1.recs()[new_a_target.0 as int]);
            assert(n >= 1) by {
                lemma_exits_pos(s1.recs(), s1.maps(), new_a_target.0);
            }
            assert forall|q: int| 0 <= q < nbv.len() implies #[trigger] bconn_ok(
                recs,
                maps,
                recs.len() as int,
                cl,
                new_num_exits,
                nbv[q],
            ) by {
                assert(conn_ok(s2.recs(), s2.maps(), s2.recs().len() as int, cl, nbv[q]));
                lemma_conn_ok_extends(s2.recs(), s2.maps(), recs, maps, s2.recs().len() as int, cl, nbv[q]);
                assert(renamed_conn(s2.maps(), bs[a_map@[q] as int], nbv[q], map_handle@));
                assert(maps[nbv[q].return_map.0 as int] == s2.maps()[nbv[q].return_map.0 as int]);
            }
            assert(record_ok(
                recs,
                maps,
                recs.len() as int,
                NodeRecord::Internal { level, num_exits: new_num_exits, a_conn: new_a, b_conns: new_b_conns },
            ));
        }
        let r = self.node_intern(level, new_num_exits, new_a, new_b_conns);
        proof {
            Self::lemma_grows_trans(s0, s1, s2);
            Self::lemma_grows_trans(s0, s2, *self);
            let recs = self.recs();
            let maps = self.maps();
            Self::lemma_node_keeps(*self, s0, lv, node.0);
            assert forall|a: Seq<bool>| a.len() == vars_at(lv) implies #[trigger] restricted_at(
                recs,
                maps,
                lv,
                node.0,
                var_index as int,
                value,
                r.0,
                map_handle@,
                a,
            ) by {
                self.lemma_a_case_exit(s0, s1, s2, node, var_index as int, value, a_conn, bs, new_a, nbv, a_map@, map_handle@, r, a);
            }
            if canon {
                let mh = map_handle@;
                lemma_canonical_extends(s1.recs(), s1.maps(), recs, maps, cl, new_a_target.0);
                assert(s1.recs()[a_conn.target.0 as int] == s0.recs()[a_conn.target.0 as int]);
                assert forall|j: int| 0 <= j < bs.len() implies (#[trigger] bs[j]).return_map.0 < s2.maps().len() by {
                    assert(bconn_ok(s0.recs(), s0.maps(), node.0 as int, cl, s0.recs()[node.0 as int]->num_exits, bs[j]));
                }
                assert forall|q: int| 0 <= q < nbv.len() implies #[trigger] canonical(s2.recs(), s2.maps(), cl, nbv[q].target.0)
                    && (nbv[q]).return_map.0 < s2.maps().len() by {
                    assert(renamed_conn(s2.maps(), bs[a_map@[q] as int], nbv[q], mh));
                    assert(conn_ok(s2.recs(), s2.maps(), s2.recs().len() as int, cl, nbv[q]));
                    assert(a_map@[q] < bs.len());
                    assert(canonical(s0.recs(), s0.maps(), cl, bs[a_map@[q] as int].target.0));
                    lemma_canonical_extends(s0.recs(), s0.maps(), s2.recs(), s2.maps(), cl, nbv[q].target.0);
                }
                assert forall|q: int| 0 <= q < nbv.len() implies #[trigger] distinct(s2.maps()[nbv[q].return_map.0 as int]) by {
                    assert(distinct(s2.maps()[nbv[q].return_map.0 as int]));
                }
                assert forall|q: int| 0 <= q < nbv.len() implies (#[trigger] nbv[q]).return_map.0 < s2.maps().len() by {
                    assert(conn_ok(s2.recs(), s2.maps(), s2.recs().len() as int, cl, nbv[q]));
                }
                s2.lemma_stores_unique();
                lemma_renamed_distinct(s2.maps(), bs, a_map@, nbv, mh);
                lemma_reduction_fresh(concat_maps(s2.maps(), nbv), mh.len());
                lemma_reduce_canon_result(s2.recs(), s2.maps(), recs, maps, cl, nbv, r.0, mh.len());
            }
        }
        r
    }

    /// The exit of the node built by `restrict_a_case` names, in the map
    /// handle, the exit of the given node on the restricted assignment.
    proof fn lemma_a_case_exit(
        &self,
        s0: Manager,
        s1: Manager,
        s2: Manager,
        node: NodeId,
        var: int,
        value: bool,
        a_conn: Connection,
        bs: Seq<Connection>,
        new_a: Connection,
        nb: Seq<Connection>,
        a_map: Seq<usize>,
        mh: Seq<usize>,
        result: NodeId,
        a: Seq<bool>,
    )
        requires
            s0.wf(),
            s1.wf(),
            s2.wf(),
            s1.grows_from(s0),
            s2.grows_from(s1),
            self.grows_from(s2),
            node.0 < s0.recs().len(),
            s0.recs()[node.0 as int] is Internal,
            s0.recs()[node.0 as int]->a_conn == a_conn,
            bconn_view(s0.recs()[node.0 as int]->b_conns) == bs,
            level_of(s0.recs()[node.0 as int]) >= 1,
            record_ok(s0.recs(), s0.maps(), node.0 as int, s0.recs()[node.0 as int]),
            0 <= var < vars_at((level_of(s0.recs()[node.0 as int]) - 1) as nat),
            a.len() == vars_at(level_of(s0.recs()[node.0 as int])),
            restrict_ok(s1.recs(), s1.maps(), a_conn.target.0, var, value, new_a.target.0, a_map),
            new_a.return_map.0 < self.maps().len(),
            self.maps()[new_a.return_map.0 as int] == identity_seq(a_map.len()),
            nb.len() == a_map.len(),
            all_below(a_map, bs.len()),
            forall|q: int|
                0 <= q < nb.len() ==> #[trigger] conn_ok(
                    s2.recs(),
                    s2.maps(),
                    s2.recs().len() as int,
                    (level_of(s0.recs()[node.0 as int]) - 1) as nat,
                    nb[q],
                ) && renamed_conn(s2.maps(), bs[a_map[q] as int], nb[q], mh),
            result.0 < self.recs().len(),
            self.recs()[result.0 as int] is Internal,
            self.recs()[result.0 as int]->a_conn == new_a,
            bconn_view(self.recs()[result.0 as int]->b_conns) == nb,
        ensures
            restricted_at(
                self.recs(),
                self.maps(),
                level_of(s0.recs()[node.0 as int]),
                node.0,
                var,
                value,
                result.0,
                mh,
                a,
            ),
    {
        let lv = level_of(s0.recs()[node.0 as int]);
        let cl = (lv - 1) as nat;
        let recs = self.recs();
        let maps = self.maps();
        let h = vars_at(cl) as int;
        crate::semantics::lemma_vars_unfold(lv);
        Self::lemma_grows_trans(s0, s1, s2);
        Self::lemma_grows_trans(s1, s2, *self);
        Self::lemma_grows_trans(s0, s2, *self);
        let au = a.update(var, value);
        let left = a.subrange(0, h);
        let right = a.subrange(h, a.len() as int);
        let leftu = au.subrange(0, h);
        assert(leftu =~= left.update(var, value));
        assert(au.subrange(h, au.len() as int) =~= right);
        // The given node on the restricted assignment.
        lemma_exit_internal(s0.recs(), s0.maps(), lv, node.0, au);
        lemma_exit_extends(s0.recs(), s0.maps(), recs, maps, lv, node.0, au);
        let e = exit_at(s0.recs(), s0.maps(), cl, a_conn.target.0, leftu);
        lemma_exit_bound(s0.recs(), s0.maps(), cl, a_conn.target.0, leftu);
        assert(s0.maps()[a_conn.return_map.0 as int] == identity_seq(bs.len()));
        let b = bs[e as int];
        assert(bconn_ok(s0.recs(), s0.maps(), node.0 as int, cl, s0.recs()[node.0 as int]->num_exits, b));
        lemma_exit_extends(s0.recs(), s0.maps(), recs, maps, cl, b.target.0, right);
        lemma_exit_bound(s0.recs(), s0.maps(), cl, b.target.0, right);
        assert(maps[b.return_map.0 as int] == s0.maps()[b.return_map.0 as int]);
        // The restricted A-target picks an exit standing for `e`.
        assert(restricted_at(s1.recs(), s1.maps(), cl, a_conn.target.0, var, value, new_a.target.0, a_map, left));
        lemma_exit_extends(s0.recs(), s0.maps(), s1.recs(), s1.maps(), cl, a_conn.target.0, leftu);
        lemma_exit_extends(s1.recs(), s1.maps(), recs, maps, cl, new_a.target.0, left);
        let i = exit_at(s1.recs(), s1.maps(), cl, new_a.target.0, left);
        lemma_exit_bound(s1.recs(), s1.maps(), cl, new_a.target.0, left);
        assert(a_map[i as int] == e);
        // The new node.
        lemma_exit_internal(recs, maps, lv, result.0, a);
        assert(maps[new_a.return_map.0 as int][i as int] == i);
        let nbi = nb[i as int];
        assert(conn_ok(s2.recs(), s2.maps(), s2.recs().len() as int, cl, nbi));
        assert(renamed_conn(s2.maps(), b, nbi, mh));
        assert(maps[nbi.return_map.0 as int] == s2.maps()[nbi.return_map.0 as int]);
    }

    /// The variable lies in the B-connections' half: restrict every
    /// B-connection's target, merge the B-connections that come out equal,
    /// and reduce the A-connection's target by that merging.
    #[verifier::spinoff_prover]
    #[verifier::rlimit(30)]
    fn restrict_b_case(
        &mut self,
        Ghost(node): Ghost<NodeId>,
        level: u8,
        a_conn: Connection,
        b_conns: &BConnVec,
        adj_index: u32,
        value: bool,
        map_handle: &mut Vec<usize>,
    ) -> (r: NodeId)
        requires
            old(self).wf(),
            node.0 < old(self).recs().len(),
            old(self).recs()[node.0 as int] is Internal,
            old(self).recs()[node.0 as int]->a_conn == a_conn,
            bconn_view(old(self).recs()[node.0 as int]->b_conns) == bconn_view(*b_conns),
            level_of(old(self).recs()[node.0 as int]) == level,
            level >= 1,
            adj_index < vars_at((level - 1) as nat),
            old(map_handle)@.len() == 0,
        ensures
            final(self).wf(),
            final(self).grows_from(*old(self)),
            restrict_ok(
                final(self).recs(),
                final(self).maps(),
                node.0,
                adj_index + vars_at((level - 1) as nat),
                value,
                r.0,
                final(map_handle)@,
            ),
            distinct(final(map_handle)@),
            canonical(old(self).recs(), old(self).maps(), level as nat, node.0) ==> canonical(
                final(self).recs(),
                final(self).maps(),
                level as nat,
                r.0,
            ),
        decreases level, 0nat,
    {
        let ghost s0 = *self;
        let ghost lv = level as nat;
        let ghost cl = (lv - 1) as nat;
        let ghost bs = bconn_view(*b_conns);
        let ghost en = num_exits_of(s0.recs()[node.0 as int]);
        let ghost canon: bool = canonical(s0.recs(), s0.maps(), lv, node.0);
        proof {
            assert(node.0 >= 2);
            assert(record_ok(s0.recs(), s0.maps(), node.0 as int, s0.recs()[node.0 as int]));
            assert(map_handle@ =~= Seq::<usize>::empty());
            assert(concat_maps(self.maps(), Seq::<Connection>::empty()) =~= Seq::<usize>::empty());
            if canon {
                lemma_targets_canonical(s0.recs(), s0.maps(), cl, bs, bs.len());
            }
        }
        let mut new_b_conns = BConnVec::new();
        let mut a_reduction: Vec<usize> = Vec::new();
        let mut b_dedup = pair_table_new();
        let n = b_conns.len();
        let mut k: usize = 0;
        proof {
            assert(reduction_ok(a_reduction@, 0));
        }
        while k < n
            invariant
                self.wf(),
                s0.wf(),
                s0 == *old(self),
                self.grows_from(s0),
                node.0 < s0.recs().len(),
                s0.recs()[node.0 as int] is Internal,
                s0.recs()[node.0 as int]->a_conn == a_conn,
                bs == bconn_view(s0.recs()[node.0 as int]->b_conns),
                bs == bconn_view(*b_conns),
                lv == level_of(s0.recs()[node.0 as int]),
                lv >= 1,
                lv == level as nat,
                cl == lv - 1,
                en == num_exits_of(s0.recs()[node.0 as int]),
                record_ok(s0.recs(), s0.maps(), node.0 as int, s0.recs()[node.0 as int]),
                adj_index < vars_at(cl),
                n == bs.len(),
                k <= n,
                distinct(map_handle@),
                all_below(map_handle@, en),
                k > 0 ==> map_handle@.len() >= 1,
                a_reduction@.len() == k,
                reduction_ok(a_reduction@, bconn_view(new_b_conns).len()),
                forall|key: (usize, usize)| #[trigger]
                    pair_table_contents(b_dedup).contains_key(key) ==> pair_table_contents(b_dedup)[key]
                        < bconn_view(new_b_conns).len() && bconn_view(new_b_conns)[pair_table_contents(
                        b_dedup,
                    )[key] as int] == (Connection {
                        target: NodeId(key.0),
                        return_map: ReturnMapId(key.1),
                    }),
                forall|q: int|
                    0 <= q < bconn_view(new_b_conns).len() ==> #[trigger] conn_ok(
                        self.recs(),
                        self.maps(),
                        self.recs().len() as int,
                        cl,
                        bconn_view(new_b_conns)[q],
                    ),
                forall|q: int|
                    0 <= q < bconn_view(new_b_conns).len() ==> #[trigger] all_below(
                        self.maps()[bconn_view(new_b_conns)[q].return_map.0 as int],
                        map_handle@.len(),
                    ),
                forall|j: int|
                    0 <= j < k ==> #[trigger] restricted_conn(
                        self.recs(),
                        self.maps(),
                        cl,
                        adj_index as int,
                        value,
                        bs[j],
                        bconn_view(new_b_conns)[a_reduction@[j] as int],
                        map_handle@,
                    ),
                canon == canonical(s0.recs(), s0.maps(), lv, node.0),
                canon ==> forall|j: int|
                    0 <= j < bs.len() ==> canonical(s0.recs(), s0.maps(), cl, (#[trigger] bs[j]).target.0)
                        && distinct(s0.maps()[bs[j].return_map.0 as int]),
                canon ==> forall|q: int|
                    0 <= q < bconn_view(new_b_conns).len() ==> canonical(
                        self.recs(),
                        self.maps(),
                        cl,
                        (#[trigger] bconn_view(new_b_conns)[q]).target.0,
                    ) && distinct(self.maps()[bconn_view(new_b_conns)[q].return_map.0 as int]),
                forall|q: int|
                    0 <= q < bconn_view(new_b_conns).len() ==> pair_table_contents(b_dedup).contains_key(
                        (
                            (#[trigger] bconn_view(new_b_conns)[q]).target.0,
                            bconn_view(new_b_conns)[q].return_map.0,
                        ),
                    ),
                forall|q1: int, q2: int|
                    0 <= q1 < bconn_view(new_b_conns).len() && 0 <= q2 < bconn_view(new_b_conns).len()
                        && q1 != q2 ==> #[trigger] bconn_view(new_b_conns)[q1] != #[trigger] bconn_view(
                        new_b_conns,
                    )[q2],
                fresh_ok(0, concat_maps(self.maps(), bconn_view(new_b_conns))),
                count_from(
                    0,
                    concat_maps(self.maps(), bconn_view(new_b_conns)),
                    concat_maps(self.maps(), bconn_view(new_b_conns)).len(),
                ) == map_handle@.len(),
            decreases n - k,
        {
            let ghost s_prev = *self;
            let ghost mh0 = map_handle@;
            let ghost nb0 = bconn_view(new_b_conns);
            let ghost ar0 = a_reduction@;
            let orig_b = b_conns.get(k);
            proof {
                assert(bconn_ok(s0.recs(), s0.maps(), node.0 as int, cl, s0.recs()[node.0 as int]->num_exits, orig_b));
                lemma_conn_ok_extends(s0.recs(), s0.maps(), self.recs(), self.maps(), node.0 as int, cl, orig_b);
            }
            proof {
                assert(level_of(self.recs()[orig_b.target.0 as int]) == cl);
                assert(self.recs()[orig_b.target.0 as int] == s0.recs()[orig_b.target.0 as int]);
                if canon {
                    assert(canonical(s0.recs(), s0.maps(), cl, bs[k as int].target.0));
                    lemma_canonical_extends(s0.recs(), s0.maps(), self.recs(), self.maps(), cl, orig_b.target.0);
                }
            }
            let mut b_map: Vec<usize> = Vec::new();
            let m = self.restrict_node(orig_b.target, adj_index, value, &mut b_map);
            let ghost s_mid = *self;
            proof {
                lemma_conn_ok_extends(s_prev.recs(), s_prev.maps(), self.recs(), self.maps(), node.0 as int, cl, orig_b);
            }
            // Compose the restricted target's map handle with this
            // B-connection's return map, renaming into the new exits.
            let orig_rm = self.rm_body(orig_b.return_map).duplicate();
            let ghost om = rmv_view(orig_rm);
            let ghost bm = b_map@;
            let mut induced = ReturnMapVec::new();
            let bn = b_map.len();
            let mut j: usize = 0;
            let ghost e0 = concat_maps(self.maps(), nb0);
            proof {
                assert forall|q: int| 0 <= q < nb0.len() implies (#[trigger] nb0[q]).return_map.0 < s_prev.maps().len() by {
                    assert(conn_ok(s_prev.recs(), s_prev.maps(), s_prev.recs().len() as int, cl, nb0[q]));
                }
                lemma_concat_extends(s_prev.maps(), self.maps(), nb0);
                assert(e0 + rmv_view(induced) =~= e0);
            }
            while j < bn
                invariant
                    bn == bm.len(),
                    bm == b_map@,
                    om == rmv_view(orig_rm),
                    all_below(bm, om.len()),
                    all_below(om, en),
                    j <= bn,
                    extends_seq(mh0, map_handle@),
                    distinct(map_handle@),
                    all_below(map_handle@, en),
                    j > 0 ==> map_handle@.len() >= 1,
                    rmv_view(induced).len() == j,
                    forall|t: int|
                        0 <= t < j ==> #[trigger] rmv_view(induced)[t] < map_handle@.len()
                            && map_handle@[rmv_view(induced)[t] as int] == om[bm[t] as int],
                    fresh_ok(0, e0 + rmv_view(induced)),
                    count_from(0, e0 + rmv_view(induced), (e0.len() + j) as nat) == map_handle@.len(),
                decreases bn - j,
            {
                let c = orig_rm.get(b_map[j]);
                let ghost mh1 = map_handle@;
                let ghost iv0 = rmv_view(induced);
                let pos = exit_slot(map_handle, c);
                induced.push(pos);
                proof {
                    lemma_slot_step(e0 + iv0, mh1, map_handle@, c, pos);
                    assert((e0 + iv0).push(pos) =~= e0 + rmv_view(induced));
                    assert forall|t: int| 0 <= t < j + 1 implies #[trigger] rmv_view(induced)[t]
                        < map_handle@.len() && map_handle@[rmv_view(induced)[t] as int] == om[bm[t] as int] by {
                        if t < j {
                            assert(rmv_view(induced)[t] < mh1.len());
                            assert(map_handle@[rmv_view(induced)[t] as int] == mh1[rmv_view(induced)[t] as int]);
                        }
                    }
                }
                j = j + 1;
            }
            let ghost iv = rmv_view(induced);
            let induced_id = self.rm_intern(induced);
            let nc = Connection { target: m, return_map: induced_id };
            proof {
                let recs = self.recs();
                let maps = self.maps();
                let mh = map_handle@;
                Self::lemma_grows_trans(s_prev, s_mid, *self);
                assert(maps[induced_id.0 as int] == iv);
                assert(maps[orig_b.return_map.0 as int] == om);
                assert(node_ok(s_mid.recs(), m.0, cl));
                assert(recs[m.0 as int] == s_mid.recs()[m.0 as int]);
                assert(conn_ok(recs, maps, recs.len() as int, cl, nc));
                assert(all_below(maps[nc.return_map.0 as int], mh.len()));
                assert(bn >= 1) by {
                    lemma_exits_pos(s_mid.recs(), s_mid.maps(), m.0);
                }
                assert forall|x: Seq<bool>| x.len() == vars_at(cl) implies #[trigger] restricted_conn_at(
                    recs,
                    maps,
                    cl,
                    adj_index as int,
                    value,
                    orig_b,
                    nc,
                    mh,
                    x,
                ) by {
                    assert(restricted_at(s_mid.recs(), s_mid.maps(), cl, orig_b.target.0, adj_index as int, value, m.0, bm, x));
                    lemma_exit_extends(s_mid.recs(), s_mid.maps(), recs, maps, cl, m.0, x);
                    lemma_exit_extends(s_mid.recs(), s_mid.maps(), recs, maps, cl, orig_b.target.0, x.update(adj_index as int, value));
                    lemma_exit_bound(s_mid.recs(), s_mid.maps(), cl, m.0, x);
                }
                assert(restricted_conn(recs, maps, cl, adj_index as int, value, orig_b, nc, mh));
                if canon {
                    assert(orig_b == bs[k as int]);
                    assert(distinct(om));
                    assert forall|t1: int, t2: int| 0 <= t1 < iv.len() && 0 <= t2 < iv.len() && t1 != t2 implies iv[t1] != iv[t2] by {
                        assert(mh[iv[t1] as int] == om[bm[t1] as int]);
                        assert(mh[iv[t2] as int] == om[bm[t2] as int]);
                        assert(bm[t1] != bm[t2]);
                    }
                    lemma_canonical_extends(s_mid.recs(), s_mid.maps(), recs, maps, cl, m.0);
                }
                // earlier facts carry over
                assert forall|q: int| 0 <= q < nb0.len() implies #[trigger] conn_ok(
                    recs,
                    maps,
                    recs.len() as int,
                    cl,
                    nb0[q],
                ) by {
                    assert(conn_ok(s_prev.recs(), s_prev.maps(), s_prev.recs().len() as int, cl, nb0[q]));
                    lemma_conn_ok_extends(s_prev.recs(), s_prev.maps(), recs, maps, s_prev.recs().len() as int, cl, nb0[q]);
                }
                assert forall|q: int| 0 <= q < nb0.len() implies #[trigger] all_below(
                    maps[nb0[q].return_map.0 as int],
                    mh.len(),
                ) by {
                    assert(conn_ok(s_prev.recs(), s_prev.maps(), s_prev.recs().len() as int, cl, nb0[q]));
                    assert(all_below(s_prev.maps()[nb0[q].return_map.0 as int], mh0.len()));
                    assert(maps[nb0[q].return_map.0 as int] == s_prev.maps()[nb0[q].return_map.0 as int]);
                }
                assert forall|jj: int| 0 <= jj < k implies #[trigger] restricted_conn(
                    recs,
                    maps,
                    cl,
                    adj_index as int,
                    value,
                    bs[jj],
                    nb0[ar0[jj] as int],
                    mh,
                ) by {
                    assert(ar0[jj] < nb0.len());
                    assert(bconn_ok(s0.recs(), s0.maps(), node.0 as int, cl, s0.recs()[node.0 as int]->num_exits, bs[jj]));
                    lemma_conn_ok_extends(s0.recs(), s0.maps(), s_prev.recs(), s_prev.maps(), node.0 as int, cl, bs[jj]);
                    assert(conn_ok(s_prev.recs(), s_prev.maps(), s_prev.recs().len() as int, cl, nb0[ar0[jj] as int]));
                    lemma_restricted_conn_extends(
                        s_prev.recs(),
                        s_prev.maps(),
                        recs,
                        maps,
                        cl,
                        adj_index as int,
                        value,
                        bs[jj],
                        nb0[ar0[jj] as int],
                        mh0,
                        mh,
                    );
                }
            }
            // Merge B-connections that come out equal.
            let key = (m.0, induced_id.0);
            let ghost s_seen = b_dedup;
            let position = match pair_table_get(&b_dedup, key) {
                Some(p) => p,
                None => {
                    let p = new_b_conns.len();
                    new_b_conns.push(nc);
                    pair_table_insert(&mut b_dedup, key, p);
                    p
                },
            };
            a_reduction.push(position);
            proof {
                let nb = bconn_view(new_b_conns);
                let ar = a_reduction@;
                assert(nb[position as int] == nc);
                let fresh = position == nb0.len();
                assert(self.maps()[nc.return_map.0 as int] == iv);
                assert(concat_maps(self.maps(), nb0) == e0) by {
                    assert forall|q: int| 0 <= q < nb0.len() implies (#[trigger] nb0[q]).return_map.0 < s_prev.maps().len() by {
                        assert(conn_ok(s_prev.recs(), s_prev.maps(), s_prev.recs().len() as int, cl, nb0[q]));
                    }
                    lemma_concat_extends(s_prev.maps(), self.maps(), nb0);
                }
                if fresh {
                    assert(nb =~= nb0.push(nc));
                    lemma_concat_push(self.maps(), nb0, nc);
                    assert forall|q: int| 0 <= q < nb0.len() implies nb0[q] != nc by {
                        assert(pair_table_contents(s_seen).contains_key((nb0[q].target.0, nb0[q].return_map.0)));
                    }
                } else {
                    assert(nb == nb0);
                    lemma_dup_conn_count(self.maps(), nb0, position as int, iv, map_handle@.len());
                }
                assert forall|q1: int, q2: int|
                    0 <= q1 < nb.len() && 0 <= q2 < nb.len() && q1 != q2 implies #[trigger] nb[q1] != #[trigger] nb[q2] by {
                    if fresh {
                        if q1 < nb0.len() && q2 < nb0.len() {
                            assert(nb[q1] == nb0[q1] && nb[q2] == nb0[q2]);
                        } else if q1 < nb0.len() {
                            assert(nb[q1] == nb0[q1]);
                        } else {
                            assert(nb[q2] == nb0[q2]);
                        }
                    }
                }
                assert forall|q: int| 0 <= q < nb.len() implies pair_table_contents(b_dedup).contains_key(
                    ((#[trigger] nb[q]).target.0, nb[q].return_map.0),
                ) by {
                    if q < nb0.len() {
                        assert(nb[q] == nb0[q]);
                        assert(pair_table_contents(s_seen).contains_key((nb0[q].target.0, nb0[q].return_map.0)));
                    }
                }
                if canon {
                    assert forall|q: int| 0 <= q < nb.len() implies canonical(
                        self.recs(),
                        self.maps(),
                        cl,
                        (#[trigger] nb[q]).target.0,
                    ) && distinct(self.maps()[nb[q].return_map.0 as int]) by {
                        if q < nb0.len() {
                            assert(nb[q] == nb0[q]);
                            assert(canonical(s_prev.recs(), s_prev.maps(), cl, nb0[q].target.0));
                            lemma_canonical_extends(s_prev.recs(), s_prev.maps(), self.recs(), self.maps(), cl, nb0[q].target.0);
                            assert(conn_ok(s_prev.recs(), s_prev.maps(), s_prev.recs().len() as int, cl, nb0[q]));
                            assert(self.maps()[nb0[q].return_map.0 as int] == s_prev.maps()[nb0[q].return_map.0 as int]);
                        } else {
                            assert(nb[q] == nc);
                        }
                    }
                }
                if position > 0 {
                    assert(occurs(ar0, position - 1));
                }
                lemma_first_seen_push(ar0, position);
                assert forall|v: int| 0 <= v < nb.len() implies #[trigger] occurs(ar, v) by {
                    if v < nb0.len() {
                        assert(occurs(ar0, v));
                    }
                    lemma_occurs_push(ar0, position, v);
                }
                assert forall|q: int| 0 <= q < nb.len() implies #[trigger] conn_ok(
                    self.recs(),
                    self.maps(),
                    self.recs().len() as int,
                    cl,
                    nb[q],
                ) by {
                    if q < nb0.len() {
                        assert(nb[q] == nb0[q]);
                    }
                }
                assert forall|q: int| 0 <= q < nb.len() implies #[trigger] all_below(
                    self.maps()[nb[q].return_map.0 as int],
                    map_handle@.len(),
                ) by {
                    if q < nb0.len() {
                        assert(nb[q] == nb0[q]);
                    } else {
                        assert(nb[q] == nc);
                        assert(all_below(self.maps()[nc.return_map.0 as int], map_handle@.len()));
                    }
                }
                assert forall|jj: int| 0 <= jj < k + 1 implies #[trigger] restricted_conn(
                    self.recs(),
                    self.maps(),
                    cl,
                    adj_index as int,
                    value,
                    bs[jj],
                    nb[ar[jj] as int],
                    map_handle@,
                ) by {
                    if jj < k {
                        assert(ar[jj] == ar0[jj]);
                        assert(nb[ar0[jj] as int] == nb0[ar0[jj] as int]);
                    }
                }
            }
            k = k + 1;
        }
        // Reduce the A-connection by the merging of the B-connections.
        let ghost s3 = *self;
        let ghost nbv = bconn_view(new_b_conns);
        let ghost ar = a_reduction@;
        proof {
            lemma_conn_ok_extends(s0.recs(), s0.maps(), self.recs(), self.maps(), node.0 as int, cl, a_conn);
            lemma_reduction_nonempty(ar, nbv.len());
        }
        let a_conn_rm = self.rm_body(a_conn.return_map).duplicate();
        let mut composed_a_rm: Vec<usize> = Vec::new();
        let an = a_conn_rm.len();
        let mut i: usize = 0;
        while i < an
            invariant
                an == rmv_view(a_conn_rm).len(),
                rmv_view(a_conn_rm) == identity_seq(ar.len()),
                ar == a_reduction@,
                i <= an,
                composed_a_rm@.len() == i,
                forall|t: int| 0 <= t < i ==> #[trigger] composed_a_rm@[t] == ar[t],
            decreases an - i,
        {
            let old_b_idx = a_conn_rm.get(i);
            composed_a_rm.push(a_reduction[old_b_idx]);
            i = i + 1;
        }
        proof {
            assert(composed_a_rm@ =~= ar);
        }
        let (induced_a_rm_body, induced_a_reduction) = dedupe_first_seen(composed_a_rm.as_slice());
        proof {
            lemma_reduction_count_unique(ar, nbv.len(), induced_a_rm_body@.len());
        }
        let induced_a_rm_id = self.rm_intern(ReturnMapVec::from_slice(induced_a_rm_body.as_slice()));
        let new_a_num_exits = self.rm_body(induced_a_rm_id).len();
        let ghost s4 = *self;
        proof {
            assert(s4.recs()[a_conn.target.0 as int] == s0.recs()[a_conn.target.0 as int]);
            if canon {
                assert(canonical(s0.recs(), s0.maps(), cl, a_conn.target.0));
                lemma_canonical_extends(s0.recs(), s0.maps(), s4.recs(), s4.maps(), cl, a_conn.target.0);
            }
        }
        let reduced_a_target = self.reduce(a_conn.target, induced_a_reduction.as_slice(), new_a_num_exits);
        let ghost s5 = *self;
        let new_a = Connection { target: reduced_a_target, return_map: induced_a_rm_id };
        let new_num_exits = map_handle.len();
        proof {
            Self::lemma_grows_trans(s3, s4, s5);
            let recs = self.recs();
            let maps = self.maps();
            assert(maps[induced_a_rm_id.0 as int] == identity_seq(nbv.len()));
            assert(conn_ok(recs, maps, recs.len() as int, cl, new_a));
            assert forall|q: int| 0 <= q < nbv.len() implies #[trigger] bconn_ok(
                recs,
                maps,
                recs.len() as int,
                cl,
                new_num_exits,
                nbv[q],
            ) by {
                assert(conn_ok(s3.recs(), s3.maps(), s3.recs().len() as int, cl, nbv[q]));
                lemma_conn_ok_extends(s3.recs(), s3.maps(), recs, maps, s3.recs().len() as int, cl, nbv[q]);
                assert(all_below(s3.maps()[nbv[q].return_map.0 as int], new_num_exits as nat));
            }
            assert(record_ok(
                recs,
                maps,
                recs.len() as int,
                NodeRecord::Internal { level, num_exits: new_num_exits, a_conn: new_a, b_conns: new_b_conns },
            ));
            assert(level <= self.level) by {
                assert(level_of(s0.recs()[node.0 as int]) <= s0.level);
            }
        }
        let r = self.node_intern(level, new_num_exits, new_a, new_b_conns);
        proof {
            let recs = self.recs();
            let maps = self.maps();
            Self::lemma_grows_trans(s0, s3, s5);
            Self::lemma_node_keeps(*self, s0, lv, node.0);
            assert forall|a: Seq<bool>| a.len() == vars_at(lv) implies #[trigger] restricted_at(
                recs,
                maps,
                lv,
                node.0,
                adj_index + vars_at(cl),
                value,
                r.0,
                map_handle@,
                a,
            ) by {
                self.lemma_b_case_exit(s0, s3, s5, node, adj_index as int, value, a_conn, bs, new_a, nbv, ar, map_handle@, r, a);
            }
            if canon {
                let mh = map_handle@;
                lemma_canonical_extends(s5.recs(), s5.maps(), recs, maps, cl, reduced_a_target.0);
                assert forall|q: int| 0 <= q < nbv.len() implies (#[trigger] nbv[q]).return_map.0 < s3.maps().len() by {
                    assert(conn_ok(s3.recs(), s3.maps(), s3.recs().len() as int, cl, nbv[q]));
                }
                lemma_reduction_fresh(concat_maps(s3.maps(), nbv), mh.len());
                lemma_reduce_canon_result(s3.recs(), s3.maps(), recs, maps, cl, nbv, r.0, mh.len());
            }
        }
        r
    }

    /// The exit of the node built by `restrict_b_case` names, in the map
    /// handle, the exit of the given node on the restricted assignment.
    proof fn lemma_b_case_exit(
        &self,
        s0: Manager,
        s3: Manager,
        s5: Manager,
        node: NodeId,
        adj: int,
        value: bool,
        a_conn: Connection,
        bs: Seq<Connection>,
        new_a: Connection,
        nb: Seq<Connection>,
        ar: Seq<usize>,
        mh: Seq<usize>,
        result: NodeId,
        a: Seq<bool>,
    )
        requires
            s0.wf(),
            s3.wf(),
            s5.wf(),
            s3.grows_from(s0),
            s5.grows_from(s3),
            self.grows_from(s5),
            node.0 < s0.recs().len(),
            s0.recs()[node.0 as int] is Internal,
            s0.recs()[node.0 as int]->a_conn == a_conn,
            bconn_view(s0.recs()[node.0 as int]->b_conns) == bs,
            level_of(s0.recs()[node.0 as int]) >= 1,
            record_ok(s0.recs(), s0.maps(), node.0 as int, s0.recs()[node.0 as int]),
            0 <= adj < vars_at((level_of(s0.recs()[node.0 as int]) - 1) as nat),
            a.len() == vars_at(level_of(s0.recs()[node.0 as int])),
            ar.len() == bs.len(),
            all_below(ar, nb.len()),
            forall|j: int|
                0 <= j < bs.len() ==> #[trigger] restricted_conn(
                    s3.recs(),
                    s3.maps(),
                    (level_of(s0.recs()[node.0 as int]) - 1) as nat,
                    adj,
                    value,
                    bs[j],
                    nb[ar[j] as int],
                    mh,
                ),
            forall|q: int|
                0 <= q < nb.len() ==> #[trigger] conn_ok(
                    s3.recs(),
                    s3.maps(),
                    s3.recs().len() as int,
                    (level_of(s0.recs()[node.0 as int]) - 1) as nat,
                    nb[q],
                ),
            reduce_ok(s5.recs(), s5.maps(), a_conn.target.0, ar, new_a.target.0),
            new_a.return_map.0 < s5.maps().len(),
            s5.maps()[new_a.return_map.0 as int] == identity_seq(nb.len()),
            result.0 < self.recs().len(),
            self.recs()[result.0 as int] is Internal,
            self.recs()[result.0 as int]->a_conn == new_a,
            bconn_view(self.recs()[result.0 as int]->b_conns) == nb,
        ensures
            restricted_at(
                self.recs(),
                self.maps(),
                level_of(s0.recs()[node.0 as int]),
                node.0,
                adj + vars_at((level_of(s0.recs()[node.0 as int]) - 1) as nat),
                value,
                result.0,
                mh,
                a,
            ),
    {
        let lv = level_of(s0.recs()[node.0 as int]);
        let cl = (lv - 1) as nat;
        let recs = self.recs();
        let maps = self.maps();
        let h = vars_at(cl) as int;
        crate::semantics::lemma_vars_unfold(lv);
        Self::lemma_grows_trans(s0, s3, s5);
        Self::lemma_grows_trans(s3, s5, *self);
        Self::lemma_grows_trans(s0, s5, *self);
        let au = a.update(adj + h, value);
        let left = a.subrange(0, h);
        let right = a.subrange(h, a.len() as int);
        assert(au.subrange(0, h) =~= left);
        assert(au.subrange(h, au.len() as int) =~= right.update(adj, value));
        // The given node on the restricted assignment.
        lemma_exit_internal(s0.recs(), s0.maps(), lv, node.0, au);
        lemma_exit_extends(s0.recs(), s0.maps(), recs, maps, lv, node.0, au);
        let e = exit_at(s0.recs(), s0.maps(), cl, a_conn.target.0, left);
        lemma_exit_bound(s0.recs(), s0.maps(), cl, a_conn.target.0, left);
        assert(s0.maps()[a_conn.return_map.0 as int] == identity_seq(bs.len()));
        let b = bs[e as int];
        assert(bconn_ok(s0.recs(), s0.maps(), node.0 as int, cl, s0.recs()[node.0 as int]->num_exits, b));
        // The new node.
        lemma_exit_internal(recs, maps, lv, result.0, a);
        lemma_exit_extends(s5.recs(), s5.maps(), recs, maps, cl, new_a.target.0, left);
        lemma_exit_extends(s0.recs(), s0.maps(), s5.recs(), s5.maps(), cl, a_conn.target.0, left);
        let i = exit_at(recs, maps, cl, new_a.target.0, left);
        assert(i == ar[e as int]);
        assert(maps[new_a.return_map.0 as int] == identity_seq(nb.len()));
        assert(maps[new_a.return_map.0 as int][i as int] == i);
        let nbe = nb[ar[e as int] as int];
        assert(restricted_conn(s3.recs(), s3.maps(), cl, adj, value, b, nbe, mh));
        lemma_conn_ok_extends(s0.recs(), s0.maps(), s3.recs(), s3.maps(), node.0 as int, cl, b);
        lemma_restricted_conn_extends(s3.recs(), s3.maps(), recs, maps, cl, adj, value, b, nbe, mh, mh);
        assert(restricted_conn_at(recs, maps, cl, adj, value, b, nbe, mh, right));
        lemma_exit_extends(s0.recs(), s0.maps(), recs, maps, cl, b.target.0, right.update(adj, value));
        assert(maps[b.return_map.0 as int] == s0.maps()[b.return_map.0 as int]);
    }
}


impl Manager {
    /// `restrict(f, x_i, v)`: substitute the constant `v` for variable
    /// `x_i` in `f`. The result is canonical.
    #[verifier::spinoff_prover]
    pub fn restrict(&mut self, f: Bdd, var_index: u32, value: bool) -> (r: Bdd)
        requires
            old(self).inv(),
            old(self).valid(f),
            var_index < old(self).num_vars(),
        ensures
            final(self).inv(),
            final(self).extends(*old(self)),
            final(self).valid(r),
            forall|a: Seq<bool>|
                a.len() == old(self).num_vars() ==> #[trigger] final(self).value(r, a)
                    == old(self).value(f, a.update(var_index as int, value)),
            old(self).is_canonical(f) ==> final(self).is_canonical(r),
    {
        proof {
            self.lemma_reveal();
        }
        let ghost s0 = *self;
        let ghost lv = s0.top();
        // Recurse on the structural root.
        let mut map_handle: Vec<usize> = Vec::new();
        let new_root = self.restrict_node(f.root, var_index, value, &mut map_handle);
        let ghost s1 = *self;
        let ghost mh = map_handle@;
        // Compose the map handle with the value map of `f`:
        // composed[i] = f.values[map_handle[i]].
        let f_values_body = ReturnMapVec::from_slice(self.rm_body(f.values).as_slice());
        let ghost fv = rmv_view(f_values_body);
        proof {
            s1.lemma_grows_keeps(s0, f);
            assert(fv == s0.maps()[f.values.0 as int]);
        }
        let mut composed: Vec<usize> = Vec::new();
        let n = map_handle.len();
        let mut i: usize = 0;
        while i < n
            invariant
                n == mh.len(),
                mh == map_handle@,
                fv == rmv_view(f_values_body),
                all_below(mh, fv.len()),
                forall|t: int| 0 <= t < fv.len() ==> #[trigger] fv[t] <= 1,
                i <= n,
                composed@.len() == i,
                forall|t: int| 0 <= t < i ==> #[trigger] composed@[t] == fv[mh[t] as int],
            decreases n - i,
        {
            composed.push(f_values_body.get(map_handle[i]));
            i = i + 1;
        }
        proof {
            assert forall|t: int| 0 <= t < composed@.len() implies #[trigger] composed@[t] < 2 by {
                assert(composed@[t] == fv[mh[t] as int]);
            }
        }
        // Dedupe in first-seen order and collapse the structural node
        // accordingly, so that the result stays canonical.
        let (new_values_body, reduction) = dedupe_first_seen(composed.as_slice());
        proof {
            lemma_dedupe_below(composed@, new_values_body@, reduction@, 2);
        }
        let new_num_exits = new_values_body.len();
        let new_values_id = self.rm_intern(ReturnMapVec::from_slice(new_values_body.as_slice()));
        let ghost s2 = *self;
        proof {
            assert(self.recs()[new_root.0 as int] == s1.recs()[new_root.0 as int]);
            if s0.bdd_canonical(f) {
                assert(level_of(s0.recs()[f.root.0 as int]) == lv);
                assert(level_of(s1.recs()[new_root.0 as int]) == lv);
                lemma_canonical_extends(s1.recs(), s1.maps(), self.recs(), self.maps(), lv, new_root.0);
            }
        }
        let reduced_root = self.reduce(new_root, reduction.as_slice(), new_num_exits);
        let r = Bdd { root: reduced_root, values: new_values_id };
        proof {
            Self::lemma_grows_trans(s0, s1, s2);
            Self::lemma_grows_trans(s0, s2, *self);
            let recs = self.recs();
            let maps = self.maps();
            let nv = new_values_body@;
            let red = reduction@;
            assert(maps[new_values_id.0 as int] == nv);
            assert(level_of(s1.recs()[new_root.0 as int]) == lv);
            assert(reduce_ok(recs, maps, new_root.0, red, reduced_root.0));
            assert(self.bdd_wf(r));
            assert forall|a: Seq<bool>| a.len() == vars_at(lv) implies #[trigger] self.bdd_value(r, a)
                == s0.bdd_value(f, a.update(var_index as int, value)) by {
                let au = a.update(var_index as int, value);
                assert(restricted_at(s1.recs(), s1.maps(), lv, f.root.0, var_index as int, value, new_root.0, mh, a));
                lemma_exit_extends(s1.recs(), s1.maps(), recs, maps, lv, new_root.0, a);
                lemma_exit_extends(s0.recs(), s0.maps(), s1.recs(), s1.maps(), lv, f.root.0, au);
                lemma_exit_bound(s1.recs(), s1.maps(), lv, new_root.0, a);
                let t = exit_at(recs, maps, lv, new_root.0, a);
                assert(nv[red[t as int] as int] == composed@[t as int]);
            }
            if s0.bdd_canonical(f) {
                assert(self.bdd_canonical(r));
            }
            self.lemma_reveal();
        }
        r
    }

    /// `compose(f, x_i, g)`: substitute `g` for `x_i` in `f`, by
    /// `(g AND f|x_i=1) OR (NOT g AND f|x_i=0)`.
    pub fn compose(&mut self, f: Bdd, var_index: u32, g: Bdd) -> (r: Bdd)
        requires
            old(self).inv(),
            old(self).valid(f),
            old(self).valid(g),
            var_index < old(self).num_vars(),
        ensures
            final(self).inv(),
            final(self).extends(*old(self)),
            final(self).valid(r),
            forall|a: Seq<bool>|
                a.len() == old(self).num_vars() ==> #[trigger] final(self).value(r, a)
                    == old(self).value(f, a.update(var_index as int, old(self).value(g, a))),
            old(self).is_canonical(f) && old(self).is_canonical(g) ==> final(self).is_canonical(r),
    {
        let ghost s0 = *self;
        let f_true = self.restrict(f, var_index, true);
        let ghost s1 = *self;
        proof {
            Self::lemma_extends_keeps(s1, s0, f);
            Self::lemma_extends_keeps(s1, s0, g);
        }
        let f_false = self.restrict(f, var_index, false);
        let ghost s2 = *self;
        proof {
            Self::lemma_extends_keeps(s2, s1, g);
            Self::lemma_extends_keeps(s2, s1, f_true);
            Self::lemma_extends_keeps(s1, s0, f);
        }
        let not_g = self.not(g);
        let ghost s3 = *self;
        proof {
            Self::lemma_extends_keeps(s3, s2, g);
            Self::lemma_extends_keeps(s3, s2, f_true);
            Self::lemma_extends_keeps(s3, s2, f_false);
        }
        let left = self.and(g, f_true);
        let ghost s4 = *self;
        proof {
            Self::lemma_extends_keeps(s4, s3, not_g);
            Self::lemma_extends_keeps(s4, s3, f_false);
        }
        let right = self.and(not_g, f_false);
        let ghost s5 = *self;
        proof {
            Self::lemma_extends_keeps(s5, s4, left);
        }
        let r = self.or(left, right);
        proof {
            Self::lemma_extends_trans(s0, s1, s2);
            Self::lemma_extends_trans(s0, s2, s3);
            Self::lemma_extends_trans(s0, s3, s4);
            Self::lemma_extends_trans(s0, s4, s5);
            Self::lemma_extends_trans(s0, s5, *self);
            assert forall|a: Seq<bool>| a.len() == s0.num_vars() implies #[trigger] self.value(r, a)
                == s0.value(f, a.update(var_index as int, s0.value(g, a))) by {
                assert(s5.value(left, a) == s4.value(left, a));
                assert(s4.value(left, a) == (s3.value(g, a) && s3.value(f_true, a)));
                assert(s5.value(right, a) == (s4.value(not_g, a) && s4.value(f_false, a)));
                assert(s4.value(not_g, a) == s3.value(not_g, a));
                assert(s3.value(not_g, a) == !s2.value(g, a));
                assert(s3.value(f_true, a) == s2.value(f_true, a));
                assert(s2.value(f_true, a) == s1.value(f_true, a));
                assert(s4.value(f_false, a) == s3.value(f_false, a));
                assert(s3.value(f_false, a) == s2.value(f_false, a));
                assert(s3.value(g, a) == s2.value(g, a));
                assert(s2.value(g, a) == s1.value(g, a));
                assert(s1.value(g, a) == s0.value(g, a));
                assert(s1.value(f_true, a) == s0.value(f, a.update(var_index as int, true)));
                assert(s2.value(f_false, a) == s1.value(f, a.update(var_index as int, false)));
                assert(s1.value(f, a.update(var_index as int, false)) == s0.value(f, a.update(var_index as int, false)));
            }
        }
        r
    }

    /// `exists(f, x_i) = f|x_i=1 OR f|x_i=0`.
    pub fn exists_var(&mut self, f: Bdd, var_index: u32) -> (r: Bdd)
        requires
            old(self).inv(),
            old(self).valid(f),
            var_index < old(self).num_vars(),
        ensures
            final(self).inv(),
            final(self).extends(*old(self)),
            final(self).valid(r),
            forall|a: Seq<bool>|
                a.len() == old(self).num_vars() ==> #[trigger] final(self).value(r, a) == (old(self).value(
                    f,
                    a.update(var_index as int, true),
                ) || old(self).value(f, a.update(var_index as int, false))),
            old(self).is_canonical(f) ==> final(self).is_canonical(r),
    {
        let ghost s0 = *self;
        let t = self.restrict(f, var_index, true);
        let ghost s1 = *self;
        proof {
            Self::lemma_extends_keeps(s1, s0, f);
        }
        let fa = self.restrict(f, var_index, false);
        let ghost s2 = *self;
        proof {
            Self::lemma_extends_keeps(s2, s1, t);
        }
        let r = self.or(t, fa);
        proof {
            Self::lemma_extends_trans(s0, s1, s2);
            Self::lemma_extends_trans(s0, s2, *self);
            assert forall|a: Seq<bool>| a.len() == s0.num_vars() implies #[trigger] self.value(r, a) == (
            s0.value(f, a.update(var_index as int, true)) || s0.value(
                f,
                a.update(var_index as int, false),
            )) by {
                assert(s2.value(t, a) == s1.value(t, a));
                assert(s1.value(f, a.update(var_index as int, false)) == s0.value(f, a.update(var_index as int, false)));
            }
        }
        r
    }

    /// `forall(f, x_i) = f|x_i=1 AND f|x_i=0`.
    pub fn forall_var(&mut self, f: Bdd, var_index: u32) -> (r: Bdd)
        requires
            old(self).inv(),
            old(self).valid(f),
            var_index < old(self).num_vars(),
        ensures
            final(self).inv(),
            final(self).extends(*old(self)),
            final(self).valid(r),
            forall|a: Seq<bool>|
                a.len() == old(self).num_vars() ==> #[trigger] final(self).value(r, a) == (old(self).value(
                    f,
                    a.update(var_index as int, true),
                ) && old(self).value(f, a.update(var_index as int, false))),
            old(self).is_canonical(f) ==> final(self).is_canonical(r),
    {
        let ghost s0 = *self;
        let t = self.restrict(f, var_index, true);
        let ghost s1 = *self;
        proof {
            Self::lemma_extends_keeps(s1, s0, f);
        }
        let fa = self.restrict(f, var_index, false);
        let ghost s2 = *self;
        proof {
            Self::lemma_extends_keeps(s2, s1, t);
        }
        let r = self.and(t, fa);
        proof {
            Self::lemma_extends_trans(s0, s1, s2);
            Self::lemma_extends_trans(s0, s2, *self);
            assert forall|a: Seq<bool>| a.len() == s0.num_vars() implies #[trigger] self.value(r, a) == (
            s0.value(f, a.update(var_index as int, true)) && s0.value(
                f,
                a.update(var_index as int, false),
            )) by {
                assert(s2.value(t, a) == s1.value(t, a));
                assert(s1.value(f, a.update(var_index as int, false)) == s0.value(f, a.update(var_index as int, false)));
            }
        }
        r
    }
}


impl Manager {
    /// Restricting the projection `x_i` at its own variable gives the
    /// constant: a Bdd that meets `restrict`'s contract for `(x_i, i, v)`
    /// is `v` everywhere.
    pub proof fn lemma_restrict_own_var(m0: Manager, p: Bdd, i: int, v: bool, m1: Manager, r: Bdd)
        requires
            0 <= i < m0.num_vars(),
            forall|a: Seq<bool>| a.len() == m0.num_vars() ==> #[trigger] m0.value(p, a) == a[i],
            forall|a: Seq<bool>|
                a.len() == m0.num_vars() ==> #[trigger] m1.value(r, a) == m0.value(p, a.update(i, v)),
        ensures
            forall|a: Seq<bool>| a.len() == m0.num_vars() ==> #[trigger] m1.value(r, a) == v,
    {
        assert forall|a: Seq<bool>| a.len() == m0.num_vars() implies #[trigger] m1.value(r, a) == v by {
            assert(m0.value(p, a.update(i, v)) == a.update(i, v)[i]);
        }
    }

    /// Restricting the projection `x_j` at another variable leaves it as
    /// it is.
    pub proof fn lemma_restrict_other_var(
        m0: Manager,
        p: Bdd,
        i: int,
        j: int,
        v: bool,
        m1: Manager,
        r: Bdd,
    )
        requires
            0 <= i < m0.num_vars(),
            0 <= j < m0.num_vars(),
            i != j,
            forall|a: Seq<bool>| a.len() == m0.num_vars() ==> #[trigger] m0.value(p, a) == a[j],
            forall|a: Seq<bool>|
                a.len() == m0.num_vars() ==> #[trigger] m1.value(r, a) == m0.value(p, a.update(i, v)),
        ensures
            forall|a: Seq<bool>| a.len() == m0.num_vars() ==> #[trigger] m1.value(r, a) == m0.value(p, a),
    {
        assert forall|a: Seq<bool>| a.len() == m0.num_vars() implies #[trigger] m1.value(r, a) == m0.value(
            p,
            a,
        ) by {
            assert(m0.value(p, a.update(i, v)) == a.update(i, v)[j]);
        }
    }

    /// Composing with a constant is restricting to that constant: Bdds
    /// that meet `compose`'s contract for a `g` constant `c`, and
    /// `restrict`'s contract for `c`, denote the same function.
    pub proof fn lemma_compose_constant(
        m0: Manager,
        f: Bdd,
        g: Bdd,
        i: int,
        c: bool,
        m1: Manager,
        r1: Bdd,
        m2: Manager,
        r2: Bdd,
    )
        requires
            forall|a: Seq<bool>| a.len() == m0.num_vars() ==> #[trigger] m0.value(g, a) == c,
            forall|a: Seq<bool>|
                a.len() == m0.num_vars() ==> #[trigger] m1.value(r1, a) == m0.value(
                    f,
                    a.update(i, m0.value(g, a)),
                ),
            forall|a: Seq<bool>|
                a.len() == m0.num_vars() ==> #[trigger] m2.value(r2, a) == m0.value(f, a.update(i, c)),
        ensures
            forall|a: Seq<bool>| a.len() == m0.num_vars() ==> #[trigger] m1.value(r1, a) == m2.value(r2, a),
    {
        assert forall|a: Seq<bool>| a.len() == m0.num_vars() implies #[trigger] m1.value(r1, a)
            == m2.value(r2, a) by {
            assert(m0.value(g, a) == c);
        }
    }

    /// Composing with the projection of the same variable changes nothing.
    pub proof fn lemma_compose_own_var(m0: Manager, f: Bdd, g: Bdd, i: int, m1: Manager, r: Bdd)
        requires
            0 <= i < m0.num_vars(),
            forall|a: Seq<bool>| a.len() == m0.num_vars() ==> #[trigger] m0.value(g, a) == a[i],
            forall|a: Seq<bool>|
                a.len() == m0.num_vars() ==> #[trigger] m1.value(r, a) == m0.value(
                    f,
                    a.update(i, m0.value(g, a)),
                ),
        ensures
            forall|a: Seq<bool>| a.len() == m0.num_vars() ==> #[trigger] m1.value(r, a) == m0.value(f, a),
    {
        assert forall|a: Seq<bool>| a.len() == m0.num_vars() implies #[trigger] m1.value(r, a) == m0.value(
            f,
            a,
        ) by {
            assert(m0.value(g, a) == a[i]);
            assert(a.update(i, a[i]) =~= a);
        }
    }

    /// Composition commutes with restricting another variable: restricting
    /// `x_j` to `v` in `compose(f, x_i, g)` gives the function of composing
    /// `f|x_j=v` with `g|x_j=v` at `x_i`.
    pub proof fn lemma_compose_restrict_commute(
        m0: Manager,
        f: Bdd,
        g: Bdd,
        i: int,
        j: int,
        v: bool,
        m1: Manager,
        fg: Bdd,
        m2: Manager,
        left: Bdd,
        m3: Manager,
        fj: Bdd,
        gj: Bdd,
        m4: Manager,
        right: Bdd,
    )
        requires
            0 <= i < m0.num_vars(),
            0 <= j < m0.num_vars(),
            i != j,
            forall|a: Seq<bool>|
                a.len() == m0.num_vars() ==> #[trigger] m1.value(fg, a) == m0.value(
                    f,
                    a.update(i, m0.value(g, a)),
                ),
            forall|a: Seq<bool>|
                a.len() == m0.num_vars() ==> #[trigger] m2.value(left, a) == m1.value(fg, a.update(j, v)),
            forall|a: Seq<bool>|
                a.len() == m0.num_vars() ==> #[trigger] m3.value(fj, a) == m0.value(f, a.update(j, v)),
            forall|a: Seq<bool>|
                a.len() == m0.num_vars() ==> #[trigger] m3.value(gj, a) == m0.value(g, a.update(j, v)),
            forall|a: Seq<bool>|
                a.len() == m0.num_vars() ==> #[trigger] m4.value(right, a) == m3.value(
                    fj,
                    a.update(i, m3.value(gj, a)),
                ),
        ensures
            forall|a: Seq<bool>| a.len() == m0.num_vars() ==> #[trigger] m2.value(left, a) == m4.value(
                right,
                a,
            ),
    {
        assert forall|a: Seq<bool>| a.len() == m0.num_vars() implies #[trigger] m2.value(left, a)
            == m4.value(right, a) by {
            let aj = a.update(j, v);
            let gv = m0.value(g, aj);
            assert(m1.value(fg, aj) == m0.value(f, aj.update(i, gv)));
            assert(m3.value(gj, a) == gv);
            let ai = a.update(i, gv);
            assert(m3.value(fj, ai) == m0.value(f, ai.update(j, v)));
            assert(aj.update(i, gv) =~= ai.update(j, v));
        }
    }

    /// Quantifying the projection `x_i` over its own variable: `exists`
    /// gives true everywhere and `forall` false everywhere.
    pub proof fn lemma_quantify_own_var(
        m0: Manager,
        p: Bdd,
        i: int,
        m1: Manager,
        re: Bdd,
        m2: Manager,
        rf: Bdd,
    )
        requires
            0 <= i < m0.num_vars(),
            forall|a: Seq<bool>| a.len() == m0.num_vars() ==> #[trigger] m0.value(p, a) == a[i],
            forall|a: Seq<bool>|
                a.len() == m0.num_vars() ==> #[trigger] m1.value(re, a) == (m0.value(p, a.update(i, true))
                    || m0.value(p, a.update(i, false))),
            forall|a: Seq<bool>|
                a.len() == m0.num_vars() ==> #[trigger] m2.value(rf, a) == (m0.value(p, a.update(i, true))
                    && m0.value(p, a.update(i, false))),
        ensures
            forall|a: Seq<bool>| a.len() == m0.num_vars() ==> #[trigger] m1.value(re, a),
            forall|a: Seq<bool>| a.len() == m0.num_vars() ==> !#[trigger] m2.value(rf, a),
    {
        assert forall|a: Seq<bool>| a.len() == m0.num_vars() implies #[trigger] m1.value(re, a) by {
            assert(m0.value(p, a.update(i, true)) == a.update(i, true)[i]);
        }
        assert forall|a: Seq<bool>| a.len() == m0.num_vars() implies !#[trigger] m2.value(rf, a) by {
            assert(m0.value(p, a.update(i, false)) == a.update(i, false)[i]);
        }
    }

    /// Quantifying a constant leaves it unchanged.
    pub proof fn lemma_quantify_constant(
        m0: Manager,
        f: Bdd,
        c: bool,
        i: int,
        m1: Manager,
        re: Bdd,
        m2: Manager,
        rf: Bdd,
    )
        requires
            0 <= i < m0.num_vars(),
            forall|a: Seq<bool>| a.len() == m0.num_vars() ==> #[trigger] m0.value(f, a) == c,
            forall|a: Seq<bool>|
                a.len() == m0.num_vars() ==> #[trigger] m1.value(re, a) == (m0.value(f, a.update(i, true))
                    || m0.value(f, a.update(i, false))),
            forall|a: Seq<bool>|
                a.len() == m0.num_vars() ==> #[trigger] m2.value(rf, a) == (m0.value(f, a.update(i, true))
                    && m0.value(f, a.update(i, false))),
        ensures
            forall|a: Seq<bool>| a.len() == m0.num_vars() ==> #[trigger] m1.value(re, a) == c,
            forall|a: Seq<bool>| a.len() == m0.num_vars() ==> #[trigger] m2.value(rf, a) == c,
    {
        assert forall|a: Seq<bool>| a.len() == m0.num_vars() implies #[trigger] m1.value(re, a) == c by {
            assert(m0.value(f, a.update(i, true)) == c);
            assert(m0.value(f, a.update(i, false)) == c);
        }
        assert forall|a: Seq<bool>| a.len() == m0.num_vars() implies #[trigger] m2.value(rf, a) == c by {
            assert(m0.value(f, a.update(i, true)) == c);
            assert(m0.value(f, a.update(i, false)) == c);
        }
    }

    /// Restricting `x_i` at its own variable to `v` gives the constant
    /// `Bdd` of `v` itself.
    pub proof fn lemma_restrict_own_var_eq(
        mc: Manager,
        c: Bdd,
        v: bool,
        m0: Manager,
        p: Bdd,
        i: int,
        m1: Manager,
        r: Bdd,
    )
        requires
            mc.inv(),
            mc.valid(c),
            mc.is_canonical(c),
            forall|a: Seq<bool>| a.len() == mc.num_vars() ==> #[trigger] mc.value(c, a) == v,
            m1.inv(),
            m1.extends(mc),
            m1.extends(m0),
            m1.valid(r),
            m1.is_canonical(r),
            0 <= i < m0.num_vars(),
            forall|a: Seq<bool>| a.len() == m0.num_vars() ==> #[trigger] m0.value(p, a) == a[i],
            forall|a: Seq<bool>|
                a.len() == m0.num_vars() ==> #[trigger] m1.value(r, a) == m0.value(p, a.update(i, v)),
        ensures
            r == c,
    {
        Self::lemma_restrict_own_var(m0, p, i, v, m1, r);
        mc.lemma_reveal();
        m0.lemma_reveal();
        m1.lemma_reveal();
        Self::lemma_canonical_eq_across(mc, c, m1, r);
    }

    /// Restricting `x_j` at another variable gives back the `Bdd` of `x_j`.
    pub proof fn lemma_restrict_other_var_eq(
        m0: Manager,
        p: Bdd,
        i: int,
        j: int,
        v: bool,
        m1: Manager,
        r: Bdd,
    )
        requires
            m0.inv(),
            m0.valid(p),
            m0.is_canonical(p),
            m1.inv(),
            m1.extends(m0),
            m1.valid(r),
            m1.is_canonical(r),
            0 <= i < m0.num_vars(),
            0 <= j < m0.num_vars(),
            i != j,
            forall|a: Seq<bool>| a.len() == m0.num_vars() ==> #[trigger] m0.value(p, a) == a[j],
            forall|a: Seq<bool>|
                a.len() == m0.num_vars() ==> #[trigger] m1.value(r, a) == m0.value(p, a.update(i, v)),
        ensures
            r == p,
    {
        Self::lemma_restrict_other_var(m0, p, i, j, v, m1, r);
        Self::lemma_canonical_eq_across(m0, p, m1, r);
    }

    /// Composing with a constant gives the same `Bdd` as restricting to
    /// that constant afterwards.
    pub proof fn lemma_compose_constant_eq(
        m0: Manager,
        f: Bdd,
        g: Bdd,
        i: int,
        c: bool,
        m1: Manager,
        r1: Bdd,
        m2: Manager,
        r2: Bdd,
    )
        requires
            m1.inv(),
            m1.extends(m0),
            m1.valid(r1),
            m1.is_canonical(r1),
            m2.inv(),
            m2.extends(m1),
            m2.valid(r2),
            m2.is_canonical(r2),
            forall|a: Seq<bool>| a.len() == m0.num_vars() ==> #[trigger] m0.value(g, a) == c,
            forall|a: Seq<bool>|
                a.len() == m0.num_vars() ==> #[trigger] m1.value(r1, a) == m0.value(
                    f,
                    a.update(i, m0.value(g, a)),
                ),
            forall|a: Seq<bool>|
                a.len() == m0.num_vars() ==> #[trigger] m2.value(r2, a) == m0.value(f, a.update(i, c)),
        ensures
            r1 == r2,
    {
        Self::lemma_compose_constant(m0, f, g, i, c, m1, r1, m2, r2);
        m0.lemma_reveal();
        m1.lemma_reveal();
        Self::lemma_canonical_eq_across(m1, r1, m2, r2);
    }

    /// Composing with the projection of the same variable gives back the
    /// very `Bdd`.
    pub proof fn lemma_compose_own_var_eq(m0: Manager, f: Bdd, g: Bdd, i: int, m1: Manager, r: Bdd)
        requires
            m0.inv(),
            m0.valid(f),
            m0.is_canonical(f),
            m1.inv(),
            m1.extends(m0),
            m1.valid(r),
            m1.is_canonical(r),
            0 <= i < m0.num_vars(),
            forall|a: Seq<bool>| a.len() == m0.num_vars() ==> #[trigger] m0.value(g, a) == a[i],
            forall|a: Seq<bool>|
                a.len() == m0.num_vars() ==> #[trigger] m1.value(r, a) == m0.value(
                    f,
                    a.update(i, m0.value(g, a)),
                ),
        ensures
            r == f,
    {
        Self::lemma_compose_own_var(m0, f, g, i, m1, r);
        Self::lemma_canonical_eq_across(m0, f, m1, r);
    }

    /// Composition commutes with restricting another variable, as `Bdd`s:
    /// the restriction of the composition, built first, and the
    /// composition of the restrictions, built after it, are the same.
    pub proof fn lemma_compose_restrict_commute_eq(
        m0: Manager,
        f: Bdd,
        g: Bdd,
        i: int,
        j: int,
        v: bool,
        m1: Manager,
        fg: Bdd,
        m2: Manager,
        left: Bdd,
        m3: Manager,
        fj: Bdd,
        gj: Bdd,
        m4: Manager,
        right: Bdd,
    )
        requires
            m2.inv(),
            m2.extends(m0),
            m2.valid(left),
            m2.is_canonical(left),
            m4.inv(),
            m4.extends(m2),
            m4.valid(right),
            m4.is_canonical(right),
            0 <= i < m0.num_vars(),
            0 <= j < m0.num_vars(),
            i != j,
            forall|a: Seq<bool>|
                a.len() == m0.num_vars() ==> #[trigger] m1.value(fg, a) == m0.value(
                    f,
                    a.update(i, m0.value(g, a)),
                ),
            forall|a: Seq<bool>|
                a.len() == m0.num_vars() ==> #[trigger] m2.value(left, a) == m1.value(fg, a.update(j, v)),
            forall|a: Seq<bool>|
                a.len() == m0.num_vars() ==> #[trigger] m3.value(fj, a) == m0.value(f, a.update(j, v)),
            forall|a: Seq<bool>|
                a.len() == m0.num_vars() ==> #[trigger] m3.value(gj, a) == m0.value(g, a.update(j, v)),
            forall|a: Seq<bool>|
                a.len() == m0.num_vars() ==> #[trigger] m4.value(right, a) == m3.value(
                    fj,
                    a.update(i, m3.value(gj, a)),
                ),
        ensures
            left == right,
    {
        Self::lemma_compose_restrict_commute(m0, f, g, i, j, v, m1, fg, m2, left, m3, fj, gj, m4, right);
        m0.lemma_reveal();
        m2.lemma_reveal();
        Self::lemma_canonical_eq_across(m2, left, m4, right);
    }

    /// Quantifying `x_i` over its own variable gives the constant `Bdd`s:
    /// `exists` the true one and `forall` the false one.
    pub proof fn lemma_quantify_own_var_eq(
        mc: Manager,
        t: Bdd,
        ff: Bdd,
        m0: Manager,
        p: Bdd,
        i: int,
        m1: Manager,
        re: Bdd,
        m2: Manager,
        rf: Bdd,
    )
        requires
            mc.inv(),
            mc.valid(t),
            mc.valid(ff),
            mc.is_canonical(t),
            mc.is_canonical(ff),
            forall|a: Seq<bool>| a.len() == mc.num_vars() ==> #[trigger] mc.value(t, a),
            forall|a: Seq<bool>| a.len() == mc.num_vars() ==> !#[trigger] mc.value(ff, a),
            m1.inv(),
            m1.extends(mc),
            m1.extends(m0),
            m1.valid(re),
            m1.is_canonical(re),
            m2.inv(),
            m2.extends(mc),
            m2.valid(rf),
            m2.is_canonical(rf),
            0 <= i < m0.num_vars(),
            forall|a: Seq<bool>| a.len() == m0.num_vars() ==> #[trigger] m0.value(p, a) == a[i],
            forall|a: Seq<bool>|
                a.len() == m0.num_vars() ==> #[trigger] m1.value(re, a) == (m0.value(p, a.update(i, true))
                    || m0.value(p, a.update(i, false))),
            forall|a: Seq<bool>|
                a.len() == m0.num_vars() ==> #[trigger] m2.value(rf, a) == (m0.value(p, a.update(i, true))
                    && m0.value(p, a.update(i, false))),
        ensures
            re == t,
            rf == ff,
    {
        Self::lemma_quantify_own_var(m0, p, i, m1, re, m2, rf);
        mc.lemma_reveal();
        m0.lemma_reveal();
        m1.lemma_reveal();
        m2.lemma_reveal();
        Self::lemma_canonical_eq_across(mc, t, m1, re);
        Self::lemma_canonical_eq_across(mc, ff, m2, rf);
    }

    /// Quantifying a constant gives back the very `Bdd`.
    pub proof fn lemma_quantify_constant_eq(
        m0: Manager,
        f: Bdd,
        c: bool,
        i: int,
        m1: Manager,
        re: Bdd,
        m2: Manager,
        rf: Bdd,
    )
        requires
            m0.inv(),
            m0.valid(f),
            m0.is_canonical(f),
            m1.inv(),
            m1.extends(m0),
            m1.valid(re),
            m1.is_canonical(re),
            m2.inv(),
            m2.extends(m0),
            m2.valid(rf),
            m2.is_canonical(rf),
            0 <= i < m0.num_vars(),
            forall|a: Seq<bool>| a.len() == m0.num_vars() ==> #[trigger] m0.value(f, a) == c,
            forall|a: Seq<bool>|
                a.len() == m0.num_vars() ==> #[trigger] m1.value(re, a) == (m0.value(f, a.update(i, true))
                    || m0.value(f, a.update(i, false))),
            forall|a: Seq<bool>|
                a.len() == m0.num_vars() ==> #[trigger] m2.value(rf, a) == (m0.value(f, a.update(i, true))
                    && m0.value(f, a.update(i, false))),
        ensures
            re == f,
            rf == f,
    {
        Self::lemma_quantify_constant(m0, f, c, i, m1, re, m2, rf);
        Self::lemma_canonical_eq_across(m0, f, m1, re);
        Self::lemma_canonical_eq_across(m0, f, m2, rf);
    }
}

} // verus!
