//! `Manager`: the aggregate root for the canonical CFLOBDD store, dedup
//! tables, and memo caches.
//!
//! A CFLOBDD is split into a *grounded node* (`NodeId`), which sends every
//! assignment to one of its exits, and a *value map* (`ReturnMapId`), which
//! gives the function's value (0 or 1) at each exit.

use crate::node::{
    bconn_view, BConnVec, Connection, NodeId, NodeRecord, NodeStore, DONT_CARE, FORK,
};
use crate::return_map::{holds_map, rmv_view, ReturnMapId, ReturnMapStore, ReturnMapVec};
use crate::semantics::{
    bconn_ok, conn_ok, exit_at, extends_seq, half_width, identity_seq, internal_exit,
    lemma_exit_bound, lemma_exit_extends, lemma_record_ok_by_key, lemma_record_ok_extends, lemma_exit_internal, lemma_single_exit,
    lemma_store_wf_extends, level_of, node_ok, num_exits_of, record_key, record_ok, same_record,
    store_wf, vars_at, distinct, lemma_identity_reduction_ok,
};
use crate::pair_product::PairProductCache;
use crate::path_count::PathCountCache;
use crate::canonical::{
    canonical, concat_maps, keys_unique, lemma_canonical_extends, lemma_canonical_intro,
    lemma_canonical_single, lemma_canonical_unique, lemma_concat_two, lemma_exits_reached,
    maps_unique,
};
use crate::reduce::pair_table_new;
use rustc_hash::FxBuildHasher;
use std::collections::HashMap;
use vstd::arithmetic::power2::pow2;
use vstd::prelude::*;

verus! {

/// A user-facing CFLOBDD: a (root node, value map) pair, both interned.
///
/// `Bdd` is `Copy`. Its meaning is only valid relative to the `Manager`
/// that produced it.
#[derive(Clone, Copy, PartialEq, Eq, Structural, Hash, Debug)]
pub struct Bdd {
    pub(crate) root: NodeId,
    pub(crate) values: ReturnMapId,
}

impl Bdd {
    /// The id number of the root node.
    pub closed spec fn root_index(self) -> usize {
        self.root.0
    }
}

/// The aggregate root.
pub struct Manager {
    pub(crate) nodes: NodeStore,
    pub(crate) return_maps: ReturnMapStore,
    /// The top level: every `Bdd` built here has its root at exactly this
    /// level, over `2^level` variables.
    pub(crate) level: u8,
    /// Cache of `NoDistinctionNode[k]` for k in 0..=level. Populated lazily.
    pub(crate) no_distinction: Vec<Option<NodeId>>,
    /// Reduce memo cache: (node, reduction-map id) -> reduced node.
    pub(crate) reduce_cache: HashMap<(usize, usize), usize, FxBuildHasher>,
    /// PairProduct memo cache: keyed on (n1, n2). Symmetric lookup (we also
    /// check (n2, n1) and flip).
    pub(crate) pair_product_cache: PairProductCache,
    /// Path-count memo cache: node id -> per-exit path counts.
    pub(crate) path_counts: PathCountCache,
}

/// The return maps `[0]`, `[1]` and `[0, 1]` sit at ids 0, 1 and 2.
pub(crate) open spec fn common_maps(maps: Seq<Seq<usize>>) -> bool {
    &&& maps.len() >= 3
    &&& maps[0] == seq![0usize]
    &&& maps[1] == seq![1usize]
    &&& maps[2] == identity_seq(2)
}

/// `id` is a stored canonical node of level `k` with a single exit.
pub(crate) open spec fn single_canonical(recs: Seq<NodeRecord>, maps: Seq<Seq<usize>>, k: nat, id: usize) -> bool {
    &&& node_ok(recs, id, k)
    &&& num_exits_of(recs[id as int]) == 1
    &&& canonical(recs, maps, k, id)
}

impl Manager {
    pub(crate) open spec fn recs(&self) -> Seq<NodeRecord> {
        self.nodes.recs()
    }

    pub(crate) open spec fn maps(&self) -> Seq<Seq<usize>> {
        self.return_maps.maps()
    }

    pub(crate) open spec fn top(&self) -> nat {
        self.level as nat
    }

    /// The store is well formed, every node lies at or below the top level,
    /// and the no-distinction cache holds single-exit nodes of the right
    /// levels.
    pub(crate) open spec fn wf(&self) -> bool {
        let recs = self.recs();
        let maps = self.maps();
        &&& self.nodes.inv()
        &&& self.return_maps.inv()
        &&& store_wf(recs, maps)
        &&& 1 <= self.level <= 30
        &&& forall|i: int| 0 <= i < recs.len() ==> level_of(#[trigger] recs[i]) <= self.level
        &&& self.no_distinction@.len() == self.level + 1
        &&& self.caches_wf()
        &&& common_maps(maps)
    }

    /// The no-distinction cache holds canonical single-exit nodes of the
    /// right levels.
    pub(crate) open spec fn nd_cache_wf(&self) -> bool {
        let recs = self.recs();
        let maps = self.maps();
        forall|k: int|
            0 <= k <= self.level ==> (#[trigger] self.no_distinction@[k] matches Some(id) ==> (
            node_ok(recs, id.0, k as nat) && num_exits_of(recs[id.0 as int]) == 1 && canonical(
                recs,
                maps,
                k as nat,
                id.0,
            )))
    }

    /// Every memo cache holds correct results only.
    pub(crate) open spec fn caches_wf(&self) -> bool {
        &&& self.reduce_cache_wf()
        &&& self.pp_cache_wf()
        &&& self.path_cache_wf()
        &&& self.nd_cache_wf()
    }

    /// The memo caches stay correct as the store grows.
    pub(crate) proof fn lemma_caches_grow(earlier: Manager, later: Manager)
        requires
            earlier.wf(),
            later.grows_from(earlier),
            later.reduce_cache == earlier.reduce_cache,
            later.pair_product_cache == earlier.pair_product_cache,
            later.path_counts == earlier.path_counts,
            later.no_distinction == earlier.no_distinction,
        ensures
            later.caches_wf(),
    {
        Self::lemma_reduce_cache_grows(earlier, later);
        Self::lemma_pp_cache_grows(earlier, later);
        Self::lemma_path_cache_grows(earlier, later);
        assert forall|k: int| 0 <= k <= later.level implies (
        #[trigger] later.no_distinction@[k] matches Some(id) ==> (node_ok(later.recs(), id.0, k as nat)
            && num_exits_of(later.recs()[id.0 as int]) == 1 && canonical(
            later.recs(),
            later.maps(),
            k as nat,
            id.0,
        ))) by {
            if let Some(id) = later.no_distinction@[k] {
                assert(earlier.no_distinction@[k] == later.no_distinction@[k]);
                assert(later.recs()[id.0 as int] == earlier.recs()[id.0 as int]);
                lemma_canonical_extends(
                    earlier.recs(),
                    earlier.maps(),
                    later.recs(),
                    later.maps(),
                    k as nat,
                    id.0,
                );
            }
        }
    }

    /// `self` holds every node and return map of `earlier`, unchanged, at
    /// the same top level.
    pub(crate) open spec fn grows_from(&self, earlier: Manager) -> bool {
        &&& extends_seq(earlier.recs(), self.recs())
        &&& extends_seq(earlier.maps(), self.maps())
        &&& self.level == earlier.level
    }

    /// `f` is a top-level root with a 0/1 value for each of its exits.
    pub(crate) open spec fn bdd_wf(&self, f: Bdd) -> bool {
        &&& node_ok(self.recs(), f.root.0, self.top())
        &&& f.values.0 < self.maps().len()
        &&& self.maps()[f.values.0 as int].len() == num_exits_of(self.recs()[f.root.0 as int])
        &&& forall|i: int|
            0 <= i < self.maps()[f.values.0 as int].len() ==> #[trigger] self.maps()[f.values.0 as int][i]
                <= 1
    }

    /// The value of `f` on the assignment `a`.
    pub(crate) open spec fn bdd_value(&self, f: Bdd, a: Seq<bool>) -> bool {
        self.maps()[f.values.0 as int][exit_at(self.recs(), self.maps(), self.top(), f.root.0, a) as int]
            != 0
    }

    /// `f` is in canonical form: its root is a canonical node and its
    /// value map gives distinct values to distinct exits.
    pub(crate) open spec fn bdd_canonical(&self, f: Bdd) -> bool {
        &&& canonical(self.recs(), self.maps(), self.top(), f.root.0)
        &&& distinct(self.maps()[f.values.0 as int])
    }

    /// `f` is in canonical form, which every constructor of this manager
    /// produces and every operation keeps; canonical `Bdd`s that denote the
    /// same function are equal.
    pub closed spec fn is_canonical(&self, f: Bdd) -> bool {
        self.bdd_canonical(f)
    }

    /// Stored nodes and return maps are hash-consed.
    pub(crate) proof fn lemma_stores_unique(&self)
        requires
            self.wf(),
        ensures
            keys_unique(self.recs()),
            maps_unique(self.maps()),
    {
        assert forall|i: int, j: int|
            0 <= i < self.recs().len() && 0 <= j < self.recs().len() && #[trigger] same_record(
                self.recs()[i],
                self.recs()[j],
            ) implies i == j by {
            self.nodes.lemma_unique(i, j);
        }
        assert forall|i: int, j: int|
            0 <= i < self.maps().len() && 0 <= j < self.maps().len() && #[trigger] self.maps()[i]
                == #[trigger] self.maps()[j] implies i == j by {
            self.return_maps.lemma_unique(i, j);
        }
    }

    /// Canonicity: canonical `Bdd`s of a manager that denote the same
    /// function are the same `Bdd`.
    pub proof fn lemma_canonical_eq(&self, f: Bdd, g: Bdd)
        requires
            self.inv(),
            self.valid(f),
            self.valid(g),
            self.is_canonical(f),
            self.is_canonical(g),
            forall|a: Seq<bool>| a.len() == self.num_vars() ==> #[trigger] self.value(f, a) == self.value(g, a),
        ensures
            f == g,
    {
        self.lemma_reveal();
        self.lemma_stores_unique();
        let recs = self.recs();
        let maps = self.maps();
        let lv = self.top();
        let vf = maps[f.values.0 as int];
        let vg = maps[g.values.0 as int];
        let pi = |x: nat| choose|y: nat| y < vf.len() && vf[y as int] == vg[x as int];
        assert forall|x: nat| x < vg.len() implies #[trigger] pi(x) < vf.len() && vf[pi(x) as int] == vg[x as int] by {
            lemma_exits_reached(recs, maps, lv, g.root.0, x as int);
            let a = choose|a: Seq<bool>| a.len() == vars_at(lv) && #[trigger] exit_at(recs, maps, lv, g.root.0, a) == x;
            assert(self.value(f, a) == self.value(g, a));
            lemma_exit_bound(recs, maps, lv, f.root.0, a);
            let y = exit_at(recs, maps, lv, f.root.0, a);
            assert(vf[y as int] <= 1 && vg[x as int] <= 1);
            assert(y < vf.len() && vf[y as int] == vg[x as int]);
        }
        assert forall|a: Seq<bool>| a.len() == vars_at(lv) implies #[trigger] exit_at(recs, maps, lv, f.root.0, a)
            == pi(exit_at(recs, maps, lv, g.root.0, a)) by {
            lemma_exit_bound(recs, maps, lv, f.root.0, a);
            lemma_exit_bound(recs, maps, lv, g.root.0, a);
            let x = exit_at(recs, maps, lv, g.root.0, a);
            let y = exit_at(recs, maps, lv, f.root.0, a);
            assert(self.value(f, a) == self.value(g, a));
            assert(vf[y as int] <= 1 && vg[x as int] <= 1);
            assert(vf[pi(x) as int] == vg[x as int]);
        }
        assert forall|x: nat, y: nat| x < vg.len() && y < vg.len() && #[trigger] pi(x) == #[trigger] pi(y) implies x == y by {
            assert(vf[pi(x) as int] == vg[x as int]);
            assert(vf[pi(y) as int] == vg[y as int]);
        }
        lemma_canonical_unique(recs, maps, lv, f.root.0, g.root.0, pi);
        assert forall|x: int| 0 <= x < vg.len() implies vf[x] == vg[x] by {
            assert(pi(x as nat) == x);
            assert(vf[pi(x as nat) as int] == vg[x]);
        }
        assert(vf =~= vg);
        assert(f.values.0 == g.values.0);
    }

    /// The manager is well formed.
    pub closed spec fn inv(&self) -> bool {
        self.wf()
    }

    /// The number of variables of every `Bdd` of this manager: `2^level`.
    pub closed spec fn num_vars(&self) -> nat {
        vars_at(self.top())
    }

    /// The top level this manager was created at.
    pub closed spec fn top_level(&self) -> nat {
        self.top()
    }

    /// The number of stored nodes.
    pub closed spec fn stored_nodes(&self) -> nat {
        self.recs().len()
    }

    /// The number of stored return maps.
    pub closed spec fn stored_maps(&self) -> nat {
        self.maps().len()
    }

    /// `f` was built by this manager (or by an earlier state of it).
    pub closed spec fn valid(&self, f: Bdd) -> bool {
        self.bdd_wf(f)
    }

    /// The boolean function that `f` denotes, applied to `a`.
    pub closed spec fn value(&self, f: Bdd, a: Seq<bool>) -> bool {
        self.bdd_value(f, a)
    }

    /// `self` is a later state of `earlier`: it keeps all of its nodes and
    /// return maps.
    pub closed spec fn extends(&self, earlier: Manager) -> bool {
        self.grows_from(earlier)
    }

    pub(crate) proof fn lemma_reveal(&self)
        ensures
            self.inv() == self.wf(),
            self.num_vars() == vars_at(self.top()),
            self.top_level() == self.top(),
            self.stored_nodes() == self.recs().len(),
            self.stored_maps() == self.maps().len(),
            forall|f: Bdd| #[trigger] self.valid(f) == self.bdd_wf(f),
            forall|f: Bdd| #[trigger] f.root_index() == f.root.0,
            forall|f: Bdd| #[trigger] self.is_canonical(f) == self.bdd_canonical(f),
            forall|f: Bdd, a: Seq<bool>| #[trigger] self.value(f, a) == self.bdd_value(f, a),
            forall|e: Manager| #[trigger] self.extends(e) == self.grows_from(e),
    {
    }

    /// A later state of a manager holds every `Bdd` of an earlier state,
    /// with the same meaning, over the same variables.
    pub proof fn lemma_extends_keeps(later: Manager, earlier: Manager, f: Bdd)
        requires
            earlier.inv(),
            later.extends(earlier),
            earlier.valid(f),
        ensures
            later.valid(f),
            later.num_vars() == earlier.num_vars(),
            later.top_level() == earlier.top_level(),
            forall|a: Seq<bool>| #[trigger] later.value(f, a) == earlier.value(f, a),
            earlier.is_canonical(f) ==> later.is_canonical(f),
    {
        later.lemma_grows_keeps(earlier, f);
        later.lemma_reveal();
        earlier.lemma_reveal();
        if earlier.bdd_canonical(f) {
            lemma_canonical_extends(
                earlier.recs(),
                earlier.maps(),
                later.recs(),
                later.maps(),
                earlier.top(),
                f.root.0,
            );
            assert(later.maps()[f.values.0 as int] == earlier.maps()[f.values.0 as int]);
        }
    }

    /// A canonical `Bdd` built earlier and a canonical `Bdd` built later by
    /// the same manager that denote the same function are the same `Bdd`.
    pub proof fn lemma_canonical_eq_across(earlier: Manager, f: Bdd, later: Manager, g: Bdd)
        requires
            earlier.inv(),
            earlier.valid(f),
            earlier.is_canonical(f),
            later.inv(),
            later.extends(earlier),
            later.valid(g),
            later.is_canonical(g),
            forall|a: Seq<bool>|
                a.len() == earlier.num_vars() ==> #[trigger] earlier.value(f, a) == later.value(g, a),
        ensures
            f == g,
    {
        Self::lemma_extends_keeps(later, earlier, f);
        assert forall|a: Seq<bool>| a.len() == later.num_vars() implies #[trigger] later.value(f, a)
            == later.value(g, a) by {
            assert(earlier.value(f, a) == later.value(g, a));
        }
        later.lemma_canonical_eq(f, g);
    }

    /// Stored nodes `i` and `j` are the same leaf, or internal nodes with
    /// the same level, exit count, A-connection and B-connections.
    pub closed spec fn same_structure(&self, i: usize, j: usize) -> bool {
        same_record(self.recs()[i as int], self.recs()[j as int])
    }

    /// Hash-consing: a stored node is determined by its structure, so
    /// structurally equal subgraphs share a single id.
    pub proof fn lemma_hash_consed(&self, i: usize, j: usize)
        requires
            self.inv(),
            i < self.stored_nodes(),
            j < self.stored_nodes(),
            self.same_structure(i, j),
        ensures
            i == j,
    {
        self.nodes.lemma_unique(i as int, j as int);
    }

    /// A later state addresses the same variables at the same top level.
    pub proof fn lemma_extends_vars(later: Manager, earlier: Manager)
        requires
            later.extends(earlier),
        ensures
            later.num_vars() == earlier.num_vars(),
            later.top_level() == earlier.top_level(),
    {
        later.lemma_reveal();
        earlier.lemma_reveal();
    }

    /// Being a later state is transitive.
    pub proof fn lemma_extends_trans(m1: Manager, m2: Manager, m3: Manager)
        requires
            m2.extends(m1),
            m3.extends(m2),
        ensures
            m3.extends(m1),
    {
    }

    /// Growing keeps the meaning of every `Bdd` built earlier.
    pub(crate) proof fn lemma_grows_keeps(&self, earlier: Manager, f: Bdd)
        requires
            earlier.wf(),
            self.grows_from(earlier),
            earlier.bdd_wf(f),
        ensures
            self.bdd_wf(f),
            forall|a: Seq<bool>| self.bdd_value(f, a) == earlier.bdd_value(f, a),
            forall|a: Seq<bool>|
                #[trigger] exit_at(self.recs(), self.maps(), self.top(), f.root.0, a) == exit_at(
                    earlier.recs(),
                    earlier.maps(),
                    earlier.top(),
                    f.root.0,
                    a,
                ),
    {
        assert(self.maps()[f.values.0 as int] == earlier.maps()[f.values.0 as int]);
        assert forall|a: Seq<bool>| #[trigger]
            exit_at(self.recs(), self.maps(), self.top(), f.root.0, a) == exit_at(
                earlier.recs(),
                earlier.maps(),
                earlier.top(),
                f.root.0,
                a,
            ) by {
            lemma_exit_extends(
                earlier.recs(),
                earlier.maps(),
                self.recs(),
                self.maps(),
                self.top(),
                f.root.0,
                a,
            );
        }
    }

    /// Growing is transitive.
    pub(crate) proof fn lemma_grows_trans(m1: Manager, m2: Manager, m3: Manager)
        requires
            m2.grows_from(m1),
            m3.grows_from(m2),
        ensures
            m3.grows_from(m1),
    {
    }

    /// A store holds at most one canonical single-exit node of each level.
    pub(crate) proof fn lemma_single_unique(&self, k: nat, i: usize, j: usize)
        requires
            self.wf(),
            single_canonical(self.recs(), self.maps(), k, i),
            single_canonical(self.recs(), self.maps(), k, j),
        ensures
            i == j,
    {
        self.lemma_stores_unique();
        let recs = self.recs();
        let maps = self.maps();
        let pi = |x: nat| x;
        assert forall|a: Seq<bool>| a.len() == vars_at(k) implies #[trigger] exit_at(recs, maps, k, i, a)
            == pi(exit_at(recs, maps, k, j, a)) by {
            lemma_single_exit(recs, maps, k, i, a);
            lemma_single_exit(recs, maps, k, j, a);
        }
        lemma_canonical_unique(recs, maps, k, i, j, pi);
    }

    /// A canonical single-exit node of a later state is the one of its
    /// level that an earlier state held, if it held one.
    pub(crate) proof fn lemma_single_kept(s0: Manager, s: Manager, k: nat, r: usize)
        requires
            s0.wf(),
            s.wf(),
            s.grows_from(s0),
            single_canonical(s.recs(), s.maps(), k, r),
        ensures
            forall|j: usize| #[trigger] single_canonical(s0.recs(), s0.maps(), k, j) ==> r == j,
    {
        assert forall|j: usize| #[trigger] single_canonical(s0.recs(), s0.maps(), k, j) implies r == j by {
            lemma_canonical_extends(s0.recs(), s0.maps(), s.recs(), s.maps(), k, j);
            assert(s.recs()[j as int] == s0.recs()[j as int]);
            s.lemma_single_unique(k, r, j);
        }
    }

    /// The common return maps are stored.
    pub(crate) proof fn lemma_common_stored(&self)
        requires
            self.wf(),
        ensures
            holds_map(self.maps(), seq![0usize]),
            holds_map(self.maps(), seq![1usize]),
            holds_map(self.maps(), identity_seq(2)),
    {
        reveal(holds_map);
        assert(self.maps()[0] == seq![0usize]);
        assert(self.maps()[1] == seq![1usize]);
        assert(self.maps()[2] == identity_seq(2));
    }

    /// Every state grows from itself.
    pub(crate) proof fn lemma_grows_refl(m: Manager)
        ensures
            m.grows_from(m),
    {
    }

    /// Create a manager fixed at the given top level. Total addressable
    /// variables = `2^level`.
    pub fn new(level: u8) -> (r: Self)
        requires
            1 <= level <= 30,
        ensures
            r.inv(),
            r.top_level() == level,
            r.num_vars() == pow2(level as nat),
            r.stored_nodes() == 2,
            r.stored_maps() == 3,
    {
        let mut no_distinction: Vec<Option<NodeId>> = Vec::new();
        let mut k: u8 = 0;
        while k <= level
            invariant
                k <= level + 1,
                level <= 30,
                no_distinction@.len() == k,
                forall|j: int| 0 <= j < k ==> #[trigger] no_distinction@[j] is None,
            decreases level + 1 - k,
        {
            no_distinction.push(None);
            k = k + 1;
        }
        // Pre-intern the common return maps [0], [1] and [0, 1].
        let mut return_maps = ReturnMapStore::new();
        let z = return_maps.singleton(0);
        let o = return_maps.singleton(1);
        let zo = return_maps.identity(2);
        proof {
            let maps = return_maps.maps();
            assert(maps[z.0 as int] == seq![0usize]);
            assert(maps[o.0 as int] != maps[z.0 as int]) by {
                assert(maps[o.0 as int][0] == 1);
            }
            assert(maps[zo.0 as int].len() == 2);
            assert(maps.len() == 3);
            assert(z.0 == 0 && o.0 == 1 && zo.0 == 2);
            assert(common_maps(maps));
        }
        let r = Self {
            nodes: NodeStore::new(),
            return_maps,
            level,
            no_distinction,
            reduce_cache: pair_table_new(),
            pair_product_cache: PairProductCache::new(),
            path_counts: PathCountCache::new(),
        };
        proof {
            let recs = r.recs();
            assert(recs[0] is DontCare && recs[1] is Fork);
            assert(store_wf(recs, r.maps()));
            r.lemma_reveal();
        }
        r
    }

    /// The top level this manager was constructed at.
    pub fn level(&self) -> (r: u8)
        ensures
            r == self.top_level(),
    {
        self.level
    }

    /// Total addressable variables: `2^level`.
    pub fn total_vars(&self) -> (r: u32)
        requires
            self.inv(),
        ensures
            r == self.num_vars(),
    {
        half_width(self.level + 1)
    }

    /// Number of nodes in the store (both leaves included).
    pub fn node_count(&self) -> (r: usize)
        ensures
            r == self.stored_nodes(),
    {
        self.nodes.count()
    }

    /// Number of return maps in the store.
    pub fn return_map_count(&self) -> (r: usize)
        ensures
            r == self.stored_maps(),
    {
        self.return_maps.count()
    }

    // -- Growing the store ---------------------------------------------
    /// Hash-cons a return-map body.
    pub(crate) fn rm_intern(&mut self, body: ReturnMapVec) -> (r: ReturnMapId)
        requires
            old(self).wf(),
        ensures
            final(self).wf(),
            final(self).grows_from(*old(self)),
            final(self).recs() == old(self).recs(),
            final(self).maps().len() <= old(self).maps().len() + 1,
            r.0 < final(self).maps().len(),
            final(self).maps()[r.0 as int] == rmv_view(body),
            holds_map(old(self).maps(), rmv_view(body)) ==> *final(self) == *old(self),
    {
        let ghost old_self = *self;
        let r = self.return_maps.intern(body);
        proof {
            lemma_store_wf_extends(old_self.recs(), old_self.maps(), self.recs(), self.maps());
            Self::lemma_caches_grow(old_self, *self);
        }
        r
    }

    pub(crate) fn rm_identity(&mut self, n: usize) -> (r: ReturnMapId)
        requires
            old(self).wf(),
        ensures
            final(self).wf(),
            final(self).grows_from(*old(self)),
            final(self).recs() == old(self).recs(),
            final(self).maps().len() <= old(self).maps().len() + 1,
            r.0 < final(self).maps().len(),
            final(self).maps()[r.0 as int] == identity_seq(n as nat),
            holds_map(old(self).maps(), identity_seq(n as nat)) ==> *final(self) == *old(self),
    {
        let ghost old_self = *self;
        let r = self.return_maps.identity(n);
        proof {
            lemma_store_wf_extends(old_self.recs(), old_self.maps(), self.recs(), self.maps());
            Self::lemma_caches_grow(old_self, *self);
        }
        r
    }

    pub(crate) fn rm_singleton(&mut self, value: usize) -> (r: ReturnMapId)
        requires
            old(self).wf(),
        ensures
            final(self).wf(),
            final(self).grows_from(*old(self)),
            final(self).recs() == old(self).recs(),
            final(self).maps().len() <= old(self).maps().len() + 1,
            r.0 < final(self).maps().len(),
            final(self).maps()[r.0 as int] == seq![value],
            holds_map(old(self).maps(), seq![value]) ==> *final(self) == *old(self),
    {
        let ghost old_self = *self;
        let r = self.return_maps.singleton(value);
        proof {
            lemma_store_wf_extends(old_self.recs(), old_self.maps(), self.recs(), self.maps());
            Self::lemma_caches_grow(old_self, *self);
        }
        r
    }

    pub(crate) fn rm_body(&self, id: ReturnMapId) -> (r: &ReturnMapVec)
        requires
            id.0 < self.maps().len(),
        ensures
            rmv_view(*r) == self.maps()[id.0 as int],
    {
        self.return_maps.body(id)
    }

    /// Hash-cons an internal node whose children are already stored.
    pub(crate) fn node_intern(
        &mut self,
        level: u8,
        num_exits: usize,
        a_conn: Connection,
        b_conns: BConnVec,
    ) -> (r: NodeId)
        requires
            old(self).wf(),
            level <= old(self).level,
            record_ok(
                old(self).recs(),
                old(self).maps(),
                old(self).recs().len() as int,
                NodeRecord::Internal { level, num_exits, a_conn, b_conns },
            ),
        ensures
            final(self).wf(),
            final(self).grows_from(*old(self)),
            final(self).maps() == old(self).maps(),
            2 <= r.0 < final(self).recs().len(),
            record_key(final(self).recs()[r.0 as int]) == (level, num_exits, a_conn, bconn_view(
                b_conns,
            )),
            final(self).recs()[r.0 as int] is Internal,
            level_of(final(self).recs()[r.0 as int]) == level,
            num_exits_of(final(self).recs()[r.0 as int]) == num_exits,
            r.0 < old(self).recs().len() ==> final(self).recs() == old(self).recs(),
    {
        let ghost old_self = *self;
        let ghost rec = NodeRecord::Internal { level, num_exits, a_conn, b_conns };
        let r = self.nodes.intern_internal(level, num_exits, a_conn, b_conns);
        proof {
            if r.0 < old_self.recs().len() {
                assert(self.recs() =~= old_self.recs());
            }
            let recs = self.recs();
            let maps = self.maps();
            assert(recs[r.0 as int] is Internal);
            assert forall|i: int| old_self.recs().len() <= i < recs.len() implies #[trigger] record_ok(
                recs,
                maps,
                i,
                recs[i],
            ) by {
                lemma_record_ok_extends(old_self.recs(), old_self.maps(), recs, maps, i, rec);
                lemma_record_ok_by_key(recs, maps, i, rec, recs[i]);
            }
            lemma_store_wf_extends(old_self.recs(), old_self.maps(), recs, maps);
            Self::lemma_caches_grow(old_self, *self);
            assert forall|i: int| 0 <= i < recs.len() implies level_of(#[trigger] recs[i])
                <= self.level by {
                if i < old_self.recs().len() {
                    assert(recs[i] == old_self.recs()[i]);
                }
            }
        }
        r
    }

    /// A stored node keeps its level, exit count and exits as the store
    /// grows.
    pub(crate) proof fn lemma_node_keeps(later: Manager, earlier: Manager, level: nat, id: usize)
        requires
            earlier.wf(),
            later.grows_from(earlier),
            node_ok(earlier.recs(), id, level),
        ensures
            node_ok(later.recs(), id, level),
            later.recs()[id as int] == earlier.recs()[id as int],
            forall|a: Seq<bool>|
                #[trigger] exit_at(later.recs(), later.maps(), level, id, a) == exit_at(
                    earlier.recs(),
                    earlier.maps(),
                    level,
                    id,
                    a,
                ),
    {
        assert forall|a: Seq<bool>| #[trigger]
            exit_at(later.recs(), later.maps(), level, id, a) == exit_at(
                earlier.recs(),
                earlier.maps(),
                level,
                id,
                a,
            ) by {
            lemma_exit_extends(earlier.recs(), earlier.maps(), later.recs(), later.maps(), level, id, a);
        }
    }

    // -- NoDistinction helpers (level-k all-don't-care) ---------------
    /// `NoDistinctionNode[k]`: the level-k node whose function is constant
    /// (all paths go to a single exit, exit 0).
    pub(crate) fn no_distinction(&mut self, k: u8) -> (r: NodeId)
        requires
            old(self).wf(),
            k <= old(self).level,
        ensures
            final(self).wf(),
            final(self).grows_from(*old(self)),
            node_ok(final(self).recs(), r.0, k as nat),
            num_exits_of(final(self).recs()[r.0 as int]) == 1,
            canonical(final(self).recs(), final(self).maps(), k as nat, r.0),
            final(self).maps() == old(self).maps(),
            r.0 < old(self).recs().len() ==> final(self).recs() == old(self).recs(),
            forall|j: usize| #[trigger] single_canonical(old(self).recs(), old(self).maps(), k as nat, j)
                ==> r.0 == j,
        decreases k,
    {
        if k == 0 {
            proof {
                Self::lemma_grows_refl(*self);
                Self::lemma_single_kept(*self, *self, 0, DONT_CARE);
            }
            return NodeId(DONT_CARE);
        }
        if let Some(id) = self.no_distinction[k as usize] {
            proof {
                assert(self.nd_cache_wf());
                Self::lemma_grows_refl(*self);
                Self::lemma_single_kept(*self, *self, k as nat, id.0);
            }
            return id;
        }
        let ghost s0 = *self;
        let child = self.no_distinction(k - 1);
        let ghost s1 = *self;
        proof {
            self.lemma_common_stored();
        }
        let map = self.rm_singleton(0);
        let a = Connection { target: child, return_map: map };
        let mut b_conns = BConnVec::new();
        b_conns.push(Connection { target: child, return_map: map });
        proof {
            let recs = self.recs();
            let maps = self.maps();
            assert(maps[map.0 as int] =~= identity_seq(1));
            let bs = bconn_view(b_conns);
            assert(bconn_ok(recs, maps, recs.len() as int, (k - 1) as nat, 1, bs[0]));
            assert(record_ok(
                recs,
                maps,
                recs.len() as int,
                NodeRecord::Internal { level: k, num_exits: 1, a_conn: a, b_conns },
            ));
        }
        let ghost s15 = *self;
        let ghost bv = bconn_view(b_conns);
        let id = self.node_intern(k, 1, a, b_conns);
        let ghost s2 = *self;
        proof {
            let recs = self.recs();
            let maps = self.maps();
            Self::lemma_grows_trans(s1, s15, s2);
            lemma_canonical_extends(s1.recs(), s1.maps(), recs, maps, (k - 1) as nat, child.0);
            assert(bv =~= seq![a]);
            assert(maps[map.0 as int] == s15.maps()[map.0 as int]);
            assert(maps[map.0 as int] =~= seq![0usize]);
            lemma_canonical_single(recs, maps, k as nat, id.0);
        }
        self.no_distinction.set(k as usize, Some(id));
        proof {
            let recs = self.recs();
            let maps = self.maps();
            assert forall|j: int| 0 <= j <= self.level implies (
            #[trigger] self.no_distinction@[j] matches Some(x) ==> (node_ok(recs, x.0, j as nat)
                && num_exits_of(recs[x.0 as int]) == 1 && canonical(recs, maps, j as nat, x.0))) by {
                if j != k {
                    assert(s2.no_distinction@[j] == self.no_distinction@[j]);
                }
            }
            assert(self.nd_cache_wf());
            Self::lemma_grows_trans(s0, s2, *self);
            Self::lemma_single_kept(s0, *self, k as nat, id.0);
            if id.0 < s0.recs().len() {
                let rec = s0.recs()[id.0 as int];
                assert(recs[id.0 as int] == rec);
                assert(record_ok(s0.recs(), s0.maps(), id.0 as int, rec));
                assert(rec->a_conn == a);
                assert(child.0 < s0.recs().len());
                assert(s1.recs() == s0.recs());
                assert(recs == s0.recs());
            }
        }
        id
    }

    // -- Public constants ---------------------------------------------
    /// The constant-true CFLOBDD over `2^level` variables.
    pub fn mk_true(&mut self) -> (r: Bdd)
        requires
            old(self).inv(),
        ensures
            final(self).inv(),
            final(self).extends(*old(self)),
            final(self).valid(r),
            final(self).is_canonical(r),
            forall|a: Seq<bool>| #[trigger] final(self).value(r, a),
            final(self).stored_maps() == old(self).stored_maps(),
    {
        proof {
            self.lemma_reveal();
        }
        let root = self.no_distinction(self.level);
        let ghost s1 = *self;
        proof {
            self.lemma_common_stored();
        }
        let values = self.rm_singleton(1);
        let r = Bdd { root, values };
        proof {
            self.lemma_reveal();
            lemma_canonical_extends(s1.recs(), s1.maps(), self.recs(), self.maps(), self.top(), root.0);
            assert forall|a: Seq<bool>| #[trigger] self.value(r, a) by {
                lemma_single_exit(self.recs(), self.maps(), self.top(), root.0, a);
            }
        }
        r
    }

    /// The constant-false CFLOBDD over `2^level` variables.
    pub fn mk_false(&mut self) -> (r: Bdd)
        requires
            old(self).inv(),
        ensures
            final(self).inv(),
            final(self).extends(*old(self)),
            final(self).valid(r),
            final(self).is_canonical(r),
            forall|a: Seq<bool>| !#[trigger] final(self).value(r, a),
            final(self).stored_maps() == old(self).stored_maps(),
    {
        proof {
            self.lemma_reveal();
        }
        let root = self.no_distinction(self.level);
        let ghost s1 = *self;
        proof {
            self.lemma_common_stored();
        }
        let values = self.rm_singleton(0);
        let r = Bdd { root, values };
        proof {
            self.lemma_reveal();
            lemma_canonical_extends(s1.recs(), s1.maps(), self.recs(), self.maps(), self.top(), root.0);
            assert forall|a: Seq<bool>| !#[trigger] self.value(r, a) by {
                lemma_single_exit(self.recs(), self.maps(), self.top(), root.0, a);
            }
        }
        r
    }

    // -- Projection ---------------------------------------------------
    /// `mk_proj(i)`: the CFLOBDD representing the literal `x_i` over
    /// `2^level` variables.
    pub fn mk_proj(&mut self, var_index: u32) -> (r: Bdd)
        requires
            old(self).inv(),
            var_index < old(self).num_vars(),
        ensures
            final(self).inv(),
            final(self).extends(*old(self)),
            final(self).valid(r),
            final(self).is_canonical(r),
            forall|a: Seq<bool>|
                a.len() == old(self).num_vars() ==> #[trigger] final(self).value(r, a)
                    == a[var_index as int],
            final(self).stored_maps() == old(self).stored_maps(),
    {
        proof {
            self.lemma_reveal();
        }
        let root = self.mk_distinction(self.level, var_index);
        // Value map is the identity [0, 1]: exit 0 of the structural node
        // means "x_i = 0", exit 1 means "x_i = 1".
        let ghost s1 = *self;
        proof {
            self.lemma_common_stored();
        }
        let values = self.rm_identity(2);
        let r = Bdd { root, values };
        proof {
            self.lemma_reveal();
            Self::lemma_node_keeps(*self, s1, self.top(), root.0);
            lemma_canonical_extends(s1.recs(), s1.maps(), self.recs(), self.maps(), self.top(), root.0);
            assert(self.maps()[values.0 as int] =~= identity_seq(2));
            assert(distinct(self.maps()[values.0 as int]));
            assert forall|a: Seq<bool>| a.len() == self.num_vars() implies #[trigger] self.value(r, a)
                == a[var_index as int] by {
                assert(exit_at(self.recs(), self.maps(), self.top(), root.0, a) == exit_at(
                    s1.recs(),
                    s1.maps(),
                    self.top(),
                    root.0,
                    a,
                ));
            }
        }
        r
    }

    /// MkDistinction(level, i): the structural level-`level` node whose
    /// exit is `x_i` where `i` lies in `[0, 2^level)`. Two exits.
    fn mk_distinction(&mut self, level: u8, i: u32) -> (r: NodeId)
        requires
            old(self).wf(),
            level <= old(self).level,
            i < vars_at(level as nat),
        ensures
            final(self).wf(),
            final(self).grows_from(*old(self)),
            node_ok(final(self).recs(), r.0, level as nat),
            num_exits_of(final(self).recs()[r.0 as int]) == 2,
            canonical(final(self).recs(), final(self).maps(), level as nat, r.0),
            forall|a: Seq<bool>|
                a.len() == vars_at(level as nat) ==> #[trigger] exit_at(
                    final(self).recs(),
                    final(self).maps(),
                    level as nat,
                    r.0,
                    a,
                ) == (if a[i as int] {
                    1nat
                } else {
                    0nat
                }),
            final(self).maps() == old(self).maps(),
        decreases level,
    {
        if level == 0 {
            proof {
                assert(vars_at(0) == 1) by {
                    vstd::arithmetic::power2::lemma2_to64();
                }
            }
            return NodeId(FORK);
        }
        let half = half_width(level);
        let ghost h = half as int;
        if i < half {
            // i falls in the A-connection range.
            let a_target = self.mk_distinction(level - 1, i);
            let ghost s1 = *self;
            proof {
                self.lemma_common_stored();
            }
            let id_map = self.rm_identity(2);
            let a = Connection { target: a_target, return_map: id_map };
            let nd = self.no_distinction(level - 1);
            let ghost s2 = *self;
            proof {
                self.lemma_common_stored();
            }
            let map_0 = self.rm_singleton(0);
            let map_1 = self.rm_singleton(1);
            let mut b_conns = BConnVec::new();
            b_conns.push(Connection { target: nd, return_map: map_0 });
            b_conns.push(Connection { target: nd, return_map: map_1 });
            let ghost s3 = *self;
            proof {
                let recs = self.recs();
                let maps = self.maps();
                Self::lemma_node_keeps(s3, s1, (level - 1) as nat, a_target.0);
                Self::lemma_node_keeps(s3, s2, (level - 1) as nat, nd.0);
                let bs = bconn_view(b_conns);
                assert(bs.len() == 2);
                assert(maps[id_map.0 as int] =~= identity_seq(2));
                assert(bconn_ok(recs, maps, recs.len() as int, (level - 1) as nat, 2, bs[0]));
                assert(bconn_ok(recs, maps, recs.len() as int, (level - 1) as nat, 2, bs[1]));
                assert(record_ok(
                    recs,
                    maps,
                    recs.len() as int,
                    NodeRecord::Internal { level, num_exits: 2, a_conn: a, b_conns },
                ));
            }
            let ghost bs = bconn_view(b_conns);
            let r = self.node_intern(level, 2, a, b_conns);
            proof {
                let recs = self.recs();
                let maps = self.maps();
                Self::lemma_node_keeps(*self, s3, (level - 1) as nat, a_target.0);
                Self::lemma_node_keeps(*self, s3, (level - 1) as nat, nd.0);
                assert forall|x: Seq<bool>| x.len() == vars_at(level as nat) implies #[trigger] exit_at(
                    recs,
                    maps,
                    level as nat,
                    r.0,
                    x,
                ) == (if x[i as int] {
                    1nat
                } else {
                    0nat
                }) by {
                    lemma_exit_internal(recs, maps, level as nat, r.0, x);
                    let left = x.subrange(0, h);
                    let right = x.subrange(h, x.len() as int);
                    assert(left.len() == vars_at((level - 1) as nat));
                    assert(left[i as int] == x[i as int]);
                    let e = exit_at(recs, maps, (level - 1) as nat, a_target.0, left);
                    assert(e == exit_at(s1.recs(), s1.maps(), (level - 1) as nat, a_target.0, left));
                    assert(maps[id_map.0 as int] == identity_seq(2));
                    lemma_single_exit(recs, maps, (level - 1) as nat, nd.0, right);
                    assert(bs[0].return_map == map_0 && bs[1].return_map == map_1);
                }
                Self::lemma_grows_trans(s1, s3, *self);
                Self::lemma_grows_trans(s2, s3, *self);
                lemma_canonical_extends(s1.recs(), s1.maps(), recs, maps, (level - 1) as nat, a_target.0);
                lemma_canonical_extends(s2.recs(), s2.maps(), recs, maps, (level - 1) as nat, nd.0);
                assert(maps[map_0.0 as int] =~= seq![0usize]);
                assert(maps[map_1.0 as int] =~= seq![1usize]);
                assert(bs =~= seq![bs[0], bs[1]]);
                lemma_concat_two(maps, bs[0], bs[1]);
                assert(concat_maps(maps, bs) =~= identity_seq(2));
                lemma_identity_reduction_ok(2);
                assert(maps[map_0.0 as int][0] != maps[map_1.0 as int][0]);
                assert(map_0.0 != map_1.0);
                assert(bs[0].return_map != bs[1].return_map);
                assert(bs[0] != bs[1]);
                lemma_canonical_intro(recs, maps, r.0);
            }
            r
        } else {
            // i falls in the B-connection range; mask off the high bit.
            let nd = self.no_distinction(level - 1);
            let ghost s1 = *self;
            proof {
                self.lemma_common_stored();
            }
            let id1 = self.rm_singleton(0);
            let a = Connection { target: nd, return_map: id1 };
            let i2 = i ^ half;
            proof {
                let k = (level - 1) as u32;
                assert(i2 == i - half) by (bit_vector)
                    requires
                        i2 == i ^ half,
                        half == 1u32 << k,
                        k < 31,
                        half <= i,
                        i < half + half,
                ;
            }
            let b_target = self.mk_distinction(level - 1, i2);
            let ghost s2 = *self;
            proof {
                self.lemma_common_stored();
            }
            let id2 = self.rm_identity(2);
            let mut b_conns = BConnVec::new();
            b_conns.push(Connection { target: b_target, return_map: id2 });
            let ghost s3 = *self;
            proof {
                let recs = self.recs();
                let maps = self.maps();
                Self::lemma_node_keeps(s3, s1, (level - 1) as nat, nd.0);
                Self::lemma_node_keeps(s3, s2, (level - 1) as nat, b_target.0);
                let bs = bconn_view(b_conns);
                assert(bs.len() == 1);
                assert(maps[id1.0 as int] =~= identity_seq(1));
                assert(bconn_ok(recs, maps, recs.len() as int, (level - 1) as nat, 2, bs[0]));
                assert(record_ok(
                    recs,
                    maps,
                    recs.len() as int,
                    NodeRecord::Internal { level, num_exits: 2, a_conn: a, b_conns },
                ));
            }
            let ghost bs = bconn_view(b_conns);
            let r = self.node_intern(level, 2, a, b_conns);
            proof {
                let recs = self.recs();
                let maps = self.maps();
                Self::lemma_node_keeps(*self, s3, (level - 1) as nat, nd.0);
                Self::lemma_node_keeps(*self, s3, (level - 1) as nat, b_target.0);
                assert forall|x: Seq<bool>| x.len() == vars_at(level as nat) implies #[trigger] exit_at(
                    recs,
                    maps,
                    level as nat,
                    r.0,
                    x,
                ) == (if x[i as int] {
                    1nat
                } else {
                    0nat
                }) by {
                    lemma_exit_internal(recs, maps, level as nat, r.0, x);
                    let left = x.subrange(0, h);
                    let right = x.subrange(h, x.len() as int);
                    assert(right.len() == vars_at((level - 1) as nat));
                    assert(right[i2 as int] == x[i as int]);
                    lemma_single_exit(recs, maps, (level - 1) as nat, nd.0, left);
                    let e = exit_at(recs, maps, (level - 1) as nat, b_target.0, right);
                    assert(e == exit_at(s2.recs(), s2.maps(), (level - 1) as nat, b_target.0, right));
                    assert(maps[id1.0 as int] == seq![0usize]);
                    assert(maps[id2.0 as int] == identity_seq(2));
                }
                Self::lemma_grows_trans(s1, s3, *self);
                Self::lemma_grows_trans(s2, s3, *self);
                lemma_canonical_extends(s1.recs(), s1.maps(), recs, maps, (level - 1) as nat, nd.0);
                lemma_canonical_extends(s2.recs(), s2.maps(), recs, maps, (level - 1) as nat, b_target.0);
                assert(bs =~= seq![bs[0]]);
                lemma_concat_two(maps, bs[0], bs[0]);
                assert(concat_maps(maps, bs) =~= identity_seq(2));
                lemma_identity_reduction_ok(2);
                assert(distinct(maps[bs[0].return_map.0 as int]));
                lemma_canonical_intro(recs, maps, r.0);
            }
            r
        }
    }

    // -- Equality on canonical Bdds ----------------------------------
    /// Structural equality: root and value map ids both match.
    pub fn eq(&self, f: Bdd, g: Bdd) -> (r: bool)
        ensures
            r == (f == g),
            self.inv() && self.valid(f) && self.valid(g) && self.is_canonical(f) && self.is_canonical(g)
                ==> (r <==> forall|a: Seq<bool>|
                a.len() == self.num_vars() ==> #[trigger] self.value(f, a) == self.value(g, a)),
    {
        proof {
            if self.inv() && self.valid(f) && self.valid(g) && self.is_canonical(f) && self.is_canonical(g) {
                if forall|a: Seq<bool>|
                    a.len() == self.num_vars() ==> #[trigger] self.value(f, a) == self.value(g, a) {
                    self.lemma_canonical_eq(f, g);
                }
            }
        }
        f == g
    }

    /// Evaluate a Bdd on a truth assignment.
    ///
    /// `assignment[i]` is the value of variable `x_i`. The slice must have
    /// length exactly `total_vars()`.
    pub fn evaluate(&self, bdd: Bdd, assignment: &[bool]) -> (r: bool)
        requires
            self.inv(),
            self.valid(bdd),
            assignment@.len() == self.num_vars(),
        ensures
            r == self.value(bdd, assignment@),
    {
        proof {
            self.lemma_reveal();
            assert(assignment@.subrange(0, assignment@.len() as int) =~= assignment@);
            lemma_exit_bound(self.recs(), self.maps(), self.top(), bdd.root.0, assignment@);
        }
        let exit = self.evaluate_node(bdd.root, assignment, 0);
        let v = self.rm_body(bdd.values).get(exit);
        v != 0
    }

    /// Recursive evaluation returning the exit index of the structural
    /// node, on the part of the assignment that starts at `start`.
    fn evaluate_node(&self, node: NodeId, assignment: &[bool], start: usize) -> (r: usize)
        requires
            self.wf(),
            node.0 < self.recs().len(),
            start + vars_at(level_of(self.recs()[node.0 as int])) <= assignment@.len(),
        ensures
            r == exit_at(
                self.recs(),
                self.maps(),
                level_of(self.recs()[node.0 as int]),
                node.0,
                assignment@.subrange(
                    start as int,
                    start + vars_at(level_of(self.recs()[node.0 as int])),
                ),
            ),
        decreases level_of(self.recs()[node.0 as int]),
    {
        let ghost recs = self.recs();
        let ghost maps = self.maps();
        let ghost lv = level_of(recs[node.0 as int]);
        let ghost x = assignment@.subrange(start as int, start + vars_at(lv));
        match self.nodes.record(node) {
            NodeRecord::DontCare => 0,
            NodeRecord::Fork => {
                proof {
                    vstd::arithmetic::power2::lemma2_to64();
                    assert(x[0] == assignment@[start as int]);
                }
                if assignment[start] {
                    1
                } else {
                    0
                }
            },
            NodeRecord::Internal { level, a_conn, b_conns, .. } => {
                proof {
                    assert(record_ok(recs, maps, node.0 as int, recs[node.0 as int]));
                }
                let half = half_width(*level) as usize;
                let ghost h = half as int;
                assert(lv == *level as nat && 2 * h == vars_at(lv));
                assert(start + h <= assignment@.len());
                assert(assignment.len() == assignment@.len());
                // Walk A-connection on the left half.
                let a_exit = self.evaluate_node(a_conn.target, assignment, start);
                proof {
                    assert(x.subrange(0, h) =~= assignment@.subrange(start as int, start + h));
                    lemma_exit_bound(recs, maps, (lv - 1) as nat, a_conn.target.0, x.subrange(0, h));
                }
                // Translate through the A-connection's return map to pick a
                // B-connection of this node.
                let b_idx = self.rm_body(a_conn.return_map).get(a_exit);
                let b = b_conns.get(b_idx);
                proof {
                    assert(bconn_ok(recs, maps, node.0 as int, (lv - 1) as nat, recs[node.0 as int]->num_exits, b));
                    assert(x.subrange(h, x.len() as int) =~= assignment@.subrange(start + h, start + h + h));
                    lemma_exit_bound(recs, maps, (lv - 1) as nat, b.target.0, x.subrange(h, x.len() as int));
                }
                // Walk that B-connection on the right half.
                let b_exit = self.evaluate_node(b.target, assignment, start + half);
                // Translate through its return map to get this node's exit.
                self.rm_body(b.return_map).get(b_exit)
            },
        }
    }
}

} // verus!
