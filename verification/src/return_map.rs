//! Return maps: small arrays of exit indices, hash-consed.
//!
//! A return map on a `Connection` translates the child's exit index into
//! the parent's exit index. Structurally equal return maps share a single
//! `ReturnMapId`.

use crate::semantics::{extends_seq, identity_seq};
use rustc_hash::FxBuildHasher;
use std::collections::HashMap;
use vstd::prelude::*;

verus! {

/// Stable, copyable index into a `Manager`'s return-map store.
#[derive(Clone, Copy, PartialEq, Eq, Structural, Hash, Debug)]
pub struct ReturnMapId(pub(crate) usize);

/// Inline storage for return-map bodies (a `SmallVec` with room for four).
#[verifier::external_body]
#[derive(PartialEq, Eq, Hash, Debug)]
pub struct ReturnMapVec {
    items: smallvec::SmallVec<[usize; 4]>,
}

/// The exit indices held by a `ReturnMapVec`.
pub uninterp spec fn rmv_view(v: ReturnMapVec) -> Seq<usize>;

impl ReturnMapVec {
    /// Calls `SmallVec::new`: the result is empty.
    #[verifier::external_body]
    pub(crate) fn new() -> (r: ReturnMapVec)
        ensures
            rmv_view(r) == Seq::<usize>::empty(),
    {
        ReturnMapVec { items: smallvec::SmallVec::new() }
    }

    /// Calls `SmallVec::push`: the entry is appended at the end.
    #[verifier::external_body]
    pub(crate) fn push(&mut self, x: usize)
        ensures
            rmv_view(*final(self)).len() <= usize::MAX,
            rmv_view(*final(self)) == rmv_view(*old(self)).push(x),
    {
        self.items.push(x)
    }

    /// Calls `SmallVec::len`: the number of entries.
    #[verifier::external_body]
    pub(crate) fn len(&self) -> (r: usize)
        ensures
            r == rmv_view(*self).len(),
    {
        self.items.len()
    }

    /// Calls `SmallVec`'s indexing: the entry at position `i`.
    #[verifier::external_body]
    pub(crate) fn get(&self, i: usize) -> (r: usize)
        requires
            i < rmv_view(*self).len(),
        ensures
            r == rmv_view(*self)[i as int],
    {
        self.items[i]
    }

    /// Calls `SmallVec::from_slice`: the result holds the entries of `s`.
    #[verifier::external_body]
    pub(crate) fn from_slice(s: &[usize]) -> (r: ReturnMapVec)
        ensures
            rmv_view(r) == s@,
    {
        ReturnMapVec { items: smallvec::SmallVec::from_slice(s) }
    }

    /// Calls `SmallVec::as_slice`: the entries, as a slice.
    #[verifier::external_body]
    pub(crate) fn as_slice(&self) -> (r: &[usize])
        ensures
            r@ == rmv_view(*self),
    {
        self.items.as_slice()
    }

    /// Calls `SmallVec::clone`: the copy holds the same entries in the same
    /// order.
    #[verifier::external_body]
    pub(crate) fn duplicate(&self) -> (r: ReturnMapVec)
        ensures
            rmv_view(r) == rmv_view(*self),
    {
        ReturnMapVec { items: self.items.clone() }
    }
}

/// The Fx hasher builder of `rustc_hash`, carried as an opaque value.
#[verifier::external_type_specification]
#[verifier::external_body]
pub struct ExFxBuildHasher(FxBuildHasher);

/// What the dedup table of return maps holds: each body by its entries,
/// each id by its number.
pub uninterp spec fn rm_index_contents(m: HashMap<ReturnMapVec, ReturnMapId, FxBuildHasher>) -> Map<
    Seq<usize>,
    usize,
>;

/// Calls `FxHashMap::default` (`HashMap::default` with the Fx hasher): the
/// table is empty.
#[verifier::external_body]
fn rm_index_new() -> (r: HashMap<ReturnMapVec, ReturnMapId, FxBuildHasher>)
    ensures
        rm_index_contents(r) =~= Map::empty(),
{
    HashMap::default()
}

/// Calls `HashMap::get`: the id stored under a body equal to `key`, if
/// any (bodies compare element by element, by `SmallVec`'s slice
/// comparison).
#[verifier::external_body]
fn rm_index_get(m: &HashMap<ReturnMapVec, ReturnMapId, FxBuildHasher>, key: &ReturnMapVec) -> (r:
    Option<ReturnMapId>)
    ensures
        r is Some <==> rm_index_contents(*m).contains_key(rmv_view(*key)),
        r matches Some(id) ==> id.0 == rm_index_contents(*m)[rmv_view(*key)],
{
    m.get(key).copied()
}

/// Calls `HashMap::insert`: afterwards `key` maps to `id` and every other
/// entry is unchanged.
#[verifier::external_body]
fn rm_index_insert(
    m: &mut HashMap<ReturnMapVec, ReturnMapId, FxBuildHasher>,
    key: ReturnMapVec,
    id: ReturnMapId,
)
    ensures
        rm_index_contents(*final(m)) == rm_index_contents(*old(m)).insert(rmv_view(key), id.0),
{
    m.insert(key, id);
}

/// `idx` maps every body of `maps` to its position, and nothing else.
pub(crate) open spec fn index_matches(maps: Seq<Seq<usize>>, idx: Map<Seq<usize>, usize>) -> bool {
    &&& forall|k: Seq<usize>|
        #[trigger] idx.contains_key(k) ==> idx[k] < maps.len() && maps[idx[k] as int] == k
    &&& forall|i: int|
        0 <= i < maps.len() ==> (#[trigger] idx.contains_key(maps[i])) && idx[maps[i]] == i
}

proof fn lemma_index_push(maps: Seq<Seq<usize>>, idx: Map<Seq<usize>, usize>, body: Seq<usize>)
    requires
        index_matches(maps, idx),
        !idx.contains_key(body),
        maps.len() <= usize::MAX,
    ensures
        index_matches(maps.push(body), idx.insert(body, maps.len() as usize)),
{
    let maps2 = maps.push(body);
    let idx2 = idx.insert(body, maps.len() as usize);
    assert forall|k: Seq<usize>| #[trigger] idx2.contains_key(k) implies idx2[k] < maps2.len()
        && maps2[idx2[k] as int] == k by {
        if k != body {
            assert(idx.contains_key(k));
        }
    }
    assert forall|i: int| 0 <= i < maps2.len() implies #[trigger] idx2.contains_key(maps2[i]) by {
        if i < maps.len() {
            assert(maps2[i] == maps[i]);
            assert(idx.contains_key(maps[i]));
        }
    }
    assert forall|i: int| 0 <= i < maps2.len() implies #[trigger] idx2[maps2[i]] == i by {
        if i < maps.len() {
            assert(maps2[i] == maps[i]);
            assert(idx.contains_key(maps[i]));
            assert(maps[i] != body);
            assert(idx2[maps[i]] == idx[maps[i]]);
        } else {
            assert(maps2[i] == body);
        }
    }
    assert(forall|k: Seq<usize>|
        #[trigger] idx2.contains_key(k) ==> idx2[k] < maps2.len() && maps2[idx2[k] as int] == k);
    assert(forall|i: int|
        0 <= i < maps2.len() ==> (#[trigger] idx2.contains_key(maps2[i])) && idx2[maps2[i]] == i);
}

/// `body` is one of the stored bodies `maps`.
#[verifier::opaque]
pub(crate) open spec fn holds_map(maps: Seq<Seq<usize>>, body: Seq<usize>) -> bool {
    maps.contains(body)
}

/// Canonical store for return maps. Stores each unique body once and
/// hands out `ReturnMapId`s.
pub struct ReturnMapStore {
    /// Indexed by `ReturnMapId.0`.
    bodies: Vec<ReturnMapVec>,
    /// Dedup table: contents -> id.
    index: HashMap<ReturnMapVec, ReturnMapId, FxBuildHasher>,
}

impl ReturnMapStore {
    /// The bodies, indexed by return-map id.
    pub closed spec fn maps(&self) -> Seq<Seq<usize>> {
        self.bodies@.map_values(|v: ReturnMapVec| rmv_view(v))
    }

    /// The dedup table maps every stored body to its id, and nothing else.
    pub closed spec fn inv(&self) -> bool {
        index_matches(self.maps(), rm_index_contents(self.index))
    }

    /// Hash-consing: equal stored bodies sit at the same id.
    pub(crate) proof fn lemma_unique(&self, i: int, j: int)
        requires
            self.inv(),
            0 <= i < self.maps().len(),
            0 <= j < self.maps().len(),
            self.maps()[i] == self.maps()[j],
        ensures
            i == j,
    {
        let idx = rm_index_contents(self.index);
        assert(idx.contains_key(self.maps()[i]) && idx[self.maps()[i]] == i);
        assert(idx.contains_key(self.maps()[j]) && idx[self.maps()[j]] == j);
    }

    pub(crate) fn new() -> (r: Self)
        ensures
            r.inv(),
            r.maps() == Seq::<Seq<usize>>::empty(),
    {
        let r = Self { bodies: Vec::new(), index: rm_index_new() };
        assert(r.maps() =~= Seq::<Seq<usize>>::empty());
        r
    }

    /// Hash-cons a return-map body. Identical contents return the same id.
    pub(crate) fn intern(&mut self, body: ReturnMapVec) -> (r: ReturnMapId)
        requires
            old(self).inv(),
        ensures
            final(self).inv(),
            extends_seq(old(self).maps(), final(self).maps()),
            final(self).maps().len() <= old(self).maps().len() + 1,
            r.0 < final(self).maps().len(),
            final(self).maps()[r.0 as int] == rmv_view(body),
            holds_map(old(self).maps(), rmv_view(body)) ==> *final(self) == *old(self),
    {
        let ghost old_maps = self.maps();
        match rm_index_get(&self.index, &body) {
            Some(id) => {
                return id;
            },
            None => {},
        }
        proof {
            reveal(holds_map);
            if old_maps.contains(rmv_view(body)) {
                let i = choose|i: int| 0 <= i < old_maps.len() && old_maps[i] == rmv_view(body);
                assert(rm_index_contents(self.index).contains_key(old_maps[i]));
                assert(false);
            }
        }
        let id = ReturnMapId(self.bodies.len());
        let copy = body.duplicate();
        let ghost old_idx = rm_index_contents(self.index);
        rm_index_insert(&mut self.index, copy, id);
        self.bodies.push(body);
        proof {
            assert(self.maps() =~= old_maps.push(rmv_view(body)));
            lemma_index_push(old_maps, old_idx, rmv_view(body));
        }
        id
    }

    pub(crate) fn body(&self, id: ReturnMapId) -> (r: &ReturnMapVec)
        requires
            id.0 < self.maps().len(),
        ensures
            rmv_view(*r) == self.maps()[id.0 as int],
    {
        &self.bodies[id.0]
    }

    /// The number of entries of the return map `id`.
    pub(crate) fn len(&self, id: ReturnMapId) -> (r: usize)
        requires
            id.0 < self.maps().len(),
        ensures
            r == self.maps()[id.0 as int].len(),
    {
        self.bodies[id.0].len()
    }

    /// Identity return map of length `n`: [0, 1, 2, ..., n-1].
    pub(crate) fn identity(&mut self, n: usize) -> (r: ReturnMapId)
        requires
            old(self).inv(),
        ensures
            final(self).inv(),
            extends_seq(old(self).maps(), final(self).maps()),
            final(self).maps().len() <= old(self).maps().len() + 1,
            r.0 < final(self).maps().len(),
            final(self).maps()[r.0 as int] == identity_seq(n as nat),
            holds_map(old(self).maps(), identity_seq(n as nat)) ==> *final(self) == *old(self),
    {
        let mut body = ReturnMapVec::new();
        let mut i: usize = 0;
        while i < n
            invariant
                i <= n,
                rmv_view(body) == identity_seq(i as nat),
            decreases n - i,
        {
            body.push(i);
            i = i + 1;
            assert(rmv_view(body) =~= identity_seq(i as nat));
        }
        self.intern(body)
    }

    pub(crate) fn singleton(&mut self, value: usize) -> (r: ReturnMapId)
        requires
            old(self).inv(),
        ensures
            final(self).inv(),
            extends_seq(old(self).maps(), final(self).maps()),
            final(self).maps().len() <= old(self).maps().len() + 1,
            r.0 < final(self).maps().len(),
            final(self).maps()[r.0 as int] == seq![value],
            holds_map(old(self).maps(), seq![value]) ==> *final(self) == *old(self),
    {
        let mut body = ReturnMapVec::new();
        body.push(value);
        assert(rmv_view(body) =~= seq![value]);
        self.intern(body)
    }

    pub(crate) fn count(&self) -> (r: usize)
        ensures
            r == self.maps().len(),
    {
        self.bodies.len()
    }
}

} // verus!
