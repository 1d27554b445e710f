//! Canonical node store. `NodeId` is a stable index; `NodeRecord` is the
//! payload. Hash-consing is enforced by keeping the storage and the dedup
//! table private to this module: only `NodeStore::intern_internal`
//! produces ids of internal nodes.

use crate::return_map::ReturnMapId;
use crate::semantics::{extends_seq, level_of, num_exits_of, record_key, same_record, NodeKey};
use vstd::prelude::*;

verus! {

/// Stable, copyable index into a `Manager`'s node store.
///
/// `NodeId(0)` and `NodeId(1)` are reserved for the level-0 leaves
/// (DontCare and Fork respectively).
#[derive(Clone, Copy, PartialEq, Eq, Structural, Hash, Debug)]
pub struct NodeId(pub(crate) usize);

/// A directed edge from a parent to a child: the child node and the
/// return map that translates the child's exits into the parent's exit
/// space (for the A-connection: into B-connection indices).
#[derive(Clone, Copy, PartialEq, Eq, Structural, Hash, Debug)]
pub struct Connection {
    pub target: NodeId,
    pub return_map: ReturnMapId,
}

/// Inline storage for B-connections (a `SmallVec` with room for four).
#[verifier::external_body]
#[derive(PartialEq, Eq, Hash, Debug)]
pub struct BConnVec {
    items: smallvec::SmallVec<[Connection; 4]>,
}

/// The sequence of connections held by a `BConnVec`.
pub uninterp spec fn bconn_view(v: BConnVec) -> Seq<Connection>;

impl BConnVec {
    /// Calls `SmallVec::new`: the result holds no connection.
    #[verifier::external_body]
    pub(crate) fn new() -> (r: BConnVec)
        ensures
            bconn_view(r) == Seq::<Connection>::empty(),
    {
        BConnVec { items: smallvec::SmallVec::new() }
    }

    /// Calls `SmallVec::push`: the connection is appended at the end.
    #[verifier::external_body]
    pub(crate) fn push(&mut self, c: Connection)
        ensures
            bconn_view(*final(self)).len() <= usize::MAX,
            bconn_view(*final(self)) == bconn_view(*old(self)).push(c),
    {
        self.items.push(c)
    }

    /// Calls `SmallVec::len`: the number of connections held.
    #[verifier::external_body]
    pub(crate) fn len(&self) -> (r: usize)
        ensures
            r == bconn_view(*self).len(),
    {
        self.items.len()
    }

    /// Calls `SmallVec`'s indexing: the connection at position `i`.
    #[verifier::external_body]
    pub(crate) fn get(&self, i: usize) -> (r: Connection)
        requires
            i < bconn_view(*self).len(),
        ensures
            r == bconn_view(*self)[i as int],
    {
        self.items[i]
    }

    /// Calls `SmallVec::clone`: the copy holds the same connections in the
    /// same order.
    #[verifier::external_body]
    pub(crate) fn duplicate(&self) -> (r: BConnVec)
        ensures
            bconn_view(r) == bconn_view(*self),
    {
        BConnVec { items: self.items.clone() }
    }
}

/// The node payload. Internal carries data; the two leaves are unit
/// variants.
#[derive(PartialEq, Eq, Hash, Debug)]
pub enum NodeRecord {
    /// Level-0 don't-care leaf: one exit, whatever the input.
    DontCare,
    /// Level-0 fork leaf: exit 0 on input false, exit 1 on input true.
    Fork,
    /// Level-k internal node (k >= 1). `num_exits` is cached so we don't
    /// have to walk the return maps to recover it.
    Internal { level: u8, num_exits: usize, a_conn: Connection, b_conns: BConnVec },
}

/// Dedup table for internal nodes: a `hashbrown::HashMap` from record to id.
#[verifier::external_body]
pub struct NodeIndex {
    map: hashbrown::HashMap<NodeRecord, NodeId>,
}

/// What the dedup table holds, each record taken by its key (level, exit
/// count, A-connection, B-connections) and each id by its number.
pub uninterp spec fn node_index_contents(m: NodeIndex) -> Map<NodeKey, usize>;

impl NodeIndex {
    /// Calls `hashbrown::HashMap::new`: the table is empty.
    #[verifier::external_body]
    fn new() -> (r: NodeIndex)
        ensures
            node_index_contents(r) =~= Map::empty(),
    {
        NodeIndex { map: hashbrown::HashMap::new() }
    }

    /// Calls `hashbrown::HashMap::get`: the id stored under a record equal
    /// to `key`, if any. Records compare field by field, B-connections
    /// element by element (derived `PartialEq`, and `SmallVec`'s slice
    /// comparison).
    #[verifier::external_body]
    fn get(&self, key: &NodeRecord) -> (r: Option<NodeId>)
        requires
            key is Internal,
        ensures
            r is Some <==> node_index_contents(*self).contains_key(record_key(*key)),
            r matches Some(id) ==> id.0 == node_index_contents(*self)[record_key(*key)],
    {
        self.map.get(key).copied()
    }

    /// Calls `hashbrown::HashMap::insert`: afterwards `key` maps to `id`
    /// and every other entry is unchanged.
    #[verifier::external_body]
    fn insert(&mut self, key: NodeRecord, id: NodeId)
        requires
            key is Internal,
        ensures
            node_index_contents(*final(self)) == node_index_contents(*old(self)).insert(
                record_key(key),
                id.0,
            ),
    {
        self.map.insert(key, id);
    }
}

/// Canonical node store + dedup table.
pub struct NodeStore {
    /// Indexed by `NodeId.0`. Index 0 = DontCare, index 1 = Fork.
    records: Vec<NodeRecord>,
    /// Dedup table for internal nodes. Leaves are not indexed here (they
    /// have fixed ids).
    index: NodeIndex,
}

/// Id number of the level-0 DontCare leaf.
pub const DONT_CARE: usize = 0;

/// Id number of the level-0 Fork leaf.
pub const FORK: usize = 1;

impl NodeStore {
    /// The records, indexed by node id.
    pub closed spec fn recs(&self) -> Seq<NodeRecord> {
        self.records@
    }

    /// The store holds the two leaves at their fixed ids, and the dedup
    /// table maps the key of every internal record to its id, and nothing
    /// else.
    pub closed spec fn inv(&self) -> bool {
        let recs = self.records@;
        let idx = node_index_contents(self.index);
        &&& recs.len() >= 2
        &&& recs[0] is DontCare
        &&& recs[1] is Fork
        &&& forall|i: int| 2 <= i < recs.len() ==> #[trigger] recs[i] is Internal
        &&& forall|k: NodeKey|
            #[trigger] idx.contains_key(k) ==> 2 <= idx[k] < recs.len() && record_key(recs[idx[k] as int]) == k
        &&& forall|i: int|
            2 <= i < recs.len() ==> #[trigger] idx.contains_key(record_key(recs[i])) && idx[record_key(recs[i])] == i
    }

    pub(crate) fn new() -> (r: Self)
        ensures
            r.inv(),
            r.recs() == seq![NodeRecord::DontCare, NodeRecord::Fork],
    {
        let mut records: Vec<NodeRecord> = Vec::new();
        records.push(NodeRecord::DontCare);
        records.push(NodeRecord::Fork);
        let r = Self { records, index: NodeIndex::new() };
        assert(r.records@ =~= seq![NodeRecord::DontCare, NodeRecord::Fork]);
        r
    }

    /// Hash-cons an internal node. Identical structure returns the same id;
    /// a new structure is appended to the store.
    pub(crate) fn intern_internal(
        &mut self,
        level: u8,
        num_exits: usize,
        a_conn: Connection,
        b_conns: BConnVec,
    ) -> (r: NodeId)
        requires
            old(self).inv(),
        ensures
            final(self).inv(),
            final(self).recs().len() == old(self).recs().len() || (final(self).recs().len()
                == old(self).recs().len() + 1 && r.0 == old(self).recs().len()),
            extends_seq(old(self).recs(), final(self).recs()),
            2 <= r.0 < final(self).recs().len(),
            record_key(final(self).recs()[r.0 as int]) == (level, num_exits, a_conn, bconn_view(
                b_conns,
            )),
    {
        let key = NodeRecord::Internal { level, num_exits, a_conn, b_conns };
        match self.index.get(&key) {
            Some(id) => {
                return id;
            },
            None => {},
        }
        let id = NodeId(self.records.len());
        let key_copy = match &key {
            NodeRecord::Internal { level, num_exits, a_conn, b_conns } => NodeRecord::Internal {
                level: *level,
                num_exits: *num_exits,
                a_conn: *a_conn,
                b_conns: b_conns.duplicate(),
            },
            _ => NodeRecord::DontCare,
        };
        let ghost old_recs = self.records@;
        let ghost old_idx = node_index_contents(self.index);
        self.index.insert(key_copy, id);
        self.records.push(key);
        proof {
            let recs = self.records@;
            let idx = node_index_contents(self.index);
            assert forall|i: int| 2 <= i < recs.len() implies #[trigger] idx.contains_key(
                record_key(recs[i]),
            ) && idx[record_key(recs[i])] == i by {
                if i < old_recs.len() {
                    assert(recs[i] == old_recs[i]);
                    assert(old_idx.contains_key(record_key(old_recs[i])));
                }
            }
        }
        id
    }

    /// Hash-consing: two stored records that are the same leaf, or internal
    /// records with the same structure, sit at the same id.
    pub(crate) proof fn lemma_unique(&self, i: int, j: int)
        requires
            self.inv(),
            0 <= i < self.recs().len(),
            0 <= j < self.recs().len(),
            same_record(self.recs()[i], self.recs()[j]),
        ensures
            i == j,
    {
        let recs = self.records@;
        let idx = node_index_contents(self.index);
        if i >= 2 {
            assert(recs[i] is Internal);
        }
        if j >= 2 {
            assert(recs[j] is Internal);
        }
        if i >= 2 && j >= 2 {
            assert(idx.contains_key(record_key(recs[i])) && idx[record_key(recs[i])] == i);
            assert(idx.contains_key(record_key(recs[j])) && idx[record_key(recs[j])] == j);
        }
    }

    pub(crate) fn record(&self, id: NodeId) -> (r: &NodeRecord)
        requires
            id.0 < self.recs().len(),
        ensures
            *r == self.recs()[id.0 as int],
    {
        &self.records[id.0]
    }

    /// An owned copy of the record of `id`.
    pub(crate) fn snapshot(&self, id: NodeId) -> (r: NodeRecord)
        requires
            id.0 < self.recs().len(),
        ensures
            same_record(r, self.recs()[id.0 as int]),
    {
        match &self.records[id.0] {
            NodeRecord::DontCare => NodeRecord::DontCare,
            NodeRecord::Fork => NodeRecord::Fork,
            NodeRecord::Internal { level, num_exits, a_conn, b_conns } => NodeRecord::Internal {
                level: *level,
                num_exits: *num_exits,
                a_conn: *a_conn,
                b_conns: b_conns.duplicate(),
            },
        }
    }

    /// Number of exits for any node (1 for DontCare, 2 for Fork, cached
    /// on Internal).
    pub(crate) fn num_exits(&self, id: NodeId) -> (r: usize)
        requires
            id.0 < self.recs().len(),
        ensures
            r == num_exits_of(self.recs()[id.0 as int]),
    {
        match self.record(id) {
            NodeRecord::DontCare => 1,
            NodeRecord::Fork => 2,
            NodeRecord::Internal { num_exits, .. } => *num_exits,
        }
    }

    /// Level: 0 for both leaves, cached on Internal.
    pub(crate) fn level(&self, id: NodeId) -> (r: u8)
        requires
            id.0 < self.recs().len(),
        ensures
            r == level_of(self.recs()[id.0 as int]),
    {
        match self.record(id) {
            NodeRecord::DontCare | NodeRecord::Fork => 0,
            NodeRecord::Internal { level, .. } => *level,
        }
    }

    pub(crate) fn count(&self) -> (r: usize)
        ensures
            r == self.recs().len(),
    {
        self.records.len()
    }
}

} // verus!
