//! The local node's aggregate knowledge of the network: its own record plus
//! one record per peer it has learned of, keyed by public key.
use vstd::prelude::*;
use crate::key::{PublicKey, NodeAddr, key_eq};
use crate::node_record::{NodeRecord, NodeRecordV, keys_view};

verus! {

/// Whether some record in `dbv` carries the key `k`.
pub open spec fn db_has_key(dbv: Seq<NodeRecordV>, k: Seq<u8>) -> bool {
    exists|i: int| 0 <= i < dbv.len() && dbv[i].key == k
}

/// The index of the record carrying `k`; meaningful only when keys are unique
/// and `k` is present.
pub open spec fn db_key_index(dbv: Seq<NodeRecordV>, k: Seq<u8>) -> int {
    choose|i: int| 0 <= i < dbv.len() && dbv[i].key == k
}

/// The record carrying `k`.
pub open spec fn db_node(dbv: Seq<NodeRecordV>, k: Seq<u8>) -> NodeRecordV {
    dbv[db_key_index(dbv, k)]
}

/// No two records carry the same key.
pub open spec fn unique_keys(dbv: Seq<NodeRecordV>) -> bool {
    forall|i: int, j: int| 0 <= i < j < dbv.len() ==> dbv[i].key != dbv[j].key
}

/// Well-formedness of a graph snapshot: the root record is present at
/// position zero with a known address, and keys are unique.
pub open spec fn db_wf(dbv: Seq<NodeRecordV>) -> bool {
    &&& dbv.len() >= 1
    &&& unique_keys(dbv)
    &&& dbv[0].addr is Some
}

/// With unique keys, the record found at any index is the one `db_node`
/// denotes for that index's key.
pub proof fn lemma_index_of_key(dbv: Seq<NodeRecordV>, i: int)
    requires
        unique_keys(dbv),
        0 <= i < dbv.len(),
    ensures
        db_has_key(dbv, dbv[i].key),
        db_key_index(dbv, dbv[i].key) == i,
        db_node(dbv, dbv[i].key) == dbv[i],
{
    let k = dbv[i].key;
    assert(db_has_key(dbv, k));
    let j = db_key_index(dbv, k);
    assert(0 <= j < dbv.len() && dbv[j].key == k);
    if i < j {
        assert(dbv[i].key != dbv[j].key);
    } else if j < i {
        assert(dbv[j].key != dbv[i].key);
    }
}

/// Why a mutation of the graph was refused.
#[derive(Debug, PartialEq, Eq, Structural)]
pub enum NeighborhoodDatabaseError {
    /// A record with the given key is already present.
    KeyAlreadyPresent,
    /// No record with the given key is present.
    KeyNotFound,
}

/// The local graph snapshot: the root record first, then every other peer
/// learned of, with unique keys throughout.
pub struct NeighborhoodDatabase {
    nodes: Vec<NodeRecord>,
}

impl View for NeighborhoodDatabase {
    type V = Seq<NodeRecordV>;

    closed spec fn view(&self) -> Seq<NodeRecordV> {
        self.nodes@.map_values(|n: NodeRecord| n@)
    }
}

impl NeighborhoodDatabase {
    pub open spec fn wf(&self) -> bool {
        db_wf(self@)
    }

    /// A fresh graph holding only the local node's own record, with its
    /// (always known) address.
    pub fn new(root_key: PublicKey, root_addr: NodeAddr, is_bootstrap_node: bool) -> (r:
        NeighborhoodDatabase)
        ensures
            r.wf(),
            r@ =~= seq![
                NodeRecordV {
                    key: root_key@,
                    addr: Some(root_addr@),
                    is_bootstrap: is_bootstrap_node,
                    neighbors: Seq::<Seq<u8>>::empty(),
                },
            ],
    {
        let ghost k = root_key@;
        let ghost a = root_addr@;
        let root = NodeRecord::new(root_key, Some(root_addr), is_bootstrap_node);
        let mut nodes: Vec<NodeRecord> = Vec::new();
        nodes.push(root);
        let r = NeighborhoodDatabase { nodes };
        proof {
            assert(r@ =~= seq![
                NodeRecordV {
                    key: k,
                    addr: Some(a),
                    is_bootstrap: is_bootstrap_node,
                    neighbors: Seq::<Seq<u8>>::empty(),
                },
            ]);
        }
        r
    }

    /// The local node's own record.
    pub fn root(&self) -> (r: &NodeRecord)
        requires
            self@.len() >= 1,
        ensures
            r@ == self@[0],
    {
        &self.nodes[0]
    }

    /// How many records the graph holds.
    pub fn node_count(&self) -> (r: usize)
        ensures
            r == self@.len(),
    {
        self.nodes.len()
    }

    /// The record at a position, in insertion order (root first).
    pub fn node_at(&self, i: usize) -> (r: &NodeRecord)
        requires
            i < self@.len(),
        ensures
            r@ == self@[i as int],
    {
        &self.nodes[i]
    }

    /// Every known key, in insertion order.
    pub fn keys(&self) -> (r: Vec<PublicKey>)
        ensures
            keys_view(r@) == self@.map_values(|n: NodeRecordV| n.key),
    {
        let mut out: Vec<PublicKey> = Vec::new();
        let n: usize = self.nodes.len();
        let mut i: usize = 0;
        while i < n
            invariant
                i <= n,
                keys_view(out@) == self@.map_values(|nr: NodeRecordV| nr.key).take(i as int),
            decreases n - i,
        {
            out.push(self.nodes[i].public_key().clone());
            proof {
                assert(keys_view(out@) =~= self@.map_values(|nr: NodeRecordV| nr.key).take(
                    i + 1,
                ));
            }
            i += 1;
        }
        proof {
            assert(self@.map_values(|nr: NodeRecordV| nr.key).take(n as int) =~= self@.map_values(
                |nr: NodeRecordV| nr.key,
            ));
        }
        out
    }

    /// Look one key up, returning its record if the graph holds one.
    pub fn node_by_key(&self, key: &PublicKey) -> (r: Option<&NodeRecord>)
        requires
            unique_keys(self@),
        ensures
            match r {
                Some(n) => db_has_key(self@, key@) && n@ == db_node(self@, key@),
                None => !db_has_key(self@, key@),
            },
    {
        let n: usize = self.nodes.len();
        let mut i: usize = 0;
        while i < n
            invariant
                i <= n,
                forall|j: int| 0 <= j < i ==> self@[j].key != key@,
            decreases n - i,
        {
            if key_eq(self.nodes[i].public_key(), key) {
                proof {
                    lemma_index_of_key(self@, i as int);
                }
                return Some(&self.nodes[i]);
            }
            i += 1;
        }
        None
    }

    /// Add a fresh peer record; refused if its key is already present.
    pub fn add_node(&mut self, node: &NodeRecord) -> (r: Result<(), NeighborhoodDatabaseError>)
        requires
            old(self).wf(),
        ensures
            final(self).wf(),
            match r {
                Ok(()) => !db_has_key(old(self)@, node@.key) && final(self)@ == old(self)@.push(
                    node@,
                ),
                Err(e) => e == NeighborhoodDatabaseError::KeyAlreadyPresent && db_has_key(
                    old(self)@,
                    node@.key,
                ) && final(self)@ == old(self)@,
            },
    {
        if self.node_by_key(node.public_key()).is_some() {
            return Err(NeighborhoodDatabaseError::KeyAlreadyPresent);
        }
        self.nodes.push(node.clone());
        proof {
            assert(self@ =~= old(self)@.push(node@));
        }
        Ok(())
    }

    /// Record a directed edge `from -> to`. `from` must be a recorded peer;
    /// `to` may be any key, recorded or not (the graph may learn of an edge
    /// before it has details on the far endpoint). Recording an edge the
    /// graph already knows changes nothing.
    pub fn add_neighbor(&mut self, from: &PublicKey, to: &PublicKey) -> (r: Result<
        (),
        NeighborhoodDatabaseError,
    >)
        requires
            old(self).wf(),
        ensures
            final(self).wf(),
            match r {
                Ok(()) => db_has_key(old(self)@, from@) && final(self)@ == (if db_node(
                    old(self)@,
                    from@,
                ).neighbors.contains(to@) {
                    old(self)@
                } else {
                    old(self)@.update(
                        db_key_index(old(self)@, from@),
                        NodeRecordV {
                            neighbors: db_node(old(self)@, from@).neighbors.push(to@),
                            ..db_node(old(self)@, from@)
                        },
                    )
                }),
                Err(e) => e == NeighborhoodDatabaseError::KeyNotFound && !db_has_key(
                    old(self)@,
                    from@,
                ) && final(self)@ == old(self)@,
            },
    {
        let n: usize = self.nodes.len();
        let mut i: usize = 0;
        while i < n
            invariant
                i <= n,
                self@ == old(self)@,
                forall|j: int| 0 <= j < i ==> self@[j].key != from@,
            decreases n - i,
        {
            if key_eq(self.nodes[i].public_key(), from) {
                proof {
                    lemma_index_of_key(self@, i as int);
                }
                if self.nodes[i].has_neighbor(to) {
                    return Ok(());
                }
                let ghost before = self@;
                self.nodes[i].add_neighbor_key(to.clone());
                proof {
                    assert(self@ =~= before.update(
                        i as int,
                        NodeRecordV {
                            neighbors: before[i as int].neighbors.push(to@),
                            ..before[i as int]
                        },
                    ));
                }
                return Ok(());
            }
            i += 1;
        }
        Err(NeighborhoodDatabaseError::KeyNotFound)
    }
}

} // verus!
