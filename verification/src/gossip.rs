//! The outbound gossip message and the builder that accumulates it:
//! an ordered list of disclosed peer entries, and directed edges between
//! them encoded by entry position.
use vstd::prelude::*;
use crate::key::{PublicKey, NodeAddr, key_eq};
use crate::node_record::{NodeRecord, NodeRecordV, keys_view, addr_opt_view};
use crate::neighborhood_database::{db_has_key, db_key_index, unique_keys, lemma_index_of_key};

verus! {

/// What one entry disclosed with the given reveal decision carries: the full
/// record if revealed, the record with its address withheld if masked.
pub open spec fn disclosed(n: NodeRecordV, reveal: bool) -> NodeRecordV {
    NodeRecordV { addr: if reveal { n.addr } else { None }, ..n }
}

/// One disclosed entry of a gossip message: the full record content, with the
/// address already masked or revealed per the producer's decision.
#[derive(Debug)]
pub struct GossipNodeRecord {
    pub public_key: PublicKey,
    pub node_addr_opt: Option<NodeAddr>,
    pub is_bootstrap_node: bool,
    pub neighbors: Vec<PublicKey>,
}

impl View for GossipNodeRecord {
    type V = NodeRecordV;

    open spec fn view(&self) -> NodeRecordV {
        NodeRecordV {
            key: self.public_key@,
            addr: addr_opt_view(self.node_addr_opt),
            is_bootstrap: self.is_bootstrap_node,
            neighbors: keys_view(self.neighbors@),
        }
    }
}

impl GossipNodeRecord {
    /// The entry disclosing `node`, with its address masked unless
    /// `reveal_address` is set.
    pub fn from(node: &NodeRecord, reveal_address: bool) -> (r: GossipNodeRecord)
        ensures
            r@ == disclosed(node@, reveal_address),
    {
        let r = GossipNodeRecord {
            public_key: node.public_key().clone(),
            node_addr_opt: if reveal_address {
                node.node_addr_opt()
            } else {
                None
            },
            is_bootstrap_node: node.is_bootstrap_node(),
            neighbors: node.neighbor_keys(),
        };
        proof {
            assert(r@ =~= disclosed(node@, reveal_address));
        }
        r
    }
}

impl Clone for GossipNodeRecord {
    fn clone(&self) -> (r: Self)
        ensures
            r@ == self@,
    {
        let node_addr_opt = match &self.node_addr_opt {
            Some(a) => Some(a.clone()),
            None => None,
        };
        let mut neighbors: Vec<PublicKey> = Vec::new();
        let n: usize = self.neighbors.len();
        let mut i: usize = 0;
        while i < n
            invariant
                i <= n,
                keys_view(neighbors@) == keys_view(self.neighbors@).take(i as int),
            decreases n - i,
        {
            neighbors.push(self.neighbors[i].clone());
            proof {
                assert(keys_view(neighbors@) =~= keys_view(self.neighbors@).take(i + 1));
            }
            i += 1;
        }
        proof {
            assert(keys_view(self.neighbors@).take(n as int) =~= keys_view(self.neighbors@));
            assert(keys_view(neighbors@) =~= keys_view(self.neighbors@));
        }
        let r = GossipNodeRecord {
            public_key: self.public_key.clone(),
            node_addr_opt,
            is_bootstrap_node: self.is_bootstrap_node,
            neighbors,
        };
        proof {
            assert(r@ =~= self@);
        }
        r
    }
}

fn key_vecs_equal(a: &Vec<PublicKey>, b: &Vec<PublicKey>) -> (r: bool)
    ensures
        r == (keys_view(a@) == keys_view(b@)),
{
    if a.len() != b.len() {
        assert(keys_view(a@).len() != keys_view(b@).len());
        return false;
    }
    let n: usize = a.len();
    let mut i: usize = 0;
    while i < n
        invariant
            i <= n,
            forall|j: int| 0 <= j < i ==> keys_view(a@)[j] == keys_view(b@)[j],
        decreases n - i,
    {
        if !key_eq(&a[i], &b[i]) {
            assert(keys_view(a@)[i as int] != keys_view(b@)[i as int]);
            return false;
        }
        i += 1;
    }
    proof {
        assert(keys_view(a@) =~= keys_view(b@));
    }
    true
}

impl PartialEq for GossipNodeRecord {
    fn eq(&self, other: &GossipNodeRecord) -> (r: bool) {
        let addrs_match = match (&self.node_addr_opt, &other.node_addr_opt) {
            (Some(a), Some(b)) => *a == *b,
            (None, None) => true,
            _ => false,
        };
        let r = key_eq(&self.public_key, &other.public_key) && addrs_match
            && self.is_bootstrap_node == other.is_bootstrap_node && key_vecs_equal(
            &self.neighbors,
            &other.neighbors,
        );
        proof {
            if r {
                assert(self@ =~= other@);
            } else {
                assert(self@ != other@);
            }
        }
        r
    }
}

impl vstd::std_specs::cmp::PartialEqSpecImpl for GossipNodeRecord {
    open spec fn obeys_eq_spec() -> bool {
        true
    }

    open spec fn eq_spec(&self, other: &GossipNodeRecord) -> bool {
        self@ == other@
    }
}

impl Eq for GossipNodeRecord {}

/// One disclosed directed edge, by position into the entry list.
#[derive(Clone, Copy, PartialEq, Eq, Structural, Debug)]
pub struct NeighborRelationship {
    pub from: usize,
    pub to: usize,
}

/// The spec-level value of a gossip message.
#[verifier::ext_equal]
pub struct GossipV {
    pub node_records: Seq<NodeRecordV>,
    pub neighbor_pairs: Seq<(int, int)>,
}

/// The finished message: disclosed entries in insertion order, and edges
/// referencing them by position.
#[derive(Debug)]
pub struct Gossip {
    pub node_records: Vec<GossipNodeRecord>,
    pub neighbor_pairs: Vec<NeighborRelationship>,
}

impl View for Gossip {
    type V = GossipV;

    open spec fn view(&self) -> GossipV {
        GossipV {
            node_records: self.node_records@.map_values(|n: GossipNodeRecord| n@),
            neighbor_pairs: self.neighbor_pairs@.map_values(
                |e: NeighborRelationship| (e.from as int, e.to as int),
            ),
        }
    }
}

/// Accumulates one gossip message: entries first, then edges between entries
/// already added. Single-use; `build` consumes it.
pub struct GossipBuilder {
    node_records: Vec<GossipNodeRecord>,
    neighbor_pairs: Vec<NeighborRelationship>,
}

impl View for GossipBuilder {
    type V = GossipV;

    closed spec fn view(&self) -> GossipV {
        GossipV {
            node_records: self.node_records@.map_values(|n: GossipNodeRecord| n@),
            neighbor_pairs: self.neighbor_pairs@.map_values(
                |e: NeighborRelationship| (e.from as int, e.to as int),
            ),
        }
    }
}

impl GossipBuilder {
    pub fn new() -> (r: GossipBuilder)
        ensures
            r@.node_records =~= Seq::<NodeRecordV>::empty(),
            r@.neighbor_pairs =~= Seq::<(int, int)>::empty(),
    {
        GossipBuilder { node_records: Vec::new(), neighbor_pairs: Vec::new() }
    }

    /// Append one disclosed entry for `node`, masking its address unless
    /// `reveal_address` is set. Each key may be added at most once per build;
    /// the returned value is the entry's position.
    pub fn add_node(&mut self, node: &NodeRecord, reveal_address: bool) -> (pos: usize)
        requires
            !db_has_key(old(self)@.node_records, node@.key),
        ensures
            final(self)@.node_records == old(self)@.node_records.push(
                disclosed(node@, reveal_address),
            ),
            final(self)@.neighbor_pairs == old(self)@.neighbor_pairs,
            pos == old(self)@.node_records.len(),
    {
        let pos = self.node_records.len();
        self.node_records.push(GossipNodeRecord::from(node, reveal_address));
        proof {
            assert(self@.node_records =~= old(self)@.node_records.push(
                disclosed(node@, reveal_address),
            ));
            assert(self@.neighbor_pairs =~= old(self)@.neighbor_pairs);
        }
        pos
    }

    /// Append one edge between two keys already added as entries, encoded by
    /// their entry positions.
    pub fn add_edge(&mut self, from: &PublicKey, to: &PublicKey)
        requires
            unique_keys(old(self)@.node_records),
            db_has_key(old(self)@.node_records, from@),
            db_has_key(old(self)@.node_records, to@),
        ensures
            final(self)@.node_records == old(self)@.node_records,
            final(self)@.neighbor_pairs == old(self)@.neighbor_pairs.push(
                (
                    db_key_index(old(self)@.node_records, from@),
                    db_key_index(old(self)@.node_records, to@),
                ),
            ),
    {
        let from_pos = self.position_of(from);
        let to_pos = self.position_of(to);
        self.neighbor_pairs.push(NeighborRelationship { from: from_pos, to: to_pos });
        proof {
            assert(self@.node_records =~= old(self)@.node_records);
            assert(self@.neighbor_pairs =~= old(self)@.neighbor_pairs.push(
                (
                    db_key_index(old(self)@.node_records, from@),
                    db_key_index(old(self)@.node_records, to@),
                ),
            ));
        }
    }

    fn position_of(&self, key: &PublicKey) -> (pos: usize)
        requires
            unique_keys(self@.node_records),
            db_has_key(self@.node_records, key@),
        ensures
            pos == db_key_index(self@.node_records, key@),
    {
        let n: usize = self.node_records.len();
        let mut i: usize = 0;
        while i < n
            invariant
                i <= n,
                forall|j: int| 0 <= j < i ==> self@.node_records[j].key != key@,
            decreases n - i,
        {
            if key_eq(&self.node_records[i].public_key, key) {
                proof {
                    lemma_index_of_key(self@.node_records, i as int);
                }
                return i;
            }
            i += 1;
        }
        proof {
            assert(!db_has_key(self@.node_records, key@));
        }
        0
    }

    /// Finish, yielding the immutable message.
    pub fn build(self) -> (g: Gossip)
        ensures
            g@ == self@,
    {
        let g = Gossip { node_records: self.node_records, neighbor_pairs: self.neighbor_pairs };
        proof {
            assert(g@ =~= self@);
        }
        g
    }
}

} // verus!
