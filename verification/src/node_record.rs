//! One peer as the local node knows it: key, optional address, relay flag,
//! and the set of peers it is known to connect to.
use vstd::prelude::*;
use crate::key::{PublicKey, NodeAddr, NodeAddrV, key_eq};

verus! {

/// The keys of a sequence of `PublicKey` values, as plain byte sequences.
pub open spec fn keys_view(s: Seq<PublicKey>) -> Seq<Seq<u8>> {
    s.map_values(|k: PublicKey| k@)
}

/// The spec-level value of an optional address.
pub open spec fn addr_opt_view(o: Option<NodeAddr>) -> Option<NodeAddrV> {
    match o {
        Some(a) => Some(a@),
        None => None,
    }
}

/// The spec-level value of one peer record.
#[verifier::ext_equal]
pub struct NodeRecordV {
    pub key: Seq<u8>,
    pub addr: Option<NodeAddrV>,
    pub is_bootstrap: bool,
    pub neighbors: Seq<Seq<u8>>,
}

/// One peer's identity as recorded locally. `neighbors` lists keys this peer
/// is known to have directed edges to; a listed key need not itself be a
/// recorded peer.
#[derive(Debug)]
pub struct NodeRecord {
    key: PublicKey,
    node_addr_opt: Option<NodeAddr>,
    is_bootstrap_node: bool,
    neighbors: Vec<PublicKey>,
}

impl View for NodeRecord {
    type V = NodeRecordV;

    closed spec fn view(&self) -> NodeRecordV {
        NodeRecordV {
            key: self.key@,
            addr: addr_opt_view(self.node_addr_opt),
            is_bootstrap: self.is_bootstrap_node,
            neighbors: keys_view(self.neighbors@),
        }
    }
}

impl NodeRecord {
    pub fn new(key: PublicKey, node_addr_opt: Option<NodeAddr>, is_bootstrap_node: bool) -> (r:
        NodeRecord)
        ensures
            r@ == (NodeRecordV {
                key: key@,
                addr: addr_opt_view(node_addr_opt),
                is_bootstrap: is_bootstrap_node,
                neighbors: Seq::<Seq<u8>>::empty(),
            }),
    {
        let r = NodeRecord { key, node_addr_opt, is_bootstrap_node, neighbors: Vec::new() };
        proof {
            assert(keys_view(r.neighbors@) =~= Seq::<Seq<u8>>::empty());
        }
        r
    }

    pub fn public_key(&self) -> (r: &PublicKey)
        ensures
            r@ == self@.key,
    {
        &self.key
    }

    pub fn node_addr_opt(&self) -> (r: Option<NodeAddr>)
        ensures
            addr_opt_view(r) == self@.addr,
    {
        match &self.node_addr_opt {
            Some(a) => Some(a.clone()),
            None => None,
        }
    }

    pub fn is_bootstrap_node(&self) -> (r: bool)
        ensures
            r == self@.is_bootstrap,
    {
        self.is_bootstrap_node
    }

    pub fn neighbors(&self) -> (r: &Vec<PublicKey>)
        ensures
            keys_view(r@) == self@.neighbors,
    {
        &self.neighbors
    }

    /// Record that this peer is known to connect to `key`.
    pub fn add_neighbor_key(&mut self, key: PublicKey)
        ensures
            final(self)@ == (NodeRecordV {
                neighbors: old(self)@.neighbors.push(key@),
                ..old(self)@
            }),
    {
        self.neighbors.push(key);
        proof {
            assert(keys_view(self.neighbors@) =~= old(self)@.neighbors.push(key@));
        }
    }

    /// A copy of this peer's declared neighbor keys, in declaration order.
    pub fn neighbor_keys(&self) -> (r: Vec<PublicKey>)
        ensures
            keys_view(r@) == self@.neighbors,
    {
        let mut out: Vec<PublicKey> = Vec::new();
        let n: usize = self.neighbors.len();
        let mut i: usize = 0;
        while i < n
            invariant
                i <= n,
                keys_view(out@) == self@.neighbors.take(i as int),
            decreases n - i,
        {
            out.push(self.neighbors[i].clone());
            proof {
                assert(keys_view(out@) =~= self@.neighbors.take(i + 1));
            }
            i += 1;
        }
        proof {
            assert(self@.neighbors.take(n as int) =~= self@.neighbors);
        }
        out
    }

    /// Whether this peer is known to have a directed edge to `key`.
    pub fn has_neighbor(&self, key: &PublicKey) -> (r: bool)
        ensures
            r == self@.neighbors.contains(key@),
    {
        let n: usize = self.neighbors.len();
        let mut i: usize = 0;
        while i < n
            invariant
                i <= n,
                forall|j: int| 0 <= j < i ==> self@.neighbors[j] != key@,
            decreases n - i,
        {
            if key_eq(&self.neighbors[i], key) {
                assert(self@.neighbors[i as int] == key@);
                return true;
            }
            i += 1;
        }
        false
    }
}

impl Clone for NodeRecord {
    fn clone(&self) -> (r: Self)
        ensures
            r@ == self@,
    {
        let node_addr_opt = match &self.node_addr_opt {
            Some(a) => Some(a.clone()),
            None => None,
        };
        let mut neighbors: Vec<PublicKey> = Vec::new();
        let n: usize = self.neighbors.len();
        let mut i: usize = 0;
        while i < n
            invariant
                i <= n,
                keys_view(neighbors@) == keys_view(self.neighbors@).take(i as int),
            decreases n - i,
        {
            neighbors.push(self.neighbors[i].clone());
            proof {
                assert(keys_view(neighbors@) =~= keys_view(self.neighbors@).take(i + 1));
            }
            i += 1;
        }
        proof {
            assert(keys_view(self.neighbors@).take(n as int) =~= keys_view(self.neighbors@));
        }
        NodeRecord { key: self.key.clone(), node_addr_opt, is_bootstrap_node: self.is_bootstrap_node, neighbors }
    }
}

} // verus!
