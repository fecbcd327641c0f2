//! Identifiers and addresses of peers: a content-compared public key and a
//! plain network address (IP bytes plus listening ports).
use vstd::prelude::*;

verus! {

/// Opaque, content-compared identifier of one peer.
#[derive(Debug)]
pub struct PublicKey {
    bytes: Vec<u8>,
}

impl View for PublicKey {
    type V = Seq<u8>;

    closed spec fn view(&self) -> Seq<u8> {
        self.bytes@
    }
}

impl PublicKey {
    pub fn new(bytes: Vec<u8>) -> (r: PublicKey)
        ensures
            r@ == bytes@,
    {
        PublicKey { bytes }
    }

    pub fn as_bytes(&self) -> (r: &Vec<u8>)
        ensures
            r@ == self@,
    {
        &self.bytes
    }
}

fn bytes_equal(a: &Vec<u8>, b: &Vec<u8>) -> (r: bool)
    ensures
        r == (a@ == b@),
{
    if a.len() != b.len() {
        assert(a@ != b@);
        return false;
    }
    let n: usize = a.len();
    let mut i: usize = 0;
    while i < n
        invariant
            i <= n,
            forall|j: int| 0 <= j < i ==> a@[j] == b@[j],
        decreases n - i,
    {
        if a[i] != b[i] {
            return false;
        }
        i += 1;
    }
    proof {
        assert(a@ =~= b@);
    }
    true
}

/// Content equality of two keys, stated over their byte views.
pub fn key_eq(a: &PublicKey, b: &PublicKey) -> (r: bool)
    ensures
        r == (a@ == b@),
{
    bytes_equal(&a.bytes, &b.bytes)
}

impl Clone for PublicKey {
    fn clone(&self) -> (r: Self)
        ensures
            r@ == self@,
    {
        let mut bytes: Vec<u8> = Vec::new();
        let n: usize = self.bytes.len();
        let mut i: usize = 0;
        while i < n
            invariant
                i <= n,
                bytes@ == self.bytes@.take(i as int),
            decreases n - i,
        {
            bytes.push(self.bytes[i]);
            proof {
                assert(bytes@ =~= self.bytes@.take(i + 1));
            }
            i += 1;
        }
        proof {
            assert(self.bytes@.take(n as int) =~= self.bytes@);
        }
        PublicKey { bytes }
    }
}

impl PartialEq for PublicKey {
    fn eq(&self, other: &PublicKey) -> (r: bool) {
        bytes_equal(&self.bytes, &other.bytes)
    }
}

impl vstd::std_specs::cmp::PartialEqSpecImpl for PublicKey {
    open spec fn obeys_eq_spec() -> bool {
        true
    }

    open spec fn eq_spec(&self, other: &PublicKey) -> bool {
        self@ == other@
    }
}

impl Eq for PublicKey {}

/// The spec-level value of a network address.
#[verifier::ext_equal]
pub struct NodeAddrV {
    pub ip: Seq<u8>,
    pub ports: Seq<u16>,
}

/// A peer's network address: IP bytes plus the ports it listens on.
#[derive(Debug)]
pub struct NodeAddr {
    ip: Vec<u8>,
    ports: Vec<u16>,
}

impl View for NodeAddr {
    type V = NodeAddrV;

    closed spec fn view(&self) -> NodeAddrV {
        NodeAddrV { ip: self.ip@, ports: self.ports@ }
    }
}

impl NodeAddr {
    pub fn new(ip: Vec<u8>, ports: Vec<u16>) -> (r: NodeAddr)
        ensures
            r@ == (NodeAddrV { ip: ip@, ports: ports@ }),
    {
        NodeAddr { ip, ports }
    }

    pub fn ip(&self) -> (r: &Vec<u8>)
        ensures
            r@ == self@.ip,
    {
        &self.ip
    }

    pub fn ports(&self) -> (r: &Vec<u16>)
        ensures
            r@ == self@.ports,
    {
        &self.ports
    }
}

impl Clone for NodeAddr {
    fn clone(&self) -> (r: Self)
        ensures
            r@ == self@,
    {
        let mut ip: Vec<u8> = Vec::new();
        let n: usize = self.ip.len();
        let mut i: usize = 0;
        while i < n
            invariant
                i <= n,
                ip@ == self.ip@.take(i as int),
            decreases n - i,
        {
            ip.push(self.ip[i]);
            proof {
                assert(ip@ =~= self.ip@.take(i + 1));
            }
            i += 1;
        }
        let mut ports: Vec<u16> = Vec::new();
        let m: usize = self.ports.len();
        let mut j: usize = 0;
        while j < m
            invariant
                j <= m,
                ports@ == self.ports@.take(j as int),
            decreases m - j,
        {
            ports.push(self.ports[j]);
            proof {
                assert(ports@ =~= self.ports@.take(j + 1));
            }
            j += 1;
        }
        proof {
            assert(self.ip@.take(n as int) =~= self.ip@);
            assert(self.ports@.take(m as int) =~= self.ports@);
        }
        NodeAddr { ip, ports }
    }
}

fn ports_equal(a: &Vec<u16>, b: &Vec<u16>) -> (r: bool)
    ensures
        r == (a@ == b@),
{
    if a.len() != b.len() {
        assert(a@ != b@);
        return false;
    }
    let n: usize = a.len();
    let mut i: usize = 0;
    while i < n
        invariant
            i <= n,
            forall|j: int| 0 <= j < i ==> a@[j] == b@[j],
        decreases n - i,
    {
        if a[i] != b[i] {
            return false;
        }
        i += 1;
    }
    proof {
        assert(a@ =~= b@);
    }
    true
}

impl PartialEq for NodeAddr {
    fn eq(&self, other: &NodeAddr) -> (r: bool) {
        bytes_equal(&self.ip, &other.ip) && ports_equal(&self.ports, &other.ports)
    }
}

impl vstd::std_specs::cmp::PartialEqSpecImpl for NodeAddr {
    open spec fn obeys_eq_spec() -> bool {
        true
    }

    open spec fn eq_spec(&self, other: &NodeAddr) -> bool {
        self@ == other@
    }
}

impl Eq for NodeAddr {}

} // verus!
