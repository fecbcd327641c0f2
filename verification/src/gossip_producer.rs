//! The gossip production algorithm: renders the whole local graph into a
//! message for one target peer, deciding which addresses to reveal, which
//! extra peers to introduce, and which edges to disclose.
use vstd::prelude::*;
use vstd::multiset::Multiset;
use crate::key::{PublicKey, key_eq};
use crate::node_record::{NodeRecord, NodeRecordV, keys_view};
use crate::neighborhood_database::{
    NeighborhoodDatabase, db_has_key, db_key_index, db_node, unique_keys, lemma_index_of_key,
};
use crate::gossip::{disclosed, Gossip, GossipV, GossipBuilder};

verus! {

/// The baseline minimum of standard (non-relay) neighbors below which a
/// target is offered introductions.
pub const DEFAULT_MINIMUM_NEIGHBORS: usize = 3;

/// Why production was refused.
#[derive(Debug, PartialEq, Eq, Structural)]
pub enum GossipProducerError {
    /// The caller asked to gossip to a key the graph does not hold.
    TargetNotFound,
    /// A neighbor key that had to be resolved has no record in the graph.
    DanglingNeighborReference,
}

/// Whether the key `k` counts as a standard peer when sizing the target's
/// need for introductions: a relay does not count, and a key the graph has
/// no record for is conservatively assumed standard.
pub open spec fn counts_as_standard(dbv: Seq<NodeRecordV>, k: Seq<u8>) -> bool {
    !db_has_key(dbv, k) || !db_node(dbv, k).is_bootstrap
}

/// How many of the keys in `nbrs` count as standard peers.
pub open spec fn standard_neighbor_count(dbv: Seq<NodeRecordV>, nbrs: Seq<Seq<u8>>) -> int
    decreases nbrs.len(),
{
    if nbrs.len() == 0 {
        0
    } else {
        standard_neighbor_count(dbv, nbrs.drop_last()) + if counts_as_standard(
            dbv,
            nbrs.last(),
        ) {
            1int
        } else {
            0int
        }
    }
}

/// Whether the target qualifies for introductions at all: it is not a relay,
/// the root is directly connected to it, and it knows fewer than `min`
/// standard peers.
pub open spec fn intro_gate(dbv: Seq<NodeRecordV>, target: NodeRecordV, min: int) -> bool {
    &&& !target.is_bootstrap
    &&& dbv[0].neighbors.contains(target.key)
    &&& standard_neighbor_count(dbv, target.neighbors) < min
}

/// Whether a root neighbor `k` is eligible to be introduced to the target:
/// not already the target's neighbor, not the target itself, and recorded as
/// a non-relay peer.
pub open spec fn eligible_candidate(dbv: Seq<NodeRecordV>, target: NodeRecordV, k: Seq<u8>) -> bool {
    &&& !target.neighbors.contains(k)
    &&& k != target.key
    &&& db_has_key(dbv, k)
    &&& !db_node(dbv, k).is_bootstrap
}

/// Whether a root neighbor `k` passes the candidate pre-filters but cannot be
/// resolved: that is the hard consistency failure of candidate selection.
pub open spec fn unresolvable_candidate(
    dbv: Seq<NodeRecordV>,
    target: NodeRecordV,
    k: Seq<u8>,
) -> bool {
    &&& !target.neighbors.contains(k)
    &&& k != target.key
    &&& !db_has_key(dbv, k)
}

/// Whether some root neighbor is an unresolvable candidate.
pub open spec fn candidate_dangling(dbv: Seq<NodeRecordV>, target: NodeRecordV) -> bool {
    exists|i: int|
        0 <= i < dbv[0].neighbors.len() && unresolvable_candidate(
            dbv,
            target,
            dbv[0].neighbors[i],
        )
}

/// The eligible candidates among `nbrs`, in enumeration order.
pub open spec fn eligible_candidates(
    dbv: Seq<NodeRecordV>,
    target: NodeRecordV,
    nbrs: Seq<Seq<u8>>,
) -> Seq<Seq<u8>>
    decreases nbrs.len(),
{
    if nbrs.len() == 0 {
        Seq::<Seq<u8>>::empty()
    } else {
        let pre = eligible_candidates(dbv, target, nbrs.drop_last());
        if eligible_candidate(dbv, target, nbrs.last()) {
            pre.push(nbrs.last())
        } else {
            pre
        }
    }
}

/// How many neighbors the recorded peer `k` declares.
pub open spec fn connection_count(dbv: Seq<NodeRecordV>, k: Seq<u8>) -> int {
    db_node(dbv, k).neighbors.len() as int
}

/// Stable insertion of `k` into `s`: `k` goes in front of the first element
/// with a strictly greater connection count, so earlier-enumerated elements
/// of equal count stay in front of it.
pub open spec fn rank_insert(dbv: Seq<NodeRecordV>, s: Seq<Seq<u8>>, k: Seq<u8>) -> Seq<Seq<u8>>
    decreases s.len(),
{
    if s.len() == 0 {
        seq![k]
    } else if connection_count(dbv, k) < connection_count(dbv, s[0]) {
        seq![k] + s
    } else {
        seq![s[0]] + rank_insert(dbv, s.subrange(1, s.len() as int), k)
    }
}

/// The candidates ordered ascending by connection count, ties kept in
/// enumeration order (a stable insertion sort).
pub open spec fn ranked(dbv: Seq<NodeRecordV>, cands: Seq<Seq<u8>>) -> Seq<Seq<u8>>
    decreases cands.len(),
{
    if cands.len() == 0 {
        Seq::<Seq<u8>>::empty()
    } else {
        rank_insert(dbv, ranked(dbv, cands.drop_last()), cands.last())
    }
}

/// The keys the producer introduces to the target: nothing unless the
/// target qualifies; otherwise the lowest-connectivity eligible candidates, as many as
/// the target is short of `min` standard neighbors.
pub open spec fn introductions(dbv: Seq<NodeRecordV>, target: NodeRecordV, min: int) -> Seq<
    Seq<u8>,
> {
    if !intro_gate(dbv, target, min) {
        Seq::<Seq<u8>>::empty()
    } else {
        let needed = min - standard_neighbor_count(dbv, target.neighbors);
        let r = ranked(dbv, eligible_candidates(dbv, target, dbv[0].neighbors));
        if needed <= r.len() {
            r.take(needed)
        } else {
            r
        }
    }
}

/// Whether introduction selection must fail: the target qualifies, yet
/// some candidate cannot be resolved.
pub open spec fn intro_failure(dbv: Seq<NodeRecordV>, target: NodeRecordV, min: int) -> bool {
    intro_gate(dbv, target, min) && candidate_dangling(dbv, target)
}

/// Whether the entry for `n` reveals its address: the target knows `n`, or
/// `n` knows the target, or `n` is being introduced.
pub open spec fn reveal_address(
    dbv: Seq<NodeRecordV>,
    target: NodeRecordV,
    intros: Seq<Seq<u8>>,
    n: NodeRecordV,
) -> bool {
    ||| n.neighbors.contains(target.key)
    ||| target.neighbors.contains(n.key)
    ||| intros.contains(n.key)
}

/// The entry list of the message: every record of the graph, in graph order,
/// its address masked unless the reveal rule grants it.
pub open spec fn disclosed_entries(
    dbv: Seq<NodeRecordV>,
    target: NodeRecordV,
    intros: Seq<Seq<u8>>,
) -> Seq<NodeRecordV> {
    dbv.map_values(|n: NodeRecordV| disclosed(n, reveal_address(dbv, target, intros, n)))
}

/// Whether an edge to `k` is disclosed: `k` must be recorded, and not as a
/// relay (edges into relays are suppressed; edges out of them are not).
pub open spec fn edge_disclosed(dbv: Seq<NodeRecordV>, k: Seq<u8>) -> bool {
    db_has_key(dbv, k) && !db_node(dbv, k).is_bootstrap
}

/// The disclosed edges out of the record at position `i`, over its neighbor
/// prefix `nbrs`, as entry-position pairs.
pub open spec fn edges_from(dbv: Seq<NodeRecordV>, i: int, nbrs: Seq<Seq<u8>>) -> Seq<(int, int)>
    decreases nbrs.len(),
{
    if nbrs.len() == 0 {
        Seq::<(int, int)>::empty()
    } else {
        let pre = edges_from(dbv, i, nbrs.drop_last());
        if edge_disclosed(dbv, nbrs.last()) {
            pre.push((i, db_key_index(dbv, nbrs.last())))
        } else {
            pre
        }
    }
}

/// The disclosed edges out of the first `n` records, in graph order.
pub open spec fn edges_up_to(dbv: Seq<NodeRecordV>, n: int) -> Seq<(int, int)>
    decreases n,
{
    if n <= 0 {
        Seq::<(int, int)>::empty()
    } else {
        edges_up_to(dbv, n - 1) + edges_from(dbv, n - 1, dbv[n - 1].neighbors)
    }
}

/// The edge list of the message: every known edge whose destination is a
/// recorded non-relay peer.
pub open spec fn disclosed_edges(dbv: Seq<NodeRecordV>) -> Seq<(int, int)> {
    edges_up_to(dbv, dbv.len() as int)
}

/// Whether some record declares a neighbor key the graph has no record for:
/// edge construction must then fail.
pub open spec fn neighbor_dangling(dbv: Seq<NodeRecordV>) -> bool {
    exists|i: int, j: int|
        0 <= i < dbv.len() && 0 <= j < dbv[i].neighbors.len() && !db_has_key(
            dbv,
            dbv[i].neighbors[j],
        )
}

/// Whether production must fail on a present target: introduction selection
/// hits an unresolvable candidate, or some declared edge dangles.
pub open spec fn produce_failure(dbv: Seq<NodeRecordV>, target: NodeRecordV, min: int) -> bool {
    intro_failure(dbv, target, min) || neighbor_dangling(dbv)
}

/// Exactly what production returns for a graph `dbv`, target key `tkey` and
/// threshold `min`, with the message abstracted to its spec value: the
/// whole behaviour of `produce` is this predicate.
pub open spec fn produce_post(
    dbv: Seq<NodeRecordV>,
    tkey: Seq<u8>,
    min: int,
    r: Result<GossipV, GossipProducerError>,
) -> bool {
    match r {
        Ok(gv) => {
            &&& db_has_key(dbv, tkey)
            &&& !produce_failure(dbv, db_node(dbv, tkey), min)
            &&& gv.node_records == disclosed_entries(
                dbv,
                db_node(dbv, tkey),
                introductions(dbv, db_node(dbv, tkey), min),
            )
            &&& gv.neighbor_pairs == disclosed_edges(dbv)
        },
        Err(GossipProducerError::TargetNotFound) => !db_has_key(dbv, tkey),
        Err(GossipProducerError::DanglingNeighborReference) => db_has_key(dbv, tkey)
            && produce_failure(dbv, db_node(dbv, tkey), min),
    }
}

/// The spec value of a production result.
pub open spec fn result_view(r: Result<Gossip, GossipProducerError>) -> Result<
    GossipV,
    GossipProducerError,
> {
    match r {
        Ok(g) => Ok(g@),
        Err(e) => Err(e),
    }
}

/// Renders a graph snapshot into a gossip message for one target peer.
pub trait GossipProducer {
    /// The minimum-standard-neighbor threshold this producer applies.
    spec fn minimum_standard_neighbors(&self) -> int;

    /// Produce the message for `target`: every record disclosed, addresses
    /// revealed only by the reveal rule, edges into relays suppressed; fails
    /// with `TargetNotFound` exactly when the graph does not hold `target`,
    /// and with `DanglingNeighborReference` exactly when a lookup the
    /// algorithm requires cannot be resolved.
    fn produce(&self, database: &NeighborhoodDatabase, target: &PublicKey) -> (r: Result<
        Gossip,
        GossipProducerError,
    >)
        requires
            database.wf(),
        ensures
            produce_post(database@, target@, self.minimum_standard_neighbors(), result_view(r)),
    ;
}

/// Chooses introductions for a target peer.
pub struct GossipProducerReal {
    minimum_neighbors: usize,
}

fn vec_contains_key(v: &Vec<PublicKey>, k: &PublicKey) -> (r: bool)
    ensures
        r == keys_view(v@).contains(k@),
{
    let n: usize = v.len();
    let mut i: usize = 0;
    while i < n
        invariant
            i <= n,
            forall|j: int| 0 <= j < i ==> keys_view(v@)[j] != k@,
        decreases n - i,
    {
        if key_eq(&v[i], k) {
            assert(keys_view(v@)[i as int] == k@);
            return true;
        }
        i += 1;
    }
    false
}

/// The declared neighbor count of the recorded peer `k`.
fn connection_count_of(database: &NeighborhoodDatabase, k: &PublicKey) -> (r: usize)
    requires
        unique_keys(database@),
        db_has_key(database@, k@),
    ensures
        r == connection_count(database@, k@),
{
    match database.node_by_key(k) {
        Some(node) => node.neighbors().len(),
        None => {
            proof {
                assert(false);
            }
            0
        },
    }
}

/// `rank_insert`, executably: insert `k` into the already ranked `s`.
fn rank_insert_into(database: &NeighborhoodDatabase, s: &mut Vec<PublicKey>, k: PublicKey)
    requires
        unique_keys(database@),
        db_has_key(database@, k@),
        forall|j: int|
            0 <= j < old(s)@.len() ==> db_has_key(database@, keys_view(old(s)@)[j]),
    ensures
        keys_view(final(s)@) == rank_insert(database@, keys_view(old(s)@), k@),
        forall|j: int| 0 <= j < final(s)@.len() ==> db_has_key(database@, keys_view(final(s)@)[j]),
{
    let ghost dbv = database@;
    let ghost sv = keys_view(s@);
    let ck: usize = connection_count_of(database, &k);
    let idx: usize = find_rank_position(database, s, ck);
    proof {
        lemma_rank_insert_at(dbv, sv, k@, idx as int);
        sv.insert_ensures(idx as int, k@);
    }
    s.insert(idx, k);
    proof {
        assert(keys_view(s@) =~= sv.insert(idx as int, k@));
        assert forall|j: int| 0 <= j < s@.len() implies db_has_key(dbv, keys_view(s@)[j]) by {
            if j < idx {
                assert(keys_view(s@)[j] == sv[j]);
            } else if j == idx {
                assert(keys_view(s@)[j] == k@);
            } else {
                assert(keys_view(s@)[j] == sv[j - 1]);
            }
        }
    }
}

fn find_rank_position(database: &NeighborhoodDatabase, s: &Vec<PublicKey>, ck: usize) -> (idx:
    usize)
    requires
        unique_keys(database@),
        forall|j: int| 0 <= j < s@.len() ==> db_has_key(database@, keys_view(s@)[j]),
    ensures
        0 <= idx <= s@.len(),
        forall|j: int| 0 <= j < idx ==> connection_count(database@, keys_view(s@)[j]) <= ck,
        idx == s@.len() || ck < connection_count(database@, keys_view(s@)[idx as int]),
{
    let ghost dbv = database@;
    let n: usize = s.len();
    let mut i: usize = 0;
    while i < n
        invariant
            i <= n,
            forall|j: int| 0 <= j < i ==> connection_count(dbv, keys_view(s@)[j]) <= ck,
        decreases n - i,
    {
        assert(keys_view(s@)[i as int] == s@[i as int]@);
        if connection_count_of(database, &s[i]) > ck {
            return i;
        }
        i += 1;
    }
    n
}

/// Where the stable insertion lands: in front of the first element with a
/// strictly greater connection count.
proof fn lemma_rank_insert_at(dbv: Seq<NodeRecordV>, sv: Seq<Seq<u8>>, k: Seq<u8>, idx: int)
    requires
        0 <= idx <= sv.len(),
        forall|j: int| 0 <= j < idx ==> connection_count(dbv, sv[j]) <= connection_count(dbv, k),
        idx == sv.len() || connection_count(dbv, k) < connection_count(dbv, sv[idx]),
    ensures
        rank_insert(dbv, sv, k) == sv.insert(idx, k),
    decreases sv.len(),
{
    if sv.len() == 0 {
        assert(sv.insert(0, k) =~= seq![k]);
    } else if connection_count(dbv, k) < connection_count(dbv, sv[0]) {
        assert(idx == 0);
        assert(seq![k] + sv =~= sv.insert(0, k));
    } else {
        assert(idx >= 1);
        let rest = sv.subrange(1, sv.len() as int);
        assert(forall|j: int|
            0 <= j < idx - 1 ==> connection_count(dbv, #[trigger] rest[j]) <= connection_count(
                dbv,
                k,
            ));
        lemma_rank_insert_at(dbv, rest, k, idx - 1);
        assert(seq![sv[0]] + rest.insert(idx - 1, k) =~= sv.insert(idx, k));
    }
}

impl GossipProducerReal {
    /// The threshold this producer was configured with.
    pub closed spec fn minimum_standard_neighbors(&self) -> int {
        self.minimum_neighbors as int
    }

    /// A producer with the baseline threshold.
    pub fn new() -> (r: GossipProducerReal)
        ensures
            r.minimum_standard_neighbors() == DEFAULT_MINIMUM_NEIGHBORS,
    {
        GossipProducerReal { minimum_neighbors: DEFAULT_MINIMUM_NEIGHBORS }
    }

    /// A producer with an explicit minimum-standard-neighbor threshold.
    pub fn with_minimum_neighbors(minimum_neighbors: usize) -> (r: GossipProducerReal)
        ensures
            r.minimum_standard_neighbors() == minimum_neighbors,
    {
        GossipProducerReal { minimum_neighbors }
    }

    /// Select the peers to introduce to `target`: nothing unless the target
    /// is a standard peer the root connects to directly and it is short of
    /// standard neighbors; otherwise the least-connected eligible root
    /// neighbors, as many as the shortfall, resolved strictly (an
    /// unrecorded candidate is a hard failure, unlike the tolerant counting
    /// of the target's own neighbors).
    pub fn choose_introductions(&self, database: &NeighborhoodDatabase, target: &NodeRecord) -> (r:
        Result<Vec<PublicKey>, GossipProducerError>)
        requires
            database.wf(),
        ensures
            match r {
                Ok(v) => !intro_failure(database@, target@, self.minimum_standard_neighbors())
                    && keys_view(v@) == introductions(
                    database@,
                    target@,
                    self.minimum_standard_neighbors(),
                ),
                Err(e) => e == GossipProducerError::DanglingNeighborReference && intro_failure(
                    database@,
                    target@,
                    self.minimum_standard_neighbors(),
                ),
            },
    {
        let ghost dbv = database@;
        let ghost t = target@;
        let ghost min = self.minimum_standard_neighbors();

        // Count the target's standard neighbors, assuming a key the graph
        // has no record of names a standard peer.
        let target_neighbors = target.neighbors();
        let tn: usize = target_neighbors.len();
        let mut standard_count: usize = 0;
        let mut i: usize = 0;
        while i < tn
            invariant
                i <= tn,
                standard_count <= i,
                standard_count == standard_neighbor_count(dbv, t.neighbors.take(i as int)),
            decreases tn - i,
        {
            let is_standard = match database.node_by_key(&target_neighbors[i]) {
                Some(node) => !node.is_bootstrap_node(),
                None => true,
            };
            proof {
                assert(t.neighbors.take(i as int + 1).drop_last() =~= t.neighbors.take(i as int));
                assert(t.neighbors.take(i as int + 1).last() == t.neighbors[i as int]);
            }
            if is_standard {
                standard_count += 1;
            }
            i += 1;
        }
        proof {
            assert(t.neighbors.take(tn as int) =~= t.neighbors);
        }

        if target.is_bootstrap_node() || !database.root().has_neighbor(target.public_key())
            || standard_count >= self.minimum_neighbors {
            assert(!intro_gate(dbv, t, min));
            let empty: Vec<PublicKey> = Vec::new();
            proof {
                assert(keys_view(empty@) =~= introductions(dbv, t, min));
            }
            return Ok(empty);
        }
        assert(intro_gate(dbv, t, min));

        // Collect the eligible candidates, in root-neighbor order; a
        // candidate that passes the pre-filters but has no record is a hard
        // failure.
        let root_neighbors = database.root().neighbors();
        let rn: usize = root_neighbors.len();
        let mut cands: Vec<PublicKey> = Vec::new();
        let mut i: usize = 0;
        while i < rn
            invariant
                i <= rn,
                keys_view(cands@) == eligible_candidates(dbv, t, dbv[0].neighbors.take(i as int)),
                forall|j: int| 0 <= j < i ==> !unresolvable_candidate(dbv, t, dbv[0].neighbors[j]),
                forall|j: int|
                    0 <= j < cands@.len() ==> db_has_key(dbv, keys_view(cands@)[j]),
            decreases rn - i,
        {
            let k = &root_neighbors[i];
            proof {
                assert(dbv[0].neighbors.take(i as int + 1).drop_last() =~= dbv[0].neighbors.take(
                    i as int,
                ));
                assert(dbv[0].neighbors.take(i as int + 1).last() == dbv[0].neighbors[i as int]);
            }
            if !target.has_neighbor(k) && !key_eq(k, target.public_key()) {
                match database.node_by_key(k) {
                    Some(node) => {
                        if !node.is_bootstrap_node() {
                            cands.push(k.clone());
                            proof {
                                assert(keys_view(cands@) =~= eligible_candidates(
                                    dbv,
                                    t,
                                    dbv[0].neighbors.take(i as int + 1),
                                ));
                            }
                        }
                    },
                    None => {
                        assert(unresolvable_candidate(dbv, t, dbv[0].neighbors[i as int]));
                        assert(candidate_dangling(dbv, t));
                        return Err(GossipProducerError::DanglingNeighborReference);
                    },
                }
            }
            i += 1;
        }
        proof {
            assert(dbv[0].neighbors.take(rn as int) =~= dbv[0].neighbors);
            assert(!candidate_dangling(dbv, t));
        }

        // Rank the candidates ascending by connection count, stably.
        let cn: usize = cands.len();
        let mut chosen: Vec<PublicKey> = Vec::new();
        let mut i: usize = 0;
        while i < cn
            invariant
                i <= cn,
                forall|j: int|
                    0 <= j < cands@.len() ==> db_has_key(dbv, keys_view(cands@)[j]),
                keys_view(cands@) == eligible_candidates(dbv, t, dbv[0].neighbors),
                keys_view(chosen@) == ranked(dbv, keys_view(cands@).take(i as int)),
                forall|j: int|
                    0 <= j < chosen@.len() ==> db_has_key(dbv, keys_view(chosen@)[j]),
            decreases cn - i,
        {
            proof {
                assert(keys_view(cands@).take(i as int + 1).drop_last() =~= keys_view(
                    cands@,
                ).take(i as int));
                assert(keys_view(cands@).take(i as int + 1).last() == keys_view(cands@)[i as int]);
            }
            rank_insert_into(database, &mut chosen, cands[i].clone());
            i += 1;
        }
        proof {
            assert(keys_view(cands@).take(cn as int) =~= keys_view(cands@));
        }

        // Keep only as many as the target is short of.
        let needed: usize = self.minimum_neighbors - standard_count;
        if needed < chosen.len() {
            chosen.truncate(needed);
            proof {
                assert(keys_view(chosen@) =~= ranked(
                    dbv,
                    eligible_candidates(dbv, t, dbv[0].neighbors),
                ).take(needed as int));
            }
        }
        proof {
            let r = ranked(dbv, eligible_candidates(dbv, t, dbv[0].neighbors));
            if needed as int >= r.len() {
                assert(r.take(r.len() as int) =~= r);
            }
            assert(keys_view(chosen@) == introductions(dbv, t, min));
        }
        Ok(chosen)
    }
}

impl GossipProducer for GossipProducerReal {
    open spec fn minimum_standard_neighbors(&self) -> int {
        GossipProducerReal::minimum_standard_neighbors(self)
    }

    fn produce(&self, database: &NeighborhoodDatabase, target: &PublicKey) -> (r: Result<
        Gossip,
        GossipProducerError,
    >) {
        let ghost dbv = database@;
        let ghost min = self.minimum_standard_neighbors();

        let target_node = match database.node_by_key(target) {
            Some(node) => node,
            None => {
                return Err(GossipProducerError::TargetNotFound);
            },
        };
        let ghost t = db_node(dbv, target@);
        proof {
            let ix = db_key_index(dbv, target@);
            assert(0 <= ix < dbv.len() && dbv[ix].key == target@);
            assert(t.key == target@);
        }

        let introducees = match self.choose_introductions(database, target_node) {
            Ok(v) => v,
            Err(e) => {
                return Err(e);
            },
        };
        let ghost intros = introductions(dbv, t, min);
        let ghost entries_full = disclosed_entries(dbv, t, intros);

        let n: usize = database.node_count();

        let mut builder = GossipBuilder::new();
        let mut i: usize = 0;
        while i < n
            invariant
                i <= n,
                n == dbv.len(),
                builder@.node_records == entries_full.take(i as int),
                builder@.neighbor_pairs == Seq::<(int, int)>::empty(),
            decreases n - i,
        {
            let node = database.node_at(i);
            proof {
                assert forall|j: int| 0 <= j < i implies builder@.node_records[j].key
                    == dbv[j].key by {
                    assert(entries_full[j] == disclosed(
                        dbv[j],
                        reveal_address(dbv, t, intros, dbv[j]),
                    ));
                }
                assert(!db_has_key(builder@.node_records, dbv[i as int].key));
            }
            let reveal_node_addr = node.has_neighbor(target) || target_node.has_neighbor(
                node.public_key(),
            ) || vec_contains_key(&introducees, node.public_key());
            assert(reveal_node_addr == reveal_address(dbv, t, intros, dbv[i as int]));
            builder.add_node(node, reveal_node_addr);
            proof {
                assert(entries_full.take(i as int + 1) =~= entries_full.take(i as int).push(
                    disclosed(dbv[i as int], reveal_address(dbv, t, intros, dbv[i as int])),
                ));
            }
            i += 1;
        }
        proof {
            assert(entries_full.take(n as int) =~= entries_full);
        }

        proof {
            assert forall|j: int| 0 <= j < n implies builder@.node_records[j].key
                == dbv[j].key by {
                assert(entries_full[j] == disclosed(
                    dbv[j],
                    reveal_address(dbv, t, intros, dbv[j]),
                ));
            }
            assert(unique_keys(builder@.node_records));
        }

        let ghost entry_keys_match = forall|j: int|
            0 <= j < dbv.len() ==> #[trigger] entries_full[j].key == dbv[j].key;

        let mut i: usize = 0;
        while i < n
            invariant
                i <= n,
                n == dbv.len(),
                builder@.node_records == entries_full,
                unique_keys(builder@.node_records),
                entry_keys_match,
                builder@.neighbor_pairs == edges_up_to(dbv, i as int),
                forall|a: int, b: int|
                    0 <= a < i && 0 <= b < dbv[a].neighbors.len() ==> db_has_key(
                        dbv,
                        dbv[a].neighbors[b],
                    ),
            decreases n - i,
        {
            let node = database.node_at(i);
            let node_neighbors = node.neighbors();
            let m: usize = node_neighbors.len();
            let mut j: usize = 0;
            while j < m
                invariant
                    j <= m,
                    i < n,
                    n == dbv.len(),
                    m == dbv[i as int].neighbors.len(),
                    node@ == dbv[i as int],
                    keys_view(node_neighbors@) == dbv[i as int].neighbors,
                    builder@.node_records == entries_full,
                    unique_keys(builder@.node_records),
                    entry_keys_match,
                    builder@.neighbor_pairs == edges_up_to(dbv, i as int) + edges_from(
                        dbv,
                        i as int,
                        dbv[i as int].neighbors.take(j as int),
                    ),
                    forall|a: int, b: int|
                        0 <= a < i && 0 <= b < dbv[a].neighbors.len() ==> db_has_key(
                            dbv,
                            dbv[a].neighbors[b],
                        ),
                    forall|b: int|
                        0 <= b < j ==> db_has_key(dbv, dbv[i as int].neighbors[b]),
                decreases m - j,
            {
                let neighbor_key = &node_neighbors[j];
                proof {
                    assert(neighbor_key@ == dbv[i as int].neighbors[j as int]);
                    assert(dbv[i as int].neighbors.take(j as int + 1).drop_last()
                        =~= dbv[i as int].neighbors.take(j as int));
                    assert(dbv[i as int].neighbors.take(j as int + 1).last()
                        == dbv[i as int].neighbors[j as int]);
                }
                match database.node_by_key(neighbor_key) {
                    Some(neighbor_node) => {
                        if !neighbor_node.is_bootstrap_node() {
                            proof {
                                let entries = builder@.node_records;
                                assert(entries[i as int].key == dbv[i as int].key);
                                lemma_index_of_key(entries, i as int);
                                let mx = db_key_index(dbv, neighbor_key@);
                                assert(0 <= mx < dbv.len() && dbv[mx].key == neighbor_key@);
                                assert(entries[mx].key == neighbor_key@);
                                lemma_index_of_key(entries, mx);
                            }
                            builder.add_edge(node.public_key(), neighbor_key);
                        }
                    },
                    None => {
                        proof {
                            assert(neighbor_dangling(dbv));
                        }
                        return Err(GossipProducerError::DanglingNeighborReference);
                    },
                }
                j += 1;
            }
            proof {
                assert(dbv[i as int].neighbors.take(m as int) =~= dbv[i as int].neighbors);
                assert(edges_up_to(dbv, i as int + 1) == edges_up_to(dbv, i as int) + edges_from(
                    dbv,
                    i as int,
                    dbv[i as int].neighbors,
                ));
            }
            i += 1;
        }
        proof {
            assert(!neighbor_dangling(dbv));
        }
        Ok(builder.build())
    }
}

/// Ascending order by connection count.
pub open spec fn sorted_by_count(dbv: Seq<NodeRecordV>, s: Seq<Seq<u8>>) -> bool {
    forall|p: int, q: int|
        0 <= p < q < s.len() ==> connection_count(dbv, s[p]) <= connection_count(dbv, s[q])
}

/// Completeness of disclosure: the entry list carries one entry per graph
/// record, in graph order and under the same key, so its key set equals the
/// graph's key set exactly.
pub proof fn lemma_disclosure_complete(
    dbv: Seq<NodeRecordV>,
    target: NodeRecordV,
    intros: Seq<Seq<u8>>,
)
    ensures
        disclosed_entries(dbv, target, intros).len() == dbv.len(),
        forall|j: int|
            0 <= j < dbv.len() ==> #[trigger] disclosed_entries(dbv, target, intros)[j].key
                == dbv[j].key,
        forall|k: Seq<u8>|
            db_has_key(disclosed_entries(dbv, target, intros), k) <==> db_has_key(dbv, k),
{
    let e = disclosed_entries(dbv, target, intros);
    assert forall|j: int| 0 <= j < dbv.len() implies #[trigger] e[j].key == dbv[j].key by {
        assert(e[j] == disclosed(dbv[j], reveal_address(dbv, target, intros, dbv[j])));
    }
    assert forall|k: Seq<u8>| db_has_key(e, k) implies db_has_key(dbv, k) by {
        let j = choose|j: int| 0 <= j < e.len() && e[j].key == k;
        assert(dbv[j].key == k);
    }
    assert forall|k: Seq<u8>| db_has_key(dbv, k) implies db_has_key(e, k) by {
        let j = choose|j: int| 0 <= j < dbv.len() && dbv[j].key == k;
        assert(e[j].key == k);
    }
}

/// Address reveal policy, per entry: the address stands in the entry exactly
/// when the reveal rule grants it, and is absent otherwise, whatever the
/// graph had on file.
pub proof fn lemma_address_reveal_policy(
    dbv: Seq<NodeRecordV>,
    target: NodeRecordV,
    intros: Seq<Seq<u8>>,
    j: int,
)
    requires
        0 <= j < dbv.len(),
    ensures
        disclosed_entries(dbv, target, intros)[j].addr == if reveal_address(
            dbv,
            target,
            intros,
            dbv[j],
        ) {
            dbv[j].addr
        } else {
            None::<crate::key::NodeAddrV>
        },
        disclosed_entries(dbv, target, intros)[j].neighbors == dbv[j].neighbors,
        disclosed_entries(dbv, target, intros)[j].is_bootstrap == dbv[j].is_bootstrap,
{
    assert(disclosed_entries(dbv, target, intros)[j] == disclosed(
        dbv[j],
        reveal_address(dbv, target, intros, dbv[j]),
    ));
}

proof fn lemma_edges_from_valid(dbv: Seq<NodeRecordV>, i: int, nbrs: Seq<Seq<u8>>)
    requires
        unique_keys(dbv),
    ensures
        forall|p: int|
            0 <= p < edges_from(dbv, i, nbrs).len() ==> {
                let e = #[trigger] edges_from(dbv, i, nbrs)[p];
                e.0 == i && 0 <= e.1 < dbv.len() && !dbv[e.1].is_bootstrap
            },
    decreases nbrs.len(),
{
    if nbrs.len() == 0 {
    } else {
        lemma_edges_from_valid(dbv, i, nbrs.drop_last());
        if edge_disclosed(dbv, nbrs.last()) {
            let m = db_key_index(dbv, nbrs.last());
            assert(0 <= m < dbv.len() && dbv[m].key == nbrs.last());
            assert(db_node(dbv, nbrs.last()) == dbv[m]);
        }
    }
}

proof fn lemma_edges_up_to_valid(dbv: Seq<NodeRecordV>, n: int)
    requires
        unique_keys(dbv),
        n <= dbv.len(),
    ensures
        forall|p: int|
            0 <= p < edges_up_to(dbv, n).len() ==> {
                let e = #[trigger] edges_up_to(dbv, n)[p];
                0 <= e.0 < n && 0 <= e.1 < dbv.len() && !dbv[e.1].is_bootstrap
            },
    decreases n,
{
    if n <= 0 {
    } else {
        lemma_edges_up_to_valid(dbv, n - 1);
        lemma_edges_from_valid(dbv, n - 1, dbv[n - 1].neighbors);
    }
}

/// Relay-destination filtering: every disclosed edge runs between valid
/// entry positions, and its destination is never a relay node.
pub proof fn lemma_disclosed_edges_valid(dbv: Seq<NodeRecordV>)
    requires
        unique_keys(dbv),
    ensures
        forall|p: int|
            0 <= p < disclosed_edges(dbv).len() ==> {
                let e = #[trigger] disclosed_edges(dbv)[p];
                0 <= e.0 < dbv.len() && 0 <= e.1 < dbv.len() && !dbv[e.1].is_bootstrap
            },
{
    lemma_edges_up_to_valid(dbv, dbv.len() as int);
}

proof fn lemma_rank_insert_props(dbv: Seq<NodeRecordV>, s: Seq<Seq<u8>>, k: Seq<u8>)
    ensures
        rank_insert(dbv, s, k).len() == s.len() + 1,
        rank_insert(dbv, s, k).to_multiset() == s.to_multiset().insert(k),
        sorted_by_count(dbv, s) ==> sorted_by_count(dbv, rank_insert(dbv, s, k)),
    decreases s.len(),
{
    broadcast use vstd::seq_lib::group_to_multiset_ensures;

    let r = rank_insert(dbv, s, k);
    if s.len() == 0 {
        assert(seq![k] =~= Seq::<Seq<u8>>::empty().push(k));
        assert(r.to_multiset() =~= s.to_multiset().insert(k));
    } else if connection_count(dbv, k) < connection_count(dbv, s[0]) {
        vstd::seq_lib::lemma_multiset_commutative(seq![k], s);
        assert(seq![k].to_multiset() =~= Multiset::<Seq<u8>>::empty().insert(k));
        assert(r.to_multiset() =~= s.to_multiset().insert(k));
        assert forall|p: int, q: int|
            0 <= p < q < r.len() && sorted_by_count(dbv, s) implies connection_count(dbv, r[p])
            <= connection_count(dbv, r[q]) by {
            if p == 0 {
                assert(r[q] == s[q - 1]);
                assert(connection_count(dbv, s[0]) <= connection_count(dbv, s[q - 1]));
            } else {
                assert(r[p] == s[p - 1] && r[q] == s[q - 1]);
            }
        }
    } else {
        let rest = s.subrange(1, s.len() as int);
        lemma_rank_insert_props(dbv, rest, k);
        let ri = rank_insert(dbv, rest, k);
        vstd::seq_lib::lemma_multiset_commutative(seq![s[0]], ri);
        assert(s =~= seq![s[0]] + rest);
        vstd::seq_lib::lemma_multiset_commutative(seq![s[0]], rest);
        assert(seq![s[0]].to_multiset() =~= Multiset::<Seq<u8>>::empty().insert(s[0]));
        assert(r.to_multiset() =~= s.to_multiset().insert(k));
        if sorted_by_count(dbv, s) {
            assert forall|p: int, q: int| 0 <= p < q < rest.len() implies connection_count(
                dbv,
                #[trigger] rest[p],
            ) <= connection_count(dbv, #[trigger] rest[q]) by {
                assert(rest[p] == s[p + 1] && rest[q] == s[q + 1]);
            }
            assert(sorted_by_count(dbv, rest));
            assert(sorted_by_count(dbv, ri));
            assert forall|q: int| 0 <= q < ri.len() implies connection_count(dbv, s[0])
                <= connection_count(dbv, #[trigger] ri[q]) by {
                assert(ri.to_multiset().count(ri[q]) > 0);
                assert(ri.contains(ri[q]));
                if ri[q] == k {
                } else {
                    assert(rest.to_multiset().insert(k).count(ri[q]) > 0);
                    assert(rest.to_multiset().count(ri[q]) > 0);
                    assert(rest.contains(ri[q]));
                    let w = choose|w: int| 0 <= w < rest.len() && rest[w] == ri[q];
                    assert(rest[w] == s[w + 1]);
                    assert(connection_count(dbv, s[0]) <= connection_count(dbv, s[w + 1]));
                }
            }
            assert forall|p: int, q: int| 0 <= p < q < r.len() implies connection_count(
                dbv,
                r[p],
            ) <= connection_count(dbv, r[q]) by {
                if p == 0 {
                    assert(r[q] == ri[q - 1]);
                } else {
                    assert(r[p] == ri[p - 1] && r[q] == ri[q - 1]);
                }
            }
        }
    }
}

proof fn lemma_ranked_props(dbv: Seq<NodeRecordV>, cands: Seq<Seq<u8>>)
    ensures
        ranked(dbv, cands).len() == cands.len(),
        ranked(dbv, cands).to_multiset() == cands.to_multiset(),
        sorted_by_count(dbv, ranked(dbv, cands)),
    decreases cands.len(),
{
    broadcast use vstd::seq_lib::group_to_multiset_ensures;

    if cands.len() == 0 {
    } else {
        let pre = cands.drop_last();
        lemma_ranked_props(dbv, pre);
        lemma_rank_insert_props(dbv, ranked(dbv, pre), cands.last());
        assert(cands =~= pre.push(cands.last()));
        assert(ranked(dbv, cands).to_multiset() =~= cands.to_multiset());
    }
}

/// Introduction policy: for a qualifying target, the introducees are
/// exactly the first `min - count` elements of the eligible candidates ranked ascending
/// by connection count (a stable order), so their number is the shortfall
/// capped by the number of candidates, every introducee is an eligible
/// candidate, and no introducee is better connected than any candidate
/// passed over.
pub proof fn lemma_introduction_policy(dbv: Seq<NodeRecordV>, target: NodeRecordV, min: int)
    requires
        intro_gate(dbv, target, min),
    ensures
        ({
            let needed = min - standard_neighbor_count(dbv, target.neighbors);
            let cands = eligible_candidates(dbv, target, dbv[0].neighbors);
            let order = ranked(dbv, cands);
            let intros = introductions(dbv, target, min);
            &&& order.len() == cands.len()
            &&& order.to_multiset() == cands.to_multiset()
            &&& sorted_by_count(dbv, order)
            &&& intros == if needed <= cands.len() {
                order.take(needed)
            } else {
                order
            }
            &&& intros.len() == if needed <= cands.len() {
                needed
            } else {
                cands.len() as int
            }
            &&& forall|x: Seq<u8>| intros.contains(x) ==> cands.contains(x)
            &&& forall|p: int, q: int|
                0 <= p < intros.len() && intros.len() <= q < order.len() ==> connection_count(
                    dbv,
                    intros[p],
                ) <= connection_count(dbv, order[q])
        }),
{
    broadcast use vstd::seq_lib::group_to_multiset_ensures;

    let needed = min - standard_neighbor_count(dbv, target.neighbors);
    let cands = eligible_candidates(dbv, target, dbv[0].neighbors);
    let order = ranked(dbv, cands);
    let intros = introductions(dbv, target, min);
    lemma_ranked_props(dbv, cands);
    assert forall|x: Seq<u8>| intros.contains(x) implies cands.contains(x) by {
        let p = choose|p: int| 0 <= p < intros.len() && intros[p] == x;
        assert(order[p] == x);
        assert(order.contains(x));
        assert(order.to_multiset().count(x) > 0);
        assert(cands.to_multiset().count(x) > 0);
    }
}

/// Soundness of any produced message: its entry list carries exactly the
/// graph's keys, and every disclosed edge runs between valid entry
/// positions with a destination entry that is never a relay node.
pub proof fn lemma_produced_message_sound(
    dbv: Seq<NodeRecordV>,
    tkey: Seq<u8>,
    min: int,
    gv: GossipV,
)
    requires
        crate::neighborhood_database::db_wf(dbv),
        produce_post(dbv, tkey, min, Ok(gv)),
    ensures
        gv.node_records.len() == dbv.len(),
        forall|k: Seq<u8>| db_has_key(gv.node_records, k) <==> db_has_key(dbv, k),
        forall|p: int|
            0 <= p < gv.neighbor_pairs.len() ==> {
                let e = #[trigger] gv.neighbor_pairs[p];
                &&& 0 <= e.0 < gv.node_records.len()
                &&& 0 <= e.1 < gv.node_records.len()
                &&& !gv.node_records[e.1].is_bootstrap
            },
{
    let t = db_node(dbv, tkey);
    let intros = introductions(dbv, t, min);
    lemma_disclosure_complete(dbv, t, intros);
    lemma_disclosed_edges_valid(dbv);
    assert forall|p: int| 0 <= p < gv.neighbor_pairs.len() implies {
        let e = #[trigger] gv.neighbor_pairs[p];
        &&& 0 <= e.0 < gv.node_records.len()
        &&& 0 <= e.1 < gv.node_records.len()
        &&& !gv.node_records[e.1].is_bootstrap
    } by {
        let e = gv.neighbor_pairs[p];
        assert(gv.node_records[e.1] == disclosed(
            dbv[e.1],
            reveal_address(dbv, t, intros, dbv[e.1]),
        ));
    }
}

/// Determinism of production: the production contract admits one outcome
/// per graph snapshot, target and threshold, so two productions over the
/// same inputs agree structurally — same entries, same mask decisions, same
/// edges, or the very same error.
pub proof fn lemma_produce_deterministic(
    dbv: Seq<NodeRecordV>,
    tkey: Seq<u8>,
    min: int,
    r1: Result<GossipV, GossipProducerError>,
    r2: Result<GossipV, GossipProducerError>,
)
    requires
        produce_post(dbv, tkey, min, r1),
        produce_post(dbv, tkey, min, r2),
    ensures
        r1 == r2,
{
    match (r1, r2) {
        (Ok(a), Ok(b)) => {
            assert(a =~= b);
        },
        (Ok(_), Err(e)) => {
            match e {
                GossipProducerError::TargetNotFound => {
                    assert(false);
                },
                GossipProducerError::DanglingNeighborReference => {
                    assert(false);
                },
            }
        },
        (Err(e), Ok(_)) => {
            match e {
                GossipProducerError::TargetNotFound => {
                    assert(false);
                },
                GossipProducerError::DanglingNeighborReference => {
                    assert(false);
                },
            }
        },
        (Err(e1), Err(e2)) => {
            match (e1, e2) {
                (GossipProducerError::TargetNotFound, GossipProducerError::TargetNotFound) => {},
                (
                    GossipProducerError::DanglingNeighborReference,
                    GossipProducerError::DanglingNeighborReference,
                ) => {},
                (
                    GossipProducerError::TargetNotFound,
                    GossipProducerError::DanglingNeighborReference,
                ) => {
                    assert(false);
                },
                (
                    GossipProducerError::DanglingNeighborReference,
                    GossipProducerError::TargetNotFound,
                ) => {
                    assert(false);
                },
            }
        },
    }
}

/// An absent target is always rejected with `TargetNotFound`: no partial
/// message can satisfy the production contract for it.
pub proof fn lemma_absent_target_rejected(
    dbv: Seq<NodeRecordV>,
    tkey: Seq<u8>,
    min: int,
    r: Result<GossipV, GossipProducerError>,
)
    requires
        produce_post(dbv, tkey, min, r),
        !db_has_key(dbv, tkey),
    ensures
        r == Err::<GossipV, GossipProducerError>(GossipProducerError::TargetNotFound),
{
    match r {
        Ok(_) => {
            assert(false);
        },
        Err(e) => {
            match e {
                GossipProducerError::TargetNotFound => {},
                GossipProducerError::DanglingNeighborReference => {
                    assert(false);
                },
            }
        },
    }
}

} // verus!
