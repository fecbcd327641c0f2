use neighborhood_lib::gossip::{GossipBuilder, GossipNodeRecord};
use neighborhood_lib::gossip_producer::{GossipProducer, GossipProducerError, GossipProducerReal};
use neighborhood_lib::key::{NodeAddr, PublicKey};
use neighborhood_lib::neighborhood_database::{NeighborhoodDatabase, NeighborhoodDatabaseError};
use neighborhood_lib::node_record::NodeRecord;

fn make_node_record(n: u16, has_address: bool, is_bootstrap_node: bool) -> NodeRecord {
    let digits: Vec<u8> = format!("{}", n).into_bytes().iter().map(|b| b - b'0').collect();
    let key = PublicKey::new(digits.clone());
    let node_addr_opt = if has_address {
        Some(NodeAddr::new(digits, vec![n]))
    } else {
        None
    };
    NodeRecord::new(key, node_addr_opt, is_bootstrap_node)
}

fn make_database(root: &NodeRecord) -> NeighborhoodDatabase {
    NeighborhoodDatabase::new(
        root.public_key().clone(),
        root.node_addr_opt().unwrap(),
        root.is_bootstrap_node(),
    )
}

#[test]
fn produce_with_absent_target_yields_no_partial_message() {
    let this_node = make_node_record(1234, true, false);
    let absent = make_node_record(9999, true, false);
    let other = make_node_record(2345, true, false);
    let mut database = make_database(&this_node);
    database.add_node(&other).unwrap();
    database
        .add_neighbor(this_node.public_key(), other.public_key())
        .unwrap();

    let subject = GossipProducerReal::new();

    let result = subject.produce(&database, absent.public_key());

    assert!(matches!(result, Err(GossipProducerError::TargetNotFound)));
}

#[test]
fn produce_fails_on_dangling_neighbor_reference_during_edge_construction() {
    let this_node = make_node_record(1234, true, false);
    let mut target = make_node_record(4567, true, false);
    let phantom = make_node_record(8888, false, false);
    target.add_neighbor_key(phantom.public_key().clone());
    let mut database = make_database(&this_node);
    database.add_node(&target).unwrap();
    // The graph learns of an edge target -> phantom without a record for
    // phantom; edge construction must then fail loudly.
    database
        .add_neighbor(target.public_key(), phantom.public_key())
        .unwrap();

    let subject = GossipProducerReal::new();

    let result = subject.produce(&database, target.public_key());

    assert!(matches!(
        result,
        Err(GossipProducerError::DanglingNeighborReference)
    ));
}

#[test]
fn produce_fails_on_dangling_introduction_candidate() {
    let this_node = make_node_record(1234, true, false);
    let mut target = make_node_record(4567, true, false);
    let phantom = make_node_record(8888, false, false);
    target.add_neighbor_key(this_node.public_key().clone());
    let mut database = make_database(&this_node);
    database.add_node(&target).unwrap();
    database
        .add_neighbor(this_node.public_key(), target.public_key())
        .unwrap();
    // Root claims an edge to a peer the graph has no record for. The target
    // qualifies for introductions, so candidate resolution hits the phantom
    // and must fail rather than skip it.
    database
        .add_neighbor(this_node.public_key(), phantom.public_key())
        .unwrap();
    database
        .add_neighbor(target.public_key(), this_node.public_key())
        .unwrap();

    let subject = GossipProducerReal::new();

    let result = subject.produce(&database, target.public_key());

    assert!(matches!(
        result,
        Err(GossipProducerError::DanglingNeighborReference)
    ));
}

#[test]
fn unknown_target_neighbor_counts_as_standard_for_the_threshold() {
    // The target's own neighbor list may name unrecorded peers; those count
    // as standard peers for the threshold instead of failing, so three of
    // them suppress introductions entirely.
    let this_node = make_node_record(1234, true, false);
    let mut target = make_node_record(4567, true, false);
    let ghost_a = make_node_record(1111, false, false);
    let ghost_b = make_node_record(2222, false, false);
    let ghost_c = make_node_record(3333, false, false);
    let candidate = make_node_record(2345, true, false);
    target.add_neighbor_key(ghost_a.public_key().clone());
    target.add_neighbor_key(ghost_b.public_key().clone());
    target.add_neighbor_key(ghost_c.public_key().clone());
    let mut database = make_database(&this_node);
    database.add_node(&target).unwrap();
    database.add_node(&candidate).unwrap();
    database
        .add_neighbor(this_node.public_key(), target.public_key())
        .unwrap();
    database
        .add_neighbor(this_node.public_key(), candidate.public_key())
        .unwrap();
    database
        .add_neighbor(target.public_key(), ghost_a.public_key())
        .unwrap();
    database
        .add_neighbor(target.public_key(), ghost_b.public_key())
        .unwrap();
    database
        .add_neighbor(target.public_key(), ghost_c.public_key())
        .unwrap();

    let subject = GossipProducerReal::new();
    let introducees = subject
        .choose_introductions(&database, &target)
        .unwrap();

    assert_eq!(introducees.len(), 0);
}

#[test]
fn choose_introductions_returns_shortfall_capped_by_candidates() {
    // Target knows one standard peer, so it is short two; only one eligible
    // candidate exists, so exactly that one is chosen.
    let this_node = make_node_record(1234, true, false);
    let mut target = make_node_record(4567, true, false);
    let candidate = make_node_record(2345, true, false);
    target.add_neighbor_key(this_node.public_key().clone());
    let mut database = make_database(&this_node);
    database.add_node(&target).unwrap();
    database.add_node(&candidate).unwrap();
    database
        .add_neighbor(this_node.public_key(), target.public_key())
        .unwrap();
    database
        .add_neighbor(this_node.public_key(), candidate.public_key())
        .unwrap();
    database
        .add_neighbor(target.public_key(), this_node.public_key())
        .unwrap();

    let subject = GossipProducerReal::new();
    let introducees = subject
        .choose_introductions(&database, &target)
        .unwrap();

    assert_eq!(introducees.len(), 1);
    assert_eq!(&introducees[0], candidate.public_key());
}

#[test]
fn choose_introductions_ranks_candidates_by_ascending_connection_count() {
    // Three candidates with 2, 0 and 1 connections; the target is short two,
    // so the two least connected are chosen, best-connected last.
    let this_node = make_node_record(1234, true, false);
    let mut target = make_node_record(4567, true, false);
    let mut busy = make_node_record(2345, true, false);
    let idle = make_node_record(3456, true, false);
    let mut middling = make_node_record(5678, true, false);
    target.add_neighbor_key(this_node.public_key().clone());
    busy.add_neighbor_key(this_node.public_key().clone());
    busy.add_neighbor_key(idle.public_key().clone());
    middling.add_neighbor_key(this_node.public_key().clone());
    let mut database = make_database(&this_node);
    database.add_node(&target).unwrap();
    database.add_node(&busy).unwrap();
    database.add_node(&idle).unwrap();
    database.add_node(&middling).unwrap();
    database
        .add_neighbor(this_node.public_key(), target.public_key())
        .unwrap();
    database
        .add_neighbor(this_node.public_key(), busy.public_key())
        .unwrap();
    database
        .add_neighbor(this_node.public_key(), idle.public_key())
        .unwrap();
    database
        .add_neighbor(this_node.public_key(), middling.public_key())
        .unwrap();
    database
        .add_neighbor(busy.public_key(), this_node.public_key())
        .unwrap();
    database
        .add_neighbor(busy.public_key(), idle.public_key())
        .unwrap();
    database
        .add_neighbor(middling.public_key(), this_node.public_key())
        .unwrap();
    database
        .add_neighbor(target.public_key(), this_node.public_key())
        .unwrap();

    let subject = GossipProducerReal::new();
    let introducees = subject
        .choose_introductions(&database, &target)
        .unwrap();

    assert_eq!(introducees.len(), 2);
    assert_eq!(&introducees[0], idle.public_key());
    assert_eq!(&introducees[1], middling.public_key());
}

#[test]
fn choose_introductions_breaks_ties_in_root_enumeration_order() {
    let this_node = make_node_record(1234, true, false);
    let mut target = make_node_record(4567, true, false);
    let earlier = make_node_record(2345, true, false);
    let later = make_node_record(3456, true, false);
    target.add_neighbor_key(this_node.public_key().clone());
    let mut database = make_database(&this_node);
    database.add_node(&target).unwrap();
    database.add_node(&earlier).unwrap();
    database.add_node(&later).unwrap();
    database
        .add_neighbor(this_node.public_key(), target.public_key())
        .unwrap();
    database
        .add_neighbor(this_node.public_key(), earlier.public_key())
        .unwrap();
    database
        .add_neighbor(this_node.public_key(), later.public_key())
        .unwrap();
    database
        .add_neighbor(target.public_key(), this_node.public_key())
        .unwrap();

    let subject = GossipProducerReal::new();
    let introducees = subject
        .choose_introductions(&database, &target)
        .unwrap();

    // Both candidates have zero connections; the earlier-enumerated root
    // neighbor stays first, and both fit within the shortfall of two.
    assert_eq!(introducees.len(), 2);
    assert_eq!(&introducees[0], earlier.public_key());
    assert_eq!(&introducees[1], later.public_key());
}

#[test]
fn produce_is_idempotent_over_one_snapshot() {
    let mut this_node = make_node_record(1234, true, false);
    let mut first_neighbor = make_node_record(2345, true, false);
    let second_neighbor = make_node_record(3456, true, true);
    let mut target = make_node_record(4567, false, false);
    this_node.add_neighbor_key(first_neighbor.public_key().clone());
    this_node.add_neighbor_key(second_neighbor.public_key().clone());
    first_neighbor.add_neighbor_key(second_neighbor.public_key().clone());
    first_neighbor.add_neighbor_key(target.public_key().clone());
    target.add_neighbor_key(second_neighbor.public_key().clone());
    let mut database = make_database(&this_node);
    database.add_node(&first_neighbor).unwrap();
    database.add_node(&second_neighbor).unwrap();
    database.add_node(&target).unwrap();
    database
        .add_neighbor(this_node.public_key(), first_neighbor.public_key())
        .unwrap();
    database
        .add_neighbor(this_node.public_key(), second_neighbor.public_key())
        .unwrap();
    database
        .add_neighbor(first_neighbor.public_key(), second_neighbor.public_key())
        .unwrap();
    database
        .add_neighbor(first_neighbor.public_key(), target.public_key())
        .unwrap();
    database
        .add_neighbor(target.public_key(), second_neighbor.public_key())
        .unwrap();

    let subject = GossipProducerReal::new();

    let first = subject.produce(&database, target.public_key()).unwrap();
    let second = subject.produce(&database, target.public_key()).unwrap();

    assert_eq!(first.node_records, second.node_records);
    assert_eq!(first.neighbor_pairs, second.neighbor_pairs);
}

#[test]
fn scenario_target_without_root_edge_has_own_address_masked() {
    // Root connected to a and b; a connected to b and to the target; target
    // connected to b. The target has no root edge and none is needed: no
    // introductions run, and the target's own address stays masked since the
    // root is not directly target-linked.
    let mut root = make_node_record(1234, true, false);
    let mut a = make_node_record(2345, true, false);
    let mut b = make_node_record(3456, true, false);
    let mut target = make_node_record(4567, true, false);
    root.add_neighbor_key(a.public_key().clone());
    root.add_neighbor_key(b.public_key().clone());
    a.add_neighbor_key(b.public_key().clone());
    a.add_neighbor_key(target.public_key().clone());
    target.add_neighbor_key(b.public_key().clone());
    let mut database = make_database(&root);
    database.add_node(&a).unwrap();
    database.add_node(&b).unwrap();
    database.add_node(&target).unwrap();
    database.add_neighbor(root.public_key(), a.public_key()).unwrap();
    database.add_neighbor(root.public_key(), b.public_key()).unwrap();
    database.add_neighbor(a.public_key(), b.public_key()).unwrap();
    database.add_neighbor(a.public_key(), target.public_key()).unwrap();
    database.add_neighbor(target.public_key(), b.public_key()).unwrap();

    let subject = GossipProducerReal::new();

    let result = subject.produce(&database, target.public_key()).unwrap();

    assert_eq!(result.node_records.len(), 4);
    let entry_for = |key: &PublicKey| {
        result
            .node_records
            .iter()
            .find(|gnr| gnr.public_key == *key)
            .unwrap()
    };
    // Root's address is masked: it is subject to the same rule as any peer.
    assert!(entry_for(root.public_key()).node_addr_opt.is_none());
    // a knows the target, b is known by the target: both revealed.
    assert!(entry_for(a.public_key()).node_addr_opt.is_some());
    assert!(entry_for(b.public_key()).node_addr_opt.is_some());
    // The target itself has no edge with itself and is no introducee.
    assert!(entry_for(target.public_key()).node_addr_opt.is_none());
}

#[test]
fn producer_threshold_is_tunable() {
    // With the threshold lowered to one, a target that already knows one
    // standard peer is no longer short, so no introduction happens.
    let this_node = make_node_record(1234, true, false);
    let mut target = make_node_record(4567, true, false);
    let candidate = make_node_record(2345, true, false);
    target.add_neighbor_key(this_node.public_key().clone());
    let mut database = make_database(&this_node);
    database.add_node(&target).unwrap();
    database.add_node(&candidate).unwrap();
    database
        .add_neighbor(this_node.public_key(), target.public_key())
        .unwrap();
    database
        .add_neighbor(this_node.public_key(), candidate.public_key())
        .unwrap();
    database
        .add_neighbor(target.public_key(), this_node.public_key())
        .unwrap();

    let lenient = GossipProducerReal::with_minimum_neighbors(1);
    assert_eq!(
        lenient.choose_introductions(&database, &target).unwrap().len(),
        0
    );
    let strict = GossipProducerReal::new();
    assert_eq!(
        strict.choose_introductions(&database, &target).unwrap().len(),
        1
    );
}

#[test]
fn database_rejects_duplicate_keys_and_unknown_edge_sources() {
    let this_node = make_node_record(1234, true, false);
    let other = make_node_record(2345, true, false);
    let stranger = make_node_record(3456, true, false);
    let mut database = make_database(&this_node);
    database.add_node(&other).unwrap();

    assert_eq!(
        database.add_node(&other).unwrap_err(),
        NeighborhoodDatabaseError::KeyAlreadyPresent
    );
    assert_eq!(
        database
            .add_neighbor(stranger.public_key(), other.public_key())
            .unwrap_err(),
        NeighborhoodDatabaseError::KeyNotFound
    );
}

#[test]
fn database_looks_up_nodes_by_key() {
    let this_node = make_node_record(1234, true, false);
    let other = make_node_record(2345, true, false);
    let absent = make_node_record(3456, true, false);
    let mut database = make_database(&this_node);
    database.add_node(&other).unwrap();

    assert!(database.node_by_key(this_node.public_key()).is_some());
    let found = database.node_by_key(other.public_key()).unwrap();
    assert_eq!(found.public_key(), other.public_key());
    assert!(database.node_by_key(absent.public_key()).is_none());
}

#[test]
fn database_enumerates_keys_in_insertion_order() {
    let this_node = make_node_record(1234, true, false);
    let other = make_node_record(2345, true, false);
    let third = make_node_record(3456, true, true);
    let mut database = make_database(&this_node);
    database.add_node(&other).unwrap();
    database.add_node(&third).unwrap();

    let keys = database.keys();

    assert_eq!(keys.len(), 3);
    assert_eq!(&keys[0], this_node.public_key());
    assert_eq!(&keys[1], other.public_key());
    assert_eq!(&keys[2], third.public_key());
    assert_eq!(database.node_count(), 3);
    assert_eq!(database.root().public_key(), this_node.public_key());
}

#[test]
fn key_and_address_accessors_expose_their_content() {
    let key = PublicKey::new(vec![9, 8, 7]);
    assert_eq!(key.as_bytes(), &vec![9, 8, 7]);

    let addr = NodeAddr::new(vec![1, 2, 3, 4], vec![5333, 5334]);
    assert_eq!(addr.ip(), &vec![1, 2, 3, 4]);
    assert_eq!(addr.ports(), &vec![5333, 5334]);

    let record = NodeRecord::new(key.clone(), Some(addr.clone()), true);
    assert!(record.is_bootstrap_node());
    assert_eq!(record.public_key(), &key);
    assert_eq!(record.node_addr_opt().unwrap(), addr);
    assert!(record.neighbors().is_empty());

    let mut with_neighbors = NodeRecord::new(PublicKey::new(vec![1]), None, false);
    with_neighbors.add_neighbor_key(key.clone());
    assert!(with_neighbors.has_neighbor(&key));
    assert_eq!(with_neighbors.neighbor_keys(), vec![key.clone()]);
    assert!(!with_neighbors.has_neighbor(&PublicKey::new(vec![2])));
}

#[test]
fn builder_assigns_positions_in_insertion_order_and_masks_addresses() {
    let one = make_node_record(1234, true, false);
    let two = make_node_record(2345, true, false);
    let mut builder = GossipBuilder::new();

    let first_pos = builder.add_node(&one, true);
    let second_pos = builder.add_node(&two, false);
    builder.add_edge(one.public_key(), two.public_key());
    builder.add_edge(two.public_key(), one.public_key());
    let gossip = builder.build();

    assert_eq!(first_pos, 0);
    assert_eq!(second_pos, 1);
    assert_eq!(gossip.node_records.len(), 2);
    assert_eq!(gossip.node_records[0], GossipNodeRecord::from(&one, true));
    assert!(gossip.node_records[0].node_addr_opt.is_some());
    assert_eq!(gossip.node_records[1], GossipNodeRecord::from(&two, false));
    assert!(gossip.node_records[1].node_addr_opt.is_none());
    assert_eq!(gossip.neighbor_pairs.len(), 2);
    assert_eq!(gossip.neighbor_pairs[0].from, 0);
    assert_eq!(gossip.neighbor_pairs[0].to, 1);
    assert_eq!(gossip.neighbor_pairs[1].from, 1);
    assert_eq!(gossip.neighbor_pairs[1].to, 0);
}
