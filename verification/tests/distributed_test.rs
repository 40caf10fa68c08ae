use holographic_memory::anti_entropy::{AntiEntropyRepair, MerkleTree, RepairStatus, SyncAction};
use holographic_memory::node::{local_digest, DistributedHolographicNode};
use holographic_memory::records::{DistributedConfig, StoreResult};
use holographic_memory::consistent_hash::{ConsistentHashRing, RingError};
use holographic_memory::gossip::{GossipConfig, GossipMessage, GossipProtocol, MembershipState, NodeStatus};
use std::collections::HashMap;

#[test]
fn test_merkle_tree_identical() {
    let digests = vec![(1, 100), (2, 200), (3, 300)];
    let mut tree1 = MerkleTree::new(2);
    let mut tree2 = MerkleTree::new(2);
    tree1.build_from_digests(&digests);
    tree2.build_from_digests(&digests);
    let report = tree1.diff(&tree2);
    assert!(report.identical);
}

#[test]
fn test_merkle_tree_different() {
    let digests1 = vec![(1, 100), (2, 200), (3, 300)];
    let digests2 = vec![(1, 100), (2, 999), (3, 300)];
    let mut tree1 = MerkleTree::new(2);
    let mut tree2 = MerkleTree::new(2);
    tree1.build_from_digests(&digests1);
    tree2.build_from_digests(&digests2);
    let report = tree1.diff(&tree2);
    assert!(!report.identical);
}

#[test]
fn test_anti_entropy_create_task() {
    let mut ae = AntiEntropyRepair::new(10, 2);
    ae.update_digests(vec![(1, 100), (2, 200)]);
    let task_id = ae.create_repair_task("node1".to_string(), "node2".to_string(), vec![(1, 2)]);
    assert_eq!(ae.task_count(), 1);
    ae.start_repair(task_id).unwrap();
    ae.complete_repair(task_id);
    assert_eq!(ae.completed_task_count(), 1);
}

#[test]
fn test_max_concurrent_repairs() {
    let mut ae = AntiEntropyRepair::new(10, 1);
    ae.update_digests(vec![(1, 100), (2, 200)]);
    let t1 = ae.create_repair_task("n1".into(), "n2".into(), vec![(1, 1)]);
    let t2 = ae.create_repair_task("n2".into(), "n3".into(), vec![(2, 2)]);
    ae.start_repair(t1).unwrap();
    assert!(ae.start_repair(t2).is_err());
}

#[test]
fn test_merkle_tree_diff_detection() {
    let digests1 = vec![(1, 100), (2, 200), (3, 300), (4, 400)];
    let digests2 = vec![(1, 100), (2, 999), (3, 300), (4, 400)];

    let mut tree1 = MerkleTree::new(2);
    let mut tree2 = MerkleTree::new(2);
    tree1.build_from_digests(&digests1);
    tree2.build_from_digests(&digests2);

    let report = tree1.diff(&tree2);
    assert!(!report.identical);
    assert!(!report.differing_ranges.is_empty());

    let mut tree3 = MerkleTree::new(2);
    tree3.build_from_digests(&digests1);
    let same_report = tree1.diff(&tree3);
    assert!(same_report.identical);
}

#[test]
fn test_anti_entropy_repair_flow() {
    let mut ae = AntiEntropyRepair::new(10, 2);
    ae.update_digests(vec![(1, 100), (2, 200), (3, 300)]);

    let local_hash = ae.root_hash();
    assert_ne!(local_hash, 0);

    let mut remote_tree = MerkleTree::new(10);
    remote_tree.build_from_digests(&[(1, 100), (2, 999), (3, 300)]);

    let diff = ae.compare_with(&remote_tree);
    assert!(!diff.identical);

    let task_id = ae.create_repair_task("local".to_string(), "remote".to_string(), diff.differing_ranges);
    ae.start_repair(task_id).unwrap();
    ae.complete_repair(task_id);
    assert_eq!(ae.completed_task_count(), 1);
}

#[test]
fn merkle_diff_names_the_bucket_that_differs() {
    // bucket size 2: buckets [1,2] and [3,4]; only the first one differs
    let mut a = MerkleTree::new(2);
    let mut b = MerkleTree::new(2);
    a.build_from_digests(&[(1, 100), (2, 200), (3, 300), (4, 400)]);
    b.build_from_digests(&[(1, 100), (2, 999), (3, 300), (4, 400)]);
    let report = a.diff(&b);
    assert_eq!(report.differing_ranges, vec![(1, 2)]);
    assert_ne!(a.root_hash(), b.root_hash());
}

#[test]
fn merkle_order_of_digests_does_not_matter() {
    let mut a = MerkleTree::new(2);
    let mut b = MerkleTree::new(2);
    a.build_from_digests(&[(3, 300), (1, 100), (2, 200)]);
    b.build_from_digests(&[(1, 100), (2, 200), (3, 300)]);
    assert_eq!(a.root_hash(), b.root_hash());
    assert!(a.diff(&b).identical);
}

#[test]
fn merkle_empty_tree() {
    let t = MerkleTree::new(4);
    assert!(t.is_empty());
    assert_eq!(t.root_hash(), 0);
    let mut full = MerkleTree::new(4);
    full.build_from_digests(&[(1, 1)]);
    assert!(!full.is_empty());
    assert!(!t.diff(&full).identical);
}

#[test]
fn repair_task_errors_and_states() {
    let mut ae = AntiEntropyRepair::new(10, 1);
    ae.update_digests(vec![(1, 100), (5, 500), (9, 900)]);
    assert_eq!(ae.start_repair(42), Err("任务不存在".to_string()));
    let t = ae.create_repair_task("a".into(), "b".into(), vec![(1, 5)]);
    assert_eq!(ae.pending_tasks().len(), 1);
    assert_eq!(ae.pending_tasks()[0].fragment_ids, vec![1, 5]);
    ae.start_repair(t).unwrap();
    assert_eq!(ae.in_progress_tasks().len(), 1);
    ae.complete_repair(t);
    assert_eq!(ae.start_repair(t), Err("任务状态不是 Pending: Completed".to_string()));
    ae.fail_repair(t, "boom".to_string());
    assert_eq!(ae.in_progress_tasks().len(), 0);
    assert_eq!(ae.completed_task_count(), 0);
    assert_eq!(ae.start_repair(t), Err("任务状态不是 Pending: Failed(\"boom\")".to_string()));
    assert_eq!(ae.task_count(), 1);
}

#[test]
fn sync_actions_follow_direction() {
    let mut ae = AntiEntropyRepair::new(10, 1);
    ae.update_digests(vec![(1, 100), (5, 500), (9, 900)]);
    let mut remote = MerkleTree::new(10);
    remote.build_from_digests(&[(1, 100), (5, 501), (9, 900)]);
    let diff = ae.compare_with(&remote);
    let pull = ae.compute_sync_actions(&diff, true);
    assert_eq!(pull.len(), diff.differing_ranges.len());
    assert!(matches!(&pull[0], SyncAction::Request { .. }));
    let push = ae.compute_sync_actions(&diff, false);
    assert!(matches!(&push[0], SyncAction::Send { .. }));
    let same = ae.compute_sync_actions(&ae.compare_with(&ae_tree(&[(1, 100), (5, 500), (9, 900)])), true);
    assert_eq!(same.len(), 1);
    assert!(matches!(&same[0], SyncAction::Skip));
    let _ = RepairStatus::Pending;
}

fn ae_tree(d: &[(u64, u64)]) -> MerkleTree {
    let mut t = MerkleTree::new(10);
    t.build_from_digests(d);
    t
}

#[test]
fn test_add_remove_node() {
    let mut ring = ConsistentHashRing::new(150);
    ring.add_node("node1").unwrap();
    ring.add_node("node2").unwrap();
    assert_eq!(ring.node_count(), 2);
    ring.remove_node("node1").unwrap();
    assert_eq!(ring.node_count(), 1);
}

#[test]
fn test_find_node() {
    let mut ring = ConsistentHashRing::new(150);
    ring.add_node("node1").unwrap();
    let node = ring.find_node("test_key").unwrap();
    assert_eq!(node, "node1");
}

#[test]
fn test_find_replicas() {
    let mut ring = ConsistentHashRing::new(150);
    ring.add_node("node1").unwrap();
    ring.add_node("node2").unwrap();
    ring.add_node("node3").unwrap();
    let replicas = ring.find_replicas("key1", 2);
    assert!(replicas.len() <= 2);
    assert!(replicas.len() >= 1);
}

#[test]
fn test_load_distribution() {
    let mut ring = ConsistentHashRing::new(150);
    ring.add_node("node1").unwrap();
    ring.add_node("node2").unwrap();
    let dist = ring.load_distribution();
    assert_eq!(dist.iter().map(|(_, c)| *c).sum::<usize>(), 300);
}

#[test]
fn test_duplicate_node_error() {
    let mut ring = ConsistentHashRing::new(150);
    ring.add_node("node1").unwrap();
    assert!(ring.add_node("node1").is_err());
}

#[test]
fn test_consistent_hash_ring_basic() {
    let mut ring = ConsistentHashRing::new(150);
    ring.add_node("node1").unwrap();
    ring.add_node("node2").unwrap();
    ring.add_node("node3").unwrap();

    assert_eq!(ring.node_count(), 3);
    assert_eq!(ring.virtual_node_count_total(), 450);

    let node = ring.find_node("test_key").unwrap();
    assert!(!node.is_empty());

    let replicas = ring.find_replicas("test_key", 2);
    assert!(replicas.len() <= 2);

    ring.remove_node("node2").unwrap();
    assert_eq!(ring.node_count(), 2);
}

#[test]
fn ring_errors() {
    let mut ring = ConsistentHashRing::new(4);
    assert!(matches!(ring.find_node("k"), Err(RingError::EmptyRing)));
    assert!(ring.find_replicas("k", 3).is_empty());
    assert!(matches!(ring.remove_node("x"), Err(RingError::NodeNotFound(n)) if n == "x"));
    ring.add_node("a").unwrap();
    assert!(matches!(ring.add_node("a"), Err(RingError::NodeExists(n)) if n == "a"));
}

#[test]
fn ring_replicas_are_distinct_members() {
    let mut ring = ConsistentHashRing::new(20);
    for n in ["a", "b", "c"] {
        ring.add_node(n).unwrap();
    }
    let reps = ring.find_replicas("some-key", 5);
    assert_eq!(reps.len(), 3);
    let mut sorted = reps.clone();
    sorted.sort();
    sorted.dedup();
    assert_eq!(sorted, vec!["a".to_string(), "b".to_string(), "c".to_string()]);
    assert_eq!(reps[0], ring.find_node("some-key").unwrap());
}

#[test]
fn ring_hash_key_is_deterministic_and_spreads() {
    assert_eq!(ConsistentHashRing::hash_key("abc"), ConsistentHashRing::hash_key("abc"));
    assert_ne!(ConsistentHashRing::hash_key("abc"), ConsistentHashRing::hash_key("abd"));
}

#[test]
fn ring_load_sums_and_migration_plan() {
    let mut ring = ConsistentHashRing::new(10);
    ring.add_node("a").unwrap();
    ring.add_node("b").unwrap();
    let dist = ring.load_distribution();
    assert_eq!(dist.len(), 2);
    assert_eq!(dist.iter().map(|(_, c)| *c).sum::<usize>(), 20);
    let plan = ring.compute_migration_plan("c");
    assert!(!plan.is_empty());
    for (from, _, _) in &plan {
        assert!(from == "a" || from == "b");
    }
    let frag_owner = ring.find_node_for_fragment(7).unwrap().to_string();
    assert!(frag_owner == "a" || frag_owner == "b");
}

#[test]
fn test_membership_new() {
    let ms = MembershipState::new("node1".to_string());
    assert_eq!(ms.alive_node_count(), 1);
    assert!(ms.is_alive("node1"));
}

#[test]
fn test_handle_join() {
    let mut gp = GossipProtocol::new("node1".to_string(), GossipConfig::default());
    gp.handle_join("node2".to_string(), "addr2".to_string(), 0, HashMap::new());
    assert_eq!(gp.membership.alive_node_count(), 2);
}

#[test]
fn test_suspect_and_dead() {
    let mut gp = GossipProtocol::new("node1".to_string(), GossipConfig::default());
    gp.handle_join("node2".to_string(), "addr2".to_string(), 0, HashMap::new());
    gp.suspect_node("node2");
    assert_eq!(gp.membership.get("node2").unwrap().status, NodeStatus::Suspect);
    gp.declare_dead("node2");
    assert_eq!(gp.membership.get("node2").unwrap().status, NodeStatus::Dead);
}

#[test]
fn test_gossip_targets() {
    let mut gp = GossipProtocol::new("node1".to_string(), GossipConfig::default());
    gp.handle_join("node2".to_string(), "addr2".to_string(), 0, HashMap::new());
    gp.handle_join("node3".to_string(), "addr3".to_string(), 0, HashMap::new());
    let targets = gp.select_gossip_targets();
    assert!(!targets.is_empty());
}

#[test]
fn test_receive_alive_message() {
    let mut gp = GossipProtocol::new("node1".to_string(), GossipConfig::default());
    gp.receive_message(GossipMessage::Alive {
        node_id: "node2".to_string(),
        address: "addr2".to_string(),
        incarnation: 1,
    });
    assert!(gp.membership.is_alive("node2"));
}

#[test]
fn gossip_timeouts_at_fixed_times() {
    let cfg = GossipConfig::default();
    let mut gp = GossipProtocol::new("n1".to_string(), cfg);
    gp.handle_join_at("n2".to_string(), "a2".to_string(), 0, HashMap::new(), 1_000);
    gp.drain_messages();
    // still within the suspect timeout
    gp.tick_at(5_000);
    assert!(gp.membership.is_alive("n2"));
    // past the suspect timeout: suspected
    gp.tick_at(6_001);
    assert_eq!(gp.membership.get("n2").unwrap().status, NodeStatus::Suspect);
    // past the dead timeout: dead
    gp.tick_at(16_001);
    assert_eq!(gp.membership.get("n2").unwrap().status, NodeStatus::Dead);
}

#[test]
fn gossip_refutes_suspicion_of_itself() {
    let mut gp = GossipProtocol::new("n1".to_string(), GossipConfig::default());
    gp.receive_message_at(GossipMessage::Suspect { node_id: "n1".to_string(), incarnation: 0 }, 10);
    assert!(gp.membership.is_alive("n1"));
    assert_eq!(gp.membership.incarnation, 1);
    let out = gp.drain_messages();
    assert!(out.iter().any(|m| matches!(m, GossipMessage::Alive { node_id, incarnation: 1, .. } if node_id == "n1")));
}

#[test]
fn gossip_stale_news_is_ignored() {
    let mut gp = GossipProtocol::new("n1".to_string(), GossipConfig::default());
    gp.receive_message_at(GossipMessage::Alive { node_id: "n2".into(), address: "a".into(), incarnation: 5 }, 1);
    gp.receive_message_at(GossipMessage::Suspect { node_id: "n2".into(), incarnation: 4 }, 2);
    assert!(gp.membership.is_alive("n2"));
    // at the same incarnation alive news outranks a suspicion
    gp.receive_message_at(GossipMessage::Suspect { node_id: "n2".into(), incarnation: 5 }, 3);
    assert!(gp.membership.is_alive("n2"));
    gp.receive_message_at(GossipMessage::Suspect { node_id: "n2".into(), incarnation: 6 }, 4);
    assert_eq!(gp.membership.get("n2").unwrap().status, NodeStatus::Suspect);
}

#[test]
fn gossip_leave_and_local_id() {
    let mut gp = GossipProtocol::new("n1".to_string(), GossipConfig::default());
    assert_eq!(gp.local_node_id(), "n1");
    gp.leave();
    assert_eq!(gp.membership.get("n1").unwrap().status, NodeStatus::Left);
    assert!(!gp.membership.is_alive("n1"));
}

#[test]
fn gossip_heartbeat_is_queued() {
    let mut gp = GossipProtocol::new("n1".to_string(), GossipConfig::default());
    gp.send_heartbeat(7, 0);
    let out = gp.drain_messages();
    assert!(out.iter().any(|m| matches!(m, GossipMessage::Heartbeat { fragment_count: 7, .. })));
}

fn make_config(node_id: &str) -> DistributedConfig {
    DistributedConfig {
        node_id: node_id.to_string(),
        address: format!("127.0.0.1:700{}", node_id.chars().last().unwrap()),
        virtual_nodes: 150,
        replication_factor: 3,
        gossip_config: GossipConfig::default(),
        merkle_bucket_size: 256,
        max_concurrent_repairs: 4,
    }
}

fn make_dist_config(node_id: &str, port: u16) -> DistributedConfig {
    DistributedConfig {
        node_id: node_id.to_string(),
        address: format!("127.0.0.1:{}", port),
        virtual_nodes: 150,
        replication_factor: 2,
        gossip_config: GossipConfig::default(),
        merkle_bucket_size: 256,
        max_concurrent_repairs: 2,
    }
}

#[test]
fn test_create_node() {
    let node = DistributedHolographicNode::new(make_config("node1"));
    assert_eq!(node.node_id(), "node1");
}

#[test]
fn test_join_cluster() {
    let mut node = DistributedHolographicNode::new(make_config("node1"));
    node.join_cluster(&[("node2".to_string(), "127.0.0.1:7002".to_string())]).unwrap();
    assert_eq!(node.ring.node_count(), 2);
}

#[test]
fn test_cluster_status() {
    let mut node = DistributedHolographicNode::new(make_config("node1"));
    node.ring.add_node("node1").unwrap();
    let status = node.cluster_status(0);
    assert_eq!(status.total_nodes, 1);
    assert_eq!(status.node_id, "node1");
}

#[test]
fn test_gossip_heartbeat() {
    let mut node = DistributedHolographicNode::new(make_config("node1"));
    node.send_heartbeat(0, 0.0f64.to_bits());
    let msgs = node.gossip.drain_messages();
    assert!(!msgs.is_empty());
}

#[test]
fn test_distributed_cluster_status() {
    let mut node = DistributedHolographicNode::new(make_dist_config("node1", 7001));
    node.ring.add_node("node1").unwrap();
    let status = node.cluster_status(0);
    assert_eq!(status.node_id, "node1");
    assert_eq!(status.total_nodes, 1);
    assert_eq!(status.replication_factor, 2);
}

#[test]
fn test_distributed_heartbeat_and_gossip() {
    let mut node = DistributedHolographicNode::new(make_dist_config("node1", 7001));
    node.ring.add_node("node1").unwrap();
    node.send_heartbeat(0, 0.0f64.to_bits());
    let msgs = node.gossip.drain_messages();
    assert!(!msgs.is_empty());
    let tick_msgs = node.gossip_tick();
    let _ = tick_msgs;
}

#[test]
fn test_gossip_membership() {
    let mut gp = GossipProtocol::new("node1".to_string(), GossipConfig::default());
    assert_eq!(gp.membership.alive_node_count(), 1);
    gp.handle_join("node2".to_string(), "addr2".to_string(), 0, HashMap::new());
    gp.handle_join("node3".to_string(), "addr3".to_string(), 0, HashMap::new());
    assert_eq!(gp.membership.alive_node_count(), 3);
    gp.suspect_node("node2");
    assert_eq!(gp.membership.get("node2").unwrap().status, NodeStatus::Suspect);
    gp.declare_dead("node2");
    assert_eq!(gp.membership.get("node2").unwrap().status, NodeStatus::Dead);
    assert_eq!(gp.membership.alive_node_count(), 2);
}

#[test]
fn test_gossip_message_exchange() {
    let mut gp1 = GossipProtocol::new("node1".to_string(), GossipConfig::default());
    let mut gp2 = GossipProtocol::new("node2".to_string(), GossipConfig::default());
    gp2.receive_message(GossipMessage::Alive { node_id: "node1".to_string(), address: "addr1".to_string(), incarnation: 0 });
    assert!(gp2.membership.is_alive("node1"));
    gp1.receive_message(GossipMessage::Alive { node_id: "node2".to_string(), address: "addr2".to_string(), incarnation: 0 });
    assert!(gp1.membership.is_alive("node2"));
}

#[test]
fn test_consistent_hash_load_balance() {
    let mut ring = ConsistentHashRing::new(150);
    ring.add_node("node1").unwrap();
    ring.add_node("node2").unwrap();
    ring.add_node("node3").unwrap();
    let dist = ring.load_distribution();
    let loads: Vec<usize> = dist.iter().map(|(_, c)| *c).collect();
    let avg = loads.iter().sum::<usize>() as f64 / loads.len() as f64;
    for &load in &loads {
        let deviation = (load as f64 - avg).abs() / avg;
        assert!(deviation < 0.3, "load {} vs avg {}", load, avg);
    }
}

#[test]
fn node_join_stops_at_a_known_id() {
    let mut node = DistributedHolographicNode::new(make_config("node1"));
    let seeds = vec![
        ("node2".to_string(), "a2".to_string()),
        ("node1".to_string(), "a1".to_string()),
        ("node3".to_string(), "a3".to_string()),
    ];
    assert!(matches!(node.join_cluster(&seeds), Err(RingError::NodeExists(n)) if n == "node1"));
    assert_eq!(node.ring.node_count(), 2);
    assert!(node.gossip.membership.is_alive("node2"));
    assert!(node.gossip.membership.get("node3").is_none());
}

#[test]
fn node_store_replicates_to_alive_members() {
    let mut node = DistributedHolographicNode::new(make_config("node1"));
    node.join_cluster_at(&[("node2".to_string(), "a2".to_string()), ("node3".to_string(), "a3".to_string())], 10).unwrap();
    let local = StoreResult { source_id: 1, source_hash: 99, fragment_count: 2, total_fragments: 2, fragment_ids: vec![5, 6] };
    let res = node.distributed_store(local);
    assert_eq!(res.replica_nodes.len(), 3);
    assert!(res.quorum_achieved);
    assert_eq!(res.replication_factor, 3);
    assert_eq!(res.local_result.fragment_ids, vec![5, 6]);
    // the other replicas to ask for this source, in ring order, without this node
    let others = node.replica_sources(99);
    assert_eq!(others.len(), 2);
    assert!(!others.contains(&"node1".to_string()));
    // a dead replica takes no write
    node.gossip.declare_dead("node2");
    let local = StoreResult { source_id: 2, source_hash: 99, fragment_count: 1, total_fragments: 1, fragment_ids: vec![7] };
    let res = node.distributed_store(local);
    assert_eq!(res.replica_nodes.len(), 2);
    assert!(!res.replica_nodes.contains(&"node2".to_string()));
}

#[test]
fn node_anti_entropy_and_repairs() {
    let mut node = DistributedHolographicNode::new(DistributedConfig { replication_factor: 1, ..make_dist_config("node1", 7001) });
    node.ring.add_node("node1").unwrap();
    let digests = vec![local_digest(1, &[(1, 2), (3, 4)]), local_digest(2, &[])];
    assert_eq!(digests[1], (2, 0));
    assert_eq!(digests[0], (1, (1 ^ 2) * 31 + (3 ^ 4)));
    let mut probe = MerkleTree::new(256);
    probe.build_from_digests(&digests);
    let same = probe.root_hash();
    assert_eq!(node.trigger_anti_entropy(digests.clone(), "node2", same), None);
    let task = node.trigger_anti_entropy(digests, "node2", same.wrapping_add(1));
    assert_eq!(task, Some(1));
    assert_eq!(node.cluster_status(3).pending_repairs, 1);
    assert!(node.advance_repairs().is_empty());
    assert_eq!(node.anti_entropy.completed_task_count(), 1);
    assert_eq!(node.cluster_status(3).pending_repairs, 0);
}

#[test]
fn node_receives_gossip_in_order() {
    let mut node = DistributedHolographicNode::new(make_config("node1"));
    node.receive_gossip_at(
        vec![
            GossipMessage::Alive { node_id: "node2".to_string(), address: "a2".to_string(), incarnation: 1 },
            GossipMessage::Suspect { node_id: "node2".to_string(), incarnation: 2 },
            GossipMessage::Suspect { node_id: "node1".to_string(), incarnation: 0 },
        ],
        5,
    );
    assert_eq!(node.gossip.membership.get("node2").unwrap().status, NodeStatus::Suspect);
    assert_eq!(node.gossip.membership.incarnation, 1);
    assert_eq!(node.replication_factor(), 3);
}

#[test]
fn ring_error_texts() {
    assert_eq!(RingError::EmptyRing.to_text(), "环为空，无可用节点");
    assert_eq!(RingError::NodeExists("node-1".to_string()).to_text(), "节点已存在: node-1");
    assert_eq!(RingError::NodeNotFound("n9".to_string()).to_text(), "节点不存在: n9");
}

#[test]
fn gossip_with_address_refutes_suspicion() {
    let mut gp = GossipProtocol::with_address("node1".to_string(), "addr1".to_string(), GossipConfig::default());
    gp.receive_message(GossipMessage::Suspect { node_id: "node1".into(), incarnation: 0 });
    assert_eq!(gp.membership.incarnation, 1);
    assert!(gp.membership.is_alive("node1"));
    let out = gp.drain_messages();
    assert_eq!(out.len(), 1);
    assert!(matches!(&out[0], GossipMessage::Alive { node_id, address, incarnation: 1 }
        if node_id == "node1" && address == "addr1"));
}

#[test]
fn merkle_root_ignores_digest_order() {
    let mut a = MerkleTree::new(2);
    let mut b = MerkleTree::new(2);
    a.build_from_digests(&[(1, 100), (2, 200), (3, 300), (4, 400), (5, 500)]);
    b.build_from_digests(&[(4, 400), (2, 200), (5, 500), (1, 100), (3, 300)]);
    assert_eq!(a.root_hash(), b.root_hash());
    assert!(a.diff(&b).identical);
}

#[test]
fn repair_status_counts_add_up() {
    let mut ae = AntiEntropyRepair::new(10, 2);
    ae.update_digests(vec![(1, 100), (2, 200), (3, 300), (4, 400)]);
    let t1 = ae.create_repair_task("a".into(), "b".into(), vec![(1, 1)]);
    let t2 = ae.create_repair_task("a".into(), "b".into(), vec![(2, 2)]);
    let t3 = ae.create_repair_task("a".into(), "b".into(), vec![(3, 3)]);
    let _t4 = ae.create_repair_task("a".into(), "b".into(), vec![(4, 4)]);
    ae.start_repair(t1).unwrap();
    ae.start_repair(t2).unwrap();
    assert!(ae.start_repair(t3).is_err());
    assert!(ae.in_progress_tasks().len() <= 2);
    ae.complete_repair(t1);
    ae.fail_repair(t2, "lost".to_string());
    ae.start_repair(t3).unwrap();
    let failed = 1;
    assert_eq!(
        ae.pending_tasks().len() + ae.in_progress_tasks().len() + ae.completed_task_count() + failed,
        ae.task_count()
    );
    assert_eq!(ae.pending_tasks().len(), 1);
}

#[test]
fn replicas_count_and_first_is_owner() {
    let mut ring = ConsistentHashRing::new(150);
    ring.add_node("n1").unwrap();
    ring.add_node("n2").unwrap();
    ring.add_node("n3").unwrap();
    for key in ["alpha", "beta", "gamma", "fragment_42"] {
        let r2 = ring.find_replicas(key, 2);
        assert_eq!(r2.len(), 2);
        assert_eq!(r2[0], ring.find_node(key).unwrap());
        assert_eq!(ring.find_replicas(key, 5).len(), 3);
    }
}

#[test]
fn ring_add_then_remove_restores() {
    let mut ring = ConsistentHashRing::new(20);
    ring.add_node("n1").unwrap();
    ring.add_node("n2").unwrap();
    let keys = ["a", "b", "c", "d", "e", "f"];
    let before: Vec<String> = keys.iter().map(|k| ring.find_node(k).unwrap().to_string()).collect();
    let (count, vnodes) = (ring.node_count(), ring.virtual_node_count_total());
    ring.add_node("n3").unwrap();
    ring.remove_node("n3").unwrap();
    assert_eq!((ring.node_count(), ring.virtual_node_count_total()), (count, vnodes));
    let after: Vec<String> = keys.iter().map(|k| ring.find_node(k).unwrap().to_string()).collect();
    assert_eq!(before, after);
    assert!(matches!(ring.remove_node("n9"), Err(RingError::NodeNotFound(n)) if n == "n9"));
}

#[test]
fn load_distribution_sorted_by_node_id() {
    let mut ring = ConsistentHashRing::new(5);
    for n in ["zeta", "alpha", "mu", "Beta", "alphabet"] {
        ring.add_node(n).unwrap();
    }
    let names: Vec<String> = ring.load_distribution().into_iter().map(|(n, _)| n).collect();
    assert_eq!(names, vec!["Beta", "alpha", "alphabet", "mu", "zeta"]);
}

#[test]
fn gossip_membership_state_matches_field() {
    let gp = GossipProtocol::with_address("node1".to_string(), "addr1".to_string(), GossipConfig::default());
    assert_eq!(gp.membership_state().incarnation, gp.membership.incarnation);
    assert_eq!(gp.membership_state().local_node_id, "node1");
}
