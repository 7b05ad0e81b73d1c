use lector::addr::PeerAddr;
use lector::daemon::Config;
use lector::topology::DistributionTree;

fn loopback(port: u16) -> PeerAddr {
    PeerAddr::v4(127, 0, 0, 1, port)
}

#[test]
fn config_default_values() {
    let config = Config::default_for(false);

    assert_eq!(config.grpc_port, 50051);
    assert_eq!(config.quic_port, 50052);
}

#[test]
fn topology_with_selected_peers_only() {
    let all_peers: Vec<_> = (1..=10).map(|p| loopback(9000 + p)).collect();
    let selected: Vec<_> = vec![all_peers[0], all_peers[2], all_peers[5]];

    let tree = DistributionTree::build(loopback(9000), &selected, 2);

    assert_eq!(tree.nodes.len(), 4);

    for peer in &selected {
        assert!(tree.find_node(*peer).is_some());
    }

    let unselected = vec![all_peers[1], all_peers[3], all_peers[4]];
    for peer in &unselected {
        assert!(tree.find_node(*peer).is_none());
    }
}

#[test]
fn tree_topology_matches_actual_transfer() {
    let peers: Vec<_> = (0..5).map(|i| loopback(41000 + i)).collect();
    let teacher = loopback(41100);

    let tree = DistributionTree::build(teacher, &peers, 2);

    for node in &tree.nodes {
        if node.addr == teacher {
            assert!(node.parent.is_none());
            assert!(!node.children.is_empty());
        }
    }

    let root_children = &tree.find_node(teacher).unwrap().children;
    assert!(root_children.len() <= 2);

    for child_addr in root_children {
        let child = tree.find_node(*child_addr).unwrap();
        assert_eq!(child.parent, Some(teacher));
    }
}

#[test]
fn heal_and_redistribute() {
    let teacher = loopback(42100);
    let peers: Vec<_> = (0..6).map(|i| loopback(42000 + i)).collect();

    let mut tree = DistributionTree::build(teacher, &peers, 2);
    let failed = tree.find_node(teacher).unwrap().children[0];

    tree.heal(failed);

    assert!(tree.find_node(failed).is_none());

    for node in &tree.nodes {
        if node.addr != teacher {
            assert!(node.parent.is_some(), "node {:?} should have parent after heal", node.addr);
        }
    }
}
