use lector::addr::PeerAddr;
use lector::app_state::AppState;
use lector::orchestrator::{
    check_selection, completion_status, plan_distribution, plan_with_hash, preparing_status, readiness_status,
    streaming_status, teacher_quic, DistributionError,
};
use sha2::{Digest, Sha256};

fn lower_hex(bytes: &[u8]) -> String {
    bytes.iter().map(|b| format!("{:02x}", b)).collect()
}

#[test]
fn nothing_to_distribute_without_file_or_peers() {
    let mut state = AppState::new();
    state.set_peer_selected(0, true);
    assert_eq!(check_selection(&state).err(), Some(DistributionError::NoFileSelected));
    assert_eq!(DistributionError::NoFileSelected.message(), "No file selected");

    let mut state = AppState::new();
    state.set_selected_file("lesson.pdf".to_string());
    assert_eq!(check_selection(&state).err(), Some(DistributionError::NoPeersSelected));
    assert_eq!(DistributionError::NoPeersSelected.message(), "No peers selected");

    state.set_peer_selected(2, true);
    let (file, peers) = check_selection(&state).unwrap();
    assert_eq!(file, "lesson.pdf");
    assert_eq!(peers, vec![PeerAddr::v4(192, 168, 1, 3, 50051)]);
}

#[test]
fn plan_hashes_the_file_and_names_it_by_the_digest() {
    let data = b"the lesson of the day".to_vec();
    let digest: [u8; 32] = Sha256::digest(&data).into();
    let peers = vec![PeerAddr::v4(192, 168, 1, 10, 50051)];
    let plan = plan_distribution(&peers, &"lesson.txt".to_string(), data.len() as u64, &data);

    assert_eq!(plan.file_hash, digest);
    assert_ne!(plan.file_hash.to_vec(), data[..32.min(data.len())].to_vec());
    assert_eq!(plan.file_id, lower_hex(&digest[..8]));
    assert_eq!(plan.hash_display, lower_hex(&digest[..16]) + "\u{2026}");
    assert_eq!(plan.file_id.len(), 16);
}

#[test]
fn plan_instructs_every_peer_with_its_place_in_the_tree() {
    let peers: Vec<_> = (1..=5).map(|i| PeerAddr::v4(192, 168, 1, i, 50051)).collect();
    let hash = [7u8; 32];
    let plan = plan_with_hash(&peers, &"notes.pdf".to_string(), 1234, hash);

    assert_eq!(plan.tree.root, teacher_quic());
    assert_eq!(plan.tree.nodes.len(), 6);
    assert_eq!(plan.file_id, "0707070707070707");
    assert_eq!(plan.root_children, vec![PeerAddr::v4(192, 168, 1, 1, 50052), PeerAddr::v4(192, 168, 1, 2, 50052)]);
    assert_eq!(plan.instructions.len(), 5);

    let first = &plan.instructions[0];
    assert_eq!(first.grpc_addr, PeerAddr::v4(192, 168, 1, 1, 50051));
    assert_eq!(first.instruction.parent_address, "0.0.0.0:50052");
    assert_eq!(first.instruction.children_addresses, vec!["192.168.1.3:50052".to_string(), "192.168.1.4:50052".to_string()]);
    assert_eq!(first.instruction.file_name, "notes.pdf");
    assert_eq!(first.instruction.file_size, 1234);
    assert_eq!(first.instruction.file_hash, vec![7u8; 32]);
    assert_eq!(first.instruction.file_id, "0707070707070707");

    let second = &plan.instructions[1];
    assert_eq!(second.instruction.children_addresses, vec!["192.168.1.5:50052".to_string()]);

    let last = &plan.instructions[4];
    assert_eq!(last.grpc_addr, PeerAddr::v4(192, 168, 1, 5, 50051));
    assert_eq!(last.instruction.parent_address, "192.168.1.2:50052");
    assert!(last.instruction.children_addresses.is_empty());
}

#[test]
fn a_peer_at_the_teachers_address_gets_no_instruction() {
    let peers = vec![PeerAddr::v4(0, 0, 0, 0, 50051), PeerAddr::v4(10, 0, 0, 1, 50051)];
    let plan = plan_with_hash(&peers, &"f".to_string(), 1, [0u8; 32]);
    assert_eq!(plan.tree.nodes.len(), 3);
    assert_eq!(plan.instructions.len(), 1);
    assert_eq!(plan.instructions[0].grpc_addr, PeerAddr::v4(10, 0, 0, 1, 50051));
}

#[test]
fn status_lines_read_as_the_console_shows_them() {
    assert_eq!(preparing_status(12), "Preparing distribution to 12 peers...");
    assert_eq!(readiness_status(0), "All peers ready \u{2014} streaming file...");
    assert_eq!(readiness_status(3), "\u{26a0} 3 peers unreachable, sending to remaining...");
    assert_eq!(
        streaming_status(0, 2, &PeerAddr::v4(192, 168, 1, 1, 50052)),
        "Streaming to root child 1/2 (192.168.1.1:50052)"
    );
    assert_eq!(completion_status("notes.pdf", 30), "\u{2705} Distribution complete \u{2014} notes.pdf sent to 30 peers");
}

#[test]
fn plan_places_ipv6_peers_without_their_scope() {
    let peers = vec![
        PeerAddr::v6([0xfe80, 0, 0, 0, 0, 0, 0, 1], 50051, 2),
        PeerAddr::v6([0x2001, 0xdb8, 0, 0, 0, 0, 0, 2], 50051, 0),
        PeerAddr::v6([0x2001, 0xdb8, 0, 0, 0, 0, 0, 3], 50051, 0),
    ];
    let plan = plan_with_hash(&peers, &"notes.pdf".to_string(), 1, [0u8; 32]);
    assert_eq!(
        plan.root_children,
        vec![
            PeerAddr::v6([0xfe80, 0, 0, 0, 0, 0, 0, 1], 50052, 0),
            PeerAddr::v6([0x2001, 0xdb8, 0, 0, 0, 0, 0, 2], 50052, 0)
        ]
    );
    let first = &plan.instructions[0];
    assert_eq!(first.grpc_addr, PeerAddr::v6([0xfe80, 0, 0, 0, 0, 0, 0, 1], 50051, 0));
    assert_eq!(first.instruction.children_addresses, vec!["[2001:db8::3]:50052".to_string()]);
    assert_eq!(plan.instructions[2].instruction.parent_address, "[fe80::1]:50052");
}
