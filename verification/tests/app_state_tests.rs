use lector::addr::PeerAddr;
use lector::app_state::AppState;

#[test]
fn new_state_knows_the_default_peers() {
    let state = AppState::new();
    let peers = state.peers();
    assert_eq!(peers.len(), 100);
    assert_eq!(peers[0], PeerAddr::v4(192, 168, 1, 1, 50051));
    assert_eq!(peers[99], PeerAddr::v4(192, 168, 1, 100, 50051));
    assert_eq!(state.selected_count(), 0);
    assert!(state.selected_file().is_none());
    assert!(state.selected_peer_addresses().is_empty());
}

#[test]
fn selecting_rows_picks_their_addresses_in_order() {
    let mut state = AppState::new();
    state.set_peer_selected(4, true);
    state.set_peer_selected(1, true);
    state.set_peer_selected(500, true);
    assert!(state.is_selected(1));
    assert!(state.is_selected(4));
    assert!(!state.is_selected(2));
    assert!(!state.is_selected(500));
    assert_eq!(state.selected_count(), 2);
    assert_eq!(
        state.selected_peer_addresses(),
        vec![PeerAddr::v4(192, 168, 1, 2, 50051), PeerAddr::v4(192, 168, 1, 5, 50051)]
    );
    state.set_peer_selected(1, false);
    assert_eq!(state.selected_count(), 1);
}

#[test]
fn select_all_online_ignores_rows_past_the_end() {
    let mut state = AppState::new();
    state.replace_peers(vec![PeerAddr::v4(10, 0, 0, 1, 1), PeerAddr::v4(10, 0, 0, 2, 1), PeerAddr::v4(10, 0, 0, 3, 1)]);
    state.select_all_online(&[0, 2, 7]);
    assert!(state.is_selected(0));
    assert!(!state.is_selected(1));
    assert!(state.is_selected(2));
    assert_eq!(state.selected_count(), 2);
    state.deselect_all();
    assert_eq!(state.selected_count(), 0);
    assert!(state.selected_peer_addresses().is_empty());
}

#[test]
fn replacing_peers_clears_the_selection() {
    let mut state = AppState::new();
    state.set_peer_selected(0, true);
    state.replace_peers(vec![PeerAddr::v4(10, 0, 0, 9, 50051)]);
    assert_eq!(state.peers(), vec![PeerAddr::v4(10, 0, 0, 9, 50051)]);
    assert_eq!(state.selected_count(), 0);
    assert!(!state.is_selected(0));
}

#[test]
fn resize_selection_keeps_the_rows_that_stay() {
    let mut state = AppState::new();
    state.set_peer_selected(0, true);
    state.set_peer_selected(3, true);
    state.resize_selection(2);
    assert!(state.is_selected(0));
    assert!(!state.is_selected(3));
    assert_eq!(state.selected_count(), 1);
    state.resize_selection(5);
    assert!(state.is_selected(0));
    assert!(!state.is_selected(3));
    assert!(!state.is_selected(4));
    // five flags for a hundred peers: only the first five peers pair up
    state.set_peer_selected(4, true);
    assert_eq!(state.selected_peer_addresses(), vec![PeerAddr::v4(192, 168, 1, 1, 50051), PeerAddr::v4(192, 168, 1, 5, 50051)]);
}

#[test]
fn selected_file_is_remembered() {
    let mut state = AppState::new();
    state.set_selected_file("/home/teacher/lesson.pdf".to_string());
    assert_eq!(state.selected_file(), Some("/home/teacher/lesson.pdf".to_string()));
}
