use lector::addr::PeerAddr;
use lector::daemon::{
    acknowledge, config_path, end_transfer, handle_control, ping_reply, plan_transfer, run, ActiveTransfer, Config, ControlResponse,
    ReceiveMode, ServiceControl, TransferError,
};
use lector::proto::DownloadInstruction;

fn instruction(parent: &str, children: &[&str]) -> DownloadInstruction {
    DownloadInstruction {
        file_id: "abc".into(),
        file_name: "f.bin".into(),
        file_size: 4096,
        file_hash: vec![1, 2, 3],
        parent_address: parent.into(),
        children_addresses: children.iter().map(|c| c.to_string()).collect(),
    }
}

#[test]
fn default_configuration_per_platform() {
    let unix = Config::default_for(false);
    assert_eq!(unix.download_dir, "/var/lib/lector/downloads");
    assert!(unix.teacher_addr.is_none());
    let windows = Config::default_for(true);
    assert_eq!(windows.download_dir, "C:\\ProgramData\\Lector\\Downloads");
    assert_eq!(windows.grpc_port, 50051);
    assert_eq!(windows.quic_port, 50052);
}

#[test]
fn configuration_file_location() {
    assert_eq!(config_path(Some("/tmp/x.toml".to_string()), false), "/tmp/x.toml");
    assert_eq!(config_path(None, false), "/etc/lector/config.toml");
    assert_eq!(config_path(None, true), "C:\\ProgramData\\Lector\\config.toml");
}

#[test]
fn ping_reply_fills_in_unknowns() {
    let r = ping_reply(99, "0.1.0", None, None);
    assert_eq!(r.timestamp, 99);
    assert_eq!(r.daemon_version, "0.1.0");
    assert_eq!(r.free_disk_bytes, 0);
    assert_eq!(r.hostname, "");
    let r = ping_reply(5, "0.2.0", Some(1 << 30), Some("pc-12".to_string()));
    assert_eq!(r.free_disk_bytes, 1 << 30);
    assert_eq!(r.hostname, "pc-12");
    let ack = acknowledge();
    assert!(ack.success && ack.error_message.is_empty());
}

#[test]
fn one_transfer_at_a_time() {
    let mut slot = ActiveTransfer::new();
    assert!(!slot.is_busy());
    assert_eq!(slot.try_begin(&"a".to_string()), Ok(()));
    assert!(slot.is_busy());
    assert_eq!(slot.try_begin(&"b".to_string()), Err(TransferError::AlreadyInProgress));
    assert_eq!(TransferError::AlreadyInProgress.message(), "transfer already in progress");
    slot.finish(&"b".to_string());
    assert!(slot.is_busy());
    slot.finish(&"a".to_string());
    assert!(!slot.is_busy());
    assert_eq!(slot.try_begin(&"b".to_string()), Ok(()));
}

#[test]
fn instruction_with_children_makes_a_cascade_node() {
    let plan = plan_transfer(&instruction("10.0.0.1:50052", &["10.0.0.2:50052", "bogus", "10.0.0.3:50052"]))
        .ok()
        .unwrap();
    assert_eq!(plan.parent, PeerAddr::v4(10, 0, 0, 1, 50052));
    assert_eq!(plan.children, vec![PeerAddr::v4(10, 0, 0, 2, 50052), PeerAddr::v4(10, 0, 0, 3, 50052)]);
    assert_eq!(plan.expected_size, Some(4096));
    assert_eq!(plan.mode, ReceiveMode::Cascade);
}

#[test]
fn instruction_without_valid_children_makes_a_leaf() {
    let plan = plan_transfer(&instruction("10.0.0.1:50052", &["nonsense"])).ok().unwrap();
    assert!(plan.children.is_empty());
    assert_eq!(plan.mode, ReceiveMode::Leaf);
}

#[test]
fn instruction_with_bad_parent_is_refused() {
    assert_eq!(plan_transfer(&instruction("10.0.0.1", &[])).err(), Some(TransferError::BadParentAddress));
    assert_eq!(TransferError::BadParentAddress.message(), "invalid socket address syntax");
}

#[test]
fn service_answers_controls_and_binds_all_interfaces() {
    assert_eq!(handle_control(ServiceControl::Stop), ControlResponse::NoError);
    assert_eq!(handle_control(ServiceControl::Interrogate), ControlResponse::NoError);
    assert_eq!(handle_control(ServiceControl::Other), ControlResponse::NotImplemented);
    let mut config = Config::default_for(false);
    config.quic_port = 6000;
    let launch = run(&config);
    assert_eq!(launch.quic_addr, PeerAddr::v4(0, 0, 0, 0, 6000));
    assert_eq!(launch.grpc_addr, PeerAddr::v4(0, 0, 0, 0, 50051));
}

#[test]
fn instruction_with_ipv6_addresses_is_read() {
    let plan = plan_transfer(&instruction("[::1]:50052", &["[fe80::2%1]:50052", "bogus", "10.0.0.3:50052"]))
        .ok()
        .unwrap();
    assert_eq!(plan.parent, PeerAddr::v6([0, 0, 0, 0, 0, 0, 0, 1], 50052, 0));
    assert_eq!(
        plan.children,
        vec![PeerAddr::v6([0xfe80, 0, 0, 0, 0, 0, 0, 2], 50052, 1), PeerAddr::v4(10, 0, 0, 3, 50052)]
    );
    assert_eq!(plan.mode, ReceiveMode::Cascade);
    assert_eq!(plan_transfer(&instruction("[::1]", &[])).err(), Some(TransferError::BadParentAddress));
}

#[test]
fn ending_a_transfer_frees_the_slot_and_drops_failed_records() {
    let mut slot = ActiveTransfer::new();
    assert_eq!(slot.try_begin(&"a".to_string()), Ok(()));
    assert!(end_transfer(&mut slot, &"a".to_string(), false));
    assert!(!slot.is_busy());
    assert_eq!(slot.try_begin(&"b".to_string()), Ok(()));
    assert!(!end_transfer(&mut slot, &"c".to_string(), true));
    assert_eq!(slot.current_id(), Some("b".to_string()));
    assert!(!end_transfer(&mut slot, &"b".to_string(), true));
    assert!(!slot.is_busy());
}
