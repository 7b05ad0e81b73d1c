use lector::proto::{
    ActionResponse, CancelRequest, DownloadInstruction, PingRequest, PingResponse, TelemetryResponse, TopologyInstruction,
};

#[test]
fn ping_request_default() {
    let req = PingRequest::default();

    assert_eq!(req.timestamp, 0);
}

#[test]
fn ping_response_fields() {
    let resp = PingResponse {
        timestamp: 1234567890,
        daemon_version: "0.1.0".into(),
        free_disk_bytes: 1024 * 1024 * 1024,
        hostname: "test-pc".into(),
    };

    assert_eq!(resp.timestamp, 1234567890);
    assert_eq!(resp.daemon_version, "0.1.0");
    assert_eq!(resp.free_disk_bytes, 1_073_741_824);
    assert_eq!(resp.hostname, "test-pc");
}

#[test]
fn download_instruction_construction() {
    let instruction = DownloadInstruction {
        file_id: "abc123".into(),
        file_name: "test.pdf".into(),
        file_size: 1048576,
        file_hash: vec![0xDE, 0xAD, 0xBE, 0xEF],
        parent_address: "192.168.1.5:50052".into(),
        children_addresses: vec!["192.168.1.10:50052".into(), "192.168.1.11:50052".into()],
    };

    assert_eq!(instruction.file_id, "abc123");
    assert_eq!(instruction.file_name, "test.pdf");
    assert_eq!(instruction.file_size, 1048576);
    assert_eq!(instruction.file_hash, vec![0xDE, 0xAD, 0xBE, 0xEF]);
    assert_eq!(instruction.children_addresses.len(), 2);
}

#[test]
fn action_response_success() {
    let resp = ActionResponse { success: true, error_message: String::new() };

    assert!(resp.success);
    assert!(resp.error_message.is_empty());
}

#[test]
fn action_response_failure() {
    let resp = ActionResponse { success: false, error_message: "connection refused".into() };

    assert!(!resp.success);
    assert_eq!(resp.error_message, "connection refused");
}

#[test]
fn topology_instruction_construction() {
    let instruction = TopologyInstruction {
        file_id: "transfer-42".into(),
        new_parent_address: "192.168.1.100:50052".into(),
        new_children_addresses: vec!["192.168.1.200:50052".into()],
    };

    assert_eq!(instruction.file_id, "transfer-42");
    assert_eq!(instruction.new_parent_address, "192.168.1.100:50052");
    assert_eq!(instruction.new_children_addresses.len(), 1);
}

#[test]
fn cancel_request_construction() {
    let req = CancelRequest { file_id: "cancel-me".into() };

    assert_eq!(req.file_id, "cancel-me");
}

#[test]
fn action_responses_built_by_the_library() {
    let ok = ActionResponse::accepted();
    assert!(ok.success);
    assert!(ok.error_message.is_empty());

    let failed = ActionResponse::failed("disk full".to_string());
    assert!(!failed.success);
    assert_eq!(failed.error_message, "disk full");
}

#[test]
fn telemetry_response_fields() {
    let resp = TelemetryResponse {
        progress_percent: 75,
        download_speed_bps: 10_000_000,
        current_file_id: "file-001".into(),
    };

    assert_eq!(resp.progress_percent, 75);
    assert_eq!(resp.download_speed_bps, 10_000_000);
    assert_eq!(resp.current_file_id, "file-001");
}
