use lector::addr::PeerAddr;
use lector::discovery::{count_online, online_indices, scan_summary, sort_scan_results, status_label, PeerScanResult};
use lector::monitor::NodeTelemetry;
use lector::proto::{PingResponse, TelemetryResponse};

fn result(last: u8, online: bool, ping: u64, host: &str) -> PeerScanResult {
    PeerScanResult {
        addr: PeerAddr::v4(192, 168, 1, last, 50051),
        online,
        hostname: host.to_string(),
        ping_ms: ping,
        free_disk_bytes: 0,
        version: String::new(),
    }
}

#[test]
fn scan_result_from_a_reply_or_its_absence() {
    let reply = PingResponse { timestamp: 1, daemon_version: "0.1.0".into(), free_disk_bytes: 77, hostname: "pc-3".into() };
    let up = PeerScanResult::from_ping(PeerAddr::v4(10, 0, 0, 3, 50051), Some(reply), 12);
    assert!(up.online);
    assert_eq!(up.hostname, "pc-3");
    assert_eq!(up.ping_ms, 12);
    assert_eq!(up.free_disk_bytes, 77);
    assert_eq!(up.version, "0.1.0");
    let down = PeerScanResult::from_ping(PeerAddr::v4(10, 0, 0, 4, 50051), None, 3000);
    assert!(!down.online);
    assert_eq!(down.ping_ms, 0);
    assert!(down.hostname.is_empty() && down.version.is_empty());
}

#[test]
fn scan_listing_puts_online_fast_low_addresses_first() {
    let results = vec![
        result(9, false, 0, "a"),
        result(3, true, 20, "b"),
        result(2, true, 5, "c"),
        result(1, true, 20, "d"),
        result(4, false, 0, "e"),
    ];
    let listed = sort_scan_results(results);
    let hosts: Vec<_> = listed.iter().map(|r| r.hostname.as_str()).collect();
    assert_eq!(hosts, vec!["c", "d", "b", "e", "a"]);
}

#[test]
fn scan_listing_keeps_equal_results_in_arrival_order() {
    let results = vec![result(5, true, 10, "first"), result(1, false, 0, "x"), result(5, true, 10, "second")];
    let listed = sort_scan_results(results);
    let hosts: Vec<_> = listed.iter().map(|r| r.hostname.as_str()).collect();
    assert_eq!(hosts, vec!["first", "second", "x"]);
}

#[test]
fn online_counts_and_rows() {
    let results = vec![result(1, true, 1, ""), result(2, false, 0, ""), result(3, true, 2, "")];
    assert_eq!(count_online(&results), 2);
    assert_eq!(online_indices(&[true, false, true, true]), vec![0, 2, 3]);
    assert!(online_indices(&[false, false]).is_empty());
    assert_eq!(status_label(true), "online");
    assert_eq!(status_label(false), "offline");
    assert_eq!(scan_summary(2, 3), "Scan complete \u{2014} 2 of 3 peers online");
}

#[test]
fn telemetry_of_a_reachable_or_silent_daemon() {
    let a = PeerAddr::v4(10, 0, 0, 7, 50051);
    let resp = TelemetryResponse { progress_percent: 40, download_speed_bps: 1000, current_file_id: "f".into() };
    let t = NodeTelemetry::from_reply(a, Some(&resp));
    assert!(t.reachable);
    assert_eq!((t.progress, t.speed_bps), (40, 1000));
    let t = NodeTelemetry::from_reply(a, None);
    assert!(!t.reachable);
    assert_eq!((t.addr, t.progress, t.speed_bps), (a, 0, 0));
}

#[test]
fn scan_listing_puts_ipv4_peers_before_ipv6_peers_at_equal_ping() {
    let mut v6 = result(1, false, 0, "v6-high");
    v6.addr = PeerAddr::v6([0x2001, 0xdb8, 0, 0, 0, 0, 0, 9], 50051, 0);
    let mut v6_low = result(1, false, 0, "v6-low");
    v6_low.addr = PeerAddr::v6([0x2001, 0xdb8, 0, 0, 0, 0, 0, 1], 50051, 0);
    let results = vec![v6, result(200, false, 0, "v4"), v6_low];
    let listed = sort_scan_results(results);
    let hosts: Vec<_> = listed.iter().map(|r| r.hostname.as_str()).collect();
    assert_eq!(hosts, vec!["v4", "v6-low", "v6-high"]);
}
