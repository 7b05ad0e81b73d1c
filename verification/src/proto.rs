//! The messages that the teacher's console and the daemons exchange.

use vstd::prelude::*;

verus! {

/// Asks a daemon whether it is alive; carries the sender's clock in ms.
#[derive(Debug, PartialEq, Eq)]
pub struct PingRequest {
    pub timestamp: u64,
}

impl Default for PingRequest {
    fn default() -> (r: PingRequest)
        ensures
            r.timestamp == 0,
    {
        PingRequest { timestamp: 0 }
    }
}

/// A daemon's answer to a ping.
#[derive(Debug, PartialEq, Eq)]
pub struct PingResponse {
    pub timestamp: u64,
    pub daemon_version: String,
    pub free_disk_bytes: u64,
    pub hostname: String,
}

/// Tells a daemon what to download, from where, and where to forward it.
#[derive(Debug, PartialEq, Eq)]
pub struct DownloadInstruction {
    pub file_id: String,
    pub file_name: String,
    pub file_size: u64,
    pub file_hash: Vec<u8>,
    pub parent_address: String,
    pub children_addresses: Vec<String>,
}

/// The mathematical value of a download instruction.
pub struct DownloadInstructionView {
    pub file_id: Seq<char>,
    pub file_name: Seq<char>,
    pub file_size: u64,
    pub file_hash: Seq<u8>,
    pub parent_address: Seq<char>,
    pub children_addresses: Seq<Seq<char>>,
}

pub open spec fn texts(v: Seq<String>) -> Seq<Seq<char>> {
    v.map_values(|s: String| s@)
}

impl View for DownloadInstruction {
    type V = DownloadInstructionView;

    open spec fn view(&self) -> DownloadInstructionView {
        DownloadInstructionView {
            file_id: self.file_id@,
            file_name: self.file_name@,
            file_size: self.file_size,
            file_hash: self.file_hash@,
            parent_address: self.parent_address@,
            children_addresses: texts(self.children_addresses@),
        }
    }
}

/// The outcome of a request that asks a daemon to act.
#[derive(Debug, PartialEq, Eq)]
pub struct ActionResponse {
    pub success: bool,
    pub error_message: String,
}

impl ActionResponse {
    /// The request was accepted.
    pub fn accepted() -> (r: ActionResponse)
        ensures
            r.success,
            r.error_message@ == Seq::<char>::empty(),
    {
        ActionResponse { success: true, error_message: String::new() }
    }

    /// The request failed with the given reason.
    pub fn failed(reason: String) -> (r: ActionResponse)
        ensures
            !r.success,
            r.error_message@ == reason@,
    {
        ActionResponse { success: false, error_message: reason }
    }
}

/// Asks a daemon for its transfer progress.
#[derive(Debug, PartialEq, Eq)]
pub struct TelemetryRequest {}

/// A daemon's transfer progress: the percentage of the active transfer,
/// the download speed, and the active file's id.
#[derive(Debug, PartialEq, Eq)]
pub struct TelemetryResponse {
    pub progress_percent: u32,
    pub download_speed_bps: u64,
    pub current_file_id: String,
}

/// Moves a daemon to another parent and other children.
#[derive(Debug, PartialEq, Eq)]
pub struct TopologyInstruction {
    pub file_id: String,
    pub new_parent_address: String,
    pub new_children_addresses: Vec<String>,
}

/// Asks a daemon to drop a transfer.
#[derive(Debug, PartialEq, Eq)]
pub struct CancelRequest {
    pub file_id: String,
}

} // verus!
