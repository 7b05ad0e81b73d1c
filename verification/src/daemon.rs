//! The daemon on a pupil's machine: its configuration, the replies it
//! gives, the one-transfer-at-a-time rule, and how it reads an instruction.

use vstd::prelude::*;

use crate::addr::{parse_addr, Ipv4, PeerAddr};
use crate::proto::{texts, ActionResponse, DownloadInstruction, PingResponse};
use vstd::string::StringExecFns;
use vstd::utf8::encode_utf8;

verus! {

/// Where the daemon listens and where it stores what it receives.
#[derive(Clone, Debug)]
pub struct Config {
    pub grpc_port: u16,
    pub quic_port: u16,
    pub download_dir: String,
    pub teacher_addr: Option<String>,
}

impl Config {
    /// The configuration used when no file is found: the instruction port
    /// 50051, the file port 50052, the platform's download folder, and no
    /// teacher address.
    pub fn default_for(windows: bool) -> (c: Config)
        ensures
            c.grpc_port == 50051,
            c.quic_port == 50052,
            c.download_dir@ == (if windows {
                "C:\\ProgramData\\Lector\\Downloads"@
            } else {
                "/var/lib/lector/downloads"@
            }),
            c.teacher_addr is None,
    {
        let download_dir = if windows {
            String::from_str("C:\\ProgramData\\Lector\\Downloads")
        } else {
            String::from_str("/var/lib/lector/downloads")
        };
        Config { grpc_port: 50051, quic_port: 50052, download_dir, teacher_addr: None }
    }
}

/// Where the configuration file is read from: the path given in the
/// environment if any, else the platform's default.
pub fn config_path(from_env: Option<String>, windows: bool) -> (p: String)
    ensures
        p@ == (match from_env {
            Some(e) => e@,
            None => if windows {
                "C:\\ProgramData\\Lector\\config.toml"@
            } else {
                "/etc/lector/config.toml"@
            },
        }),
{
    match from_env {
        Some(e) => e,
        None => {
            if windows {
                String::from_str("C:\\ProgramData\\Lector\\config.toml")
            } else {
                String::from_str("/etc/lector/config.toml")
            }
        },
    }
}

/// The answer to a ping: the daemon's clock, version and host name, and the
/// free space of its download folder; an unknown host name is empty and an
/// unknown free space is zero.
pub fn ping_reply(now_ms: u64, version: &str, free_disk: Option<u64>, hostname: Option<String>) -> (r: PingResponse)
    ensures
        r.timestamp == now_ms,
        r.daemon_version@ == version@,
        r.free_disk_bytes == (match free_disk {
            Some(f) => f,
            None => 0,
        }),
        r.hostname@ == (match hostname {
            Some(h) => h@,
            None => Seq::<char>::empty(),
        }),
{
    let free = match free_disk {
        Some(f) => f,
        None => 0,
    };
    let host = match hostname {
        Some(h) => h,
        None => String::new(),
    };
    PingResponse { timestamp: now_ms, daemon_version: String::from_str(version), free_disk_bytes: free, hostname: host }
}

/// The answer to an instruction, a topology update or a cancellation: the
/// daemon accepts it (the work itself goes on in the background).
pub fn acknowledge() -> (r: ActionResponse)
    ensures
        r.success,
        r.error_message@ == Seq::<char>::empty(),
{
    ActionResponse::accepted()
}

/// Why a transfer does not run.
#[derive(Clone, Copy, Debug, PartialEq, Eq, Structural)]
pub enum TransferError {
    AlreadyInProgress,
    BadParentAddress,
}

impl TransferError {
    pub fn message(&self) -> (r: &'static str)
        ensures
            r@ == (match self {
                TransferError::AlreadyInProgress => "transfer already in progress"@,
                TransferError::BadParentAddress => "invalid socket address syntax"@,
            }),
    {
        match self {
            TransferError::AlreadyInProgress => "transfer already in progress",
            TransferError::BadParentAddress => "invalid socket address syntax",
        }
    }
}

/// The id of the transfer the daemon is running, if any: a daemon runs one
/// transfer at a time.
#[derive(Debug)]
pub struct ActiveTransfer {
    current: Option<String>,
}

impl View for ActiveTransfer {
    type V = Option<Seq<char>>;

    closed spec fn view(&self) -> Option<Seq<char>> {
        match self.current {
            Some(s) => Some(s@),
            None => None,
        }
    }
}

impl ActiveTransfer {
    /// No transfer running.
    pub fn new() -> (r: ActiveTransfer)
        ensures
            r@ is None,
    {
        ActiveTransfer { current: None }
    }

    /// Whether a transfer is running.
    pub fn is_busy(&self) -> (r: bool)
        ensures
            r == self@ is Some,
    {
        self.current.is_some()
    }

    /// The id of the running transfer.
    pub fn current_id(&self) -> (r: Option<String>)
        ensures
            match r {
                Some(id) => self@ == Some(id@),
                None => self@ is None,
            },
    {
        match &self.current {
            Some(c) => Some(c.clone()),
            None => None,
        }
    }

    /// Starts the transfer `file_id`, unless one is running already, in
    /// which case nothing changes.
    pub fn try_begin(&mut self, file_id: &String) -> (r: Result<(), TransferError>)
        ensures
            r is Ok <==> old(self)@ is None,
            r is Err ==> r == Err::<(), TransferError>(TransferError::AlreadyInProgress),
            final(self)@ == after_begin(old(self)@, file_id@),
    {
        if self.current.is_some() {
            return Err(TransferError::AlreadyInProgress);
        }
        self.current = Some(file_id.clone());
        Ok(())
    }

    /// Ends the transfer `file_id`: the daemon is idle again if that is the
    /// transfer it was running, else nothing changes.
    pub fn finish(&mut self, file_id: &String)
        ensures
            final(self)@ == after_finish(old(self)@, file_id@),
    {
        let same = match &self.current {
            Some(c) => *c == *file_id,
            None => false,
        };
        if same {
            self.current = None;
        }
    }
}

/// Ends the transfer `file_id`: the slot is freed if it held that transfer,
/// and the answer says whether the transfer's record is to be dropped, which
/// it is when the transfer failed.
pub fn end_transfer(slot: &mut ActiveTransfer, file_id: &String, succeeded: bool) -> (drop_record: bool)
    ensures
        final(slot)@ == after_finish(old(slot)@, file_id@),
        drop_record == !succeeded,
{
    slot.finish(file_id);
    !succeeded
}

/// The running transfer after an attempt to start `file_id`.
pub open spec fn after_begin(s: Option<Seq<char>>, file_id: Seq<char>) -> Option<Seq<char>> {
    if s is Some { s } else { Some(file_id) }
}

/// The running transfer after `file_id` ends.
pub open spec fn after_finish(s: Option<Seq<char>>, file_id: Seq<char>) -> Option<Seq<char>> {
    if s == Some(file_id) { None } else { s }
}

/// An idle daemon that starts a transfer and finishes it is idle again; a
/// busy daemon that is asked for another transfer keeps the one it runs,
/// and keeps it when that other transfer's end is reported.
pub proof fn transfer_slot_round_trip(running: Seq<char>, file_id: Seq<char>, other: Seq<char>)
    requires
        other != running,
    ensures
        after_finish(after_begin(None, file_id), file_id) is None,
        after_begin(Some(running), file_id) == Some(running),
        after_finish(after_begin(Some(running), other), other) == Some(running),
{
}

/// The address text `t` read as an address.
pub open spec fn parse_text(t: Seq<char>) -> Option<PeerAddr> {
    parse_addr(encode_utf8(t))
}

/// The addresses among `ts` that read as addresses, in order; the others are
/// skipped.
pub open spec fn parse_all(ts: Seq<Seq<char>>) -> Seq<PeerAddr>
    decreases ts.len(),
{
    if ts.len() == 0 {
        Seq::empty()
    } else {
        let rest = parse_all(ts.drop_last());
        match parse_text(ts.last()) {
            Some(a) => rest.push(a),
            None => rest,
        }
    }
}

/// How a node takes part in a transfer: a leaf only receives, a cascade
/// node also forwards to its children.
#[derive(Clone, Copy, Debug, PartialEq, Eq, Structural)]
pub enum ReceiveMode {
    Leaf,
    Cascade,
}

/// What a daemon does with an instruction.
pub struct TransferPlan {
    pub parent: PeerAddr,
    pub children: Vec<PeerAddr>,
    pub expected_size: Option<u64>,
    pub mode: ReceiveMode,
}

/// Reads an instruction: the parent must be an address; children that are
/// not are skipped; with no children left the node is a leaf.
pub fn plan_transfer(instruction: &DownloadInstruction) -> (r: Result<TransferPlan, TransferError>)
    ensures
        match parse_text(instruction.parent_address@) {
            None => r == Err::<TransferPlan, TransferError>(TransferError::BadParentAddress),
            Some(p) => r matches Ok(plan) && plan.parent == p
                && plan.children@ == parse_all(texts(instruction.children_addresses@))
                && plan.expected_size == Some(instruction.file_size)
                && plan.mode == (if plan.children@.len() == 0 { ReceiveMode::Leaf } else { ReceiveMode::Cascade }),
        },
{
    let parent = match PeerAddr::parse(instruction.parent_address.as_str()) {
        Some(p) => p,
        None => {
            return Err(TransferError::BadParentAddress);
        },
    };
    let ghost all = texts(instruction.children_addresses@);
    let mut children: Vec<PeerAddr> = Vec::new();
    let mut i: usize = 0;
    while i < instruction.children_addresses.len()
        invariant
            0 <= i <= instruction.children_addresses@.len(),
            all == texts(instruction.children_addresses@),
            children@ == parse_all(all.take(i as int)),
        decreases instruction.children_addresses@.len() - i,
    {
        assert(all.take(i + 1).drop_last() =~= all.take(i as int));
        assert(all[i as int] == instruction.children_addresses@[i as int]@);
        if let Some(c) = PeerAddr::parse(instruction.children_addresses[i].as_str()) {
            children.push(c);
        }
        i += 1;
    }
    assert(all.take(i as int) =~= all);
    let mode = if children.len() == 0 { ReceiveMode::Leaf } else { ReceiveMode::Cascade };
    Ok(TransferPlan { parent, children, expected_size: Some(instruction.file_size), mode })
}

/// A control request from the service manager.
#[derive(Clone, Copy, Debug, PartialEq, Eq, Structural)]
pub enum ServiceControl {
    Stop,
    Interrogate,
    Other,
}

/// The service's answer to a control request.
#[derive(Clone, Copy, Debug, PartialEq, Eq, Structural)]
pub enum ControlResponse {
    NoError,
    NotImplemented,
}

/// The service handles stopping and status queries, and nothing else.
pub fn handle_control(control: ServiceControl) -> (r: ControlResponse)
    ensures
        r == (match control {
            ServiceControl::Stop => ControlResponse::NoError,
            ServiceControl::Interrogate => ControlResponse::NoError,
            ServiceControl::Other => ControlResponse::NotImplemented,
        }),
{
    match control {
        ServiceControl::Stop => ControlResponse::NoError,
        ServiceControl::Interrogate => ControlResponse::NoError,
        ServiceControl::Other => ControlResponse::NotImplemented,
    }
}

/// Where a starting daemon listens: all interfaces, at the configured file
/// port and instruction port.
pub struct ServiceLaunch {
    pub quic_addr: PeerAddr,
    pub grpc_addr: PeerAddr,
}

/// What the daemon does when started as a service: report itself running
/// and listen on all interfaces at the configured ports.
pub fn run(config: &Config) -> (l: ServiceLaunch)
    ensures
        l.quic_addr == (PeerAddr::V4 { ip: Ipv4 { a: 0, b: 0, c: 0, d: 0 }, port: config.quic_port }),
        l.grpc_addr == (PeerAddr::V4 { ip: Ipv4 { a: 0, b: 0, c: 0, d: 0 }, port: config.grpc_port }),
{
    ServiceLaunch {
        quic_addr: PeerAddr::v4(0, 0, 0, 0, config.quic_port),
        grpc_addr: PeerAddr::v4(0, 0, 0, 0, config.grpc_port),
    }
}

} // verus!
