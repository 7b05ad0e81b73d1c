//! The teacher's view of each daemon's transfer progress.

use vstd::prelude::*;

use crate::addr::PeerAddr;
use crate::proto::TelemetryResponse;

verus! {

/// Progress of one daemon as last polled.
#[derive(Clone, Copy, Debug, PartialEq, Eq, Structural)]
pub struct NodeTelemetry {
    pub addr: PeerAddr,
    pub progress: u32,
    pub speed_bps: u64,
    pub reachable: bool,
}

impl NodeTelemetry {
    /// What a poll of `addr` tells: the reported progress and speed when the
    /// daemon answered, else an unreachable node at zero.
    pub fn from_reply(addr: PeerAddr, reply: Option<&TelemetryResponse>) -> (r: NodeTelemetry)
        ensures
            r.addr == addr,
            match reply {
                Some(resp) => r.reachable && r.progress == resp.progress_percent && r.speed_bps == resp.download_speed_bps,
                None => !r.reachable && r.progress == 0 && r.speed_bps == 0,
            },
    {
        match reply {
            Some(resp) => NodeTelemetry {
                addr,
                progress: resp.progress_percent,
                speed_bps: resp.download_speed_bps,
                reachable: true,
            },
            None => NodeTelemetry { addr, progress: 0, speed_bps: 0, reachable: false },
        }
    }
}

} // verus!
