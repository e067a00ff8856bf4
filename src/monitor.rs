//! Kinds of monitor a deployment may declare.

use vstd::prelude::*;

verus! {

/// What a monitor probes and how.
#[derive(Debug)]
pub enum MonitorType {
    Tcp { host: String, port: u16 },
    Ping { host: String },
    /// An HTTP target; a status within `accepted_status` (inclusive) passes.
    Http { url: String, accepted_status: (u16, u16) },
}

/// A declared monitor.
#[derive(Debug)]
pub struct Monitor {
    pub id: String,
    pub name: String,
    pub mtype: MonitorType,
}

} // verus!
