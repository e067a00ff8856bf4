//! A sender that accepts every alert without delivering it anywhere; the
//! default when no mail transport is configured.

use vstd::prelude::*;
use crate::alert::{Delivery, SendError, Sender};

verus! {

/// A sender that reports every delivery as done.
pub struct SmtpSender {
    pub from: String,
    pub server: Option<String>,
    /// The model of the deliveries made so far.
    pub deliveries: Ghost<Seq<(Delivery, bool)>>,
}

impl SmtpSender {
    pub fn new(from: &str, server: Option<String>) -> (r: SmtpSender)
        ensures
            r.from@ == from@,
            r.server == server,
            r.log() == Seq::<(Delivery, bool)>::empty(),
    {
        SmtpSender { from: String::from_str(from), server, deliveries: Ghost(Seq::empty()) }
    }
}

impl Sender for SmtpSender {
    closed spec fn log(&self) -> Seq<(Delivery, bool)> {
        self.deliveries@
    }

    fn send(&mut self, monitor_id: &str, message: &str) -> (r: Result<(), SendError>) {
        self.deliveries = Ghost(
            self.deliveries@.push((Delivery::ToMonitor { monitor_id: monitor_id@, message: message@ }, true)),
        );
        Ok(())
    }

    fn send_to(&mut self, to: &str, message: &str) -> (r: Result<(), SendError>) {
        self.deliveries = Ghost(
            self.deliveries@.push((Delivery::ToRecipient { to: to@, message: message@ }, true)),
        );
        Ok(())
    }
}

} // verus!
