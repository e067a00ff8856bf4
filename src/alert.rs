//! Alert dispatch: which pending alerts go out, to whom, and in what order,
//! under a per-monitor rate limit.

use vstd::prelude::*;
use crate::clock::now_unix_seconds;
use crate::storage::{
    alerts_newest_first, find_monitor, last_sent_time, marked_sent, view_alerts, Alert, AlertView,
    Db, DbModel, MonitorView,
};
use crate::text::{parse_recipients, recipient_list, strings_view};

verus! {

/// Why a delivery failed. The dispatcher never looks inside.
#[derive(Debug, Clone)]
pub struct SendError {
    pub reason: String,
}

/// A way to deliver alert messages. Its model is the log of the deliveries
/// made through it, each with whether it succeeded.
///
/// A sender with no addressing of its own for recipients implements
/// `send_to` by delivering as `send` does, with the address in place of the
/// monitor id; the log still records a recipient-addressed delivery.
pub trait Sender {
    /// The deliveries made so far, in order, with their success. A sender
    /// whose code is verified defines it; the default stands for senders
    /// written outside the verified library.
    closed spec fn log(&self) -> Seq<(Delivery, bool)> {
        Seq::empty()
    }

    /// Delivers `message` about monitor `monitor_id`.
    fn send(&mut self, monitor_id: &str, message: &str) -> (r: Result<(), SendError>)
        ensures
            final(self).log() == old(self).log().push(
                (Delivery::ToMonitor { monitor_id: monitor_id@, message: message@ }, r is Ok),
            ),
    ;

    /// Delivers `message` to the recipient address `to`.
    fn send_to(&mut self, to: &str, message: &str) -> (r: Result<(), SendError>)
        ensures
            final(self).log() == old(self).log().push(
                (Delivery::ToRecipient { to: to@, message: message@ }, r is Ok),
            ),
    ;
}

/// One delivery attempt as the dispatcher makes it.
pub enum Delivery {
    /// Through `Sender::send_to`.
    ToRecipient { to: Seq<char>, message: Seq<char> },
    /// Through `Sender::send`.
    ToMonitor { monitor_id: Seq<char>, message: Seq<char> },
}

/// The recipient addresses configured for monitor `id`; empty when the
/// monitor is unknown or has none.
pub open spec fn monitor_recipients(ms: Seq<MonitorView>, id: Seq<char>) -> Seq<Seq<char>> {
    match find_monitor(ms, id) {
        Some(m) => match m.recipients {
            Some(r) => recipient_list(r),
            None => Seq::empty(),
        },
        None => Seq::empty(),
    }
}

/// The deliveries made for alert `a`: one per configured recipient, or,
/// when there is none, one addressed by the monitor id.
pub open spec fn delivery_targets(ms: Seq<MonitorView>, a: AlertView) -> Seq<Delivery> {
    let rs = monitor_recipients(ms, a.monitor_id);
    if rs.len() > 0 {
        rs.map_values(|to: Seq<char>| Delivery::ToRecipient { to, message: a.message })
    } else {
        seq![Delivery::ToMonitor { monitor_id: a.monitor_id, message: a.message }]
    }
}

/// Whether the rate limit holds back alerts of monitor `id` at time `now`:
/// its last alert went out less than `limit` seconds ago.
pub open spec fn rate_limited(m: DbModel, id: Seq<char>, rate_limit: Option<u64>, now: i64) -> bool {
    match rate_limit {
        Some(limit) => match last_sent_time(m.alerts, id) {
            Some(last) => now - last < limit,
            None => false,
        },
        None => false,
    }
}

/// Whether delivery of alert `a` is attempted in store state `m`.
pub open spec fn attempted(m: DbModel, a: AlertView, rate_limit: Option<u64>, now: i64) -> bool {
    !a.sent && !rate_limited(m, a.monitor_id, rate_limit, now)
}

/// Whether one of the first `n` delivery outcomes succeeded.
pub open spec fn any_ok(outcomes: Seq<bool>, n: int) -> bool {
    exists|i: int| 0 <= i < n && #[trigger] outcomes[i]
}

/// One alert's turn. `outcomes` are the results of its delivery attempts,
/// in order. Yields the store afterwards and whether the alert was dispatched.
pub open spec fn dispatch_step(
    m: DbModel,
    a: AlertView,
    rate_limit: Option<u64>,
    now: i64,
    outcomes: Seq<bool>,
) -> (DbModel, bool) {
    if attempted(m, a, rate_limit, now) && any_ok(outcomes, delivery_targets(m.monitors, a).len() as int) {
        (DbModel { alerts: marked_sent(m.alerts, a.id, now), ..m }, true)
    } else {
        (m, false)
    }
}

/// Alerts `pending` taken in order, the `k`-th with delivery outcomes
/// `outcomes[k]`: the store afterwards and how many alerts were dispatched.
pub open spec fn dispatch_run(
    m: DbModel,
    pending: Seq<AlertView>,
    rate_limit: Option<u64>,
    now: i64,
    outcomes: Seq<Seq<bool>>,
) -> (DbModel, nat)
    decreases pending.len(),
{
    if pending.len() == 0 {
        (m, 0)
    } else {
        let (m1, c1) = dispatch_run(m, pending.drop_last(), rate_limit, now, outcomes);
        let (m2, ok) = dispatch_step(
            m1,
            pending.last(),
            rate_limit,
            now,
            outcomes[pending.len() - 1],
        );
        (m2, if ok { c1 + 1 } else { c1 })
    }
}

/// Deliveries paired with their outcomes, the `i`-th with `outcomes[i]`.
pub open spec fn calls_of(ds: Seq<Delivery>, outcomes: Seq<bool>) -> Seq<(Delivery, bool)> {
    Seq::new(ds.len(), |i: int| (ds[i], outcomes[i]))
}

/// The sender calls made while taking alerts `pending` in order, the
/// deliveries of the `k`-th alert with outcomes `outcomes[k]`.
pub open spec fn dispatch_calls(
    m: DbModel,
    pending: Seq<AlertView>,
    rate_limit: Option<u64>,
    now: i64,
    outcomes: Seq<Seq<bool>>,
) -> Seq<(Delivery, bool)>
    decreases pending.len(),
{
    if pending.len() == 0 {
        Seq::empty()
    } else {
        let (m1, c1) = dispatch_run(m, pending.drop_last(), rate_limit, now, outcomes);
        dispatch_calls(m, pending.drop_last(), rate_limit, now, outcomes) + calls_of(
            planned(m1, pending.last(), rate_limit, now),
            outcomes[pending.len() - 1],
        )
    }
}

proof fn lemma_run_outcomes_prefix(
    m: DbModel,
    pending: Seq<AlertView>,
    rate_limit: Option<u64>,
    now: i64,
    o1: Seq<Seq<bool>>,
    o2: Seq<Seq<bool>>,
)
    requires
        o1.len() >= pending.len(),
        o2.len() >= pending.len(),
        forall|k: int| 0 <= k < pending.len() ==> o1[k] == o2[k],
    ensures
        dispatch_run(m, pending, rate_limit, now, o1) == dispatch_run(m, pending, rate_limit, now, o2),
        dispatch_calls(m, pending, rate_limit, now, o1) == dispatch_calls(m, pending, rate_limit, now, o2),
    decreases pending.len(),
{
    if pending.len() > 0 {
        lemma_run_outcomes_prefix(m, pending.drop_last(), rate_limit, now, o1, o2);
    }
}

proof fn lemma_newest_first_all(als: Seq<AlertView>)
    ensures
        alerts_newest_first(als, None).len() == als.len(),
        forall|i: int| 0 <= i < als.len() ==> #[trigger] alerts_newest_first(als, None)[i] == als[als.len() - 1 - i],
    decreases als.len(),
{
    if als.len() > 0 {
        lemma_newest_first_all(als.drop_last());
        let rest = alerts_newest_first(als.drop_last(), None);
        assert(alerts_newest_first(als, None) == seq![als.last()] + rest);
        assert forall|i: int| 0 <= i < als.len() implies #[trigger] alerts_newest_first(als, None)[i] == als[als.len() - 1 - i] by {
            if i > 0 {
                assert(alerts_newest_first(als, None)[i] == rest[i - 1]);
            }
        }
    }
}

/// The store after taking alerts in order leaves monitors, results and ids alone.
pub proof fn lemma_run_frame(
    m: DbModel,
    pending: Seq<AlertView>,
    rate_limit: Option<u64>,
    now: i64,
    outcomes: Seq<Seq<bool>>,
)
    ensures
        ({
            let (m2, c) = dispatch_run(m, pending, rate_limit, now, outcomes);
            &&& m2.monitors == m.monitors
            &&& m2.results == m.results
            &&& m2.next_result_id == m.next_result_id
            &&& m2.next_alert_id == m.next_alert_id
            &&& m2.alerts.len() == m.alerts.len()
            &&& c <= pending.len()
        }),
    decreases pending.len(),
{
    if pending.len() > 0 {
        lemma_run_frame(m, pending.drop_last(), rate_limit, now, outcomes);
    }
}

/// The deliveries for the unsent alerts among `pending`, alert by alert in
/// the order given.
pub open spec fn unsent_deliveries(ms: Seq<MonitorView>, pending: Seq<AlertView>) -> Seq<Delivery>
    decreases pending.len(),
{
    if pending.len() == 0 {
        Seq::empty()
    } else {
        let earlier = unsent_deliveries(ms, pending.drop_last());
        if !pending.last().sent {
            earlier + delivery_targets(ms, pending.last())
        } else {
            earlier
        }
    }
}

pub open spec fn call_delivery(c: (Delivery, bool)) -> Delivery {
    c.0
}

/// Without a rate limit, dispatch makes the deliveries of every unsent
/// alert, alert by alert in the order given (the store's order: oldest
/// first), whatever the outcomes.
pub proof fn lemma_no_limit_delivers_in_order(
    m: DbModel,
    pending: Seq<AlertView>,
    now: i64,
    outcomes: Seq<Seq<bool>>,
)
    ensures
        dispatch_calls(m, pending, None, now, outcomes).map_values(|c: (Delivery, bool)| call_delivery(c))
            == unsent_deliveries(m.monitors, pending),
    decreases pending.len(),
{
    if pending.len() > 0 {
        let prev = pending.drop_last();
        lemma_no_limit_delivers_in_order(m, prev, now, outcomes);
        lemma_run_frame(m, prev, None, now, outcomes);
        let (m1, c1) = dispatch_run(m, prev, None, now, outcomes);
        let e = dispatch_calls(m, prev, None, now, outcomes);
        let t = calls_of(planned(m1, pending.last(), None, now), outcomes[pending.len() - 1]);
        assert(t.map_values(|c: (Delivery, bool)| call_delivery(c)) =~= planned(m1, pending.last(), None, now));
        assert((e + t).map_values(|c: (Delivery, bool)| call_delivery(c)) =~= e.map_values(
            |c: (Delivery, bool)| call_delivery(c),
        ) + t.map_values(|c: (Delivery, bool)| call_delivery(c)));
        if pending.last().sent {
            assert(planned(m1, pending.last(), None, now) =~= Seq::<Delivery>::empty());
            assert(unsent_deliveries(m.monitors, prev) + Seq::<Delivery>::empty() =~= unsent_deliveries(m.monitors, prev));
        }
    }
}

/// When every sender call of a dispatch failed, no alert is marked sent,
/// none is counted, and the store does not change.
pub proof fn lemma_all_calls_failed_changes_nothing(
    m: DbModel,
    pending: Seq<AlertView>,
    rate_limit: Option<u64>,
    now: i64,
    outcomes: Seq<Seq<bool>>,
)
    requires
        forall|i: int|
            0 <= i < dispatch_calls(m, pending, rate_limit, now, outcomes).len() ==> !(
            #[trigger] dispatch_calls(m, pending, rate_limit, now, outcomes)[i]).1,
    ensures
        dispatch_run(m, pending, rate_limit, now, outcomes) == (m, 0nat),
    decreases pending.len(),
{
    if pending.len() > 0 {
        let prev = pending.drop_last();
        let e = dispatch_calls(m, prev, rate_limit, now, outcomes);
        let all = dispatch_calls(m, pending, rate_limit, now, outcomes);
        let o = outcomes[pending.len() - 1];
        assert forall|i: int| 0 <= i < e.len() implies !(#[trigger] e[i]).1 by {
            assert(all[i] == e[i]);
        }
        lemma_all_calls_failed_changes_nothing(m, prev, rate_limit, now, outcomes);
        let a = pending.last();
        let p = planned(m, a, rate_limit, now);
        if attempted(m, a, rate_limit, now) {
            assert forall|i: int| 0 <= i < delivery_targets(m.monitors, a).len() implies !#[trigger] o[i] by {
                assert(all[e.len() + i] == calls_of(p, o)[i]);
            }
        }
    }
}

/// An alert's turn marks it sent exactly when one of the sender calls made
/// for it succeeded; no call is made for an alert that is not attempted.
pub proof fn lemma_sent_iff_a_call_succeeded(
    m: DbModel,
    a: AlertView,
    rate_limit: Option<u64>,
    now: i64,
    outcomes: Seq<bool>,
)
    ensures
        ({
            let calls = calls_of(planned(m, a, rate_limit, now), outcomes);
            &&& dispatch_step(m, a, rate_limit, now, outcomes).1 <==> exists|i: int|
                0 <= i < calls.len() && (#[trigger] calls[i]).1
            &&& !attempted(m, a, rate_limit, now) ==> calls.len() == 0
        }),
{
    let calls = calls_of(planned(m, a, rate_limit, now), outcomes);
    if dispatch_step(m, a, rate_limit, now, outcomes).1 {
        let i = choose|i: int| 0 <= i < delivery_targets(m.monitors, a).len() && #[trigger] outcomes[i];
        assert(calls[i].1);
    }
    if exists|i: int| 0 <= i < calls.len() && (#[trigger] calls[i]).1 {
        let i = choose|i: int| 0 <= i < calls.len() && (#[trigger] calls[i]).1;
        assert(outcomes[i]);
    }
}

/// The rate limit, for an unsent alert whose monitor last had an alert sent
/// at `last`: within `limit` seconds of it the alert is held back and the
/// store stays as it is; from then on the alert is handled as with no limit.
pub proof fn lemma_rate_limit(
    m: DbModel,
    a: AlertView,
    limit: u64,
    now: i64,
    last: i64,
    outcomes: Seq<bool>,
)
    requires
        !a.sent,
        last_sent_time(m.alerts, a.monitor_id) == Some(last),
    ensures
        now - last < limit ==> dispatch_step(m, a, Some(limit), now, outcomes) == (m, false),
        now - last >= limit ==> dispatch_step(m, a, Some(limit), now, outcomes) == dispatch_step(
            m,
            a,
            None,
            now,
            outcomes,
        ),
{
}

/// A monitor that never had an alert sent is never held back by the rate limit.
pub proof fn lemma_first_alert_not_limited(m: DbModel, a: AlertView, rate_limit: Option<u64>, now: i64)
    requires
        last_sent_time(m.alerts, a.monitor_id) is None,
    ensures
        !rate_limited(m, a.monitor_id, rate_limit, now),
{
}

/// While the last alert of monitor `id` went out less than `limit` seconds
/// before `now`, a dispatch in which every unsent alert belongs to `id`
/// dispatches nothing and changes nothing.
pub proof fn lemma_rate_limited_monitor_gets_nothing(
    m: DbModel,
    pending: Seq<AlertView>,
    id: Seq<char>,
    limit: u64,
    now: i64,
    last: i64,
    outcomes: Seq<Seq<bool>>,
)
    requires
        last_sent_time(m.alerts, id) == Some(last),
        now - last < limit,
        forall|k: int| 0 <= k < pending.len() ==> (#[trigger] pending[k]).sent || pending[k].monitor_id == id,
    ensures
        dispatch_run(m, pending, Some(limit), now, outcomes) == (m, 0nat),
    decreases pending.len(),
{
    if pending.len() > 0 {
        let prev = pending.drop_last();
        assert forall|k: int| 0 <= k < prev.len() implies (#[trigger] prev[k]).sent || prev[k].monitor_id == id by {
            assert(prev[k] == pending[k]);
        }
        lemma_rate_limited_monitor_gets_nothing(m, prev, id, limit, now, last, outcomes);
        assert(pending.last() == pending[pending.len() - 1]);
    }
}

/// Where an alert's deliveries go: with recipients configured, one
/// recipient-addressed delivery per recipient and no monitor-addressed one;
/// without, exactly one monitor-addressed delivery.
pub proof fn lemma_recipient_fallback(ms: Seq<MonitorView>, a: AlertView)
    ensures
        ({
            let rs = monitor_recipients(ms, a.monitor_id);
            let ts = delivery_targets(ms, a);
            &&& rs.len() > 0 ==> ts.len() == rs.len() && forall|k: int|
                0 <= k < ts.len() ==> #[trigger] ts[k] == Delivery::ToRecipient { to: rs[k], message: a.message }
            &&& rs.len() == 0 ==> ts == seq![Delivery::ToMonitor { monitor_id: a.monitor_id, message: a.message }]
        }),
{
}

/// An attempted alert is marked sent at `now` and counted when any one of
/// its deliveries succeeded, even if others failed.
pub proof fn lemma_one_success_marks_sent(
    m: DbModel,
    a: AlertView,
    rate_limit: Option<u64>,
    now: i64,
    outcomes: Seq<bool>,
    i: int,
)
    requires
        attempted(m, a, rate_limit, now),
        0 <= i < delivery_targets(m.monitors, a).len(),
        i < outcomes.len(),
        outcomes[i],
    ensures
        dispatch_step(m, a, rate_limit, now, outcomes) == (DbModel {
            alerts: marked_sent(m.alerts, a.id, now),
            ..m
        }, true),
{
}

/// An alert all of whose deliveries failed stays unsent and is not counted;
/// the store does not change.
pub proof fn lemma_failed_delivery_leaves_unsent(
    m: DbModel,
    a: AlertView,
    rate_limit: Option<u64>,
    now: i64,
    outcomes: Seq<bool>,
)
    requires
        forall|i: int| 0 <= i < delivery_targets(m.monitors, a).len() ==> !#[trigger] outcomes[i],
    ensures
        dispatch_step(m, a, rate_limit, now, outcomes) == (m, false),
{
}

/// Where one delivery goes.
#[derive(Debug, Clone, PartialEq, Eq)]
pub enum Target {
    /// A recipient address, through `Sender::send_to`.
    Recipient(String),
    /// A monitor id, through `Sender::send`.
    Monitor(String),
}

pub open spec fn targets_view(ts: Seq<Target>, message: Seq<char>) -> Seq<Delivery> {
    ts.map_values(
        |t: Target|
            match t {
                Target::Recipient(to) => Delivery::ToRecipient { to: to@, message },
                Target::Monitor(id) => Delivery::ToMonitor { monitor_id: id@, message },
            },
    )
}

/// The deliveries planned for alert `a` in store state `m`: none when it is
/// not attempted, else its delivery targets.
pub open spec fn planned(m: DbModel, a: AlertView, rate_limit: Option<u64>, now: i64) -> Seq<Delivery> {
    if attempted(m, a, rate_limit, now) {
        delivery_targets(m.monitors, a)
    } else {
        Seq::empty()
    }
}

/// Decides where alert `alert` goes at time `now`: nowhere when it was sent
/// already or its monitor is rate-limited; else to each configured
/// recipient, or by monitor id when there is none.
pub fn plan_delivery(db: &Db, alert: &Alert, rate_limit_seconds: Option<u64>, now: i64) -> (r: Vec<Target>)
    requires
        db.wf(),
    ensures
        targets_view(r@, alert.message@) == planned(db@, alert@, rate_limit_seconds, now),
{
    let ghost msg = alert.message@;
    if alert.sent {
        let none: Vec<Target> = Vec::new();
        assert(targets_view(none@, msg) =~= Seq::<Delivery>::empty());
        return none;
    }
    let limited = match rate_limit_seconds {
        Some(limit) => match db.get_last_sent_time(alert.monitor_id.as_str()) {
            Some(last) => (now as i128) - (last as i128) < (limit as i128),
            None => false,
        },
        None => false,
    };
    let mut out: Vec<Target> = Vec::new();
    if limited {
        assert(targets_view(out@, msg) =~= Seq::<Delivery>::empty());
        return out;
    }
    let recipients: Vec<String> = match db.get_monitor(alert.monitor_id.as_str()) {
        Some(m) => match m.recipients {
            Some(r) => parse_recipients(r.as_str()),
            None => Vec::new(),
        },
        None => Vec::new(),
    };
    let ghost rs = strings_view(recipients@);
    assert(rs == monitor_recipients(db@.monitors, alert.monitor_id@)) by {
        if recipients@.len() == 0 {
            assert(rs =~= Seq::<Seq<char>>::empty());
        }
    }
    if recipients.len() == 0 {
        out.push(Target::Monitor(alert.monitor_id.clone()));
        assert(targets_view(out@, msg) =~= seq![Delivery::ToMonitor { monitor_id: alert.monitor_id@, message: msg }]);
        return out;
    }
    let ghost want = rs.map_values(|to: Seq<char>| Delivery::ToRecipient { to, message: msg });
    let mut i: usize = 0;
    assert(targets_view(out@, msg) =~= want.take(0));
    while i < recipients.len()
        invariant
            rs == strings_view(recipients@),
            want == rs.map_values(|to: Seq<char>| Delivery::ToRecipient { to, message: msg }),
            i <= recipients@.len(),
            out@.len() == i,
            targets_view(out@, msg) == want.take(i as int),
        decreases recipients@.len() - i,
    {
        let ghost before = out@;
        assert(rs[i as int] == recipients@[i as int]@);
        out.push(Target::Recipient(recipients[i].clone()));
        assert forall|k: int| 0 <= k < i + 1 implies #[trigger] targets_view(out@, msg)[k] == want.take(i + 1)[k] by {
            if k < i {
                assert(out@[k] == before[k]);
                assert(targets_view(before, msg)[k] == want.take(i as int)[k]);
            }
        }
        assert(targets_view(out@, msg) =~= want.take(i + 1));
        i = i + 1;
    }
    assert(want.take(recipients@.len() as int) =~= want);
    out
}

/// Makes the planned deliveries of `message`, in order, and returns whether
/// each succeeded, as the sender reported it.
fn send_planned<S: Sender>(sender: &mut S, plan: &Vec<Target>, message: &str) -> (r: Vec<bool>)
    ensures
        r@.len() == plan@.len(),
        final(sender).log() == old(sender).log() + calls_of(targets_view(plan@, message@), r@),
{
    let ghost ts = targets_view(plan@, message@);
    let mut outcomes: Vec<bool> = Vec::new();
    let mut i: usize = 0;
    assert(old(sender).log() + calls_of(ts.take(0), outcomes@) =~= old(sender).log());
    while i < plan.len()
        invariant
            ts == targets_view(plan@, message@),
            i <= plan@.len(),
            outcomes@.len() == i,
            sender.log() == old(sender).log() + calls_of(ts.take(i as int), outcomes@),
        decreases plan@.len() - i,
    {
        let ghost before = sender.log();
        let res = match &plan[i] {
            Target::Recipient(to) => sender.send_to(to.as_str(), message),
            Target::Monitor(id) => sender.send(id.as_str(), message),
        };
        let good = res.is_ok();
        let ghost prev = outcomes@;
        outcomes.push(good);
        proof {
            assert(ts[i as int] == match plan@[i as int] {
                Target::Recipient(to) => Delivery::ToRecipient { to: to@, message: message@ },
                Target::Monitor(id) => Delivery::ToMonitor { monitor_id: id@, message: message@ },
            });
            assert(sender.log() == before.push((ts[i as int], good)));
            assert(calls_of(ts.take(i + 1), outcomes@) =~= calls_of(ts.take(i as int), prev).push(
                (ts[i as int], good),
            ));
            assert(old(sender).log() + calls_of(ts.take(i + 1), outcomes@) =~= (old(sender).log() + calls_of(
                ts.take(i as int),
                prev,
            )).push((ts[i as int], good)));
        }
        i = i + 1;
    }
    assert(ts.take(plan@.len() as int) =~= ts);
    outcomes
}

/// Concludes the deliveries of alert `alert_id`: when one of `outcomes`
/// succeeded the alert is marked sent at `now` and true is returned; when
/// none did (or none was made) nothing changes.
pub fn settle_delivery(db: &mut Db, alert_id: i64, outcomes: &Vec<bool>, now: i64) -> (r: bool)
    requires
        old(db).wf(),
    ensures
        final(db).wf(),
        r == any_ok(outcomes@, outcomes@.len() as int),
        r ==> final(db)@ == (DbModel { alerts: marked_sent(old(db)@.alerts, alert_id, now), ..old(db)@ }),
        !r ==> final(db)@ == old(db)@,
{
    let mut i: usize = 0;
    while i < outcomes.len()
        invariant
            db.wf(),
            db@ == old(db)@,
            i <= outcomes@.len(),
            forall|k: int| 0 <= k < i ==> !#[trigger] outcomes@[k],
        decreases outcomes@.len() - i,
    {
        if outcomes[i] {
            assert(outcomes@[i as int]);
            db.mark_alert_sent(alert_id, now);
            return true;
        }
        i = i + 1;
    }
    false
}

/// Dispatches the pending alerts at time `now`, oldest first, and returns
/// how many were dispatched. An alert already sent is skipped; so is one
/// whose monitor's last alert went out less than `rate_limit_seconds`
/// before `now`. Otherwise it goes to each recipient of its monitor, or,
/// when there is none, by monitor id; it is marked sent at `now` when at
/// least one of those deliveries succeeded, and stays unsent otherwise.
/// The sender calls made are `dispatch_calls` of the store as it was, each
/// paired with what the sender reported, and the store and count follow
/// from those same reports through `dispatch_run`.
/// The rate limit reads the store afresh for every alert, so an alert sent
/// earlier in the same call holds back later alerts of its monitor.
/// When all deliveries to configured recipients fail, there is no further
/// attempt by monitor id.
pub fn dispatch_pending_alerts_at<S: Sender>(
    sender: &mut S,
    db: &mut Db,
    rate_limit_seconds: Option<u64>,
    now: i64,
) -> (r: usize)
    requires
        old(db).wf(),
    ensures
        final(db).wf(),
        exists|outcomes: Seq<Seq<bool>>|
            #[trigger] dispatch_run(old(db)@, old(db)@.alerts, rate_limit_seconds, now, outcomes) == (
            final(db)@,
            r as nat,
        ) && final(sender).log() == old(sender).log() + dispatch_calls(
                old(db)@,
                old(db)@.alerts,
                rate_limit_seconds,
                now,
                outcomes,
            ),
{
    let ghost start = db@;
    let ghost pending = db@.alerts;
    // The store lists newest first; dispatch goes oldest first.
    let newest_first = db.fetch_alerts(None);
    proof {
        lemma_newest_first_all(pending);
    }
    let n = newest_first.len();
    let mut k = n;
    let mut count: usize = 0;
    let ghost mut outs: Seq<Seq<bool>> = Seq::empty();
    assert(pending.take(0) =~= Seq::<AlertView>::empty());
    while k > 0
        invariant
            db.wf(),
            n == pending.len(),
            n == newest_first@.len(),
            k <= n,
            pending == start.alerts,
            view_alerts(newest_first@) == alerts_newest_first(pending, None),
            forall|i: int| 0 <= i < n ==> #[trigger] alerts_newest_first(pending, None)[i] == pending[n - 1 - i],
            outs.len() == n - k,
            count <= n - k,
            dispatch_run(start, pending.take(n - k), rate_limit_seconds, now, outs) == (db@, count as nat),
            sender.log() == old(sender).log() + dispatch_calls(
                start,
                pending.take(n - k),
                rate_limit_seconds,
                now,
                outs,
            ),
        decreases k,
    {
        let ghost j = n - k;
        let ghost before = db@;
        let ghost log_before = sender.log();
        let a = &newest_first[k - 1];
        assert(a@ == pending[j]) by {
            assert(view_alerts(newest_first@)[k - 1] == newest_first@[k - 1]@);
        }
        let plan = plan_delivery(db, a, rate_limit_seconds, now);
        let outcomes = send_planned(sender, &plan, a.message.as_str());
        let ghost this = outcomes@;
        let sent_now = settle_delivery(db, a.id, &outcomes, now);
        proof {
            let tv = targets_view(plan@, a.message@);
            assert(tv.len() == plan@.len());
            if attempted(before, a@, rate_limit_seconds, now) {
                assert(tv == delivery_targets(before.monitors, a@));
            } else {
                assert(tv.len() == 0);
                assert(!any_ok(this, this.len() as int));
            }
        }
        proof {
            let p1 = pending.take(j + 1);
            let outs1 = outs.push(this);
            assert(p1.drop_last() =~= pending.take(j));
            assert(p1.last() == pending[j]);
            lemma_run_outcomes_prefix(start, pending.take(j), rate_limit_seconds, now, outs, outs1);
            assert(outs1[j] == this);
            assert(planned(before, a@, rate_limit_seconds, now) == targets_view(plan@, a.message@));
            assert(old(sender).log() + dispatch_calls(start, p1, rate_limit_seconds, now, outs1) =~= log_before
                + calls_of(targets_view(plan@, a.message@), this));
            outs = outs1;
        }
        if sent_now {
            count = count + 1;
        }
        k = k - 1;
    }
    assert(pending.take(n as int) =~= pending);
    count
}

/// Dispatches the pending alerts as `dispatch_pending_alerts_at` does, at
/// the current time.
pub fn dispatch_pending_alerts<S: Sender>(sender: &mut S, db: &mut Db, rate_limit_seconds: Option<u64>) -> (r:
    usize)
    requires
        old(db).wf(),
    ensures
        final(db).wf(),
        exists|now: i64, outcomes: Seq<Seq<bool>>|
            #[trigger] dispatch_run(old(db)@, old(db)@.alerts, rate_limit_seconds, now, outcomes) == (
            final(db)@,
            r as nat,
        ) && final(sender).log() == old(sender).log() + dispatch_calls(
                old(db)@,
                old(db)@.alerts,
                rate_limit_seconds,
                now,
                outcomes,
            ),
{
    let now = now_unix_seconds();
    dispatch_pending_alerts_at(sender, db, rate_limit_seconds, now)
}

} // verus!
