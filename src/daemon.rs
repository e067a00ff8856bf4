//! Recording probe outcomes: one result per probe and, for a failed probe,
//! one alert; then one scheduling tick of recording followed by dispatch.
//! The probing itself (network I/O) is done by the caller, which hands in
//! what each probe returned.

use vstd::prelude::*;
use crate::alert::{dispatch_calls, dispatch_pending_alerts_at, dispatch_run, Sender};
use crate::clock::now_unix_seconds;
use crate::storage::{alert_inserted, result_inserted, upserted, Db, DbModel, StorageError};
use crate::text::{decimal, decimal_string};

verus! {

/// What a probe of a monitor's target returned.
#[derive(Debug, Clone, Copy, PartialEq, Eq)]
pub enum ProbeOutcome {
    /// A response arrived with this status.
    /// verdict on that status.
    Response { status: u16 },
    /// No response: name resolution, connection, TLS or timeout failure.
    Unreachable,
}

/// One monitor's probe: whose, what came back, and when it completed
/// (Unix seconds).
#[derive(Debug, Clone)]
pub struct ProbeReport {
    pub monitor_id: String,
    pub outcome: ProbeOutcome,
    pub checked_at: i64,
}

pub struct ReportView {
    pub monitor_id: Seq<char>,
    pub outcome: ProbeOutcome,
    pub checked_at: i64,
}

impl View for ProbeReport {
    type V = ReportView;

    open spec fn view(&self) -> ReportView {
        ReportView { monitor_id: self.monitor_id@, outcome: self.outcome, checked_at: self.checked_at }
    }
}

pub open spec fn view_reports(v: Seq<ProbeReport>) -> Seq<ReportView> {
    v.map_values(|r: ProbeReport| r@)
}

/// Whether an HTTP status is a success status (the 2xx class).
pub open spec fn is_success_status(status: u16) -> bool {
    200 <= status <= 299
}

/// Whether `status` is a success status (the 2xx class).
pub fn status_is_success(status: u16) -> (r: bool)
    ensures
        r == is_success_status(status),
{
    200 <= status && status <= 299
}

pub open spec fn outcome_success(o: ProbeOutcome) -> bool {
    match o {
        ProbeOutcome::Response { status } => is_success_status(status),
        ProbeOutcome::Unreachable => false,
    }
}

pub open spec fn outcome_status(o: ProbeOutcome) -> Option<u16> {
    match o {
        ProbeOutcome::Response { status } => Some(status),
        ProbeOutcome::Unreachable => None,
    }
}

/// The alert message for a failed probe of monitor `id`.
pub open spec fn failure_message(id: Seq<char>, o: ProbeOutcome) -> Seq<char> {
    match o {
        ProbeOutcome::Response { status } => "monitor "@ + id + " returned status "@ + decimal(
            status as nat,
        ),
        ProbeOutcome::Unreachable => "monitor "@ + id + " failed to reach target"@,
    }
}

/// Whether recording this probe in store `m` can assign every id it needs.
pub open spec fn can_record(m: DbModel, o: ProbeOutcome) -> bool {
    &&& m.next_result_id < i64::MAX
    &&& !outcome_success(o) ==> m.next_alert_id < i64::MAX
}

/// The store after recording one probe of monitor `id`: a result, and for a
/// failure an alert. Nothing changes when the result cannot get an id; the
/// result stays when only the alert cannot.
pub open spec fn check_recorded(m: DbModel, id: Seq<char>, o: ProbeOutcome, at: i64) -> DbModel {
    if m.next_result_id == i64::MAX {
        m
    } else {
        let m1 = result_inserted(m, id, outcome_success(o), outcome_status(o), at);
        if outcome_success(o) || m1.next_alert_id == i64::MAX {
            m1
        } else {
            alert_inserted(m1, id, failure_message(id, o), at)
        }
    }
}

/// The store after recording the probes `reports` in order.
pub open spec fn cycle_recorded(m: DbModel, reports: Seq<ReportView>) -> DbModel
    decreases reports.len(),
{
    if reports.len() == 0 {
        m
    } else {
        let r = reports.last();
        check_recorded(cycle_recorded(m, reports.drop_last()), r.monitor_id, r.outcome, r.checked_at)
    }
}

/// The ids of the monitors whose probe failed, in report order.
pub open spec fn failed_ids(reports: Seq<ReportView>) -> Seq<Seq<char>>
    decreases reports.len(),
{
    if reports.len() == 0 {
        Seq::empty()
    } else {
        let rest = failed_ids(reports.drop_last());
        if outcome_success(reports.last().outcome) {
            rest
        } else {
            rest.push(reports.last().monitor_id)
        }
    }
}

/// Builds the alert message for a failed probe.
fn failure_text(monitor_id: &str, outcome: ProbeOutcome) -> (r: String)
    ensures
        r@ == failure_message(monitor_id@, outcome),
{
    let head = String::from_str("monitor ").concat(monitor_id);
    match outcome {
        ProbeOutcome::Response { status } => {
            let code = decimal_string(status);
            head.concat(" returned status ").concat(code.as_str())
        },
        ProbeOutcome::Unreachable => head.concat(" failed to reach target"),
    }
}

/// Records one probe of monitor `monitor_id`: a result, and for a failure an
/// alert, both at `checked_at`. Returns the result's id, or the store's
/// error when an id could not be assigned.
pub fn record_check(db: &mut Db, monitor_id: &str, outcome: ProbeOutcome, checked_at: i64) -> (r: Result<
    i64,
    StorageError,
>)
    requires
        old(db).wf(),
    ensures
        final(db).wf(),
        final(db)@ == check_recorded(old(db)@, monitor_id@, outcome, checked_at),
        r is Ok <==> can_record(old(db)@, outcome),
        r is Ok ==> r == Ok::<i64, StorageError>(old(db)@.next_result_id),
{
    let (success, status) = match outcome {
        ProbeOutcome::Response { status } => (status_is_success(status), Some(status)),
        ProbeOutcome::Unreachable => (false, None),
    };
    let id = match db.insert_result(monitor_id, success, status, checked_at) {
        Ok(id) => id,
        Err(e) => return Err(e),
    };
    if !success {
        let message = failure_text(monitor_id, outcome);
        match db.insert_alert(monitor_id, message.as_str(), checked_at) {
            Ok(_) => {},
            Err(e) => return Err(e),
        }
    }
    Ok(id)
}

/// Records every probe of one cycle, in order. A probe that cannot be
/// recorded does not stop the others; returns how many could not.
pub fn run_one_cycle(db: &mut Db, reports: &Vec<ProbeReport>) -> (r: usize)
    requires
        old(db).wf(),
    ensures
        final(db).wf(),
        final(db)@ == cycle_recorded(old(db)@, view_reports(reports@)),
        r <= reports@.len(),
        old(db)@.next_result_id + reports@.len() < i64::MAX && old(db)@.next_alert_id + reports@.len()
            < i64::MAX ==> {
            let n0 = old(db)@.results.len();
            let a0 = old(db)@.alerts.len();
            &&& r == 0
            &&& final(db)@.results.len() == n0 + reports@.len()
            &&& final(db)@.results.subrange(0, n0 as int) == old(db)@.results
            &&& forall|k: int|
                0 <= k < reports@.len() ==> {
                    let res = #[trigger] final(db)@.results[n0 + k];
                    &&& res.monitor_id == reports@[k].monitor_id@
                    &&& res.success == outcome_success(reports@[k].outcome)
                    &&& res.status_code == outcome_status(reports@[k].outcome)
                    &&& res.timestamp == reports@[k].checked_at
                }
            &&& final(db)@.alerts.subrange(0, a0 as int) == old(db)@.alerts
            &&& final(db)@.alerts.subrange(a0 as int, final(db)@.alerts.len() as int).map_values(
                |a: crate::storage::AlertView| a.monitor_id,
            ) == failed_ids(view_reports(reports@))
        },
{
    let ghost start = db@;
    let ghost rv = view_reports(reports@);
    let n = reports.len();
    let mut failures: usize = 0;
    let mut i: usize = 0;
    assert(rv.take(0) =~= Seq::<ReportView>::empty());
    while i < n
        invariant
            db.wf(),
            n == reports@.len(),
            rv == view_reports(reports@),
            i <= n,
            failures <= i,
            db@ == cycle_recorded(start, rv.take(i as int)),
            start.next_result_id + n < i64::MAX && start.next_alert_id + n < i64::MAX ==> {
                &&& failures == 0
                &&& db@.next_result_id == start.next_result_id + i
                &&& db@.next_alert_id <= start.next_alert_id + i
            },
        decreases n - i,
    {
        let rep = &reports[i];
        assert(rv[i as int] == rep@);
        assert(rv.take(i + 1).drop_last() =~= rv.take(i as int));
        let ghost before = db@;
        match record_check(db, rep.monitor_id.as_str(), rep.outcome, rep.checked_at) {
            Ok(_) => {},
            Err(_) => {
                failures = failures + 1;
            },
        }
        i = i + 1;
    }
    assert(rv.take(n as int) =~= rv);
    proof {
        if start.next_result_id + n < i64::MAX && start.next_alert_id + n < i64::MAX {
            lemma_cycle_shape(start, rv);
        }
    }
    failures
}

/// Registers monitor `monitor_id` with target `url` (its id doubling as its
/// name, its recipients kept) and records one probe of it, without an alert.
/// Returns the result's id.
pub fn run_check_once(
    db: &mut Db,
    monitor_id: &str,
    url: &str,
    outcome: ProbeOutcome,
    checked_at: i64,
) -> (r: Result<i64, StorageError>)
    requires
        old(db).wf(),
    ensures
        final(db).wf(),
        ({
            let m1 = DbModel { monitors: upserted(old(db)@.monitors, monitor_id@, monitor_id@, url@), ..old(db)@ };
            &&& old(db)@.next_result_id < i64::MAX ==> r == Ok::<i64, StorageError>(old(db)@.next_result_id)
                && final(db)@ == result_inserted(
                m1,
                monitor_id@,
                outcome_success(outcome),
                outcome_status(outcome),
                checked_at,
            )
            &&& old(db)@.next_result_id == i64::MAX ==> r == Err::<i64, StorageError>(
                StorageError::IdsExhausted,
            ) && final(db)@ == m1
        }),
{
    db.insert_monitor(monitor_id, monitor_id, url);
    let (success, status) = match outcome {
        ProbeOutcome::Response { status } => (status_is_success(status), Some(status)),
        ProbeOutcome::Unreachable => (false, None),
    };
    db.insert_result(monitor_id, success, status, checked_at)
}

/// One scheduling tick at time `now`: records the cycle's probes, then
/// dispatches pending alerts. Returns how many alerts were dispatched.
pub fn run_cycle_and_dispatch_at<S: Sender>(
    db: &mut Db,
    reports: &Vec<ProbeReport>,
    sender: &mut S,
    rate_limit_seconds: Option<u64>,
    now: i64,
) -> (r: usize)
    requires
        old(db).wf(),
    ensures
        final(db).wf(),
        ({
            let m1 = cycle_recorded(old(db)@, view_reports(reports@));
            exists|outcomes: Seq<Seq<bool>>|
                #[trigger] dispatch_run(m1, m1.alerts, rate_limit_seconds, now, outcomes) == (
                final(db)@,
                r as nat,
            ) && final(sender).log() == old(sender).log() + dispatch_calls(
                    m1,
                    m1.alerts,
                    rate_limit_seconds,
                    now,
                    outcomes,
                )
        }),
{
    let _ = run_one_cycle(db, reports);
    dispatch_pending_alerts_at(sender, db, rate_limit_seconds, now)
}

/// One scheduling tick as `run_cycle_and_dispatch_at` does it, dispatching at
/// the current time.
pub fn run_cycle_and_dispatch<S: Sender>(
    db: &mut Db,
    reports: &Vec<ProbeReport>,
    sender: &mut S,
    rate_limit_seconds: Option<u64>,
) -> (r: usize)
    requires
        old(db).wf(),
    ensures
        final(db).wf(),
        ({
            let m1 = cycle_recorded(old(db)@, view_reports(reports@));
            exists|now: i64, outcomes: Seq<Seq<bool>>|
                #[trigger] dispatch_run(m1, m1.alerts, rate_limit_seconds, now, outcomes) == (
                final(db)@,
                r as nat,
            ) && final(sender).log() == old(sender).log() + dispatch_calls(
                    m1,
                    m1.alerts,
                    rate_limit_seconds,
                    now,
                    outcomes,
                )
        }),
{
    let now = now_unix_seconds();
    run_cycle_and_dispatch_at(db, reports, sender, rate_limit_seconds, now)
}

/// With enough ids, a cycle appends one result per report, in report order,
/// and one alert per failed report, in report order.
pub proof fn lemma_cycle_shape(m: DbModel, reports: Seq<ReportView>)
    requires
        m.next_result_id + reports.len() < i64::MAX,
        m.next_alert_id + reports.len() < i64::MAX,
    ensures
        ({
            let m2 = cycle_recorded(m, reports);
            let n0 = m.results.len();
            let a0 = m.alerts.len();
            &&& m2.monitors == m.monitors
            &&& m2.next_result_id == m.next_result_id + reports.len()
            &&& m2.next_alert_id == m.next_alert_id + failed_ids(reports).len()
            &&& m2.alerts.len() == a0 + failed_ids(reports).len()
            &&& m2.results.len() == n0 + reports.len()
            &&& m2.results.subrange(0, n0 as int) == m.results
            &&& forall|k: int|
                0 <= k < reports.len() ==> {
                    let res = #[trigger] m2.results[n0 + k];
                    &&& res.monitor_id == reports[k].monitor_id
                    &&& res.success == outcome_success(reports[k].outcome)
                    &&& res.status_code == outcome_status(reports[k].outcome)
                    &&& res.timestamp == reports[k].checked_at
                }
            &&& m2.alerts.subrange(0, a0 as int) == m.alerts
            &&& m2.alerts.subrange(a0 as int, m2.alerts.len() as int).map_values(
                |a: crate::storage::AlertView| a.monitor_id,
            ) == failed_ids(reports)
        }),
    decreases reports.len(),
{
    if reports.len() > 0 {
        let prev = reports.drop_last();
        lemma_failed_len(prev);
        lemma_cycle_shape(m, prev);
        let m1 = cycle_recorded(m, prev);
        let r = reports.last();
        let m2 = cycle_recorded(m, reports);
        let n0 = m.results.len();
        let a0 = m.alerts.len();
        assert(m2 == check_recorded(m1, r.monitor_id, r.outcome, r.checked_at));
        assert(m2.results == m1.results.push(m2.results.last()));
        assert forall|k: int| 0 <= k < reports.len() implies {
            let res = #[trigger] m2.results[n0 + k];
            &&& res.monitor_id == reports[k].monitor_id
            &&& res.success == outcome_success(reports[k].outcome)
            &&& res.status_code == outcome_status(reports[k].outcome)
            &&& res.timestamp == reports[k].checked_at
        } by {
            if k < prev.len() {
                assert(m2.results[n0 + k] == m1.results[n0 + k]);
                assert(prev[k] == reports[k]);
            }
        }
        assert(m2.results.subrange(0, n0 as int) =~= m.results) by {
            assert(m2.results.subrange(0, n0 as int) =~= m1.results.subrange(0, n0 as int));
        }
        let f1 = m1.alerts.subrange(a0 as int, m1.alerts.len() as int).map_values(
            |a: crate::storage::AlertView| a.monitor_id,
        );
        let f2 = m2.alerts.subrange(a0 as int, m2.alerts.len() as int).map_values(
            |a: crate::storage::AlertView| a.monitor_id,
        );
        if outcome_success(r.outcome) {
            assert(m2.alerts == m1.alerts);
        } else {
            assert(m2.alerts == m1.alerts.push(m2.alerts.last()));
            assert(m2.alerts.last().monitor_id == r.monitor_id);
            assert(f1.len() == m1.alerts.len() - a0);
            assert forall|k: int| 0 <= k < f2.len() implies #[trigger] f2[k] == f1.push(r.monitor_id)[k] by {
                if k < f1.len() {
                    assert(m2.alerts[a0 + k] == m1.alerts[a0 + k]);
                }
            }
            assert(f2 =~= f1.push(r.monitor_id));
            assert(m2.alerts.subrange(0, a0 as int) =~= m1.alerts.subrange(0, a0 as int));
        }
    }
}

proof fn lemma_failed_len(reports: Seq<ReportView>)
    ensures
        failed_ids(reports).len() <= reports.len(),
    decreases reports.len(),
{
    if reports.len() > 0 {
        lemma_failed_len(reports.drop_last());
    }
}

} // verus!
