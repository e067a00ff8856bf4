//! The store: monitors keyed by id, check results and alerts with
//! increasing ids, and the queries and retention rules over them.

use vstd::prelude::*;
use crate::clock::now_unix_seconds;
use crate::text::{seq_less, str_eq, str_less, lemma_seq_less_asym, lemma_seq_less_trans, lemma_seq_less_total};

verus! {

/// Most results that `Db::recent_results` returns.
pub const RECENT_RESULTS_LIMIT: usize = 100;

/// Seconds in one day, for retention arithmetic.
pub const SECONDS_PER_DAY: i64 = 86400;

/// A configured monitor as the store keeps it.
#[derive(Debug, Clone)]
pub struct MonitorRecord {
    pub id: String,
    pub name: String,
    pub target: String,
    /// Comma-joined recipient addresses, if any were set.
    pub recipients: Option<String>,
}

/// The outcome of one probe. `timestamp` is in seconds since the Unix epoch.
#[derive(Debug, Clone)]
pub struct CheckResult {
    pub id: i64,
    pub monitor_id: String,
    pub success: bool,
    pub status_code: Option<u16>,
    pub timestamp: i64,
}

/// A failure notice waiting for, or past, delivery. Times are Unix seconds.
#[derive(Debug, Clone)]
pub struct Alert {
    pub id: i64,
    pub monitor_id: String,
    pub message: String,
    pub created_at: i64,
    pub sent: bool,
    pub sent_at: Option<i64>,
}

/// Why a write to the store was refused.
#[derive(Debug, Clone, Copy, PartialEq, Eq)]
pub enum StorageError {
    /// Every id of the kind being assigned has been used.
    IdsExhausted,
}

pub struct MonitorView {
    pub id: Seq<char>,
    pub name: Seq<char>,
    pub target: Seq<char>,
    pub recipients: Option<Seq<char>>,
}

pub struct ResultView {
    pub id: i64,
    pub monitor_id: Seq<char>,
    pub success: bool,
    pub status_code: Option<u16>,
    pub timestamp: i64,
}

pub struct AlertView {
    pub id: i64,
    pub monitor_id: Seq<char>,
    pub message: Seq<char>,
    pub created_at: i64,
    pub sent: bool,
    pub sent_at: Option<i64>,
}

pub open spec fn opt_str_view(s: Option<String>) -> Option<Seq<char>> {
    match s {
        Some(t) => Some(t@),
        None => None,
    }
}

impl View for MonitorRecord {
    type V = MonitorView;

    open spec fn view(&self) -> MonitorView {
        MonitorView {
            id: self.id@,
            name: self.name@,
            target: self.target@,
            recipients: opt_str_view(self.recipients),
        }
    }
}

impl View for CheckResult {
    type V = ResultView;

    open spec fn view(&self) -> ResultView {
        ResultView {
            id: self.id,
            monitor_id: self.monitor_id@,
            success: self.success,
            status_code: self.status_code,
            timestamp: self.timestamp,
        }
    }
}

impl View for Alert {
    type V = AlertView;

    open spec fn view(&self) -> AlertView {
        AlertView {
            id: self.id,
            monitor_id: self.monitor_id@,
            message: self.message@,
            created_at: self.created_at,
            sent: self.sent,
            sent_at: self.sent_at,
        }
    }
}

pub open spec fn opt_str_ref_view(s: Option<&str>) -> Option<Seq<char>> {
    match s {
        Some(t) => Some(t@),
        None => None,
    }
}

fn to_opt_string(s: Option<&str>) -> (r: Option<String>)
    ensures
        opt_str_view(r) == opt_str_ref_view(s),
{
    match s {
        Some(t) => {
            let v = String::from_str(t);
            Some(v)
        },
        None => None,
    }
}

fn copy_opt_string(s: &Option<String>) -> (r: Option<String>)
    ensures
        opt_str_view(r) == opt_str_view(*s),
{
    match s {
        Some(t) => Some(t.clone()),
        None => None,
    }
}

impl MonitorRecord {
    /// A field-for-field copy.
    pub fn duplicate(&self) -> (r: MonitorRecord)
        ensures
            r@ == self@,
    {
        MonitorRecord {
            id: self.id.clone(),
            name: self.name.clone(),
            target: self.target.clone(),
            recipients: copy_opt_string(&self.recipients),
        }
    }
}

impl CheckResult {
    /// A field-for-field copy.
    pub fn duplicate(&self) -> (r: CheckResult)
        ensures
            r@ == self@,
    {
        CheckResult {
            id: self.id,
            monitor_id: self.monitor_id.clone(),
            success: self.success,
            status_code: self.status_code,
            timestamp: self.timestamp,
        }
    }
}

impl Alert {
    /// A field-for-field copy.
    pub fn duplicate(&self) -> (r: Alert)
        ensures
            r@ == self@,
    {
        Alert {
            id: self.id,
            monitor_id: self.monitor_id.clone(),
            message: self.message.clone(),
            created_at: self.created_at,
            sent: self.sent,
            sent_at: self.sent_at,
        }
    }
}

pub open spec fn view_monitors(v: Seq<MonitorRecord>) -> Seq<MonitorView> {
    v.map_values(|m: MonitorRecord| m@)
}

pub open spec fn view_results(v: Seq<CheckResult>) -> Seq<ResultView> {
    v.map_values(|r: CheckResult| r@)
}

pub open spec fn view_alerts(v: Seq<Alert>) -> Seq<AlertView> {
    v.map_values(|a: Alert| a@)
}

/// The store's contents as mathematical values.
pub struct DbModel {
    /// Monitors, strictly ascending by id.
    pub monitors: Seq<MonitorView>,
    /// Results in insertion order, so strictly ascending by id.
    pub results: Seq<ResultView>,
    /// Alerts in insertion order, so strictly ascending by id.
    pub alerts: Seq<AlertView>,
    /// The id the next result will get.
    pub next_result_id: i64,
    /// The id the next alert will get.
    pub next_alert_id: i64,
}

pub open spec fn monitors_sorted(ms: Seq<MonitorView>) -> bool {
    forall|i: int, j: int| 0 <= i < j < ms.len() ==> seq_less(#[trigger] ms[i].id, #[trigger] ms[j].id)
}

pub open spec fn result_ids_valid(rs: Seq<ResultView>, next: i64) -> bool {
    &&& 1 <= next
    &&& forall|i: int, j: int| 0 <= i < j < rs.len() ==> #[trigger] rs[i].id < #[trigger] rs[j].id
    &&& forall|i: int| 0 <= i < rs.len() ==> 1 <= #[trigger] rs[i].id < next
}

pub open spec fn alert_ids_valid(als: Seq<AlertView>, next: i64) -> bool {
    &&& 1 <= next
    &&& forall|i: int, j: int| 0 <= i < j < als.len() ==> #[trigger] als[i].id < #[trigger] als[j].id
    &&& forall|i: int| 0 <= i < als.len() ==> 1 <= #[trigger] als[i].id < next
    &&& forall|i: int| 0 <= i < als.len() ==> (#[trigger] als[i].sent_at is Some <==> als[i].sent)
}

impl DbModel {
    /// What every reachable store satisfies.
    pub open spec fn inv(self) -> bool {
        &&& monitors_sorted(self.monitors)
        &&& result_ids_valid(self.results, self.next_result_id)
        &&& alert_ids_valid(self.alerts, self.next_alert_id)
    }
}

/// The store after appending a result; it gets the next result id.
pub open spec fn result_inserted(
    m: DbModel,
    monitor_id: Seq<char>,
    success: bool,
    status_code: Option<u16>,
    timestamp: i64,
) -> DbModel {
    DbModel {
        results: m.results.push(
            ResultView { id: m.next_result_id, monitor_id, success, status_code, timestamp },
        ),
        next_result_id: (m.next_result_id + 1) as i64,
        ..m
    }
}

/// The store after appending an unsent alert; it gets the next alert id.
pub open spec fn alert_inserted(m: DbModel, monitor_id: Seq<char>, message: Seq<char>, created_at: i64) -> DbModel {
    DbModel {
        alerts: m.alerts.push(
            AlertView {
                id: m.next_alert_id,
                monitor_id,
                message,
                created_at,
                sent: false,
                sent_at: None,
            },
        ),
        next_alert_id: (m.next_alert_id + 1) as i64,
        ..m
    }
}

/// The results of monitor `id`, newest (highest id) first.
pub open spec fn results_newest_first(rs: Seq<ResultView>, id: Seq<char>) -> Seq<ResultView>
    decreases rs.len(),
{
    if rs.len() == 0 {
        Seq::empty()
    } else {
        let rest = results_newest_first(rs.drop_last(), id);
        if rs.last().monitor_id == id {
            seq![rs.last()] + rest
        } else {
            rest
        }
    }
}

/// The at most `RECENT_RESULTS_LIMIT` newest results of monitor `id`, newest first.
pub open spec fn recent_results_of(rs: Seq<ResultView>, id: Seq<char>) -> Seq<ResultView> {
    let all = results_newest_first(rs, id);
    if all.len() > RECENT_RESULTS_LIMIT {
        all.take(RECENT_RESULTS_LIMIT as int)
    } else {
        all
    }
}

/// The monitor with id `id`, if the list holds one.
pub open spec fn find_monitor(ms: Seq<MonitorView>, id: Seq<char>) -> Option<MonitorView>
    decreases ms.len(),
{
    if ms.len() == 0 {
        None
    } else if ms[0].id == id {
        Some(ms[0])
    } else {
        find_monitor(ms.drop_first(), id)
    }
}

/// The recipients set on monitor `id`; none if there is no such monitor.
pub open spec fn recipients_of(ms: Seq<MonitorView>, id: Seq<char>) -> Option<Seq<char>> {
    match find_monitor(ms, id) {
        Some(m) => m.recipients,
        None => None,
    }
}

/// The sorted monitor list after adding or updating `id` with a name and a
/// target: an existing entry keeps its recipients, a new one has none.
pub open spec fn upserted(ms: Seq<MonitorView>, id: Seq<char>, name: Seq<char>, target: Seq<char>) -> Seq<
    MonitorView,
>
    decreases ms.len(),
{
    if ms.len() == 0 {
        seq![MonitorView { id, name, target, recipients: None }]
    } else if ms[0].id == id {
        ms.update(0, MonitorView { id, name, target, recipients: ms[0].recipients })
    } else if seq_less(id, ms[0].id) {
        ms.insert(0, MonitorView { id, name, target, recipients: None })
    } else {
        seq![ms[0]] + upserted(ms.drop_first(), id, name, target)
    }
}

/// The monitor list with the recipients of monitor `id` replaced.
pub open spec fn with_recipients(ms: Seq<MonitorView>, id: Seq<char>, recipients: Option<Seq<char>>) -> Seq<
    MonitorView,
> {
    ms.map_values(
        |m: MonitorView|
            if m.id == id {
                MonitorView { recipients, ..m }
            } else {
                m
            },
    )
}

proof fn lemma_insert_sorted(ms: Seq<MonitorView>, i: int, v: MonitorView)
    requires
        monitors_sorted(ms),
        0 <= i <= ms.len(),
        forall|j: int| 0 <= j < i ==> seq_less(#[trigger] ms[j].id, v.id),
        i < ms.len() ==> seq_less(v.id, ms[i].id),
    ensures
        monitors_sorted(ms.insert(i, v)),
{
    let n = ms.insert(i, v);
    assert forall|a: int, b: int| 0 <= a < b < n.len() implies seq_less(#[trigger] n[a].id, #[trigger] n[b].id) by {
        if b < i {
            assert(n[a] == ms[a] && n[b] == ms[b]);
        } else if b == i {
            assert(n[a] == ms[a] && n[b] == v);
        } else if a < i {
            assert(n[a] == ms[a] && n[b] == ms[b - 1]);
            if b - 1 > i {
                lemma_seq_less_trans(v.id, ms[i].id, ms[b - 1].id);
            }
            lemma_seq_less_trans(ms[a].id, v.id, ms[b - 1].id);
        } else if a == i {
            assert(n[a] == v && n[b] == ms[b - 1]);
            if b - 1 > i {
                lemma_seq_less_trans(v.id, ms[i].id, ms[b - 1].id);
            }
        } else {
            assert(n[a] == ms[a - 1] && n[b] == ms[b - 1]);
        }
    }
}

/// In a sorted list, `find_monitor` finds the entry at any index holding the id.
proof fn lemma_find_at(ms: Seq<MonitorView>, i: int)
    requires
        monitors_sorted(ms),
        0 <= i < ms.len(),
    ensures
        find_monitor(ms, ms[i].id) == Some(ms[i]),
    decreases ms.len(),
{
    if i > 0 {
        lemma_seq_less_asym(ms[0].id, ms[i].id);
        let t = ms.drop_first();
        assert(monitors_sorted(t)) by {
            assert forall|a: int, b: int| 0 <= a < b < t.len() implies seq_less(#[trigger] t[a].id, #[trigger] t[b].id) by {
                assert(t[a] == ms[a + 1] && t[b] == ms[b + 1]);
            }
        }
        assert(t[i - 1] == ms[i]);
        lemma_find_at(t, i - 1);
    }
}

/// `find_monitor` finds nothing in a list whose ids all differ from `id`.
proof fn lemma_find_none(ms: Seq<MonitorView>, id: Seq<char>)
    requires
        forall|j: int| 0 <= j < ms.len() ==> (#[trigger] ms[j]).id != id,
    ensures
        find_monitor(ms, id) is None,
    decreases ms.len(),
{
    if ms.len() > 0 {
        assert forall|j: int| 0 <= j < ms.drop_first().len() implies (#[trigger] ms.drop_first()[j]).id != id by {
            assert(ms.drop_first()[j] == ms[j + 1]);
        }
        lemma_find_none(ms.drop_first(), id);
    }
}

/// The alert list with alert `id` marked sent at `at`.
pub open spec fn marked_sent(als: Seq<AlertView>, id: i64, at: i64) -> Seq<AlertView> {
    als.map_values(
        |a: AlertView|
            if a.id == id {
                AlertView { sent: true, sent_at: Some(at), ..a }
            } else {
                a
            },
    )
}

/// The latest `sent_at` among the sent alerts of monitor `id`.
pub open spec fn last_sent_time(als: Seq<AlertView>, id: Seq<char>) -> Option<i64>
    decreases als.len(),
{
    if als.len() == 0 {
        None
    } else {
        let rest = last_sent_time(als.drop_last(), id);
        let a = als.last();
        if a.monitor_id == id && a.sent && a.sent_at is Some {
            match rest {
                Some(t) => Some(
                    if t >= a.sent_at->0 {
                        t
                    } else {
                        a.sent_at->0
                    },
                ),
                None => a.sent_at,
            }
        } else {
            rest
        }
    }
}

/// Whether alert `a` passes the optional monitor filter.
pub open spec fn alert_selected(a: AlertView, monitor: Option<Seq<char>>) -> bool {
    match monitor {
        Some(id) => a.monitor_id == id,
        None => true,
    }
}

/// The alerts that pass the filter, newest (highest id) first.
pub open spec fn alerts_newest_first(als: Seq<AlertView>, monitor: Option<Seq<char>>) -> Seq<AlertView>
    decreases als.len(),
{
    if als.len() == 0 {
        Seq::empty()
    } else {
        let rest = alerts_newest_first(als.drop_last(), monitor);
        if alert_selected(als.last(), monitor) {
            seq![als.last()] + rest
        } else {
            rest
        }
    }
}

/// The point before which `rotate` deletes results.
pub open spec fn retention_cutoff(now: i64, retention_days: u32) -> int {
    now - retention_days * SECONDS_PER_DAY
}

/// The results that a rotation with the given cutoff keeps, in order.
pub open spec fn retained(rs: Seq<ResultView>, cutoff: int) -> Seq<ResultView>
    decreases rs.len(),
{
    if rs.len() == 0 {
        Seq::empty()
    } else {
        let rest = retained(rs.drop_last(), cutoff);
        if rs.last().timestamp >= cutoff {
            rest.push(rs.last())
        } else {
            rest
        }
    }
}

proof fn lemma_sorted_tail(ms: Seq<MonitorView>)
    requires
        monitors_sorted(ms),
        ms.len() > 0,
    ensures
        monitors_sorted(ms.drop_first()),
        forall|j: int| 0 <= j < ms.drop_first().len() ==> seq_less(ms[0].id, #[trigger] ms.drop_first()[j].id),
{
    let t = ms.drop_first();
    assert forall|a: int, b: int| 0 <= a < b < t.len() implies seq_less(#[trigger] t[a].id, #[trigger] t[b].id) by {
        assert(t[a] == ms[a + 1] && t[b] == ms[b + 1]);
    }
    assert forall|j: int| 0 <= j < t.len() implies seq_less(ms[0].id, #[trigger] t[j].id) by {
        assert(t[j] == ms[j + 1]);
    }
}

proof fn lemma_upserted_above(ms: Seq<MonitorView>, id: Seq<char>, name: Seq<char>, target: Seq<char>, x: Seq<char>)
    requires
        seq_less(x, id),
        forall|j: int| 0 <= j < ms.len() ==> seq_less(x, #[trigger] ms[j].id),
    ensures
        forall|j: int| 0 <= j < upserted(ms, id, name, target).len() ==> seq_less(x, #[trigger] upserted(ms, id, name, target)[j].id),
    decreases ms.len(),
{
    if ms.len() > 0 && ms[0].id != id && !seq_less(id, ms[0].id) {
        let t = ms.drop_first();
        assert forall|j: int| 0 <= j < t.len() implies seq_less(x, #[trigger] t[j].id) by {
            assert(t[j] == ms[j + 1]);
        }
        lemma_upserted_above(t, id, name, target, x);
        let u = upserted(ms, id, name, target);
        assert forall|j: int| 0 <= j < u.len() implies seq_less(x, #[trigger] u[j].id) by {
            if j > 0 {
                assert(u[j] == upserted(t, id, name, target)[j - 1]);
            }
        }
    }
}

/// Adding or updating a monitor keeps the list sorted.
proof fn lemma_upserted_sorted(ms: Seq<MonitorView>, id: Seq<char>, name: Seq<char>, target: Seq<char>)
    requires
        monitors_sorted(ms),
    ensures
        monitors_sorted(upserted(ms, id, name, target)),
    decreases ms.len(),
{
    let v = MonitorView { id, name, target, recipients: None };
    if ms.len() == 0 {
    } else if ms[0].id == id {
        let u = upserted(ms, id, name, target);
        assert forall|a: int, b: int| 0 <= a < b < u.len() implies seq_less(#[trigger] u[a].id, #[trigger] u[b].id) by {
            assert(u[a].id == ms[a].id && u[b].id == ms[b].id);
        }
    } else if seq_less(id, ms[0].id) {
        lemma_insert_sorted(ms, 0, v);
    } else {
        let t = ms.drop_first();
        lemma_seq_less_total(ms[0].id, id);
        lemma_sorted_tail(ms);
        lemma_upserted_sorted(t, id, name, target);
        lemma_upserted_above(t, id, name, target, ms[0].id);
        let ut = upserted(t, id, name, target);
        let u = upserted(ms, id, name, target);
        assert(u == seq![ms[0]] + ut);
        assert forall|a: int, b: int| 0 <= a < b < u.len() implies seq_less(#[trigger] u[a].id, #[trigger] u[b].id) by {
            assert(u[b] == ut[b - 1]);
            if a > 0 {
                assert(u[a] == ut[a - 1]);
            }
        }
    }
}

/// After adding or updating monitor `id`, it holds the new name and target
/// and the recipients it had before, if any.
proof fn lemma_find_upserted(ms: Seq<MonitorView>, id: Seq<char>, name: Seq<char>, target: Seq<char>)
    requires
        monitors_sorted(ms),
    ensures
        find_monitor(upserted(ms, id, name, target), id) == Some(
            MonitorView { id, name, target, recipients: recipients_of(ms, id) },
        ),
    decreases ms.len(),
{
    if ms.len() == 0 {
    } else if ms[0].id == id {
    } else if seq_less(id, ms[0].id) {
        lemma_sorted_tail(ms);
        assert forall|j: int| 0 <= j < ms.len() implies (#[trigger] ms[j]).id != id by {
            if j > 0 {
                assert(ms.drop_first()[j - 1] == ms[j]);
                lemma_seq_less_trans(id, ms[0].id, ms[j].id);
            }
            lemma_seq_less_asym(id, id);
        }
        lemma_find_none(ms, id);
        let u = upserted(ms, id, name, target);
        assert(u[0].id == id);
    } else {
        lemma_sorted_tail(ms);
        lemma_find_upserted(ms.drop_first(), id, name, target);
        let u = upserted(ms, id, name, target);
        assert(u.drop_first() =~= upserted(ms.drop_first(), id, name, target));
    }
}

/// Replacing the recipients of a present monitor: it then holds exactly those.
proof fn lemma_find_with_recipients(ms: Seq<MonitorView>, id: Seq<char>, r: Option<Seq<char>>)
    requires
        find_monitor(ms, id) is Some,
    ensures
        recipients_of(with_recipients(ms, id, r), id) == r,
        find_monitor(with_recipients(ms, id, r), id) is Some,
    decreases ms.len(),
{
    let w = with_recipients(ms, id, r);
    if ms[0].id == id {
        assert(w[0] == MonitorView { recipients: r, ..ms[0] });
    } else {
        assert(w[0] == ms[0]);
        assert(w.drop_first() =~= with_recipients(ms.drop_first(), id, r));
        lemma_find_with_recipients(ms.drop_first(), id, r);
    }
}

proof fn lemma_with_recipients_sorted(ms: Seq<MonitorView>, id: Seq<char>, r: Option<Seq<char>>)
    requires
        monitors_sorted(ms),
    ensures
        monitors_sorted(with_recipients(ms, id, r)),
{
    let w = with_recipients(ms, id, r);
    assert forall|a: int, b: int| 0 <= a < b < w.len() implies seq_less(#[trigger] w[a].id, #[trigger] w[b].id) by {
        assert(w[a].id == ms[a].id && w[b].id == ms[b].id);
    }
}

/// Updating a monitor's name and target twice, after its recipients were
/// set, leaves those recipients in place.
pub proof fn lemma_upsert_twice_keeps_recipients(
    ms: Seq<MonitorView>,
    id: Seq<char>,
    recipients: Option<Seq<char>>,
    name1: Seq<char>,
    target1: Seq<char>,
    name2: Seq<char>,
    target2: Seq<char>,
)
    requires
        monitors_sorted(ms),
        find_monitor(ms, id) is Some,
    ensures
        ({
            let set = with_recipients(ms, id, recipients);
            let once = upserted(set, id, name1, target1);
            let twice = upserted(once, id, name2, target2);
            &&& recipients_of(once, id) == recipients
            &&& recipients_of(twice, id) == recipients
            &&& find_monitor(twice, id) == Some(MonitorView { id, name: name2, target: target2, recipients })
        }),
{
    let set = with_recipients(ms, id, recipients);
    lemma_find_with_recipients(ms, id, recipients);
    lemma_with_recipients_sorted(ms, id, recipients);
    lemma_find_upserted(set, id, name1, target1);
    lemma_upserted_sorted(set, id, name1, target1);
    let once = upserted(set, id, name1, target1);
    lemma_find_upserted(once, id, name2, target2);
}

proof fn lemma_push_contains(s: Seq<ResultView>, l: ResultView)
    ensures
        forall|x: ResultView| #[trigger] s.push(l).contains(x) <==> (s.contains(x) || x == l),
{
    assert forall|x: ResultView| #[trigger] s.push(l).contains(x) <==> (s.contains(x) || x == l) by {
        if s.push(l).contains(x) {
            let k = choose|k: int| 0 <= k < s.push(l).len() && s.push(l)[k] == x;
            if k < s.len() {
                assert(s[k] == x);
            }
        }
        if s.contains(x) {
            let k = choose|k: int| 0 <= k < s.len() && s[k] == x;
            assert(s.push(l)[k] == x);
        }
        if x == l {
            assert(s.push(l)[s.len() as int] == x);
        }
    }
}

/// A result survives rotation exactly when it is not older than the cutoff.
pub proof fn lemma_retained_members(rs: Seq<ResultView>, cutoff: int)
    ensures
        forall|x: ResultView| #[trigger] retained(rs, cutoff).contains(x) <==> (rs.contains(x) && x.timestamp >= cutoff),
    decreases rs.len(),
{
    if rs.len() > 0 {
        let prev = rs.drop_last();
        lemma_retained_members(prev, cutoff);
        assert(prev.push(rs.last()) =~= rs);
        lemma_push_contains(prev, rs.last());
        lemma_push_contains(retained(prev, cutoff), rs.last());
    }
}

/// An in-memory store of monitors, check results and alerts.
#[derive(Debug)]
pub struct Db {
    monitors: Vec<MonitorRecord>,
    results: Vec<CheckResult>,
    alerts: Vec<Alert>,
    next_result_id: i64,
    next_alert_id: i64,
}

impl View for Db {
    type V = DbModel;

    closed spec fn view(&self) -> DbModel {
        DbModel {
            monitors: view_monitors(self.monitors@),
            results: view_results(self.results@),
            alerts: view_alerts(self.alerts@),
            next_result_id: self.next_result_id,
            next_alert_id: self.next_alert_id,
        }
    }
}

impl Db {
    pub open spec fn wf(&self) -> bool {
        self@.inv()
    }

    /// An empty store; the first result and the first alert get id 1.
    pub fn new() -> (r: Db)
        ensures
            r.wf(),
            r@.monitors.len() == 0,
            r@.results.len() == 0,
            r@.alerts.len() == 0,
            r@.next_result_id == 1,
            r@.next_alert_id == 1,
    {
        let r = Db {
            monitors: Vec::new(),
            results: Vec::new(),
            alerts: Vec::new(),
            next_result_id: 1,
            next_alert_id: 1,
        };
        assert(r@.monitors =~= Seq::empty());
        assert(r@.results =~= Seq::empty());
        assert(r@.alerts =~= Seq::empty());
        r
    }


    /// Adds monitor `id`, or updates the name and target of the monitor
    /// with that id while keeping its recipients.
    pub fn insert_monitor(&mut self, id: &str, name: &str, target: &str)
        requires
            old(self).wf(),
        ensures
            final(self).wf(),
            final(self)@ == (DbModel {
                monitors: upserted(old(self)@.monitors, id@, name@, target@),
                ..old(self)@
            }),
    {
        let ghost ms = self@.monitors;
        let len = self.monitors.len();
        let mut i: usize = 0;
        assert(ms.subrange(0, 0) + ms.subrange(0, len as int) =~= ms);
        while i < len && str_less(self.monitors[i].id.as_str(), id)
            invariant
                self.wf(),
                ms == self@.monitors,
                len == ms.len(),
                i <= len,
                forall|j: int| 0 <= j < i ==> seq_less(#[trigger] ms[j].id, id@),
                upserted(ms, id@, name@, target@) == ms.subrange(0, i as int) + upserted(
                    ms.subrange(i as int, len as int),
                    id@,
                    name@,
                    target@,
                ),
            decreases len - i,
        {
            let ghost t = ms.subrange(i as int, len as int);
            assert(self.monitors@[i as int]@ == ms[i as int]);
            assert(t[0] == ms[i as int]);
            proof {
                lemma_seq_less_asym(ms[i as int].id, id@);
                lemma_seq_less_asym(id@, id@);
            }
            assert(t.drop_first() =~= ms.subrange(i + 1, len as int));
            assert(ms.subrange(0, i as int) + (seq![ms[i as int]] + upserted(t.drop_first(), id@, name@, target@))
                =~= ms.subrange(0, i + 1) + upserted(t.drop_first(), id@, name@, target@));
            i = i + 1;
        }
        let ghost t = ms.subrange(i as int, len as int);
        let fresh = MonitorRecord {
            id: String::from_str(id),
            name: String::from_str(name),
            target: String::from_str(target),
            recipients: None,
        };
        if i == len {
            proof {
                assert(t =~= Seq::<MonitorView>::empty());
                lemma_insert_sorted(ms, i as int, fresh@);
                assert(ms.insert(i as int, fresh@) =~= ms.push(fresh@));
            }
            self.monitors.push(fresh);
            assert(self@.monitors =~= ms.push(fresh@));
            assert(upserted(ms, id@, name@, target@) =~= ms.push(fresh@));
        } else if str_eq(self.monitors[i].id.as_str(), id) {
            let recipients = copy_opt_string(&self.monitors[i].recipients);
            let updated = MonitorRecord { recipients, ..fresh };
            assert(self.monitors@[i as int]@ == ms[i as int]);
            assert(t[0] == ms[i as int]);
            self.monitors.set(i, updated);
            assert(self@.monitors =~= ms.update(i as int, updated@));
            assert(upserted(ms, id@, name@, target@) =~= ms.update(i as int, updated@));
            assert(monitors_sorted(self@.monitors)) by {
                assert forall|a: int, b: int| 0 <= a < b < self@.monitors.len() implies seq_less(
                    #[trigger] self@.monitors[a].id,
                    #[trigger] self@.monitors[b].id,
                ) by {
                    assert(ms[a].id == self@.monitors[a].id && ms[b].id == self@.monitors[b].id);
                }
            }
        } else {
            proof {
                assert(self.monitors@[i as int]@ == ms[i as int]);
                assert(t[0] == ms[i as int]);
                lemma_seq_less_total(ms[i as int].id, id@);
                lemma_insert_sorted(ms, i as int, fresh@);
                assert(ms.subrange(0, i as int) + t.insert(0, fresh@) =~= ms.insert(i as int, fresh@));
            }
            self.monitors.insert(i, fresh);
            assert(self@.monitors =~= ms.insert(i as int, fresh@));
        }
    }

    /// Replaces the recipients of monitor `id`; no change if there is no such monitor.
    pub fn set_monitor_recipients(&mut self, id: &str, recipients: Option<&str>)
        requires
            old(self).wf(),
        ensures
            final(self).wf(),
            final(self)@ == (DbModel {
                monitors: with_recipients(
                    old(self)@.monitors,
                    id@,
                    opt_str_ref_view(recipients),
                ),
                ..old(self)@
            }),
    {
        let ghost ms = self@.monitors;
        let ghost rv = opt_str_ref_view(recipients);
        let ghost target = with_recipients(ms, id@, rv);
        let len = self.monitors.len();
        let mut i: usize = 0;
        while i < len
            invariant
                len == ms.len(),
                len == self.monitors@.len(),
                i <= len,
                monitors_sorted(ms),
                self@.results == old(self)@.results,
                self@.alerts == old(self)@.alerts,
                self@.next_result_id == old(self)@.next_result_id,
                self@.next_alert_id == old(self)@.next_alert_id,
                ms == old(self)@.monitors,
                rv == opt_str_ref_view(recipients),
                target == with_recipients(ms, id@, rv),
                forall|k: int| 0 <= k < i ==> #[trigger] self@.monitors[k] == target[k],
                forall|k: int| i <= k < len ==> #[trigger] self@.monitors[k] == ms[k],
            decreases len - i,
        {
            assert(self.monitors@[i as int]@ == self@.monitors[i as int]);
            if str_eq(self.monitors[i].id.as_str(), id) {
                let new_recipients = to_opt_string(recipients);
                let cur = &self.monitors[i];
                let m = MonitorRecord {
                    id: cur.id.clone(),
                    name: cur.name.clone(),
                    target: cur.target.clone(),
                    recipients: new_recipients,
                };
                let ghost before = self@.monitors;
                assert(target[i as int] == MonitorView { recipients: rv, ..ms[i as int] });
                assert(self@.monitors[i as int] == ms[i as int]);
                assert(m@ == MonitorView { recipients: rv, ..ms[i as int] });
                self.monitors.set(i, m);
                assert(self@.monitors =~= before.update(i as int, m@));
            } else {
                assert(self@.monitors[i as int] == target[i as int]);
            }
            i = i + 1;
        }
        assert(self@.monitors =~= target);
        assert(monitors_sorted(target)) by {
            assert forall|a: int, b: int| 0 <= a < b < target.len() implies seq_less(
                #[trigger] target[a].id,
                #[trigger] target[b].id,
            ) by {
                assert(ms[a].id == target[a].id && ms[b].id == target[b].id);
            }
        }
    }

    /// The monitor with id `id`, if any.
    pub fn get_monitor(&self, id: &str) -> (r: Option<MonitorRecord>)
        requires
            self.wf(),
        ensures
            match r {
                Some(m) => find_monitor(self@.monitors, id@) == Some(m@),
                None => find_monitor(self@.monitors, id@) is None,
            },
    {
        match self.monitor_index(id) {
            Some(i) => Some(self.monitors[i].duplicate()),
            None => None,
        }
    }

    fn monitor_index(&self, id: &str) -> (r: Option<usize>)
        requires
            self.wf(),
        ensures
            match r {
                Some(i) => i < self@.monitors.len() && self@.monitors[i as int].id == id@
                    && find_monitor(self@.monitors, id@) == Some(self@.monitors[i as int])
                    && self.monitors@[i as int]@ == self@.monitors[i as int],
                None => find_monitor(self@.monitors, id@) is None
                    && forall|j: int| 0 <= j < self@.monitors.len() ==> (#[trigger] self@.monitors[j]).id != id@,
            },
    {
        let ghost ms = self@.monitors;
        let len = self.monitors.len();
        let mut i: usize = 0;
        while i < len
            invariant
                self.wf(),
                ms == self@.monitors,
                len == ms.len(),
                i <= len,
                forall|j: int| 0 <= j < i ==> (#[trigger] ms[j]).id != id@,
            decreases len - i,
        {
            assert(self.monitors@[i as int]@ == ms[i as int]);
            if str_eq(self.monitors[i].id.as_str(), id) {
                proof {
                    lemma_find_at(ms, i as int);
                }
                return Some(i);
            }
            i = i + 1;
        }
        proof {
            lemma_find_none(ms, id@);
        }
        None
    }

    /// All monitors, ascending by id.
    pub fn list_monitors(&self) -> (r: Vec<MonitorRecord>)
        requires
            self.wf(),
        ensures
            view_monitors(r@) == self@.monitors,
            monitors_sorted(view_monitors(r@)),
    {
        let mut out: Vec<MonitorRecord> = Vec::new();
        let len = self.monitors.len();
        let mut i: usize = 0;
        while i < len
            invariant
                len == self.monitors@.len(),
                i <= len,
                out@.len() == i,
                view_monitors(out@) == self@.monitors.subrange(0, i as int),
            decreases len - i,
        {
            assert(self@.monitors[i as int] == self.monitors@[i as int]@);
            let ghost before = out@;
            out.push(self.monitors[i].duplicate());
            assert forall|k: int| 0 <= k < i + 1 implies #[trigger] view_monitors(out@)[k]
                == self@.monitors.subrange(0, i + 1)[k] by {
                if k < i {
                    assert(out@[k] == before[k]);
                    assert(view_monitors(before)[k] == self@.monitors.subrange(0, i as int)[k]);
                }
            }
            assert(view_monitors(out@) =~= self@.monitors.subrange(0, i + 1));
            i = i + 1;
        }
        assert(self@.monitors.subrange(0, len as int) =~= self@.monitors);
        out
    }

    /// Removes monitor `id` and returns how many monitors were removed (0 or 1).
    /// Its results and alerts stay.
    pub fn delete_monitor(&mut self, id: &str) -> (r: usize)
        requires
            old(self).wf(),
        ensures
            final(self).wf(),
            find_monitor(old(self)@.monitors, id@) is None ==> r == 0 && final(self)@ == old(self)@,
            find_monitor(old(self)@.monitors, id@) is Some ==> r == 1 && exists|i: int|
                0 <= i < old(self)@.monitors.len() && old(self)@.monitors[i].id == id@
                    && final(self)@ == (DbModel {
                    monitors: old(self)@.monitors.remove(i),
                    ..old(self)@
                }),
    {
        match self.monitor_index(id) {
            Some(i) => {
                let ghost ms = self@.monitors;
                self.monitors.remove(i);
                assert(self@.monitors =~= ms.remove(i as int));
                assert(monitors_sorted(self@.monitors)) by {
                    let n = ms.remove(i as int);
                    assert forall|a: int, b: int| 0 <= a < b < n.len() implies seq_less(
                        #[trigger] n[a].id,
                        #[trigger] n[b].id,
                    ) by {
                        if a < i && b >= i {
                            assert(n[a] == ms[a] && n[b] == ms[b + 1]);
                        } else if a >= i {
                            assert(n[a] == ms[a + 1] && n[b] == ms[b + 1]);
                        } else {
                            assert(n[a] == ms[a] && n[b] == ms[b]);
                        }
                    }
                }
                1
            },
            None => 0,
        }
    }


    /// Marks alert `alert_id` sent at `sent_at`; no change if there is no such alert.
    pub fn mark_alert_sent(&mut self, alert_id: i64, sent_at: i64)
        requires
            old(self).wf(),
        ensures
            final(self).wf(),
            final(self)@ == (DbModel { alerts: marked_sent(old(self)@.alerts, alert_id, sent_at), ..old(self)@ }),
    {
        let ghost als = self@.alerts;
        let ghost target = marked_sent(als, alert_id, sent_at);
        let len = self.alerts.len();
        let mut i: usize = 0;
        while i < len
            invariant
                len == als.len(),
                len == self.alerts@.len(),
                i <= len,
                als == old(self)@.alerts,
                self@.monitors == old(self)@.monitors,
                self@.results == old(self)@.results,
                self@.next_result_id == old(self)@.next_result_id,
                self@.next_alert_id == old(self)@.next_alert_id,
                target == marked_sent(als, alert_id, sent_at),
                forall|k: int| 0 <= k < i ==> #[trigger] self@.alerts[k] == target[k],
                forall|k: int| i <= k < len ==> #[trigger] self@.alerts[k] == als[k],
            decreases len - i,
        {
            assert(self.alerts@[i as int]@ == self@.alerts[i as int]);
            if self.alerts[i].id == alert_id {
                let cur = &self.alerts[i];
                let a = Alert {
                    id: cur.id,
                    monitor_id: cur.monitor_id.clone(),
                    message: cur.message.clone(),
                    created_at: cur.created_at,
                    sent: true,
                    sent_at: Some(sent_at),
                };
                let ghost before = self@.alerts;
                assert(target[i as int] == AlertView { sent: true, sent_at: Some(sent_at), ..als[i as int] });
                self.alerts.set(i, a);
                assert(self@.alerts =~= before.update(i as int, a@));
            } else {
                assert(self@.alerts[i as int] == target[i as int]);
            }
            i = i + 1;
        }
        assert(self@.alerts =~= target);
        assert(alert_ids_valid(target, self@.next_alert_id)) by {
            assert forall|a: int, b: int| 0 <= a < b < target.len() implies #[trigger] target[a].id
                < #[trigger] target[b].id by {
                assert(als[a].id == target[a].id && als[b].id == target[b].id);
            }
            assert forall|a: int| 0 <= a < target.len() implies 1 <= #[trigger] target[a].id
                < self@.next_alert_id && (target[a].sent_at is Some <==> target[a].sent) by {
                assert(als[a].id == target[a].id);
            }
        }
    }

    /// The latest time at which an alert of monitor `monitor_id` was marked
    /// sent; only sent alerts count.
    pub fn get_last_sent_time(&self, monitor_id: &str) -> (r: Option<i64>)
        requires
            self.wf(),
        ensures
            r == last_sent_time(self@.alerts, monitor_id@),
    {
        let ghost als = self@.alerts;
        let len = self.alerts.len();
        let mut acc: Option<i64> = None;
        let mut i: usize = 0;
        assert(als.subrange(0, 0) =~= Seq::<AlertView>::empty());
        while i < len
            invariant
                als == self@.alerts,
                len == als.len(),
                i <= len,
                acc == last_sent_time(als.subrange(0, i as int), monitor_id@),
            decreases len - i,
        {
            assert(als.subrange(0, i + 1).drop_last() =~= als.subrange(0, i as int));
            assert(self.alerts@[i as int]@ == als[i as int]);
            let a = &self.alerts[i];
            if a.sent && str_eq(a.monitor_id.as_str(), monitor_id) {
                match a.sent_at {
                    Some(t) => {
                        acc = match acc {
                            Some(prev) => Some(if prev >= t { prev } else { t }),
                            None => Some(t),
                        };
                    },
                    None => {},
                }
            }
            i = i + 1;
        }
        assert(als.subrange(0, len as int) =~= als);
        acc
    }

    /// The alerts, all of them or those of one monitor, newest (highest id)
    /// first. Callers that want oldest first reverse the list.
    pub fn fetch_alerts(&self, monitor_id: Option<&str>) -> (r: Vec<Alert>)
        requires
            self.wf(),
        ensures
            view_alerts(r@) == alerts_newest_first(self@.alerts, opt_str_ref_view(monitor_id)),
    {
        let ghost als = self@.alerts;
        let ghost sel = opt_str_ref_view(monitor_id);
        let ghost full = alerts_newest_first(als, sel);
        let mut out: Vec<Alert> = Vec::new();
        let mut i = self.alerts.len();
        assert(als.subrange(0, i as int) =~= als);
        assert(view_alerts(out@) + full =~= full);
        while i > 0
            invariant
                als == self@.alerts,
                sel == opt_str_ref_view(monitor_id),
                full == alerts_newest_first(als, sel),
                i <= als.len(),
                view_alerts(out@) + alerts_newest_first(als.subrange(0, i as int), sel) == full,
            decreases i,
        {
            let ghost prefix = als.subrange(0, i as int);
            let ghost ov = view_alerts(out@);
            assert(prefix.drop_last() =~= als.subrange(0, i - 1));
            assert(self.alerts@[i - 1]@ == als[i - 1]);
            let a = &self.alerts[i - 1];
            let keep = match monitor_id {
                Some(m) => str_eq(a.monitor_id.as_str(), m),
                None => true,
            };
            if keep {
                out.push(a.duplicate());
                assert(view_alerts(out@) =~= ov.push(als[i - 1]));
                assert(ov.push(als[i - 1]) + alerts_newest_first(als.subrange(0, i - 1), sel) =~= ov
                    + (seq![als[i - 1]] + alerts_newest_first(als.subrange(0, i - 1), sel)));
            }
            i = i - 1;
        }
        assert(als.subrange(0, 0) =~= Seq::<AlertView>::empty());
        assert(view_alerts(out@) =~= full);
        out
    }

    /// Deletes the results older than `retention_days` days before `now` and
    /// returns how many were deleted. Monitors and alerts stay.
    pub fn rotate_at(&mut self, retention_days: u32, now: i64) -> (r: usize)
        requires
            old(self).wf(),
        ensures
            final(self).wf(),
            final(self)@ == (DbModel {
                results: retained(old(self)@.results, retention_cutoff(now, retention_days)),
                ..old(self)@
            }),
            r == old(self)@.results.len() - final(self)@.results.len(),
    {
        let ghost rs = self@.results;
        let ghost cutoff = retention_cutoff(now, retention_days);
        let cut: i128 = now as i128 - (retention_days as i128) * (SECONDS_PER_DAY as i128);
        let len = self.results.len();
        let mut out: Vec<CheckResult> = Vec::new();
        let mut i: usize = 0;
        assert(rs.subrange(0, 0) =~= Seq::<ResultView>::empty());
        assert(view_results(out@) =~= Seq::<ResultView>::empty());
        while i < len
            invariant
                self.wf(),
                rs == self@.results,
                len == rs.len(),
                i <= len,
                cut == cutoff,
                cutoff == retention_cutoff(now, retention_days),
                view_results(out@) == retained(rs.subrange(0, i as int), cutoff),
                out@.len() <= i,
                forall|a: int, b: int| 0 <= a < b < out@.len() ==> out@[a].id < out@[b].id,
                forall|k: int, j: int| 0 <= k < out@.len() && i <= j < len ==> out@[k].id < rs[j].id,
                forall|k: int| 0 <= k < out@.len() ==> 1 <= #[trigger] out@[k].id < self@.next_result_id,
            decreases len - i,
        {
            assert(rs.subrange(0, i + 1).drop_last() =~= rs.subrange(0, i as int));
            assert(self.results@[i as int]@ == rs[i as int]);
            let c = &self.results[i];
            if (c.timestamp as i128) >= cut {
                let ghost oldout = out@;
                out.push(c.duplicate());
                assert(view_results(out@) =~= view_results(oldout).push(rs[i as int]));
                assert forall|a: int, b: int| 0 <= a < b < out@.len() implies out@[a].id < out@[b].id by {
                    assert(out@[a] == oldout[a]);
                    if b < oldout.len() {
                        assert(out@[b] == oldout[b]);
                    } else {
                        assert(out@[b]@ == rs[i as int]);
                    }
                }
                assert forall|k: int, j: int| 0 <= k < out@.len() && i + 1 <= j < len implies out@[k].id
                    < rs[j].id by {
                    if k < oldout.len() {
                        assert(out@[k] == oldout[k]);
                    } else {
                        assert(out@[k]@ == rs[i as int]);
                        assert(rs[i as int].id < rs[j].id);
                    }
                }
                assert forall|k: int| 0 <= k < out@.len() implies 1 <= #[trigger] out@[k].id
                    < self@.next_result_id by {
                    if k < oldout.len() {
                        assert(out@[k] == oldout[k]);
                    } else {
                        assert(out@[k]@ == rs[i as int]);
                    }
                }
            }
            i = i + 1;
        }
        assert(rs.subrange(0, len as int) =~= rs);
        let removed = len - out.len();
        self.results = out;
        assert(result_ids_valid(self@.results, self@.next_result_id)) by {
            assert forall|a: int, b: int| 0 <= a < b < self@.results.len() implies #[trigger] self@.results[a].id
                < #[trigger] self@.results[b].id by {
                assert(self@.results[a] == self.results@[a]@);
                assert(self@.results[b] == self.results@[b]@);
            }
            assert forall|a: int| 0 <= a < self@.results.len() implies 1 <= #[trigger] self@.results[a].id
                < self@.next_result_id by {
                assert(self@.results[a] == self.results@[a]@);
            }
        }
        removed
    }

    /// A store holding exactly the given contents, if they satisfy the
    /// store's invariant: monitors strictly ascending by id, result and alert
    /// ids strictly ascending, positive and below the matching next id, and
    /// `sent_at` present exactly on sent alerts.
    pub fn from_parts(
        monitors: Vec<MonitorRecord>,
        results: Vec<CheckResult>,
        alerts: Vec<Alert>,
        next_result_id: i64,
        next_alert_id: i64,
    ) -> (r: Option<Db>)
        ensures
            ({
                let m = DbModel {
                    monitors: view_monitors(monitors@),
                    results: view_results(results@),
                    alerts: view_alerts(alerts@),
                    next_result_id,
                    next_alert_id,
                };
                match r {
                    Some(db) => db.wf() && db@ == m,
                    None => !m.inv(),
                }
            }),
    {
        let ghost ms = view_monitors(monitors@);
        let ghost rs = view_results(results@);
        let ghost als = view_alerts(alerts@);
        let ghost m = DbModel { monitors: ms, results: rs, alerts: als, next_result_id, next_alert_id };
        if next_result_id < 1 || next_alert_id < 1 {
            return None;
        }
        let mut i: usize = 0;
        while i < monitors.len()
            invariant
                m == (DbModel { monitors: ms, results: rs, alerts: als, next_result_id, next_alert_id }),
                ms == view_monitors(monitors@),
                rs == view_results(results@),
                als == view_alerts(alerts@),
                ms.len() == monitors@.len(),
                rs.len() == results@.len(),
                als.len() == alerts@.len(),
                i <= monitors@.len(),
                forall|a: int, b: int| 0 <= a < b < i ==> seq_less(#[trigger] ms[a].id, #[trigger] ms[b].id),
            decreases monitors@.len() - i,
        {
            if i > 0 {
                assert(ms[i - 1] == monitors@[i - 1]@ && ms[i as int] == monitors@[i as int]@);
                if !str_less(monitors[i - 1].id.as_str(), monitors[i].id.as_str()) {
                    assert(!monitors_sorted(m.monitors)) by {
                        assert(!seq_less(m.monitors[i - 1].id, m.monitors[i as int].id));
                    }
                    return None;
                }
                assert forall|a: int, b: int| 0 <= a < b < i + 1 implies seq_less(#[trigger] ms[a].id, #[trigger] ms[b].id) by {
                    if b == i && a < i - 1 {
                        lemma_seq_less_trans(ms[a].id, ms[i - 1].id, ms[b].id);
                    }
                }
            }
            i = i + 1;
        }
        let mut i: usize = 0;
        while i < results.len()
            invariant
                m == (DbModel { monitors: ms, results: rs, alerts: als, next_result_id, next_alert_id }),
                ms == view_monitors(monitors@),
                rs == view_results(results@),
                als == view_alerts(alerts@),
                ms.len() == monitors@.len(),
                rs.len() == results@.len(),
                als.len() == alerts@.len(),
                i <= results@.len(),
                forall|a: int, b: int| 0 <= a < b < i ==> #[trigger] rs[a].id < #[trigger] rs[b].id,
                forall|a: int| 0 <= a < i ==> 1 <= #[trigger] rs[a].id < next_result_id,
            decreases results@.len() - i,
        {
            assert(rs[i as int] == results@[i as int]@);
            let id = results[i].id;
            if id < 1 || id >= next_result_id {
                assert(!(1 <= m.results[i as int].id < m.next_result_id));
                return None;
            }
            if i > 0 {
                assert(rs[i - 1] == results@[i - 1]@);
                if results[i - 1].id >= id {
                    assert(!(m.results[i - 1].id < m.results[i as int].id));
                    return None;
                }
            }
            i = i + 1;
        }
        let mut i: usize = 0;
        while i < alerts.len()
            invariant
                m == (DbModel { monitors: ms, results: rs, alerts: als, next_result_id, next_alert_id }),
                ms == view_monitors(monitors@),
                rs == view_results(results@),
                als == view_alerts(alerts@),
                ms.len() == monitors@.len(),
                rs.len() == results@.len(),
                als.len() == alerts@.len(),
                i <= alerts@.len(),
                forall|a: int, b: int| 0 <= a < b < i ==> #[trigger] als[a].id < #[trigger] als[b].id,
                forall|a: int| 0 <= a < i ==> 1 <= #[trigger] als[a].id < next_alert_id,
                forall|a: int| 0 <= a < i ==> (#[trigger] als[a].sent_at is Some <==> als[a].sent),
            decreases alerts@.len() - i,
        {
            assert(als[i as int] == alerts@[i as int]@);
            let id = alerts[i].id;
            if id < 1 || id >= next_alert_id {
                assert(!(1 <= m.alerts[i as int].id < m.next_alert_id));
                return None;
            }
            if alerts[i].sent != alerts[i].sent_at.is_some() {
                assert(!(m.alerts[i as int].sent_at is Some <==> m.alerts[i as int].sent));
                return None;
            }
            if i > 0 {
                assert(als[i - 1] == alerts@[i - 1]@);
                if alerts[i - 1].id >= id {
                    assert(!(m.alerts[i - 1].id < m.alerts[i as int].id));
                    return None;
                }
            }
            i = i + 1;
        }
        Some(Db { monitors, results, alerts, next_result_id, next_alert_id })
    }

    /// Every result, in insertion order.
    pub fn all_results(&self) -> (r: Vec<CheckResult>)
        requires
            self.wf(),
        ensures
            view_results(r@) == self@.results,
    {
        let mut out: Vec<CheckResult> = Vec::new();
        let len = self.results.len();
        let mut i: usize = 0;
        while i < len
            invariant
                len == self.results@.len(),
                i <= len,
                out@.len() == i,
                view_results(out@) == self@.results.subrange(0, i as int),
            decreases len - i,
        {
            assert(self@.results[i as int] == self.results@[i as int]@);
            let ghost before = out@;
            out.push(self.results[i].duplicate());
            assert forall|k: int| 0 <= k < i + 1 implies #[trigger] view_results(out@)[k]
                == self@.results.subrange(0, i + 1)[k] by {
                if k < i {
                    assert(out@[k] == before[k]);
                    assert(view_results(before)[k] == self@.results.subrange(0, i as int)[k]);
                }
            }
            assert(view_results(out@) =~= self@.results.subrange(0, i + 1));
            i = i + 1;
        }
        assert(self@.results.subrange(0, len as int) =~= self@.results);
        out
    }

    /// The ids the next result and the next alert will get.
    pub fn next_ids(&self) -> (r: (i64, i64))
        ensures
            r == (self@.next_result_id, self@.next_alert_id),
    {
        (self.next_result_id, self.next_alert_id)
    }

    /// Deletes the results older than `retention_days` days before the
    /// current time, as `rotate_at` does, and returns how many were deleted.
    pub fn rotate(&mut self, retention_days: u32) -> (r: usize)
        requires
            old(self).wf(),
        ensures
            final(self).wf(),
            exists|now: i64|
                final(self)@ == (DbModel {
                    results: retained(old(self)@.results, #[trigger] retention_cutoff(now, retention_days)),
                    ..old(self)@
                }),
            r == old(self)@.results.len() - final(self)@.results.len(),
    {
        let now = now_unix_seconds();
        self.rotate_at(retention_days, now)
    }

    /// Appends a result of monitor `monitor_id` and returns its id: the
    /// store's next result id, which then grows by one.
    pub fn insert_result(
        &mut self,
        monitor_id: &str,
        success: bool,
        status_code: Option<u16>,
        timestamp: i64,
    ) -> (r: Result<i64, StorageError>)
        requires
            old(self).wf(),
        ensures
            final(self).wf(),
            old(self)@.next_result_id < i64::MAX ==> r == Ok::<i64, StorageError>(old(self)@.next_result_id)
                && final(self)@ == result_inserted(old(self)@, monitor_id@, success, status_code, timestamp),
            old(self)@.next_result_id == i64::MAX ==> r == Err::<i64, StorageError>(
                StorageError::IdsExhausted,
            ) && final(self)@ == old(self)@,
    {
        if self.next_result_id == i64::MAX {
            return Err(StorageError::IdsExhausted);
        }
        let id = self.next_result_id;
        let rec = CheckResult {
            id,
            monitor_id: String::from_str(monitor_id),
            success,
            status_code,
            timestamp,
        };
        let ghost before = self.results@;
        self.results.push(rec);
        self.next_result_id = id + 1;
        assert(view_results(self.results@) =~= view_results(before).push(rec@));
        Ok(id)
    }

    /// Appends an unsent alert of monitor `monitor_id` and returns its id:
    /// the store's next alert id, which then grows by one.
    pub fn insert_alert(&mut self, monitor_id: &str, message: &str, created_at: i64) -> (r: Result<
        i64,
        StorageError,
    >)
        requires
            old(self).wf(),
        ensures
            final(self).wf(),
            old(self)@.next_alert_id < i64::MAX ==> r == Ok::<i64, StorageError>(old(self)@.next_alert_id)
                && final(self)@ == alert_inserted(old(self)@, monitor_id@, message@, created_at),
            old(self)@.next_alert_id == i64::MAX ==> r == Err::<i64, StorageError>(
                StorageError::IdsExhausted,
            ) && final(self)@ == old(self)@,
    {
        if self.next_alert_id == i64::MAX {
            return Err(StorageError::IdsExhausted);
        }
        let id = self.next_alert_id;
        let rec = Alert {
            id,
            monitor_id: String::from_str(monitor_id),
            message: String::from_str(message),
            created_at,
            sent: false,
            sent_at: None,
        };
        let ghost before = self.alerts@;
        self.alerts.push(rec);
        self.next_alert_id = id + 1;
        assert(view_alerts(self.alerts@) =~= view_alerts(before).push(
            rec@,
        ));
        Ok(id)
    }

    /// Reads the results of monitor `monitor_id`: the newest ones, at most
    /// `RECENT_RESULTS_LIMIT` of them, newest first, so with strictly
    /// decreasing ids. Nothing is written.
    pub fn recent_results(&self, monitor_id: &str) -> (r: Vec<CheckResult>)
        requires
            self.wf(),
        ensures
            view_results(r@) == recent_results_of(self@.results, monitor_id@),
            r@.len() <= RECENT_RESULTS_LIMIT,
            results_newest_first(self@.results, monitor_id@).len() >= RECENT_RESULTS_LIMIT
                ==> r@.len() == RECENT_RESULTS_LIMIT,
            forall|a: int, b: int| 0 <= a < b < r@.len() ==> r@[a].id > r@[b].id,
    {
        let ghost rs = self@.results;
        let ghost full = results_newest_first(rs, monitor_id@);
        let mut out: Vec<CheckResult> = Vec::new();
        let mut i = self.results.len();
        assert(rs.subrange(0, i as int) =~= rs);
        assert(view_results(out@) + full =~= full);
        while i > 0 && out.len() < RECENT_RESULTS_LIMIT
            invariant
                self.wf(),
                rs == self@.results,
                full == results_newest_first(rs, monitor_id@),
                i <= rs.len(),
                out@.len() <= RECENT_RESULTS_LIMIT,
                view_results(out@) + results_newest_first(
                    rs.subrange(0, i as int),
                    monitor_id@,
                ) == full,
                forall|k: int, j: int| 0 <= k < out@.len() && 0 <= j < i ==> out@[k].id > rs[j].id,
                forall|a: int, b: int| 0 <= a < b < out@.len() ==> out@[a].id > out@[b].id,
            decreases i,
        {
            let ghost prefix = rs.subrange(0, i as int);
            let ghost ov = view_results(out@);
            assert(prefix.drop_last() =~= rs.subrange(0, i - 1));
            assert(self.results@[i - 1]@ == rs[i - 1]);
            let r = &self.results[i - 1];
            if str_eq(r.monitor_id.as_str(), monitor_id) {
                let c = r.duplicate();
                let ghost oldout = out@;
                out.push(c);
                assert forall|k: int, j: int| 0 <= k < out@.len() && 0 <= j < i - 1 implies out@[k].id > rs[j].id by {
                    if k < oldout.len() {
                        assert(out@[k] == oldout[k]);
                    } else {
                        assert(out@[k]@ == rs[i - 1]);
                        assert(rs[j].id < rs[i - 1].id);
                    }
                }
                assert forall|a: int, b: int| 0 <= a < b < out@.len() implies out@[a].id > out@[b].id by {
                    assert(out@[a] == oldout[a]);
                    if b < oldout.len() {
                        assert(out@[b] == oldout[b]);
                    } else {
                        assert(out@[b]@ == rs[i - 1]);
                    }
                }
                assert(view_results(out@) =~= ov.push(rs[i - 1]));
                assert(ov.push(rs[i - 1]) + results_newest_first(rs.subrange(0, i - 1), monitor_id@)
                    =~= ov + (seq![rs[i - 1]] + results_newest_first(
                    rs.subrange(0, i - 1),
                    monitor_id@,
                )));
            }
            i = i - 1;
        }
        proof {
            let ov = view_results(out@);
            if i == 0 {
                assert(rs.subrange(0, 0) =~= Seq::<ResultView>::empty());
                assert(ov =~= full);
            } else {
                assert(full.len() >= RECENT_RESULTS_LIMIT);
                assert(full.take(RECENT_RESULTS_LIMIT as int) =~= ov);
            }
        }
        out
    }
}

} // verus!
