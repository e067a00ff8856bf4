use chrono::{Duration, TimeZone, Utc};
use uptui::storage::{Alert, CheckResult, Db, MonitorRecord, StorageError};

fn create_test_db() -> Db {
    Db::new()
}

#[test]
fn test_db_initialization() {
    let db = create_test_db();
    assert!(db.list_monitors().is_empty());
    assert!(db.fetch_alerts(None).is_empty());
}

#[test]
fn test_insert_and_get_monitor() {
    let mut db = create_test_db();
    db.insert_monitor("test-1", "Test Monitor", "http://example.com");
    let monitor = db.get_monitor("test-1").expect("Monitor not found");
    assert_eq!(monitor.id, "test-1");
    assert_eq!(monitor.name, "Test Monitor");
    assert_eq!(monitor.target, "http://example.com");
    assert_eq!(monitor.recipients, None);
}

#[test]
fn test_get_nonexistent_monitor() {
    let db = create_test_db();
    let monitor = db.get_monitor("nonexistent");
    assert!(monitor.is_none());
}

#[test]
fn test_list_monitors() {
    let mut db = create_test_db();
    db.insert_monitor("test-1", "Test Monitor 1", "http://example1.com");
    db.insert_monitor("test-2", "Test Monitor 2", "http://example2.com");
    let monitors = db.list_monitors();
    assert_eq!(monitors.len(), 2);
    assert_eq!(monitors[0].id, "test-1");
    assert_eq!(monitors[1].id, "test-2");
}

#[test]
fn list_monitors_sorts_by_id_whatever_the_insertion_order() {
    let mut db = create_test_db();
    for id in ["b", "ab", "a", "B", "b-2"] {
        db.insert_monitor(id, id, "http://x");
    }
    let ids: Vec<String> = db.list_monitors().into_iter().map(|m| m.id).collect();
    assert_eq!(ids, vec!["B", "a", "ab", "b", "b-2"]);
}

#[test]
fn test_update_monitor_preserves_recipients() {
    let mut db = create_test_db();
    db.insert_monitor("test-1", "Test Monitor", "http://example.com");
    db.set_monitor_recipients("test-1", Some("admin@example.com"));
    db.insert_monitor("test-1", "Updated Monitor", "http://updated.com");
    let monitor = db.get_monitor("test-1").expect("Monitor not found");
    assert_eq!(monitor.name, "Updated Monitor");
    assert_eq!(monitor.target, "http://updated.com");
    assert_eq!(monitor.recipients, Some("admin@example.com".to_string()));
}

#[test]
fn two_updates_keep_recipients_and_one_entry() {
    let mut db = create_test_db();
    db.insert_monitor("m", "one", "http://one");
    db.set_monitor_recipients("m", Some("a@x.com,b@x.com"));
    db.insert_monitor("m", "two", "http://two");
    db.insert_monitor("m", "three", "http://three");
    let all = db.list_monitors();
    assert_eq!(all.len(), 1);
    assert_eq!(all[0].name, "three");
    assert_eq!(all[0].target, "http://three");
    assert_eq!(all[0].recipients, Some("a@x.com,b@x.com".to_string()));
}

#[test]
fn test_set_monitor_recipients() {
    let mut db = create_test_db();
    db.insert_monitor("test-1", "Test Monitor", "http://example.com");
    db.set_monitor_recipients("test-1", Some("admin@example.com,user@example.com"));
    let monitor = db.get_monitor("test-1").expect("Monitor not found");
    assert_eq!(monitor.recipients, Some("admin@example.com,user@example.com".to_string()));
    db.set_monitor_recipients("test-1", None);
    let monitor = db.get_monitor("test-1").expect("Monitor not found");
    assert_eq!(monitor.recipients, None);
}

#[test]
fn set_recipients_on_unknown_monitor_changes_nothing() {
    let mut db = create_test_db();
    db.set_monitor_recipients("ghost", Some("a@x.com"));
    assert!(db.get_monitor("ghost").is_none());
    assert!(db.list_monitors().is_empty());
}

#[test]
fn test_delete_monitor() {
    let mut db = create_test_db();
    db.insert_monitor("test-1", "Test Monitor", "http://example.com");
    assert!(db.get_monitor("test-1").is_some());
    let deleted_count = db.delete_monitor("test-1");
    assert_eq!(deleted_count, 1);
    assert!(db.get_monitor("test-1").is_none());
    let deleted_count = db.delete_monitor("nonexistent");
    assert_eq!(deleted_count, 0);
}

#[test]
fn delete_monitor_keeps_its_results_and_alerts() {
    let mut db = create_test_db();
    db.insert_monitor("m", "m", "http://m");
    db.insert_result("m", false, Some(500), 10).unwrap();
    db.insert_alert("m", "down", 10).unwrap();
    assert_eq!(db.delete_monitor("m"), 1);
    assert_eq!(db.recent_results("m").len(), 1);
    assert_eq!(db.fetch_alerts(Some("m")).len(), 1);
}

#[test]
fn test_insert_result() {
    let mut db = create_test_db();
    let timestamp = Utc::now().timestamp();
    let result_id = db
        .insert_result("test-monitor", true, Some(200), timestamp)
        .expect("Failed to insert result");
    assert!(result_id > 0);
    let results = db.recent_results("test-monitor");
    assert_eq!(results.len(), 1);
    assert_eq!(results[0].monitor_id, "test-monitor");
    assert_eq!(results[0].success, true);
    assert_eq!(results[0].status_code, Some(200));
}

#[test]
fn test_recent_results_limit() {
    let mut db = create_test_db();
    let base_time = Utc.with_ymd_and_hms(2023, 1, 1, 0, 0, 0).unwrap();
    for i in 0..150 {
        let timestamp = (base_time + Duration::minutes(i)).timestamp();
        db.insert_result("test-monitor", i % 2 == 0, Some(200), timestamp)
            .expect("Failed to insert result");
    }
    let results = db.recent_results("test-monitor");
    assert_eq!(results.len(), 100);
    assert!(results[0].id > results[1].id);
}

#[test]
fn recent_results_are_the_newest_in_strictly_descending_id_order() {
    let mut db = create_test_db();
    for i in 0..130i64 {
        db.insert_result("a", true, Some(200), i).unwrap();
        db.insert_result("b", false, None, i).unwrap();
    }
    let results = db.recent_results("a");
    assert_eq!(results.len(), 100);
    assert!(results.iter().all(|r| r.monitor_id == "a"));
    for w in results.windows(2) {
        assert!(w[0].id > w[1].id);
    }
    assert_eq!(results[0].timestamp, 129);
    assert_eq!(results[99].timestamp, 30);
    assert!(db.recent_results("c").is_empty());
}

#[test]
fn result_ids_increase_by_one() {
    let mut db = create_test_db();
    assert_eq!(db.insert_result("a", true, Some(200), 1), Ok(1));
    assert_eq!(db.insert_result("b", true, Some(200), 1), Ok(2));
    assert_eq!(db.insert_alert("a", "x", 1), Ok(1));
    assert_eq!(db.next_ids(), (3, 2));
}

#[test]
fn test_insert_and_fetch_alerts() {
    let mut db = create_test_db();
    let timestamp = Utc::now().timestamp();
    let alert_id = db
        .insert_alert("test-monitor", "Test alert message", timestamp)
        .expect("Failed to insert alert");
    assert!(alert_id > 0);
    let alerts = db.fetch_alerts(Some("test-monitor"));
    assert_eq!(alerts.len(), 1);
    assert_eq!(alerts[0].monitor_id, "test-monitor");
    assert_eq!(alerts[0].message, "Test alert message");
    assert_eq!(alerts[0].sent, false);
    assert_eq!(alerts[0].sent_at, None);
    let all_alerts = db.fetch_alerts(None);
    assert_eq!(all_alerts.len(), 1);
}

#[test]
fn fetch_alerts_is_newest_first_and_filters() {
    let mut db = create_test_db();
    db.insert_alert("a", "1", 1).unwrap();
    db.insert_alert("b", "2", 2).unwrap();
    db.insert_alert("a", "3", 3).unwrap();
    let all: Vec<String> = db.fetch_alerts(None).into_iter().map(|a| a.message).collect();
    assert_eq!(all, vec!["3", "2", "1"]);
    let of_a: Vec<String> = db.fetch_alerts(Some("a")).into_iter().map(|a| a.message).collect();
    assert_eq!(of_a, vec!["3", "1"]);
}

#[test]
fn test_mark_alert_sent() {
    let mut db = create_test_db();
    let created_at = Utc::now();
    let sent_at = created_at + Duration::minutes(5);
    let alert_id = db
        .insert_alert("test-monitor", "Test alert", created_at.timestamp())
        .expect("Failed to insert alert");
    db.mark_alert_sent(alert_id, sent_at.timestamp());
    let alerts = db.fetch_alerts(Some("test-monitor"));
    assert_eq!(alerts.len(), 1);
    assert_eq!(alerts[0].sent, true);
    assert!(alerts[0].sent_at.is_some());
}

#[test]
fn mark_alert_sent_twice_keeps_one_sent_alert() {
    let mut db = create_test_db();
    let id = db.insert_alert("m", "x", 1).unwrap();
    db.mark_alert_sent(id, 5);
    db.mark_alert_sent(id, 5);
    let alerts = db.fetch_alerts(None);
    assert_eq!(alerts.len(), 1);
    assert_eq!(alerts[0].sent_at, Some(5));
}

#[test]
fn test_get_last_sent_time() {
    let mut db = create_test_db();
    let base_time = Utc.with_ymd_and_hms(2023, 1, 1, 12, 0, 0).unwrap();
    let last_sent = db.get_last_sent_time("test-monitor");
    assert!(last_sent.is_none());
    let alert1_id = db
        .insert_alert("test-monitor", "Alert 1", base_time.timestamp())
        .expect("Failed to insert alert 1");
    let alert2_id = db
        .insert_alert("test-monitor", "Alert 2", (base_time + Duration::minutes(10)).timestamp())
        .expect("Failed to insert alert 2");
    db.mark_alert_sent(alert1_id, (base_time + Duration::minutes(5)).timestamp());
    db.mark_alert_sent(alert2_id, (base_time + Duration::minutes(15)).timestamp());
    let last_sent = db.get_last_sent_time("test-monitor").expect("Expected last sent time");
    let expected = (base_time + Duration::minutes(15)).timestamp();
    assert!((last_sent - expected).abs() < 1);
}

#[test]
fn last_sent_time_takes_the_latest_and_ignores_unsent() {
    let mut db = create_test_db();
    let a = db.insert_alert("m", "a", 1).unwrap();
    let b = db.insert_alert("m", "b", 2).unwrap();
    db.insert_alert("m", "c", 3).unwrap();
    db.insert_alert("other", "d", 3).unwrap();
    db.mark_alert_sent(b, 50);
    db.mark_alert_sent(a, 40);
    assert_eq!(db.get_last_sent_time("m"), Some(50));
    assert_eq!(db.get_last_sent_time("other"), None);
}

#[test]
fn test_rotate_old_results() {
    let mut db = create_test_db();
    let now = Utc::now();
    let old_time = (now - Duration::days(40)).timestamp();
    let recent_time = (now - Duration::days(10)).timestamp();
    db.insert_result("test-monitor", true, Some(200), old_time)
        .expect("Failed to insert old result");
    db.insert_result("test-monitor", true, Some(200), recent_time)
        .expect("Failed to insert recent result");
    let deleted_count = db.rotate(30);
    assert_eq!(deleted_count, 1);
    let remaining_results = db.recent_results("test-monitor");
    assert_eq!(remaining_results.len(), 1);
    assert!((remaining_results[0].timestamp - recent_time).abs() < 1);
}

#[test]
fn test_rotate_no_old_results() {
    let mut db = create_test_db();
    let now = Utc::now();
    let recent_time = (now - Duration::days(10)).timestamp();
    db.insert_result("test-monitor", true, Some(200), recent_time)
        .expect("Failed to insert recent result");
    let deleted_count = db.rotate(30);
    assert_eq!(deleted_count, 0);
    let remaining_results = db.recent_results("test-monitor");
    assert_eq!(remaining_results.len(), 1);
}

#[test]
fn rotate_at_keeps_a_result_exactly_at_the_cutoff() {
    let mut db = create_test_db();
    let now = 1_000_000i64;
    let cutoff = now - 30 * 86400;
    db.insert_result("m", true, Some(200), cutoff - 1).unwrap();
    db.insert_result("m", true, Some(200), cutoff).unwrap();
    db.insert_alert("m", "kept", cutoff - 1).unwrap();
    assert_eq!(db.rotate_at(30, now), 1);
    let left = db.all_results();
    assert_eq!(left.len(), 1);
    assert_eq!(left[0].timestamp, cutoff);
    assert_eq!(db.fetch_alerts(None).len(), 1);
}

#[test]
fn exhausted_ids_are_refused_and_change_nothing() {
    let mut db = Db::from_parts(Vec::new(), Vec::new(), Vec::new(), i64::MAX, i64::MAX).expect("valid");
    assert_eq!(db.insert_result("m", true, Some(200), 1), Err(StorageError::IdsExhausted));
    assert_eq!(db.insert_alert("m", "x", 1), Err(StorageError::IdsExhausted));
    assert!(db.all_results().is_empty());
    assert!(db.fetch_alerts(None).is_empty());
}

fn monitor(id: &str) -> MonitorRecord {
    MonitorRecord { id: id.to_string(), name: id.to_string(), target: "http://t".to_string(), recipients: None }
}

fn result(id: i64) -> CheckResult {
    CheckResult { id, monitor_id: "m".to_string(), success: true, status_code: Some(200), timestamp: 0 }
}

fn alert(id: i64, sent: bool, sent_at: Option<i64>) -> Alert {
    Alert { id, monitor_id: "m".to_string(), message: "x".to_string(), created_at: 0, sent, sent_at }
}

#[test]
fn from_parts_accepts_valid_contents_and_keeps_them() {
    let db = Db::from_parts(
        vec![monitor("a"), monitor("b")],
        vec![result(1), result(4)],
        vec![alert(2, true, Some(9)), alert(3, false, None)],
        5,
        4,
    )
    .expect("valid contents");
    assert_eq!(db.list_monitors().len(), 2);
    assert_eq!(db.all_results().iter().map(|r| r.id).collect::<Vec<_>>(), vec![1, 4]);
    assert_eq!(db.next_ids(), (5, 4));
    assert_eq!(db.get_last_sent_time("m"), Some(9));
}

#[test]
fn from_parts_rejects_broken_contents() {
    assert!(Db::from_parts(vec![monitor("b"), monitor("a")], vec![], vec![], 1, 1).is_none());
    assert!(Db::from_parts(vec![monitor("a"), monitor("a")], vec![], vec![], 1, 1).is_none());
    assert!(Db::from_parts(vec![], vec![result(2), result(2)], vec![], 5, 1).is_none());
    assert!(Db::from_parts(vec![], vec![result(5)], vec![], 5, 1).is_none());
    assert!(Db::from_parts(vec![], vec![], vec![alert(1, true, None)], 1, 2).is_none());
    assert!(Db::from_parts(vec![], vec![], vec![alert(1, false, Some(3))], 1, 2).is_none());
    assert!(Db::from_parts(vec![], vec![], vec![], 0, 1).is_none());
}
