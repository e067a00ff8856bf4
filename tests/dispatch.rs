use std::cell::RefCell;

use chrono::{Duration, Utc};
use uptui::alert::{
    dispatch_pending_alerts, dispatch_pending_alerts_at, plan_delivery, settle_delivery, SendError, Sender, Target,
};
use uptui::storage::Db;

#[derive(Default)]
struct MockSender {
    sent_messages: RefCell<Vec<(String, String)>>,
    send_to_messages: RefCell<Vec<(String, String)>>,
    should_fail: RefCell<bool>,
    failing_recipients: RefCell<Vec<String>>,
}

impl MockSender {
    fn new() -> Self {
        Self::default()
    }

    fn set_should_fail(&self, fail: bool) {
        *self.should_fail.borrow_mut() = fail;
    }

    fn fail_recipient(&self, to: &str) {
        self.failing_recipients.borrow_mut().push(to.to_string());
    }

    fn get_sent_messages(&self) -> Vec<(String, String)> {
        self.sent_messages.borrow().clone()
    }

    fn get_send_to_messages(&self) -> Vec<(String, String)> {
        self.send_to_messages.borrow().clone()
    }
}

impl Sender for MockSender {
    fn send(&mut self, monitor_id: &str, message: &str) -> Result<(), SendError> {
        if *self.should_fail.borrow() {
            return Err(SendError { reason: "Mock send failure".to_string() });
        }
        self.sent_messages.borrow_mut().push((monitor_id.to_string(), message.to_string()));
        Ok(())
    }

    fn send_to(&mut self, to: &str, message: &str) -> Result<(), SendError> {
        if *self.should_fail.borrow() || self.failing_recipients.borrow().iter().any(|r| r == to) {
            return Err(SendError { reason: "Mock send_to failure".to_string() });
        }
        self.send_to_messages.borrow_mut().push((to.to_string(), message.to_string()));
        Ok(())
    }
}

/// A sender with one delivery path: `send_to` forwards to `send`.
struct PlainSender {
    sent: RefCell<Vec<(String, String)>>,
}

impl Sender for PlainSender {
    fn send(&mut self, monitor_id: &str, message: &str) -> Result<(), SendError> {
        self.sent.borrow_mut().push((monitor_id.to_string(), message.to_string()));
        Ok(())
    }

    fn send_to(&mut self, to: &str, message: &str) -> Result<(), SendError> {
        self.send(to, message)
    }
}

fn create_test_db_with_alerts() -> Db {
    let mut db = Db::new();
    db.insert_monitor("test-monitor", "Test Monitor", "http://example.com");
    db
}

#[test]
fn test_dispatch_no_alerts() {
    let mut db = create_test_db_with_alerts();
    let mut sender = MockSender::new();
    let dispatched = dispatch_pending_alerts(&mut sender, &mut db, None);
    assert_eq!(dispatched, 0);
    assert_eq!(sender.get_sent_messages().len(), 0);
}

#[test]
fn test_dispatch_single_alert() {
    let mut db = create_test_db_with_alerts();
    let mut sender = MockSender::new();
    db.insert_alert("test-monitor", "Test alert message", Utc::now().timestamp())
        .expect("Failed to insert alert");
    let dispatched = dispatch_pending_alerts(&mut sender, &mut db, None);
    assert_eq!(dispatched, 1);
    let sent_messages = sender.get_sent_messages();
    assert_eq!(sent_messages.len(), 1);
    assert_eq!(sent_messages[0].0, "test-monitor");
    assert_eq!(sent_messages[0].1, "Test alert message");
    let alerts = db.fetch_alerts(Some("test-monitor"));
    assert_eq!(alerts.len(), 1);
    assert_eq!(alerts[0].sent, true);
}

#[test]
fn test_dispatch_with_recipients() {
    let mut db = create_test_db_with_alerts();
    let mut sender = MockSender::new();
    db.set_monitor_recipients("test-monitor", Some("admin@example.com,user@example.com"));
    db.insert_alert("test-monitor", "Test alert message", Utc::now().timestamp())
        .expect("Failed to insert alert");
    let dispatched = dispatch_pending_alerts(&mut sender, &mut db, None);
    assert_eq!(dispatched, 1);
    let sent_messages = sender.get_sent_messages();
    let send_to_messages = sender.get_send_to_messages();
    assert_eq!(sent_messages.len(), 0);
    assert_eq!(send_to_messages.len(), 2);
    let recipients: Vec<String> = send_to_messages.iter().map(|(to, _)| to.clone()).collect();
    assert!(recipients.contains(&"admin@example.com".to_string()));
    assert!(recipients.contains(&"user@example.com".to_string()));
}

#[test]
fn recipients_are_trimmed_and_blank_entries_skipped() {
    let mut db = create_test_db_with_alerts();
    let mut sender = MockSender::new();
    db.set_monitor_recipients("test-monitor", Some(" a@x.com , ,b@x.com,"));
    db.insert_alert("test-monitor", "down", 1).unwrap();
    assert_eq!(dispatch_pending_alerts_at(&mut sender, &mut db, None, 2), 1);
    let to: Vec<String> = sender.get_send_to_messages().into_iter().map(|(t, _)| t).collect();
    assert_eq!(to, vec!["a@x.com", "b@x.com"]);
    assert!(sender.get_sent_messages().is_empty());
}

#[test]
fn monitor_without_recipients_gets_one_monitor_addressed_send() {
    let mut db = create_test_db_with_alerts();
    let mut sender = MockSender::new();
    db.insert_alert("test-monitor", "down", 1).unwrap();
    assert_eq!(dispatch_pending_alerts_at(&mut sender, &mut db, None, 2), 1);
    assert_eq!(sender.get_sent_messages(), vec![("test-monitor".to_string(), "down".to_string())]);
    assert!(sender.get_send_to_messages().is_empty());
}

#[test]
fn unknown_monitor_falls_back_to_monitor_addressed_send() {
    let mut db = Db::new();
    let mut sender = MockSender::new();
    db.insert_alert("gone", "down", 1).unwrap();
    assert_eq!(dispatch_pending_alerts_at(&mut sender, &mut db, None, 2), 1);
    assert_eq!(sender.get_sent_messages(), vec![("gone".to_string(), "down".to_string())]);
}

#[test]
fn partial_recipient_failure_still_marks_sent() {
    let mut db = create_test_db_with_alerts();
    let mut sender = MockSender::new();
    sender.fail_recipient("a@x.com");
    db.set_monitor_recipients("test-monitor", Some("a@x.com,b@x.com"));
    db.insert_alert("test-monitor", "down", 1).unwrap();
    assert_eq!(dispatch_pending_alerts_at(&mut sender, &mut db, None, 7), 1);
    let alerts = db.fetch_alerts(None);
    assert!(alerts[0].sent);
    assert_eq!(alerts[0].sent_at, Some(7));
    assert_eq!(sender.get_send_to_messages(), vec![("b@x.com".to_string(), "down".to_string())]);
}

#[test]
fn all_recipients_failing_leaves_alert_unsent() {
    let mut db = create_test_db_with_alerts();
    let mut sender = MockSender::new();
    sender.fail_recipient("a@x.com");
    sender.fail_recipient("b@x.com");
    db.set_monitor_recipients("test-monitor", Some("a@x.com,b@x.com"));
    db.insert_alert("test-monitor", "down", 1).unwrap();
    assert_eq!(dispatch_pending_alerts_at(&mut sender, &mut db, None, 7), 0);
    assert!(!db.fetch_alerts(None)[0].sent);
    assert!(sender.get_sent_messages().is_empty());
}

#[test]
fn forwarding_send_to_goes_through_send_with_the_address() {
    let mut db = create_test_db_with_alerts();
    let mut sender = PlainSender { sent: RefCell::new(Vec::new()) };
    db.set_monitor_recipients("test-monitor", Some("a@x.com"));
    db.insert_alert("test-monitor", "down", 1).unwrap();
    assert_eq!(dispatch_pending_alerts_at(&mut sender, &mut db, None, 2), 1);
    assert_eq!(*sender.sent.borrow(), vec![("a@x.com".to_string(), "down".to_string())]);
}

#[test]
fn test_dispatch_rate_limiting() {
    let mut db = create_test_db_with_alerts();
    let mut sender = MockSender::new();
    let now = Utc::now();
    let recent_time = (now - Duration::seconds(30)).timestamp();
    let alert1_id = db.insert_alert("test-monitor", "First alert", recent_time)
        .expect("Failed to insert first alert");
    db.mark_alert_sent(alert1_id, recent_time);
    db.insert_alert("test-monitor", "Second alert", now.timestamp())
        .expect("Failed to insert second alert");
    let dispatched = dispatch_pending_alerts(&mut sender, &mut db, Some(60));
    assert_eq!(dispatched, 0);
    assert_eq!(sender.get_sent_messages().len(), 0);
    let dispatched = dispatch_pending_alerts(&mut sender, &mut db, Some(10));
    assert_eq!(dispatched, 1);
    assert_eq!(sender.get_sent_messages().len(), 1);
}

#[test]
fn rate_limit_window_is_exclusive_at_its_end() {
    let mut db = create_test_db_with_alerts();
    let mut sender = MockSender::new();
    let first = db.insert_alert("test-monitor", "first", 100).unwrap();
    db.mark_alert_sent(first, 100);
    db.insert_alert("test-monitor", "second", 120).unwrap();
    assert_eq!(dispatch_pending_alerts_at(&mut sender, &mut db, Some(60), 159), 0);
    assert_eq!(dispatch_pending_alerts_at(&mut sender, &mut db, Some(60), 160), 1);
}

#[test]
fn test_dispatch_skips_already_sent() {
    let mut db = create_test_db_with_alerts();
    let mut sender = MockSender::new();
    let alert_id = db.insert_alert("test-monitor", "Already sent alert", Utc::now().timestamp())
        .expect("Failed to insert alert");
    db.mark_alert_sent(alert_id, Utc::now().timestamp());
    let dispatched = dispatch_pending_alerts(&mut sender, &mut db, None);
    assert_eq!(dispatched, 0);
    assert_eq!(sender.get_sent_messages().len(), 0);
}

#[test]
fn test_dispatch_handles_send_failure() {
    let mut db = create_test_db_with_alerts();
    let mut sender = MockSender::new();
    sender.set_should_fail(true);
    db.insert_alert("test-monitor", "Test alert message", Utc::now().timestamp())
        .expect("Failed to insert alert");
    let dispatched = dispatch_pending_alerts(&mut sender, &mut db, None);
    assert_eq!(dispatched, 0);
    let alerts = db.fetch_alerts(Some("test-monitor"));
    assert_eq!(alerts.len(), 1);
    assert_eq!(alerts[0].sent, false);
}

#[test]
fn test_dispatch_multiple_alerts_oldest_first() {
    let mut db = create_test_db_with_alerts();
    let mut sender = MockSender::new();
    let base_time = Utc::now();
    db.insert_alert("test-monitor", "First alert", base_time.timestamp())
        .expect("Failed to insert first alert");
    db.insert_alert("test-monitor", "Second alert", (base_time + Duration::minutes(1)).timestamp())
        .expect("Failed to insert second alert");
    db.insert_alert("test-monitor", "Third alert", (base_time + Duration::minutes(2)).timestamp())
        .expect("Failed to insert third alert");
    let dispatched = dispatch_pending_alerts(&mut sender, &mut db, None);
    assert_eq!(dispatched, 3);
    let sent_messages = sender.get_sent_messages();
    assert_eq!(sent_messages.len(), 3);
    assert_eq!(sent_messages[0].1, "First alert");
    assert_eq!(sent_messages[1].1, "Second alert");
    assert_eq!(sent_messages[2].1, "Third alert");
}

#[test]
fn dispatch_respects_rate_limit() {
    let mut db = Db::new();
    db.insert_monitor("m1", "m1", "http://localhost");
    let now = Utc::now().timestamp();
    let _a1 = db.insert_alert("m1", "first", now).expect("insert alert");
    let _a2 = db.insert_alert("m1", "second", now).expect("insert alert");
    let mut sender = MockSender::new();
    let d = dispatch_pending_alerts(&mut sender, &mut db, Some(3600));
    assert_eq!(d, 1);
    let d2 = dispatch_pending_alerts(&mut sender, &mut db, Some(3600));
    assert_eq!(d2, 0);
    let d3 = dispatch_pending_alerts(&mut sender, &mut db, None);
    assert!(d3 >= 1);
}

#[test]
fn plan_goes_to_each_recipient_or_to_the_monitor() {
    let mut db = create_test_db_with_alerts();
    db.insert_monitor("quiet", "quiet", "http://q");
    db.set_monitor_recipients("test-monitor", Some("a@x.com,b@x.com"));
    db.insert_alert("test-monitor", "one", 1).unwrap();
    db.insert_alert("quiet", "two", 1).unwrap();
    let alerts = db.fetch_alerts(None);
    let quiet = &alerts[0];
    let loud = &alerts[1];
    assert_eq!(
        plan_delivery(&db, loud, None, 5),
        vec![Target::Recipient("a@x.com".to_string()), Target::Recipient("b@x.com".to_string())]
    );
    assert_eq!(plan_delivery(&db, quiet, None, 5), vec![Target::Monitor("quiet".to_string())]);
}

#[test]
fn plan_is_empty_for_sent_or_rate_limited_alerts() {
    let mut db = create_test_db_with_alerts();
    let first = db.insert_alert("test-monitor", "first", 100).unwrap();
    db.mark_alert_sent(first, 100);
    db.insert_alert("test-monitor", "second", 110).unwrap();
    let alerts = db.fetch_alerts(None);
    assert!(plan_delivery(&db, &alerts[1], None, 120).is_empty());
    assert!(plan_delivery(&db, &alerts[0], Some(60), 120).is_empty());
    assert_eq!(plan_delivery(&db, &alerts[0], Some(10), 120).len(), 1);
}

#[test]
fn settle_marks_sent_only_when_a_delivery_succeeded() {
    let mut db = create_test_db_with_alerts();
    let id = db.insert_alert("test-monitor", "x", 1).unwrap();
    assert!(!settle_delivery(&mut db, id, &vec![false, false], 5));
    assert!(!settle_delivery(&mut db, id, &vec![], 5));
    assert!(!db.fetch_alerts(None)[0].sent);
    assert!(settle_delivery(&mut db, id, &vec![false, true], 6));
    let a = &db.fetch_alerts(None)[0];
    assert!(a.sent);
    assert_eq!(a.sent_at, Some(6));
}
