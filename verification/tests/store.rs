use jira_health_checker::database::{Database, DatabaseError};
use jira_health_checker::models::{JiraIssue, JiraIssueFields, JiraUser};

fn record(key: &str, summary: &str, parent: Option<&str>) -> JiraIssue {
    JiraIssue {
        key: key.to_string(),
        fields: JiraIssueFields {
            summary: summary.to_string(),
            epic_key: parent.map(|p| p.to_string()),
            time_estimate: None,
            time_spent: None,
            assignee: None,
        },
    }
}

fn record_full(
    key: &str,
    parent: &str,
    estimate: u64,
    spent: u64,
    assignee: Option<&str>,
) -> JiraIssue {
    JiraIssue {
        key: key.to_string(),
        fields: JiraIssueFields {
            summary: format!("summary of {}", key),
            epic_key: Some(parent.to_string()),
            time_estimate: Some(estimate),
            time_spent: Some(spent),
            assignee: assignee.map(|a| JiraUser { name: a.to_string(), email: String::new() }),
        },
    }
}

#[test]
fn upsert_overrides_previous_values() {
    let mut db = Database::new();
    let ts1 = "2024-01-01T00:00:00+00:00".to_string();
    let ts2 = "2024-02-02T00:00:00+00:00".to_string();
    db.insert_epic(&record("EPIC-1", "first summary", None), &ts1);
    db.insert_epic(&record("EPIC-1", "second summary", None), &ts2);
    let epics = db.get_epics();
    assert_eq!(epics.len(), 1);
    assert_eq!(epics[0].key, "EPIC-1");
    assert_eq!(epics[0].summary, "second summary");
}

#[test]
fn upsert_keeps_history_untouched() {
    let mut db = Database::new();
    let ts = "2024-01-01T00:00:00+00:00".to_string();
    db.insert_epic(&record("EPIC-1", "parent", None), &ts);
    db.insert_issue(&record("ISSUE-1", "child", Some("EPIC-1")), &ts).unwrap();
    db.insert_epic(&record("EPIC-1", "renamed parent", None), &ts);
    let history = db.get_logs_of_issue(&"ISSUE-1".to_string());
    assert_eq!(history.len(), 1);
    assert_eq!(history[0].epic_key, "EPIC-1");
}

#[test]
fn append_unknown_parent_fails() {
    let mut db = Database::new();
    let ts = "2024-01-01T00:00:00+00:00".to_string();
    let result = db.insert_issue(&record("ISSUE-1", "orphan", Some("PARENT-MISSING")), &ts);
    match result {
        Err(DatabaseError::Integrity(k)) => assert_eq!(k, "PARENT-MISSING"),
        _ => panic!("an unknown parent key must fail with an integrity error"),
    }
    assert_eq!(db.get_logs_of_issue(&"ISSUE-1".to_string()).len(), 0);
}

#[test]
fn append_without_parent_link_fails() {
    let mut db = Database::new();
    let ts = "2024-01-01T00:00:00+00:00".to_string();
    let result = db.insert_issue(&record("ISSUE-1", "no link", None), &ts);
    assert!(matches!(result, Err(DatabaseError::Integrity(_))));
}

#[test]
fn append_fills_documented_defaults() {
    let mut db = Database::new();
    let ts = "2024-01-01T00:00:00+00:00".to_string();
    db.insert_epic(&record("EPIC-1", "parent", None), &ts);
    db.insert_issue(&record("ISSUE-1", "bare child", Some("EPIC-1")), &ts).unwrap();
    let history = db.get_logs_of_issue(&"ISSUE-1".to_string());
    assert_eq!(history.len(), 1);
    assert_eq!(history[0].time_estimate, 0);
    assert_eq!(history[0].time_spent, 0);
    assert_eq!(history[0].assignee, "unassigned");
}

#[test]
fn latest_per_key_picks_max_timestamp() {
    let mut db = Database::new();
    let t1 = "2024-01-01T00:00:00+00:00".to_string();
    let t2 = "2024-01-02T00:00:00+00:00".to_string();
    let t3 = "2024-01-03T00:00:00+00:00".to_string();
    db.insert_epic(&record("EPIC-1", "parent", None), &t1);
    db.insert_issue(&record_full("ISSUE-1", "EPIC-1", 10, 1, None), &t2).unwrap();
    db.insert_issue(&record_full("ISSUE-1", "EPIC-1", 10, 5, None), &t3).unwrap();
    db.insert_issue(&record_full("ISSUE-1", "EPIC-1", 10, 3, None), &t1).unwrap();
    db.insert_issue(&record_full("ISSUE-2", "EPIC-1", 7, 2, None), &t1).unwrap();
    let latest = db.get_all_latest_issue_logs();
    assert_eq!(latest.len(), 2);
    assert_eq!(latest[0].key, "ISSUE-1");
    assert_eq!(latest[0].updated_at, t3);
    assert_eq!(latest[0].time_spent, 5);
    assert_eq!(latest[1].key, "ISSUE-2");
    assert_eq!(latest[1].updated_at, t1);
}

#[test]
fn epics_come_back_sorted_by_key() {
    let mut db = Database::new();
    let ts = "2024-01-01T00:00:00+00:00".to_string();
    db.insert_epic(&record("EPIC-C", "third", None), &ts);
    db.insert_epic(&record("EPIC-A", "first", None), &ts);
    db.insert_epic(&record("EPIC-B", "second", None), &ts);
    let epics = db.get_epics();
    assert_eq!(epics.len(), 3);
    assert_eq!(epics[0].key, "EPIC-A");
    assert_eq!(epics[1].key, "EPIC-B");
    assert_eq!(epics[2].key, "EPIC-C");
}

#[test]
fn history_keeps_insertion_order_per_key() {
    let mut db = Database::new();
    let t1 = "2024-01-01T00:00:00+00:00".to_string();
    let t2 = "2024-01-02T00:00:00+00:00".to_string();
    db.insert_epic(&record("EPIC-1", "parent", None), &t1);
    db.insert_issue(&record_full("ISSUE-1", "EPIC-1", 10, 1, Some("alex")), &t2).unwrap();
    db.insert_issue(&record_full("ISSUE-2", "EPIC-1", 4, 4, None), &t1).unwrap();
    db.insert_issue(&record_full("ISSUE-1", "EPIC-1", 10, 2, Some("alex")), &t1).unwrap();
    let history = db.get_logs_of_issue(&"ISSUE-1".to_string());
    assert_eq!(history.len(), 2);
    assert_eq!(history[0].updated_at, t2);
    assert_eq!(history[1].updated_at, t1);
    assert_eq!(history[0].assignee, "alex");
}

#[test]
fn saved_rows_restore_to_the_same_store() {
    let mut db = Database::new();
    let t1 = "2024-01-01T00:00:00+00:00".to_string();
    let t2 = "2024-01-02T00:00:00+00:00".to_string();
    db.insert_epic(&record("EPIC-1", "parent", None), &t1);
    db.insert_issue(&record_full("ISSUE-1", "EPIC-1", 10, 1, Some("alex")), &t1).unwrap();
    db.insert_issue(&record_full("ISSUE-1", "EPIC-1", 10, 5, None), &t2).unwrap();

    let restored = Database::restore(db.all_epic_rows(), db.all_issue_logs()).unwrap();
    let epics = restored.get_epics();
    assert_eq!(epics.len(), 1);
    assert_eq!(epics[0].key, "EPIC-1");
    let history = restored.get_logs_of_issue(&"ISSUE-1".to_string());
    assert_eq!(history.len(), 2);
    assert_eq!(history[0].updated_at, t1);
    assert_eq!(history[1].updated_at, t2);
    assert_eq!(history[1].time_spent, 5);
}

#[test]
fn restore_rejects_duplicate_parent_key() {
    let mut db = Database::new();
    let ts = "2024-01-01T00:00:00+00:00".to_string();
    db.insert_epic(&record("EPIC-1", "parent", None), &ts);
    let mut epics = db.all_epic_rows();
    let copy = jira_health_checker::database::EpicRow {
        key: "EPIC-1".to_string(),
        summary: "other".to_string(),
        updated_at: ts,
    };
    epics.push(copy);
    match Database::restore(epics, Vec::new()) {
        Err(DatabaseError::Integrity(k)) => assert_eq!(k, "EPIC-1"),
        _ => panic!("a duplicate parent key must fail the restore"),
    }
}

#[test]
fn restore_rejects_orphan_snapshot() {
    let mut db = Database::new();
    let ts = "2024-01-01T00:00:00+00:00".to_string();
    db.insert_epic(&record("EPIC-1", "parent", None), &ts);
    db.insert_issue(&record_full("ISSUE-1", "EPIC-1", 1, 1, None), &ts).unwrap();
    let mut issues = db.all_issue_logs();
    issues[0].epic_key = "EPIC-MISSING".to_string();
    match Database::restore(db.all_epic_rows(), issues) {
        Err(DatabaseError::Integrity(k)) => assert_eq!(k, "EPIC-MISSING"),
        _ => panic!("an orphan snapshot must fail the restore"),
    }
}
