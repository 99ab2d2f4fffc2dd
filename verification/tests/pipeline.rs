use jira_health_checker::collector::{collect_data, epics_csv};
use jira_health_checker::database::Database;
use jira_health_checker::models::{IssueListResponse, JiraIssue, JiraIssueFields};
use jira_health_checker::pagination::accumulate_page;
use jira_health_checker::time_graph::render_issue_time_graph;

fn record(key: &str, parent: Option<&str>, estimate: u64, spent: u64) -> JiraIssue {
    JiraIssue {
        key: key.to_string(),
        fields: JiraIssueFields {
            summary: format!("summary of {}", key),
            epic_key: parent.map(|p| p.to_string()),
            time_estimate: Some(estimate),
            time_spent: Some(spent),
            assignee: None,
        },
    }
}

fn page(total: u64, start_at: u64, keys: &[&str]) -> IssueListResponse {
    IssueListResponse {
        expand: String::new(),
        start_at,
        max_results: 2,
        total,
        issues: keys.iter().map(|k| record(k, Some("EPIC-1"), 1, 1)).collect(),
    }
}

#[test]
fn pagination_zero_total_single_request() {
    let mut collected: Vec<JiraIssue> = Vec::new();
    let next = accumulate_page(&mut collected, page(0, 0, &[]));
    assert!(next.is_none());
    assert!(collected.is_empty());
}

#[test]
fn pagination_collects_all_pages() {
    let mut collected: Vec<JiraIssue> = Vec::new();
    let mut requests = 1u64;
    let pages = vec![
        page(5, 0, &["A", "B"]),
        page(5, 2, &["C", "D"]),
        page(5, 4, &["E"]),
    ];
    let mut offsets = Vec::new();
    let mut it = pages.into_iter();
    loop {
        let p = it.next().expect("the client must stop at the reported total");
        match accumulate_page(&mut collected, p) {
            Some(off) => {
                offsets.push(off);
                requests += 1;
            }
            None => break,
        }
    }
    assert_eq!(requests, 3);
    assert_eq!(offsets, vec![2, 4]);
    assert_eq!(collected.len(), 5);
    let keys: Vec<&str> = collected.iter().map(|i| i.key.as_str()).collect();
    assert_eq!(keys, vec!["A", "B", "C", "D", "E"]);
}

#[test]
fn epics_csv_joins_keys() {
    let none: Vec<JiraIssue> = Vec::new();
    assert_eq!(epics_csv(&none), "");
    let one = vec![record("EPIC-1", None, 0, 0)];
    assert_eq!(epics_csv(&one), "EPIC-1");
    let three = vec![
        record("EPIC-1", None, 0, 0),
        record("EPIC-2", None, 0, 0),
        record("EPIC-3", None, 0, 0),
    ];
    assert_eq!(epics_csv(&three), "EPIC-1,EPIC-2,EPIC-3");
}

#[test]
fn full_cycle_then_render() {
    let mut db = Database::new();
    let now = "2024-03-01T12:00:00+00:00".to_string();
    let epics = vec![record("EPIC-1", None, 0, 0)];
    let issues = vec![
        record("ISSUE-9", Some("EPIC-1"), 10, 2),
        record("ISSUE-9", Some("EPIC-1"), 10, 4),
    ];
    collect_data(&mut db, &epics, &issues, &now).unwrap();
    let history = db.get_logs_of_issue(&"ISSUE-9".to_string());
    assert_eq!(history.len(), 2);
    assert_eq!(history[0].time_spent, 2);
    assert_eq!(history[1].time_spent, 4);
    let markup = render_issue_time_graph(&history).unwrap();
    assert!(markup.contains("<svg"));
    assert!(markup.contains("<path"));
}

#[test]
fn cycle_aborts_on_unresolvable_parent() {
    let mut db = Database::new();
    let now = "2024-03-01T12:00:00+00:00".to_string();
    let epics = vec![record("EPIC-1", None, 0, 0)];
    let issues = vec![
        record("ISSUE-1", Some("EPIC-1"), 1, 1),
        record("ISSUE-2", Some("EPIC-MISSING"), 1, 1),
        record("ISSUE-3", Some("EPIC-1"), 1, 1),
    ];
    let result = collect_data(&mut db, &epics, &issues, &now);
    assert!(result.is_err());
    assert_eq!(db.get_logs_of_issue(&"ISSUE-1".to_string()).len(), 1);
    assert_eq!(db.get_logs_of_issue(&"ISSUE-2".to_string()).len(), 0);
    assert_eq!(db.get_logs_of_issue(&"ISSUE-3".to_string()).len(), 0);
}
