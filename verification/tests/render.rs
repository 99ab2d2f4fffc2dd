use jira_health_checker::models::IssueLog;
use jira_health_checker::renderer::{area_path_data, line_path_data, GraphStyle, Point, Renderer};
use jira_health_checker::time_graph::{
    history_series, render_issue_time_graph, RenderError, TimeGraph, TimeSpentData,
};

fn sample(date: i64, time_spent: i64, time_estimate: i64) -> TimeSpentData {
    TimeSpentData { date, time_spent, time_estimate }
}

fn log(key: &str, updated_at: &str, spent: i64, estimate: i64) -> IssueLog {
    IssueLog {
        key: key.to_string(),
        summary: format!("summary of {}", key),
        epic_key: "EPIC-1".to_string(),
        time_estimate: estimate,
        time_spent: spent,
        updated_at: updated_at.to_string(),
        assignee: "unassigned".to_string(),
    }
}

#[test]
fn series_normalization_example() {
    let graph = TimeGraph::new(100, 50, 10);
    let data = vec![sample(0, 0, 10), sample(10, 5, 10)];
    let (spent, estimate) = graph.normalize_time_data(&data);
    assert_eq!(spent.len(), 2);
    assert_eq!(estimate.len(), 2);
    assert_eq!(spent[0].x_milli, 0);
    assert_eq!(spent[1].x_milli, 100_000);
    assert_eq!(estimate[0].x_milli, 0);
    assert_eq!(estimate[1].x_milli, 100_000);
    assert_eq!(estimate[0].y_milli, 0);
    assert_eq!(estimate[1].y_milli, 0);
    assert_eq!(spent[0].y_milli, 50_000);
    assert_eq!(spent[1].y_milli, 25_000);
}

#[test]
fn degenerate_single_point_series() {
    let graph = TimeGraph::new(150, 50, 10);
    let data = vec![sample(12345, 3, 9)];
    let (spent, estimate) = graph.normalize_time_data(&data);
    assert_eq!(spent[0].x_milli, 0);
    assert_eq!(estimate[0].x_milli, 0);
}

#[test]
fn same_timestamp_series_all_x_zero() {
    let graph = TimeGraph::new(150, 50, 10);
    let data = vec![sample(77, 1, 2), sample(77, 2, 2), sample(77, 0, 2)];
    let (spent, _) = graph.normalize_time_data(&data);
    for p in &spent {
        assert_eq!(p.x_milli, 0);
    }
}

#[test]
fn all_zero_effort_series_sits_on_baseline() {
    let graph = TimeGraph::new(150, 50, 10);
    let data = vec![sample(0, 0, 0), sample(10, 0, 0)];
    let (spent, estimate) = graph.normalize_time_data(&data);
    for p in spent.iter().chain(estimate.iter()) {
        assert_eq!(p.y_milli, 50_000);
    }
}

#[test]
fn empty_history_renders_blank() {
    let logs: Vec<IssueLog> = Vec::new();
    let series = history_series(&logs).unwrap();
    assert!(series.is_empty());
    let markup = render_issue_time_graph(&logs).unwrap();
    assert!(markup.contains("<svg"));
    assert!(!markup.contains("<path"));
}

#[test]
fn history_series_parses_and_sorts() {
    let logs = vec![
        log("ISSUE-1", "1970-01-01T00:01:40+00:00", 5, 10),
        log("ISSUE-1", "1970-01-01T00:00:10+00:00", 2, 10),
    ];
    let series = history_series(&logs).unwrap();
    assert_eq!(series.len(), 2);
    assert_eq!(series[0].date, 10);
    assert_eq!(series[0].time_spent, 2);
    assert_eq!(series[1].date, 100);
    assert_eq!(series[1].time_spent, 5);
}

#[test]
fn malformed_timestamp_fails_render() {
    let logs = vec![log("ISSUE-1", "not a timestamp", 1, 2)];
    match render_issue_time_graph(&logs) {
        Err(RenderError::BadTimestamp(t)) => assert_eq!(t, "not a timestamp"),
        _ => panic!("a malformed timestamp must fail the render"),
    }
}

#[test]
fn line_path_data_exact() {
    let points = vec![
        Point { x_milli: 0, y_milli: 0 },
        Point { x_milli: 100_000, y_milli: 25_000 },
    ];
    assert_eq!(line_path_data(&points), "M0,0 L0,0 L100,25");
}

#[test]
fn path_data_prints_fractions() {
    let points = vec![
        Point { x_milli: 33_333, y_milli: 12_500 },
        Point { x_milli: 50_010, y_milli: 7_001 },
    ];
    assert_eq!(line_path_data(&points), "M33.333,12.500 L33.333,12.500 L50.010,7.001");
}

#[test]
fn area_path_data_exact() {
    let points = vec![
        Point { x_milli: 0, y_milli: 10_000 },
        Point { x_milli: 100_000, y_milli: 25_000 },
    ];
    assert_eq!(area_path_data(&points, 50), "M0,50 L0,10 L0,10 L100,25 L100,50 z");
}

#[test]
fn rendered_document_carries_geometry() {
    let renderer = Renderer::new(150, 50, 10);
    let points = vec![
        Point { x_milli: 0, y_milli: 0 },
        Point { x_milli: 150_000, y_milli: 50_000 },
    ];
    let graphs = vec![(points, GraphStyle { stroke_color: "#4A90E2", fill_color: "#4A90E2" })];
    let markup = renderer.render_line_graphs(&graphs);
    assert!(markup.contains("viewBox=\"-10 -10 170 70\""));
    assert!(markup.contains("width=\"170\""));
    assert!(markup.contains("height=\"70\""));
    assert!(markup.contains("M0,0 L0,0 L150,50"));
    assert!(markup.contains("M0,50 L0,0 L0,0 L150,50 L150,50 z"));
    assert!(markup.contains("xmlns=\"http://www.w3.org/2000/svg\""));
    assert!(markup.contains("stroke=\"#4A90E2\""));
    assert!(markup.contains("stroke-width=\"2\""));
    assert!(markup.contains("fill=\"none\""));
    assert!(markup.contains("fill=\"#4A90E2\""));
    assert!(markup.contains("fill-opacity=\"0.5\""));
    assert!(markup.contains("stroke=\"none\""));
}

#[test]
fn empty_series_draws_nothing() {
    let renderer = Renderer::new(150, 50, 10);
    let graphs = vec![(
        Vec::<Point>::new(),
        GraphStyle { stroke_color: "#E74C3C", fill_color: "#E74C3C" },
    )];
    let markup = renderer.render_line_graphs(&graphs);
    assert!(!markup.contains("<path"));
}
