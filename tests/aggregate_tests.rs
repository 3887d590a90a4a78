use perfstat::aggregate::{gen_cdf, graph, pool_column};
use perfstat::table::Stats;

fn table(source: &str, legend: &[&str], values: Vec<Vec<usize>>) -> Stats {
    Stats {
        source: source.to_string(),
        legend: legend.iter().map(|s| s.to_string()).collect(),
        values,
    }
}

#[test]
fn pooled_column_has_one_value_per_row() {
    let a = table("a", &["t", "x", "y"], vec![vec![0, 1, 10], vec![1, 2, 20]]);
    let b = table("b", &["t", "x", "y"], vec![vec![0, 3, 30], vec![1, 4, 40], vec![2, 5, 50]]);
    let tables = vec![a, b];
    assert_eq!(pool_column(&tables, 1), vec![1, 2, 3, 4, 5]);
    assert_eq!(pool_column(&tables, 2), vec![10, 20, 30, 40, 50]);
    assert_eq!(pool_column(&tables, 1).len(), 2 + 3);
}

#[test]
fn cdf_per_metric_over_all_tables() {
    let a = table("a", &["t", "cpu", "rx"], vec![vec![0, 1, 7], vec![1, 1, 7]]);
    let b = table("b", &["t", "cpu", "rx"], vec![vec![0, 2, 7], vec![1, 3, 8], vec![2, 3, 9], vec![3, 3, 9]]);
    let ms = gen_cdf(&[a, b]).unwrap();
    assert_eq!(ms.len(), 2);
    assert_eq!(ms[0].name, "cpu");
    assert_eq!(ms[0].samples, 6);
    assert_eq!(ms[0].points, vec![(1, 2), (2, 3), (3, 6)]);
    assert_eq!(ms[1].name, "rx");
    assert_eq!(ms[1].points, vec![(7, 3), (8, 4), (9, 6)]);
}

#[test]
fn cdf_needs_a_table_and_wide_enough_rows() {
    assert!(gen_cdf(&[]).is_none());
    let short = table("s", &["t", "x", "y"], vec![vec![0, 1, 2], vec![1, 2]]);
    assert!(gen_cdf(&[short]).is_none());
    let only_time = table("o", &["t"], vec![vec![0], vec![1]]);
    assert_eq!(gen_cdf(&[only_time]).unwrap().len(), 0);
}

#[test]
fn graph_gives_one_trace_per_metric() {
    let t = table("g", &["t", "cpu", "rx"], vec![vec![0, 5, 100], vec![1000, 7, 150]]);
    let traces = graph(&t).unwrap();
    assert_eq!(traces.len(), 2);
    assert_eq!(traces[0].name, "cpu");
    assert_eq!(traces[0].x, vec![0, 1000]);
    assert_eq!(traces[0].y, vec![5, 7]);
    assert_eq!(traces[1].name, "rx");
    assert_eq!(traces[1].y, vec![100, 150]);
}

#[test]
fn graph_refuses_short_rows() {
    let t = table("g", &["t", "cpu"], vec![vec![0, 5], vec![1]]);
    assert!(graph(&t).is_none());
    let empty_legend = table("e", &[], vec![vec![]]);
    assert!(graph(&empty_legend).is_none());
}
