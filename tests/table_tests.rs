use perfstat::cli::{Plot, Source, SourceGroup};
use perfstat::table::{read_samples, parse_row, ReadError};

fn plot_with(filters: &[&str]) -> Plot {
    Plot {
        source: SourceGroup { file: Some("run.csv".to_string()), dir: None },
        filter: filters.iter().map(|f| f.to_string()).collect(),
        cdf: true,
        graph: false,
    }
}

fn lines(text: &[&str]) -> Vec<String> {
    text.iter().map(|l| l.to_string()).collect()
}

#[test]
fn legend_and_rows_are_read() {
    let plot = plot_with(&[]);
    let input = lines(&["elapsed_ms, cpu, rx", "0, 10, 100", "1000, 20, 250"]);
    let (stats, bad) = read_samples(&plot, &input, &Source::File("run.csv")).unwrap();
    assert_eq!(stats.source, "run.csv");
    assert_eq!(stats.legend, vec!["elapsed_ms", "cpu", "rx"]);
    assert_eq!(stats.values, vec![vec![0, 10, 100], vec![1000, 20, 250]]);
    assert!(bad.is_empty());
}

#[test]
fn two_rows_of_legend_width_give_two_rows() {
    let plot = plot_with(&[]);
    let input = lines(&["t, a, b, c", "1, 2, 3, 4", "5, 6, 7, 8"]);
    let (stats, _) = read_samples(&plot, &input, &Source::File("f")).unwrap();
    assert_eq!(stats.values.len(), 2);
    assert_eq!(stats.values, vec![vec![1, 2, 3, 4], vec![5, 6, 7, 8]]);
}

#[test]
fn filtered_line_gives_no_row_even_if_it_parses() {
    let plot = plot_with(&["^9", "skip"]);
    let input = lines(&["t, v", "1, 2", "9, 9", "3, 4", "skip me"]);
    let (stats, bad) = read_samples(&plot, &input, &Source::File("f")).unwrap();
    assert_eq!(stats.values, vec![vec![1, 2], vec![3, 4]]);
    assert!(bad.is_empty());
}

#[test]
fn filter_applies_to_the_legend_too() {
    let plot = plot_with(&["^#"]);
    let input = lines(&["# a comment", "t, v", "1, 2"]);
    let (stats, _) = read_samples(&plot, &input, &Source::Dir("d")).unwrap();
    assert_eq!(stats.legend, vec!["t", "v"]);
    assert_eq!(stats.values, vec![vec![1, 2]]);
    assert_eq!(stats.source, "d");
}

#[test]
fn malformed_rows_are_reported_and_parsing_goes_on() {
    let plot = plot_with(&[]);
    let input = lines(&["t, v", "1", "2, 3", "4, 5, 6", "7, x", "8, 9"]);
    let (stats, bad) = read_samples(&plot, &input, &Source::File("f")).unwrap();
    assert_eq!(stats.values, vec![vec![2, 3], vec![8, 9]]);
    assert_eq!(bad, vec![1, 3, 4]);
}

#[test]
fn empty_lines_are_skipped_without_filters() {
    let plot = plot_with(&[]);
    let input = lines(&["", "t, v", "", "1, 2", ""]);
    let (stats, bad) = read_samples(&plot, &input, &Source::File("f")).unwrap();
    assert_eq!(stats.legend, vec!["t", "v"]);
    assert_eq!(stats.values, vec![vec![1, 2]]);
    assert!(bad.is_empty());
}

#[test]
fn no_legend_is_an_error() {
    let plot = plot_with(&["."]);
    assert_eq!(read_samples(&plot, &lines(&[]), &Source::File("f")).unwrap_err(), ReadError::NoLegend);
    assert_eq!(
        read_samples(&plot, &lines(&["", "abc"]), &Source::File("f")).unwrap_err(),
        ReadError::NoLegend
    );
}

#[test]
fn bad_filter_is_an_error() {
    let plot = plot_with(&["ok", "foo(bar", "[z"]);
    let input = lines(&["t, v", "1, 2"]);
    assert_eq!(read_samples(&plot, &input, &Source::File("f")).unwrap_err(), ReadError::BadFilter(1));
}

#[test]
fn row_parsing_needs_the_exact_width() {
    assert_eq!(parse_row(" 1 ,+2,3 ", 3), Some(vec![1, 2, 3]));
    assert_eq!(parse_row("1, 2", 3), None);
    assert_eq!(parse_row("1, 2, 3, 4", 3), None);
    assert_eq!(parse_row("1, 2, ", 3), None);
    assert_eq!(parse_row("1, 99999999999999999999999, 3", 3), None);
}

#[test]
fn recorded_lines_with_a_decimal_cpu_are_malformed() {
    let plot = plot_with(&[]);
    let input = lines(&["elapsed_ms, pid, cpu", "1000, 42, 12.50", "2000, 42, 13"]);
    let (stats, bad) = read_samples(&plot, &input, &Source::File("f")).unwrap();
    assert_eq!(stats.values, vec![vec![2000, 42, 13]]);
    assert_eq!(bad, vec![1]);
}
