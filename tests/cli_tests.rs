use perfstat::cli::{is_hidden, Source, SourceGroup};

#[test]
fn get_one_picks_the_given_source() {
    let file = SourceGroup { file: Some("a.csv".to_string()), dir: None };
    assert!(matches!(file.get_one(), Source::File("a.csv")));
    let dir = SourceGroup { file: None, dir: Some("runs".to_string()) };
    assert!(matches!(dir.get_one(), Source::Dir("runs")));
}

#[test]
fn display_shows_the_path() {
    assert_eq!(Source::File("x/y.csv").display(), "x/y.csv");
    assert_eq!(Source::Dir("runs").display(), "runs");
}

#[test]
fn dot_files_are_hidden() {
    assert!(is_hidden(".git"));
    assert!(!is_hidden("run.csv"));
    assert!(!is_hidden(""));
}
