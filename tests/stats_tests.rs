use perfstat::stats::{cdf, pmf_from_cdf};

fn probabilities(points: &[(usize, usize)], n: usize) -> Vec<(usize, f64)> {
    points.iter().map(|&(v, c)| (v, c as f64 / n as f64)).collect()
}

#[test]
fn cdf_of_repeated_values() {
    let x = vec![1, 1, 2, 3, 3, 3];
    let points = cdf(&x);
    assert_eq!(points, vec![(1, 2), (2, 3), (3, 6)]);
    let p = probabilities(&points, x.len());
    assert!((p[0].1 - 1.0 / 3.0).abs() < 1e-12);
    assert!((p[1].1 - 0.5).abs() < 1e-12);
    assert_eq!(p[2].1, 1.0);
}

#[test]
fn cdf_of_empty_input_is_empty() {
    let x: Vec<usize> = Vec::new();
    assert!(cdf(&x).is_empty());
}

#[test]
fn cdf_of_unsorted_input() {
    let x = vec![9, 3, 7, 3, 1, 9, 9, 0];
    assert_eq!(cdf(&x), vec![(0, 1), (1, 2), (3, 4), (7, 5), (9, 8)]);
}

#[test]
fn cdf_is_increasing_and_ends_at_one() {
    let x: Vec<usize> = (0..200).map(|i| (i * 37 + 11) % 23).collect();
    let points = cdf(&x);
    assert!(!points.is_empty());
    for w in points.windows(2) {
        assert!(w[0].0 < w[1].0);
        assert!(w[0].1 < w[1].1);
    }
    assert_eq!(points.last().unwrap().1, x.len());
}

#[test]
fn cdf_of_one_value() {
    assert_eq!(cdf(&[5, 5, 5]), vec![(5, 3)]);
    assert_eq!(cdf(&[usize::MAX]), vec![(usize::MAX, 1)]);
}

#[test]
fn pmf_is_the_first_difference() {
    assert_eq!(pmf_from_cdf(&[2, 3, 6]), vec![2, 1, 3]);
    assert_eq!(pmf_from_cdf(&[0, 0, 4, 4, 10]), vec![0, 0, 4, 0, 6]);
    assert!(pmf_from_cdf(&[]).is_empty());
}

#[test]
fn pmf_of_a_cdf_sums_to_the_sample_size() {
    let x = vec![4, 8, 8, 15, 16, 23, 42, 42, 42];
    let counts: Vec<usize> = cdf(&x).iter().map(|p| p.1).collect();
    let pmf = pmf_from_cdf(&counts);
    assert_eq!(pmf, vec![1, 2, 1, 1, 1, 3]);
    assert_eq!(pmf.iter().sum::<usize>(), x.len());
}
