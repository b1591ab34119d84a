use f2::matching::{compute_path_prefix_match, PathMatchCalculator};

#[test]
fn computes_correctly_for_matching_prefix() {
    let path = "/api/v1/resource";
    let prefix = Some("/api/v1");

    let result = PathMatchCalculator::new(path, prefix).compute_match_length();
    assert_eq!(result, 9);
}

#[test]
fn computes_correctly_for_non_matching_prefix() {
    let path = "/api/v1/resource";
    let prefix = Some("/api/v2");

    let result = PathMatchCalculator::new(path, prefix).compute_match_length();
    assert_eq!(result, usize::MAX);
}

#[test]
fn computes_correctly_for_no_prefix() {
    let path = "/api/v1/resource";
    let prefix = None;

    let result = PathMatchCalculator::new(path, prefix).compute_match_length();
    assert_eq!(result, path.len());
}

#[test]
fn computes_correctly_for_empty_path() {
    let path = "";
    let prefix = Some("/api/v1");

    let result = PathMatchCalculator::new(path, prefix).compute_match_length();
    assert_eq!(result, usize::MAX);
}

#[test]
fn computes_correctly_for_empty_prefix() {
    let path = "/api/v1/resource";
    let prefix = Some("");

    let result = PathMatchCalculator::new(path, prefix).compute_match_length();
    assert_eq!(result, path.len());
}

#[test]
fn computes_correctly_for_exact_match() {
    let path = "/api/v1/resource";
    let prefix = Some("/api/v1/resource");

    let result = PathMatchCalculator::new(path, prefix).compute_match_length();
    assert_eq!(result, 0);
}

#[test]
fn computes_correctly_for_prefix_with_trailing_slash() {
    let path = "/api/v1/resource";
    let prefix = Some("/api/v1/");

    let result = PathMatchCalculator::new(path, prefix).compute_match_length();
    assert_eq!(result, 8);
}

#[test]
fn computes_correctly_for_path_with_trailing_slash() {
    let path = "/api/v1/resource/";
    let prefix = Some("/api/v1");

    let result = PathMatchCalculator::new(path, prefix).compute_match_length();
    assert_eq!(result, 10);
}

#[test]
fn match_length_counts_bytes_of_multibyte_paths() {
    assert_eq!(compute_path_prefix_match("/caf\u{e9}", Some("/")), 5);
    assert_eq!(compute_path_prefix_match("/caf\u{e9}", None), 6);
}
