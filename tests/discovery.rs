use qr_benchmark::annotation::{parse_coordinate, parse_point_sets, split_tokens};
use qr_benchmark::data::{build_test_pair, is_image_extension, parse_annotation, select_within_cap, GroundTruth};
use qr_benchmark::geometry::Point;

fn coord(s: &str) -> Option<i64> {
    parse_coordinate(&s.chars().collect())
}

#[test]
fn coordinates_are_read_in_thousandths() {
    assert_eq!(coord("12"), Some(12_000));
    assert_eq!(coord("1.5"), Some(1_500));
    assert_eq!(coord("-2.25"), Some(-2_250));
    assert_eq!(coord("+0.125"), Some(125));
    assert_eq!(coord(".5"), Some(500));
    assert_eq!(coord("7."), Some(7_000));
    assert_eq!(coord("1.23456"), Some(1_234));
    assert_eq!(coord("0001.0"), Some(1_000));
}

#[test]
fn malformed_coordinates_are_rejected() {
    assert_eq!(coord(""), None);
    assert_eq!(coord("-"), None);
    assert_eq!(coord("."), None);
    assert_eq!(coord("abc"), None);
    assert_eq!(coord("1.2.3"), None);
    assert_eq!(coord("1e3"), None);
    assert_eq!(coord("10000000000000"), None);
    assert_eq!(coord("1000000000000"), Some(1_000_000_000_000_000));
}

#[test]
fn tokens_split_on_any_whitespace() {
    let toks = split_tokens(&"  a bc\t d  ".chars().collect());
    let toks: Vec<String> = toks.into_iter().map(|t| t.into_iter().collect()).collect();
    assert_eq!(toks, vec!["a", "bc", "d"]);
}

#[test]
fn point_sets_skip_comments_markers_and_malformed_lines() {
    let content = "# list of hand selected 2D points\nSETS\n1 2 3 4 5 6 7 8\n\n1 2 3\nx 2 3 4 5 6 7 8\n  10.5 20 30 40 50 60 70 80 90\r\n";
    let sets = parse_point_sets(content);
    assert_eq!(sets.len(), 2);
    assert_eq!(
        sets[0],
        vec![
            Point { x: 1_000, y: 2_000 },
            Point { x: 3_000, y: 4_000 },
            Point { x: 5_000, y: 6_000 },
            Point { x: 7_000, y: 8_000 }
        ]
    );
    assert_eq!(sets[1][0], Point { x: 10_500, y: 20_000 });
    assert_eq!(sets[1][3], Point { x: 70_000, y: 80_000 });
}

#[test]
fn commented_annotation_is_read_as_points_under_any_root() {
    let content = "\n  # corners\n1 1 9 1 9 9 1 9\n";
    match parse_annotation(content, false) {
        Some(GroundTruth::ExpectedPointSets(s)) => assert_eq!(s.len(), 1),
        _ => panic!("expected point sets"),
    }
}

#[test]
fn detection_root_without_quads_gives_nothing() {
    assert!(parse_annotation("HELLO WORLD", true).is_none());
    assert!(parse_annotation("# only a comment\nSETS\n", false).is_none());
}

#[test]
fn decoding_root_text_is_trimmed_and_folded() {
    match parse_annotation("  hello\r\nworld \r\n", false) {
        Some(GroundTruth::ExpectedText(t)) => assert_eq!(t, "hello\nworld"),
        _ => panic!("expected text"),
    }
}

#[test]
fn image_extensions_ignore_case() {
    assert!(is_image_extension("png"));
    assert!(is_image_extension("JPG"));
    assert!(is_image_extension("JpEg"));
    assert!(!is_image_extension("gif"));
    assert!(!is_image_extension("txt"));
    assert!(!is_image_extension(""));
}

#[test]
fn image_without_annotation_is_excluded() {
    assert!(build_test_pair("a/blurred/x.png".to_string(), "blurred".to_string(), None, true).is_none());
    let pair = build_test_pair(
        "a/blurred/x.png".to_string(),
        "blurred".to_string(),
        Some("1 2 3 4 5 6 7 8"),
        true,
    )
    .expect("fixture");
    assert_eq!(pair.category, "blurred");
    assert_eq!(pair.image_path, "a/blurred/x.png");
}

#[test]
fn cap_keeps_first_seen_images_per_category() {
    let cats: Vec<String> = ["a", "b", "a", "a", "b", "c", "a"].iter().map(|s| s.to_string()).collect();
    assert_eq!(
        select_within_cap(&cats, Some(2)),
        vec![true, true, true, false, true, true, false]
    );
    assert_eq!(select_within_cap(&cats, None), vec![true; 7]);
    assert_eq!(select_within_cap(&cats, Some(0)), vec![false; 7]);
}

#[test]
fn discovery_decisions_repeat_exactly() {
    let cats: Vec<String> = ["x", "y", "x", "x"].iter().map(|s| s.to_string()).collect();
    let first = select_within_cap(&cats, Some(2));
    let second = select_within_cap(&cats, Some(2));
    assert_eq!(first, second);
    let kept: Vec<String> = cats.iter().zip(first.iter()).filter(|(_, k)| **k).map(|(c, _)| c.clone()).collect();
    assert_eq!(select_within_cap(&kept, Some(2)), vec![true; kept.len()]);
}
