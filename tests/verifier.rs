use qr_benchmark::benchmark::{classify, verify, Status};
use qr_benchmark::data::GroundTruth;
use qr_benchmark::decoders::DecodeResult;
use qr_benchmark::geometry::{is_detection_correct, Point, DEFAULT_TOLERANCE};
use qr_benchmark::text::{normalize_text, texts_match};

fn px(x: i64, y: i64) -> Point {
    Point { x: x * 1000, y: y * 1000 }
}

fn square() -> Vec<Point> {
    vec![px(0, 0), px(10, 0), px(10, 10), px(0, 10)]
}

fn text_outcome(t: &str) -> DecodeResult {
    DecodeResult { text: t.to_string(), points: None }
}

fn point_outcome(p: Vec<Point>) -> DecodeResult {
    DecodeResult { text: String::new(), points: Some(p) }
}

#[test]
fn crlf_expected_matches_bare_decoded() {
    let truth = GroundTruth::ExpectedText("HELLO\r\n".to_string());
    assert_eq!(verify(&truth, &text_outcome("HELLO")), Status::Correct);
}

#[test]
fn text_differing_in_line_endings_and_padding_is_correct() {
    let truth = GroundTruth::ExpectedText("line one\nline two".to_string());
    assert_eq!(verify(&truth, &text_outcome("  line one\r\nline two \t\n")), Status::Correct);
    assert_eq!(verify(&truth, &text_outcome("line one line two")), Status::Incorrect);
}

#[test]
fn normalization_folds_crlf_then_trims() {
    let n: String = normalize_text(" \r\na\r\nb\r\n ").into_iter().collect();
    assert_eq!(n, "a\nb");
    assert!(texts_match("x\r\ny", "x\ny"));
    assert!(!texts_match("x\r\ny", "x\r\rny"));
    assert!(texts_match("", " \t\r\n"));
}

#[test]
fn rotated_detection_is_correct() {
    let truth = GroundTruth::ExpectedPointSets(vec![square()]);
    let decoded = vec![px(10, 10), px(0, 10), px(0, 0), px(10, 0)];
    assert_eq!(verify(&truth, &point_outcome(decoded)), Status::Correct);
}

#[test]
fn every_rotation_gets_the_same_verdict() {
    let sets = vec![square()];
    let near = vec![px(1, 1), px(11, 0), px(10, 12), px(0, 9)];
    let far = vec![px(100, 100), px(110, 100), px(110, 110), px(100, 110)];
    for k in 0..4 {
        let rot_near: Vec<Point> = (0..4).map(|i| near[(i + k) % 4]).collect();
        let rot_far: Vec<Point> = (0..4).map(|i| far[(i + k) % 4]).collect();
        assert!(is_detection_correct(&sets, &rot_near, DEFAULT_TOLERANCE));
        assert!(!is_detection_correct(&sets, &rot_far, DEFAULT_TOLERANCE));
    }
}

#[test]
fn tolerance_is_strict() {
    let sets = vec![square()];
    let shifted: Vec<Point> = square().iter().map(|p| Point { x: p.x + 50_000, y: p.y }).collect();
    assert!(!is_detection_correct(&sets, &shifted, DEFAULT_TOLERANCE));
    let closer: Vec<Point> = square().iter().map(|p| Point { x: p.x + 49_999, y: p.y }).collect();
    assert!(is_detection_correct(&sets, &closer, DEFAULT_TOLERANCE));
}

#[test]
fn distance_is_euclidean() {
    let sets = vec![square()];
    // Each corner moved by (30, 40) pixels: 50 pixels away, the mean is not below 50.
    let moved: Vec<Point> = square().iter().map(|p| Point { x: p.x + 30_000, y: p.y + 40_000 }).collect();
    assert!(!is_detection_correct(&sets, &moved, DEFAULT_TOLERANCE));
    // Moved by (30, 39): about 49.2 pixels.
    let moved: Vec<Point> = square().iter().map(|p| Point { x: p.x + 30_000, y: p.y + 39_000 }).collect();
    assert!(is_detection_correct(&sets, &moved, DEFAULT_TOLERANCE));
}

#[test]
fn any_candidate_quad_may_match() {
    let other = vec![px(500, 500), px(510, 500), px(510, 510), px(500, 510)];
    let sets = vec![square(), other.clone()];
    assert!(is_detection_correct(&sets, &other, DEFAULT_TOLERANCE));
    let malformed = vec![vec![px(500, 500)], square()];
    assert!(is_detection_correct(&malformed, &square(), DEFAULT_TOLERANCE));
    assert!(!is_detection_correct(&vec![], &square(), DEFAULT_TOLERANCE));
}

#[test]
fn wrong_corner_count_is_incorrect() {
    let truth = GroundTruth::ExpectedPointSets(vec![square()]);
    let three = vec![px(0, 0), px(10, 0), px(10, 10)];
    assert_eq!(verify(&truth, &point_outcome(three)), Status::Incorrect);
    let mut five = square();
    five.push(px(0, 0));
    assert_eq!(verify(&truth, &point_outcome(five)), Status::Incorrect);
}

#[test]
fn missing_points_is_no_points() {
    let truth = GroundTruth::ExpectedPointSets(vec![square()]);
    assert_eq!(verify(&truth, &text_outcome("payload")), Status::NoPoints);
}

#[test]
fn failed_call_is_failed() {
    let text = GroundTruth::ExpectedText("HELLO".to_string());
    let quads = GroundTruth::ExpectedPointSets(vec![square()]);
    assert_eq!(classify(&text, &None), Status::Failed);
    assert_eq!(classify(&quads, &None), Status::Failed);
    assert_eq!(classify(&text, &Some(text_outcome("HELLO"))), Status::Correct);
}

#[test]
fn extreme_coordinates_do_not_overflow() {
    let sets = vec![vec![
        Point { x: i64::MIN, y: i64::MIN },
        Point { x: i64::MAX, y: i64::MIN },
        Point { x: i64::MAX, y: i64::MAX },
        Point { x: i64::MIN, y: i64::MAX },
    ]];
    assert!(!is_detection_correct(&sets, &square(), DEFAULT_TOLERANCE));
    assert!(is_detection_correct(&sets, &sets[0], DEFAULT_TOLERANCE));
    assert!(!is_detection_correct(&sets, &sets[0], 0));
}
