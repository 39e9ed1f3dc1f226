use qr_benchmark::benchmark::{measurement_record, BenchmarkRun, Measurement, Status, Step};
use qr_benchmark::data::{GroundTruth, TestPair};
use qr_benchmark::decoders::DecodeResult;
use qr_benchmark::geometry::Point;

fn text_pair(path: &str, text: &str) -> TestPair {
    TestPair {
        image_path: path.to_string(),
        category: "nominal".to_string(),
        ground_truth: GroundTruth::ExpectedText(text.to_string()),
    }
}

fn run_all(run: &mut BenchmarkRun, loads: &[bool]) -> Vec<Step> {
    let mut steps = Vec::new();
    loop {
        let step = run.step;
        steps.push(step);
        match step {
            Step::Done => break,
            Step::Load { fixture } => run.advance(loads[fixture]),
            _ => run.advance(true),
        }
    }
    steps
}

#[test]
fn run_visits_fixture_major_decoder_minor_trial_minor() {
    let mut run = BenchmarkRun::new(2, 2, 2);
    let steps = run_all(&mut run, &[true, true]);
    let expected = vec![
        Step::Load { fixture: 0 },
        Step::Warmup { fixture: 0, decoder: 0 },
        Step::Trial { fixture: 0, decoder: 0, trial: 1 },
        Step::Trial { fixture: 0, decoder: 0, trial: 2 },
        Step::Warmup { fixture: 0, decoder: 1 },
        Step::Trial { fixture: 0, decoder: 1, trial: 1 },
        Step::Trial { fixture: 0, decoder: 1, trial: 2 },
        Step::Load { fixture: 1 },
        Step::Warmup { fixture: 1, decoder: 0 },
        Step::Trial { fixture: 1, decoder: 0, trial: 1 },
        Step::Trial { fixture: 1, decoder: 0, trial: 2 },
        Step::Warmup { fixture: 1, decoder: 1 },
        Step::Trial { fixture: 1, decoder: 1, trial: 1 },
        Step::Trial { fixture: 1, decoder: 1, trial: 2 },
        Step::Done,
    ];
    assert_eq!(steps, expected);
    assert_eq!(run.progress, 4);
}

#[test]
fn unloadable_image_is_skipped_for_every_decoder() {
    let mut run = BenchmarkRun::new(3, 2, 1);
    let steps = run_all(&mut run, &[true, false, true]);
    assert!(!steps.iter().any(|s| matches!(s, Step::Warmup { fixture: 1, .. } | Step::Trial { fixture: 1, .. })));
    assert!(steps.contains(&Step::Load { fixture: 2 }));
    assert_eq!(run.progress, 6);
}

#[test]
fn empty_runs_finish_at_once() {
    let run = BenchmarkRun::new(0, 3, 5);
    assert_eq!(run.step, Step::Done);
    let mut run = BenchmarkRun::new(2, 0, 5);
    let steps = run_all(&mut run, &[true, true]);
    assert_eq!(steps, vec![Step::Load { fixture: 0 }, Step::Load { fixture: 1 }, Step::Done]);
    let mut run = BenchmarkRun::new(1, 1, 0);
    let steps = run_all(&mut run, &[true]);
    assert_eq!(steps, vec![Step::Load { fixture: 0 }, Step::Warmup { fixture: 0, decoder: 0 }, Step::Done]);
    assert_eq!(run.progress, 1);
}

#[test]
fn faulting_call_is_recorded_failed_and_the_run_goes_on() {
    let pairs = vec![text_pair("f/a.png", "A"), text_pair("f/b.png", "B"), text_pair("f/c.png", "C")];
    let mut run = BenchmarkRun::new(3, 1, 1);
    let mut records: Vec<Measurement> = Vec::new();
    loop {
        match run.step {
            Step::Done => break,
            Step::Trial { fixture, trial, .. } => {
                // The decoder faults on the second fixture.
                let outcome = if fixture == 1 {
                    None
                } else {
                    Some(DecodeResult { text: ["A", "B", "C"][fixture].to_string(), points: None })
                };
                records.push(measurement_record("dec", &pairs[fixture], trial, 10, &outcome));
                run.advance(true);
            }
            _ => run.advance(true),
        }
    }
    let statuses: Vec<Status> = records.iter().map(|r| r.status).collect();
    assert_eq!(statuses, vec![Status::Correct, Status::Failed, Status::Correct]);
    assert_eq!(records[1].decoded_text, "");
    assert_eq!(records[1].file_path, "f/b.png");
    assert_eq!(records[2].expected_text, "C");
}

#[test]
fn record_columns() {
    let pair = TestPair {
        image_path: "d/glare/q.jpg".to_string(),
        category: "glare".to_string(),
        ground_truth: GroundTruth::ExpectedPointSets(vec![vec![
            Point { x: 0, y: 0 },
            Point { x: 1000, y: 0 },
            Point { x: 1000, y: 1000 },
            Point { x: 0, y: 1000 },
        ]]),
    };
    let outcome = Some(DecodeResult { text: "hi".to_string(), points: None });
    let r = measurement_record("rqrr", &pair, 3, 1234, &outcome);
    assert_eq!(r.library, "rqrr");
    assert_eq!(r.category, "glare");
    assert_eq!(r.file_path, "d/glare/q.jpg");
    assert_eq!(r.iteration, 3);
    assert_eq!(r.duration_us, 1234);
    assert_eq!(r.status, Status::NoPoints);
    assert_eq!(r.expected_text, "POINTS");
    assert_eq!(r.decoded_text, "hi");
}

#[test]
fn status_names_round_trip() {
    for s in [Status::Correct, Status::Incorrect, Status::NoPoints, Status::Failed] {
        assert_eq!(Status::from_name(&s.name()), Some(s));
    }
    assert_eq!(Status::Correct.name(), "Correct");
    assert_eq!(Status::NoPoints.name(), "NoPoints");
    assert_eq!(Status::from_name("correct"), None);
    assert_eq!(Status::from_name(""), None);
}
