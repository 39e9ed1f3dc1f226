//! Classification of decode outcomes, measurement records, and the order in
//! which a run visits fixtures, decoders and trials.
use vstd::prelude::*;
use crate::geometry::{
    Point, quads_view, detection_correct, is_detection_correct, rotate,
    lemma_detection_rotation_invariant, DEFAULT_TOLERANCE,
};
use crate::text::{normalize, texts_match, all_ws, crlf_to_lf, lemma_normalize_padding, str_equal};
use crate::data::{GroundTruth, TestPair};
use crate::decoders::DecodeResult;

verus! {

/// Verdict on one decode attempt.
#[derive(Clone, Copy, Debug, PartialEq, Eq, Structural)]
pub enum Status {
    Correct,
    Incorrect,
    NoPoints,
    Failed,
}

/// The name of a status in the result file.
pub open spec fn status_name(s: Status) -> Seq<char> {
    match s {
        Status::Correct => seq!['C', 'o', 'r', 'r', 'e', 'c', 't'],
        Status::Incorrect => seq!['I', 'n', 'c', 'o', 'r', 'r', 'e', 'c', 't'],
        Status::NoPoints => seq!['N', 'o', 'P', 'o', 'i', 'n', 't', 's'],
        Status::Failed => seq!['F', 'a', 'i', 'l', 'e', 'd'],
    }
}

impl Status {
    /// The name of the status in the result file.
    pub fn name(&self) -> (r: String)
        ensures
            r@ == status_name(*self),
    {
        proof {
            reveal_strlit("Correct");
            reveal_strlit("Incorrect");
            reveal_strlit("NoPoints");
            reveal_strlit("Failed");
        }
        let r = match self {
            Status::Correct => String::from_str("Correct"),
            Status::Incorrect => String::from_str("Incorrect"),
            Status::NoPoints => String::from_str("NoPoints"),
            Status::Failed => String::from_str("Failed"),
        };
        assert(r@ =~= status_name(*self));
        r
    }

    /// The status with the given name, if any.
    pub fn from_name(name: &str) -> (r: Option<Status>)
        ensures
            r matches Some(s) ==> status_name(s) == name@,
            r.is_none() ==> forall|s: Status| status_name(s) != name@,
    {
        proof {
            reveal_strlit("Correct");
            reveal_strlit("Incorrect");
            reveal_strlit("NoPoints");
            reveal_strlit("Failed");
            assert("Correct"@ =~= status_name(Status::Correct));
            assert("Incorrect"@ =~= status_name(Status::Incorrect));
            assert("NoPoints"@ =~= status_name(Status::NoPoints));
            assert("Failed"@ =~= status_name(Status::Failed));
        }
        if str_equal(name, "Correct") {
            Some(Status::Correct)
        } else if str_equal(name, "Incorrect") {
            Some(Status::Incorrect)
        } else if str_equal(name, "NoPoints") {
            Some(Status::NoPoints)
        } else if str_equal(name, "Failed") {
            Some(Status::Failed)
        } else {
            assert forall|s: Status| status_name(s) != name@ by {
                match s {
                    Status::Correct => {},
                    Status::Incorrect => {},
                    Status::NoPoints => {},
                    Status::Failed => {},
                }
            }
            None
        }
    }
}

/// The verdict on a decode result that was produced.
pub open spec fn verdict(truth: GroundTruth, outcome: DecodeResult) -> Status {
    match truth {
        GroundTruth::ExpectedText(t) => if normalize(t@) == normalize(outcome.text@) {
            Status::Correct
        } else {
            Status::Incorrect
        },
        GroundTruth::ExpectedPointSets(sets) => match outcome.points {
            None => Status::NoPoints,
            Some(p) => if detection_correct(quads_view(sets@), p@, DEFAULT_TOLERANCE as nat) {
                Status::Correct
            } else {
                Status::Incorrect
            },
        },
    }
}

/// The verdict on a decode attempt; `None` stands for a call that failed or faulted.
pub open spec fn status_of(truth: GroundTruth, outcome: Option<DecodeResult>) -> Status {
    match outcome {
        None => Status::Failed,
        Some(o) => verdict(truth, o),
    }
}

/// Judges a decode result against the fixture's ground truth: texts are
/// compared after normalization, quads by the rotation-invariant match.
pub fn verify(truth: &GroundTruth, outcome: &DecodeResult) -> (r: Status)
    ensures
        r == verdict(*truth, *outcome),
{
    match truth {
        GroundTruth::ExpectedText(t) => {
            if texts_match(t.as_str(), outcome.text.as_str()) {
                Status::Correct
            } else {
                Status::Incorrect
            }
        },
        GroundTruth::ExpectedPointSets(sets) => match &outcome.points {
            None => Status::NoPoints,
            Some(p) => {
                if is_detection_correct(sets, p, DEFAULT_TOLERANCE) {
                    Status::Correct
                } else {
                    Status::Incorrect
                }
            },
        },
    }
}

/// Status of a decode attempt: `Failed` when the call produced nothing,
/// else the verifier's verdict.
pub fn classify(truth: &GroundTruth, outcome: &Option<DecodeResult>) -> (r: Status)
    ensures
        r == status_of(*truth, *outcome),
{
    match outcome {
        None => Status::Failed,
        Some(o) => verify(truth, o),
    }
}

/// One row of the result stream.
#[derive(Clone, Debug)]
pub struct Measurement {
    pub library: String,
    pub category: String,
    pub file_path: String,
    pub iteration: u32,
    pub duration_us: u128,
    pub status: Status,
    pub expected_text: String,
    pub decoded_text: String,
}

/// Placeholder written as the expected text of a fixture with geometric ground truth.
pub open spec fn points_sentinel() -> Seq<char> {
    seq!['P', 'O', 'I', 'N', 'T', 'S']
}

/// The expected-text column of a fixture.
pub open spec fn expected_column(truth: GroundTruth) -> Seq<char> {
    match truth {
        GroundTruth::ExpectedText(t) => t@,
        GroundTruth::ExpectedPointSets(_) => points_sentinel(),
    }
}

/// The decoded-text column of an attempt: empty when the call failed.
pub open spec fn decoded_column(outcome: Option<DecodeResult>) -> Seq<char> {
    match outcome {
        Some(o) => o.text@,
        None => Seq::empty(),
    }
}

/// Builds the record of one timed trial of `library` on `pair`.
pub fn measurement_record(
    library: &str,
    pair: &TestPair,
    iteration: u32,
    duration_us: u128,
    outcome: &Option<DecodeResult>,
) -> (r: Measurement)
    ensures
        r.library@ == library@,
        r.category@ == pair.category@,
        r.file_path@ == pair.image_path@,
        r.iteration == iteration,
        r.duration_us == duration_us,
        r.status == status_of(pair.ground_truth, *outcome),
        r.expected_text@ == expected_column(pair.ground_truth),
        r.decoded_text@ == decoded_column(*outcome),
{
    let status = classify(&pair.ground_truth, outcome);
    let expected_text = match &pair.ground_truth {
        GroundTruth::ExpectedText(t) => t.clone(),
        GroundTruth::ExpectedPointSets(_) => {
            proof {
                reveal_strlit("POINTS");
            }
            let s = String::from_str("POINTS");
            assert(s@ =~= points_sentinel());
            s
        },
    };
    let decoded_text = match outcome {
        Some(o) => o.text.clone(),
        None => String::new(),
    };
    Measurement {
        library: String::from_str(library),
        category: pair.category.clone(),
        file_path: pair.image_path.clone(),
        iteration,
        duration_us,
        status,
        expected_text,
        decoded_text,
    }
}

/// What a run asks of its driver next.
#[derive(Clone, Copy, Debug, PartialEq, Eq, Structural)]
pub enum Step {
    /// Load the image of fixture `fixture`, then report whether it loaded.
    Load { fixture: usize },
    /// Call decoder `decoder` once on the loaded image and discard the result.
    Warmup { fixture: usize, decoder: usize },
    /// Time one call of decoder `decoder` and record it as trial `trial`.
    Trial { fixture: usize, decoder: usize, trial: u32 },
    /// Every fixture has been visited.
    Done,
}

/// Position of a benchmark run over `fixtures` fixtures, `decoders` decoders
/// and `trials` timed trials per pair, with the progress counter: the number
/// of (fixture, decoder) units finished, skipped ones included.
#[derive(Clone, Copy, Debug)]
pub struct BenchmarkRun {
    pub fixtures: usize,
    pub decoders: usize,
    pub trials: u32,
    pub step: Step,
    pub progress: u64,
}

/// Units of work that lie wholly before `step`.
pub open spec fn units_before(fixtures: nat, decoders: nat, step: Step) -> int {
    match step {
        Step::Load { fixture } => fixture * decoders,
        Step::Warmup { fixture, decoder } => fixture * decoders + decoder,
        Step::Trial { fixture, decoder, .. } => fixture * decoders + decoder,
        Step::Done => (fixtures * decoders) as int,
    }
}

impl BenchmarkRun {
    /// The run's position is a real step and the counter matches it.
    pub open spec fn wf(&self) -> bool {
        &&& self.fixtures * self.decoders <= u64::MAX
        &&& match self.step {
            Step::Load { fixture } => fixture < self.fixtures,
            Step::Warmup { fixture, decoder } => fixture < self.fixtures && decoder < self.decoders,
            Step::Trial { fixture, decoder, trial } => fixture < self.fixtures && decoder
                < self.decoders && 1 <= trial <= self.trials,
            Step::Done => true,
        }
        &&& self.progress == units_before(self.fixtures as nat, self.decoders as nat, self.step)
    }

    /// The step that starts fixture `f`, or `Done` past the last one.
    pub open spec fn fixture_start(&self, f: int) -> Step {
        if f < self.fixtures {
            Step::Load { fixture: f as usize }
        } else {
            Step::Done
        }
    }

    /// The step after decoder `d` has finished on fixture `f`.
    pub open spec fn after_decoder(&self, f: int, d: int) -> Step {
        if d + 1 < self.decoders {
            Step::Warmup { fixture: f as usize, decoder: (d + 1) as usize }
        } else {
            self.fixture_start(f + 1)
        }
    }

    /// The run after the current step; `loaded` says whether the image of a
    /// `Load` step could be loaded and is ignored by the other steps.
    pub open spec fn next(&self, loaded: bool) -> BenchmarkRun {
        match self.step {
            Step::Load { fixture } => if !loaded {
                BenchmarkRun {
                    step: self.fixture_start(fixture + 1),
                    progress: (self.progress + self.decoders) as u64,
                    ..*self
                }
            } else if self.decoders > 0 {
                BenchmarkRun { step: Step::Warmup { fixture, decoder: 0 }, ..*self }
            } else {
                BenchmarkRun { step: self.fixture_start(fixture + 1), ..*self }
            },
            Step::Warmup { fixture, decoder } => if self.trials >= 1 {
                BenchmarkRun { step: Step::Trial { fixture, decoder, trial: 1 }, ..*self }
            } else {
                BenchmarkRun {
                    step: self.after_decoder(fixture as int, decoder as int),
                    progress: (self.progress + 1) as u64,
                    ..*self
                }
            },
            Step::Trial { fixture, decoder, trial } => if trial < self.trials {
                BenchmarkRun { step: Step::Trial { fixture, decoder, trial: (trial + 1) as u32 }, ..*self }
            } else {
                BenchmarkRun {
                    step: self.after_decoder(fixture as int, decoder as int),
                    progress: (self.progress + 1) as u64,
                    ..*self
                }
            },
            Step::Done => *self,
        }
    }

    /// A run at its first step.
    pub fn new(fixtures: usize, decoders: usize, trials: u32) -> (r: BenchmarkRun)
        requires
            fixtures * decoders <= u64::MAX,
        ensures
            r.wf(),
            r.fixtures == fixtures,
            r.decoders == decoders,
            r.trials == trials,
            r.progress == 0,
            r.step == (if fixtures > 0 {
                Step::Load { fixture: 0 }
            } else {
                Step::Done
            }),
    {
        let step = if fixtures > 0 {
            Step::Load { fixture: 0 }
        } else {
            Step::Done
        };
        proof {
            assert(0 * decoders == 0);
        }
        BenchmarkRun { fixtures, decoders, trials, step, progress: 0 }
    }

    fn start_fixture(&self, f: usize) -> (r: Step)
        requires
            f <= self.fixtures,
        ensures
            r == self.fixture_start(f as int),
    {
        if f < self.fixtures {
            Step::Load { fixture: f }
        } else {
            Step::Done
        }
    }

    fn step_after_decoder(&self, f: usize, d: usize) -> (r: Step)
        requires
            f < self.fixtures,
            d < self.decoders,
        ensures
            r == self.after_decoder(f as int, d as int),
    {
        if d + 1 < self.decoders {
            Step::Warmup { fixture: f, decoder: d + 1 }
        } else {
            self.start_fixture(f + 1)
        }
    }

    /// Moves past the current step. Fixtures are visited in order; for each,
    /// decoders in order, each with one warmup call and then trials
    /// `1..=trials`. A fixture whose image did not load is skipped for every
    /// decoder, and the counter advances by the number of decoders.
    pub fn advance(&mut self, loaded: bool)
        requires
            old(self).wf(),
        ensures
            *final(self) == old(self).next(loaded),
            final(self).wf(),
    {
        let ghost nf = self.fixtures as int;
        let ghost nd = self.decoders as int;
        match self.step {
            Step::Load { fixture } => {
                proof {
                    assert((fixture + 1) * nd == fixture * nd + nd) by (nonlinear_arith);
                    assert((fixture + 1) * nd <= nf * nd) by (nonlinear_arith)
                        requires
                            fixture + 1 <= nf,
                            0 <= nd,
                    ;
                }
                if !loaded {
                    self.step = self.start_fixture(fixture + 1);
                    self.progress = self.progress + self.decoders as u64;
                } else if self.decoders > 0 {
                    self.step = Step::Warmup { fixture, decoder: 0 };
                } else {
                    self.step = self.start_fixture(fixture + 1);
                }
            },
            Step::Warmup { fixture, decoder } => {
                proof {
                    assert((fixture + 1) * nd == fixture * nd + nd) by (nonlinear_arith);
                    assert((fixture + 1) * nd <= nf * nd) by (nonlinear_arith)
                        requires
                            fixture + 1 <= nf,
                            0 <= nd,
                    ;
                }
                if self.trials >= 1 {
                    self.step = Step::Trial { fixture, decoder, trial: 1 };
                } else {
                    self.step = self.step_after_decoder(fixture, decoder);
                    self.progress = self.progress + 1;
                }
            },
            Step::Trial { fixture, decoder, trial } => {
                proof {
                    assert((fixture + 1) * nd == fixture * nd + nd) by (nonlinear_arith);
                    assert((fixture + 1) * nd <= nf * nd) by (nonlinear_arith)
                        requires
                            fixture + 1 <= nf,
                            0 <= nd,
                    ;
                }
                if trial < self.trials {
                    self.step = Step::Trial { fixture, decoder, trial: trial + 1 };
                } else {
                    self.step = self.step_after_decoder(fixture, decoder);
                    self.progress = self.progress + 1;
                }
            },
            Step::Done => {},
        }
    }
}

/// When a run is done, its counter has reached fixtures × decoders: every
/// unit of work is counted once, whether its image loaded or not.
pub proof fn lemma_done_counts_every_unit(run: BenchmarkRun)
    requires
        run.wf(),
        run.step == Step::Done,
    ensures
        run.progress == run.fixtures * run.decoders,
{
}

/// Rotation invariance: two results whose corner lists are cyclic rotations
/// of each other receive the same verdict against the same ground truth.
pub proof fn lemma_verdict_rotation_invariant(
    truth: GroundTruth,
    outcome: DecodeResult,
    rotated: DecodeResult,
    k: int,
)
    requires
        0 <= k < 4,
        outcome.text@ == rotated.text@,
        outcome.points matches Some(p) && p@.len() == 4,
        rotated.points matches Some(q) && q@ == rotate(outcome.points->Some_0@, k),
    ensures
        verdict(truth, rotated) == verdict(truth, outcome),
{
    if let GroundTruth::ExpectedPointSets(sets) = truth {
        lemma_detection_rotation_invariant(
            quads_view(sets@),
            outcome.points->Some_0@,
            DEFAULT_TOLERANCE as nat,
            k,
        );
    }
}

/// A detection that does not have exactly four corners is judged
/// `Incorrect` against geometric ground truth, whatever its coordinates.
pub proof fn lemma_wrong_corner_count_incorrect(sets: Vec<Vec<Point>>, outcome: DecodeResult)
    requires
        outcome.points matches Some(p) && p@.len() != 4,
    ensures
        verdict(GroundTruth::ExpectedPointSets(sets), outcome) == Status::Incorrect,
{
}

/// A result without corners is judged `NoPoints` against geometric ground truth.
pub proof fn lemma_missing_points(sets: Vec<Vec<Point>>, outcome: DecodeResult)
    requires
        outcome.points.is_none(),
    ensures
        verdict(GroundTruth::ExpectedPointSets(sets), outcome) == Status::NoPoints,
{
}

/// A decoded text that differs from the expected text only in CR LF versus
/// LF line endings and in surrounding whitespace is judged `Correct`: both
/// are some text padded with whitespace, and the two texts are equal once
/// CR LF is folded to LF.
pub proof fn lemma_text_variants_correct(
    expected: String,
    outcome: DecodeResult,
    expected_lead: Seq<char>,
    expected_core: Seq<char>,
    expected_trail: Seq<char>,
    decoded_lead: Seq<char>,
    decoded_core: Seq<char>,
    decoded_trail: Seq<char>,
)
    requires
        expected@ == expected_lead + expected_core + expected_trail,
        outcome.text@ == decoded_lead + decoded_core + decoded_trail,
        all_ws(expected_lead),
        all_ws(expected_trail),
        all_ws(decoded_lead),
        all_ws(decoded_trail),
        crlf_to_lf(expected_core) == crlf_to_lf(decoded_core),
    ensures
        verdict(GroundTruth::ExpectedText(expected), outcome) == Status::Correct,
{
    lemma_normalize_padding(expected_lead, expected_core, expected_trail);
    lemma_normalize_padding(decoded_lead, decoded_core, decoded_trail);
}

} // verus!
