//! Fixtures: what discovery decides about each image and its annotation.
use vstd::prelude::*;
use crate::geometry::{Point, quads_view};
use crate::text::{trim, annotation_text, annotation_text_of, chars_of, trim_chars};
use crate::annotation::{point_sets, parse_point_sets};

verus! {

/// The expected answer for one fixture: a decoded text, or one or more
/// candidate quads. A fixture has exactly one of the two.
#[derive(Clone, Debug)]
pub enum GroundTruth {
    ExpectedText(String),
    ExpectedPointSets(Vec<Vec<Point>>),
}

/// One test case: an image, the category it belongs to, and its ground truth.
#[derive(Clone, Debug)]
pub struct TestPair {
    pub image_path: String,
    pub category: String,
    pub ground_truth: GroundTruth,
}

pub open spec fn ascii_lower(c: char) -> char {
    if 'A' <= c && c <= 'Z' {
        ((c as u32) + 32) as char
    } else {
        c
    }
}

/// Whether a file extension names a raster format read by the benchmark
/// (`png`, `jpg` or `jpeg`, in any letter case). No non-ASCII character
/// lowercases to one of these letters, so an ASCII case fold decides it.
pub open spec fn is_image_ext(ext: Seq<char>) -> bool {
    let l = ext.map_values(|c: char| ascii_lower(c));
    l == seq!['p', 'n', 'g'] || l == seq!['j', 'p', 'g'] || l == seq!['j', 'p', 'e', 'g']
}

/// Whether an annotation is in the point-set format: its content starts, past
/// blank space, with a comment marker, or it lies under a detection root.
pub open spec fn is_point_format(content: Seq<char>, detection_root: bool) -> bool {
    let t = trim(content);
    detection_root || (t.len() > 0 && t[0] == '#')
}

/// The ground truth that an annotation gives, if any: a point-set annotation
/// with no well-formed quad gives none.
pub open spec fn ground_truth_of(content: Seq<char>, detection_root: bool) -> Option<
    GroundTruthModel,
> {
    if is_point_format(content, detection_root) {
        let sets = point_sets(content);
        if sets.len() > 0 {
            Some(GroundTruthModel::Quads(sets))
        } else {
            None
        }
    } else {
        Some(GroundTruthModel::Text(annotation_text(content)))
    }
}

/// Mathematical form of a ground truth.
pub enum GroundTruthModel {
    Text(Seq<char>),
    Quads(Seq<Seq<Point>>),
}

pub open spec fn model_of(g: GroundTruth) -> GroundTruthModel {
    match g {
        GroundTruth::ExpectedText(t) => GroundTruthModel::Text(t@),
        GroundTruth::ExpectedPointSets(s) => GroundTruthModel::Quads(quads_view(s@)),
    }
}

fn lower_eq(c: char, lower: char) -> (r: bool)
    ensures
        r == (ascii_lower(c) == lower),
{
    if 'A' <= c && c <= 'Z' {
        ((c as u32) + 32) == lower as u32
    } else {
        c == lower
    }
}

/// Whether a file extension names a raster format read by the benchmark.
pub fn is_image_extension(ext: &str) -> (r: bool)
    ensures
        r == is_image_ext(ext@),
{
    let e = chars_of(ext);
    let ghost l = e@.map_values(|c: char| ascii_lower(c));
    if e.len() == 3 {
        let p = lower_eq(e[0], 'p') && lower_eq(e[1], 'n') && lower_eq(e[2], 'g');
        let j = lower_eq(e[0], 'j') && lower_eq(e[1], 'p') && lower_eq(e[2], 'g');
        proof {
            assert(p == (l =~= seq!['p', 'n', 'g']));
            assert(j == (l =~= seq!['j', 'p', 'g']));
            assert(l.len() != 4);
        }
        p || j
    } else if e.len() == 4 {
        let r = lower_eq(e[0], 'j') && lower_eq(e[1], 'p') && lower_eq(e[2], 'e') && lower_eq(
            e[3],
            'g',
        );
        proof {
            assert(r == (l =~= seq!['j', 'p', 'e', 'g']));
            assert(l.len() != 3);
        }
        r
    } else {
        assert(l.len() != 3 && l.len() != 4);
        false
    }
}

/// Parses an annotation into a ground truth. Under a detection root, or when
/// the content starts with a comment marker, it is read as point sets and
/// gives nothing when no line holds a well-formed quad; otherwise the trimmed
/// content, with CR LF folded to LF, is the expected text.
pub fn parse_annotation(content: &str, detection_root: bool) -> (r: Option<GroundTruth>)
    ensures
        match r {
            Some(g) => ground_truth_of(content@, detection_root) == Some(model_of(g)),
            None => ground_truth_of(content@, detection_root).is_none(),
        },
{
    let c = chars_of(content);
    let t = trim_chars(&c);
    if detection_root || (t.len() > 0 && t[0] == '#') {
        let sets = parse_point_sets(content);
        if sets.len() > 0 {
            Some(GroundTruth::ExpectedPointSets(sets))
        } else {
            None
        }
    } else {
        Some(GroundTruth::ExpectedText(annotation_text_of(content)))
    }
}

/// Builds the fixture for an image. `annotation` is the content of its
/// sibling annotation file, `None` when there is no such file; an image
/// without annotation, or whose annotation gives no ground truth, is no
/// fixture.
pub fn build_test_pair(
    image_path: String,
    category: String,
    annotation: Option<&str>,
    detection_root: bool,
) -> (r: Option<TestPair>)
    ensures
        annotation.is_none() ==> r.is_none(),
        annotation matches Some(content) ==> match r {
            Some(p) => p.image_path == image_path && p.category == category && ground_truth_of(
                content@,
                detection_root,
            ) == Some(model_of(p.ground_truth)),
            None => ground_truth_of(content@, detection_root).is_none(),
        },
{
    match annotation {
        None => None,
        Some(content) => match parse_annotation(content, detection_root) {
            Some(g) => Some(TestPair { image_path, category, ground_truth: g }),
            None => None,
        },
    }
}

/// Number of entries of `s` before index `upto` that equal `x`.
pub open spec fn occurrences(s: Seq<Seq<char>>, x: Seq<char>, upto: int) -> nat
    decreases upto,
{
    if upto <= 0 {
        0
    } else {
        occurrences(s, x, upto - 1) + if s[upto - 1] == x {
            1nat
        } else {
            0nat
        }
    }
}

/// Whether the image at index `i` survives the per-category cap: the first
/// `limit` images of each category, in encounter order, are kept.
pub open spec fn within_cap(cats: Seq<Seq<char>>, limit: Option<nat>, i: int) -> bool {
    match limit {
        Some(l) => occurrences(cats, cats[i], i) < l,
        None => true,
    }
}

pub open spec fn strings_view(v: Seq<String>) -> Seq<Seq<char>> {
    v.map_values(|s: String| s@)
}

pub open spec fn opt_nat(o: Option<usize>) -> Option<nat> {
    match o {
        Some(l) => Some(l as nat),
        None => None,
    }
}

/// For each candidate image, given by its category in encounter order,
/// whether the per-category cap keeps it.
pub fn select_within_cap(categories: &Vec<String>, limit: Option<usize>) -> (r: Vec<bool>)
    ensures
        r@.len() == categories@.len(),
        forall|i: int|
            0 <= i < r@.len() ==> #[trigger] r@[i] == within_cap(
                strings_view(categories@),
                opt_nat(limit),
                i,
            ),
{
    let ghost cats = strings_view(categories@);
    let n = categories.len();
    let mut r: Vec<bool> = Vec::new();
    let mut i: usize = 0;
    while i < n
        invariant
            n == categories@.len(),
            cats == strings_view(categories@),
            i <= n,
            r@.len() == i,
            forall|k: int| 0 <= k < i ==> #[trigger] r@[k] == within_cap(cats, opt_nat(limit), k),
        decreases n - i,
    {
        match limit {
            None => {
                r.push(true);
            },
            Some(l) => {
                let mut count: usize = 0;
                let mut j: usize = 0;
                while j < i
                    invariant
                        n == categories@.len(),
                        cats == strings_view(categories@),
                        i < n,
                        j <= i,
                        count as nat == occurrences(cats, cats[i as int], j as int),
                        count <= j,
                    decreases i - j,
                {
                    if categories[j] == categories[i] {
                        count += 1;
                    }
                    j += 1;
                }
                r.push(count < l);
            },
        }
        i += 1;
    }
    r
}

/// Categories of the images that the cap keeps, in encounter order.
pub open spec fn kept_categories(cats: Seq<Seq<char>>, limit: Option<nat>) -> Seq<Seq<char>>
    decreases cats.len(),
{
    if cats.len() == 0 {
        Seq::empty()
    } else {
        let prev = kept_categories(cats.drop_last(), limit);
        if within_cap(cats, limit, cats.len() - 1) {
            prev.push(cats.last())
        } else {
            prev
        }
    }
}

/// Counting before `upto` looks only at the first `upto` entries.
proof fn lemma_occurrences_prefix(s: Seq<Seq<char>>, t: Seq<Seq<char>>, x: Seq<char>, upto: int)
    requires
        0 <= upto <= s.len(),
    ensures
        occurrences(s + t, x, upto) == occurrences(s, x, upto),
    decreases upto,
{
    if upto > 0 {
        lemma_occurrences_prefix(s, t, x, upto - 1);
        assert((s + t)[upto - 1] == s[upto - 1]);
    }
}

proof fn lemma_occurrences_push(s: Seq<Seq<char>>, c: Seq<char>, x: Seq<char>)
    ensures
        occurrences(s.push(c), x, s.len() + 1 as int) == occurrences(s, x, s.len() as int) + if c == x {
            1nat
        } else {
            0nat
        },
{
    lemma_occurrences_prefix(s, seq![c], x, s.len() as int);
    assert(s.push(c) =~= s + seq![c]);
    assert(s.push(c)[s.len() as int] == c);
}

/// Of each category, the cap keeps as many images as there are, up to the limit.
proof fn lemma_kept_counts(cats: Seq<Seq<char>>, l: nat, x: Seq<char>)
    ensures
        occurrences(
            kept_categories(cats, Some(l)),
            x,
            kept_categories(cats, Some(l)).len() as int,
        ) == if occurrences(cats, x, cats.len() as int) < l {
            occurrences(cats, x, cats.len() as int)
        } else {
            l
        },
    decreases cats.len(),
{
    if cats.len() > 0 {
        let p = cats.drop_last();
        let c = cats.last();
        let kp = kept_categories(p, Some(l));
        lemma_kept_counts(p, l, x);
        lemma_kept_counts(p, l, c);
        assert(cats =~= p.push(c));
        lemma_occurrences_push(p, c, x);
        lemma_occurrences_push(p, c, c);
        if within_cap(cats, Some(l), cats.len() - 1) {
            lemma_occurrences_push(kp, c, x);
        }
    }
}

/// Running the cap again over the images it kept keeps all of them: the
/// per-category selection is idempotent.
pub proof fn lemma_cap_selection_idempotent(cats: Seq<Seq<char>>, limit: Option<nat>)
    ensures
        forall|i: int|
            0 <= i < kept_categories(cats, limit).len() ==> #[trigger] within_cap(
                kept_categories(cats, limit),
                limit,
                i,
            ),
    decreases cats.len(),
{
    let k = kept_categories(cats, limit);
    if cats.len() > 0 {
        if let Some(l) = limit {
            let p = cats.drop_last();
            let c = cats.last();
            let kp = kept_categories(p, limit);
            lemma_cap_selection_idempotent(p, limit);
            assert(cats =~= p.push(c));
            assert forall|i: int| 0 <= i < k.len() implies #[trigger] within_cap(k, limit, i) by {
                if i < kp.len() {
                    assert(within_cap(kp, limit, i));
                    if k.len() > kp.len() {
                        assert(k =~= kp + seq![c]);
                        lemma_occurrences_prefix(kp, seq![c], kp[i], i);
                        assert(k[i] == kp[i]);
                    } else {
                        assert(k == kp);
                    }
                } else {
                    assert(k =~= kp + seq![c]);
                    assert(k[i] == c);
                    lemma_occurrences_prefix(kp, seq![c], c, kp.len() as int);
                    lemma_kept_counts(p, l, c);
                    lemma_occurrences_prefix(p, seq![c], c, p.len() as int);
                    assert(p + seq![c] =~= cats);
                }
            }
        }
    }
}

} // verus!
