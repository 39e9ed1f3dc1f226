//! Aggregation of measurement records: success counts and latency statistics.
use vstd::prelude::*;
use vstd::seq_lib::lemma_multiset_commutative;
use vstd::multiset::Multiset;
use crate::benchmark::{Measurement, Status};
use crate::text::{str_lt, str_less, str_equal, lemma_str_lt_total};

verus! {

/// Durations of the records of `library` whose status is `Correct`, in
/// record order.
pub open spec fn correct_samples(records: Seq<Measurement>, library: Seq<char>) -> Seq<u128>
    decreases records.len(),
{
    if records.len() == 0 {
        Seq::empty()
    } else {
        let prev = correct_samples(records.drop_last(), library);
        let m = records.last();
        if m.library@ == library && m.status == Status::Correct {
            prev.push(m.duration_us)
        } else {
            prev
        }
    }
}

/// Durations of all records whose status is `Correct`, in record order.
pub open spec fn all_correct_samples(records: Seq<Measurement>) -> Seq<u128>
    decreases records.len(),
{
    if records.len() == 0 {
        Seq::empty()
    } else {
        let prev = all_correct_samples(records.drop_last());
        let m = records.last();
        if m.status == Status::Correct {
            prev.push(m.duration_us)
        } else {
            prev
        }
    }
}

/// `x` placed before the first element of `s` that is not smaller.
pub open spec fn insert_sorted(s: Seq<u128>, x: u128) -> Seq<u128>
    decreases s.len(),
{
    if s.len() == 0 {
        seq![x]
    } else if x <= s[0] {
        seq![x] + s
    } else {
        seq![s[0]] + insert_sorted(s.drop_first(), x)
    }
}

/// `s` in ascending order.
pub open spec fn sorted(s: Seq<u128>) -> Seq<u128>
    decreases s.len(),
{
    if s.len() == 0 {
        s
    } else {
        insert_sorted(sorted(s.drop_last()), s.last())
    }
}

/// Median: the element at index `n / 2` of the ascending order.
pub open spec fn median_of(s: Seq<u128>) -> u128 {
    sorted(s)[(s.len() / 2) as int]
}

/// 95th percentile: the element at index `floor(0.95 * n)` of the ascending order.
pub open spec fn p95_of(s: Seq<u128>) -> u128 {
    sorted(s)[((95 * s.len()) / 100) as int]
}

/// 98th percentile, the clipping bound of the density buckets.
pub open spec fn p98_of(s: Seq<u128>) -> u128 {
    sorted(s)[((98 * s.len()) / 100) as int]
}

pub proof fn lemma_insert_sorted_len(s: Seq<u128>, x: u128)
    ensures
        insert_sorted(s, x).len() == s.len() + 1,
    decreases s.len(),
{
    if s.len() > 0 && x > s[0] {
        lemma_insert_sorted_len(s.drop_first(), x);
    }
}

pub proof fn lemma_sorted_len(s: Seq<u128>)
    ensures
        sorted(s).len() == s.len(),
    decreases s.len(),
{
    if s.len() > 0 {
        lemma_sorted_len(s.drop_last());
        lemma_insert_sorted_len(sorted(s.drop_last()), s.last());
    }
}

/// Inserting before the first element that is not smaller is `insert_sorted`.
proof fn lemma_insert_sorted_at(s: Seq<u128>, x: u128, p: int)
    requires
        0 <= p <= s.len(),
        forall|i: int| 0 <= i < p ==> #[trigger] s[i] < x,
        p == s.len() || x <= s[p],
    ensures
        insert_sorted(s, x) == s.insert(p, x),
    decreases p,
{
    if p == 0 {
        if s.len() == 0 {
            assert(s.insert(0, x) =~= seq![x]);
        } else {
            assert(s.insert(0, x) =~= seq![x] + s);
        }
    } else {
        let t = s.drop_first();
        assert forall|i: int| 0 <= i < p - 1 implies #[trigger] t[i] < x by {
            assert(t[i] == s[i + 1]);
        }
        assert(s[0] < x);
        lemma_insert_sorted_at(t, x, p - 1);
        assert(seq![s[0]] + t.insert(p - 1, x) =~= s.insert(p, x));
    }
}

/// The samples in ascending order.
pub fn sort_samples(v: &Vec<u128>) -> (r: Vec<u128>)
    ensures
        r@ == sorted(v@),
{
    let mut r: Vec<u128> = Vec::new();
    let mut i: usize = 0;
    assert(v@.take(0) =~= Seq::<u128>::empty());
    while i < v.len()
        invariant
            i <= v@.len(),
            r@ == sorted(v@.take(i as int)),
        decreases v@.len() - i,
    {
        let x = v[i];
        let mut p: usize = 0;
        while p < r.len() && r[p] < x
            invariant
                p <= r@.len(),
                forall|k: int| 0 <= k < p ==> #[trigger] r@[k] < x,
            decreases r@.len() - p,
        {
            p += 1;
        }
        proof {
            lemma_insert_sorted_at(r@, x, p as int);
            assert(v@.take(i + 1).drop_last() =~= v@.take(i as int));
        }
        r.insert(p, x);
        i += 1;
    }
    assert(v@.take(v@.len() as int) =~= v@);
    r
}

/// Median and 95th percentile of a non-empty sample list.
#[derive(Clone, Copy, Debug, PartialEq, Eq, Structural)]
pub struct LatencySummary {
    pub median: u128,
    pub p95: u128,
}

/// Median and 95th percentile of the samples, by index into their ascending
/// order (no interpolation); `None` when there are no samples.
pub fn latency_summary(samples: &Vec<u128>) -> (r: Option<LatencySummary>)
    ensures
        samples@.len() == 0 ==> r.is_none(),
        samples@.len() > 0 ==> r == Some(
            LatencySummary { median: median_of(samples@), p95: p95_of(samples@) },
        ),
{
    if samples.len() == 0 {
        return None;
    }
    let s = sort_samples(samples);
    proof {
        lemma_sorted_len(samples@);
    }
    let n = s.len();
    let k95: usize = ((95 * (n as u128)) / 100) as usize;
    Some(LatencySummary { median: s[n / 2], p95: s[k95] })
}

/// Durations of the `Correct` records of `library`, in record order.
pub fn correct_durations(records: &Vec<Measurement>, library: &str) -> (r: Vec<u128>)
    ensures
        r@ == correct_samples(records@, library@),
{
    let mut r: Vec<u128> = Vec::new();
    let mut i: usize = 0;
    assert(records@.take(0) =~= Seq::<Measurement>::empty());
    while i < records.len()
        invariant
            i <= records@.len(),
            r@ == correct_samples(records@.take(i as int), library@),
        decreases records@.len() - i,
    {
        let m = &records[i];
        assert(records@.take(i + 1).drop_last() =~= records@.take(i as int));
        if str_equal(m.library.as_str(), library) && m.status == Status::Correct {
            r.push(m.duration_us);
        }
        i += 1;
    }
    assert(records@.take(records@.len() as int) =~= records@);
    r
}

/// Durations of all `Correct` records, in record order.
pub fn all_correct_durations(records: &Vec<Measurement>) -> (r: Vec<u128>)
    ensures
        r@ == all_correct_samples(records@),
{
    let mut r: Vec<u128> = Vec::new();
    let mut i: usize = 0;
    assert(records@.take(0) =~= Seq::<Measurement>::empty());
    while i < records.len()
        invariant
            i <= records@.len(),
            r@ == all_correct_samples(records@.take(i as int)),
        decreases records@.len() - i,
    {
        let m = &records[i];
        assert(records@.take(i + 1).drop_last() =~= records@.take(i as int));
        if m.status == Status::Correct {
            r.push(m.duration_us);
        }
        i += 1;
    }
    assert(records@.take(records@.len() as int) =~= records@);
    r
}

/// Number of equal-width buckets that split `[0, P98]`; the bucket holding
/// P98 itself comes after them, so counts run over `0..=DENSITY_BUCKETS`.
pub const DENSITY_BUCKETS: usize = 50;

/// Width of the density buckets for clipping bound `clip`: `ceil(clip / 50)`,
/// and at least one.
pub open spec fn bucket_width(clip: u128) -> u128 {
    let w = (clip as int + 49) / 50;
    if w < 1 {
        1
    } else {
        w as u128
    }
}

/// Number of samples not above `clip` that fall into bucket `b` of width `w`.
pub open spec fn bucket_count(s: Seq<u128>, clip: u128, w: u128, b: int) -> nat
    decreases s.len(),
{
    if s.len() == 0 {
        0
    } else {
        let d = s.last();
        bucket_count(s.drop_last(), clip, w, b) + if d <= clip && (d / w) as int == b {
            1nat
        } else {
            0nat
        }
    }
}

/// A histogram of one decoder's latency samples.
#[derive(Clone, Debug)]
pub struct DensityBuckets {
    /// The clipping bound: P98 of all correct samples of the run.
    pub clip: u128,
    /// Width of each bucket; bucket `b` starts at `b * width`.
    pub width: u128,
    /// Samples per bucket, `DENSITY_BUCKETS + 1` of them.
    pub counts: Vec<usize>,
}

/// Histogram of `samples` over buckets that split `[0, P98 of all]` evenly;
/// samples above that P98 are left out. `None` when `all` is empty.
pub fn density_buckets(all: &Vec<u128>, samples: &Vec<u128>) -> (r: Option<DensityBuckets>)
    ensures
        all@.len() == 0 ==> r.is_none(),
        all@.len() > 0 ==> r.is_some(),
        r matches Some(d) ==> {
            &&& d.clip == p98_of(all@)
            &&& d.width == bucket_width(d.clip)
            &&& d.counts@.len() == DENSITY_BUCKETS + 1
            &&& forall|b: int|
                0 <= b <= DENSITY_BUCKETS ==> #[trigger] d.counts@[b] == bucket_count(
                    samples@,
                    d.clip,
                    d.width,
                    b,
                )
        },
{
    if all.len() == 0 {
        return None;
    }
    let sorted_all = sort_samples(all);
    proof {
        lemma_sorted_len(all@);
    }
    let n = sorted_all.len();
    let k98: usize = ((98 * (n as u128)) / 100) as usize;
    let clip = sorted_all[k98];
    let w0: u128 = clip / 50 + if clip % 50 == 0 {
        0
    } else {
        1
    };
    assert(w0 == (clip as int + 49) / 50);
    let width: u128 = if w0 < 1 {
        1
    } else {
        w0
    };
    let mut counts: Vec<usize> = Vec::new();
    let mut b: usize = 0;
    while b <= DENSITY_BUCKETS
        invariant
            b <= DENSITY_BUCKETS + 1,
            counts@.len() == b,
            forall|k: int| 0 <= k < b ==> #[trigger] counts@[k] == 0,
        decreases DENSITY_BUCKETS + 1 - b,
    {
        counts.push(0);
        b += 1;
    }
    let mut i: usize = 0;
    assert(samples@.take(0) =~= Seq::<u128>::empty());
    while i < samples.len()
        invariant
            i <= samples@.len(),
            width >= 1,
            counts@.len() == DENSITY_BUCKETS + 1,
            forall|k: int|
                0 <= k <= DENSITY_BUCKETS ==> #[trigger] counts@[k] == bucket_count(
                    samples@.take(i as int),
                    clip,
                    width,
                    k,
                ),
            forall|k: int| 0 <= k <= DENSITY_BUCKETS ==> #[trigger] counts@[k] <= i,
        decreases samples@.len() - i,
    {
        let d = samples[i];
        assert(samples@.take(i + 1).drop_last() =~= samples@.take(i as int));
        if d <= clip {
            let q: u128 = d / width;
            if q <= DENSITY_BUCKETS as u128 {
                let k = q as usize;
                let c = counts[k];
                counts.set(k, c + 1);
            }
        }
        i += 1;
    }
    assert(samples@.take(samples@.len() as int) =~= samples@);
    Some(DensityBuckets { clip, width, counts })
}

/// Number of records of `library` on `category`.
pub open spec fn pair_total(records: Seq<Measurement>, library: Seq<char>, category: Seq<char>) -> nat
    decreases records.len(),
{
    if records.len() == 0 {
        0
    } else {
        let m = records.last();
        pair_total(records.drop_last(), library, category) + if m.library@ == library
            && m.category@ == category {
            1nat
        } else {
            0nat
        }
    }
}

/// Number of `Correct` records of `library` on `category`.
pub open spec fn pair_correct(records: Seq<Measurement>, library: Seq<char>, category: Seq<char>) -> nat
    decreases records.len(),
{
    if records.len() == 0 {
        0
    } else {
        let m = records.last();
        pair_correct(records.drop_last(), library, category) + if m.library@ == library
            && m.category@ == category && m.status == Status::Correct {
            1nat
        } else {
            0nat
        }
    }
}

/// Correct and total counts of one (decoder, category) cell.
#[derive(Clone, Copy, Debug, PartialEq, Eq, Structural)]
pub struct SuccessCount {
    pub correct: usize,
    pub total: usize,
}

/// Counts of the records of `library` on `category`: every record counts
/// toward the total, `Correct` ones toward the correct count too.
pub fn success_count(records: &Vec<Measurement>, library: &str, category: &str) -> (r: SuccessCount)
    ensures
        r.total == pair_total(records@, library@, category@),
        r.correct == pair_correct(records@, library@, category@),
        r.correct <= r.total,
{
    let mut correct: usize = 0;
    let mut total: usize = 0;
    let mut i: usize = 0;
    assert(records@.take(0) =~= Seq::<Measurement>::empty());
    while i < records.len()
        invariant
            i <= records@.len(),
            correct <= total <= i,
            total == pair_total(records@.take(i as int), library@, category@),
            correct == pair_correct(records@.take(i as int), library@, category@),
        decreases records@.len() - i,
    {
        let m = &records[i];
        assert(records@.take(i + 1).drop_last() =~= records@.take(i as int));
        if str_equal(m.library.as_str(), library) && str_equal(
            m.category.as_str(),
            category,
        ) {
            total += 1;
            if m.status == Status::Correct {
                correct += 1;
            }
        }
        i += 1;
    }
    assert(records@.take(records@.len() as int) =~= records@);
    SuccessCount { correct, total }
}

proof fn lemma_correct_samples_concat(a: Seq<Measurement>, b: Seq<Measurement>, library: Seq<char>)
    ensures
        correct_samples(a + b, library) == correct_samples(a, library) + correct_samples(b, library),
    decreases b.len(),
{
    if b.len() == 0 {
        assert(a + b =~= a);
        assert(correct_samples(a, library) + correct_samples(b, library) =~= correct_samples(a, library));
    } else {
        lemma_correct_samples_concat(a, b.drop_last(), library);
        assert((a + b).drop_last() =~= a + b.drop_last());
        assert((a + b).last() == b.last());
        let m = b.last();
        if m.library@ == library && m.status == Status::Correct {
            assert(correct_samples(a, library) + correct_samples(b.drop_last(), library).push(m.duration_us)
                =~= (correct_samples(a, library) + correct_samples(b.drop_last(), library)).push(m.duration_us));
        }
    }
}

proof fn lemma_no_correct_no_samples(x: Seq<Measurement>, library: Seq<char>)
    requires
        forall|i: int| 0 <= i < x.len() ==> (#[trigger] x[i]).status != Status::Correct,
    ensures
        correct_samples(x, library) == Seq::<u128>::empty(),
    decreases x.len(),
{
    if x.len() > 0 {
        let p = x.drop_last();
        assert forall|i: int| 0 <= i < p.len() implies (#[trigger] p[i]).status != Status::Correct by {
            assert(p[i] == x[i]);
        }
        lemma_no_correct_no_samples(p, library);
        assert(x[x.len() - 1].status != Status::Correct);
    }
}

/// Records that are not `Correct` never reach the latency statistics:
/// inserting any such records anywhere in a record stream leaves each
/// decoder's samples, and so its median and 95th percentile, unchanged.
pub proof fn lemma_incorrect_records_leave_latency(
    before: Seq<Measurement>,
    injected: Seq<Measurement>,
    after: Seq<Measurement>,
    library: Seq<char>,
)
    requires
        forall|i: int| 0 <= i < injected.len() ==> (#[trigger] injected[i]).status != Status::Correct,
    ensures
        correct_samples(before + injected + after, library) == correct_samples(before + after, library),
        median_of(correct_samples(before + injected + after, library)) == median_of(
            correct_samples(before + after, library),
        ),
        p95_of(correct_samples(before + injected + after, library)) == p95_of(
            correct_samples(before + after, library),
        ),
{
    lemma_correct_samples_concat(before + injected, after, library);
    lemma_correct_samples_concat(before, injected, library);
    lemma_correct_samples_concat(before, after, library);
    lemma_no_correct_no_samples(injected, library);
    assert(correct_samples(before, library) + Seq::<u128>::empty() =~= correct_samples(before, library));
}

pub open spec fn names_view(v: Seq<String>) -> Seq<Seq<char>> {
    v.map_values(|s: String| s@)
}

/// Each name precedes the next one.
pub open spec fn strictly_ascending(s: Seq<Seq<char>>) -> bool {
    forall|i: int| 0 <= i < s.len() - 1 ==> str_lt(#[trigger] s[i], s[i + 1])
}

/// Adds `name` to an ascending list of names unless it is there already.
fn insert_name(axis: &mut Vec<String>, name: &String)
    requires
        strictly_ascending(names_view(old(axis)@)),
    ensures
        strictly_ascending(names_view(final(axis)@)),
        forall|x: Seq<char>|
            names_view(final(axis)@).contains(x) <==> (names_view(old(axis)@).contains(x) || x
                == name@),
{
    let ghost v0 = names_view(axis@);
    let mut p: usize = 0;
    while p < axis.len() && str_less(axis[p].as_str(), name.as_str())
        invariant
            p <= axis@.len(),
            v0 == names_view(axis@),
            p > 0 ==> str_lt(v0[p - 1], name@),
        decreases axis@.len() - p,
    {
        p += 1;
    }
    if p < axis.len() && str_equal(axis[p].as_str(), name.as_str()) {
        assert(v0[p as int] == name@);
        return;
    }
    proof {
        if p < v0.len() {
            lemma_str_lt_total(v0[p as int], name@);
        }
    }
    axis.insert(p, name.clone());
    let ghost v1 = names_view(axis@);
    assert(v1 =~= v0.insert(p as int, name@));
    assert forall|i: int| 0 <= i < v1.len() - 1 implies str_lt(#[trigger] v1[i], v1[i + 1]) by {
        if i + 1 < p {
            assert(v1[i] == v0[i] && v1[i + 1] == v0[i + 1]);
        } else if i > p {
            assert(v1[i] == v0[i - 1] && v1[i + 1] == v0[i]);
        }
    }
    assert forall|x: Seq<char>| v1.contains(x) <==> (v0.contains(x) || x == name@) by {
        if v1.contains(x) {
            let k = choose|k: int| 0 <= k < v1.len() && v1[k] == x;
            if k < p {
                assert(v0[k] == x);
            } else if k > p {
                assert(v0[k - 1] == x);
            }
        }
        if v0.contains(x) {
            let k = choose|k: int| 0 <= k < v0.len() && v0[k] == x;
            if k < p {
                assert(v1[k] == x);
            } else {
                assert(v1[k + 1] == x);
            }
        }
        if x == name@ {
            assert(v1[p as int] == x);
        }
    }
}

/// The decoder names that occur in the records, each once, in ascending order.
pub fn library_axis(records: &Vec<Measurement>) -> (r: Vec<String>)
    ensures
        strictly_ascending(names_view(r@)),
        forall|x: Seq<char>|
            names_view(r@).contains(x) <==> exists|i: int|
                0 <= i < records@.len() && (#[trigger] records@[i]).library@ == x,
{
    let mut axis: Vec<String> = Vec::new();
    let mut i: usize = 0;
    assert(names_view(axis@) =~= Seq::<Seq<char>>::empty());
    while i < records.len()
        invariant
            i <= records@.len(),
            strictly_ascending(names_view(axis@)),
            forall|x: Seq<char>|
                names_view(axis@).contains(x) <==> exists|k: int|
                    0 <= k < i && (#[trigger] records@[k]).library@ == x,
        decreases records@.len() - i,
    {
        insert_name(&mut axis, &records[i].library);
        assert forall|x: Seq<char>| names_view(axis@).contains(x) <==> exists|k: int|
            0 <= k < i + 1 && (#[trigger] records@[k]).library@ == x by {
            if x == records@[i as int].library@ {
                assert(records@[i as int].library@ == x);
            }
        }
        i += 1;
    }
    axis
}

/// The categories that occur in the records, each once, in ascending order.
pub fn category_axis(records: &Vec<Measurement>) -> (r: Vec<String>)
    ensures
        strictly_ascending(names_view(r@)),
        forall|x: Seq<char>|
            names_view(r@).contains(x) <==> exists|i: int|
                0 <= i < records@.len() && (#[trigger] records@[i]).category@ == x,
{
    let mut axis: Vec<String> = Vec::new();
    let mut i: usize = 0;
    assert(names_view(axis@) =~= Seq::<Seq<char>>::empty());
    while i < records.len()
        invariant
            i <= records@.len(),
            strictly_ascending(names_view(axis@)),
            forall|x: Seq<char>|
                names_view(axis@).contains(x) <==> exists|k: int|
                    0 <= k < i && (#[trigger] records@[k]).category@ == x,
        decreases records@.len() - i,
    {
        insert_name(&mut axis, &records[i].category);
        assert forall|x: Seq<char>| names_view(axis@).contains(x) <==> exists|k: int|
            0 <= k < i + 1 && (#[trigger] records@[k]).category@ == x by {
            if x == records@[i as int].category@ {
                assert(records@[i as int].category@ == x);
            }
        }
        i += 1;
    }
    axis
}

/// Each element is at most every later one.
pub open spec fn ascending(s: Seq<u128>) -> bool {
    forall|i: int, j: int| 0 <= i < j < s.len() ==> s[i] <= s[j]
}

proof fn lemma_singleton_multiset(x: u128)
    ensures
        seq![x].to_multiset() =~= Multiset::<u128>::empty().insert(x),
{
    broadcast use vstd::seq_lib::group_to_multiset_ensures;

    assert(seq![x] =~= Seq::<u128>::empty().push(x));
    assert(Seq::<u128>::empty().to_multiset() =~= Multiset::<u128>::empty()) by {
        assert(Seq::<u128>::empty().to_multiset().len() == 0);
    }
}

/// `insert_sorted` adds `x` to the elements and keeps ascending order.
proof fn lemma_insert_sorted_props(s: Seq<u128>, x: u128)
    requires
        ascending(s),
    ensures
        insert_sorted(s, x).to_multiset() =~= s.to_multiset().insert(x),
        ascending(insert_sorted(s, x)),
        forall|k: int|
            0 <= k < insert_sorted(s, x).len() ==> #[trigger] insert_sorted(s, x)[k] == x || s.contains(
                insert_sorted(s, x)[k],
            ),
    decreases s.len(),
{
    broadcast use vstd::seq_lib::group_to_multiset_ensures;

    lemma_insert_sorted_len(s, x);
    lemma_singleton_multiset(x);
    if s.len() == 0 {
        assert(s.to_multiset() =~= Multiset::<u128>::empty()) by {
            assert(s.to_multiset().len() == 0);
        }
    } else if x <= s[0] {
        lemma_multiset_commutative(seq![x], s);
        let r = seq![x] + s;
        assert forall|k: int| 0 <= k < r.len() implies #[trigger] r[k] == x || s.contains(r[k]) by {
            if k > 0 {
                assert(r[k] == s[k - 1]);
            }
        }
    } else {
        let t = s.drop_first();
        assert(ascending(t));
        lemma_insert_sorted_props(t, x);
        let it = insert_sorted(t, x);
        let r = seq![s[0]] + it;
        lemma_singleton_multiset(s[0]);
        lemma_multiset_commutative(seq![s[0]], it);
        assert(s =~= seq![s[0]] + t);
        lemma_multiset_commutative(seq![s[0]], t);
        assert forall|k: int| 0 <= k < r.len() implies #[trigger] r[k] == x || s.contains(r[k]) by {
            if k > 0 {
                assert(r[k] == it[k - 1]);
                if it[k - 1] != x {
                    let j = choose|j: int| 0 <= j < t.len() && t[j] == it[k - 1];
                    assert(s[j + 1] == t[j]);
                }
            } else {
                assert(s[0] == r[0]);
            }
        }
        assert forall|i: int, j: int| 0 <= i < j < r.len() implies r[i] <= r[j] by {
            if i == 0 {
                assert(r[j] == it[j - 1]);
                if it[j - 1] != x {
                    let m = choose|m: int| 0 <= m < t.len() && t[m] == it[j - 1];
                    assert(s[m + 1] == t[m]);
                }
            } else {
                assert(r[i] == it[i - 1] && r[j] == it[j - 1]);
            }
        }
    }
}

/// `sorted(s)` is an ascending arrangement of exactly the elements of `s`.
pub proof fn lemma_sorted_is_ascending_permutation(s: Seq<u128>)
    ensures
        ascending(sorted(s)),
        sorted(s).to_multiset() =~= s.to_multiset(),
    decreases s.len(),
{
    broadcast use vstd::seq_lib::group_to_multiset_ensures;

    if s.len() == 0 {
    } else {
        let p = s.drop_last();
        lemma_sorted_is_ascending_permutation(p);
        lemma_insert_sorted_props(sorted(p), s.last());
        assert(s =~= p.push(s.last()));
    }
}

} // verus!
