//! Parsing of the point-set annotation format.
//!
//! Each line that is not blank, not a comment (`#`) and not the `SETS` marker,
//! and that holds at least eight whitespace-separated numerals, gives one quad:
//! the first eight numerals as four `(x, y)` corners. Other lines are skipped.
use vstd::prelude::*;
use crate::geometry::{Point, quads_view};
use crate::text::{is_ws, trim, chars_of, trim_chars, char_is_ws};

verus! {

/// Largest coordinate magnitude accepted, in thousandths of a pixel.
pub const COORD_LIMIT: u64 = 1_000_000_000_000_000;

/// Saturation bound used while reading the integer digits of a numeral.
const INT_CAP: u64 = 1_000_000_000_001;

pub open spec fn is_digit(c: char) -> bool {
    '0' <= c && c <= '9'
}

pub open spec fn digit_value(c: char) -> nat {
    (c as u32 - '0' as u32) as nat
}

pub open spec fn all_digits(d: Seq<char>) -> bool {
    forall|i: int| 0 <= i < d.len() ==> is_digit(#[trigger] d[i])
}

/// The value of a sequence of decimal digits.
pub open spec fn digits_value(d: Seq<char>) -> nat
    decreases d.len(),
{
    if d.len() == 0 {
        0
    } else {
        digits_value(d.drop_last()) * 10 + digit_value(d.last())
    }
}

/// Thousandths given by fraction digits; digits past the third are dropped.
pub open spec fn fraction_milli(f: Seq<char>) -> nat {
    if f.len() >= 3 {
        digits_value(f.take(3))
    } else if f.len() == 2 {
        digits_value(f) * 10
    } else if f.len() == 1 {
        digits_value(f) * 100
    } else {
        0
    }
}

/// Index of the first `.` in `s`, or its length when there is none.
pub open spec fn dot_pos(s: Seq<char>) -> nat
    decreases s.len(),
{
    if s.len() == 0 || s[0] == '.' {
        0
    } else {
        1 + dot_pos(s.drop_first())
    }
}

/// An unsigned numeral `digits[.digits]` with at least one digit, in thousandths.
pub open spec fn unsigned_milli(body: Seq<char>) -> Option<nat> {
    let k = dot_pos(body) as int;
    let ip = body.take(k);
    let fp = if k < body.len() {
        body.skip(k + 1)
    } else {
        Seq::<char>::empty()
    };
    if all_digits(ip) && all_digits(fp) && ip.len() + fp.len() > 0 {
        Some(digits_value(ip) * 1000 + fraction_milli(fp))
    } else {
        None
    }
}

/// A coordinate token: an optional sign and an unsigned numeral, in
/// thousandths of a pixel, of magnitude at most `COORD_LIMIT`.
pub open spec fn coordinate_of(tok: Seq<char>) -> Option<int> {
    let signed = tok.len() > 0 && (tok[0] == '-' || tok[0] == '+');
    let body = if signed {
        tok.drop_first()
    } else {
        tok
    };
    match unsigned_milli(body) {
        Some(v) => if v <= COORD_LIMIT {
            Some(
                if signed && tok[0] == '-' {
                    -v
                } else {
                    v as int
                },
            )
        } else {
            None
        },
        None => None,
    }
}

/// Whitespace-separated tokens of `s`.
pub open spec fn tokens(s: Seq<char>) -> Seq<Seq<char>>
    decreases s.len(),
{
    if s.len() == 0 {
        Seq::empty()
    } else {
        let prev = tokens(s.drop_last());
        let c = s.last();
        if is_ws(c) {
            prev
        } else if s.len() >= 2 && !is_ws(s[s.len() - 2]) && prev.len() > 0 {
            prev.update(prev.len() - 1, prev.last().push(c))
        } else {
            prev.push(seq![c])
        }
    }
}

/// Pieces of `s` between line feeds.
pub open spec fn split_lines(s: Seq<char>) -> Seq<Seq<char>>
    decreases s.len(),
{
    if s.len() == 0 {
        seq![Seq::empty()]
    } else {
        let prev = split_lines(s.drop_last());
        if s.last() == '\n' {
            prev.push(Seq::empty())
        } else {
            prev.update(prev.len() - 1, prev.last().push(s.last()))
        }
    }
}

pub open spec fn coord_or_zero(tok: Seq<char>) -> i64 {
    match coordinate_of(tok) {
        Some(v) => v as i64,
        None => 0,
    }
}

/// The quad given by the first eight tokens, when all eight are coordinates.
pub open spec fn quad_of_tokens(toks: Seq<Seq<char>>) -> Option<Seq<Point>> {
    if toks.len() >= 8 && forall|i: int| 0 <= i < 8 ==> (#[trigger] coordinate_of(toks[i])).is_some() {
        Some(
            seq![
                Point { x: coord_or_zero(toks[0]), y: coord_or_zero(toks[1]) },
                Point { x: coord_or_zero(toks[2]), y: coord_or_zero(toks[3]) },
                Point { x: coord_or_zero(toks[4]), y: coord_or_zero(toks[5]) },
                Point { x: coord_or_zero(toks[6]), y: coord_or_zero(toks[7]) },
            ],
        )
    } else {
        None
    }
}

/// The marker line that separates sections.
pub open spec fn is_sets_marker(t: Seq<char>) -> bool {
    t == seq!['S', 'E', 'T', 'S']
}

/// The quad that one annotation line gives, if any.
pub open spec fn line_quad(line: Seq<char>) -> Option<Seq<Point>> {
    let t = trim(line);
    if t.len() == 0 || t[0] == '#' || is_sets_marker(t) {
        None
    } else {
        quad_of_tokens(tokens(t))
    }
}

pub open spec fn quads_of_lines(lines: Seq<Seq<char>>) -> Seq<Seq<Point>>
    decreases lines.len(),
{
    if lines.len() == 0 {
        Seq::empty()
    } else {
        let prev = quads_of_lines(lines.drop_last());
        match line_quad(lines.last()) {
            Some(q) => prev.push(q),
            None => prev,
        }
    }
}

/// All quads of a point-set annotation, in file order.
pub open spec fn point_sets(content: Seq<char>) -> Seq<Seq<Point>> {
    quads_of_lines(split_lines(content))
}

pub open spec fn pow10(n: nat) -> nat
    decreases n,
{
    if n == 0 {
        1
    } else {
        10 * pow10((n - 1) as nat)
    }
}

/// A numeral of `n` digits is below `10^n`.
pub proof fn lemma_digits_value_bound(d: Seq<char>)
    requires
        all_digits(d),
    ensures
        digits_value(d) < pow10(d.len()),
    decreases d.len(),
{
    if d.len() > 0 {
        let p = d.drop_last();
        assert(all_digits(p)) by {
            assert forall|i: int| 0 <= i < p.len() implies is_digit(#[trigger] p[i]) by {
                assert(p[i] == d[i]);
            }
        }
        lemma_digits_value_bound(p);
        assert(is_digit(d[d.len() - 1]));
    }
}

/// `dot_pos` is the first index holding `.`.
pub proof fn lemma_dot_pos_at(s: Seq<char>, k: int)
    requires
        0 <= k <= s.len(),
        forall|i: int| 0 <= i < k ==> #[trigger] s[i] != '.',
        k == s.len() || s[k] == '.',
    ensures
        dot_pos(s) == k,
    decreases k,
{
    if k > 0 {
        let t = s.drop_first();
        assert forall|i: int| 0 <= i < k - 1 implies #[trigger] t[i] != '.' by {
            assert(t[i] == s[i + 1]);
        }
        assert(s[0] != '.');
        lemma_dot_pos_at(t, k - 1);
    }
}

/// Reads the digits `d[from..to]`: `None` when one is not a digit, else
/// their value saturated at `INT_CAP`.
fn digits_capped(d: &Vec<char>, from: usize, to: usize) -> (r: Option<u64>)
    requires
        from <= to <= d@.len(),
    ensures
        match r {
            Some(v) => all_digits(d@.subrange(from as int, to as int)) && v == if digits_value(
                d@.subrange(from as int, to as int),
            ) < INT_CAP {
                digits_value(d@.subrange(from as int, to as int))
            } else {
                INT_CAP as nat
            },
            None => !all_digits(d@.subrange(from as int, to as int)),
        },
{
    let mut acc: u64 = 0;
    let mut i: usize = from;
    assert(d@.subrange(from as int, from as int) =~= Seq::<char>::empty());
    while i < to
        invariant
            from <= i <= to <= d@.len(),
            all_digits(d@.subrange(from as int, i as int)),
            acc == if digits_value(d@.subrange(from as int, i as int)) < INT_CAP {
                digits_value(d@.subrange(from as int, i as int))
            } else {
                INT_CAP as nat
            },
        decreases to - i,
    {
        let c = d[i];
        let ghost prev = d@.subrange(from as int, i as int);
        let ghost next = d@.subrange(from as int, i + 1);
        assert(next.drop_last() =~= prev);
        assert(next.last() == c);
        if !('0' <= c && c <= '9') {
            assert(!is_digit(next[next.len() - 1]));
            assert forall|j: int| 0 <= j < to - from implies #[trigger] d@.subrange(
                from as int,
                to as int,
            )[j] == d@[from + j] by {}
            assert(d@.subrange(from as int, to as int)[i - from] == c);
            return None;
        }
        let dv: u64 = (c as u32 - '0' as u32) as u64;
        let v: u64 = acc * 10 + dv;
        acc = if v < INT_CAP {
            v
        } else {
            INT_CAP
        };
        i += 1;
        assert(all_digits(next)) by {
            assert forall|j: int| 0 <= j < next.len() implies is_digit(#[trigger] next[j]) by {
                if j < prev.len() {
                    assert(next[j] == prev[j]);
                }
            }
        }
    }
    Some(acc)
}

/// Reads fraction digits `d[from..]`: `None` when one is not a digit, else
/// their value in thousandths.
fn fraction_of(d: &Vec<char>, from: usize) -> (r: Option<u64>)
    requires
        from <= d@.len(),
    ensures
        match r {
            Some(v) => all_digits(d@.skip(from as int)) && v == fraction_milli(d@.skip(from as int)) && v < 1000,
            None => !all_digits(d@.skip(from as int)),
        },
{
    let n = d.len();
    let ghost fp = d@.skip(from as int);
    assert(fp =~= d@.subrange(from as int, n as int));
    if digits_capped(d, from, n).is_none() {
        return None;
    }
    let flen: usize = n - from;
    let m: usize = if flen >= 3 {
        3
    } else {
        flen
    };
    let ghost first = d@.subrange(from as int, from + m);
    assert(all_digits(first)) by {
        assert forall|i: int| 0 <= i < first.len() implies is_digit(#[trigger] first[i]) by {
            assert(first[i] == fp[i]);
        }
    }
    proof {
        lemma_digits_value_bound(first);
        assert(pow10(0) == 1);
        assert(pow10(1) == 10);
        assert(pow10(2) == 100);
        assert(pow10(3) == 1000);
        if flen >= 3 {
            assert(fp.take(3) =~= first);
        } else {
            assert(fp =~= first);
        }
    }
    let fv: u64 = match digits_capped(d, from, from + m) {
        Some(v) => v,
        None => {
            return None;
        },
    };
    if m == 3 {
        Some(fv)
    } else if m == 2 {
        Some(fv * 10)
    } else if m == 1 {
        Some(fv * 100)
    } else {
        Some(0)
    }
}

/// Reads the unsigned numeral `d[start..]` in thousandths, when it is
/// well formed and at most `COORD_LIMIT`.
fn unsigned_of(d: &Vec<char>, start: usize) -> (r: Option<u64>)
    requires
        start <= d@.len(),
    ensures
        match r {
            Some(v) => unsigned_milli(d@.skip(start as int)) == Some(v as nat) && v <= COORD_LIMIT,
            None => match unsigned_milli(d@.skip(start as int)) {
                Some(v) => v > COORD_LIMIT,
                None => true,
            },
        },
{
    let n = d.len();
    let ghost body = d@.skip(start as int);
    let mut j: usize = start;
    while j < n && d[j] != '.'
        invariant
            start <= j <= n,
            n == d@.len(),
            forall|i: int| start <= i < j ==> #[trigger] d@[i] != '.',
        decreases n - j,
    {
        j += 1;
    }
    proof {
        assert forall|i: int| 0 <= i < j - start implies #[trigger] body[i] != '.' by {
            assert(body[i] == d@[i + start]);
        }
        lemma_dot_pos_at(body, j - start);
    }
    let ghost k = j - start;
    assert(body.take(k) =~= d@.subrange(start as int, j as int));
    let iv: u64 = match digits_capped(d, start, j) {
        Some(v) => v,
        None => {
            return None;
        },
    };
    let fstart: usize = if j < n {
        j + 1
    } else {
        n
    };
    let ghost fp = if k < body.len() {
        body.skip(k + 1)
    } else {
        Seq::<char>::empty()
    };
    assert(fp =~= d@.skip(fstart as int));
    let fm: u64 = match fraction_of(d, fstart) {
        Some(v) => v,
        None => {
            return None;
        },
    };
    if j == start && fstart == n {
        return None;
    }
    let total: u64 = iv * 1000 + fm;
    if total > COORD_LIMIT {
        return None;
    }
    Some(total)
}

/// Parses one coordinate token into thousandths of a pixel.
pub fn parse_coordinate(tok: &Vec<char>) -> (r: Option<i64>)
    ensures
        match r {
            Some(v) => coordinate_of(tok@) == Some(v as int),
            None => coordinate_of(tok@).is_none(),
        },
{
    let n = tok.len();
    let signed = n > 0 && (tok[0] == '-' || tok[0] == '+');
    let start: usize = if signed {
        1
    } else {
        0
    };
    assert(tok@.skip(start as int) =~= if signed {
        tok@.drop_first()
    } else {
        tok@
    });
    match unsigned_of(tok, start) {
        Some(v) => {
            if signed && tok[0] == '-' {
                Some(-(v as i64))
            } else {
                Some(v as i64)
            }
        },
        None => None,
    }
}

/// View of a list of character vectors as a sequence of character sequences.
pub open spec fn words_view(v: Seq<Vec<char>>) -> Seq<Seq<char>> {
    v.map_values(|w: Vec<char>| w@)
}

/// Splits `t` into its whitespace-separated tokens.
pub fn split_tokens(t: &Vec<char>) -> (r: Vec<Vec<char>>)
    ensures
        words_view(r@) == tokens(t@),
{
    let n = t.len();
    let mut toks: Vec<Vec<char>> = Vec::new();
    let mut cur: Vec<char> = Vec::new();
    let mut i: usize = 0;
    assert(t@.take(0) =~= Seq::<char>::empty());
    assert(words_view(toks@) =~= Seq::<Seq<char>>::empty());
    while i < n
        invariant
            n == t@.len(),
            i <= n,
            cur@.len() > 0 <==> (i > 0 && !is_ws(t@[i - 1])),
            cur@.len() > 0 ==> tokens(t@.take(i as int)) == words_view(toks@).push(cur@),
            cur@.len() == 0 ==> tokens(t@.take(i as int)) == words_view(toks@),
        decreases n - i,
    {
        let c = t[i];
        let ghost before = t@.take(i as int);
        let ghost after = t@.take(i + 1);
        assert(after.drop_last() =~= before);
        assert(after.last() == c);
        let ghost old_toks = words_view(toks@);
        let ghost old_cur = cur@;
        if char_is_ws(c) {
            if cur.len() > 0 {
                toks.push(cur);
                cur = Vec::new();
                assert(words_view(toks@) =~= old_toks.push(old_cur));
            }
        } else {
            if cur.len() > 0 {
                assert(after[after.len() - 2] == t@[i - 1]);
                cur.push(c);
                assert(tokens(after) =~= old_toks.push(cur@));
            } else {
                cur.push(c);
                assert(cur@ =~= seq![c]);
                assert(tokens(after) =~= old_toks.push(cur@));
            }
        }
        i += 1;
    }
    assert(t@.take(n as int) =~= t@);
    if cur.len() > 0 {
        let ghost old_toks = words_view(toks@);
        let ghost old_cur = cur@;
        toks.push(cur);
        assert(words_view(toks@) =~= old_toks.push(old_cur));
    }
    toks
}

/// The quad that one annotation line gives, if any.
pub fn parse_line_quad(line: &Vec<char>) -> (r: Option<Vec<Point>>)
    ensures
        match r {
            Some(q) => line_quad(line@) == Some(q@),
            None => line_quad(line@).is_none(),
        },
{
    let t = trim_chars(line);
    if t.len() == 0 || t[0] == '#' {
        return None;
    }
    if t.len() == 4 && t[0] == 'S' && t[1] == 'E' && t[2] == 'T' && t[3] == 'S' {
        assert(t@ =~= seq!['S', 'E', 'T', 'S']);
        return None;
    }
    assert(!is_sets_marker(t@)) by {
        if t@ == seq!['S', 'E', 'T', 'S'] {
            assert(t@.len() == 4 && t@[0] == 'S' && t@[1] == 'E' && t@[2] == 'T' && t@[3] == 'S');
        }
    }
    let toks = split_tokens(&t);
    let ghost tv = words_view(toks@);
    if toks.len() < 8 {
        return None;
    }
    let mut vals: Vec<i64> = Vec::new();
    let mut i: usize = 0;
    assert(line_quad(line@) == quad_of_tokens(tv));
    while i < 8
        invariant
            line_quad(line@) == quad_of_tokens(tv),
            toks@.len() >= 8,
            tv == words_view(toks@),
            i <= 8,
            vals@.len() == i,
            forall|j: int| 0 <= j < i ==> coordinate_of(#[trigger] tv[j]) == Some(vals@[j] as int),
        decreases 8 - i,
    {
        assert(tv[i as int] == toks@[i as int]@);
        match parse_coordinate(&toks[i]) {
            Some(v) => {
                vals.push(v);
            },
            None => {
                assert(!(coordinate_of(tv[i as int]).is_some()));
                assert(!(forall|j: int| 0 <= j < 8 ==> (#[trigger] coordinate_of(tv[j])).is_some()));
                assert(quad_of_tokens(tv).is_none());
                return None;
            },
        }
        i += 1;
    }
    assert forall|j: int| 0 <= j < 8 implies (#[trigger] coordinate_of(tv[j])).is_some() by {}
    let q = vec![
        Point { x: vals[0], y: vals[1] },
        Point { x: vals[2], y: vals[3] },
        Point { x: vals[4], y: vals[5] },
        Point { x: vals[6], y: vals[7] },
    ];
    proof {
        assert(coordinate_of(tv[0]) == Some(vals@[0] as int));
        assert(coordinate_of(tv[1]) == Some(vals@[1] as int));
        assert(coordinate_of(tv[2]) == Some(vals@[2] as int));
        assert(coordinate_of(tv[3]) == Some(vals@[3] as int));
        assert(coordinate_of(tv[4]) == Some(vals@[4] as int));
        assert(coordinate_of(tv[5]) == Some(vals@[5] as int));
        assert(coordinate_of(tv[6]) == Some(vals@[6] as int));
        assert(coordinate_of(tv[7]) == Some(vals@[7] as int));
        assert(q@ =~= quad_of_tokens(tv)->Some_0);
    }
    Some(q)
}

/// All quads of a point-set annotation, in file order; malformed lines are
/// skipped.
pub fn parse_point_sets(content: &str) -> (r: Vec<Vec<Point>>)
    ensures
        quads_view(r@) == point_sets(content@),
{
    let c = chars_of(content);
    let n = c.len();
    let mut sets: Vec<Vec<Point>> = Vec::new();
    let mut cur: Vec<char> = Vec::new();
    let mut i: usize = 0;
    assert(c@.take(0) =~= Seq::<char>::empty());
    assert(split_lines(Seq::<char>::empty()).drop_last() =~= Seq::<Seq<char>>::empty());
    assert(quads_view(sets@) =~= Seq::<Seq<Point>>::empty());
    while i < n
        invariant
            n == c@.len(),
            i <= n,
            split_lines(c@.take(i as int)).len() > 0,
            cur@ == split_lines(c@.take(i as int)).last(),
            quads_view(sets@) == quads_of_lines(split_lines(c@.take(i as int)).drop_last()),
        decreases n - i,
    {
        let ch = c[i];
        let ghost before = c@.take(i as int);
        let ghost after = c@.take(i + 1);
        let ghost lb = split_lines(before);
        assert(after.drop_last() =~= before);
        assert(after.last() == ch);
        if ch == '\n' {
            let ghost old_sets = quads_view(sets@);
            assert(split_lines(after).drop_last() =~= lb);
            match parse_line_quad(&cur) {
                Some(q) => {
                    sets.push(q);
                    assert(quads_view(sets@) =~= old_sets.push(q@));
                },
                None => {},
            }
            cur = Vec::new();
            assert(cur@ =~= split_lines(after).last());
        } else {
            cur.push(ch);
            assert(split_lines(after).drop_last() =~= lb.drop_last());
            assert(cur@ =~= split_lines(after).last());
        }
        i += 1;
    }
    assert(c@.take(n as int) =~= content@);
    let ghost ls = split_lines(content@);
    let ghost old_sets = quads_view(sets@);
    assert(ls.drop_last().push(ls.last()) =~= ls);
    match parse_line_quad(&cur) {
        Some(q) => {
            sets.push(q);
            assert(quads_view(sets@) =~= old_sets.push(q@));
        },
        None => {},
    }
    sets
}

} // verus!
