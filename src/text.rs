//! Text normalization: line-ending folding and whitespace trimming.
use vstd::prelude::*;

verus! {

/// Unicode `White_Space` characters, the set that `char::is_whitespace` tests.
pub open spec fn is_ws(c: char) -> bool {
    let u = c as u32;
    (0x09 <= u && u <= 0x0D) || u == 0x20 || u == 0x85 || u == 0xA0 || u == 0x1680 || (0x2000
        <= u && u <= 0x200A) || u == 0x2028 || u == 0x2029 || u == 0x202F || u == 0x205F || u
        == 0x3000
}

/// Every character of `s` is whitespace.
pub open spec fn all_ws(s: Seq<char>) -> bool {
    forall|i: int| 0 <= i < s.len() ==> is_ws(#[trigger] s[i])
}

/// Replaces each CR LF pair, scanning from the front, by a single LF.
pub open spec fn crlf_to_lf(s: Seq<char>) -> Seq<char>
    decreases s.len(),
{
    if s.len() == 0 {
        s
    } else if s.len() >= 2 && s[0] == '\r' && s[1] == '\n' {
        seq!['\n'] + crlf_to_lf(s.subrange(2, s.len() as int))
    } else {
        seq![s[0]] + crlf_to_lf(s.drop_first())
    }
}

/// Drops leading whitespace.
pub open spec fn trim_start(s: Seq<char>) -> Seq<char>
    decreases s.len(),
{
    if s.len() > 0 && is_ws(s[0]) {
        trim_start(s.drop_first())
    } else {
        s
    }
}

/// Drops trailing whitespace.
pub open spec fn trim_end(s: Seq<char>) -> Seq<char>
    decreases s.len(),
{
    if s.len() > 0 && is_ws(s.last()) {
        trim_end(s.drop_last())
    } else {
        s
    }
}

/// Drops leading and trailing whitespace.
pub open spec fn trim(s: Seq<char>) -> Seq<char> {
    trim_end(trim_start(s))
}

/// The form in which texts are compared: line endings folded to LF, then
/// surrounding whitespace dropped.
pub open spec fn normalize(s: Seq<char>) -> Seq<char> {
    trim(crlf_to_lf(s))
}

/// The form in which an expected text is stored from an annotation file:
/// surrounding whitespace dropped, then line endings folded to LF.
pub open spec fn annotation_text(s: Seq<char>) -> Seq<char> {
    crlf_to_lf(trim(s))
}

/// `trim_start` removes exactly the whitespace before index `a`.
pub proof fn lemma_trim_start_at(s: Seq<char>, a: int)
    requires
        0 <= a <= s.len(),
        forall|i: int| 0 <= i < a ==> is_ws(#[trigger] s[i]),
        a == s.len() || !is_ws(s[a]),
    ensures
        trim_start(s) == s.subrange(a, s.len() as int),
    decreases a,
{
    if a == 0 {
        assert(s.subrange(0, s.len() as int) =~= s);
    } else {
        let t = s.drop_first();
        assert forall|i: int| 0 <= i < a - 1 implies is_ws(#[trigger] t[i]) by {
            assert(t[i] == s[i + 1]);
        }
        lemma_trim_start_at(t, a - 1);
        assert(t.subrange(a - 1, t.len() as int) =~= s.subrange(a, s.len() as int));
    }
}

/// `trim_end` removes exactly the whitespace from index `b` on.
pub proof fn lemma_trim_end_at(s: Seq<char>, b: int)
    requires
        0 <= b <= s.len(),
        forall|i: int| b <= i < s.len() ==> is_ws(#[trigger] s[i]),
        b == 0 || !is_ws(s[b - 1]),
    ensures
        trim_end(s) == s.subrange(0, b),
    decreases s.len() - b,
{
    if b == s.len() {
        assert(s.subrange(0, s.len() as int) =~= s);
    } else {
        let t = s.drop_last();
        assert(is_ws(s.last()));
        lemma_trim_end_at(t, b);
        assert(t.subrange(0, b) =~= s.subrange(0, b));
    }
}

/// The characters of a string slice.
pub fn chars_of(s: &str) -> (r: Vec<char>)
    ensures
        r@ == s@,
{
    let n = s.unicode_len();
    let mut r: Vec<char> = Vec::new();
    let mut i: usize = 0;
    while i < n
        invariant
            n == s@.len(),
            i <= n,
            r@ == s@.subrange(0, i as int),
        decreases n - i,
    {
        r.push(s.get_char(i));
        i += 1;
        assert(r@ =~= s@.subrange(0, i as int));
    }
    assert(r@ =~= s@);
    r
}

/// Relies on `String::push`: appends one character to the string.
#[verifier::external_body]
fn push_char(s: &mut String, c: char)
    ensures
        final(s)@ == old(s)@.push(c),
{
    s.push(c);
}

/// A string holding the given characters.
pub fn string_from_chars(v: &Vec<char>) -> (r: String)
    ensures
        r@ == v@,
{
    let mut r = String::new();
    let mut i: usize = 0;
    while i < v.len()
        invariant
            i <= v@.len(),
            r@ == v@.subrange(0, i as int),
        decreases v@.len() - i,
    {
        push_char(&mut r, v[i]);
        i += 1;
        assert(r@ =~= v@.subrange(0, i as int));
    }
    assert(r@ =~= v@);
    r
}

/// Whitespace test on one character.
pub fn char_is_ws(c: char) -> (r: bool)
    ensures
        r == is_ws(c),
{
    let u = c as u32;
    (0x09 <= u && u <= 0x0D) || u == 0x20 || u == 0x85 || u == 0xA0 || u == 0x1680 || (0x2000
        <= u && u <= 0x200A) || u == 0x2028 || u == 0x2029 || u == 0x202F || u == 0x205F || u
        == 0x3000
}

/// Folds every CR LF pair into LF.
pub fn crlf_to_lf_chars(s: &Vec<char>) -> (r: Vec<char>)
    ensures
        r@ == crlf_to_lf(s@),
{
    let n = s.len();
    let mut r: Vec<char> = Vec::new();
    let mut i: usize = 0;
    assert(s@.subrange(0, n as int) =~= s@);
    assert(r@ + crlf_to_lf(s@) =~= crlf_to_lf(s@));
    while i < n
        invariant
            n == s@.len(),
            i <= n,
            crlf_to_lf(s@) == r@ + crlf_to_lf(s@.subrange(i as int, n as int)),
        decreases n - i,
    {
        let ghost rest = s@.subrange(i as int, n as int);
        if i + 1 < n && s[i] == '\r' && s[i + 1] == '\n' {
            assert(rest.subrange(2, rest.len() as int) =~= s@.subrange(i + 2, n as int));
            r.push('\n');
            i += 2;
        } else {
            assert(rest.drop_first() =~= s@.subrange(i + 1, n as int));
            r.push(s[i]);
            i += 1;
        }
        assert(crlf_to_lf(s@) =~= r@ + crlf_to_lf(s@.subrange(i as int, n as int)));
    }
    assert(s@.subrange(n as int, n as int) =~= Seq::<char>::empty());
    assert(r@ + Seq::<char>::empty() =~= r@);
    r
}

/// Drops leading and trailing whitespace.
pub fn trim_chars(s: &Vec<char>) -> (r: Vec<char>)
    ensures
        r@ == trim(s@),
{
    let n = s.len();
    let mut a: usize = 0;
    while a < n && char_is_ws(s[a])
        invariant
            n == s@.len(),
            a <= n,
            forall|i: int| 0 <= i < a ==> is_ws(#[trigger] s@[i]),
        decreases n - a,
    {
        a += 1;
    }
    proof {
        lemma_trim_start_at(s@, a as int);
    }
    let ghost t = s@.subrange(a as int, n as int);
    let mut b: usize = n;
    while b > a && char_is_ws(s[b - 1])
        invariant
            n == s@.len(),
            a <= b <= n,
            forall|i: int| b <= i < n ==> is_ws(#[trigger] s@[i]),
        decreases b,
    {
        b -= 1;
    }
    proof {
        assert forall|i: int| b - a <= i < t.len() implies is_ws(#[trigger] t[i]) by {
            assert(t[i] == s@[i + a]);
        }
        lemma_trim_end_at(t, b - a);
    }
    let mut r: Vec<char> = Vec::new();
    let mut i: usize = a;
    while i < b
        invariant
            n == s@.len(),
            a <= i <= b <= n,
            r@ == s@.subrange(a as int, i as int),
        decreases b - i,
    {
        r.push(s[i]);
        i += 1;
        assert(r@ =~= s@.subrange(a as int, i as int));
    }
    assert(r@ =~= t.subrange(0, b - a));
    r
}

/// The comparison form of a text: CR LF folded to LF, then trimmed.
pub fn normalize_text(s: &str) -> (r: Vec<char>)
    ensures
        r@ == normalize(s@),
{
    let c = chars_of(s);
    let f = crlf_to_lf_chars(&c);
    trim_chars(&f)
}

/// Equality of two character vectors.
pub fn chars_equal(a: &Vec<char>, b: &Vec<char>) -> (r: bool)
    ensures
        r == (a@ == b@),
{
    if a.len() != b.len() {
        return false;
    }
    let mut i: usize = 0;
    while i < a.len()
        invariant
            a@.len() == b@.len(),
            i <= a@.len(),
            forall|j: int| 0 <= j < i ==> a@[j] == b@[j],
        decreases a@.len() - i,
    {
        if a[i] != b[i] {
            return false;
        }
        i += 1;
    }
    assert(a@ =~= b@);
    true
}

/// Whether two texts are equal once both are normalized.
pub fn texts_match(expected: &str, decoded: &str) -> (r: bool)
    ensures
        r == (normalize(expected@) == normalize(decoded@)),
{
    let e = normalize_text(expected);
    let d = normalize_text(decoded);
    chars_equal(&e, &d)
}

/// The expected text held in an annotation: trimmed, then CR LF folded to LF.
pub fn annotation_text_of(content: &str) -> (r: String)
    ensures
        r@ == annotation_text(content@),
{
    let c = chars_of(content);
    let t = trim_chars(&c);
    let f = crlf_to_lf_chars(&t);
    string_from_chars(&f)
}

/// Equality of two string slices, character by character.
pub fn str_equal(a: &str, b: &str) -> (r: bool)
    ensures
        r == (a@ == b@),
{
    let x = chars_of(a);
    let y = chars_of(b);
    chars_equal(&x, &y)
}

/// Lexicographic order on character sequences by code point, the order of
/// `str`'s `Ord`.
pub open spec fn str_lt(a: Seq<char>, b: Seq<char>) -> bool
    decreases a.len(),
{
    if a.len() == 0 {
        b.len() > 0
    } else if b.len() == 0 {
        false
    } else if a[0] != b[0] {
        a[0] < b[0]
    } else {
        str_lt(a.drop_first(), b.drop_first())
    }
}

/// Of two distinct sequences, one precedes the other.
pub proof fn lemma_str_lt_total(a: Seq<char>, b: Seq<char>)
    requires
        a != b,
    ensures
        str_lt(a, b) || str_lt(b, a),
    decreases a.len(),
{
    if a.len() > 0 && b.len() > 0 && a[0] == b[0] {
        if a.drop_first() == b.drop_first() {
            assert(a =~= seq![a[0]] + a.drop_first());
            assert(b =~= seq![b[0]] + b.drop_first());
        }
        lemma_str_lt_total(a.drop_first(), b.drop_first());
    } else if a.len() > 0 && b.len() > 0 {
        assert(a[0] < b[0] || b[0] < a[0]);
    } else if a.len() == 0 && b.len() == 0 {
        assert(a =~= b);
    }

}

/// Whether `a` precedes `b` in lexicographic order.
pub fn str_less(a: &str, b: &str) -> (r: bool)
    ensures
        r == str_lt(a@, b@),
{
    let x = chars_of(a);
    let y = chars_of(b);
    let mut i: usize = 0;
    assert(x@.skip(0) =~= x@);
    assert(y@.skip(0) =~= y@);
    loop
        invariant
            i <= x@.len(),
            i <= y@.len(),
            str_lt(a@, b@) == str_lt(x@.skip(i as int), y@.skip(i as int)),
            x@ == a@,
            y@ == b@,
        decreases x@.len() - i,
    {
        if i == x.len() {
            return i < y.len();
        }
        if i == y.len() {
            return false;
        }
        if x[i] != y[i] {
            return x[i] < y[i];
        }
        assert(x@.skip(i as int).drop_first() =~= x@.skip(i + 1));
        assert(y@.skip(i as int).drop_first() =~= y@.skip(i + 1));
        i += 1;
    }
}

proof fn lemma_all_ws_parts(w: Seq<char>)
    requires
        all_ws(w),
    ensures
        all_ws(w.drop_first()) || w.len() == 0,
        all_ws(w.drop_last()) || w.len() == 0,
{
    if w.len() > 0 {
        assert forall|i: int| 0 <= i < w.drop_first().len() implies is_ws(#[trigger] w.drop_first()[i]) by {
            assert(w.drop_first()[i] == w[i + 1]);
        }
        assert forall|i: int| 0 <= i < w.drop_last().len() implies is_ws(#[trigger] w.drop_last()[i]) by {
            assert(w.drop_last()[i] == w[i]);
        }
    }
}

/// Leading whitespace does not survive `trim_start`.
proof fn lemma_trim_start_ws_prefix(w: Seq<char>, x: Seq<char>)
    requires
        all_ws(w),
    ensures
        trim_start(w + x) == trim_start(x),
    decreases w.len(),
{
    if w.len() == 0 {
        assert(w + x =~= x);
    } else {
        lemma_all_ws_parts(w);
        assert((w + x)[0] == w[0]);
        assert((w + x).drop_first() =~= w.drop_first() + x);
        lemma_trim_start_ws_prefix(w.drop_first(), x);
    }
}

/// Trailing whitespace does not survive `trim_end`.
proof fn lemma_trim_end_ws_suffix(x: Seq<char>, w: Seq<char>)
    requires
        all_ws(w),
    ensures
        trim_end(x + w) == trim_end(x),
    decreases w.len(),
{
    if w.len() == 0 {
        assert(x + w =~= x);
    } else {
        lemma_all_ws_parts(w);
        assert((x + w).last() == w.last());
        assert((x + w).drop_last() =~= x + w.drop_last());
        lemma_trim_end_ws_suffix(x, w.drop_last());
    }
}

/// Folding line endings in whitespace leaves whitespace.
proof fn lemma_crlf_ws(w: Seq<char>)
    requires
        all_ws(w),
    ensures
        all_ws(crlf_to_lf(w)),
    decreases w.len(),
{
    if w.len() >= 2 && w[0] == '\r' && w[1] == '\n' {
        let rest = w.subrange(2, w.len() as int);
        assert forall|i: int| 0 <= i < rest.len() implies is_ws(#[trigger] rest[i]) by {
            assert(rest[i] == w[i + 2]);
        }
        lemma_crlf_ws(rest);
        let r = crlf_to_lf(rest);
        assert forall|i: int| 0 <= i < (seq!['\n'] + r).len() implies is_ws(#[trigger] (seq!['\n'] + r)[i]) by {
            if i > 0 {
                assert((seq!['\n'] + r)[i] == r[i - 1]);
            }
        }
    } else if w.len() > 0 {
        lemma_all_ws_parts(w);
        lemma_crlf_ws(w.drop_first());
        let r = crlf_to_lf(w.drop_first());
        assert forall|i: int| 0 <= i < (seq![w[0]] + r).len() implies is_ws(#[trigger] (seq![w[0]] + r)[i]) by {
            if i > 0 {
                assert((seq![w[0]] + r)[i] == r[i - 1]);
            }
        }
    }
}

/// Folding distributes over concatenation unless a CR LF pair straddles the seam.
proof fn lemma_crlf_concat(x: Seq<char>, z: Seq<char>)
    requires
        !(x.len() > 0 && x.last() == '\r' && z.len() > 0 && z[0] == '\n'),
    ensures
        crlf_to_lf(x + z) == crlf_to_lf(x) + crlf_to_lf(z),
    decreases x.len(),
{
    let xz = x + z;
    if x.len() == 0 {
        assert(xz =~= z);
        assert(crlf_to_lf(x) + crlf_to_lf(z) =~= crlf_to_lf(z));
    } else if x.len() >= 2 && x[0] == '\r' && x[1] == '\n' {
        let x2 = x.subrange(2, x.len() as int);
        assert(xz[0] == '\r' && xz[1] == '\n');
        assert(xz.subrange(2, xz.len() as int) =~= x2 + z);
        if x2.len() > 0 {
            assert(x2.last() == x.last());
        }
        lemma_crlf_concat(x2, z);
        assert(seq!['\n'] + (crlf_to_lf(x2) + crlf_to_lf(z)) =~= (seq!['\n'] + crlf_to_lf(x2)) + crlf_to_lf(z));
    } else {
        let x1 = x.drop_first();
        assert(xz[0] == x[0]);
        if x.len() >= 2 {
            assert(xz[1] == x[1]);
        } else if z.len() > 0 {
            assert(xz[1] == z[0]);
        }
        assert(xz.drop_first() =~= x1 + z);
        if x1.len() > 0 {
            assert(x1.last() == x.last());
        }
        lemma_crlf_concat(x1, z);
        assert(seq![x[0]] + (crlf_to_lf(x1) + crlf_to_lf(z)) =~= (seq![x[0]] + crlf_to_lf(x1)) + crlf_to_lf(z));
    }
}

proof fn lemma_ws_cons(c: char, w: Seq<char>)
    requires
        is_ws(c),
        all_ws(w),
    ensures
        all_ws(seq![c] + w),
{
    assert forall|i: int| 0 <= i < (seq![c] + w).len() implies is_ws(#[trigger] (seq![c] + w)[i]) by {
        if i > 0 {
            assert((seq![c] + w)[i] == w[i - 1]);
        }
    }
}

/// Whitespace before a text, folded together with it, does not survive `trim_start`.
proof fn lemma_crlf_ws_prefix(a: Seq<char>, y: Seq<char>)
    requires
        all_ws(a),
    ensures
        trim_start(crlf_to_lf(a + y)) == trim_start(crlf_to_lf(y)),
{
    if a.len() > 0 && a.last() == '\r' && y.len() > 0 && y[0] == '\n' {
        let a0 = a.drop_last();
        let y1 = y.drop_first();
        lemma_all_ws_parts(a);
        let z = seq!['\r', '\n'] + y1;
        assert(a + y =~= a0 + z);
        lemma_crlf_concat(a0, z);
        assert(z.subrange(2, z.len() as int) =~= y1);
        assert(crlf_to_lf(z) == seq!['\n'] + crlf_to_lf(y1));
        assert(y =~= seq!['\n'] + y1);
        assert(crlf_to_lf(y) == seq!['\n'] + crlf_to_lf(y1));
        lemma_crlf_ws(a0);
        lemma_trim_start_ws_prefix(crlf_to_lf(a0), crlf_to_lf(y));
    } else {
        lemma_crlf_concat(a, y);
        lemma_crlf_ws(a);
        lemma_trim_start_ws_prefix(crlf_to_lf(a), crlf_to_lf(y));
    }
}

/// Whitespace after a text, folded together with it, does not survive `trim_end`.
proof fn lemma_crlf_ws_suffix(y: Seq<char>, b: Seq<char>)
    requires
        all_ws(b),
    ensures
        trim_end(crlf_to_lf(y + b)) == trim_end(crlf_to_lf(y)),
{
    if y.len() > 0 && y.last() == '\r' && b.len() > 0 && b[0] == '\n' {
        let y0 = y.drop_last();
        let z = seq!['\r'] + b;
        assert(y + b =~= y0 + z);
        lemma_crlf_concat(y0, z);
        lemma_ws_cons('\r', b);
        lemma_crlf_ws(z);
        assert(y =~= y0 + seq!['\r']);
        lemma_crlf_concat(y0, seq!['\r']);
        let cr = seq!['\r'];
        assert(crlf_to_lf(cr) =~= cr) by {
            assert(cr.drop_first() =~= Seq::<char>::empty());
            assert(crlf_to_lf(Seq::<char>::empty()) == Seq::<char>::empty());
            assert(crlf_to_lf(cr) == seq![cr[0]] + crlf_to_lf(cr.drop_first()));
        }
        lemma_ws_cons('\r', Seq::<char>::empty());
        lemma_trim_end_ws_suffix(crlf_to_lf(y0), crlf_to_lf(z));
        lemma_trim_end_ws_suffix(crlf_to_lf(y0), seq!['\r']);
    } else {
        lemma_crlf_concat(y, b);
        lemma_crlf_ws(b);
        lemma_trim_end_ws_suffix(crlf_to_lf(y), crlf_to_lf(b));
    }
}

/// Index of the first non-whitespace character, or the length.
proof fn lemma_leading_ws(s: Seq<char>) -> (a: int)
    ensures
        0 <= a <= s.len(),
        forall|i: int| 0 <= i < a ==> is_ws(#[trigger] s[i]),
        a == s.len() || !is_ws(s[a]),
    decreases s.len(),
{
    if s.len() > 0 && is_ws(s[0]) {
        let t = s.drop_first();
        let a1 = lemma_leading_ws(t);
        assert forall|i: int| 0 <= i < a1 + 1 implies is_ws(#[trigger] s[i]) by {
            if i > 0 {
                assert(s[i] == t[i - 1]);
            }
        }
        if a1 < t.len() {
            assert(s[a1 + 1] == t[a1]);
        }
        a1 + 1
    } else {
        0
    }
}

/// Index just past the last non-whitespace character, or zero.
proof fn lemma_trailing_ws(s: Seq<char>) -> (b: int)
    ensures
        0 <= b <= s.len(),
        forall|i: int| b <= i < s.len() ==> is_ws(#[trigger] s[i]),
        b == 0 || !is_ws(s[b - 1]),
    decreases s.len(),
{
    if s.len() > 0 && is_ws(s.last()) {
        let t = s.drop_last();
        let b1 = lemma_trailing_ws(t);
        assert forall|i: int| b1 <= i < s.len() implies is_ws(#[trigger] s[i]) by {
            if i < t.len() {
                assert(s[i] == t[i]);
            }
        }
        if b1 > 0 {
            assert(s[b1 - 1] == t[b1 - 1]);
        }
        b1
    } else {
        s.len() as int
    }
}

/// Trimming the two ends can be done in either order.
proof fn lemma_trim_commutes(s: Seq<char>)
    ensures
        trim_end(trim_start(s)) == trim_start(trim_end(s)),
{
    let a = lemma_leading_ws(s);
    let b = lemma_trailing_ws(s);
    lemma_trim_start_at(s, a);
    lemma_trim_end_at(s, b);
    if a == s.len() {
        lemma_trim_end_at(s, 0);
        assert(s.subrange(0, 0) =~= Seq::<char>::empty());
        assert(s.subrange(a, s.len() as int) =~= Seq::<char>::empty());
    } else {
        assert(a < b) by {
            if b <= a {
                assert(is_ws(s[a]));
            }
        }
        let t = s.subrange(a, s.len() as int);
        assert forall|i: int| b - a <= i < t.len() implies is_ws(#[trigger] t[i]) by {
            assert(t[i] == s[i + a]);
        }
        assert(t[b - a - 1] == s[b - 1]);
        lemma_trim_end_at(t, b - a);
        let u = s.subrange(0, b);
        assert forall|i: int| 0 <= i < a implies is_ws(#[trigger] u[i]) by {
            assert(u[i] == s[i]);
        }
        assert(u[a] == s[a]);
        lemma_trim_start_at(u, a);
        assert(t.subrange(0, b - a) =~= u.subrange(a, b));
    }
}

/// Surrounding whitespace does not change the normalized form of a text.
pub proof fn lemma_normalize_padding(lead: Seq<char>, core: Seq<char>, trail: Seq<char>)
    requires
        all_ws(lead),
        all_ws(trail),
    ensures
        normalize(lead + core + trail) == normalize(core),
{
    assert(lead + core + trail =~= lead + (core + trail));
    lemma_crlf_ws_prefix(lead, core + trail);
    lemma_trim_commutes(crlf_to_lf(core + trail));
    lemma_crlf_ws_suffix(core, trail);
    lemma_trim_commutes(crlf_to_lf(core));
}

} // verus!
