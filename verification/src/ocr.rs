//! Parsing of the text-recognition worker's output. The worker prints one
//! line per recognized text box: a bounding box, the text, and a confidence,
//! separated by semicolons — for instance `([12,4]-[88.5,30]);word;0.98`.
//! The numbers are decimal literals and parse to exact rationals.

use vstd::prelude::*;

verus! {

use crate::geom::{Rect, Vec2};
use crate::rational::{norm, Frac, Rat, FRAC_LIMIT};
use vstd::math::abs;

/// Why a worker line was rejected.
#[derive(Clone, Copy, PartialEq, Eq, Structural, Debug)]
pub enum OcrError {
    /// The line does not have exactly three `;`-separated parts.
    Format,
    /// A bounding-box point is malformed.
    Point,
    /// A decimal literal is malformed.
    Number,
    /// A number does not fit the representable rational range.
    OutOfRange,
}

/// ASCII digit.
pub open spec fn is_digit(b: u8) -> bool {
    48 <= b <= 57
}

/// The number a digit string denotes, most significant first.
pub open spec fn digits_val(s: Seq<u8>) -> int
    decreases s.len(),
{
    if s.len() == 0 {
        0
    } else {
        digits_val(s.drop_last()) * 10 + (s.last() - 48)
    }
}

/// Every byte is a digit.
pub open spec fn all_digits(s: Seq<u8>) -> bool {
    forall|i: int| 0 <= i < s.len() ==> is_digit(#[trigger] s[i])
}

/// Ten to the `k`.
pub open spec fn pow10(k: nat) -> int
    decreases k,
{
    if k == 0 {
        1
    } else {
        10 * pow10((k - 1) as nat)
    }
}

/// The first index holding `b`, or the length if there is none.
pub open spec fn find_byte(s: Seq<u8>, b: u8) -> int
    decreases s.len(),
{
    if s.len() == 0 {
        0
    } else if s[0] == b {
        0
    } else {
        1 + find_byte(s.subrange(1, s.len() as int), b)
    }
}

/// `find_byte` really is the first occurrence.
pub proof fn lemma_find_byte(s: Seq<u8>, b: u8)
    ensures
        0 <= find_byte(s, b) <= s.len(),
        find_byte(s, b) < s.len() ==> s[find_byte(s, b)] == b,
        forall|j: int| 0 <= j < find_byte(s, b) ==> s[j] != b,
    decreases s.len(),
{
    if s.len() == 0 {
    } else if s[0] == b {
    } else {
        let rest = s.subrange(1, s.len() as int);
        lemma_find_byte(rest, b);
        assert forall|j: int| 0 <= j < find_byte(s, b) implies s[j] != b by {
            if j >= 1 {
                assert(s[j] == rest[j - 1]);
            }
        }
        if find_byte(s, b) < s.len() {
            assert(s[find_byte(s, b)] == rest[find_byte(rest, b)]);
        }
    }
}

/// The digit magnitude and the fractional length of a decimal literal: the
/// literal without sign and dot, and how many digits follow the dot.
pub open spec fn dec_body(s: Seq<u8>) -> Seq<u8> {
    if s.len() > 0 && s[0] == 45 {
        s.subrange(1, s.len() as int)
    } else {
        s
    }
}

/// Whether the literal carries a leading minus sign.
pub open spec fn dec_negative(s: Seq<u8>) -> bool {
    s.len() > 0 && s[0] == 45
}

/// A decimal literal: optional sign, digits, optionally one dot with digits
/// around it (at least one digit in all).
pub open spec fn dec_shape(s: Seq<u8>) -> bool {
    let body = dec_body(s);
    let dot = find_byte(body, 46);
    if dot == body.len() {
        body.len() > 0 && all_digits(body)
    } else {
        let ip = body.subrange(0, dot);
        let fp = body.subrange(dot + 1, body.len() as int);
        &&& body.len() > 1
        &&& all_digits(ip)
        &&& all_digits(fp)
        &&& find_byte(fp, 46) == fp.len()
    }
}

/// All digits of the literal, the dot dropped.
pub open spec fn dec_digits(s: Seq<u8>) -> Seq<u8> {
    let body = dec_body(s);
    let dot = find_byte(body, 46);
    if dot == body.len() {
        body
    } else {
        body.subrange(0, dot) + body.subrange(dot + 1, body.len() as int)
    }
}

/// How many digits follow the dot.
pub open spec fn dec_frac_len(s: Seq<u8>) -> int {
    let body = dec_body(s);
    let dot = find_byte(body, 46);
    if dot == body.len() {
        0
    } else {
        body.len() - dot - 1
    }
}

/// The rational a decimal literal denotes.
pub open spec fn dec_rat(s: Seq<u8>) -> Rat {
    let mag = digits_val(dec_digits(s));
    let den = pow10(dec_frac_len(s) as nat);
    if dec_negative(s) {
        Rat { n: -mag, d: den }
    } else {
        Rat { n: mag, d: den }
    }
}

/// Whether the literal's parts stay within the representable range.
pub open spec fn dec_in_range(s: Seq<u8>) -> bool {
    digits_val(dec_digits(s)) <= FRAC_LIMIT && pow10(dec_frac_len(s) as nat) <= FRAC_LIMIT
}

/// A well-shaped, in-range literal as this module stores it.
pub open spec fn dec_value(s: Seq<u8>) -> Frac
    recommends
        dec_shape(s),
        dec_in_range(s),
{
    norm(dec_rat(s))->0
}

/// A digit string denotes a nonnegative number.
proof fn lemma_digits_val_nonneg(s: Seq<u8>)
    requires
        all_digits(s),
    ensures
        digits_val(s) >= 0,
    decreases s.len(),
{
    if s.len() > 0 {
        assert(all_digits(s.drop_last()));
        lemma_digits_val_nonneg(s.drop_last());
    }
}

/// Extending a digit string never shrinks its value.
proof fn lemma_digits_val_extend(s: Seq<u8>, k: int)
    requires
        all_digits(s),
        0 <= k <= s.len(),
    ensures
        digits_val(s) >= digits_val(s.subrange(0, k)),
    decreases s.len() - k,
{
    if k < s.len() {
        lemma_digits_val_extend(s, k + 1);
        assert(s.subrange(0, k + 1).drop_last() =~= s.subrange(0, k));
        assert(all_digits(s.subrange(0, k)));
        lemma_digits_val_nonneg(s.subrange(0, k));
    } else {
        assert(s.subrange(0, k) =~= s);
    }
}

/// Ten to the `k` grows with `k`.
proof fn lemma_pow10_mono(j: nat, k: nat)
    requires
        j <= k,
    ensures
        1 <= pow10(j) <= pow10(k),
    decreases k,
{
    if k > 0 {
        if j == k {
            lemma_pow10_mono((j - 1) as nat, (k - 1) as nat);
        } else {
            lemma_pow10_mono(j, (k - 1) as nat);
        }
    }
}

/// Parse one decimal literal — optional minus sign, digits, at most one dot
/// — into an exact rational in lowest terms. A malformed literal is a
/// `Number` error; a well-formed one whose digits or scale leave the
/// representable range is `OutOfRange`; anything else parses.
pub fn parse_decimal(s: &[u8]) -> (r: Result<Frac, OcrError>)
    ensures
        dec_shape(s@) && dec_in_range(s@) ==> r == Ok::<Frac, OcrError>(dec_value(s@)),
        r matches Ok(f) ==> f.wf(),
        dec_shape(s@) && !dec_in_range(s@) ==> r == Err::<Frac, OcrError>(OcrError::OutOfRange),
        !dec_shape(s@) ==> r == Err::<Frac, OcrError>(OcrError::Number),
{
    let len = s.len();
    let negative = len > 0 && s[0] == 45;
    let start: usize = if negative {
        1
    } else {
        0
    };
    let ghost body = dec_body(s@);
    proof {
        assert(body =~= s@.subrange(start as int, len as int));
    }
    let mut j: usize = start;
    let mut dot: usize = len;
    let mut ok = true;
    while j < len
        invariant
            start <= j <= len,
            len == s.len(),
            start <= 1,
            dot == len || (start <= dot < j && s@[dot as int] == 46),
            dot == len ==> forall|k: int| start <= k < j ==> s@[k] != 46,
            dot < len ==> forall|k: int| start <= k < dot ==> s@[k] != 46,
            ok == ((forall|k: int|
                start <= k < j && k != dot ==> is_digit(#[trigger] s@[k])) && (dot == len
                || forall|k: int| dot < k < j ==> s@[k] != 46)),
        decreases len - j,
    {
        let b = s[j];
        if b == 46 {
            if dot == len {
                dot = j;
            } else {
                ok = false;
            }
        } else if !(48 <= b && b <= 57) {
            ok = false;
        }
        j += 1;
    }
    let shape = ok && len > start && !(dot < len && len == start + 1);
    proof {
        lemma_find_byte(body, 46);
        if dot < len {
            assert(body[dot - start] == 46);
            assert forall|k: int| 0 <= k < dot - start implies body[k] != 46 by {
                assert(body[k] == s@[k + start]);
            }
            assert(find_byte(body, 46) == dot - start);
        } else {
            assert forall|k: int| 0 <= k < body.len() implies body[k] != 46 by {
                assert(body[k] == s@[k + start]);
            }
            assert(find_byte(body, 46) == body.len());
        }
        assert(shape == dec_shape(s@)) by {
            if shape {
                if dot < len {
                    let ip = body.subrange(0, dot - start);
                    let fp = body.subrange(dot - start + 1, body.len() as int);
                    assert forall|k: int| 0 <= k < ip.len() implies is_digit(#[trigger] ip[k]) by {
                        assert(ip[k] == s@[k + start]);
                    }
                    assert forall|k: int| 0 <= k < fp.len() implies is_digit(#[trigger] fp[k]) by {
                        assert(fp[k] == s@[k + dot + 1]);
                    }
                    lemma_find_byte(fp, 46);
                    if find_byte(fp, 46) < fp.len() {
                        assert(fp[find_byte(fp, 46)] == 46);
                        assert(!is_digit(fp[find_byte(fp, 46)]));
                    }
                } else {
                    assert forall|k: int| 0 <= k < body.len() implies is_digit(
                        #[trigger] body[k],
                    ) by {
                        assert(body[k] == s@[k + start]);
                    }
                }
            } else {
                if !(len > start) {
                    assert(body.len() == 0);
                } else if dot < len && len == start + 1 {
                    assert(body.len() == 1);
                } else {
                    assert(!ok);
                    if dot == len {
                        let k = choose|k: int|
                            start <= k < len && k != dot && !is_digit(#[trigger] s@[k]);
                        assert(!is_digit(body[k - start]));
                    } else if !(forall|k: int|
                        start <= k < len && k != dot ==> is_digit(#[trigger] s@[k])) {
                        let k = choose|k: int|
                            start <= k < len && k != dot && !is_digit(#[trigger] s@[k]);
                        if k < dot {
                            assert(!is_digit(body.subrange(0, dot - start)[k - start]));
                        } else {
                            assert(!is_digit(
                                body.subrange(dot - start + 1, body.len() as int)[k - dot - 1],
                            ));
                        }
                    } else {
                        let k = choose|k: int| dot < k < len && s@[k] == 46;
                        let fp = body.subrange(dot - start + 1, body.len() as int);
                        assert(fp[k - dot - 1] == 46);
                        lemma_find_byte(fp, 46);
                        assert(!is_digit(fp[find_byte(fp, 46)]) || find_byte(fp, 46) < fp.len());
                        assert(find_byte(fp, 46) < fp.len());
                    }
                }
            }
        }
    }
    if !shape {
        return Err(OcrError::Number);
    }
    let ghost digits = dec_digits(s@);
    let ip_end: usize = if dot < len {
        dot
    } else {
        len
    };
    proof {
        if dot < len {
            assert(find_byte(body, 46) == dot - start);
            assert(body.subrange(0, dot as int - start) =~= s@.subrange(start as int, dot as int));
            assert(body.subrange(dot as int - start + 1, body.len() as int) =~= s@.subrange(
                dot as int + 1,
                len as int,
            ));
            assert(digits =~= s@.subrange(start as int, ip_end as int) + s@.subrange(
                dot as int + 1,
                len as int,
            ));
        } else {
            assert(digits =~= s@.subrange(start as int, ip_end as int));
        }
        assert(all_digits(digits)) by {
            if dot < len {
                assert forall|k: int| 0 <= k < digits.len() implies is_digit(
                    #[trigger] digits[k],
                ) by {
                    if k < dot - start {
                        assert(digits[k] == body.subrange(0, dot as int - start)[k]);
                    } else {
                        assert(digits[k] == body.subrange(
                            dot as int - start + 1,
                            body.len() as int,
                        )[k - (dot - start)]);
                    }
                }
            }
        }
    }
    let mut acc: u128 = 0;
    let mut too_big = false;
    let mut j2: usize = start;
    while j2 < ip_end
        invariant
            start <= j2 <= ip_end <= len,
            len == s.len(),
            forall|k: int| start <= k < ip_end ==> is_digit(#[trigger] s@[k]),
            !too_big ==> acc == digits_val(s@.subrange(start as int, j2 as int)) && acc
                <= FRAC_LIMIT,
            too_big ==> digits_val(s@.subrange(start as int, j2 as int)) > FRAC_LIMIT,
        decreases ip_end - j2,
    {
        let b = s[j2];
        proof {
            assert(is_digit(s@[j2 as int]));
            assert(s@.subrange(start as int, j2 as int + 1).drop_last() =~= s@.subrange(
                start as int,
                j2 as int,
            ));
            assert(all_digits(s@.subrange(start as int, j2 as int)));
            lemma_digits_val_nonneg(s@.subrange(start as int, j2 as int));
        }
        if !too_big {
            acc = acc * 10 + (b - 48) as u128;
            if acc > FRAC_LIMIT as u128 {
                too_big = true;
            }
        }
        j2 += 1;
    }
    let ghost ipseq = s@.subrange(start as int, ip_end as int);
    proof {
        assert(ipseq =~= s@.subrange(start as int, j2 as int));
    }
    let mut fl: usize = 0;
    let mut den: u128 = 1;
    let mut den_big = false;
    if dot < len {
        let mut j3: usize = dot + 1;
        while j3 < len
            invariant
                dot < j3 <= len,
                len == s.len(),
                start <= dot < len,
                ipseq == s@.subrange(start as int, dot as int),
                forall|k: int| dot < k < len ==> is_digit(#[trigger] s@[k]),
                forall|k: int| start <= k < dot ==> is_digit(#[trigger] s@[k]),
                fl == j3 - dot - 1,
                !den_big ==> den == pow10(fl as nat) && den <= FRAC_LIMIT,
                den_big ==> pow10(fl as nat) > FRAC_LIMIT,
                !too_big ==> acc == digits_val(
                    ipseq + s@.subrange(dot as int + 1, j3 as int),
                ) && acc <= FRAC_LIMIT,
                too_big ==> digits_val(ipseq + s@.subrange(dot as int + 1, j3 as int))
                    > FRAC_LIMIT,
            decreases len - j3,
        {
            let b = s[j3];
            proof {
                assert(is_digit(s@[j3 as int]));
                assert((ipseq + s@.subrange(dot as int + 1, j3 as int + 1)).drop_last()
                    =~= ipseq + s@.subrange(dot as int + 1, j3 as int));
                assert(all_digits(ipseq + s@.subrange(dot as int + 1, j3 as int))) by {
                    let pre = ipseq + s@.subrange(dot as int + 1, j3 as int);
                    assert forall|k: int| 0 <= k < pre.len() implies is_digit(
                        #[trigger] pre[k],
                    ) by {
                        if k < ipseq.len() {
                            assert(pre[k] == s@[k + start]);
                        } else {
                            assert(pre[k] == s@[k - ipseq.len() + dot + 1]);
                        }
                    }
                }
                lemma_digits_val_nonneg(ipseq + s@.subrange(dot as int + 1, j3 as int));
            }
            if !too_big {
                acc = acc * 10 + (b - 48) as u128;
                if acc > FRAC_LIMIT as u128 {
                    too_big = true;
                }
            }
            if !den_big {
                den = den * 10;
                if den > FRAC_LIMIT as u128 {
                    den_big = true;
                }
            }
            fl += 1;
            j3 += 1;
        }
        proof {
            assert(s@.subrange(dot as int + 1, j3 as int) =~= s@.subrange(
                dot as int + 1,
                len as int,
            ));
            assert(dec_frac_len(s@) == len - dot - 1);
        }
    }
    proof {
        if dot < len {
        } else {
            assert(dec_frac_len(s@) == 0);
        }
        assert(!too_big ==> acc == digits_val(digits) && acc <= FRAC_LIMIT);
        assert(too_big ==> digits_val(digits) > FRAC_LIMIT);
        assert(!den_big ==> den == pow10(dec_frac_len(s@) as nat) && den <= FRAC_LIMIT);
        assert(den_big ==> pow10(dec_frac_len(s@) as nat) > FRAC_LIMIT);
    }
    if too_big || den_big {
        return Err(OcrError::OutOfRange);
    }
    proof {
        assert(dec_in_range(s@));
        lemma_pow10_mono(0, dec_frac_len(s@) as nat);
        lemma_digits_val_nonneg(digits);
        crate::rational::lemma_norm(dec_rat(s@));
    }
    let num: i64 = if negative {
        -(acc as i64)
    } else {
        acc as i64
    };
    match Frac::new(num, den as i64) {
        Some(f) => Ok(f),
        None => {
            proof {
                assert(false);
            }
            Err(OcrError::OutOfRange)
        },
    }
}

/// The string without leading `b` bytes.
pub open spec fn strip_lead(s: Seq<u8>, b: u8) -> Seq<u8>
    decreases s.len(),
{
    if s.len() > 0 && s[0] == b {
        strip_lead(s.subrange(1, s.len() as int), b)
    } else {
        s
    }
}

/// The string without trailing `b` bytes.
pub open spec fn strip_trail(s: Seq<u8>, b: u8) -> Seq<u8>
    decreases s.len(),
{
    if s.len() > 0 && s.last() == b {
        strip_trail(s.drop_last(), b)
    } else {
        s
    }
}

/// The string with every space removed.
pub open spec fn strip_spaces(s: Seq<u8>) -> Seq<u8>
    decreases s.len(),
{
    if s.len() == 0 {
        Seq::empty()
    } else if s.last() == 32 {
        strip_spaces(s.drop_last())
    } else {
        strip_spaces(s.drop_last()).push(s.last())
    }
}

/// A point literal's payload: brackets trimmed, spaces removed.
pub open spec fn point_body(p: Seq<u8>) -> Seq<u8> {
    strip_spaces(strip_trail(strip_lead(p, 91), 93))
}

/// A point has exactly one comma between two decimal literals.
pub open spec fn point_comma_ok(p: Seq<u8>) -> bool {
    let t = point_body(p);
    let k = find_byte(t, 44);
    k < t.len() && find_byte(t.subrange(k + 1, t.len() as int), 44) == t.len() - k - 1
}

/// The two coordinate literals of a point.
pub open spec fn point_xs(p: Seq<u8>) -> Seq<u8> {
    point_body(p).subrange(0, find_byte(point_body(p), 44))
}

pub open spec fn point_ys(p: Seq<u8>) -> Seq<u8> {
    point_body(p).subrange(find_byte(point_body(p), 44) + 1, point_body(p).len() as int)
}

/// A well-shaped point: one comma, decimal literals on both sides.
pub open spec fn point_shape(p: Seq<u8>) -> bool {
    point_comma_ok(p) && dec_shape(point_xs(p)) && dec_shape(point_ys(p))
}

/// Both coordinates stay in the representable range.
pub open spec fn point_in_range(p: Seq<u8>) -> bool {
    dec_in_range(point_xs(p)) && dec_in_range(point_ys(p))
}

/// The point a literal denotes.
pub open spec fn point_value(p: Seq<u8>) -> Vec2
    recommends
        point_shape(p),
        point_in_range(p),
{
    Vec2 { x: dec_value(point_xs(p)), y: dec_value(point_ys(p)) }
}

/// Find the first occurrence of `b` at or after `from`; the result is `len`
/// when there is none.
fn find_from(s: &[u8], from: usize, b: u8) -> (i: usize)
    requires
        from <= s@.len(),
    ensures
        from <= i <= s@.len(),
        i - from == find_byte(s@.subrange(from as int, s@.len() as int), b),
        i < s@.len() ==> s@[i as int] == b,
        forall|k: int| from <= k < i ==> s@[k] != b,
{
    let len = s.len();
    let mut i: usize = from;
    while i < len && s[i] != b
        invariant
            from <= i <= len,
            len == s@.len(),
            forall|k: int| from <= k < i ==> s@[k] != b,
        decreases len - i,
    {
        i += 1;
    }
    proof {
        let tail = s@.subrange(from as int, s@.len() as int);
        lemma_find_byte(tail, b);
        let f = find_byte(tail, b);
        if f < i - from {
            assert(tail[f] == b);
            assert(s@[f + from] == b);
        }
        if f > i - from {
            assert(i < len);
            assert(tail[i - from] == b);
        }
    }
    i
}

/// Parse one point literal, `[x , y]`-style, into exact coordinates.
pub fn parse_point(p: &[u8]) -> (r: Result<Vec2, OcrError>)
    ensures
        point_shape(p@) && point_in_range(p@) ==> r == Ok::<Vec2, OcrError>(point_value(p@)),
        r matches Ok(v) ==> v.wf(),
        !point_comma_ok(p@) ==> r == Err::<Vec2, OcrError>(OcrError::Point),
        point_comma_ok(p@) && !dec_shape(point_xs(p@)) ==> r == Err::<Vec2, OcrError>(
            OcrError::Number,
        ),
        point_comma_ok(p@) && dec_shape(point_xs(p@)) && !dec_in_range(point_xs(p@)) ==> r
            == Err::<Vec2, OcrError>(OcrError::OutOfRange),
        point_comma_ok(p@) && dec_shape(point_xs(p@)) && dec_in_range(point_xs(p@)) && !dec_shape(
            point_ys(p@),
        ) ==> r == Err::<Vec2, OcrError>(OcrError::Number),
        point_comma_ok(p@) && dec_shape(point_xs(p@)) && dec_in_range(point_xs(p@)) && dec_shape(
            point_ys(p@),
        ) && !dec_in_range(point_ys(p@)) ==> r == Err::<Vec2, OcrError>(OcrError::OutOfRange),
{
    let len = p.len();
    proof {
        assert(p@.subrange(0, len as int) =~= p@);
    }
    let mut a: usize = 0;
    while a < len && p[a] == 91
        invariant
            a <= len,
            len == p@.len(),
            strip_lead(p@, 91) == strip_lead(p@.subrange(a as int, len as int), 91),
        decreases len - a,
    {
        proof {
            assert(p@.subrange(a as int, len as int).subrange(
                1,
                p@.subrange(a as int, len as int).len() as int,
            ) =~= p@.subrange(a as int + 1, len as int));
        }
        a += 1;
    }
    let mut b: usize = len;
    proof {
        assert(p@.subrange(a as int, len as int) == strip_lead(p@, 91));
    }
    while b > a && p[b - 1] == 93
        invariant
            a <= b <= len,
            len == p@.len(),
            strip_trail(strip_lead(p@, 91), 93) == strip_trail(
                p@.subrange(a as int, b as int),
                93,
            ),
        decreases b,
    {
        proof {
            assert(p@.subrange(a as int, b as int).drop_last() =~= p@.subrange(
                a as int,
                b as int - 1,
            ));
        }
        b -= 1;
    }
    let mut t: Vec<u8> = Vec::new();
    let mut j: usize = a;
    while j < b
        invariant
            a <= j <= b <= len,
            len == p@.len(),
            t@ == strip_spaces(p@.subrange(a as int, j as int)),
        decreases b - j,
    {
        proof {
            assert(p@.subrange(a as int, j as int + 1).drop_last() =~= p@.subrange(
                a as int,
                j as int,
            ));
        }
        let c = p[j];
        if c != 32 {
            t.push(c);
        }
        j += 1;
    }
    proof {
        assert(strip_trail(p@.subrange(a as int, b as int), 93) == p@.subrange(
            a as int,
            b as int,
        ));
        assert(t@ == point_body(p@));
    }
    let tlen = t.len();
    proof {
        assert(t@.subrange(0, t@.len() as int) =~= t@);
    }
    let k = find_from(t.as_slice(), 0, 44);
    if k == tlen {
        return Err(OcrError::Point);
    }
    let k2 = find_from(t.as_slice(), k + 1, 44);
    if k2 < tlen {
        proof {
            assert(t@.subrange(k as int + 1, tlen as int)[k2 - k - 1] == 44);
            lemma_find_byte(t@.subrange(k as int + 1, tlen as int), 44);
        }
        return Err(OcrError::Point);
    }
    proof {
        lemma_find_byte(t@.subrange(k as int + 1, tlen as int), 44);
        if find_byte(t@.subrange(k as int + 1, tlen as int), 44) < tlen - k - 1 {
            let f = find_byte(t@.subrange(k as int + 1, tlen as int), 44);
            assert(t@[f + k + 1] == 44);
        }
        assert(point_comma_ok(p@));
    }
    let xs = slice_range_vec(t.as_slice(), 0, k);
    let ys = slice_range_vec(t.as_slice(), k + 1, tlen);
    proof {
        assert(xs@ == point_xs(p@));
        assert(ys@ == point_ys(p@));
    }
    let x = match parse_decimal(xs.as_slice()) {
        Ok(v) => v,
        Err(e) => {
            return Err(e);
        },
    };
    let y = match parse_decimal(ys.as_slice()) {
        Ok(v) => v,
        Err(e) => {
            return Err(e);
        },
    };
    Ok(Vec2 { x, y })
}

/// Copy the bytes `s[from..to]` into a fresh vector.
fn slice_range_vec(s: &[u8], from: usize, to: usize) -> (r: Vec<u8>)
    requires
        from <= to <= s@.len(),
    ensures
        r@ == s@.subrange(from as int, to as int),
{
    let mut r: Vec<u8> = Vec::new();
    let mut j: usize = from;
    while j < to
        invariant
            from <= j <= to <= s@.len(),
            r@ == s@.subrange(from as int, j as int),
        decreases to - j,
    {
        proof {
            assert(s@.subrange(from as int, j as int + 1).drop_last() =~= s@.subrange(
                from as int,
                j as int,
            ));
        }
        r.push(s[j]);
        j += 1;
    }
    r
}

/// A box segment `p1-p2` has exactly one dash.
pub open spec fn seg_dash_ok(seg: Seq<u8>) -> bool {
    let j = find_byte(seg, 45);
    j < seg.len() && find_byte(seg.subrange(j + 1, seg.len() as int), 45) == seg.len() - j - 1
}

/// The two point literals of a segment.
pub open spec fn seg_p1(seg: Seq<u8>) -> Seq<u8> {
    seg.subrange(0, find_byte(seg, 45))
}

pub open spec fn seg_p2(seg: Seq<u8>) -> Seq<u8> {
    seg.subrange(find_byte(seg, 45) + 1, seg.len() as int)
}

/// A parsable segment: one dash, a well-shaped in-range point on each side.
pub open spec fn seg_ok(seg: Seq<u8>) -> bool {
    &&& seg_dash_ok(seg)
    &&& point_shape(seg_p1(seg))
    &&& point_in_range(seg_p1(seg))
    &&& point_shape(seg_p2(seg))
    &&& point_in_range(seg_p2(seg))
}

/// The rectangle a segment denotes: the two points, corners normalized.
pub open spec fn seg_rect(seg: Seq<u8>) -> Rect
    recommends
        seg_ok(seg),
{
    let p1 = point_value(seg_p1(seg));
    let p2 = point_value(seg_p2(seg));
    Rect {
        x0: if p1.x.rat().le(p2.x.rat()) {
            p1.x
        } else {
            p2.x
        },
        y0: if p1.y.rat().le(p2.y.rat()) {
            p1.y
        } else {
            p2.y
        },
        x1: if p1.x.rat().le(p2.x.rat()) {
            p2.x
        } else {
            p1.x
        },
        y1: if p1.y.rat().le(p2.y.rat()) {
            p2.y
        } else {
            p1.y
        },
    }
}

/// Parse one bounding-box segment, `[x1,y1]-[x2,y2]`-style.
pub fn parse_box_segment(seg: &[u8]) -> (r: Result<Rect, OcrError>)
    ensures
        seg_ok(seg@) ==> r == Ok::<Rect, OcrError>(seg_rect(seg@)),
        !seg_dash_ok(seg@) ==> r == Err::<Rect, OcrError>(OcrError::Point),
        r is Ok ==> seg_ok(seg@),
{
    let len = seg.len();
    proof {
        assert(seg@.subrange(0, len as int) =~= seg@);
    }
    let j = find_from(seg, 0, 45);
    if j == len {
        return Err(OcrError::Point);
    }
    let j2 = find_from(seg, j + 1, 45);
    if j2 < len {
        proof {
            lemma_find_byte(seg@.subrange(j as int + 1, len as int), 45);
            if find_byte(seg@.subrange(j as int + 1, len as int), 45) > j2 - j - 1 {
                assert(seg@.subrange(j as int + 1, len as int)[j2 - j - 1] == 45);
            }
        }
        return Err(OcrError::Point);
    }
    proof {
        lemma_find_byte(seg@.subrange(j as int + 1, len as int), 45);
        if find_byte(seg@.subrange(j as int + 1, len as int), 45) < len - j - 1 {
            let f = find_byte(seg@.subrange(j as int + 1, len as int), 45);
            assert(seg@[f + j + 1] == 45);
        }
        assert(seg_dash_ok(seg@));
    }
    let p1 = slice_range_vec(seg, 0, j);
    let p2 = slice_range_vec(seg, j + 1, len);
    proof {
        assert(p1@ == seg_p1(seg@));
        assert(p2@ == seg_p2(seg@));
    }
    let v1 = match parse_point(p1.as_slice()) {
        Ok(v) => v,
        Err(e) => {
            return Err(e);
        },
    };
    let v2 = match parse_point(p2.as_slice()) {
        Ok(v) => v,
        Err(e) => {
            return Err(e);
        },
    };
    proof {
        if !(point_shape(p1@) && point_in_range(p1@)) {
            assert(false);
        }
        if !(point_shape(p2@) && point_in_range(p2@)) {
            assert(false);
        }
    }
    Ok(Rect::from_points(v1, v2))
}

/// The first index where the segment separator `),(` begins, or the length.
pub open spec fn find_sep(s: Seq<u8>) -> int
    decreases s.len(),
{
    if s.len() < 3 {
        s.len() as int
    } else if s[0] == 41 && s[1] == 44 && s[2] == 40 {
        0
    } else {
        1 + find_sep(s.subrange(1, s.len() as int))
    }
}

/// `find_sep` really is the first separator.
pub proof fn lemma_find_sep(s: Seq<u8>)
    ensures
        0 <= find_sep(s) <= s.len(),
        find_sep(s) < s.len() ==> find_sep(s) + 3 <= s.len() && s[find_sep(s)] == 41 && s[find_sep(
            s,
        ) + 1] == 44 && s[find_sep(s) + 2] == 40,
        forall|j: int|
            0 <= j < find_sep(s) && j + 3 <= s.len() ==> !(#[trigger] s[j] == 41 && s[j + 1] == 44
                && s[j + 2] == 40),
    decreases s.len(),
{
    if s.len() < 3 {
    } else if s[0] == 41 && s[1] == 44 && s[2] == 40 {
    } else {
        let rest = s.subrange(1, s.len() as int);
        lemma_find_sep(rest);
        assert forall|j: int|
            0 <= j < find_sep(s) && j + 3 <= s.len() implies !(#[trigger] s[j] == 41 && s[j + 1]
            == 44 && s[j + 2] == 40) by {
            if j >= 1 {
                assert(s[j] == rest[j - 1] && s[j + 1] == rest[j] && s[j + 2] == rest[j + 1]);
            }
        }
        if find_sep(s) < s.len() {
            let f = find_sep(rest);
            assert(s[f + 1] == rest[f] && s[f + 2] == rest[f + 1] && s[f + 3] == rest[f + 2]);
        }
    }
}

/// Find the first segment separator within `s[from..to]`; `to` when none.
fn find_sep_from(s: &[u8], from: usize, to: usize) -> (i: usize)
    requires
        from <= to <= s@.len(),
    ensures
        from <= i <= to,
        i - from == find_sep(s@.subrange(from as int, to as int)),
        i < to ==> i + 3 <= to,
{
    let mut i: usize = from;
    while i < to && to - i >= 3 && !(s[i] == 41 && s[i + 1] == 44 && s[i + 2] == 40)
        invariant
            from <= i <= to,
            to <= s@.len(),
            i + 2 < to || i <= to,
            forall|k: int|
                from <= k < i ==> !(#[trigger] s@[k] == 41 && s@[k + 1] == 44 && s@[k + 2] == 40),
        decreases to - i,
    {
        i += 1;
    }
    let found = i < to && to - i >= 3;
    let r = if found {
        i
    } else {
        to
    };
    proof {
        let w = s@.subrange(from as int, to as int);
        lemma_find_sep(w);
        let f = find_sep(w);
        if found {
            assert(w[i - from] == 41 && w[i - from + 1] == 44 && w[i - from + 2] == 40);
            if f < i - from {
                assert(s@[f + from] == 41 && s@[f + from + 1] == 44 && s@[f + from + 2] == 40);
            }
            if f > i - from {
                assert(!(w[i - from] == 41 && w[i - from + 1] == 44 && w[i - from + 2] == 40));
            }
        } else {
            if f < w.len() {
                assert(s@[f + from] == 41 && s@[f + from + 1] == 44 && s@[f + from + 2] == 40);
            }
        }
    }
    r
}

/// A line splits into exactly three `;`-separated parts.
pub open spec fn parts_ok(s: Seq<u8>) -> bool {
    let i1 = find_byte(s, 59);
    if i1 == s.len() {
        false
    } else {
        let rest = s.subrange(i1 + 1, s.len() as int);
        let i2 = find_byte(rest, 59);
        i2 < rest.len() && find_byte(rest.subrange(i2 + 1, rest.len() as int), 59) == rest.len()
            - i2 - 1
    }
}

/// The three parts of a line: boxes, text, confidence.
pub open spec fn part_boxes(s: Seq<u8>) -> Seq<u8> {
    s.subrange(0, find_byte(s, 59))
}

pub open spec fn part_text(s: Seq<u8>) -> Seq<u8> {
    let rest = s.subrange(find_byte(s, 59) + 1, s.len() as int);
    rest.subrange(0, find_byte(rest, 59))
}

pub open spec fn part_conf(s: Seq<u8>) -> Seq<u8> {
    let rest = s.subrange(find_byte(s, 59) + 1, s.len() as int);
    rest.subrange(find_byte(rest, 59) + 1, rest.len() as int)
}

/// The boxes part with the surrounding parentheses trimmed.
pub open spec fn boxes_str(s: Seq<u8>) -> Seq<u8> {
    strip_trail(strip_lead(part_boxes(s), 40), 41)
}

/// Every `),(`-separated segment of the boxes part parses.
pub open spec fn segs_ok(bs: Seq<u8>) -> bool
    decreases bs.len(),
    via segs_ok_dec
{
    let i = find_sep(bs);
    if i == bs.len() {
        seg_ok(bs)
    } else {
        seg_ok(bs.subrange(0, i)) && segs_ok(bs.subrange(i + 3, bs.len() as int))
    }
}

#[via_fn]
proof fn segs_ok_dec(bs: Seq<u8>) {
    lemma_find_sep(bs);
}

/// The first segment of the boxes part; the returned rectangle comes from it.
pub open spec fn first_seg(bs: Seq<u8>) -> Seq<u8> {
    bs.subrange(0, find_sep(bs))
}

/// A whole line parses: three parts, all box segments well formed, and a
/// well-formed in-range confidence.
pub open spec fn line_ok(s: Seq<u8>) -> bool {
    &&& parts_ok(s)
    &&& segs_ok(boxes_str(s))
    &&& dec_shape(part_conf(s))
    &&& dec_in_range(part_conf(s))
}

/// One recognized text box: its bounding rectangle in image coordinates,
/// the recognized text bytes, and the recognition confidence.
#[derive(Clone, Debug, PartialEq, Eq)]
pub struct OcrTextBox {
    pub boxes: Rect,
    pub text: Vec<u8>,
    pub confidence: Frac,
}

/// What a parsed line yields: the first segment's rectangle, the text part
/// verbatim, and the exact confidence value.
pub open spec fn box_post(s: Seq<u8>, b: OcrTextBox) -> bool {
    &&& b.boxes == seg_rect(first_seg(boxes_str(s)))
    &&& b.text@ == part_text(s)
    &&& b.confidence == dec_value(part_conf(s))
}

impl OcrTextBox {
    /// Parse one worker line, `(box)[,(box)...];text;confidence`. The
    /// rectangle of the first box is kept, as the decoration layer expects;
    /// every box must still be well formed. A line without exactly three
    /// `;`-separated parts is a `Format` error.
    #[verifier::rlimit(60)]
    pub fn parse_ocr_text_box(input: &[u8]) -> (r: Result<OcrTextBox, OcrError>)
        ensures
            !parts_ok(input@) ==> r == Err::<OcrTextBox, OcrError>(OcrError::Format),
            line_ok(input@) ==> r is Ok,
            r is Ok ==> line_ok(input@),
            r matches Ok(b) ==> box_post(input@, b),
    {
        let len = input.len();
        proof {
            assert(input@.subrange(0, len as int) =~= input@);
        }
        let i1 = find_from(input, 0, 59);
        if i1 == len {
            return Err(OcrError::Format);
        }
        let ghost rest = input@.subrange(i1 as int + 1, len as int);
        let i2 = find_from(input, i1 + 1, 59);
        if i2 == len {
            proof {
                lemma_find_byte(rest, 59);
                if find_byte(rest, 59) < rest.len() {
                    assert(input@[find_byte(rest, 59) + i1 + 1] == 59);
                }
            }
            return Err(OcrError::Format);
        }
        let i3 = find_from(input, i2 + 1, 59);
        if i3 < len {
            proof {
                assert(rest[i2 - i1 - 1] == 59);
                lemma_find_byte(rest, 59);
                assert(find_byte(rest, 59) == i2 - i1 - 1);
                assert(rest.subrange(i2 as int - i1, rest.len() as int) =~= input@.subrange(
                    i2 as int + 1,
                    len as int,
                ));
                assert(rest.subrange(i2 as int - i1, rest.len() as int)[i3 - i2 - 1] == 59);
                lemma_find_byte(rest.subrange(i2 as int - i1, rest.len() as int), 59);
            }
            return Err(OcrError::Format);
        }
        proof {
            assert(rest[i2 - i1 - 1] == 59);
            lemma_find_byte(rest, 59);
            assert(find_byte(rest, 59) == i2 - i1 - 1);
            assert(rest.subrange(i2 as int - i1, rest.len() as int) =~= input@.subrange(
                i2 as int + 1,
                len as int,
            ));
            lemma_find_byte(rest.subrange(i2 as int - i1, rest.len() as int), 59);
            if find_byte(rest.subrange(i2 as int - i1, rest.len() as int), 59) < len - i2 - 1 {
                let f = find_byte(rest.subrange(i2 as int - i1, rest.len() as int), 59);
                assert(input@[f + i2 + 1] == 59);
            }
            assert(parts_ok(input@));
            assert(part_text(input@) =~= input@.subrange(i1 as int + 1, i2 as int));
            assert(part_conf(input@) =~= input@.subrange(i2 as int + 1, len as int));
        }
        // trim the parentheses around the boxes part
        let ghost bpart = part_boxes(input@);
        proof {
            assert(bpart =~= input@.subrange(0, i1 as int));
        }
        let mut a: usize = 0;
        while a < i1 && input[a] == 40
            invariant
                a <= i1 <= len,
                len == input@.len(),
                bpart == part_boxes(input@),
                strip_lead(bpart, 40) == strip_lead(input@.subrange(a as int, i1 as int), 40),
            decreases i1 - a,
        {
            proof {
                assert(input@.subrange(a as int, i1 as int).subrange(
                    1,
                    input@.subrange(a as int, i1 as int).len() as int,
                ) =~= input@.subrange(a as int + 1, i1 as int));
            }
            a += 1;
        }
        let mut b: usize = i1;
        proof {
            assert(input@.subrange(a as int, i1 as int) == strip_lead(bpart, 40));
        }
        while b > a && input[b - 1] == 41
            invariant
                a <= b <= i1 <= len,
                len == input@.len(),
                bpart == part_boxes(input@),
                strip_trail(strip_lead(bpart, 40), 41) == strip_trail(
                    input@.subrange(a as int, b as int),
                    41,
                ),
            decreases b,
        {
            proof {
                assert(input@.subrange(a as int, b as int).drop_last() =~= input@.subrange(
                    a as int,
                    b as int - 1,
                ));
            }
            b -= 1;
        }
        let ghost bs = boxes_str(input@);
        proof {
            assert(strip_trail(input@.subrange(a as int, b as int), 41) == input@.subrange(
                a as int,
                b as int,
            ));
            assert(bs == input@.subrange(a as int, b as int));
        }
        // walk the segments; all must parse, the first rectangle is kept
        let mut seg_start: usize = a;
        let mut first: Option<Rect> = None;
        loop
            invariant
                a <= seg_start <= b <= len,
                len == input@.len(),
                parts_ok(input@),
                bs == boxes_str(input@),
                segs_ok(bs) == segs_ok(input@.subrange(seg_start as int, b as int)),
                match first {
                    Some(r0) => r0 == seg_rect(first_seg(bs)),
                    None => seg_start == a && input@.subrange(seg_start as int, b as int) == bs,
                },
            ensures
                segs_ok(bs),
                first matches Some(r0) && r0 == seg_rect(first_seg(bs)),
            decreases b - seg_start,
        {
            let ghost window = input@.subrange(seg_start as int, b as int);
            let i = find_sep_from(input, seg_start, b);
            proof {
                lemma_find_sep(window);
            }
            if i < b {
                let seg = slice_range_vec(input, seg_start, i);
                proof {
                    assert(seg@ == window.subrange(0, i as int - seg_start));
                }
                match parse_box_segment(seg.as_slice()) {
                    Ok(rc) => {
                        proof {
                            assert(window.subrange(
                                i as int - seg_start + 3,
                                window.len() as int,
                            ) =~= input@.subrange(i as int + 3, b as int));
                            if first is None {
                                assert(first_seg(bs) == seg@);
                            }
                        }
                        if first.is_none() {
                            first = Some(rc);
                        }
                        seg_start = i + 3;
                    },
                    Err(e) => {
                        proof {
                            assert(!seg_ok(seg@));
                            assert(!segs_ok(bs));
                        }
                        return Err(e);
                    },
                }
            } else {
                let seg = slice_range_vec(input, seg_start, b);
                proof {
                    assert(seg@ == window);
                    assert(find_sep(window) == window.len());
                }
                match parse_box_segment(seg.as_slice()) {
                    Ok(rc) => {
                        proof {
                            if first is None {
                                assert(first_seg(bs) == seg@);
                            }
                        }
                        if first.is_none() {
                            first = Some(rc);
                        }
                        break;
                    },
                    Err(e) => {
                        proof {
                            assert(!seg_ok(seg@));
                            assert(!segs_ok(bs));
                        }
                        return Err(e);
                    },
                }
            }
        }
        let rect = match first {
            Some(r0) => r0,
            None => {
                proof {
                    assert(false);
                }
                return Err(OcrError::Point);
            },
        };
        let text = slice_range_vec(input, i1 + 1, i2);
        let conf_bytes = slice_range_vec(input, i2 + 1, len);
        let confidence = match parse_decimal(conf_bytes.as_slice()) {
            Ok(v) => v,
            Err(e) => {
                return Err(e);
            },
        };
        Ok(OcrTextBox { boxes: rect, text, confidence })
    }
}

/// The lines of the worker's output, split on newlines; a trailing newline
/// yields no extra empty line, interior empty lines stay.
pub open spec fn lines_seq(s: Seq<u8>) -> Seq<Seq<u8>>
    decreases s.len(),
    via lines_seq_dec
{
    if s.len() == 0 {
        Seq::empty()
    } else {
        let i = find_byte(s, 10);
        if i == s.len() {
            seq![s]
        } else {
            seq![s.subrange(0, i)] + lines_seq(s.subrange(i + 1, s.len() as int))
        }
    }
}

#[via_fn]
proof fn lines_seq_dec(s: Seq<u8>) {
    lemma_find_byte(s, 10);
}

/// The recognized content of one image: where it came from, and one text
/// box per line of the worker's output.
#[derive(Clone, Debug, PartialEq, Eq)]
pub struct Ocr {
    pub img_path: String,
    pub content: Vec<OcrTextBox>,
}

impl Ocr {
    /// Turn the worker's whole output into recognized text boxes, one per
    /// line; any malformed line rejects the whole output, as each box is
    /// expected to be machine-written.
    pub fn from_output(path: String, output: &[u8]) -> (r: Result<Ocr, OcrError>)
        ensures
            (r is Ok) == (forall|k: int|
                0 <= k < lines_seq(output@).len() ==> line_ok(#[trigger] lines_seq(output@)[k])),
            r matches Ok(ocr) ==> ocr.img_path == path && ocr.content@.len() == lines_seq(
                output@,
            ).len() && (forall|k: int|
                0 <= k < ocr.content@.len() ==> box_post(
                    lines_seq(output@)[k],
                    #[trigger] ocr.content@[k],
                )),
    {
        let len = output.len();
        let ghost lines = lines_seq(output@);
        let mut content: Vec<OcrTextBox> = Vec::new();
        let mut pos: usize = 0;
        proof {
            assert(output@.subrange(0, len as int) =~= output@);
        }
        while pos < len
            invariant
                pos <= len,
                len == output@.len(),
                lines == lines_seq(output@),
                pos < len ==> lines == lines.subrange(0, content@.len() as int) + lines_seq(
                    output@.subrange(pos as int, len as int),
                ),
                pos == len ==> lines == lines.subrange(0, content@.len() as int),
                content@.len() <= lines.len(),
                forall|k: int|
                    0 <= k < content@.len() ==> line_ok(#[trigger] lines[k]) && box_post(
                        lines[k],
                        content@[k],
                    ),
            decreases len - pos,
        {
            let ghost window = output@.subrange(pos as int, len as int);
            let i = find_from(output, pos, 10);
            let line = slice_range_vec(output, pos, i);
            proof {
                lemma_find_byte(window, 10);
                assert(line@ == window.subrange(0, i as int - pos));
                if i < len {
                    assert(window.subrange(i as int - pos + 1, window.len() as int)
                        =~= output@.subrange(i as int + 1, len as int));
                    assert(lines_seq(window) == seq![line@] + lines_seq(
                        output@.subrange(i as int + 1, len as int),
                    ));
                } else {
                    assert(line@ =~= window);
                    assert(lines_seq(window) == seq![window]);
                }
                assert(lines[content@.len() as int] == line@);
            }
            let bx = match OcrTextBox::parse_ocr_text_box(line.as_slice()) {
                Ok(v) => v,
                Err(e) => {
                    proof {
                        assert(!line_ok(lines[content@.len() as int]));
                    }
                    return Err(e);
                },
            };
            content.push(bx);
            if i == len {
                pos = len;
            } else {
                pos = i + 1;
            }
            proof {
                if pos < len {
                    assert(lines =~= lines.subrange(0, content@.len() as int) + lines_seq(
                        output@.subrange(pos as int, len as int),
                    ));
                } else {
                    assert(lines =~= lines.subrange(0, content@.len() as int));
                }
            }
        }
        proof {
            assert(lines =~= lines.subrange(0, content@.len() as int));
            assert(content@.len() == lines.len());
        }
        Ok(Ocr { img_path: path, content })
    }
}

/// Concatenating digit strings: the left part is scaled by ten to the length
/// of the right part.
proof fn lemma_digits_concat(a: Seq<u8>, b: Seq<u8>)
    requires
        all_digits(a),
        all_digits(b),
    ensures
        digits_val(a + b) == digits_val(a) * pow10(b.len()) + digits_val(b),
    decreases b.len(),
{
    if b.len() == 0 {
        assert(a + b =~= a);
    } else {
        lemma_digits_concat(a, b.drop_last());
        assert((a + b).drop_last() =~= a + b.drop_last());
        assert(digits_val(a + b) == digits_val(a + b.drop_last()) * 10 + (b.last() - 48));
        assert(digits_val(a) * pow10((b.len() - 1) as nat) * 10 == digits_val(a) * pow10(b.len()))
            by (nonlinear_arith)
            requires
                pow10(b.len()) == 10 * pow10((b.len() - 1) as nat),
        ;
    }
}

} // verus!
