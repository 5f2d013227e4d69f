//! Exact rational arithmetic for viewport coordinates and scale factors.
//!
//! A [`Frac`] stores a rational number as `num / den` with `den > 0`, both
//! within [`FRAC_LIMIT`]. Arithmetic is exact: each operation computes the
//! raw numerator and denominator in 128-bit integers, reduces them to lowest
//! terms, and returns `None` when even the reduced value leaves the
//! representable range. Specifications speak about [`Rat`], a mathematical
//! rational with unbounded integer parts.

use vstd::prelude::*;

verus! {

use vstd::arithmetic::div_mod::{
    lemma_fundamental_div_mod,
    lemma_fundamental_div_mod_converse,
    lemma_add_mod_noop,
    lemma_mul_mod_noop_right,
    lemma_mod_self_0,
    lemma_small_mod,
};
use vstd::math::abs;

/// Largest magnitude that a stored numerator or denominator may take.
pub const FRAC_LIMIT: i64 = 4_000_000_000_000_000_000;

/// A mathematical rational number `n / d`, for specifications only.
pub struct Rat {
    pub n: int,
    pub d: int,
}

impl Rat {
    /// A denominator must be positive for the comparison specs to be meaningful.
    pub open spec fn wf(self) -> bool {
        self.d > 0
    }

    /// The rational of a plain integer.
    pub open spec fn whole(i: int) -> Rat {
        Rat { n: i, d: 1 }
    }

    /// Rational equality by cross-multiplication.
    pub open spec fn eqv(self, o: Rat) -> bool {
        self.n * o.d == o.n * self.d
    }

    /// `self <= o`, assuming positive denominators.
    pub open spec fn le(self, o: Rat) -> bool {
        self.n * o.d <= o.n * self.d
    }

    /// `self < o`, assuming positive denominators.
    pub open spec fn lt(self, o: Rat) -> bool {
        self.n * o.d < o.n * self.d
    }

    pub open spec fn plus(self, o: Rat) -> Rat {
        Rat { n: self.n * o.d + o.n * self.d, d: self.d * o.d }
    }

    pub open spec fn minus(self, o: Rat) -> Rat {
        Rat { n: self.n * o.d - o.n * self.d, d: self.d * o.d }
    }

    pub open spec fn times(self, o: Rat) -> Rat {
        Rat { n: self.n * o.n, d: self.d * o.d }
    }

    /// `self / o`; the sign moves into the numerator so the denominator stays positive.
    pub open spec fn over(self, o: Rat) -> Rat {
        if o.n >= 0 {
            Rat { n: self.n * o.d, d: self.d * o.n }
        } else {
            Rat { n: -(self.n * o.d), d: self.d * -o.n }
        }
    }

    /// The smaller of the two, by rational comparison.
    pub open spec fn min_with(self, o: Rat) -> Rat {
        if self.le(o) {
            self
        } else {
            o
        }
    }
}

/// Rational equality is transitive over positive denominators.
pub proof fn lemma_eqv_trans(a: Rat, b: Rat, c: Rat)
    requires
        a.wf(),
        b.wf(),
        c.wf(),
        a.eqv(b),
        b.eqv(c),
    ensures
        a.eqv(c),
{
    assert(a.n * c.d == c.n * a.d) by (nonlinear_arith)
        requires
            a.d > 0,
            b.d > 0,
            c.d > 0,
            a.n * b.d == b.n * a.d,
            b.n * c.d == c.n * b.d,
    ;
}

/// Replacing one summand by an equal rational keeps the sum equal.
proof fn lemma_plus_congr_left(a: Rat, a2: Rat, b: Rat)
    requires
        a.wf(),
        a2.wf(),
        b.wf(),
        a.eqv(a2),
    ensures
        a.plus(b).wf(),
        a2.plus(b).wf(),
        a.plus(b).eqv(a2.plus(b)),
{
    assert(a.d * b.d > 0 && a2.d * b.d > 0 && (a.n * b.d + b.n * a.d) * (a2.d * b.d) == (
    a2.n * b.d + b.n * a2.d) * (a.d * b.d)) by (nonlinear_arith)
        requires
            a.d > 0,
            a2.d > 0,
            b.d > 0,
            a.n * a2.d == a2.n * a.d,
    ;
}

/// Sums of equal rationals are equal.
pub proof fn lemma_plus_congr(a: Rat, a2: Rat, b: Rat, b2: Rat)
    requires
        a.wf(),
        a2.wf(),
        b.wf(),
        b2.wf(),
        a.eqv(a2),
        b.eqv(b2),
    ensures
        a.plus(b).wf(),
        a.plus(b).eqv(a2.plus(b2)),
{
    lemma_plus_congr_left(a, a2, b);
    lemma_plus_congr_left(b, b2, a2);
    assert(a2.plus(b) == b.plus(a2));
    assert(a2.plus(b2) == b2.plus(a2));
    lemma_eqv_trans(a.plus(b), a2.plus(b), a2.plus(b2));
}

/// The negation of a rational, used to reduce subtraction to addition.
pub open spec fn neg_rat(a: Rat) -> Rat {
    Rat { n: -a.n, d: a.d }
}

/// Addition of rationals is associative, representation and all.
#[verifier::rlimit(50)]
pub proof fn lemma_plus_assoc(a: Rat, b: Rat, c: Rat)
    ensures
        a.plus(b).plus(c) == a.plus(b.plus(c)),
{
    assert((a.n * b.d + b.n * a.d) * c.d + c.n * (a.d * b.d) == a.n * (b.d * c.d) + (b.n * c.d
        + c.n * b.d) * a.d) by (nonlinear_arith);
    assert((a.d * b.d) * c.d == a.d * (b.d * c.d)) by (nonlinear_arith);
}

/// Addition of rationals is commutative, representation and all.
pub proof fn lemma_plus_comm(a: Rat, b: Rat)
    ensures
        a.plus(b) == b.plus(a),
{
    assert(a.n * b.d + b.n * a.d == b.n * a.d + a.n * b.d && a.d * b.d == b.d * a.d)
        by (nonlinear_arith);
}

/// Subtraction is addition of the negation, representation and all.
pub proof fn lemma_minus_is_plus_neg(a: Rat, b: Rat)
    ensures
        a.minus(b) == a.plus(neg_rat(b)),
{
    assert(a.n * b.d - b.n * a.d == a.n * b.d + (-b.n) * a.d) by (nonlinear_arith);
}

/// Differences of equal rationals are equal.
pub proof fn lemma_minus_congr(a: Rat, a2: Rat, b: Rat, b2: Rat)
    requires
        a.wf(),
        a2.wf(),
        b.wf(),
        b2.wf(),
        a.eqv(a2),
        b.eqv(b2),
    ensures
        a.minus(b).wf(),
        a.minus(b).eqv(a2.minus(b2)),
{
    assert(a.minus(b) == a.plus(neg_rat(b))) by {
        assert((-b.n) * a.d == -(b.n * a.d)) by (nonlinear_arith);
    }
    assert(a2.minus(b2) == a2.plus(neg_rat(b2))) by {
        assert((-b2.n) * a2.d == -(b2.n * a2.d)) by (nonlinear_arith);
    }
    assert(neg_rat(b).eqv(neg_rat(b2))) by {
        assert((-b.n) * b2.d == -(b.n * b2.d) && (-b2.n) * b.d == -(b2.n * b.d))
            by (nonlinear_arith);
    }
    lemma_plus_congr(a, a2, neg_rat(b), neg_rat(b2));
}

/// Products of equal rationals are equal.
pub proof fn lemma_times_congr(a: Rat, a2: Rat, b: Rat, b2: Rat)
    requires
        a.wf(),
        a2.wf(),
        b.wf(),
        b2.wf(),
        a.eqv(a2),
        b.eqv(b2),
    ensures
        a.times(b).wf(),
        a.times(b).eqv(a2.times(b2)),
{
    assert(a.d * b.d > 0 && (a.n * b.n) * (a2.d * b2.d) == (a2.n * b2.n) * (a.d * b.d))
        by (nonlinear_arith)
        requires
            a.d > 0,
            a2.d > 0,
            b.d > 0,
            b2.d > 0,
            a.n * a2.d == a2.n * a.d,
            b.n * b2.d == b2.n * b.d,
    ;
}

/// Equal rationals have signs that agree.
pub proof fn lemma_sign_congr(a: Rat, a2: Rat)
    requires
        a.wf(),
        a2.wf(),
        a.eqv(a2),
    ensures
        (a.n > 0) == (a2.n > 0),
        (a.n == 0) == (a2.n == 0),
        (a.n < 0) == (a2.n < 0),
{
    assert(((a.n > 0) == (a2.n > 0)) && ((a.n == 0) == (a2.n == 0)) && ((a.n < 0) == (a2.n
        < 0))) by (nonlinear_arith)
        requires
            a.d > 0,
            a2.d > 0,
            a.n * a2.d == a2.n * a.d,
    ;
}

/// Quotients of equal rationals are equal, for a nonzero divisor.
pub proof fn lemma_over_congr(a: Rat, a2: Rat, b: Rat, b2: Rat)
    requires
        a.wf(),
        a2.wf(),
        b.wf(),
        b2.wf(),
        a.eqv(a2),
        b.eqv(b2),
        b.n != 0,
    ensures
        b2.n != 0,
        a.over(b).wf(),
        a.over(b).eqv(a2.over(b2)),
{
    lemma_sign_congr(b, b2);
    let rb = recip_rat(b);
    let rb2 = recip_rat(b2);
    assert(a.over(b) == a.times(rb)) by {
        assert(a.n * -b.d == -(a.n * b.d)) by (nonlinear_arith);
    }
    assert(a2.over(b2) == a2.times(rb2)) by {
        assert(a2.n * -b2.d == -(a2.n * b2.d)) by (nonlinear_arith);
    }
    assert(rb.eqv(rb2)) by (nonlinear_arith)
        requires
            b.d > 0,
            b2.d > 0,
            b.n != 0,
            b2.n != 0,
            (b.n > 0) == (b2.n > 0),
            b.n * b2.d == b2.n * b.d,
            rb == recip_rat(b),
            rb2 == recip_rat(b2),
    ;
    lemma_times_congr(a, a2, rb, rb2);
}

/// The reciprocal of a nonzero rational; the sign stays in the denominator slot's numerator.
pub open spec fn recip_rat(a: Rat) -> Rat {
    if a.n >= 0 {
        Rat { n: a.d, d: a.n }
    } else {
        Rat { n: -a.d, d: -a.n }
    }
}

/// How large a sum can grow, from bounds on its parts.
pub proof fn lemma_plus_bound(a: Rat, b: Rat, na: int, da: int, nb: int, db: int)
    requires
        a.wf(),
        b.wf(),
        abs(a.n) <= na,
        a.d <= da,
        abs(b.n) <= nb,
        b.d <= db,
    ensures
        a.plus(b).wf(),
        abs(a.plus(b).n) <= na * db + nb * da,
        a.plus(b).d <= da * db,
{
    assert(a.d * b.d > 0 && abs(a.n * b.d + b.n * a.d) <= na * db + nb * da && a.d * b.d
        <= da * db) by (nonlinear_arith)
        requires
            0 < a.d <= da,
            0 < b.d <= db,
            abs(a.n) <= na,
            abs(b.n) <= nb,
    ;
}

/// How large a difference can grow, from bounds on its parts.
pub proof fn lemma_minus_bound(a: Rat, b: Rat, na: int, da: int, nb: int, db: int)
    requires
        a.wf(),
        b.wf(),
        abs(a.n) <= na,
        a.d <= da,
        abs(b.n) <= nb,
        b.d <= db,
    ensures
        a.minus(b).wf(),
        abs(a.minus(b).n) <= na * db + nb * da,
        a.minus(b).d <= da * db,
{
    assert(a.d * b.d > 0 && abs(a.n * b.d - b.n * a.d) <= na * db + nb * da && a.d * b.d
        <= da * db) by (nonlinear_arith)
        requires
            0 < a.d <= da,
            0 < b.d <= db,
            abs(a.n) <= na,
            abs(b.n) <= nb,
    ;
}

/// How large a product can grow, from bounds on its parts.
pub proof fn lemma_times_bound(a: Rat, b: Rat, na: int, da: int, nb: int, db: int)
    requires
        a.wf(),
        b.wf(),
        abs(a.n) <= na,
        a.d <= da,
        abs(b.n) <= nb,
        b.d <= db,
    ensures
        a.times(b).wf(),
        abs(a.times(b).n) <= na * nb,
        a.times(b).d <= da * db,
{
    assert(a.d * b.d > 0 && abs(a.n * b.n) <= na * nb && a.d * b.d <= da * db)
        by (nonlinear_arith)
        requires
            0 < a.d <= da,
            0 < b.d <= db,
            abs(a.n) <= na,
            abs(b.n) <= nb,
    ;
}

/// How large a quotient can grow, from bounds on its parts.
pub proof fn lemma_over_bound(a: Rat, b: Rat, na: int, da: int, nb: int, db: int)
    requires
        a.wf(),
        b.wf(),
        b.n != 0,
        abs(a.n) <= na,
        a.d <= da,
        abs(b.n) <= nb,
        b.d <= db,
    ensures
        a.over(b).wf(),
        abs(a.over(b).n) <= na * db,
        a.over(b).d <= da * nb,
{
    if b.n >= 0 {
        assert(a.d * b.n > 0 && abs(a.n * b.d) <= na * db && a.d * b.n <= da * nb)
            by (nonlinear_arith)
            requires
                0 < a.d <= da,
                0 < b.d <= db,
                0 < b.n,
                abs(a.n) <= na,
                abs(b.n) <= nb,
        ;
    } else {
        assert(a.d * -b.n > 0 && abs(-(a.n * b.d)) <= na * db && a.d * -b.n <= da * nb)
            by (nonlinear_arith)
            requires
                0 < a.d <= da,
                0 < b.d <= db,
                b.n < 0,
                abs(a.n) <= na,
                abs(b.n) <= nb,
        ;
    }
}

/// Comparisons agree across equal rationals.
pub proof fn lemma_cmp_congr(a: Rat, a2: Rat, b: Rat, b2: Rat)
    requires
        a.wf(),
        a2.wf(),
        b.wf(),
        b2.wf(),
        a.eqv(a2),
        b.eqv(b2),
    ensures
        a.le(b) == a2.le(b2),
        a.lt(b) == a2.lt(b2),
{
    assert((a.n * b.d <= b.n * a.d) == (a2.n * b2.d <= b2.n * a2.d) && (a.n * b.d < b.n
        * a.d) == (a2.n * b2.d < b2.n * a2.d)) by (nonlinear_arith)
        requires
            a.d > 0,
            a2.d > 0,
            b.d > 0,
            b2.d > 0,
            a.n * a2.d == a2.n * a.d,
            b.n * b2.d == b2.n * b.d,
    ;
}

/// An exact rational number as stored by the engine.
#[derive(Clone, Copy, PartialEq, Eq, Structural, Debug)]
pub struct Frac {
    pub num: i64,
    pub den: i64,
}

impl Frac {
    /// Stored values have a positive denominator and parts within `FRAC_LIMIT`.
    pub open spec fn wf(self) -> bool {
        0 < self.den <= FRAC_LIMIT && -FRAC_LIMIT <= self.num <= FRAC_LIMIT
    }

    /// The mathematical value of the stored fraction.
    pub open spec fn rat(self) -> Rat {
        Rat { n: self.num as int, d: self.den as int }
    }

    /// Whether the stored value is strictly positive.
    pub open spec fn pos(self) -> bool {
        self.num > 0
    }

    /// Whether both parts are within the given magnitude bounds.
    pub open spec fn within(self, num_bound: int, den_bound: int) -> bool {
        abs(self.num as int) <= num_bound && self.den <= den_bound
    }
}

/// Greatest common divisor by Euclid's rule.
pub open spec fn gcd_nat(a: nat, b: nat) -> nat
    decreases b,
{
    if b == 0 {
        a
    } else {
        gcd_nat(b, a % b)
    }
}

/// The gcd is positive and divides both arguments, whenever one of them is positive.
pub proof fn lemma_gcd_nat_divides(a: nat, b: nat)
    requires
        a > 0 || b > 0,
    ensures
        ({
            let g = gcd_nat(a, b);
            g > 0 && a % g == 0 && b % g == 0
        }),
    decreases b,
{
    let g = gcd_nat(a, b);
    if b == 0 {
        lemma_mod_self_0(a as int);
        lemma_small_mod(0, a);
    } else {
        lemma_gcd_nat_divides(b, a % b);
        let q = a as int / b as int;
        lemma_fundamental_div_mod(a as int, b as int);
        assert(a as int == q * (b as int) + (a % b) as int);
        lemma_mul_mod_noop_right(q, b as int, g as int);
        assert((q * (b as int)) % (g as int) == (q * ((b as int) % (g as int))) % (g as int));
        lemma_small_mod(0, g);
        assert((q * (b as int)) % (g as int) == 0);
        lemma_add_mod_noop(q * (b as int), (a % b) as int, g as int);
        assert(a % g == 0);
    }
}

/// The fraction `q` in lowest terms, if the reduced parts fit the stored range.
pub open spec fn norm(q: Rat) -> Option<Frac> {
    let g = gcd_nat(abs(q.n), q.d as nat) as int;
    let n0 = q.n / g;
    let d0 = q.d / g;
    if -FRAC_LIMIT <= n0 <= FRAC_LIMIT && 0 < d0 <= FRAC_LIMIT {
        Some(Frac { num: n0 as i64, den: d0 as i64 })
    } else {
        None
    }
}

/// Exact division facts behind `norm`: `q.n == g * n0` and `q.d == g * d0`.
proof fn lemma_norm_parts(q: Rat)
    requires
        q.wf(),
    ensures
        ({
            let g = gcd_nat(abs(q.n), q.d as nat) as int;
            let n0 = q.n / g;
            let d0 = q.d / g;
            g > 0 && q.n == g * n0 && q.d == g * d0 && d0 > 0
        }),
{
    let g = gcd_nat(abs(q.n), q.d as nat) as int;
    lemma_gcd_nat_divides(abs(q.n), q.d as nat);
    assert(abs(q.n) % (g as nat) == 0);
    if q.n < 0 {
        let k = abs(q.n) as int / g;
        lemma_fundamental_div_mod(abs(q.n) as int, g);
        assert(abs(q.n) as int == g * k);
        assert(q.n == g * -k) by (nonlinear_arith)
            requires
                abs(q.n) as int == g * k,
                q.n < 0,
                abs(q.n) == -q.n,
        ;
        lemma_fundamental_div_mod_converse(q.n, g, -k, 0);
        assert(q.n / g == -k);
    } else {
        lemma_fundamental_div_mod(q.n, g);
    }
    lemma_fundamental_div_mod(q.d, g);
    assert(q.d / g > 0) by (nonlinear_arith)
        requires
            g > 0,
            q.d > 0,
            q.d == g * (q.d / g),
    ;
}

/// What `norm` guarantees: a well-formed fraction equal to `q`, whose parts
/// did not grow; `None` only when `q`'s own parts already exceed the range.
pub proof fn lemma_norm(q: Rat)
    requires
        q.wf(),
    ensures
        match norm(q) {
            Some(c) => {
                &&& c.wf()
                &&& c.rat().eqv(q)
                &&& q.eqv(c.rat())
                &&& c.den <= q.d
                &&& abs(c.num as int) <= abs(q.n)
                &&& (q.n > 0 ==> c.num > 0)
                &&& (q.n == 0 ==> c.num == 0)
                &&& (q.n < 0 ==> c.num < 0)
            },
            None => abs(q.n) > FRAC_LIMIT || q.d > FRAC_LIMIT,
        },
{
    let g = gcd_nat(abs(q.n), q.d as nat) as int;
    let n0 = q.n / g;
    let d0 = q.d / g;
    lemma_norm_parts(q);
    assert(d0 > 0 && d0 <= q.d) by (nonlinear_arith)
        requires
            g > 0,
            q.d > 0,
            q.d == g * d0,
    ;
    assert(abs(n0) <= abs(q.n) && (q.n > 0 ==> n0 > 0) && (q.n == 0 ==> n0 == 0) && (q.n < 0
        ==> n0 < 0)) by (nonlinear_arith)
        requires
            g > 0,
            q.n == g * n0,
    ;
    assert(n0 * q.d == q.n * d0) by (nonlinear_arith)
        requires
            q.n == g * n0,
            q.d == g * d0,
    ;
}

/// Magnitudes of raw 128-bit parts handed to `reduce_i128` stay below this.
pub const RAW_LIMIT: i128 = 0x4000_0000_0000_0000_0000_0000_0000_0000;

/// `|a * b| <= |a| * |b|`-style bound for products of range-limited parts.
pub(crate) proof fn lemma_prod_bound(a: int, b: int, a_bound: int, b_bound: int)
    requires
        abs(a) <= a_bound,
        abs(b) <= b_bound,
    ensures
        abs(a * b) <= a_bound * b_bound,
        a > 0 && b > 0 ==> a * b > 0,
{
    assert(abs(a * b) <= a_bound * b_bound && (a > 0 && b > 0 ==> a * b > 0))
        by (nonlinear_arith)
        requires
            abs(a) <= a_bound,
            abs(b) <= b_bound,
    ;
}

/// Euclid's algorithm on machine integers.
fn gcd_u128(a: u128, b: u128) -> (g: u128)
    ensures
        g == gcd_nat(a as nat, b as nat),
{
    let mut x: u128 = a;
    let mut y: u128 = b;
    while y != 0
        invariant
            gcd_nat(x as nat, y as nat) == gcd_nat(a as nat, b as nat),
        decreases y,
    {
        let t: u128 = x % y;
        x = y;
        y = t;
    }
    x
}

/// Reduce `n / d` to lowest terms and store it, if the reduced parts fit.
pub(crate) fn reduce_i128(n: i128, d: i128) -> (r: Option<Frac>)
    requires
        0 < d <= RAW_LIMIT,
        -RAW_LIMIT <= n <= RAW_LIMIT,
    ensures
        r == norm(Rat { n: n as int, d: d as int }),
{
    let q = Ghost(Rat { n: n as int, d: d as int });
    let m: u128 = if n < 0 {
        (-n) as u128
    } else {
        n as u128
    };
    assert(m as nat == abs(n as int));
    let g: u128 = gcd_u128(m, d as u128);
    proof {
        lemma_norm_parts(q@);
    }
    let ghost gi: int = g as int;
    let nr: u128 = m / g;
    let dr: u128 = (d as u128) / g;
    proof {
        assert(dr as int == q@.d / gi);
        if n < 0 {
            assert(abs(q@.n) as int == gi * (abs(q@.n) as int / gi)) by {
                lemma_fundamental_div_mod(abs(q@.n) as int, gi);
                lemma_gcd_nat_divides(abs(q@.n), q@.d as nat);
            }
            assert(q@.n / gi == -(abs(q@.n) as int / gi)) by {
                assert(q@.n == gi * -(abs(q@.n) as int / gi)) by (nonlinear_arith)
                    requires
                        abs(q@.n) as int == gi * (abs(q@.n) as int / gi),
                        q@.n < 0,
                        abs(q@.n) == -q@.n,
                ;
                lemma_fundamental_div_mod_converse(q@.n, gi, -(abs(q@.n) as int / gi), 0);
            }
            assert(nr as int == -(q@.n / gi));
        } else {
            assert(nr as int == q@.n / gi);
        }
        lemma_norm(q@);
    }
    if nr <= FRAC_LIMIT as u128 && dr <= FRAC_LIMIT as u128 {
        let num: i64 = if n < 0 {
            -(nr as i64)
        } else {
            nr as i64
        };
        Some(Frac { num, den: dr as i64 })
    } else {
        None
    }
}

impl Frac {
    /// The fraction of a plain integer.
    pub fn whole(i: i64) -> (r: Frac)
        requires
            -FRAC_LIMIT <= i <= FRAC_LIMIT,
        ensures
            r == (Frac { num: i, den: 1 }),
    {
        Frac { num: i, den: 1 }
    }

    /// The fraction of a pixel count.
    pub fn of_u32(u: u32) -> (r: Frac)
        ensures
            r == (Frac { num: u as i64, den: 1 }),
            r.wf(),
    {
        Frac { num: u as i64, den: 1 }
    }

    /// Build `num / den` in lowest terms; `None` for a nonpositive denominator
    /// or a value outside the representable range.
    pub fn new(num: i64, den: i64) -> (r: Option<Frac>)
        ensures
            r == if den <= 0 {
                Option::<Frac>::None
            } else {
                norm(Rat { n: num as int, d: den as int })
            },
    {
        if den <= 0 {
            None
        } else {
            reduce_i128(num as i128, den as i128)
        }
    }

    /// `self + other`, in lowest terms; `None` when the sum leaves the range.
    pub fn plus(self, other: Frac) -> (r: Option<Frac>)
        requires
            self.wf(),
            other.wf(),
        ensures
            r == norm(self.rat().plus(other.rat())),
    {
        proof {
            lemma_prod_bound(self.num as int, other.den as int, FRAC_LIMIT as int, FRAC_LIMIT as int);
            lemma_prod_bound(other.num as int, self.den as int, FRAC_LIMIT as int, FRAC_LIMIT as int);
            lemma_prod_bound(self.den as int, other.den as int, FRAC_LIMIT as int, FRAC_LIMIT as int);
        }
        let n: i128 = self.num as i128 * other.den as i128 + other.num as i128 * self.den as i128;
        let d: i128 = self.den as i128 * other.den as i128;
        reduce_i128(n, d)
    }

    /// `self - other`, in lowest terms; `None` when the result leaves the range.
    pub fn minus(self, other: Frac) -> (r: Option<Frac>)
        requires
            self.wf(),
            other.wf(),
        ensures
            r == norm(self.rat().minus(other.rat())),
    {
        proof {
            lemma_prod_bound(self.num as int, other.den as int, FRAC_LIMIT as int, FRAC_LIMIT as int);
            lemma_prod_bound(other.num as int, self.den as int, FRAC_LIMIT as int, FRAC_LIMIT as int);
            lemma_prod_bound(self.den as int, other.den as int, FRAC_LIMIT as int, FRAC_LIMIT as int);
        }
        let n: i128 = self.num as i128 * other.den as i128 - other.num as i128 * self.den as i128;
        let d: i128 = self.den as i128 * other.den as i128;
        reduce_i128(n, d)
    }

    /// `self * other`, in lowest terms; `None` when the product leaves the range.
    pub fn times(self, other: Frac) -> (r: Option<Frac>)
        requires
            self.wf(),
            other.wf(),
        ensures
            r == norm(self.rat().times(other.rat())),
    {
        proof {
            lemma_prod_bound(self.num as int, other.num as int, FRAC_LIMIT as int, FRAC_LIMIT as int);
            lemma_prod_bound(self.den as int, other.den as int, FRAC_LIMIT as int, FRAC_LIMIT as int);
        }
        let n: i128 = self.num as i128 * other.num as i128;
        let d: i128 = self.den as i128 * other.den as i128;
        reduce_i128(n, d)
    }

    /// `self / other`, in lowest terms; `None` when the quotient leaves the range.
    pub fn over(self, other: Frac) -> (r: Option<Frac>)
        requires
            self.wf(),
            other.wf(),
            other.num != 0,
        ensures
            r == norm(self.rat().over(other.rat())),
    {
        proof {
            lemma_prod_bound(self.num as int, other.den as int, FRAC_LIMIT as int, FRAC_LIMIT as int);
            lemma_prod_bound(self.den as int, other.num as int, FRAC_LIMIT as int, FRAC_LIMIT as int);
        }
        let n: i128 = self.num as i128 * other.den as i128;
        let d: i128 = self.den as i128 * other.num as i128;
        if other.num >= 0 {
            reduce_i128(n, d)
        } else {
            proof {
                assert(d < 0) by (nonlinear_arith)
                    requires
                        self.den > 0,
                        other.num < 0,
                        d == self.den as int * other.num as int,
                ;
                assert(self.den as int * -(other.num as int) == -d) by (nonlinear_arith)
                    requires
                        d == self.den as int * other.num as int,
                ;
            }
            reduce_i128(-n, -d)
        }
    }

    /// `self <= other`, as rationals.
    pub fn le(self, other: Frac) -> (r: bool)
        requires
            self.wf(),
            other.wf(),
        ensures
            r == self.rat().le(other.rat()),
    {
        proof {
            lemma_prod_bound(self.num as int, other.den as int, FRAC_LIMIT as int, FRAC_LIMIT as int);
            lemma_prod_bound(other.num as int, self.den as int, FRAC_LIMIT as int, FRAC_LIMIT as int);
        }
        self.num as i128 * other.den as i128 <= other.num as i128 * self.den as i128
    }

    /// `self < other`, as rationals.
    pub fn lt(self, other: Frac) -> (r: bool)
        requires
            self.wf(),
            other.wf(),
        ensures
            r == self.rat().lt(other.rat()),
    {
        proof {
            lemma_prod_bound(self.num as int, other.den as int, FRAC_LIMIT as int, FRAC_LIMIT as int);
            lemma_prod_bound(other.num as int, self.den as int, FRAC_LIMIT as int, FRAC_LIMIT as int);
        }
        (self.num as i128 * other.den as i128) < (other.num as i128 * self.den as i128)
    }

    /// The smaller of the two, by rational comparison.
    pub fn min_with(self, other: Frac) -> (r: Frac)
        requires
            self.wf(),
            other.wf(),
        ensures
            r == if self.rat().le(other.rat()) {
                self
            } else {
                other
            },
            r.wf(),
    {
        if self.le(other) {
            self
        } else {
            other
        }
    }
}

} // verus!
