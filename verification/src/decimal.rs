//! Exact signed decimal numbers.
//!
//! A [`Dec`] is a sign, a little-endian digit magnitude and a scale: it
//! denotes `mantissa / 10^scale`. Specifications view a decimal as the
//! rational number [`Rat`] it denotes, so every contract speaks of exact
//! values and no operation here rounds, except the explicitly truncating
//! division [`Dec::div_round_down`].

use vstd::prelude::*;
use vstd::arithmetic::div_mod::lemma_fundamental_div_mod_converse;
use crate::digits::add_digits;
use crate::digits::cmp_digits;
use crate::digits::digits_from_u64;
use crate::digits::digits_ok;
use crate::digits::digits_value;
use crate::digits::div_digits;
use crate::digits::lemma_pow10_adds;
use crate::digits::lemma_pow10_pos;
use crate::digits::lemma_value_lower;
use crate::digits::no_top_zero;
use crate::digits::pow10;
use crate::digits::shift_up;
use crate::digits::sub_digits;

verus! {

/// A rational number, for specifications: `num / den` with `den` positive
/// for well-formed values.
#[verifier::ext_equal]
pub struct Rat {
    pub num: int,
    pub den: int,
}

pub open spec fn rat_wf(a: Rat) -> bool {
    a.den > 0
}

pub open spec fn rat_from_int(i: int) -> Rat {
    Rat { num: i, den: 1 }
}

/// Two fractions denote the same rational.
pub open spec fn rat_eq(a: Rat, b: Rat) -> bool {
    a.num * b.den == b.num * a.den
}

/// The first fraction denotes the smaller rational.
pub open spec fn rat_lt(a: Rat, b: Rat) -> bool {
    a.num * b.den < b.num * a.den
}

pub open spec fn rat_add(a: Rat, b: Rat) -> Rat {
    Rat { num: a.num * b.den + b.num * a.den, den: a.den * b.den }
}

pub open spec fn rat_sub(a: Rat, b: Rat) -> Rat {
    Rat { num: a.num * b.den - b.num * a.den, den: a.den * b.den }
}

pub open spec fn rat_neg(a: Rat) -> Rat {
    Rat { num: -a.num, den: a.den }
}

/// The exact quotient of a rational by an integer.
pub open spec fn rat_div_int(a: Rat, n: int) -> Rat {
    Rat { num: a.num, den: a.den * n }
}

/// The quotient by `n`, truncated toward zero after `extra` more decimal
/// digits than the dividend carries.
pub open spec fn rat_div_trunc(a: Rat, n: int, extra: nat) -> Rat {
    Rat {
        num: if a.num >= 0 {
            (a.num * pow10(extra)) / n
        } else {
            -(((-a.num) * pow10(extra)) / n)
        },
        den: a.den * pow10(extra),
    }
}

pub proof fn lemma_rat_eq_trans(a: Rat, b: Rat, c: Rat)
    requires
        rat_wf(a),
        rat_wf(b),
        rat_wf(c),
        rat_eq(a, b),
        rat_eq(b, c),
    ensures
        rat_eq(a, c),
{
    assert((a.num * c.den) * b.den == (c.num * a.den) * b.den) by (nonlinear_arith)
        requires
            a.num * b.den == b.num * a.den,
            b.num * c.den == c.num * b.den,
    ;
    lemma_mul_cancel(a.num * c.den, c.num * a.den, b.den);
}

/// Replacing one operand of an addition by an equal rational keeps the sum
/// equal.
pub proof fn lemma_rat_add_eq_left(a: Rat, a2: Rat, b: Rat)
    requires
        rat_wf(a),
        rat_wf(a2),
        rat_wf(b),
        rat_eq(a, a2),
    ensures
        rat_eq(rat_add(a, b), rat_add(a2, b)),
{
    assert((a.num * b.den + b.num * a.den) * (a2.den * b.den) == (a2.num * b.den + b.num * a2.den)
        * (a.den * b.den)) by (nonlinear_arith)
        requires
            a.num * a2.den == a2.num * a.den,
    ;
}

/// The same, for subtraction on either side.
#[verifier::rlimit(50)]
pub proof fn lemma_rat_sub_eq(a: Rat, a2: Rat, b: Rat, b2: Rat)
    requires
        rat_wf(a),
        rat_wf(a2),
        rat_wf(b),
        rat_wf(b2),
        rat_eq(a, a2),
        rat_eq(b, b2),
    ensures
        rat_eq(rat_sub(a, b), rat_sub(a2, b2)),
{
    assert((a.num * b.den - b.num * a.den) * (a2.den * b.den) == (a2.num * b.den - b.num * a2.den)
        * (a.den * b.den)) by (nonlinear_arith)
        requires
            a.num * a2.den == a2.num * a.den,
    ;
    assert((a2.num * b.den - b.num * a2.den) * (a2.den * b2.den) == (a2.num * b2.den - b2.num
        * a2.den) * (a2.den * b.den)) by (nonlinear_arith)
        requires
            b.num * b2.den == b2.num * b.den,
    ;
    assert(rat_wf(rat_sub(a, b)) && rat_wf(rat_sub(a2, b)) && rat_wf(rat_sub(a2, b2)))
        by (nonlinear_arith)
        requires
            a.den > 0,
            a2.den > 0,
            b.den > 0,
            b2.den > 0,
    ;
    lemma_rat_eq_trans(rat_sub(a, b), rat_sub(a2, b), rat_sub(a2, b2));
}

pub proof fn lemma_rat_add_wf(a: Rat, b: Rat)
    requires
        rat_wf(a),
        rat_wf(b),
    ensures
        rat_wf(rat_add(a, b)),
        rat_wf(rat_sub(a, b)),
{
    assert(a.den * b.den > 0) by (nonlinear_arith)
        requires
            a.den > 0,
            b.den > 0,
    ;
}

/// Subtracting a sum is subtracting both parts in turn.
#[verifier::rlimit(50)]
pub proof fn lemma_rat_sub_of_add(a: Rat, b: Rat, c: Rat)
    requires
        rat_wf(a),
        rat_wf(b),
        rat_wf(c),
    ensures
        rat_eq(rat_sub(a, rat_add(b, c)), rat_sub(rat_sub(a, b), c)),
{
    let l = rat_sub(a, rat_add(b, c));
    let r = rat_sub(rat_sub(a, b), c);
    assert((b.num * c.den + c.num * b.den) * a.den == (b.num * c.den) * a.den + (c.num * b.den)
        * a.den) by (nonlinear_arith);
    assert((a.num * b.den - b.num * a.den) * c.den == (a.num * b.den) * c.den - (b.num * a.den)
        * c.den) by (nonlinear_arith);
    assert(a.num * (b.den * c.den) == (a.num * b.den) * c.den) by (nonlinear_arith);
    assert(c.num * (a.den * b.den) == (c.num * b.den) * a.den) by (nonlinear_arith);
    assert((b.num * c.den) * a.den == (b.num * a.den) * c.den) by (nonlinear_arith);
    assert(a.den * (b.den * c.den) == (a.den * b.den) * c.den) by (nonlinear_arith);
    assert(l.num == r.num);
    assert(l.den == r.den);
}

/// When the widened numerator divides evenly, the truncated quotient is the
/// exact one.
pub proof fn lemma_div_trunc_exact(a: Rat, n: int, extra: nat)
    requires
        rat_wf(a),
        n >= 1,
        (if a.num >= 0 {
            a.num
        } else {
            -a.num
        }) * pow10(extra) % n == 0,
    ensures
        rat_eq(rat_div_trunc(a, n, extra), rat_div_int(a, n)),
{
    let p = pow10(extra) as int;
    let m = if a.num >= 0 {
        a.num
    } else {
        -a.num
    };
    let q = (m * p) / n;
    lemma_pow10_pos(extra);
    assert(m * p == n * q) by {
        vstd::arithmetic::div_mod::lemma_fundamental_div_mod(m * p, n);
    }
    let l = rat_div_trunc(a, n, extra);
    // l.num is q or -q; goal: l.num * (a.den * n) == a.num * (a.den * p)
    if a.num >= 0 {
        assert(q * (a.den * n) == a.den * (n * q)) by (nonlinear_arith);
        assert(a.num * (a.den * p) == a.den * (m * p)) by (nonlinear_arith)
            requires
                m == a.num,
        ;
    } else {
        assert((-q) * (a.den * n) == -(a.den * (n * q))) by (nonlinear_arith);
        assert(a.num * (a.den * p) == -(a.den * (m * p))) by (nonlinear_arith)
            requires
                m == -a.num,
        ;
    }
}

proof fn lemma_mul_cancel(u: int, v: int, w: int)
    requires
        w > 0,
        u * w == v * w,
    ensures
        u == v,
{
    assert(u == v) by (nonlinear_arith)
        requires
            w > 0,
            u * w == v * w,
    ;
}

/// How many digits past the dividend's own scale a quotient carries: a
/// fixed widening, shrunk only where the scale cap would be passed.
pub open spec fn quotient_extra(scale: nat) -> nat
    recommends
        scale <= MAX_SCALE,
{
    if scale + QUOTIENT_DIGITS <= MAX_SCALE {
        QUOTIENT_DIGITS as nat
    } else {
        (MAX_SCALE - scale) as nat
    }
}

/// The largest scale a decimal may carry.
pub const MAX_SCALE: usize = 1000000;

/// How many decimal digits a quotient gains over its dividend.
pub const QUOTIENT_DIGITS: usize = 32;

/// An exact signed decimal: `mantissa / 10^scale`, the mantissa held as
/// little-endian digits with the sign alongside.
pub struct Dec {
    negative: bool,
    mag: Vec<u8>,
    scale: usize,
}

impl View for Dec {
    type V = Rat;

    /// The rational number this decimal denotes.
    closed spec fn view(&self) -> Rat {
        Rat {
            num: if self.negative {
                -(digits_value(self.mag@) as int)
            } else {
                digits_value(self.mag@) as int
            },
            den: pow10(self.scale as nat) as int,
        }
    }
}

impl Dec {
    #[verifier::type_invariant]
    spec fn wf(self) -> bool {
        &&& digits_ok(self.mag@)
        &&& no_top_zero(self.mag@)
        &&& self.scale <= MAX_SCALE
        &&& self.mag@.len() == 0 ==> !self.negative
    }

    /// The scale: how many fractional decimal digits the value carries.
    pub closed spec fn scale_spec(&self) -> nat {
        self.scale as nat
    }

    /// Every decimal's denominator is the power of ten of its scale, hence
    /// positive.
    pub proof fn lemma_den(&self)
        ensures
            self@.den == pow10(self.scale_spec()),
            rat_wf(self@),
    {
        lemma_pow10_pos(self.scale_spec());
    }

    /// The number zero.
    pub fn zero() -> (r: Dec)
        ensures
            r@ == rat_from_int(0),
            r.scale_spec() == 0,
    {
        let r = Dec { negative: false, mag: Vec::new(), scale: 0 };
        proof {
            assert(r@ =~= rat_from_int(0));
        }
        r
    }

    /// The given whole number.
    pub fn from_u64(n: u64) -> (r: Dec)
        ensures
            r@ == rat_from_int(n as int),
            r.scale_spec() == 0,
    {
        let mag = digits_from_u64(n);
        let r = Dec { negative: false, mag, scale: 0 };
        proof {
            assert(r@ =~= rat_from_int(n as int));
        }
        r
    }

    /// The decimal `m / 10^scale`; `None` when the scale passes the cap.
    pub fn from_mantissa(m: i64, scale: usize) -> (r: Option<Dec>)
        ensures
            r is Some <==> scale <= MAX_SCALE,
            r is Some ==> r->0@ == (Rat { num: m as int, den: pow10(scale as nat) as int }),
            r is Some ==> r->0.scale_spec() == scale,
    {
        if scale > MAX_SCALE {
            return None;
        }
        let wide: i128 = m as i128;
        let negative = wide < 0;
        let abs: u64 = if wide < 0 {
            (-wide) as u64
        } else {
            wide as u64
        };
        let mag = digits_from_u64(abs);
        let negative = negative && mag.len() > 0;
        let r = Dec { negative, mag, scale };
        proof {
            assert(r@ =~= (Rat { num: m as int, den: pow10(scale as nat) as int }));
        }
        Some(r)
    }

    /// The decimal read from raw little-endian digits; `None` when a digit
    /// is out of range or the scale passes the cap.
    pub fn from_digits(negative: bool, digits_le: &Vec<u8>, scale: usize) -> (r: Option<Dec>)
        ensures
            r is Some <==> digits_ok(digits_le@) && scale <= MAX_SCALE,
            r is Some ==> r->0@ == (Rat {
                num: if negative {
                    -(digits_value(digits_le@) as int)
                } else {
                    digits_value(digits_le@) as int
                },
                den: pow10(scale as nat) as int,
            }),
            r is Some ==> r->0.scale_spec() == scale,
    {
        if scale > MAX_SCALE {
            return None;
        }
        let mut mag: Vec<u8> = Vec::new();
        let mut i: usize = 0;
        while i < digits_le.len()
            invariant
                i <= digits_le@.len(),
                mag@ == digits_le@.take(i as int),
                digits_ok(mag@),
            decreases digits_le@.len() - i,
        {
            let d = digits_le[i];
            if d >= 10 {
                return None;
            }
            mag.push(d);
            i = i + 1;
            proof {
                assert(digits_le@.take(i as int) =~= digits_le@.take(i - 1).push(
                    digits_le@[i - 1],
                ));
            }
        }
        proof {
            assert(digits_le@.take(digits_le@.len() as int) =~= digits_le@);
        }
        let ghost whole = digits_le@;
        crate::digits::strip_top_zeros(&mut mag);
        let negative = negative && mag.len() > 0;
        let r = Dec { negative, mag, scale };
        proof {
            if r.mag@.len() > 0 {
                lemma_value_lower(r.mag@);
                lemma_pow10_pos((r.mag@.len() - 1) as nat);
            }
        }
        Some(r)
    }

    /// Whether the value is below zero.
    pub fn is_negative(&self) -> (r: bool)
        ensures
            r == (self@.num < 0),
    {
        proof {
            use_type_invariant(self);
            if self.mag@.len() > 0 {
                lemma_value_lower(self.mag@);
                lemma_pow10_pos((self.mag@.len() - 1) as nat);
            }
        }
        self.negative
    }

    /// The magnitude's digits, least significant first.
    pub fn mantissa_digits(&self) -> (r: &Vec<u8>)
        ensures
            digits_ok(r@),
            digits_value(r@) == if self@.num < 0 {
                -self@.num
            } else {
                self@.num
            },
    {
        proof {
            use_type_invariant(self);
            if self.mag@.len() > 0 {
                lemma_value_lower(self.mag@);
                lemma_pow10_pos((self.mag@.len() - 1) as nat);
            }
        }
        &self.mag
    }

    /// The scale, as run-time data.
    pub fn scale(&self) -> (r: usize)
        ensures
            r == self.scale_spec(),
    {
        self.scale
    }

    /// The exact sum.
    pub fn add(&self, other: &Dec) -> (r: Dec)
        ensures
            rat_eq(r@, rat_add(self@, other@)),
            r.scale_spec() == if self.scale_spec() >= other.scale_spec() {
                self.scale_spec()
            } else {
                other.scale_spec()
            },
    {
        proof {
            use_type_invariant(self);
            use_type_invariant(other);
        }
        let sa = self.scale;
        let sb = other.scale;
        let s = if sa >= sb {
            sa
        } else {
            sb
        };
        let ma = shift_up(&self.mag, s - sa);
        let mb = shift_up(&other.mag, s - sb);
        let ghost x: int = if self.negative {
            -(digits_value(ma@) as int)
        } else {
            digits_value(ma@) as int
        };
        let ghost y: int = if other.negative {
            -(digits_value(mb@) as int)
        } else {
            digits_value(mb@) as int
        };
        proof {
            lemma_signed_aligned(
                self@.num,
                digits_value(self.mag@),
                (s - sa) as nat,
                digits_value(ma@),
                x,
            );
            lemma_signed_aligned(
                other@.num,
                digits_value(other.mag@),
                (s - sb) as nat,
                digits_value(mb@),
                y,
            );
        }
        let r: Dec = if self.negative == other.negative {
            let mag = add_digits(&ma, &mb);
            let negative = self.negative && mag.len() > 0;
            Dec { negative, mag, scale: s }
        } else {
            let c = cmp_digits(&ma, &mb);
            if c == 0 {
                Dec { negative: false, mag: Vec::new(), scale: s }
            } else if c == 1 {
                let mag = sub_digits(&ma, &mb);
                proof {
                    if mag@.len() == 0 {
                        assert(digits_value(mag@) == 0);
                    }
                }
                let negative = self.negative && mag.len() > 0;
                Dec { negative, mag, scale: s }
            } else {
                let mag = sub_digits(&mb, &ma);
                proof {
                    if mag@.len() == 0 {
                        assert(digits_value(mag@) == 0);
                    }
                }
                let negative = other.negative && mag.len() > 0;
                Dec { negative, mag, scale: s }
            }
        };
        proof {
            assert(r@.num == x + y);
            lemma_aligned_sum(
                self@.num,
                sa as nat,
                other@.num,
                sb as nat,
                s as nat,
                x,
                y,
            );
        }
        r
    }

    /// The same value with the opposite sign.
    pub fn neg(&self) -> (r: Dec)
        ensures
            r@ == rat_neg(self@),
            r.scale_spec() == self.scale_spec(),
    {
        proof {
            use_type_invariant(self);
        }
        let mag = copy_digits(&self.mag);
        let negative = !self.negative && mag.len() > 0;
        let r = Dec { negative, mag, scale: self.scale };
        proof {
            assert(r@ =~= rat_neg(self@));
        }
        r
    }

    /// The exact difference.
    pub fn sub(&self, other: &Dec) -> (r: Dec)
        ensures
            rat_eq(r@, rat_sub(self@, other@)),
            r.scale_spec() == if self.scale_spec() >= other.scale_spec() {
                self.scale_spec()
            } else {
                other.scale_spec()
            },
    {
        let flipped = other.neg();
        let r = self.add(&flipped);
        proof {
            assert((-other@.num) * self@.den == -(other@.num * self@.den)) by (nonlinear_arith);
            assert(rat_add(self@, flipped@) =~= rat_sub(self@, other@));
        }
        r
    }

    /// Order two decimals by value: `-1`, `0` or `1` as the first is below,
    /// equal to or above the second.
    pub fn cmp_value(&self, other: &Dec) -> (r: i8)
        ensures
            r == -1 || r == 0 || r == 1,
            r == -1 <==> rat_lt(self@, other@),
            r == 0 <==> rat_eq(self@, other@),
            r == 1 <==> rat_lt(other@, self@),
    {
        proof {
            use_type_invariant(self);
            use_type_invariant(other);
        }
        let sa = self.scale;
        let sb = other.scale;
        let s = if sa >= sb {
            sa
        } else {
            sb
        };
        let ma = shift_up(&self.mag, s - sa);
        let mb = shift_up(&other.mag, s - sb);
        let ghost x: int = if self.negative {
            -(digits_value(ma@) as int)
        } else {
            digits_value(ma@) as int
        };
        let ghost y: int = if other.negative {
            -(digits_value(mb@) as int)
        } else {
            digits_value(mb@) as int
        };
        proof {
            lemma_signed_aligned(
                self@.num,
                digits_value(self.mag@),
                (s - sa) as nat,
                digits_value(ma@),
                x,
            );
            lemma_signed_aligned(
                other@.num,
                digits_value(other.mag@),
                (s - sb) as nat,
                digits_value(mb@),
                y,
            );
            lemma_aligned_order(self@.num, sa as nat, other@.num, sb as nat, s as nat, x, y);
            if ma@.len() > 0 {
                lemma_value_lower(ma@);
                lemma_pow10_pos((ma@.len() - 1) as nat);
            }
            if mb@.len() > 0 {
                lemma_value_lower(mb@);
                lemma_pow10_pos((mb@.len() - 1) as nat);
            }
        }
        let c = cmp_digits(&ma, &mb);
        if !self.negative && !other.negative {
            c
        } else if self.negative && other.negative {
            -c
        } else if self.negative {
            if ma.len() == 0 && mb.len() == 0 {
                0
            } else {
                -1
            }
        } else {
            if ma.len() == 0 && mb.len() == 0 {
                0
            } else {
                1
            }
        }
    }

    /// Whether two decimals denote the same number, whatever their scales.
    pub fn eq_value(&self, other: &Dec) -> (r: bool)
        ensures
            r == rat_eq(self@, other@),
    {
        self.cmp_value(other) == 0
    }

    /// The quotient by a positive whole number, truncated toward zero after
    /// [`quotient_extra`] extra decimal digits.
    pub fn div_round_down(&self, n: u64) -> (r: Dec)
        requires
            n >= 1,
        ensures
            r@ == rat_div_trunc(self@, n as int, quotient_extra(self.scale_spec())),
            r.scale_spec() == self.scale_spec() + quotient_extra(self.scale_spec()),
    {
        proof {
            use_type_invariant(self);
        }
        let extra: usize = if self.scale <= MAX_SCALE - QUOTIENT_DIGITS {
            QUOTIENT_DIGITS
        } else {
            MAX_SCALE - self.scale
        };
        proof {
            assert(extra as nat == quotient_extra(self.scale_spec()));
        }
        let ext = shift_up(&self.mag, extra);
        let (q, rem) = div_digits(&ext, n);
        proof {
            assert(digits_value(ext@) == n * digits_value(q@) + rem);
            assert((n as int) * (digits_value(q@) as int) == (digits_value(q@) as int) * (
            n as int)) by (nonlinear_arith);
            lemma_fundamental_div_mod_converse(
                digits_value(ext@) as int,
                n as int,
                digits_value(q@) as int,
                rem as int,
            );
        }
        let ghost qv = q@;
        let negative = self.negative && q.len() > 0;
        let r = Dec { negative, mag: q, scale: self.scale + extra };
        proof {
            assert(r.mag@ == qv);
            let m = digits_value(self.mag@) as int;
            let p = pow10(extra as nat) as int;
            assert(p * m == m * p) by (nonlinear_arith);
            if r.mag@.len() == 0 {
                assert(digits_value(r.mag@) == 0);
            }
            if self.negative {
                lemma_value_lower(self.mag@);
                lemma_pow10_pos((self.mag@.len() - 1) as nat);
                assert(m >= 1);
                assert(self@.num < 0);
                assert((-self@.num) == m);
            } else {
                assert(self@.num == m);
                assert(self@.num >= 0);
            }
            lemma_pow10_adds(self.scale as nat, extra as nat);
            assert(r@ =~= rat_div_trunc(self@, n as int, quotient_extra(self.scale_spec())));
        }
        r
    }
}

/// A plain element-wise copy of a digit vector.
fn copy_digits(v: &Vec<u8>) -> (r: Vec<u8>)
    ensures
        r@ == v@,
{
    let mut r: Vec<u8> = Vec::new();
    let mut i: usize = 0;
    while i < v.len()
        invariant
            i <= v@.len(),
            r@ == v@.take(i as int),
        decreases v@.len() - i,
    {
        r.push(v[i]);
        i = i + 1;
        proof {
            assert(v@.take(i as int) =~= v@.take(i - 1).push(v@[i - 1]));
        }
    }
    proof {
        assert(v@.take(v@.len() as int) =~= v@);
    }
    r
}

/// A signed aligned numerator is the signed raw numerator scaled by the
/// power of ten used to align it.
proof fn lemma_signed_aligned(num: int, mag: nat, k: nat, aligned_mag: nat, x: int)
    requires
        aligned_mag == pow10(k) * mag,
        (num == mag && x == aligned_mag) || (num == -(mag as int) && x == -(aligned_mag as int)),
    ensures
        x == num * pow10(k),
{
    if num == mag && x == aligned_mag {
        assert(pow10(k) * mag == (mag as int) * pow10(k)) by (nonlinear_arith);
    } else {
        assert(-((pow10(k) * mag) as int) == (-(mag as int)) * pow10(k)) by (nonlinear_arith);
    }
}

/// Aligning two fractions to a common scale turns their sum into the sum of
/// the aligned numerators.
proof fn lemma_aligned_sum(an: int, sa: nat, bn: int, sb: nat, s: nat, x: int, y: int)
    requires
        s >= sa,
        s >= sb,
        x == an * pow10((s - sa) as nat),
        y == bn * pow10((s - sb) as nat),
    ensures
        (x + y) * (pow10(sa) * pow10(sb)) == (an * pow10(sb) + bn * pow10(sa)) * pow10(s),
{
    let pa = pow10(sa) as int;
    let pb = pow10(sb) as int;
    let ps = pow10(s) as int;
    let ka = pow10((s - sa) as nat) as int;
    let kb = pow10((s - sb) as nat) as int;
    lemma_pow10_adds(sa, (s - sa) as nat);
    lemma_pow10_adds(sb, (s - sb) as nat);
    assert(pa * ka == ps);
    assert(pb * kb == ps);
    assert(x * (pa * pb) == (an * pb) * ps) by (nonlinear_arith)
        requires
            x == an * ka,
            pa * ka == ps,
    ;
    assert(y * (pa * pb) == (bn * pa) * ps) by (nonlinear_arith)
        requires
            y == bn * kb,
            pb * kb == ps,
    ;
    assert((x + y) * (pa * pb) == x * (pa * pb) + y * (pa * pb)) by (nonlinear_arith);
    assert((an * pb) * ps + (bn * pa) * ps == (an * pb + bn * pa) * ps) by (nonlinear_arith);
}

/// Aligning two fractions to a common scale preserves order and equality of
/// the aligned numerators.
proof fn lemma_aligned_order(an: int, sa: nat, bn: int, sb: nat, s: nat, x: int, y: int)
    requires
        s >= sa,
        s >= sb,
        x == an * pow10((s - sa) as nat),
        y == bn * pow10((s - sb) as nat),
    ensures
        (x == y) <==> an * pow10(sb) == bn * pow10(sa),
        (x < y) <==> an * pow10(sb) < bn * pow10(sa),
{
    let pa = pow10(sa) as int;
    let pb = pow10(sb) as int;
    let ps = pow10(s) as int;
    let ka = pow10((s - sa) as nat) as int;
    let kb = pow10((s - sb) as nat) as int;
    lemma_pow10_adds(sa, (s - sa) as nat);
    lemma_pow10_adds(sb, (s - sb) as nat);
    lemma_pow10_pos(sa);
    lemma_pow10_pos(sb);
    lemma_pow10_pos(s);
    assert(pa * ka == ps);
    assert(pb * kb == ps);
    assert(x * (pa * pb) == (an * pb) * ps) by (nonlinear_arith)
        requires
            x == an * ka,
            pa * ka == ps,
    ;
    assert(y * (pa * pb) == (bn * pa) * ps) by (nonlinear_arith)
        requires
            y == bn * kb,
            pb * kb == ps,
    ;
    assert(pa * pb > 0) by (nonlinear_arith)
        requires
            pa > 0,
            pb > 0,
    ;
    assert((x == y) <==> x * (pa * pb) == y * (pa * pb)) by (nonlinear_arith)
        requires
            pa * pb > 0,
    ;
    assert((x < y) <==> x * (pa * pb) < y * (pa * pb)) by (nonlinear_arith)
        requires
            pa * pb > 0,
    ;
    assert(((an * pb) * ps == (bn * pa) * ps) <==> an * pb == bn * pa) by (nonlinear_arith)
        requires
            ps > 0,
    ;
    assert(((an * pb) * ps < (bn * pa) * ps) <==> an * pb < bn * pa) by (nonlinear_arith)
        requires
            ps > 0,
    ;
}

} // verus!
