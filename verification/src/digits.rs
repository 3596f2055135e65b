//! Exact natural-number arithmetic on little-endian base-10 digit vectors.
//!
//! A number is a `Vec<u8>` of digits, least significant first; the empty
//! vector denotes zero. This is the magnitude layer under the signed decimal
//! type: addition, subtraction, comparison, scaling by powers of ten, and
//! division by a machine integer, each proved against [`digits_value`].

use vstd::prelude::*;

verus! {

/// Every element is a base-10 digit.
pub open spec fn digits_ok(s: Seq<u8>) -> bool {
    forall|i: int| 0 <= i < s.len() ==> s[i] < 10
}

/// No zero digit in the most significant position, so the length of the
/// vector measures the number it denotes.
pub open spec fn no_top_zero(s: Seq<u8>) -> bool {
    s.len() == 0 || s[s.len() - 1] != 0
}

/// The natural number a little-endian digit sequence denotes.
pub open spec fn digits_value(s: Seq<u8>) -> nat
    decreases s.len(),
{
    if s.len() == 0 {
        0
    } else {
        s[0] as nat + 10 * digits_value(s.skip(1))
    }
}

pub open spec fn pow10(n: nat) -> nat
    decreases n,
{
    if n == 0 {
        1
    } else {
        10 * pow10((n - 1) as nat)
    }
}

/// The digit at position `i`, reading positions past the end as zero.
pub open spec fn digit_at(s: Seq<u8>, i: int) -> u8 {
    if 0 <= i < s.len() {
        s[i]
    } else {
        0
    }
}

/// The value of the first `i` digits (all of them, if `i` exceeds the length).
pub open spec fn prefix_value(s: Seq<u8>, i: int) -> nat {
    if i <= s.len() {
        digits_value(s.take(i))
    } else {
        digits_value(s)
    }
}

pub proof fn lemma_pow10_pos(n: nat)
    ensures
        pow10(n) >= 1,
    decreases n,
{
    if n > 0 {
        lemma_pow10_pos((n - 1) as nat);
    }
}

pub proof fn lemma_pow10_adds(a: nat, b: nat)
    ensures
        pow10(a + b) == pow10(a) * pow10(b),
    decreases a,
{
    if a == 0 {
        assert(pow10(0 + b) == 1 * pow10(b));
    } else {
        lemma_pow10_adds((a - 1) as nat, b);
        assert(10 * ((pow10((a - 1) as nat)) * pow10(b)) == (10 * pow10((a - 1) as nat)) * pow10(
            b,
        )) by (nonlinear_arith);
    }
}

/// Appending a digit at the most significant end adds its scaled value.
pub proof fn lemma_value_snoc(s: Seq<u8>, d: u8)
    ensures
        digits_value(s.push(d)) == digits_value(s) + d * pow10(s.len()),
    decreases s.len(),
{
    if s.len() == 0 {
        assert(s.push(d).skip(1) =~= Seq::<u8>::empty());
        assert(digits_value(s.push(d)) == d as nat + 10 * digits_value(s.push(d).skip(1)));
        assert(digits_value(Seq::<u8>::empty()) == 0);
        assert(pow10(0) == 1);
    } else {
        assert(s.push(d).skip(1) =~= s.skip(1).push(d));
        lemma_value_snoc(s.skip(1), d);
        assert(digits_value(s.push(d)) == s[0] as nat + 10 * digits_value(s.push(d).skip(1)));
        assert(digits_value(s) == s[0] as nat + 10 * digits_value(s.skip(1)));
        assert(pow10(s.len() as nat) == 10 * pow10((s.len() - 1) as nat));
        assert(10 * (digits_value(s.skip(1)) + d * pow10((s.len() - 1) as nat)) == 10
            * digits_value(s.skip(1)) + d * (10 * pow10((s.len() - 1) as nat)))
            by (nonlinear_arith);
    }
}

/// A digit sequence of length `n` denotes less than `pow10(n)`.
pub proof fn lemma_value_upper(s: Seq<u8>)
    requires
        digits_ok(s),
    ensures
        digits_value(s) < pow10(s.len()),
    decreases s.len(),
{
    if s.len() > 0 {
        lemma_value_upper(s.skip(1));
        assert(10 * digits_value(s.skip(1)) <= 10 * (pow10((s.len() - 1) as nat) - 1))
            by (nonlinear_arith)
            requires
                digits_value(s.skip(1)) <= pow10((s.len() - 1) as nat) - 1,
        ;
    }
}

/// With no zero in the top position, the length gives a lower bound too.
pub proof fn lemma_value_lower(s: Seq<u8>)
    requires
        digits_ok(s),
        no_top_zero(s),
        s.len() > 0,
    ensures
        digits_value(s) >= pow10((s.len() - 1) as nat),
{
    let front = s.take(s.len() - 1);
    assert(s =~= front.push(s[s.len() - 1]));
    lemma_value_snoc(front, s[s.len() - 1]);
    lemma_pow10_pos((s.len() - 1) as nat);
    assert(s[s.len() - 1] * pow10((s.len() - 1) as nat) >= 1 * pow10((s.len() - 1) as nat))
        by (nonlinear_arith)
        requires
            s[s.len() - 1] >= 1,
            pow10((s.len() - 1) as nat) >= 1,
    ;
}

/// Conversely, a value at least `pow10(len - 1)` forces a nonzero top digit.
pub proof fn lemma_top_nonzero_from_lower(s: Seq<u8>)
    requires
        digits_ok(s),
        s.len() > 0,
        digits_value(s) >= pow10((s.len() - 1) as nat),
    ensures
        no_top_zero(s),
{
    if s[s.len() - 1] == 0 {
        let front = s.take(s.len() - 1);
        assert(s =~= front.push(s[s.len() - 1]));
        lemma_value_snoc(front, s[s.len() - 1]);
        lemma_value_upper(front);
    }
}

/// Reading one more digit adds that digit, scaled by its position.
pub proof fn lemma_prefix_step(s: Seq<u8>, i: int)
    requires
        0 <= i,
    ensures
        prefix_value(s, i + 1) == prefix_value(s, i) + digit_at(s, i) * pow10(i as nat),
{
    if i < s.len() {
        assert(s.take(i + 1) =~= s.take(i).push(s[i]));
        lemma_value_snoc(s.take(i), s[i]);
        assert(s.take(i).len() == i);
    } else {
        assert(digit_at(s, i) == 0);
        if i == s.len() {
            assert(s.take(i) =~= s);
        }
        assert(digit_at(s, i) * pow10(i as nat) == 0) by (nonlinear_arith)
            requires
                digit_at(s, i) == 0,
        ;
    }
}

/// Past the end, the prefix covers the whole sequence.
pub proof fn lemma_prefix_complete(s: Seq<u8>, i: int)
    requires
        i >= s.len(),
    ensures
        prefix_value(s, i) == digits_value(s),
{
    if i <= s.len() {
        assert(s.take(i) =~= s);
    }
}

/// Splitting a sequence splits its value at the matching power of ten.
pub proof fn lemma_value_split(s: Seq<u8>, i: int)
    requires
        0 <= i <= s.len(),
    ensures
        digits_value(s) == digits_value(s.take(i)) + pow10(i as nat) * digits_value(s.skip(i)),
    decreases i,
{
    if i == 0 {
        assert(s.take(0) =~= Seq::<u8>::empty());
        assert(s.skip(0) =~= s);
        assert(digits_value(Seq::<u8>::empty()) == 0);
        assert(pow10(0) == 1);
        assert(1 * digits_value(s) == digits_value(s));
    } else {
        lemma_value_split(s, i - 1);
        let tail = s.skip(i - 1);
        assert(tail.skip(1) =~= s.skip(i));
        assert(tail.len() > 0);
        assert(digits_value(tail) == tail[0] as nat + 10 * digits_value(s.skip(i)));
        assert(s.take(i) =~= s.take(i - 1).push(s[i - 1]));
        lemma_value_snoc(s.take(i - 1), s[i - 1]);
        assert(tail[0] == s[i - 1]);
        let p = pow10((i - 1) as nat);
        assert(p * (s[i - 1] as nat + 10 * digits_value(s.skip(i))) == s[i - 1] as nat * p + (10
            * p) * digits_value(s.skip(i))) by (nonlinear_arith);
        assert(pow10(i as nat) == 10 * p);
        assert(s[i - 1] as nat * p == s[i - 1] * p) by (nonlinear_arith);
    }
}

/// Scaling by a power of ten is prepending zero digits.
pub proof fn lemma_value_prepend_zeros(k: nat, s: Seq<u8>)
    ensures
        digits_value(Seq::new(k, |i: int| 0u8).add(s)) == pow10(k) * digits_value(s),
    decreases k,
{
    let z = Seq::new(k, |i: int| 0u8);
    if k == 0 {
        assert(z.add(s) =~= s);
        assert(1 * digits_value(s) == digits_value(s));
    } else {
        let z1 = Seq::new((k - 1) as nat, |i: int| 0u8);
        lemma_value_prepend_zeros((k - 1) as nat, s);
        assert(z.add(s).skip(1) =~= z1.add(s));
        assert(z.add(s).len() > 0);
        assert(z.add(s)[0] == 0);
        assert(10 * (pow10((k - 1) as nat) * digits_value(s)) == (10 * pow10((k - 1) as nat))
            * digits_value(s)) by (nonlinear_arith);
    }
}

/// Two sequences that agree on every padded digit denote the same number.
pub proof fn lemma_value_from_digits(a: Seq<u8>, b: Seq<u8>)
    requires
        forall|j: int| digit_at(a, j) == digit_at(b, j),
    ensures
        digits_value(a) == digits_value(b),
    decreases a.len() + b.len(),
{
    if a.len() == 0 && b.len() == 0 {
    } else if a.len() > b.len() {
        let af = a.take(a.len() - 1);
        assert(a =~= af.push(a[a.len() - 1]));
        lemma_value_snoc(af, a[a.len() - 1]);
        assert(digit_at(a, a.len() - 1) == digit_at(b, a.len() - 1));
        assert(a[a.len() - 1] == 0);
        assert(a[a.len() - 1] * pow10(af.len()) == 0) by (nonlinear_arith)
            requires
                a[a.len() - 1] == 0,
        ;
        assert forall|j: int| digit_at(af, j) == digit_at(b, j) by {
            if 0 <= j < af.len() {
                assert(digit_at(a, j) == digit_at(b, j));
            } else {
                assert(digit_at(af, j) == 0);
                assert(digit_at(b, j) == 0);
            }
        }
        lemma_value_from_digits(af, b);
    } else if b.len() > a.len() {
        let bf = b.take(b.len() - 1);
        assert(b =~= bf.push(b[b.len() - 1]));
        lemma_value_snoc(bf, b[b.len() - 1]);
        assert(digit_at(a, b.len() - 1) == digit_at(b, b.len() - 1));
        assert(b[b.len() - 1] == 0);
        assert(b[b.len() - 1] * pow10(bf.len()) == 0) by (nonlinear_arith)
            requires
                b[b.len() - 1] == 0,
        ;
        assert forall|j: int| digit_at(a, j) == digit_at(bf, j) by {
            if 0 <= j < bf.len() {
                assert(digit_at(a, j) == digit_at(b, j));
            } else {
                assert(digit_at(bf, j) == 0);
                assert(digit_at(a, j) == 0);
            }
        }
        lemma_value_from_digits(a, bf);
    } else {
        let af = a.take(a.len() - 1);
        let bf = b.take(b.len() - 1);
        assert(a =~= af.push(a[a.len() - 1]));
        assert(b =~= bf.push(b[b.len() - 1]));
        lemma_value_snoc(af, a[a.len() - 1]);
        lemma_value_snoc(bf, b[b.len() - 1]);
        assert(digit_at(a, a.len() - 1) == digit_at(b, b.len() - 1));
        assert(a[a.len() - 1] == b[b.len() - 1]);
        assert forall|j: int| digit_at(af, j) == digit_at(bf, j) by {
            if 0 <= j < af.len() {
                assert(digit_at(a, j) == digit_at(b, j));
            } else {
                assert(digit_at(af, j) == 0);
                assert(digit_at(bf, j) == 0);
            }
        }
        lemma_value_from_digits(af, bf);
    }
}

/// Removing top zeros keeps the denoted value.
pub fn strip_top_zeros(v: &mut Vec<u8>)
    requires
        digits_ok(old(v)@),
    ensures
        digits_ok(final(v)@),
        no_top_zero(final(v)@),
        digits_value(final(v)@) == digits_value(old(v)@),
{
    while v.len() > 0 && v[v.len() - 1] == 0
        invariant
            digits_ok(v@),
            digits_value(v@) == digits_value(old(v)@),
        decreases v.len(),
    {
        let ghost prev = v@;
        let _ = v.pop();
        proof {
            assert(prev =~= v@.push(prev[prev.len() - 1]));
            lemma_value_snoc(v@, prev[prev.len() - 1]);
        }
    }
}

/// The digits of a machine integer.
pub fn digits_from_u64(n: u64) -> (r: Vec<u8>)
    ensures
        digits_ok(r@),
        no_top_zero(r@),
        digits_value(r@) == n,
{
    let mut r: Vec<u8> = Vec::new();
    let mut cur: u64 = n;
    proof {
        assert(digits_value(r@) == 0);
        assert(pow10(0) == 1);
        assert(cur * 1 == cur);
    }
    while cur > 0
        invariant
            digits_ok(r@),
            digits_value(r@) + cur * pow10(r@.len()) == n,
            cur == 0 ==> no_top_zero(r@),
        decreases cur,
    {
        let d: u8 = (cur % 10) as u8;
        let next: u64 = cur / 10;
        let ghost len = r@.len();
        proof {
            lemma_value_snoc(r@, d);
            lemma_pow10_pos(len);
            assert(cur * pow10(len) == d * pow10(len) + next * (10 * pow10(len)))
                by (nonlinear_arith)
                requires
                    cur == 10 * next + d,
                    pow10(len) >= 1,
            ;
        }
        r.push(d);
        cur = next;
    }
    proof {
        assert(cur * pow10(r@.len()) == 0) by (nonlinear_arith)
            requires
                cur == 0,
        ;
    }
    r
}

/// Compare two digit vectors by the numbers they denote: `-1`, `0` or `1` as
/// the first is below, equal to or above the second.
pub fn cmp_digits(a: &Vec<u8>, b: &Vec<u8>) -> (r: i8)
    requires
        digits_ok(a@),
        digits_ok(b@),
    ensures
        r == -1 || r == 0 || r == 1,
        r == -1 <==> digits_value(a@) < digits_value(b@),
        r == 0 <==> digits_value(a@) == digits_value(b@),
        r == 1 <==> digits_value(a@) > digits_value(b@),
{
    let n: usize = if a.len() >= b.len() {
        a.len()
    } else {
        b.len()
    };
    let mut i: usize = n;
    while i > 0
        invariant
            i <= n,
            n >= a@.len(),
            n >= b@.len(),
            digits_ok(a@),
            digits_ok(b@),
            forall|j: int| i <= j ==> digit_at(a@, j) == digit_at(b@, j),
        decreases i,
    {
        let da: u8 = if i - 1 < a.len() {
            a[i - 1]
        } else {
            0
        };
        let db: u8 = if i - 1 < b.len() {
            b[i - 1]
        } else {
            0
        };
        if da > db {
            proof {
                lemma_cmp_decides(a@, b@, i - 1);
            }
            return 1;
        }
        if db > da {
            proof {
                lemma_cmp_decides(b@, a@, i - 1);
            }
            return -1;
        }
        i = i - 1;
    }
    proof {
        lemma_value_from_digits(a@, b@);
    }
    0
}

/// If two numbers share every digit above position `i` and differ at `i`,
/// the one with the larger digit there is larger.
proof fn lemma_cmp_decides(a: Seq<u8>, b: Seq<u8>, i: int)
    requires
        digits_ok(a),
        digits_ok(b),
        0 <= i,
        digit_at(a, i) > digit_at(b, i),
        forall|j: int| i < j ==> digit_at(a, j) == digit_at(b, j),
    ensures
        digits_value(a) > digits_value(b),
{
    assert(i < a.len());
    let ah = a.skip(i);
    lemma_value_split(a, i);
    lemma_value_upper(a.take(i));
    lemma_pow10_pos(i as nat);
    // the high part of `a` beats the high part of `b` by at least one
    if i < b.len() {
        let bh = b.skip(i);
        lemma_value_split(b, i);
        lemma_value_upper(b.take(i));
        assert(ah.len() > 0);
        assert(bh.len() > 0);
        assert(ah.skip(1) =~= a.skip(i + 1));
        assert(bh.skip(1) =~= b.skip(i + 1));
        assert forall|j: int| #[trigger] digit_at(a.skip(i + 1), j) == digit_at(b.skip(i + 1), j) by {
            if 0 <= j {
                assert(digit_at(a, i + 1 + j) == digit_at(b, i + 1 + j));
                if j < a.skip(i + 1).len() {
                    assert(a.skip(i + 1)[j] == a[i + 1 + j]);
                }
                if j < b.skip(i + 1).len() {
                    assert(b.skip(i + 1)[j] == b[i + 1 + j]);
                }
            }
        }
        lemma_value_from_digits(a.skip(i + 1), b.skip(i + 1));
        assert(digits_value(ah) == ah[0] as nat + 10 * digits_value(ah.skip(1)));
        assert(digits_value(bh) == bh[0] as nat + 10 * digits_value(bh.skip(1)));
        assert(digits_value(ah) > digits_value(bh));
        lemma_ge_scaled(digits_value(ah), digits_value(bh), pow10(i as nat));
        assert(digits_value(a) >= pow10(i as nat) * digits_value(ah));
        assert(digits_value(b) < digits_value(ah) * pow10(i as nat)) by (nonlinear_arith)
            requires
                digits_value(b) == digits_value(b.take(i)) + pow10(i as nat) * digits_value(bh),
                digits_value(b.take(i)) < pow10(i as nat),
                digits_value(bh) < digits_value(ah),
                pow10(i as nat) >= 1,
        ;
        assert(digits_value(ah) * pow10(i as nat) == pow10(i as nat) * digits_value(ah))
            by (nonlinear_arith);
    } else {
        // everything above `i` in `b` is zero, and so is everything in the
        // padded tail: the value of `b` is below `pow10(i)`
        let bt = b.take(if i <= b.len() { i } else { b.len() as int });
        assert(forall|j: int| digit_at(b, j) == digit_at(bt, j)) by {
            assert(forall|j: int| 0 <= j < bt.len() ==> bt[j] == b[j]);
        }
        lemma_value_from_digits(b, bt);
        lemma_value_upper(bt);
        assert(bt.len() <= i);
        lemma_pow10_monotone(bt.len(), i as nat);
        assert(ah.len() > 0);
        assert(ah[0] == a[i]);
        assert(digits_value(ah) >= 1);
        assert(digits_value(a) >= pow10(i as nat) * 1) by (nonlinear_arith)
            requires
                digits_value(a) == digits_value(a.take(i)) + pow10(i as nat) * digits_value(ah),
                digits_value(ah) >= 1,
                pow10(i as nat) >= 1,
        ;
    }
}

proof fn lemma_ge_scaled(x: nat, y: nat, p: nat)
    requires
        x > y,
        p >= 1,
    ensures
        p * x >= p * y + p,
{
    assert(p * x >= p * (y + 1)) by (nonlinear_arith)
        requires
            x >= y + 1,
            p >= 1,
    ;
    assert(p * (y + 1) == p * y + p) by (nonlinear_arith);
}

proof fn lemma_pow10_monotone(a: nat, b: nat)
    ensures
        a <= b ==> pow10(a) <= pow10(b),
    decreases b,
{
    if a < b && b > 0 {
        lemma_pow10_monotone(a, (b - 1) as nat);
        lemma_pow10_pos((b - 1) as nat);
    }
}

/// The sum of two digit vectors.
pub fn add_digits(a: &Vec<u8>, b: &Vec<u8>) -> (r: Vec<u8>)
    requires
        digits_ok(a@),
        digits_ok(b@),
    ensures
        digits_ok(r@),
        digits_value(r@) == digits_value(a@) + digits_value(b@),
        no_top_zero(a@) && no_top_zero(b@) ==> no_top_zero(r@),
{
    let n: usize = if a.len() >= b.len() {
        a.len()
    } else {
        b.len()
    };
    let mut r: Vec<u8> = Vec::new();
    let mut carry: u8 = 0;
    let mut i: usize = 0;
    while i < n
        invariant
            i <= n,
            n >= a@.len(),
            n >= b@.len(),
            n == if a@.len() >= b@.len() { a@.len() } else { b@.len() },
            digits_ok(a@),
            digits_ok(b@),
            digits_ok(r@),
            r@.len() == i,
            carry <= 1,
            digits_value(r@) + carry * pow10(i as nat) == prefix_value(a@, i as int) + prefix_value(
                b@,
                i as int,
            ),
        decreases n - i,
    {
        let da: u8 = if i < a.len() {
            a[i]
        } else {
            0
        };
        let db: u8 = if i < b.len() {
            b[i]
        } else {
            0
        };
        let sum: u8 = da + db + carry;
        let d: u8 = sum % 10;
        let c2: u8 = sum / 10;
        proof {
            lemma_prefix_step(a@, i as int);
            lemma_prefix_step(b@, i as int);
            lemma_value_snoc(r@, d);
            assert(digit_at(a@, i as int) == da);
            assert(digit_at(b@, i as int) == db);
            let p = pow10(i as nat);
            assert(digits_value(r@) + d * p + c2 * (10 * p) == digits_value(r@) + carry * p + da
                * p + db * p) by (nonlinear_arith)
                requires
                    sum == d + 10 * c2,
                    sum == da + db + carry,
            ;
        }
        r.push(d);
        carry = c2;
        i = i + 1;
    }
    proof {
        lemma_prefix_complete(a@, n as int);
        lemma_prefix_complete(b@, n as int);
    }
    if carry > 0 {
        proof {
            lemma_value_snoc(r@, carry);
        }
        r.push(carry);
        proof {
            assert(r@[r@.len() - 1] == 1);
        }
    } else {
        proof {
            assert(carry * pow10(n as nat) == 0);
            if no_top_zero(a@) && no_top_zero(b@) && n > 0 {
                if a@.len() >= b@.len() {
                    lemma_value_lower(a@);
                    lemma_pow10_monotone((a@.len() - 1) as nat, (n - 1) as nat);
                } else {
                    lemma_value_lower(b@);
                    lemma_pow10_monotone((b@.len() - 1) as nat, (n - 1) as nat);
                }
                lemma_top_nonzero_from_lower(r@);
            }
        }
    }
    r
}

/// The difference of two digit vectors; the first must be at least the
/// second.
pub fn sub_digits(a: &Vec<u8>, b: &Vec<u8>) -> (r: Vec<u8>)
    requires
        digits_ok(a@),
        digits_ok(b@),
        digits_value(b@) <= digits_value(a@),
    ensures
        digits_ok(r@),
        no_top_zero(r@),
        digits_value(r@) == digits_value(a@) - digits_value(b@),
{
    let n: usize = if a.len() >= b.len() {
        a.len()
    } else {
        b.len()
    };
    let mut r: Vec<u8> = Vec::new();
    let mut borrow: u8 = 0;
    let mut i: usize = 0;
    while i < n
        invariant
            i <= n,
            n >= a@.len(),
            n >= b@.len(),
            digits_ok(a@),
            digits_ok(b@),
            digits_ok(r@),
            r@.len() == i,
            borrow <= 1,
            digits_value(r@) as int == prefix_value(a@, i as int) - prefix_value(b@, i as int)
                + borrow * pow10(i as nat),
        decreases n - i,
    {
        let da: u8 = if i < a.len() {
            a[i]
        } else {
            0
        };
        let db: u8 = if i < b.len() {
            b[i]
        } else {
            0
        };
        let need: u8 = db + borrow;
        let d: u8 = if da >= need {
            da - need
        } else {
            da + 10 - need
        };
        let b2: u8 = if da >= need {
            0
        } else {
            1
        };
        proof {
            lemma_prefix_step(a@, i as int);
            lemma_prefix_step(b@, i as int);
            lemma_value_snoc(r@, d);
            assert(digit_at(a@, i as int) == da);
            assert(digit_at(b@, i as int) == db);
            let p = pow10(i as nat);
            assert(digits_value(r@) as int + d * p == (prefix_value(a@, i as int) + da * p) - (
            prefix_value(b@, i as int) + db * p) + b2 * (10 * p)) by (nonlinear_arith)
                requires
                    digits_value(r@) as int == prefix_value(a@, i as int) - prefix_value(
                        b@,
                        i as int,
                    ) + borrow * p,
                    d as int == da - db - borrow + 10 * b2,
            ;
        }
        r.push(d);
        borrow = b2;
        i = i + 1;
    }
    proof {
        lemma_prefix_complete(a@, n as int);
        lemma_prefix_complete(b@, n as int);
        if borrow == 1 {
            lemma_value_upper(r@);
            assert(false);
        }
        assert(borrow * pow10(n as nat) == 0);
    }
    strip_top_zeros(&mut r);
    r
}

/// The same number scaled up by `pow10(k)`: `k` zero digits below the input.
pub fn shift_up(a: &Vec<u8>, k: usize) -> (r: Vec<u8>)
    requires
        digits_ok(a@),
    ensures
        digits_ok(r@),
        digits_value(r@) == pow10(k as nat) * digits_value(a@),
        no_top_zero(a@) ==> no_top_zero(r@),
{
    if a.len() == 0 {
        proof {
            assert(pow10(k as nat) * 0 == 0) by (nonlinear_arith);
        }
        return Vec::new();
    }
    let mut r: Vec<u8> = vec![0u8; k];
    r.extend_from_slice(a.as_slice());
    proof {
        assert(r@ =~= Seq::new(k as nat, |i: int| 0u8).add(a@));
        lemma_value_prepend_zeros(k as nat, a@);
        assert(r@[r@.len() - 1] == a@[a@.len() - 1]);
    }
    r
}

/// Quotient digits and remainder of a digit vector divided by `n`.
pub fn div_digits(a: &Vec<u8>, n: u64) -> (qr: (Vec<u8>, u64))
    requires
        digits_ok(a@),
        n >= 1,
    ensures
        digits_ok(qr.0@),
        no_top_zero(qr.0@),
        digits_value(a@) == n * digits_value(qr.0@) + qr.1,
        qr.1 < n,
{
    let mut q: Vec<u8> = vec![0u8; a.len()];
    let mut rem: u64 = 0;
    let mut i: usize = a.len();
    proof {
        assert(a@.skip(a@.len() as int) =~= Seq::<u8>::empty());
        assert(q@.skip(q@.len() as int) =~= Seq::<u8>::empty());
        assert(digits_value(Seq::<u8>::empty()) == 0);
        assert(n * 0 == 0);
    }
    while i > 0
        invariant
            i <= a@.len(),
            digits_ok(a@),
            digits_ok(q@),
            q@.len() == a@.len(),
            rem < n,
            n >= 1,
            digits_value(a@.skip(i as int)) == n * digits_value(q@.skip(i as int)) + rem,
        decreases i,
    {
        let cur: u128 = rem as u128 * 10 + a[i - 1] as u128;
        let qd: u8 = (cur / n as u128) as u8;
        let rem2: u64 = (cur % n as u128) as u64;
        proof {
            assert(cur < 10 * n as u128) by (nonlinear_arith)
                requires
                    cur == rem as u128 * 10 + a@[i - 1] as u128,
                    rem < n,
                    a@[i - 1] < 10,
                    n >= 1,
            ;
            assert(cur / (n as u128) < 10) by (nonlinear_arith)
                requires
                    cur < 10 * (n as u128),
                    n >= 1,
            ;
            assert(cur == (n as u128) * (cur / (n as u128)) + cur % (n as u128))
                by (nonlinear_arith)
                requires
                    n >= 1,
            ;
            assert(cur % (n as u128) < n as u128) by (nonlinear_arith)
                requires
                    n >= 1,
            ;
        }
        let ghost qold = q@;
        q[i - 1] = qd;
        proof {
            let ii = i - 1;
            assert(q@.skip(i as int) =~= qold.skip(i as int));
            let ahi = a@.skip(ii);
            let qhi = q@.skip(ii);
            assert(ahi.skip(1) =~= a@.skip(i as int));
            assert(qhi.skip(1) =~= q@.skip(i as int));
            assert(ahi[0] == a@[ii]);
            assert(qhi[0] == q@[ii]);
            assert(digits_value(ahi) == a@[ii] as nat + 10 * digits_value(a@.skip(i as int)));
            assert(digits_value(qhi) == qd as nat + 10 * digits_value(q@.skip(i as int)));
            let qv = digits_value(q@.skip(i as int));
            assert(a@[ii] as nat + 10 * (n * qv + rem) == n * (qd as nat + 10 * qv) + rem2)
                by (nonlinear_arith)
                requires
                    rem as u128 * 10 + a@[ii] as u128 == (n as u128) * (qd as u128) + rem2 as u128,
            ;
        }
        rem = rem2;
        i = i - 1;
    }
    proof {
        assert(a@.skip(0) =~= a@);
        assert(q@.skip(0) =~= q@);
    }
    strip_top_zeros(&mut q);
    (q, rem)
}

} // verus!
