//! The mathematics behind the library: divisibility, greatest common divisor,
//! least common multiple, and the split of a number into a power of two and an
//! odd part.
use vstd::prelude::*;
use vstd::arithmetic::div_mod::lemma_div_multiples_vanish;

verus! {

/// `d` divides `x`: some natural `k` has `d * k == x`.
pub open spec fn divides(d: nat, x: nat) -> bool {
    exists|k: nat| #[trigger] (d * k) == x
}

/// Absolute value of an integer.
pub open spec fn abs(i: int) -> nat {
    if i < 0 { (-i) as nat } else { i as nat }
}

/// Greatest common divisor, defined by repeated subtraction.
/// `gcd(0, 0) == 0`, and `gcd(a, 0) == gcd(0, a) == a`.
pub open spec fn gcd(a: nat, b: nat) -> nat
    decreases a + b,
{
    if a == 0 {
        b
    } else if b == 0 {
        a
    } else if a >= b {
        gcd((a - b) as nat, b)
    } else {
        gcd(a, (b - a) as nat)
    }
}

/// Least common multiple; zero when either argument is zero.
pub open spec fn lcm(a: nat, b: nat) -> nat {
    if a == 0 || b == 0 {
        0
    } else {
        a * b / gcd(a, b)
    }
}

/// GCD of a sequence, folded from the left; zero for the empty sequence.
pub open spec fn gcd_seq(s: Seq<nat>) -> nat
    decreases s.len(),
{
    if s.len() == 0 {
        0
    } else {
        gcd(gcd_seq(s.drop_last()), s.last())
    }
}

/// `x` with every factor of two removed (zero stays zero).
pub open spec fn odd_part(x: nat) -> nat
    decreases x,
{
    if x > 0 && x % 2 == 0 {
        odd_part(x / 2)
    } else {
        x
    }
}

/// The largest power of two that divides `x` (one for zero).
pub open spec fn two_part(x: nat) -> nat
    decreases x,
{
    if x > 0 && x % 2 == 0 {
        2 * two_part(x / 2)
    } else {
        1
    }
}

/// `x` is zero or odd.
pub open spec fn odd_or_zero(x: nat) -> bool {
    x == 0 || x % 2 == 1
}

// ---------------------------------------------------------------------------
// Divisibility

pub proof fn lemma_divides_zero(d: nat)
    ensures
        divides(d, 0),
{
    assert(d * 0 == 0);
}

pub proof fn lemma_divides_refl(x: nat)
    ensures
        divides(x, x),
{
    assert(x * 1 == x);
}

pub proof fn lemma_divides_add(d: nat, x: nat, y: nat)
    requires
        divides(d, x),
        divides(d, y),
    ensures
        divides(d, x + y),
{
    let kx = choose|k: nat| #[trigger] (d * k) == x;
    let ky = choose|k: nat| #[trigger] (d * k) == y;
    let k = kx + ky;
    assert(d * k == x + y) by (nonlinear_arith)
        requires
            k == kx + ky,
            d * kx == x,
            d * ky == y,
    ;
}

pub proof fn lemma_divides_sub(d: nat, x: nat, y: nat)
    requires
        divides(d, x),
        divides(d, y),
        y <= x,
    ensures
        divides(d, (x - y) as nat),
{
    let kx = choose|k: nat| #[trigger] (d * k) == x;
    let ky = choose|k: nat| #[trigger] (d * k) == y;
    if d == 0 {
        assert(d * kx == 0 && d * ky == 0) by (nonlinear_arith)
            requires
                d == 0,
        ;
        assert(d * 0 == (x - y) as nat);
    } else {
        assert(ky <= kx) by (nonlinear_arith)
            requires
                d * kx == x,
                d * ky == y,
                y <= x,
                d > 0,
        ;
        let k = (kx - ky) as nat;
        assert(d * k == x - y) by (nonlinear_arith)
            requires
                k == kx - ky,
                d * kx == x,
                d * ky == y,
        ;
    }
}

pub proof fn lemma_divides_mul(d: nat, x: nat, m: nat)
    requires
        divides(d, x),
    ensures
        divides(d, x * m),
{
    let kx = choose|k: nat| #[trigger] (d * k) == x;
    let k = kx * m;
    assert(d * k == x * m) by (nonlinear_arith)
        requires
            k == kx * m,
            d * kx == x,
    ;
}

pub proof fn lemma_divides_trans(a: nat, b: nat, c: nat)
    requires
        divides(a, b),
        divides(b, c),
    ensures
        divides(a, c),
{
    let k1 = choose|k: nat| #[trigger] (a * k) == b;
    let k2 = choose|k: nat| #[trigger] (b * k) == c;
    let k = k1 * k2;
    assert(a * k == c) by (nonlinear_arith)
        requires
            k == k1 * k2,
            a * k1 == b,
            b * k2 == c,
    ;
}

pub proof fn lemma_divides_le(d: nat, x: nat)
    requires
        divides(d, x),
        x > 0,
    ensures
        d <= x,
{
    let k = choose|k: nat| #[trigger] (d * k) == x;
    assert(d <= x) by (nonlinear_arith)
        requires
            d * k == x,
            x > 0,
    ;
}

pub proof fn lemma_divides_antisym(a: nat, b: nat)
    requires
        divides(a, b),
        divides(b, a),
    ensures
        a == b,
{
    if a == 0 {
        let k = choose|k: nat| #[trigger] (a * k) == b;
        assert(a * k == 0) by (nonlinear_arith)
            requires
                a == 0,
        ;
    } else if b == 0 {
        let k = choose|k: nat| #[trigger] (b * k) == a;
        assert(b * k == 0) by (nonlinear_arith)
            requires
                b == 0,
        ;
    } else {
        lemma_divides_le(a, b);
        lemma_divides_le(b, a);
    }
}

/// Every divisor of an odd number is odd.
pub proof fn lemma_divisor_of_odd(d: nat, x: nat)
    requires
        divides(d, x),
        x % 2 == 1,
    ensures
        d % 2 == 1,
{
    let k = choose|k: nat| #[trigger] (d * k) == x;
    if d % 2 == 0 {
        let j = d / 2;
        assert(x == 2 * (j * k)) by (nonlinear_arith)
            requires
                d == 2 * j,
                d * k == x,
        ;
    }
}

/// An odd divisor of `2 * x` divides `x`.
pub proof fn lemma_odd_divides_double(d: nat, x: nat)
    requires
        d % 2 == 1,
        divides(d, 2 * x),
    ensures
        divides(d, x),
{
    let k = choose|k: nat| #[trigger] (d * k) == 2 * x;
    let j = k / 2;
    if k % 2 == 1 {
        assert(d == 2 * (x - d * j)) by (nonlinear_arith)
            requires
                k == 2 * j + 1,
                d * k == 2 * x,
        ;
    } else {
        assert(d * j == x) by (nonlinear_arith)
            requires
                k == 2 * j,
                d * k == 2 * x,
        ;
    }
}

/// A number that divides 1 is 1.
pub proof fn lemma_divides_one(g: nat)
    requires
        divides(g, 1),
    ensures
        g == 1,
{
    lemma_divides_le(g, 1);
    if g == 0 {
        let k = choose|k: nat| #[trigger] (g * k) == 1;
        assert(g * k == 0) by (nonlinear_arith)
            requires
                g == 0,
        ;
    }
}

// ---------------------------------------------------------------------------
// The greatest common divisor

pub proof fn lemma_gcd_divides(a: nat, b: nat)
    ensures
        divides(gcd(a, b), a),
        divides(gcd(a, b), b),
    decreases a + b,
{
    if a == 0 {
        lemma_divides_zero(b);
        lemma_divides_refl(b);
    } else if b == 0 {
        lemma_divides_refl(a);
        lemma_divides_zero(a);
    } else if a >= b {
        lemma_gcd_divides((a - b) as nat, b);
        lemma_divides_add(gcd(a, b), (a - b) as nat, b);
    } else {
        lemma_gcd_divides(a, (b - a) as nat);
        lemma_divides_add(gcd(a, b), a, (b - a) as nat);
    }
}

pub proof fn lemma_gcd_greatest(a: nat, b: nat, d: nat)
    requires
        divides(d, a),
        divides(d, b),
    ensures
        divides(d, gcd(a, b)),
    decreases a + b,
{
    if a == 0 {
    } else if b == 0 {
    } else if a >= b {
        lemma_divides_sub(d, a, b);
        lemma_gcd_greatest((a - b) as nat, b, d);
    } else {
        lemma_divides_sub(d, b, a);
        lemma_gcd_greatest(a, (b - a) as nat, d);
    }
}

/// `d` divides `gcd(a, b)` exactly when it divides both `a` and `b`.
pub proof fn lemma_gcd_divisor_iff(a: nat, b: nat, d: nat)
    ensures
        divides(d, gcd(a, b)) <==> divides(d, a) && divides(d, b),
{
    lemma_gcd_divides(a, b);
    if divides(d, gcd(a, b)) {
        lemma_divides_trans(d, gcd(a, b), a);
        lemma_divides_trans(d, gcd(a, b), b);
    }
    if divides(d, a) && divides(d, b) {
        lemma_gcd_greatest(a, b, d);
    }
}

/// Two numbers with the same divisors are equal.
pub proof fn lemma_same_divisors(x: nat, y: nat)
    requires
        forall|d: nat| #[trigger] divides(d, x) <==> divides(d, y),
    ensures
        x == y,
{
    lemma_divides_refl(x);
    lemma_divides_refl(y);
    assert(divides(x, x));
    assert(divides(y, y));
    lemma_divides_antisym(x, y);
}

pub proof fn lemma_gcd_comm(a: nat, b: nat)
    ensures
        gcd(a, b) == gcd(b, a),
{
    assert forall|d: nat| #[trigger] divides(d, gcd(a, b)) <==> divides(d, gcd(b, a)) by {
        lemma_gcd_divisor_iff(a, b, d);
        lemma_gcd_divisor_iff(b, a, d);
    }
    lemma_same_divisors(gcd(a, b), gcd(b, a));
}

pub proof fn lemma_gcd_assoc(a: nat, b: nat, c: nat)
    ensures
        gcd(gcd(a, b), c) == gcd(a, gcd(b, c)),
{
    assert forall|d: nat| #[trigger] divides(d, gcd(gcd(a, b), c)) <==> divides(d, gcd(a, gcd(b, c))) by {
        lemma_gcd_divisor_iff(gcd(a, b), c, d);
        lemma_gcd_divisor_iff(a, b, d);
        lemma_gcd_divisor_iff(a, gcd(b, c), d);
        lemma_gcd_divisor_iff(b, c, d);
    }
    lemma_same_divisors(gcd(gcd(a, b), c), gcd(a, gcd(b, c)));
}

pub proof fn lemma_gcd_one(a: nat)
    ensures
        gcd(a, 1) == 1,
{
    lemma_gcd_divides(a, 1);
    lemma_divides_one(gcd(a, 1));
}

/// A positive argument keeps the gcd positive and no larger than it.
pub proof fn lemma_gcd_bound(a: nat, b: nat)
    requires
        a > 0,
    ensures
        0 < gcd(a, b) <= a,
{
    lemma_gcd_divides(a, b);
    lemma_divides_le(gcd(a, b), a);
    if gcd(a, b) == 0 {
        let g = gcd(a, b);
        let k = choose|k: nat| #[trigger] (g * k) == a;
        assert(g * k == 0) by (nonlinear_arith)
            requires
                g == 0,
        ;
    }
}

/// The gcd is bounded by any bound of both arguments.
pub proof fn lemma_gcd_le(a: nat, b: nat, m: nat)
    requires
        a <= m,
        b <= m,
    ensures
        gcd(a, b) <= m,
{
    if a > 0 {
        lemma_gcd_bound(a, b);
    }
}

/// The lcm of positive numbers is no larger than their product.
pub proof fn lemma_lcm_le(a: nat, b: nat)
    ensures
        lcm(a, b) <= a * b,
{
    if a > 0 && b > 0 {
        lemma_lcm_gcd(a, b);
        lemma_gcd_bound(a, b);
        assert(lcm(a, b) <= a * b) by (nonlinear_arith)
            requires
                lcm(a, b) * gcd(a, b) == a * b,
                gcd(a, b) >= 1,
        ;
    }
}

/// The gcd of odd numbers is odd.
pub proof fn lemma_gcd_odd(a: nat, b: nat)
    requires
        a % 2 == 1,
    ensures
        gcd(a, b) % 2 == 1,
{
    lemma_gcd_divides(a, b);
    lemma_divisor_of_odd(gcd(a, b), a);
}

pub proof fn lemma_gcd_double(a: nat, b: nat)
    ensures
        gcd(2 * a, 2 * b) == 2 * gcd(a, b),
    decreases a + b,
{
    if a == 0 {
    } else if b == 0 {
    } else if a >= b {
        lemma_gcd_double((a - b) as nat, b);
        assert(gcd(2 * a, 2 * b) == gcd((2 * a - 2 * b) as nat, 2 * b));
    } else {
        lemma_gcd_double(a, (b - a) as nat);
        assert(gcd(2 * a, 2 * b) == gcd(2 * a, (2 * b - 2 * a) as nat));
    }
}

/// Against an odd number, a factor of two does not change the gcd.
pub proof fn lemma_gcd_halve(a: nat, b: nat)
    requires
        b % 2 == 1,
    ensures
        gcd(2 * a, b) == gcd(a, b),
{
    assert forall|d: nat| #[trigger] divides(d, gcd(2 * a, b)) <==> divides(d, gcd(a, b)) by {
        lemma_gcd_divisor_iff(2 * a, b, d);
        lemma_gcd_divisor_iff(a, b, d);
        if divides(d, b) {
            lemma_divisor_of_odd(d, b);
            if divides(d, 2 * a) {
                lemma_odd_divides_double(d, a);
            }
            if divides(d, a) {
                lemma_divides_mul(d, a, 2);
                assert(a * 2 == 2 * a);
            }
        }
    }
    lemma_same_divisors(gcd(2 * a, b), gcd(a, b));
}

/// One subtraction step of the binary algorithm keeps the gcd.
pub proof fn lemma_gcd_sub(a: nat, b: nat)
    requires
        a >= b,
    ensures
        gcd((a - b) as nat, b) == gcd(a, b),
{
    if a == 0 || b == 0 {
    } else {
        assert(gcd(a, b) == gcd((a - b) as nat, b));
    }
}

// ---------------------------------------------------------------------------
// Powers of two and odd parts

pub proof fn lemma_odd_part(x: nat)
    ensures
        x == two_part(x) * odd_part(x),
        two_part(x) >= 1,
        odd_part(x) <= x,
        odd_or_zero(odd_part(x)),
        x > 0 ==> odd_part(x) % 2 == 1,
        x > 0 ==> two_part(x) <= x,
        x > 0 ==> odd_part(x) > 0,
        x % 2 == 1 ==> odd_part(x) == x && two_part(x) == 1,
    decreases x,
{
    if x > 0 && x % 2 == 0 {
        lemma_odd_part(x / 2);
        assert(x == 2 * two_part(x / 2) * odd_part(x / 2)) by (nonlinear_arith)
            requires
                x / 2 == two_part(x / 2) * odd_part(x / 2),
                x % 2 == 0,
        ;
        assert(two_part(x) <= x) by (nonlinear_arith)
            requires
                two_part(x) == 2 * two_part(x / 2),
                two_part(x / 2) <= x / 2,
                x % 2 == 0,
        ;
    }
}

/// Against an odd number, only the odd part of the other argument counts.
pub proof fn lemma_gcd_odd_part(v: nat, b: nat)
    requires
        b % 2 == 1,
    ensures
        gcd(odd_part(v), b) == gcd(v, b),
    decreases v,
{
    if v > 0 && v % 2 == 0 {
        lemma_gcd_odd_part(v / 2, b);
        lemma_gcd_halve(v / 2, b);
        assert(2 * (v / 2) == v);
    }
}

/// `gcd(a, b)` is the smaller power of two of the arguments times the gcd of
/// their odd parts.
pub proof fn lemma_gcd_split(x: nat, y: nat)
    requires
        x > 0,
        y > 0,
    ensures
        two_part(gcd(x, y)) == if two_part(x) <= two_part(y) { two_part(x) } else { two_part(y) },
        odd_part(gcd(x, y)) == gcd(odd_part(x), odd_part(y)),
    decreases x + y,
{
    lemma_odd_part(x);
    lemma_odd_part(y);
    lemma_gcd_bound(x, y);
    if x % 2 == 0 && y % 2 == 0 {
        lemma_gcd_split(x / 2, y / 2);
        lemma_gcd_double(x / 2, y / 2);
        assert(2 * (x / 2) == x && 2 * (y / 2) == y);
        let g = gcd(x / 2, y / 2);
        lemma_gcd_bound(x / 2, y / 2);
        assert((2 * g) % 2 == 0 && (2 * g) / 2 == g);
    } else if x % 2 == 0 {
        lemma_gcd_split(x / 2, y);
        lemma_gcd_comm(x / 2, y);
        lemma_gcd_comm(x, y);
        lemma_gcd_halve(x / 2, y);
        assert(2 * (x / 2) == x);
        lemma_odd_part(x / 2);
    } else if y % 2 == 0 {
        lemma_gcd_split(x, y / 2);
        lemma_gcd_halve(y / 2, x);
        lemma_gcd_comm(x, y);
        lemma_gcd_comm(y / 2, x);
        assert(2 * (y / 2) == y);
        lemma_odd_part(y / 2);
    } else {
        lemma_gcd_odd(x, y);
        lemma_odd_part(gcd(x, y));
    }
}

/// GCD of three numbers.
pub open spec fn gcd_of3(a: nat, b: nat, c: nat) -> nat {
    gcd(gcd(a, b), c)
}

/// GCD of four numbers.
pub open spec fn gcd_of4(a: nat, b: nat, c: nat, d: nat) -> nat {
    gcd(gcd(gcd(a, b), c), d)
}

pub proof fn lemma_gcd_of3_divisor_iff(a: nat, b: nat, c: nat, k: nat)
    ensures
        divides(k, gcd_of3(a, b, c)) <==> divides(k, a) && divides(k, b) && divides(k, c),
{
    lemma_gcd_divisor_iff(gcd(a, b), c, k);
    lemma_gcd_divisor_iff(a, b, k);
}

pub proof fn lemma_gcd_of4_divisor_iff(a: nat, b: nat, c: nat, d: nat, k: nat)
    ensures
        divides(k, gcd_of4(a, b, c, d)) <==> divides(k, a) && divides(k, b) && divides(k, c)
            && divides(k, d),
{
    lemma_gcd_divisor_iff(gcd(gcd(a, b), c), d, k);
    lemma_gcd_of3_divisor_iff(a, b, c, k);
}

/// An odd number divides `v` exactly when it divides the odd part of `v`.
pub proof fn lemma_odd_divides_odd_part(k: nat, v: nat)
    requires
        k % 2 == 1,
    ensures
        divides(k, odd_part(v)) <==> divides(k, v),
    decreases v,
{
    if v > 0 && v % 2 == 0 {
        lemma_odd_divides_odd_part(k, v / 2);
        assert(2 * (v / 2) == v);
        if divides(k, v) {
            lemma_odd_divides_double(k, v / 2);
        }
        if divides(k, v / 2) {
            lemma_divides_mul(k, v / 2, 2);
        }
    }
}

/// For an odd `b <= a`, the common odd divisors of `a` and `b` are those of
/// the odd part of `a - b` and `b`.
pub proof fn lemma_step_divisors(k: nat, a: nat, b: nat)
    requires
        a >= b,
        b % 2 == 1,
        divides(k, b),
    ensures
        divides(k, a) <==> divides(k, odd_part((a - b) as nat)),
{
    lemma_divisor_of_odd(k, b);
    lemma_odd_divides_odd_part(k, (a - b) as nat);
    if divides(k, a) {
        lemma_divides_sub(k, a, b);
    }
    if divides(k, (a - b) as nat) {
        lemma_divides_add(k, (a - b) as nat, b);
    }
}

// ---------------------------------------------------------------------------
// Sequences

/// `k` divides every element of `s`.
pub open spec fn divides_all(k: nat, s: Seq<nat>) -> bool {
    forall|i: int| 0 <= i < s.len() ==> #[trigger] divides(k, s[i])
}

/// Sum of a sequence.
pub open spec fn total(s: Seq<nat>) -> nat
    decreases s.len(),
{
    if s.len() == 0 {
        0
    } else {
        total(s.drop_last()) + s.last()
    }
}

/// Every element with its factors of two removed.
pub open spec fn odd_parts(s: Seq<nat>) -> Seq<nat> {
    Seq::new(s.len(), |i: int| odd_part(s[i]))
}

pub proof fn lemma_gcd_seq_divisor_iff(s: Seq<nat>, k: nat)
    ensures
        divides(k, gcd_seq(s)) <==> divides_all(k, s),
    decreases s.len(),
{
    if s.len() == 0 {
        lemma_divides_zero(k);
    } else {
        let t = s.drop_last();
        lemma_gcd_seq_divisor_iff(t, k);
        lemma_gcd_divisor_iff(gcd_seq(t), s.last(), k);
        if divides_all(k, s) {
            assert forall|i: int| 0 <= i < t.len() implies #[trigger] divides(k, t[i]) by {
                assert(t[i] == s[i]);
            }
            assert(divides(k, s[s.len() - 1]));
        }
        if divides_all(k, t) && divides(k, s.last()) {
            assert forall|i: int| 0 <= i < s.len() implies #[trigger] divides(k, s[i]) by {
                if i < s.len() - 1 {
                    assert(t[i] == s[i]);
                }
            }
        }
    }
}

/// Sequences with the same common divisors have the same gcd.
pub proof fn lemma_gcd_seq_same(s: Seq<nat>, t: Seq<nat>)
    requires
        forall|k: nat| #[trigger] divides_all(k, s) <==> divides_all(k, t),
    ensures
        gcd_seq(s) == gcd_seq(t),
{
    assert forall|k: nat| #[trigger] divides(k, gcd_seq(s)) <==> divides(k, gcd_seq(t)) by {
        lemma_gcd_seq_divisor_iff(s, k);
        lemma_gcd_seq_divisor_iff(t, k);
        assert(divides_all(k, s) <==> divides_all(k, t));
    }
    lemma_same_divisors(gcd_seq(s), gcd_seq(t));
}

/// A sequence holding a one has gcd one.
pub proof fn lemma_gcd_seq_one(s: Seq<nat>, j: int)
    requires
        0 <= j < s.len(),
        s[j] == 1,
    ensures
        gcd_seq(s) == 1,
{
    let g = gcd_seq(s);
    lemma_divides_refl(g);
    lemma_gcd_seq_divisor_iff(s, g);
    assert(divides(g, s[j]));
    lemma_divides_one(g);
}

/// Where every element but the first is zero, the gcd is the first.
pub proof fn lemma_gcd_seq_first(s: Seq<nat>)
    requires
        s.len() >= 1,
        forall|j: int| 1 <= j < s.len() ==> s[j] == 0,
    ensures
        gcd_seq(s) == s[0],
{
    assert forall|k: nat| #[trigger] divides(k, gcd_seq(s)) <==> divides(k, s[0]) by {
        lemma_gcd_seq_divisor_iff(s, k);
        lemma_divides_zero(k);
        if divides(k, s[0]) {
            assert forall|i: int| 0 <= i < s.len() implies #[trigger] divides(k, s[i]) by {
                if i > 0 {
                    assert(s[i] == 0);
                }
            }
        }
    }
    lemma_same_divisors(gcd_seq(s), s[0]);
}

/// The gcd of a sequence is bounded by any bound of its elements.
pub proof fn lemma_gcd_seq_le(s: Seq<nat>, m: nat)
    requires
        forall|j: int| 0 <= j < s.len() ==> s[j] <= m,
    ensures
        gcd_seq(s) <= m,
    decreases s.len(),
{
    if s.len() > 0 {
        lemma_gcd_seq_le(s.drop_last(), m);
        lemma_gcd_le(gcd_seq(s.drop_last()), s.last(), m);
    }
}

/// Replacing `s[j]` by the odd part of `s[j] - s[j + 1]`, for an odd
/// `s[j + 1] <= s[j]`, keeps the gcd.
pub proof fn lemma_gcd_seq_step(s: Seq<nat>, j: int)
    requires
        0 <= j,
        j + 1 < s.len(),
        s[j] >= s[j + 1],
        s[j + 1] % 2 == 1,
    ensures
        gcd_seq(s.update(j, odd_part((s[j] - s[j + 1]) as nat))) == gcd_seq(s),
{
    let t = s.update(j, odd_part((s[j] - s[j + 1]) as nat));
    assert forall|k: nat| #[trigger] divides_all(k, t) <==> divides_all(k, s) by {
        if divides_all(k, t) {
            assert(divides(k, t[j + 1]));
            lemma_step_divisors(k, s[j], s[j + 1]);
            assert(divides(k, t[j]));
            assert forall|i: int| 0 <= i < s.len() implies #[trigger] divides(k, s[i]) by {
                if i != j {
                    assert(divides(k, t[i]));
                }
            }
        }
        if divides_all(k, s) {
            assert(divides(k, s[j + 1]));
            assert(divides(k, s[j]));
            lemma_step_divisors(k, s[j], s[j + 1]);
            assert forall|i: int| 0 <= i < t.len() implies #[trigger] divides(k, t[i]) by {
                if i != j {
                    assert(divides(k, s[i]));
                }
            }
        }
    }
    lemma_gcd_seq_same(t, s);
}

/// Exchanging two elements keeps the gcd.
pub proof fn lemma_gcd_seq_swap(s: Seq<nat>, i: int, j: int)
    requires
        0 <= i < s.len(),
        0 <= j < s.len(),
    ensures
        gcd_seq(s.update(i, s[j]).update(j, s[i])) == gcd_seq(s),
{
    let t = s.update(i, s[j]).update(j, s[i]);
    assert forall|k: nat| #[trigger] divides_all(k, t) <==> divides_all(k, s) by {
        if divides_all(k, t) {
            assert(divides(k, t[i]) && divides(k, t[j]));
            assert forall|x: int| 0 <= x < s.len() implies #[trigger] divides(k, s[x]) by {
                if x != i && x != j {
                    assert(divides(k, t[x]));
                }
            }
        }
        if divides_all(k, s) {
            assert(divides(k, s[i]) && divides(k, s[j]));
            assert forall|x: int| 0 <= x < t.len() implies #[trigger] divides(k, t[x]) by {
                if x != i && x != j {
                    assert(divides(k, s[x]));
                }
            }
        }
    }
    lemma_gcd_seq_same(t, s);
}

pub proof fn lemma_total_update(s: Seq<nat>, j: int, v: nat)
    requires
        0 <= j < s.len(),
    ensures
        total(s.update(j, v)) == total(s) - s[j] + v,
    decreases s.len(),
{
    let t = s.update(j, v);
    if j == s.len() - 1 {
        assert(t.drop_last() =~= s.drop_last());
    } else {
        assert(t.drop_last() =~= s.drop_last().update(j, v));
        lemma_total_update(s.drop_last(), j, v);
    }
}

// ---------------------------------------------------------------------------
// The least common multiple

/// The product of the lcm and the gcd of two numbers is their product.
pub proof fn lemma_lcm_gcd(a: nat, b: nat)
    ensures
        lcm(a, b) * gcd(a, b) == a * b,
{
    if a == 0 || b == 0 {
        assert(a * b == 0) by (nonlinear_arith)
            requires
                a == 0 || b == 0,
        ;
    } else {
        let g = gcd(a, b);
        lemma_gcd_bound(a, b);
        lemma_gcd_divides(a, b);
        let k = choose|k: nat| #[trigger] (g * k) == a;
        assert(a * b == g * (k * b)) by (nonlinear_arith)
            requires
                g * k == a,
        ;
        lemma_div_multiples_vanish((k * b) as int, g as int);
        assert(lcm(a, b) == k * b);
        assert((k * b) * g == a * b) by (nonlinear_arith)
            requires
                a * b == g * (k * b),
        ;
    }
}

// ---------------------------------------------------------------------------
// Laws

/// `gcd(a, b)` divides `a` and `b`, and every common divisor of `a` and `b`
/// divides it and, when it is positive, is no larger.
pub proof fn gcd_is_greatest_common_divisor(a: nat, b: nat, d: nat)
    ensures
        divides(gcd(a, b), a),
        divides(gcd(a, b), b),
        divides(d, a) && divides(d, b) ==> divides(d, gcd(a, b)),
        divides(d, a) && divides(d, b) && gcd(a, b) > 0 ==> d <= gcd(a, b),
{
    lemma_gcd_divides(a, b);
    if divides(d, a) && divides(d, b) {
        lemma_gcd_greatest(a, b, d);
        if gcd(a, b) > 0 {
            lemma_divides_le(d, gcd(a, b));
        }
    }
}

/// The gcd may be grouped and ordered freely: it is associative and
/// commutative, and the gcd of a joined sequence is the gcd of the gcds of
/// its parts.
pub proof fn gcd_any_grouping(a: nat, b: nat, c: nat, s: Seq<nat>, t: Seq<nat>)
    ensures
        gcd(gcd(a, b), c) == gcd(a, gcd(b, c)),
        gcd(a, b) == gcd(b, a),
        gcd_seq(s + t) == gcd(gcd_seq(s), gcd_seq(t)),
{
    lemma_gcd_assoc(a, b, c);
    lemma_gcd_comm(a, b);
    assert forall|k: nat| #[trigger] divides(k, gcd_seq(s + t)) <==> divides(
        k,
        gcd(gcd_seq(s), gcd_seq(t)),
    ) by {
        lemma_gcd_seq_divisor_iff(s + t, k);
        lemma_gcd_seq_divisor_iff(s, k);
        lemma_gcd_seq_divisor_iff(t, k);
        lemma_gcd_divisor_iff(gcd_seq(s), gcd_seq(t), k);
        let st = s + t;
        if divides_all(k, st) {
            assert forall|i: int| 0 <= i < s.len() implies #[trigger] divides(k, s[i]) by {
                assert(st[i] == s[i]);
            }
            assert forall|i: int| 0 <= i < t.len() implies #[trigger] divides(k, t[i]) by {
                assert(st[s.len() + i] == t[i]);
            }
        }
        if divides_all(k, s) && divides_all(k, t) {
            assert forall|i: int| 0 <= i < st.len() implies #[trigger] divides(k, st[i]) by {
                if i < s.len() {
                    assert(st[i] == s[i]);
                } else {
                    assert(st[i] == t[i - s.len()]);
                }
            }
        }
    }
    lemma_same_divisors(gcd_seq(s + t), gcd(gcd_seq(s), gcd_seq(t)));
}

/// Folding the first two elements into their gcd keeps the gcd of a sequence.
pub proof fn gcd_seq_fold_front(a: nat, b: nat, rest: Seq<nat>)
    ensures
        gcd_seq(seq![a, b] + rest) == gcd_seq(seq![gcd(a, b)] + rest),
{
    gcd_any_grouping(a, b, 0, seq![a, b], rest);
    gcd_any_grouping(a, b, 0, seq![gcd(a, b)], rest);
    let s2 = seq![a, b];
    let s1 = seq![a];
    let g1 = seq![gcd(a, b)];
    let e = Seq::<nat>::empty();
    assert(gcd_seq(e) == 0);
    assert(s2.drop_last() =~= s1);
    assert(s1.drop_last() =~= e);
    assert(g1.drop_last() =~= e);
    assert(s1.last() == a && s2.last() == b && g1.last() == gcd(a, b));
    assert(gcd_seq(s1) == gcd(0, a));
    assert(gcd_seq(s2) == gcd(gcd_seq(s1), b));
    assert(gcd_seq(g1) == gcd(0, gcd(a, b)));
}

/// One and zero: `gcd(a, 1) == 1` and `gcd(a, 0) == a`.
pub proof fn gcd_with_one_and_zero(a: nat)
    ensures
        gcd(a, 1) == 1,
        gcd(a, 0) == a,
{
    lemma_gcd_one(a);
}

/// The gcd of two integers does not depend on their signs.
pub proof fn gcd_ignores_signs(a: int, b: int)
    ensures
        gcd(abs(a), abs(b)) == gcd(abs(-a), abs(b)),
        gcd(abs(a), abs(b)) == gcd(abs(a), abs(-b)),
        gcd(abs(a), abs(b)) == gcd(abs(-a), abs(-b)),
{
}

} // verus!
