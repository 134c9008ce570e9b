//! The binary GCD engine on 128-bit working values: power-of-two extraction,
//! sorting of small tuples, and the subtract-and-strip reduction loops.
use vstd::prelude::*;
use crate::arith::{
    divides, gcd, gcd_of3, gcd_of4, lemma_gcd_comm, lemma_gcd_of3_divisor_iff, lemma_gcd_of4_divisor_iff,
    lemma_gcd_odd_part, lemma_gcd_one, lemma_gcd_split, lemma_gcd_bound, lemma_gcd_divides, lcm, gcd_seq, odd_parts, lemma_gcd_sub, lemma_odd_part,
    lemma_same_divisors, lemma_step_divisors, odd_or_zero, odd_part, two_part,
};

verus! {

/// The power-of-two factor that `expot` reports: the largest power of two
/// dividing `x`, and the largest working value for zero.
pub open spec fn pot_of(x: nat) -> nat {
    if x == 0 {
        u128::MAX as nat
    } else {
        two_part(x)
    }
}

proof fn lemma_shift_parity(x: u128)
    ensures
        x >> 1u32 == x / 2,
        (x & 1u128 == 0u128) == (x % 2 == 0),
{
    assert(x >> 1u32 == x / 2) by (bit_vector);
    assert((x & 1u128 == 0u128) == (x % 2 == 0)) by (bit_vector);
}

/// Every value is its odd part times its power-of-two factor, and the factor
/// of a gcd is the smaller of the two factors.
pub proof fn lemma_pot_split(x: nat, y: nat)
    requires
        x <= u128::MAX,
        y <= u128::MAX,
    ensures
        x == odd_part(x) * pot_of(x),
        pot_of(x) <= u128::MAX,
        gcd(x, y) <= u128::MAX,
        pot_of(gcd(x, y)) == if pot_of(x) <= pot_of(y) { pot_of(x) } else { pot_of(y) },
        odd_part(gcd(x, y)) == gcd(odd_part(x), odd_part(y)),
{
    lemma_odd_part(x);
    lemma_odd_part(y);
    if x == 0 {
        assert(odd_part(x) * pot_of(x) == 0) by (nonlinear_arith)
            requires
                odd_part(x) == 0,
        ;
    } else {
        assert(x == odd_part(x) * pot_of(x)) by (nonlinear_arith)
            requires
                x == two_part(x) * odd_part(x),
                pot_of(x) == two_part(x),
        ;
    }
    if x > 0 && y > 0 {
        lemma_gcd_split(x, y);
        lemma_gcd_bound(x, y);
    }
}

/// The power-of-two factor of `x | y` is the smaller of those of `x` and `y`.
pub proof fn lemma_or_pot(x: u128, y: u128)
    ensures
        pot_of((x | y) as nat) == min_spec(pot_of(x as nat), pot_of(y as nat)),
    decreases x + y,
{
    assert(((x | y) & 1u128 == 0u128) == (x & 1u128 == 0u128 && y & 1u128 == 0u128)
        && (x | y) >> 1u32 == (x >> 1u32) | (y >> 1u32) && (x == 0u128 || (x | y) != 0u128) && (
    y == 0u128 || (x | y) != 0u128) && 0u128 | y == y && x | 0u128 == x) by (bit_vector);
    lemma_shift_parity(x);
    lemma_shift_parity(y);
    lemma_shift_parity(x | y);
    lemma_pot_split(x as nat, 0);
    lemma_pot_split(y as nat, 0);
    if x != 0 && y != 0 {
        lemma_odd_part(x as nat);
        lemma_odd_part(y as nat);
        if x % 2 == 0 && y % 2 == 0 {
            lemma_or_pot(x / 2, y / 2);
            let z = (x / 2) | (y / 2);
            assert(z == (x | y) / 2);
            assert(two_part((x | y) as nat) == 2 * two_part(z as nat));
        }
    }
}

/// Removes all factors of two (zero stays zero).
pub fn unpot(x: u128) -> (r: u128)
    ensures
        r == odd_part(x as nat),
{
    let mut y = x;
    while y != 0 && y & 1u128 == 0
        invariant
            odd_part(y as nat) == odd_part(x as nat),
        decreases y,
    {
        proof {
            lemma_shift_parity(y);
        }
        y = y >> 1u32;
    }
    proof {
        lemma_shift_parity(y);
    }
    y
}

/// The largest power of two dividing `x`; for zero, `u128::MAX`.
pub fn expot(x: u128) -> (r: u128)
    ensures
        r == pot_of(x as nat),
{
    if x == 0 {
        return u128::MAX;
    }
    let mut y = x;
    let mut p: u128 = 1;
    while y & 1u128 == 0
        invariant
            y > 0,
            p * y == x,
            two_part(x as nat) == p * two_part(y as nat),
        decreases y,
    {
        proof {
            lemma_shift_parity(y);
            assert(p * 2 * (y / 2) == x) by (nonlinear_arith)
                requires
                    p * y == x,
                    y % 2 == 0,
            ;
            assert(p * 2 <= x) by (nonlinear_arith)
                requires
                    p * 2 * (y / 2) == x,
                    y / 2 > 0,
            ;
            assert(two_part(y as nat) == 2 * two_part((y / 2) as nat));
            assert(p * two_part(y as nat) == p * 2 * two_part((y / 2) as nat)) by (nonlinear_arith)
                requires
                    two_part(y as nat) == 2 * two_part((y / 2) as nat),
            ;
        }
        p = p * 2;
        y = y >> 1u32;
    }
    proof {
        lemma_shift_parity(y);
        assert(two_part(y as nat) == 1);
        assert(p * 1 == p);
    }
    p
}

fn min2(a: u128, b: u128) -> (r: u128)
    ensures
        r == if a <= b { a } else { b },
{
    if a <= b { a } else { b }
}

fn max2(a: u128, b: u128) -> (r: u128)
    ensures
        r == if a >= b { a } else { b },
{
    if a >= b { a } else { b }
}

fn min3(a: u128, b: u128, c: u128) -> (r: u128)
    ensures
        r <= a && r <= b && r <= c,
        r == a || r == b || r == c,
{
    min2(min2(a, b), c)
}

fn max3(a: u128, b: u128, c: u128) -> (r: u128)
    ensures
        r >= a && r >= b && r >= c,
        r == a || r == b || r == c,
{
    max2(max2(a, b), c)
}

fn min4(a: u128, b: u128, c: u128, d: u128) -> (r: u128)
    ensures
        r == min_spec(min_spec(a as nat, b as nat), min_spec(c as nat, d as nat)),
{
    min2(min2(a, b), min2(c, d))
}

/// The smaller of two numbers.
pub open spec fn min_spec(a: nat, b: nat) -> nat {
    if a <= b { a } else { b }
}

/// `x` is one of `a`, `b`, `c`.
pub open spec fn in3(x: u128, a: u128, b: u128, c: u128) -> bool {
    x == a || x == b || x == c
}

/// `x` is one of `a`, `b`, `c`, `d`.
pub open spec fn in4(x: u128, a: u128, b: u128, c: u128, d: u128) -> bool {
    x == a || x == b || x == c || x == d
}

/// The larger first.
fn sort2(a: u128, b: u128) -> (r: (u128, u128))
    ensures
        r.0 == if a >= b { a } else { b },
        r.1 == if a >= b { b } else { a },
{
    (max2(a, b), min2(a, b))
}

proof fn lemma_xor_cancel(a: u128, b: u128, c: u128)
    ensures
        a ^ b ^ c ^ c ^ a == b,
        a ^ b ^ c ^ b ^ a == c,
        a ^ b ^ c ^ c ^ b == a,
        a ^ b ^ c ^ a ^ b == c,
        a ^ b ^ c ^ b ^ c == a,
        a ^ b ^ c ^ a ^ c == b,
        a ^ b ^ c ^ a ^ a == a ^ b ^ c,
{
    assert(a ^ b ^ c ^ c ^ a == b && a ^ b ^ c ^ b ^ a == c && a ^ b ^ c ^ c ^ b == a && a ^ b
        ^ c ^ a ^ b == c && a ^ b ^ c ^ b ^ c == a && a ^ b ^ c ^ a ^ c == b && a ^ b ^ c ^ a
        ^ a == a ^ b ^ c) by (bit_vector);
}

/// Descending order; the middle value is what remains once the largest and
/// the smallest are cancelled out of `a ^ b ^ c`.
fn sort3(a: u128, b: u128, c: u128) -> (r: (u128, u128, u128))
    ensures
        r.0 >= r.1 >= r.2,
        r.0 + r.1 + r.2 == a + b + c,
        in3(r.0, a, b, c) && in3(r.1, a, b, c) && in3(r.2, a, b, c),
        in3(a, r.0, r.1, r.2) && in3(b, r.0, r.1, r.2) && in3(c, r.0, r.1, r.2),
{
    let mx = max3(a, b, c);
    let mn = min3(a, b, c);
    proof {
        lemma_xor_cancel(a, b, c);
        lemma_xor_cancel(b, a, c);
        lemma_xor_cancel(c, b, a);
    }
    (mx, a ^ b ^ c ^ mn ^ mx, mn)
}

/// Descending order by a network of five compare-and-swap steps.
fn sort4(a: u128, b: u128, c: u128, d: u128) -> (r: (u128, u128, u128, u128))
    ensures
        r.0 >= r.1 >= r.2 >= r.3,
        r.0 + r.1 + r.2 + r.3 == a + b + c + d,
        in4(r.0, a, b, c, d) && in4(r.1, a, b, c, d) && in4(r.2, a, b, c, d) && in4(
            r.3,
            a,
            b,
            c,
            d,
        ),
        in4(a, r.0, r.1, r.2, r.3) && in4(b, r.0, r.1, r.2, r.3) && in4(c, r.0, r.1, r.2, r.3)
            && in4(d, r.0, r.1, r.2, r.3),
{
    let (a, b) = sort2(a, b);
    let (c, d) = sort2(c, d);
    let (a, c) = sort2(a, c);
    let (b, d) = sort2(b, d);
    let (b, c) = sort2(b, c);
    (a, b, c, d)
}

/// GCD of two odd-or-zero values, the larger first.
fn reduce2(a: u128, b: u128) -> (r: u128)
    requires
        a >= b,
        odd_or_zero(a as nat),
        odd_or_zero(b as nat),
    ensures
        r == gcd(a as nat, b as nat),
{
    let ghost target = gcd(a as nat, b as nat);
    let mut a = a;
    let mut b = b;
    while b > 1
        invariant
            a >= b,
            odd_or_zero(a as nat),
            odd_or_zero(b as nat),
            gcd(a as nat, b as nat) == target,
        decreases a + b,
    {
        let ghost v = (a - b) as nat;
        proof {
            lemma_odd_part(v);
            lemma_gcd_odd_part(v, b as nat);
            lemma_gcd_sub(a as nat, b as nat);
            lemma_gcd_comm(odd_part(v), b as nat);
        }
        let (x, y) = sort2(unpot(a - b), b);
        a = x;
        b = y;
    }
    if b == 1 {
        proof {
            lemma_gcd_one(a as nat);
        }
        a = 1;
    }
    a
}

/// GCD of three odd-or-zero values in descending order.
fn reduce3(a: u128, b: u128, c: u128) -> (r: u128)
    requires
        a >= b >= c,
        odd_or_zero(a as nat),
        odd_or_zero(b as nat),
        odd_or_zero(c as nat),
    ensures
        r == gcd_of3(a as nat, b as nat, c as nat),
{
    let ghost target = gcd_of3(a as nat, b as nat, c as nat);
    let mut a = a;
    let mut b = b;
    let mut c = c;
    while c > 1
        invariant
            a >= b >= c,
            odd_or_zero(a as nat),
            odd_or_zero(b as nat),
            odd_or_zero(c as nat),
            gcd_of3(a as nat, b as nat, c as nat) == target,
        decreases a + b + c,
    {
        let ghost va = odd_part((a - b) as nat);
        let ghost vb = odd_part((b - c) as nat);
        let x = unpot(a - b);
        let y = unpot(b - c);
        let (p, q, s) = sort3(x, y, c);
        proof {
            lemma_odd_part((a - b) as nat);
            lemma_odd_part((b - c) as nat);
            assert forall|k: nat| #[trigger]
                divides(k, gcd_of3(p as nat, q as nat, s as nat)) <==> divides(
                    k,
                    gcd_of3(a as nat, b as nat, c as nat),
                ) by {
                lemma_gcd_of3_divisor_iff(p as nat, q as nat, s as nat, k);
                lemma_gcd_of3_divisor_iff(x as nat, y as nat, c as nat, k);
                lemma_gcd_of3_divisor_iff(a as nat, b as nat, c as nat, k);
                if divides(k, c as nat) {
                    lemma_step_divisors(k, b as nat, c as nat);
                    if divides(k, b as nat) {
                        lemma_step_divisors(k, a as nat, b as nat);
                    }
                }
            }
            lemma_same_divisors(
                gcd_of3(p as nat, q as nat, s as nat),
                gcd_of3(a as nat, b as nat, c as nat),
            );
        }
        a = p;
        b = q;
        c = s;
    }
    if c == 1 {
        proof {
            lemma_gcd_one(gcd(a as nat, b as nat));
            lemma_gcd_one(a as nat);
        }
        b = 1;
    }
    reduce2(a, b)
}

/// GCD of four odd-or-zero values in descending order.
fn reduce4(a: u128, b: u128, c: u128, d: u128) -> (r: u128)
    requires
        a >= b >= c >= d,
        odd_or_zero(a as nat),
        odd_or_zero(b as nat),
        odd_or_zero(c as nat),
        odd_or_zero(d as nat),
    ensures
        r == gcd_of4(a as nat, b as nat, c as nat, d as nat),
{
    let ghost target = gcd_of4(a as nat, b as nat, c as nat, d as nat);
    let mut a = a;
    let mut b = b;
    let mut c = c;
    let mut d = d;
    while d > 1
        invariant
            a >= b >= c >= d,
            odd_or_zero(a as nat),
            odd_or_zero(b as nat),
            odd_or_zero(c as nat),
            odd_or_zero(d as nat),
            gcd_of4(a as nat, b as nat, c as nat, d as nat) == target,
        decreases a + b + c + d,
    {
        let x = unpot(a - b);
        let y = unpot(b - c);
        let z = unpot(c - d);
        let (p, q, s, t) = sort4(x, y, z, d);
        proof {
            lemma_odd_part((a - b) as nat);
            lemma_odd_part((b - c) as nat);
            lemma_odd_part((c - d) as nat);
            assert forall|k: nat| #[trigger]
                divides(k, gcd_of4(p as nat, q as nat, s as nat, t as nat)) <==> divides(
                    k,
                    gcd_of4(a as nat, b as nat, c as nat, d as nat),
                ) by {
                lemma_gcd_of4_divisor_iff(p as nat, q as nat, s as nat, t as nat, k);
                lemma_gcd_of4_divisor_iff(x as nat, y as nat, z as nat, d as nat, k);
                lemma_gcd_of4_divisor_iff(a as nat, b as nat, c as nat, d as nat, k);
                if divides(k, d as nat) {
                    lemma_step_divisors(k, c as nat, d as nat);
                    if divides(k, c as nat) {
                        lemma_step_divisors(k, b as nat, c as nat);
                        if divides(k, b as nat) {
                            lemma_step_divisors(k, a as nat, b as nat);
                        }
                    }
                }
            }
            lemma_same_divisors(
                gcd_of4(p as nat, q as nat, s as nat, t as nat),
                gcd_of4(a as nat, b as nat, c as nat, d as nat),
            );
        }
        a = p;
        b = q;
        c = s;
        d = t;
    }
    if d == 1 {
        proof {
            lemma_gcd_one(gcd_of3(a as nat, b as nat, c as nat));
            lemma_gcd_one(gcd(a as nat, b as nat));
        }
        c = 1;
    }
    reduce3(a, b, c)
}

/// The odd part of the gcd of a sequence is the gcd of the odd parts.
pub proof fn lemma_gcd_seq_odd(s: Seq<nat>)
    requires
        forall|j: int| 0 <= j < s.len() ==> s[j] <= u128::MAX,
    ensures
        odd_part(gcd_seq(s)) == gcd_seq(odd_parts(s)),
        gcd_seq(s) <= u128::MAX,
    decreases s.len(),
{
    if s.len() > 0 {
        let t = s.drop_last();
        lemma_gcd_seq_odd(t);
        assert(odd_parts(s).drop_last() =~= odd_parts(t));
        lemma_pot_split(gcd_seq(t), s.last());
    }
}

proof fn lemma_gcd_of3_perm(a: u128, b: u128, c: u128, p: u128, q: u128, s: u128)
    requires
        in3(p, a, b, c) && in3(q, a, b, c) && in3(s, a, b, c),
        in3(a, p, q, s) && in3(b, p, q, s) && in3(c, p, q, s),
    ensures
        gcd_of3(p as nat, q as nat, s as nat) == gcd_of3(a as nat, b as nat, c as nat),
{
    assert forall|k: nat| #[trigger]
        divides(k, gcd_of3(p as nat, q as nat, s as nat)) <==> divides(
            k,
            gcd_of3(a as nat, b as nat, c as nat),
        ) by {
        lemma_gcd_of3_divisor_iff(p as nat, q as nat, s as nat, k);
        lemma_gcd_of3_divisor_iff(a as nat, b as nat, c as nat, k);
    }
    lemma_same_divisors(gcd_of3(p as nat, q as nat, s as nat), gcd_of3(a as nat, b as nat, c as nat));
}

proof fn lemma_gcd_of4_perm(
    a: u128,
    b: u128,
    c: u128,
    d: u128,
    p: u128,
    q: u128,
    s: u128,
    t: u128,
)
    requires
        in4(p, a, b, c, d) && in4(q, a, b, c, d) && in4(s, a, b, c, d) && in4(t, a, b, c, d),
        in4(a, p, q, s, t) && in4(b, p, q, s, t) && in4(c, p, q, s, t) && in4(d, p, q, s, t),
    ensures
        gcd_of4(p as nat, q as nat, s as nat, t as nat) == gcd_of4(
            a as nat,
            b as nat,
            c as nat,
            d as nat,
        ),
{
    assert forall|k: nat| #[trigger]
        divides(k, gcd_of4(p as nat, q as nat, s as nat, t as nat)) <==> divides(
            k,
            gcd_of4(a as nat, b as nat, c as nat, d as nat),
        ) by {
        lemma_gcd_of4_divisor_iff(p as nat, q as nat, s as nat, t as nat, k);
        lemma_gcd_of4_divisor_iff(a as nat, b as nat, c as nat, d as nat, k);
    }
    lemma_same_divisors(
        gcd_of4(p as nat, q as nat, s as nat, t as nat),
        gcd_of4(a as nat, b as nat, c as nat, d as nat),
    );
}

/// GCD of two working values.
pub fn gcd_wide2(x: u128, y: u128) -> (r: u128)
    ensures
        r == gcd(x as nat, y as nat),
{
    let s = min2(expot(x), expot(y));
    let ox = unpot(x);
    let oy = unpot(y);
    let (a, b) = sort2(ox, oy);
    proof {
        lemma_odd_part(x as nat);
        lemma_odd_part(y as nat);
        lemma_gcd_comm(ox as nat, oy as nat);
        lemma_pot_split(x as nat, y as nat);
        lemma_pot_split(gcd(x as nat, y as nat), 0);
    }
    let g = reduce2(a, b);
    g * s
}

/// GCD of three working values.
pub fn gcd_wide3(x: u128, y: u128, z: u128) -> (r: u128)
    ensures
        r == gcd_of3(x as nat, y as nat, z as nat),
{
    let s = min3(expot(x), expot(y), expot(z));
    let ox = unpot(x);
    let oy = unpot(y);
    let oz = unpot(z);
    let (a, b, c) = sort3(ox, oy, oz);
    let ghost gxy = gcd(x as nat, y as nat);
    proof {
        lemma_odd_part(x as nat);
        lemma_odd_part(y as nat);
        lemma_odd_part(z as nat);
        lemma_gcd_of3_perm(ox, oy, oz, a, b, c);
        lemma_pot_split(x as nat, y as nat);
        lemma_pot_split(gxy, z as nat);
        lemma_pot_split(gcd(gxy, z as nat), 0);
    }
    let g = reduce3(a, b, c);
    g * s
}

/// GCD of four working values.
pub fn gcd_wide4(x: u128, y: u128, z: u128, w: u128) -> (r: u128)
    ensures
        r == gcd_of4(x as nat, y as nat, z as nat, w as nat),
{
    let s = min4(expot(x), expot(y), expot(z), expot(w));
    let ox = unpot(x);
    let oy = unpot(y);
    let oz = unpot(z);
    let ow = unpot(w);
    let (a, b, c, d) = sort4(ox, oy, oz, ow);
    let ghost gxy = gcd(x as nat, y as nat);
    let ghost gxyz = gcd(gxy, z as nat);
    proof {
        lemma_odd_part(x as nat);
        lemma_odd_part(y as nat);
        lemma_odd_part(z as nat);
        lemma_odd_part(w as nat);
        lemma_gcd_of4_perm(ox, oy, oz, ow, a, b, c, d);
        lemma_pot_split(x as nat, y as nat);
        lemma_pot_split(z as nat, w as nat);
        lemma_pot_split(gxy, z as nat);
        lemma_pot_split(gxyz, w as nat);
        lemma_pot_split(gcd(gxyz, w as nat), 0);
    }
    let g = reduce4(a, b, c, d);
    g * s
}

/// LCM of two working values whose product fits.
pub fn lcm_wide(x: u128, y: u128) -> (r: u128)
    requires
        x * y <= u128::MAX,
    ensures
        r == lcm(x as nat, y as nat),
{
    let s = max2(expot(x), expot(y));
    let ox = unpot(x);
    let oy = unpot(y);
    let (a, b) = sort2(ox, oy);
    proof {
        lemma_odd_part(x as nat);
        lemma_odd_part(y as nat);
        lemma_gcd_comm(ox as nat, oy as nat);
        lemma_pot_split(x as nat, y as nat);
        assert(a * b == ox * oy) by (nonlinear_arith)
            requires
                (a == ox && b == oy) || (a == oy && b == ox),
        ;
        if x == 0 || y == 0 {
            assert(ox * oy == 0) by (nonlinear_arith)
                requires
                    ox == 0 || oy == 0,
            ;
            assert(a * b * s == 0) by (nonlinear_arith)
                requires
                    a * b == 0,
            ;
        } else {
            let px = two_part(x as nat);
            let py = two_part(y as nat);
            let m = if px <= py { px } else { py };
            assert(px * py == m * s) by (nonlinear_arith)
                requires
                    (m == px && s == py) || (m == py && s == px),
            ;
            assert(x * y == m * (ox * oy * s)) by (nonlinear_arith)
                requires
                    x == px * ox,
                    y == py * oy,
                    px * py == m * s,
            ;
            assert(ox * oy * s <= x * y) by (nonlinear_arith)
                requires
                    x * y == m * (ox * oy * s),
                    m >= 1,
            ;
            assert(a * b <= a * b * s && a * b * s == ox * oy * s) by (nonlinear_arith)
                requires
                    a * b == ox * oy,
                    s >= 1,
            ;
        }
    }
    let l = a * b * s;
    let g = reduce2(a, b);
    proof {
        if x != 0 && y != 0 {
            let px = two_part(x as nat);
            let py = two_part(y as nat);
            let m = if px <= py { px } else { py };
            lemma_pot_split(gcd(x as nat, y as nat), 0);
            lemma_gcd_bound(ox as nat, oy as nat);
            lemma_gcd_divides(ox as nat, oy as nat);
            let t = choose|t: nat| #[trigger] (g * t) == ox;
            let q = t * oy * s;
            assert(l == g * q) by (nonlinear_arith)
                requires
                    l == ox * oy * s,
                    g * t == ox,
                    q == t * oy * s,
            ;
            assert(x * y == (m * g) * q) by (nonlinear_arith)
                requires
                    x * y == m * (ox * oy * s),
                    l == ox * oy * s,
                    l == g * q,
            ;
            assert(gcd(x as nat, y as nat) == m * g) by (nonlinear_arith)
                requires
                    gcd(x as nat, y as nat) == g * m,
            ;
            assert(m * g > 0) by (nonlinear_arith)
                requires
                    m >= 1,
                    g >= 1,
            ;
            vstd::arithmetic::div_mod::lemma_div_multiples_vanish(q as int, (m * g) as int);
            vstd::arithmetic::div_mod::lemma_div_multiples_vanish(q as int, g as int);
            assert(lcm(x as nat, y as nat) == q);
            assert(g == 1 ==> l == q) by (nonlinear_arith)
                requires
                    l == g * q,
            ;
        }
    }
    if g <= 1 {
        l
    } else {
        l / g
    }
}

} // verus!
