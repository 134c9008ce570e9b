//! Greatest common divisor and least common multiple of two, three, four or
//! any number of integers, by the binary (Stein's) algorithm: factors of two
//! are split off once, and the odd parts are reduced by subtraction alone.
use vstd::prelude::*;

pub mod arith;
pub mod binary;
pub mod util;

pub use util::{iabs, uabs, UAbs, Unsigned};

use arith::{
    abs, gcd, gcd_of3, gcd_of4, gcd_seq, lcm, lemma_gcd_le, lemma_gcd_seq_first, lemma_gcd_seq_le,
    lemma_gcd_seq_one, lemma_gcd_seq_step, lemma_gcd_seq_swap, lemma_lcm_le, lemma_odd_part,
    lemma_total_update, odd_or_zero, odd_part, odd_parts, total,
};
use binary::{
    expot, gcd_wide2, gcd_wide3, gcd_wide4, lcm_wide, lemma_gcd_seq_odd, lemma_or_pot, lemma_pot_split,
    pot_of, unpot,
};

verus! {

/// GCD of 2 arguments.
pub fn gcd2<T: UAbs<U>, U: Unsigned>(a: T, b: T) -> (r: U)
    ensures
        r.val() == gcd(abs(a.as_int()), abs(b.as_int())),
{
    let x = uabs(a);
    let y = uabs(b);
    proof {
        U::lemma_top(x);
        U::lemma_top(y);
        lemma_gcd_le(x.val(), y.val(), U::top());
    }
    U::from_wide(gcd_wide2(x.to_wide(), y.to_wide()))
}

/// GCD of 3 arguments.
pub fn gcd3<T: UAbs<U>, U: Unsigned>(a: T, b: T, c: T) -> (r: U)
    ensures
        r.val() == gcd_of3(abs(a.as_int()), abs(b.as_int()), abs(c.as_int())),
{
    let x = uabs(a);
    let y = uabs(b);
    let z = uabs(c);
    proof {
        U::lemma_top(x);
        U::lemma_top(y);
        U::lemma_top(z);
        lemma_gcd_le(x.val(), y.val(), U::top());
        lemma_gcd_le(gcd(x.val(), y.val()), z.val(), U::top());
    }
    U::from_wide(gcd_wide3(x.to_wide(), y.to_wide(), z.to_wide()))
}

/// GCD of 4 arguments.
pub fn gcd4<T: UAbs<U>, U: Unsigned>(a: T, b: T, c: T, d: T) -> (r: U)
    ensures
        r.val() == gcd_of4(abs(a.as_int()), abs(b.as_int()), abs(c.as_int()), abs(d.as_int())),
{
    let x = uabs(a);
    let y = uabs(b);
    let z = uabs(c);
    let w = uabs(d);
    proof {
        U::lemma_top(x);
        U::lemma_top(y);
        U::lemma_top(z);
        U::lemma_top(w);
        lemma_gcd_le(x.val(), y.val(), U::top());
        lemma_gcd_le(gcd(x.val(), y.val()), z.val(), U::top());
        lemma_gcd_le(gcd_of3(x.val(), y.val(), z.val()), w.val(), U::top());
    }
    U::from_wide(gcd_wide4(x.to_wide(), y.to_wide(), z.to_wide(), w.to_wide()))
}

/// LCM of 2 arguments, for arguments whose product fits the result type.
pub fn lcm2<T: UAbs<U>, U: Unsigned>(a: T, b: T) -> (r: U)
    requires
        abs(a.as_int()) * abs(b.as_int()) <= U::top(),
    ensures
        r.val() == lcm(abs(a.as_int()), abs(b.as_int())),
{
    let x = uabs(a);
    let y = uabs(b);
    proof {
        U::lemma_top(x);
        lemma_lcm_le(x.val(), y.val());
    }
    U::from_wide(lcm_wide(x.to_wide(), y.to_wide()))
}

/// LCM of 3 arguments, folded pairwise: `lcm(lcm(a, b), c)`.
pub fn lcm3<T: UAbs<U>, U: Unsigned>(a: T, b: T, c: T) -> (r: U)
    requires
        abs(a.as_int()) * abs(b.as_int()) <= U::top(),
        lcm(abs(a.as_int()), abs(b.as_int())) * abs(c.as_int()) <= U::top(),
    ensures
        r.val() == lcm(lcm(abs(a.as_int()), abs(b.as_int())), abs(c.as_int())),
{
    let x = uabs(a);
    let y = uabs(b);
    let z = uabs(c);
    proof {
        U::lemma_top(x);
        lemma_lcm_le(x.val(), y.val());
        lemma_lcm_le(lcm(x.val(), y.val()), z.val());
    }
    let xy = lcm_wide(x.to_wide(), y.to_wide());
    U::from_wide(lcm_wide(xy, z.to_wide()))
}

/// LCM of 4 arguments, folded pairwise: `lcm(lcm(lcm(a, b), c), d)`.
pub fn lcm4<T: UAbs<U>, U: Unsigned>(a: T, b: T, c: T, d: T) -> (r: U)
    requires
        abs(a.as_int()) * abs(b.as_int()) <= U::top(),
        lcm(abs(a.as_int()), abs(b.as_int())) * abs(c.as_int()) <= U::top(),
        lcm(lcm(abs(a.as_int()), abs(b.as_int())), abs(c.as_int())) * abs(d.as_int())
            <= U::top(),
    ensures
        r.val() == lcm(
            lcm(lcm(abs(a.as_int()), abs(b.as_int())), abs(c.as_int())),
            abs(d.as_int()),
        ),
{
    let x = uabs(a);
    let y = uabs(b);
    let z = uabs(c);
    let w = uabs(d);
    proof {
        U::lemma_top(x);
        lemma_lcm_le(x.val(), y.val());
        lemma_lcm_le(lcm(x.val(), y.val()), z.val());
        lemma_lcm_le(lcm(lcm(x.val(), y.val()), z.val()), w.val());
    }
    let xy = lcm_wide(x.to_wide(), y.to_wide());
    let xyz = lcm_wide(xy, z.to_wide());
    U::from_wide(lcm_wide(xyz, w.to_wide()))
}

/// Absolute values of a sequence of integers.
pub open spec fn mags<T: UAbs<U>, U: Unsigned>(s: Seq<T>) -> Seq<nat> {
    Seq::new(s.len(), |i: int| abs(s[i].as_int()))
}

proof fn lemma_mags_update<T: UAbs<U>, U: Unsigned>(s: Seq<T>, j: int, v: T)
    requires
        0 <= j < s.len(),
    ensures
        mags::<T, U>(s.update(j, v)) == mags::<T, U>(s).update(j, abs(v.as_int())),
{
    assert(mags::<T, U>(s.update(j, v)) =~= mags::<T, U>(s).update(j, abs(v.as_int())));
}

/// Reorders `vec` so that absolute values descend.
fn sort_desc<T: UAbs<U>, U: Unsigned>(vec: &mut [T])
    requires
        forall|j: int|
            0 <= j < old(vec)@.len() ==> odd_or_zero(#[trigger] mags::<T, U>(old(vec)@)[j])
                && mags::<T, U>(old(vec)@)[j] <= T::mag_max(),
    ensures
        final(vec)@.len() == old(vec)@.len(),
        forall|p: int, q: int|
            0 <= p < q < final(vec)@.len() ==> mags::<T, U>(final(vec)@)[p] >= mags::<T, U>(
                final(vec)@,
            )[q],
        gcd_seq(mags::<T, U>(final(vec)@)) == gcd_seq(mags::<T, U>(old(vec)@)),
        total(mags::<T, U>(final(vec)@)) == total(mags::<T, U>(old(vec)@)),
        forall|j: int|
            0 <= j < final(vec)@.len() ==> odd_or_zero(#[trigger] mags::<T, U>(final(vec)@)[j])
                && mags::<T, U>(final(vec)@)[j] <= T::mag_max(),
{
    let n = vec.len();
    let mut i: usize = 0;
    while i < n
        invariant
            vec@.len() == n,
            n == old(vec)@.len(),
            0 <= i <= n,
            forall|p: int, q: int|
                0 <= p < i && p < q < n ==> mags::<T, U>(vec@)[p] >= mags::<T, U>(vec@)[q],
            gcd_seq(mags::<T, U>(vec@)) == gcd_seq(mags::<T, U>(old(vec)@)),
            total(mags::<T, U>(vec@)) == total(mags::<T, U>(old(vec)@)),
            forall|j: int|
                0 <= j < n ==> odd_or_zero(#[trigger] mags::<T, U>(vec@)[j]) && mags::<T, U>(
                    vec@,
                )[j] <= T::mag_max(),
        decreases n - i,
    {
        let mut best = i;
        let mut j = i + 1;
        while j < n
            invariant
                vec@.len() == n,
                i <= best < j <= n,
                i < n,
                forall|q: int| i <= q < j ==> mags::<T, U>(vec@)[best as int] >= mags::<T, U>(vec@)[q],
            decreases n - j,
        {
            if vec[j].uabs().to_wide() > vec[best].uabs().to_wide() {
                best = j;
            }
            j += 1;
        }
        let ghost before = vec@;
        let ghost m = mags::<T, U>(before);
        let t = vec[i];
        let u = vec[best];
        vec[i] = u;
        vec[best] = t;
        proof {
            assert(vec@ == before.update(i as int, u).update(best as int, t));
            lemma_mags_update::<T, U>(before, i as int, u);
            lemma_mags_update::<T, U>(before.update(i as int, u), best as int, t);
            assert(mags::<T, U>(vec@) == m.update(i as int, m[best as int]).update(best as int, m[i as int]));
            lemma_gcd_seq_swap(m, i as int, best as int);
            lemma_total_update(m, i as int, m[best as int]);
            lemma_total_update(m.update(i as int, m[best as int]), best as int, m[i as int]);
        }
        i += 1;
    }
}

/// GCD of N arguments. `vec` serves as scratch space: its elements are left
/// in an unspecified order and form, and its length is kept.
pub fn gcdn<T: UAbs<U>, U: Unsigned>(vec: &mut [T]) -> (r: U)
    ensures
        final(vec)@.len() == old(vec)@.len(),
        old(vec)@.len() == 0 ==> r.val() == 1,
        old(vec)@.len() > 0 ==> r.val() == gcd_seq(mags::<T, U>(old(vec)@)),
{
    let n = vec.len();
    if n == 0 {
        proof {
            U::lemma_top_range();
        }
        return U::from_wide(1);
    }
    if n == 1 {
        proof {
            let m = mags::<T, U>(vec@);
            assert(m.drop_last() =~= Seq::<nat>::empty());
            assert(gcd_seq(m.drop_last()) == 0);
            assert(gcd_seq(m) == gcd(0, m[0]));
        }
        return vec[0].uabs();
    }
    let ghost m0 = mags::<T, U>(vec@);
    let ghost g0 = gcd_seq(m0);
    proof {
        U::lemma_top_range();
        assert forall|j: int| 0 <= j < n implies #[trigger] m0[j] <= U::top() by {
            T::lemma_bounds(vec@[j]);
        }
        lemma_gcd_seq_le(m0, U::top());
        lemma_gcd_seq_odd(m0);
        lemma_pot_split(g0, 0);
    }
    // A one anywhere makes the gcd one; meanwhile the bits of all values are
    // gathered, whose lowest set bit is the shared power of two.
    let mut or: u128 = 0;
    let mut i: usize = 0;
    while i < n
        invariant
            vec@.len() == n,
            vec@ == old(vec)@,
            m0 == mags::<T, U>(vec@),
            n == m0.len(),
            0 <= i <= n,
            forall|j: int| 0 <= j < n ==> #[trigger] m0[j] <= U::top(),
            1 <= U::top() <= u128::MAX,
            pot_of(or as nat) == pot_of(gcd_seq(m0.take(i as int))),
            gcd_seq(m0.take(i as int)) <= u128::MAX,
        decreases n - i,
    {
        let x = vec[i].uabs().to_wide();
        if x == 1 {
            proof {
                lemma_gcd_seq_one(m0, i as int);
            }
            return U::from_wide(1);
        }
        proof {
            assert(m0.take(i + 1).drop_last() =~= m0.take(i as int));
            lemma_pot_split(gcd_seq(m0.take(i as int)), x as nat);
            lemma_or_pot(or, x);
        }
        or = or | x;
        i += 1;
    }
    proof {
        assert(m0.take(n as int) =~= m0);
    }
    let s = expot(or);
    // Only the odd parts remain.
    let mut i: usize = 0;
    while i < n
        invariant
            vec@.len() == n,
            n == m0.len(),
            0 <= i <= n,
            forall|j: int| 0 <= j < i ==> #[trigger] mags::<T, U>(vec@)[j] == odd_part(m0[j]),
            forall|j: int| i <= j < n ==> #[trigger] vec@[j] == old(vec)@[j],
            m0 == mags::<T, U>(old(vec)@),
            forall|j: int| 0 <= j < n ==> #[trigger] m0[j] <= U::top(),
            U::top() <= u128::MAX,
            s == pot_of(g0),
            g0 == gcd_seq(m0),
            g0 <= U::top(),
            odd_part(g0) == gcd_seq(odd_parts(m0)),
            g0 == odd_part(g0) * pot_of(g0),
        decreases n - i,
    {
        let ghost before = vec@;
        proof {
            T::lemma_bounds(vec@[i as int]);
        }
        let o = unpot(vec[i].uabs().to_wide());
        proof {
            lemma_odd_part(m0[i as int]);
            T::lemma_cast(o as nat);
        }
        vec[i] = T::iabs(U::from_wide(o));
        proof {
            lemma_mags_update::<T, U>(before, i as int, vec@[i as int]);
        }
        if o == 1 {
            proof {
                assert(odd_parts(m0)[i as int] == 1);
                lemma_gcd_seq_one(odd_parts(m0), i as int);
                assert(g0 == pot_of(g0)) by (nonlinear_arith)
                    requires
                        g0 == odd_part(g0) * pot_of(g0),
                        odd_part(g0) == 1,
                ;
            }
            return U::from_wide(s);
        }
        i += 1;
    }
    proof {
        assert(mags::<T, U>(vec@) =~= odd_parts(m0));
        assert forall|j: int| 0 <= j < n implies odd_or_zero(#[trigger] mags::<T, U>(vec@)[j])
            && mags::<T, U>(vec@)[j] <= T::mag_max() by {
            lemma_odd_part(m0[j]);
            T::lemma_bounds(old(vec)@[j]);
        }
    }
    let ghost target = odd_part(g0);
    // Subtract neighbours in descending order until a zero follows the lead.
    loop
        invariant
            vec@.len() == n,
            n >= 2,
            gcd_seq(mags::<T, U>(vec@)) == target,
            forall|j: int|
                0 <= j < n ==> odd_or_zero(#[trigger] mags::<T, U>(vec@)[j]) && mags::<T, U>(
                    vec@,
                )[j] <= T::mag_max(),
            s == pot_of(g0),
            g0 == target * s,
            g0 <= U::top(),
            U::top() <= u128::MAX,
            n == old(vec)@.len(),
            g0 == gcd_seq(mags::<T, U>(old(vec)@)),
        decreases total(mags::<T, U>(vec@)),
    {
        sort_desc(vec);
        let ghost o = mags::<T, U>(vec@);
        let mut i: usize = 1;
        let mut stop = false;
        while i < n && !stop
            invariant
                vec@.len() == n,
                n >= 2,
                1 <= i <= n,
                stop ==> i >= 2,
                o.len() == n,
                forall|p: int, q: int| 0 <= p < q < n ==> o[p] >= o[q],
                forall|j: int| i - 1 <= j < n ==> #[trigger] mags::<T, U>(vec@)[j] == o[j],
                gcd_seq(mags::<T, U>(vec@)) == target,
                gcd_seq(o) == target,
                forall|j: int|
                    0 <= j < n ==> odd_or_zero(#[trigger] mags::<T, U>(vec@)[j]) && mags::<T, U>(
                        vec@,
                    )[j] <= T::mag_max(),
                total(mags::<T, U>(vec@)) <= total(o),
                i >= 2 ==> total(mags::<T, U>(vec@)) < total(o),
                s == pot_of(g0),
                g0 == target * s,
                g0 <= U::top(),
                U::top() <= u128::MAX,
                n == old(vec)@.len(),
                g0 == gcd_seq(mags::<T, U>(old(vec)@)),
            decreases n - i + if stop { 0int } else { 1int },
        {
            let x = vec[i].uabs().to_wide();
            if x == 0 {
                if i == 1 {
                    let lead = vec[0].uabs().to_wide();
                    proof {
                        assert(mags::<T, U>(vec@)[1] == x);
                        assert(mags::<T, U>(vec@)[0] == lead);
                        assert(o[1] == 0);
                        assert forall|j: int| 1 <= j < o.len() implies o[j] == 0 by {
                            assert(o[1] >= o[j]);
                        }
                        lemma_gcd_seq_first(o);
                        assert(lead * s == g0);
                    }
                    return U::from_wide(lead * s);
                }
                stop = true;
            } else {
                let ghost before = vec@;
                let ghost c = mags::<T, U>(vec@);
                let p = vec[i - 1].uabs().to_wide();
                proof {
                    assert(mags::<T, U>(vec@)[i - 1] == p);
                    assert(mags::<T, U>(vec@)[i as int] == x);
                    assert(o[i - 1] >= o[i as int]);
                }
                let y = unpot(p - x);
                proof {
                    lemma_odd_part((p - x) as nat);
                    lemma_gcd_seq_step(c, i - 1);
                    lemma_total_update(c, i - 1, y as nat);
                    T::lemma_bounds(vec@[i - 1]);
                    T::lemma_cast(y as nat);
                    U::lemma_top_range();
                }
                vec[i - 1] = T::iabs(U::from_wide(y));
                proof {
                    lemma_mags_update::<T, U>(before, i - 1, vec@[i - 1]);
                }
                i += 1;
            }
        }
    }
}

} // verus!
