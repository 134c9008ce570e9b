//! The integer types the library works on: each unsigned type as a working
//! value, and the pairing of every integer type with the unsigned type of the
//! same width that holds its absolute value.
use vstd::prelude::*;
use crate::arith::abs;

verus! {

/// An unsigned machine integer used as a working value and as a result.
pub trait Unsigned: Copy + Sized {
    /// The number this value stands for.
    spec fn val(&self) -> nat;

    /// The largest value of the type.
    spec fn top() -> nat;

    proof fn lemma_top(x: Self)
        ensures
            x.val() <= Self::top(),
            1 <= Self::top() <= u128::MAX,
    ;

    proof fn lemma_top_range()
        ensures
            1 <= Self::top() <= u128::MAX,
    ;

    /// Widens to 128 bits.
    fn to_wide(self) -> (r: u128)
        ensures
            r == self.val(),
    ;

    /// Narrows a 128-bit value that fits.
    fn from_wide(x: u128) -> (r: Self)
        requires
            x <= Self::top(),
        ensures
            r.val() == x,
    ;
}

/// Integer type with signed and unsigned variants of the same bit width.
pub trait UAbs<U: Unsigned>: Copy + Sized {
    /// The integer this value stands for.
    spec fn as_int(&self) -> int;

    /// The largest absolute value of the type.
    spec fn mag_max() -> nat;

    /// The integer that `iabs` makes of the unsigned value `u`: `u` itself
    /// where it fits, else `u` wrapped around the width of the type.
    spec fn cast(u: nat) -> int;

    proof fn lemma_bounds(x: Self)
        ensures
            abs(x.as_int()) <= Self::mag_max(),
            Self::mag_max() <= U::top(),
    ;

    proof fn lemma_cast(u: nat)
        requires
            u <= Self::mag_max(),
        ensures
            abs(Self::cast(u)) == u,
    ;

    /// Unsigned absolute value of the argument.
    fn uabs(self) -> (r: U)
        ensures
            r.val() == abs(self.as_int()),
    ;

    /// Signed absolute value of the argument.
    fn iabs(a: U) -> (r: Self)
        ensures
            r.as_int() == Self::cast(a.val()),
    ;
}

impl Unsigned for u8 {
    open spec fn val(&self) -> nat {
        *self as nat
    }

    open spec fn top() -> nat {
        u8::MAX as nat
    }

    proof fn lemma_top(x: Self) {
    }

    proof fn lemma_top_range() {
    }

    fn to_wide(self) -> (r: u128) {
        self as u128
    }

    fn from_wide(x: u128) -> (r: Self) {
        x as u8
    }
}

impl Unsigned for u16 {
    open spec fn val(&self) -> nat {
        *self as nat
    }

    open spec fn top() -> nat {
        u16::MAX as nat
    }

    proof fn lemma_top(x: Self) {
    }

    proof fn lemma_top_range() {
    }

    fn to_wide(self) -> (r: u128) {
        self as u128
    }

    fn from_wide(x: u128) -> (r: Self) {
        x as u16
    }
}

impl Unsigned for u32 {
    open spec fn val(&self) -> nat {
        *self as nat
    }

    open spec fn top() -> nat {
        u32::MAX as nat
    }

    proof fn lemma_top(x: Self) {
    }

    proof fn lemma_top_range() {
    }

    fn to_wide(self) -> (r: u128) {
        self as u128
    }

    fn from_wide(x: u128) -> (r: Self) {
        x as u32
    }
}

impl Unsigned for u64 {
    open spec fn val(&self) -> nat {
        *self as nat
    }

    open spec fn top() -> nat {
        u64::MAX as nat
    }

    proof fn lemma_top(x: Self) {
    }

    proof fn lemma_top_range() {
    }

    fn to_wide(self) -> (r: u128) {
        self as u128
    }

    fn from_wide(x: u128) -> (r: Self) {
        x as u64
    }
}

impl Unsigned for u128 {
    open spec fn val(&self) -> nat {
        *self as nat
    }

    open spec fn top() -> nat {
        u128::MAX as nat
    }

    proof fn lemma_top(x: Self) {
    }

    proof fn lemma_top_range() {
    }

    fn to_wide(self) -> (r: u128) {
        self as u128
    }

    fn from_wide(x: u128) -> (r: Self) {
        x as u128
    }
}

impl Unsigned for usize {
    open spec fn val(&self) -> nat {
        *self as nat
    }

    open spec fn top() -> nat {
        usize::MAX as nat
    }

    proof fn lemma_top(x: Self) {
    }

    proof fn lemma_top_range() {
    }

    fn to_wide(self) -> (r: u128) {
        self as u128
    }

    fn from_wide(x: u128) -> (r: Self) {
        x as usize
    }
}

impl UAbs<u8> for i8 {
    open spec fn as_int(&self) -> int {
        *self as int
    }

    open spec fn mag_max() -> nat {
        0x80
    }

    open spec fn cast(u: nat) -> int {
        if u <= 0x7f { u as int } else { u - 0x100 }
    }

    proof fn lemma_bounds(x: Self) {
    }

    proof fn lemma_cast(u: nat) {
    }

    fn uabs(self) -> (r: u8) {
        if self >= 0 {
            self as u8
        } else if self == i8::MIN {
            0x80
        } else {
            (-self) as u8
        }
    }

    fn iabs(a: u8) -> (r: Self) {
        if a <= 0x7f {
            a as i8
        } else {
            ((a - 0x80) as i8) + i8::MIN
        }
    }
}

impl UAbs<u16> for i16 {
    open spec fn as_int(&self) -> int {
        *self as int
    }

    open spec fn mag_max() -> nat {
        0x8000
    }

    open spec fn cast(u: nat) -> int {
        if u <= 0x7fff { u as int } else { u - 0x10000 }
    }

    proof fn lemma_bounds(x: Self) {
    }

    proof fn lemma_cast(u: nat) {
    }

    fn uabs(self) -> (r: u16) {
        if self >= 0 {
            self as u16
        } else if self == i16::MIN {
            0x8000
        } else {
            (-self) as u16
        }
    }

    fn iabs(a: u16) -> (r: Self) {
        if a <= 0x7fff {
            a as i16
        } else {
            ((a - 0x8000) as i16) + i16::MIN
        }
    }
}

impl UAbs<u32> for i32 {
    open spec fn as_int(&self) -> int {
        *self as int
    }

    open spec fn mag_max() -> nat {
        0x80000000
    }

    open spec fn cast(u: nat) -> int {
        if u <= 0x7fffffff { u as int } else { u - 0x100000000 }
    }

    proof fn lemma_bounds(x: Self) {
    }

    proof fn lemma_cast(u: nat) {
    }

    fn uabs(self) -> (r: u32) {
        if self >= 0 {
            self as u32
        } else if self == i32::MIN {
            0x80000000
        } else {
            (-self) as u32
        }
    }

    fn iabs(a: u32) -> (r: Self) {
        if a <= 0x7fffffff {
            a as i32
        } else {
            ((a - 0x80000000) as i32) + i32::MIN
        }
    }
}

impl UAbs<u64> for i64 {
    open spec fn as_int(&self) -> int {
        *self as int
    }

    open spec fn mag_max() -> nat {
        0x8000000000000000
    }

    open spec fn cast(u: nat) -> int {
        if u <= 0x7fffffffffffffff { u as int } else { u - 0x10000000000000000 }
    }

    proof fn lemma_bounds(x: Self) {
    }

    proof fn lemma_cast(u: nat) {
    }

    fn uabs(self) -> (r: u64) {
        if self >= 0 {
            self as u64
        } else if self == i64::MIN {
            0x8000000000000000
        } else {
            (-self) as u64
        }
    }

    fn iabs(a: u64) -> (r: Self) {
        if a <= 0x7fffffffffffffff {
            a as i64
        } else {
            ((a - 0x8000000000000000) as i64) + i64::MIN
        }
    }
}

impl UAbs<u128> for i128 {
    open spec fn as_int(&self) -> int {
        *self as int
    }

    open spec fn mag_max() -> nat {
        0x80000000000000000000000000000000
    }

    open spec fn cast(u: nat) -> int {
        if u <= 0x7fffffffffffffffffffffffffffffff { u as int } else { u - 0x100000000000000000000000000000000 }
    }

    proof fn lemma_bounds(x: Self) {
    }

    proof fn lemma_cast(u: nat) {
    }

    fn uabs(self) -> (r: u128) {
        if self >= 0 {
            self as u128
        } else if self == i128::MIN {
            0x80000000000000000000000000000000
        } else {
            (-self) as u128
        }
    }

    fn iabs(a: u128) -> (r: Self) {
        if a <= 0x7fffffffffffffffffffffffffffffff {
            a as i128
        } else {
            ((a - 0x80000000000000000000000000000000) as i128) + i128::MIN
        }
    }
}

impl UAbs<usize> for isize {
    open spec fn as_int(&self) -> int {
        *self as int
    }

    open spec fn mag_max() -> nat {
        isize::MAX as nat + 1
    }

    open spec fn cast(u: nat) -> int {
        if u <= isize::MAX { u as int } else { u - usize::MAX - 1 }
    }

    proof fn lemma_bounds(x: Self) {
    }

    proof fn lemma_cast(u: nat) {
    }

    fn uabs(self) -> (r: usize) {
        if self >= 0 {
            self as usize
        } else if self == isize::MIN {
            (isize::MAX as usize) + 1
        } else {
            (-self) as usize
        }
    }

    fn iabs(a: usize) -> (r: Self) {
        if a <= isize::MAX as usize {
            a as isize
        } else {
            ((a - (isize::MAX as usize) - 1) as isize) + isize::MIN
        }
    }
}

impl UAbs<u8> for u8 {
    open spec fn as_int(&self) -> int {
        *self as int
    }

    open spec fn mag_max() -> nat {
        u8::MAX as nat
    }

    open spec fn cast(u: nat) -> int {
        u as int
    }

    proof fn lemma_bounds(x: Self) {
    }

    proof fn lemma_cast(u: nat) {
    }

    fn uabs(self) -> (r: u8) {
        self
    }

    fn iabs(a: u8) -> (r: Self) {
        a
    }
}

impl UAbs<u16> for u16 {
    open spec fn as_int(&self) -> int {
        *self as int
    }

    open spec fn mag_max() -> nat {
        u16::MAX as nat
    }

    open spec fn cast(u: nat) -> int {
        u as int
    }

    proof fn lemma_bounds(x: Self) {
    }

    proof fn lemma_cast(u: nat) {
    }

    fn uabs(self) -> (r: u16) {
        self
    }

    fn iabs(a: u16) -> (r: Self) {
        a
    }
}

impl UAbs<u32> for u32 {
    open spec fn as_int(&self) -> int {
        *self as int
    }

    open spec fn mag_max() -> nat {
        u32::MAX as nat
    }

    open spec fn cast(u: nat) -> int {
        u as int
    }

    proof fn lemma_bounds(x: Self) {
    }

    proof fn lemma_cast(u: nat) {
    }

    fn uabs(self) -> (r: u32) {
        self
    }

    fn iabs(a: u32) -> (r: Self) {
        a
    }
}

impl UAbs<u64> for u64 {
    open spec fn as_int(&self) -> int {
        *self as int
    }

    open spec fn mag_max() -> nat {
        u64::MAX as nat
    }

    open spec fn cast(u: nat) -> int {
        u as int
    }

    proof fn lemma_bounds(x: Self) {
    }

    proof fn lemma_cast(u: nat) {
    }

    fn uabs(self) -> (r: u64) {
        self
    }

    fn iabs(a: u64) -> (r: Self) {
        a
    }
}

impl UAbs<u128> for u128 {
    open spec fn as_int(&self) -> int {
        *self as int
    }

    open spec fn mag_max() -> nat {
        u128::MAX as nat
    }

    open spec fn cast(u: nat) -> int {
        u as int
    }

    proof fn lemma_bounds(x: Self) {
    }

    proof fn lemma_cast(u: nat) {
    }

    fn uabs(self) -> (r: u128) {
        self
    }

    fn iabs(a: u128) -> (r: Self) {
        a
    }
}

impl UAbs<usize> for usize {
    open spec fn as_int(&self) -> int {
        *self as int
    }

    open spec fn mag_max() -> nat {
        usize::MAX as nat
    }

    open spec fn cast(u: nat) -> int {
        u as int
    }

    proof fn lemma_bounds(x: Self) {
    }

    proof fn lemma_cast(u: nat) {
    }

    fn uabs(self) -> (r: usize) {
        self
    }

    fn iabs(a: usize) -> (r: Self) {
        a
    }
}

/// Unsigned absolute value of the argument; exact also for the most negative
/// value of a signed type.
pub fn uabs<T: UAbs<U>, U: Unsigned>(a: T) -> (r: U)
    ensures
        r.val() == abs(a.as_int()),
{
    a.uabs()
}

/// Signed absolute value of the argument: the unsigned value cast back to `T`,
/// which keeps it where it fits and wraps it otherwise.
pub fn iabs<T: UAbs<U>, U: Unsigned>(a: U) -> (r: T)
    ensures
        r.as_int() == T::cast(a.val()),
        a.val() <= T::mag_max() ==> abs(r.as_int()) == a.val(),
{
    proof {
        if a.val() <= T::mag_max() {
            T::lemma_cast(a.val());
        }
    }
    T::iabs(a)
}

} // verus!
