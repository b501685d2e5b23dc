//! The numeric element abstraction.
//!
//! Every engine is generic over one trait that exposes the arithmetic the
//! algorithms need, each operation paired with a specification function that
//! pins its value down exactly.  The integer implementations use wrapping
//! arithmetic, so every operation is total: no input can make an engine
//! panic.  Division by zero is defined to return zero; the one quotient that
//! overflows (the minimum value divided by minus one) wraps to the minimum
//! value, as the hardware operation does.

use vstd::prelude::*;

verus! {

/// Arithmetic interface of a tensor element: total operations with exact
/// specifications.
pub trait Element: Sized + Copy {
    /// Wrapping addition, as a specification value.
    spec fn add_s(self, o: Self) -> Self;

    /// Wrapping subtraction, as a specification value.
    spec fn sub_s(self, o: Self) -> Self;

    /// Wrapping multiplication, as a specification value.
    spec fn mul_s(self, o: Self) -> Self;

    /// Truncating division; zero when the divisor is zero, wrapping on the
    /// one overflowing quotient.
    spec fn div_s(self, o: Self) -> Self;

    /// The type's total order.
    spec fn le_s(self, o: Self) -> bool;

    /// The additive identity.
    spec fn zero_s() -> Self;

    /// The multiplicative identity.
    spec fn one_s() -> Self;

    /// The value a `usize` converts to, when it is representable.
    spec fn from_usize_s(n: usize) -> Option<Self>;

    /// The value as a `u32` exponent, when it is representable.
    spec fn to_u32_s(self) -> Option<u32>;

    fn add_e(self, o: Self) -> (r: Self)
        ensures
            r == self.add_s(o),
    ;

    fn sub_e(self, o: Self) -> (r: Self)
        ensures
            r == self.sub_s(o),
    ;

    fn mul_e(self, o: Self) -> (r: Self)
        ensures
            r == self.mul_s(o),
    ;

    fn div_e(self, o: Self) -> (r: Self)
        ensures
            r == self.div_s(o),
    ;

    fn le_e(self, o: Self) -> (r: bool)
        ensures
            r == self.le_s(o),
    ;

    fn zero_e() -> (r: Self)
        ensures
            r == Self::zero_s(),
    ;

    fn one_e() -> (r: Self)
        ensures
            r == Self::one_s(),
    ;

    fn from_usize_e(n: usize) -> (r: Option<Self>)
        ensures
            r == Self::from_usize_s(n),
    ;

    fn to_u32_e(self) -> (r: Option<u32>)
        ensures
            r == self.to_u32_s(),
    ;
}

/// Extra operations that only make sense on signed elements.
pub trait SignedElement: Element {
    /// Absolute value; the minimum value wraps to itself.
    spec fn abs_s(self) -> Self;

    /// Wrapping negation.
    spec fn neg_s(self) -> Self;

    /// The sign of the value: minus one, zero or one.
    spec fn signum_s(self) -> Self;

    fn abs_e(self) -> (r: Self)
        ensures
            r == self.abs_s(),
    ;

    fn neg_e(self) -> (r: Self)
        ensures
            r == self.neg_s(),
    ;

    fn signum_e(self) -> (r: Self)
        ensures
            r == self.signum_s(),
    ;
}

/// Iterated wrapping multiplication: `x` to the power `e`, folded from the
/// multiplicative identity.
pub open spec fn pow_s<T: Element>(x: T, e: nat) -> T
    decreases e,
{
    if e == 0 {
        T::one_s()
    } else {
        pow_s(x, (e - 1) as nat).mul_s(x)
    }
}

/// Integer power by repeated wrapping multiplication.
pub fn pow_e<T: Element>(x: T, e: u32) -> (r: T)
    ensures
        r == pow_s(x, e as nat),
{
    let mut r = T::one_e();
    let mut i: u32 = 0;
    while i < e
        invariant
            0 <= i <= e,
            r == pow_s(x, i as nat),
        decreases e - i,
    {
        r = r.mul_e(x);
        i += 1;
    }
    return r;
}

/// The two values differ by at most `delta` in the element order.
pub open spec fn within_s<T: Element>(a: T, b: T, delta: T) -> bool {
    if a.le_s(b) {
        b.sub_s(a).le_s(delta)
    } else {
        a.sub_s(b).le_s(delta)
    }
}

/// Tolerance comparison: the magnitude of the difference is at most `delta`.
pub fn within_e<T: Element>(a: T, b: T, delta: T) -> (r: bool)
    ensures
        r == within_s(a, b, delta),
{
    if a.le_e(b) {
        b.sub_e(a).le_e(delta)
    } else {
        a.sub_e(b).le_e(delta)
    }
}

impl Element for u8 {
    open spec fn add_s(self, o: u8) -> u8 {
        vstd::wrapping::u8_specs::wrapping_add(self, o)
    }

    open spec fn sub_s(self, o: u8) -> u8 {
        vstd::wrapping::u8_specs::wrapping_sub(self, o)
    }

    open spec fn mul_s(self, o: u8) -> u8 {
        vstd::wrapping::u8_specs::wrapping_mul(self, o)
    }

    open spec fn div_s(self, o: u8) -> u8 {
        if o == 0 {
            0
        } else {
            self / o
        }
    }

    open spec fn le_s(self, o: u8) -> bool {
        self <= o
    }

    open spec fn zero_s() -> u8 {
        0
    }

    open spec fn one_s() -> u8 {
        1
    }

    open spec fn to_u32_s(self) -> Option<u32> {
        Some(self as u32)
    }

    open spec fn from_usize_s(n: usize) -> Option<u8> {
        if n <= u8::MAX as usize {
            Some(n as u8)
        } else {
            None
        }
    }

    fn add_e(self, o: u8) -> u8 {
        self.wrapping_add(o)
    }

    fn sub_e(self, o: u8) -> u8 {
        self.wrapping_sub(o)
    }

    fn mul_e(self, o: u8) -> u8 {
        self.wrapping_mul(o)
    }

    fn div_e(self, o: u8) -> u8 {
        if o == 0 {
            0
        } else {
            self / o
        }
    }

    fn le_e(self, o: u8) -> bool {
        self <= o
    }

    fn zero_e() -> u8 {
        0
    }

    fn one_e() -> u8 {
        1
    }

    fn to_u32_e(self) -> Option<u32> {
        Some(self as u32)
    }

    fn from_usize_e(n: usize) -> Option<u8> {
        if n <= u8::MAX as usize {
            Some(n as u8)
        } else {
            None
        }
    }
}

impl Element for u16 {
    open spec fn add_s(self, o: u16) -> u16 {
        vstd::wrapping::u16_specs::wrapping_add(self, o)
    }

    open spec fn sub_s(self, o: u16) -> u16 {
        vstd::wrapping::u16_specs::wrapping_sub(self, o)
    }

    open spec fn mul_s(self, o: u16) -> u16 {
        vstd::wrapping::u16_specs::wrapping_mul(self, o)
    }

    open spec fn div_s(self, o: u16) -> u16 {
        if o == 0 {
            0
        } else {
            self / o
        }
    }

    open spec fn le_s(self, o: u16) -> bool {
        self <= o
    }

    open spec fn zero_s() -> u16 {
        0
    }

    open spec fn one_s() -> u16 {
        1
    }

    open spec fn to_u32_s(self) -> Option<u32> {
        Some(self as u32)
    }

    open spec fn from_usize_s(n: usize) -> Option<u16> {
        if n <= u16::MAX as usize {
            Some(n as u16)
        } else {
            None
        }
    }

    fn add_e(self, o: u16) -> u16 {
        self.wrapping_add(o)
    }

    fn sub_e(self, o: u16) -> u16 {
        self.wrapping_sub(o)
    }

    fn mul_e(self, o: u16) -> u16 {
        self.wrapping_mul(o)
    }

    fn div_e(self, o: u16) -> u16 {
        if o == 0 {
            0
        } else {
            self / o
        }
    }

    fn le_e(self, o: u16) -> bool {
        self <= o
    }

    fn zero_e() -> u16 {
        0
    }

    fn one_e() -> u16 {
        1
    }

    fn to_u32_e(self) -> Option<u32> {
        Some(self as u32)
    }

    fn from_usize_e(n: usize) -> Option<u16> {
        if n <= u16::MAX as usize {
            Some(n as u16)
        } else {
            None
        }
    }
}

impl Element for u32 {
    open spec fn add_s(self, o: u32) -> u32 {
        vstd::wrapping::u32_specs::wrapping_add(self, o)
    }

    open spec fn sub_s(self, o: u32) -> u32 {
        vstd::wrapping::u32_specs::wrapping_sub(self, o)
    }

    open spec fn mul_s(self, o: u32) -> u32 {
        vstd::wrapping::u32_specs::wrapping_mul(self, o)
    }

    open spec fn div_s(self, o: u32) -> u32 {
        if o == 0 {
            0
        } else {
            self / o
        }
    }

    open spec fn le_s(self, o: u32) -> bool {
        self <= o
    }

    open spec fn zero_s() -> u32 {
        0
    }

    open spec fn one_s() -> u32 {
        1
    }

    open spec fn to_u32_s(self) -> Option<u32> {
        Some(self)
    }

    open spec fn from_usize_s(n: usize) -> Option<u32> {
        if n as u64 <= u32::MAX as u64 {
            Some(n as u32)
        } else {
            None
        }
    }

    fn add_e(self, o: u32) -> u32 {
        self.wrapping_add(o)
    }

    fn sub_e(self, o: u32) -> u32 {
        self.wrapping_sub(o)
    }

    fn mul_e(self, o: u32) -> u32 {
        self.wrapping_mul(o)
    }

    fn div_e(self, o: u32) -> u32 {
        if o == 0 {
            0
        } else {
            self / o
        }
    }

    fn le_e(self, o: u32) -> bool {
        self <= o
    }

    fn zero_e() -> u32 {
        0
    }

    fn one_e() -> u32 {
        1
    }

    fn to_u32_e(self) -> Option<u32> {
        Some(self)
    }

    fn from_usize_e(n: usize) -> Option<u32> {
        if n as u64 <= u32::MAX as u64 {
            Some(n as u32)
        } else {
            None
        }
    }
}

impl Element for u64 {
    open spec fn add_s(self, o: u64) -> u64 {
        vstd::wrapping::u64_specs::wrapping_add(self, o)
    }

    open spec fn sub_s(self, o: u64) -> u64 {
        vstd::wrapping::u64_specs::wrapping_sub(self, o)
    }

    open spec fn mul_s(self, o: u64) -> u64 {
        vstd::wrapping::u64_specs::wrapping_mul(self, o)
    }

    open spec fn div_s(self, o: u64) -> u64 {
        if o == 0 {
            0
        } else {
            self / o
        }
    }

    open spec fn le_s(self, o: u64) -> bool {
        self <= o
    }

    open spec fn zero_s() -> u64 {
        0
    }

    open spec fn one_s() -> u64 {
        1
    }

    open spec fn to_u32_s(self) -> Option<u32> {
        if self <= u32::MAX as u64 {
            Some(self as u32)
        } else {
            None
        }
    }

    open spec fn from_usize_s(n: usize) -> Option<u64> {
        if n as u128 <= u64::MAX as u128 {
            Some(n as u64)
        } else {
            None
        }
    }

    fn add_e(self, o: u64) -> u64 {
        self.wrapping_add(o)
    }

    fn sub_e(self, o: u64) -> u64 {
        self.wrapping_sub(o)
    }

    fn mul_e(self, o: u64) -> u64 {
        self.wrapping_mul(o)
    }

    fn div_e(self, o: u64) -> u64 {
        if o == 0 {
            0
        } else {
            self / o
        }
    }

    fn le_e(self, o: u64) -> bool {
        self <= o
    }

    fn zero_e() -> u64 {
        0
    }

    fn one_e() -> u64 {
        1
    }

    fn to_u32_e(self) -> Option<u32> {
        if self <= u32::MAX as u64 {
            Some(self as u32)
        } else {
            None
        }
    }

    fn from_usize_e(n: usize) -> Option<u64> {
        if n as u128 <= u64::MAX as u128 {
            Some(n as u64)
        } else {
            None
        }
    }
}

impl Element for i8 {
    open spec fn add_s(self, o: i8) -> i8 {
        vstd::wrapping::i8_specs::wrapping_add(self, o)
    }

    open spec fn sub_s(self, o: i8) -> i8 {
        vstd::wrapping::i8_specs::wrapping_sub(self, o)
    }

    open spec fn mul_s(self, o: i8) -> i8 {
        vstd::wrapping::i8_specs::wrapping_mul(self, o)
    }

    open spec fn div_s(self, o: i8) -> i8 {
        if o == 0 {
            0
        } else {
            match self.checked_div(o) {
                Some(v) => v,
                None => i8::MIN,
            }
        }
    }

    open spec fn le_s(self, o: i8) -> bool {
        self <= o
    }

    open spec fn zero_s() -> i8 {
        0
    }

    open spec fn one_s() -> i8 {
        1
    }

    open spec fn to_u32_s(self) -> Option<u32> {
        if self >= 0 {
            Some(self as u32)
        } else {
            None
        }
    }

    open spec fn from_usize_s(n: usize) -> Option<i8> {
        if n <= i8::MAX as usize {
            Some(n as i8)
        } else {
            None
        }
    }

    fn add_e(self, o: i8) -> i8 {
        self.wrapping_add(o)
    }

    fn sub_e(self, o: i8) -> i8 {
        self.wrapping_sub(o)
    }

    fn mul_e(self, o: i8) -> i8 {
        self.wrapping_mul(o)
    }

    fn div_e(self, o: i8) -> i8 {
        if o == 0 {
            0
        } else {
            match self.checked_div(o) {
                Some(v) => v,
                None => i8::MIN,
            }
        }
    }

    fn le_e(self, o: i8) -> bool {
        self <= o
    }

    fn zero_e() -> i8 {
        0
    }

    fn one_e() -> i8 {
        1
    }

    fn to_u32_e(self) -> Option<u32> {
        if self >= 0 {
            Some(self as u32)
        } else {
            None
        }
    }

    fn from_usize_e(n: usize) -> Option<i8> {
        if n <= i8::MAX as usize {
            Some(n as i8)
        } else {
            None
        }
    }
}

impl SignedElement for i8 {
    open spec fn abs_s(self) -> i8 {
        if self < 0 {
            vstd::wrapping::i8_specs::wrapping_sub(0, self)
        } else {
            self
        }
    }

    open spec fn neg_s(self) -> i8 {
        vstd::wrapping::i8_specs::wrapping_sub(0, self)
    }

    open spec fn signum_s(self) -> i8 {
        if self < 0 {
            -1i8
        } else if self == 0 {
            0
        } else {
            1
        }
    }

    fn abs_e(self) -> i8 {
        if self < 0 {
            (0 as i8).wrapping_sub(self)
        } else {
            self
        }
    }

    fn neg_e(self) -> i8 {
        (0 as i8).wrapping_sub(self)
    }

    fn signum_e(self) -> i8 {
        if self < 0 {
            -1
        } else if self == 0 {
            0
        } else {
            1
        }
    }
}

impl Element for i16 {
    open spec fn add_s(self, o: i16) -> i16 {
        vstd::wrapping::i16_specs::wrapping_add(self, o)
    }

    open spec fn sub_s(self, o: i16) -> i16 {
        vstd::wrapping::i16_specs::wrapping_sub(self, o)
    }

    open spec fn mul_s(self, o: i16) -> i16 {
        vstd::wrapping::i16_specs::wrapping_mul(self, o)
    }

    open spec fn div_s(self, o: i16) -> i16 {
        if o == 0 {
            0
        } else {
            match self.checked_div(o) {
                Some(v) => v,
                None => i16::MIN,
            }
        }
    }

    open spec fn le_s(self, o: i16) -> bool {
        self <= o
    }

    open spec fn zero_s() -> i16 {
        0
    }

    open spec fn one_s() -> i16 {
        1
    }

    open spec fn to_u32_s(self) -> Option<u32> {
        if self >= 0 {
            Some(self as u32)
        } else {
            None
        }
    }

    open spec fn from_usize_s(n: usize) -> Option<i16> {
        if n <= i16::MAX as usize {
            Some(n as i16)
        } else {
            None
        }
    }

    fn add_e(self, o: i16) -> i16 {
        self.wrapping_add(o)
    }

    fn sub_e(self, o: i16) -> i16 {
        self.wrapping_sub(o)
    }

    fn mul_e(self, o: i16) -> i16 {
        self.wrapping_mul(o)
    }

    fn div_e(self, o: i16) -> i16 {
        if o == 0 {
            0
        } else {
            match self.checked_div(o) {
                Some(v) => v,
                None => i16::MIN,
            }
        }
    }

    fn le_e(self, o: i16) -> bool {
        self <= o
    }

    fn zero_e() -> i16 {
        0
    }

    fn one_e() -> i16 {
        1
    }

    fn to_u32_e(self) -> Option<u32> {
        if self >= 0 {
            Some(self as u32)
        } else {
            None
        }
    }

    fn from_usize_e(n: usize) -> Option<i16> {
        if n <= i16::MAX as usize {
            Some(n as i16)
        } else {
            None
        }
    }
}

impl SignedElement for i16 {
    open spec fn abs_s(self) -> i16 {
        if self < 0 {
            vstd::wrapping::i16_specs::wrapping_sub(0, self)
        } else {
            self
        }
    }

    open spec fn neg_s(self) -> i16 {
        vstd::wrapping::i16_specs::wrapping_sub(0, self)
    }

    open spec fn signum_s(self) -> i16 {
        if self < 0 {
            -1i16
        } else if self == 0 {
            0
        } else {
            1
        }
    }

    fn abs_e(self) -> i16 {
        if self < 0 {
            (0 as i16).wrapping_sub(self)
        } else {
            self
        }
    }

    fn neg_e(self) -> i16 {
        (0 as i16).wrapping_sub(self)
    }

    fn signum_e(self) -> i16 {
        if self < 0 {
            -1
        } else if self == 0 {
            0
        } else {
            1
        }
    }
}

impl Element for i32 {
    open spec fn add_s(self, o: i32) -> i32 {
        vstd::wrapping::i32_specs::wrapping_add(self, o)
    }

    open spec fn sub_s(self, o: i32) -> i32 {
        vstd::wrapping::i32_specs::wrapping_sub(self, o)
    }

    open spec fn mul_s(self, o: i32) -> i32 {
        vstd::wrapping::i32_specs::wrapping_mul(self, o)
    }

    open spec fn div_s(self, o: i32) -> i32 {
        if o == 0 {
            0
        } else {
            match self.checked_div(o) {
                Some(v) => v,
                None => i32::MIN,
            }
        }
    }

    open spec fn le_s(self, o: i32) -> bool {
        self <= o
    }

    open spec fn zero_s() -> i32 {
        0
    }

    open spec fn one_s() -> i32 {
        1
    }

    open spec fn to_u32_s(self) -> Option<u32> {
        if self >= 0 {
            Some(self as u32)
        } else {
            None
        }
    }

    open spec fn from_usize_s(n: usize) -> Option<i32> {
        if n as u64 <= i32::MAX as u64 {
            Some(n as i32)
        } else {
            None
        }
    }

    fn add_e(self, o: i32) -> i32 {
        self.wrapping_add(o)
    }

    fn sub_e(self, o: i32) -> i32 {
        self.wrapping_sub(o)
    }

    fn mul_e(self, o: i32) -> i32 {
        self.wrapping_mul(o)
    }

    fn div_e(self, o: i32) -> i32 {
        if o == 0 {
            0
        } else {
            match self.checked_div(o) {
                Some(v) => v,
                None => i32::MIN,
            }
        }
    }

    fn le_e(self, o: i32) -> bool {
        self <= o
    }

    fn zero_e() -> i32 {
        0
    }

    fn one_e() -> i32 {
        1
    }

    fn to_u32_e(self) -> Option<u32> {
        if self >= 0 {
            Some(self as u32)
        } else {
            None
        }
    }

    fn from_usize_e(n: usize) -> Option<i32> {
        if n as u64 <= i32::MAX as u64 {
            Some(n as i32)
        } else {
            None
        }
    }
}

impl SignedElement for i32 {
    open spec fn abs_s(self) -> i32 {
        if self < 0 {
            vstd::wrapping::i32_specs::wrapping_sub(0, self)
        } else {
            self
        }
    }

    open spec fn neg_s(self) -> i32 {
        vstd::wrapping::i32_specs::wrapping_sub(0, self)
    }

    open spec fn signum_s(self) -> i32 {
        if self < 0 {
            -1i32
        } else if self == 0 {
            0
        } else {
            1
        }
    }

    fn abs_e(self) -> i32 {
        if self < 0 {
            (0 as i32).wrapping_sub(self)
        } else {
            self
        }
    }

    fn neg_e(self) -> i32 {
        (0 as i32).wrapping_sub(self)
    }

    fn signum_e(self) -> i32 {
        if self < 0 {
            -1
        } else if self == 0 {
            0
        } else {
            1
        }
    }
}

impl Element for i64 {
    open spec fn add_s(self, o: i64) -> i64 {
        vstd::wrapping::i64_specs::wrapping_add(self, o)
    }

    open spec fn sub_s(self, o: i64) -> i64 {
        vstd::wrapping::i64_specs::wrapping_sub(self, o)
    }

    open spec fn mul_s(self, o: i64) -> i64 {
        vstd::wrapping::i64_specs::wrapping_mul(self, o)
    }

    open spec fn div_s(self, o: i64) -> i64 {
        if o == 0 {
            0
        } else {
            match self.checked_div(o) {
                Some(v) => v,
                None => i64::MIN,
            }
        }
    }

    open spec fn le_s(self, o: i64) -> bool {
        self <= o
    }

    open spec fn zero_s() -> i64 {
        0
    }

    open spec fn one_s() -> i64 {
        1
    }

    open spec fn to_u32_s(self) -> Option<u32> {
        if 0 <= self && self <= u32::MAX as i64 {
            Some(self as u32)
        } else {
            None
        }
    }

    open spec fn from_usize_s(n: usize) -> Option<i64> {
        if n as u128 <= i64::MAX as u128 {
            Some(n as i64)
        } else {
            None
        }
    }

    fn add_e(self, o: i64) -> i64 {
        self.wrapping_add(o)
    }

    fn sub_e(self, o: i64) -> i64 {
        self.wrapping_sub(o)
    }

    fn mul_e(self, o: i64) -> i64 {
        self.wrapping_mul(o)
    }

    fn div_e(self, o: i64) -> i64 {
        if o == 0 {
            0
        } else {
            match self.checked_div(o) {
                Some(v) => v,
                None => i64::MIN,
            }
        }
    }

    fn le_e(self, o: i64) -> bool {
        self <= o
    }

    fn zero_e() -> i64 {
        0
    }

    fn one_e() -> i64 {
        1
    }

    fn to_u32_e(self) -> Option<u32> {
        if 0 <= self && self <= u32::MAX as i64 {
            Some(self as u32)
        } else {
            None
        }
    }

    fn from_usize_e(n: usize) -> Option<i64> {
        if n as u128 <= i64::MAX as u128 {
            Some(n as i64)
        } else {
            None
        }
    }
}

impl SignedElement for i64 {
    open spec fn abs_s(self) -> i64 {
        if self < 0 {
            vstd::wrapping::i64_specs::wrapping_sub(0, self)
        } else {
            self
        }
    }

    open spec fn neg_s(self) -> i64 {
        vstd::wrapping::i64_specs::wrapping_sub(0, self)
    }

    open spec fn signum_s(self) -> i64 {
        if self < 0 {
            -1i64
        } else if self == 0 {
            0
        } else {
            1
        }
    }

    fn abs_e(self) -> i64 {
        if self < 0 {
            (0 as i64).wrapping_sub(self)
        } else {
            self
        }
    }

    fn neg_e(self) -> i64 {
        (0 as i64).wrapping_sub(self)
    }

    fn signum_e(self) -> i64 {
        if self < 0 {
            -1
        } else if self == 0 {
            0
        } else {
            1
        }
    }
}

} // verus!
