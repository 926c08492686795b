use vstd::prelude::*;

verus! {

/// Halving an integer value as Rust's division by two does: the quotient is
/// rounded toward zero, so `half_int(5) == 2` and `half_int(-5) == -2`.
pub open spec fn half_int(x: int) -> int {
    if x >= 0 {
        x / 2
    } else {
        -((-x) / 2)
    }
}

/// The requirement that a coordinate type can be halved exactly, with integer
/// division truncating toward zero.
pub trait Half: Sized {
    /// The value that [`Half::half`] returns, stated per implementing type.
    spec fn half_spec(&self) -> Self;

    fn half(&self) -> (r: Self)
        ensures
            r == self.half_spec(),
    ;
}

/// The requirement that a coordinate type has an absolute value.
///
/// `abs_ok` names the values whose absolute value the type can represent:
/// for a signed integer type everything but its minimum, for an unsigned
/// type every value.
pub trait Abs: Sized {
    /// The value that [`Abs::abs`] returns, stated per implementing type.
    spec fn abs_spec(&self) -> Self;

    /// Whether the absolute value of this value fits in the type.
    spec fn abs_ok(&self) -> bool;

    fn abs(&self) -> (r: Self)
        requires
            self.abs_ok(),
        ensures
            r == self.abs_spec(),
    ;
}

/// The requirement that a coordinate type can tell non-negative values apart
/// from negative ones.
pub trait NonNegative {
    /// The value that [`NonNegative::is_non_negative`] returns, stated per
    /// implementing type.
    spec fn non_negative_spec(&self) -> bool;

    fn is_non_negative(&self) -> (r: bool)
        ensures
            r == self.non_negative_spec(),
    ;
}

impl Half for i8 {
    open spec fn half_spec(&self) -> i8 {
        half_int(*self as int) as i8
    }

    fn half(&self) -> (r: i8) {
        *self / 2
    }
}

impl Half for i16 {
    open spec fn half_spec(&self) -> i16 {
        half_int(*self as int) as i16
    }

    fn half(&self) -> (r: i16) {
        *self / 2
    }
}

impl Half for i32 {
    open spec fn half_spec(&self) -> i32 {
        half_int(*self as int) as i32
    }

    fn half(&self) -> (r: i32) {
        *self / 2
    }
}

impl Half for i64 {
    open spec fn half_spec(&self) -> i64 {
        half_int(*self as int) as i64
    }

    fn half(&self) -> (r: i64) {
        *self / 2
    }
}

impl Half for i128 {
    open spec fn half_spec(&self) -> i128 {
        half_int(*self as int) as i128
    }

    fn half(&self) -> (r: i128) {
        *self / 2
    }
}

impl Half for isize {
    open spec fn half_spec(&self) -> isize {
        half_int(*self as int) as isize
    }

    fn half(&self) -> (r: isize) {
        *self / 2
    }
}

impl Half for u8 {
    open spec fn half_spec(&self) -> u8 {
        ((*self as int) / 2) as u8
    }

    fn half(&self) -> (r: u8) {
        *self / 2
    }
}

impl Half for u16 {
    open spec fn half_spec(&self) -> u16 {
        ((*self as int) / 2) as u16
    }

    fn half(&self) -> (r: u16) {
        *self / 2
    }
}

impl Half for u32 {
    open spec fn half_spec(&self) -> u32 {
        ((*self as int) / 2) as u32
    }

    fn half(&self) -> (r: u32) {
        *self / 2
    }
}

impl Half for u64 {
    open spec fn half_spec(&self) -> u64 {
        ((*self as int) / 2) as u64
    }

    fn half(&self) -> (r: u64) {
        *self / 2
    }
}

impl Half for u128 {
    open spec fn half_spec(&self) -> u128 {
        ((*self as int) / 2) as u128
    }

    fn half(&self) -> (r: u128) {
        *self / 2
    }
}

impl Half for usize {
    open spec fn half_spec(&self) -> usize {
        ((*self as int) / 2) as usize
    }

    fn half(&self) -> (r: usize) {
        *self / 2
    }
}

impl Abs for i8 {
    open spec fn abs_spec(&self) -> i8 {
        if *self < 0 {
            (-(*self as int)) as i8
        } else {
            *self
        }
    }

    open spec fn abs_ok(&self) -> bool {
        *self != i8::MIN
    }

    fn abs(&self) -> (r: i8) {
        if *self < 0 {
            -*self
        } else {
            *self
        }
    }
}

impl Abs for i16 {
    open spec fn abs_spec(&self) -> i16 {
        if *self < 0 {
            (-(*self as int)) as i16
        } else {
            *self
        }
    }

    open spec fn abs_ok(&self) -> bool {
        *self != i16::MIN
    }

    fn abs(&self) -> (r: i16) {
        if *self < 0 {
            -*self
        } else {
            *self
        }
    }
}

impl Abs for i32 {
    open spec fn abs_spec(&self) -> i32 {
        if *self < 0 {
            (-(*self as int)) as i32
        } else {
            *self
        }
    }

    open spec fn abs_ok(&self) -> bool {
        *self != i32::MIN
    }

    fn abs(&self) -> (r: i32) {
        if *self < 0 {
            -*self
        } else {
            *self
        }
    }
}

impl Abs for i64 {
    open spec fn abs_spec(&self) -> i64 {
        if *self < 0 {
            (-(*self as int)) as i64
        } else {
            *self
        }
    }

    open spec fn abs_ok(&self) -> bool {
        *self != i64::MIN
    }

    fn abs(&self) -> (r: i64) {
        if *self < 0 {
            -*self
        } else {
            *self
        }
    }
}

impl Abs for i128 {
    open spec fn abs_spec(&self) -> i128 {
        if *self < 0 {
            (-(*self as int)) as i128
        } else {
            *self
        }
    }

    open spec fn abs_ok(&self) -> bool {
        *self != i128::MIN
    }

    fn abs(&self) -> (r: i128) {
        if *self < 0 {
            -*self
        } else {
            *self
        }
    }
}

impl Abs for isize {
    open spec fn abs_spec(&self) -> isize {
        if *self < 0 {
            (-(*self as int)) as isize
        } else {
            *self
        }
    }

    open spec fn abs_ok(&self) -> bool {
        *self != isize::MIN
    }

    fn abs(&self) -> (r: isize) {
        if *self < 0 {
            -*self
        } else {
            *self
        }
    }
}

impl Abs for u8 {
    open spec fn abs_spec(&self) -> u8 {
        *self
    }

    open spec fn abs_ok(&self) -> bool {
        true
    }

    fn abs(&self) -> (r: u8) {
        *self
    }
}

impl Abs for u16 {
    open spec fn abs_spec(&self) -> u16 {
        *self
    }

    open spec fn abs_ok(&self) -> bool {
        true
    }

    fn abs(&self) -> (r: u16) {
        *self
    }
}

impl Abs for u32 {
    open spec fn abs_spec(&self) -> u32 {
        *self
    }

    open spec fn abs_ok(&self) -> bool {
        true
    }

    fn abs(&self) -> (r: u32) {
        *self
    }
}

impl Abs for u64 {
    open spec fn abs_spec(&self) -> u64 {
        *self
    }

    open spec fn abs_ok(&self) -> bool {
        true
    }

    fn abs(&self) -> (r: u64) {
        *self
    }
}

impl Abs for u128 {
    open spec fn abs_spec(&self) -> u128 {
        *self
    }

    open spec fn abs_ok(&self) -> bool {
        true
    }

    fn abs(&self) -> (r: u128) {
        *self
    }
}

impl NonNegative for i8 {
    open spec fn non_negative_spec(&self) -> bool {
        *self >= 0
    }

    fn is_non_negative(&self) -> (r: bool) {
        *self >= 0
    }
}

impl NonNegative for i16 {
    open spec fn non_negative_spec(&self) -> bool {
        *self >= 0
    }

    fn is_non_negative(&self) -> (r: bool) {
        *self >= 0
    }
}

impl NonNegative for i32 {
    open spec fn non_negative_spec(&self) -> bool {
        *self >= 0
    }

    fn is_non_negative(&self) -> (r: bool) {
        *self >= 0
    }
}

impl NonNegative for i64 {
    open spec fn non_negative_spec(&self) -> bool {
        *self >= 0
    }

    fn is_non_negative(&self) -> (r: bool) {
        *self >= 0
    }
}

impl NonNegative for i128 {
    open spec fn non_negative_spec(&self) -> bool {
        *self >= 0
    }

    fn is_non_negative(&self) -> (r: bool) {
        *self >= 0
    }
}

impl NonNegative for isize {
    open spec fn non_negative_spec(&self) -> bool {
        *self >= 0
    }

    fn is_non_negative(&self) -> (r: bool) {
        *self >= 0
    }
}

impl NonNegative for u8 {
    open spec fn non_negative_spec(&self) -> bool {
        true
    }

    fn is_non_negative(&self) -> (r: bool) {
        true
    }
}

impl NonNegative for u16 {
    open spec fn non_negative_spec(&self) -> bool {
        true
    }

    fn is_non_negative(&self) -> (r: bool) {
        true
    }
}

impl NonNegative for u32 {
    open spec fn non_negative_spec(&self) -> bool {
        true
    }

    fn is_non_negative(&self) -> (r: bool) {
        true
    }
}

impl NonNegative for u64 {
    open spec fn non_negative_spec(&self) -> bool {
        true
    }

    fn is_non_negative(&self) -> (r: bool) {
        true
    }
}

impl NonNegative for u128 {
    open spec fn non_negative_spec(&self) -> bool {
        true
    }

    fn is_non_negative(&self) -> (r: bool) {
        true
    }
}

impl NonNegative for usize {
    open spec fn non_negative_spec(&self) -> bool {
        true
    }

    fn is_non_negative(&self) -> (r: bool) {
        true
    }
}

} // verus!
