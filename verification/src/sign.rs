use vstd::prelude::*;

verus! {

/// Per-axis polarity of a coordinate relative to a center: `Positive` means
/// "coordinate >= center on that axis", `Negative` means "coordinate < center".
/// Ordered so that `Positive < Negative`, matching the bit encoding where
/// `Positive` is numbered 0 and `Negative` is numbered 1.
#[derive(Debug, Clone, Copy, PartialEq, Eq, PartialOrd, Ord, Structural)]
pub enum Sign {
    Positive,
    Negative,
}

/// The bit a sign contributes to a path byte: 0 for `Positive`, 1 for `Negative`.
pub open spec fn sign_bit(s: Sign) -> u8 {
    match s {
        Sign::Positive => 0,
        Sign::Negative => 1,
    }
}

impl Sign {
    /// The bit value of this sign, as encoded into an [`crate::octant_id::Id`] path byte.
    pub fn bit(&self) -> (b: u8)
        ensures
            b == sign_bit(*self),
    {
        match self {
            Sign::Positive => 0,
            Sign::Negative => 1,
        }
    }
}

impl From<Sign> for u8 {
    fn from(sign: Sign) -> (b: u8) {
        sign.bit()
    }
}

impl vstd::std_specs::convert::FromSpecImpl<Sign> for u8 {
    open spec fn obeys_from_spec() -> bool {
        true
    }

    open spec fn from_spec(sign: Sign) -> u8 {
        sign_bit(sign)
    }
}

} // verus!
