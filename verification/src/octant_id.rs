use vstd::prelude::*;

use crate::sign::{sign_bit, Sign};

verus! {

/// Bit 3 of a path byte: set iff the byte's level is part of the path.
const LEVEL_ACTIVE_MASK: u8 = 8;

/// Bit 2 of a path byte: set iff the level's x sign is `Negative`.
const X_MASK: u8 = 4;

/// Bit 1 of a path byte: set iff the level's y sign is `Negative`.
const Y_MASK: u8 = 2;

/// Bit 0 of a path byte: set iff the level's z sign is `Negative`.
const Z_MASK: u8 = 1;

/// The three sign bits of one level, before the active flag is added:
/// x contributes 4, y contributes 2, z contributes 1 when `Negative`.
pub open spec fn sign_bits(x: Sign, y: Sign, z: Sign) -> u8 {
    (4 * sign_bit(x) + 2 * sign_bit(y) + sign_bit(z)) as u8
}

/// The byte that encodes one active level: the active flag plus the three
/// sign bits. Always in `8..16`, so an active byte is never the all-zero
/// sentinel of an unused level.
pub open spec fn level_byte(x: Sign, y: Sign, z: Sign) -> u8 {
    (8 + 4 * sign_bit(x) + 2 * sign_bit(y) + sign_bit(z)) as u8
}

/// The x sign a path byte encodes.
pub open spec fn byte_sign_x(b: u8) -> Sign {
    if (b / 4) % 2 == 1 {
        Sign::Negative
    } else {
        Sign::Positive
    }
}

/// The y sign a path byte encodes.
pub open spec fn byte_sign_y(b: u8) -> Sign {
    if (b / 2) % 2 == 1 {
        Sign::Negative
    } else {
        Sign::Positive
    }
}

/// The z sign a path byte encodes.
pub open spec fn byte_sign_z(b: u8) -> Sign {
    if b % 2 == 1 {
        Sign::Negative
    } else {
        Sign::Positive
    }
}

/// Decoding a level byte reads back exactly the signs it was built from,
/// and the byte of an active level is never the all-zero sentinel.
pub proof fn lemma_level_byte_signs(x: Sign, y: Sign, z: Sign)
    ensures
        8 <= level_byte(x, y, z) < 16,
        byte_sign_x(level_byte(x, y, z)) == x,
        byte_sign_y(level_byte(x, y, z)) == y,
        byte_sign_z(level_byte(x, y, z)) == z,
{
}

/// A byte in `8..16` is exactly the level byte of the signs it decodes to.
pub proof fn lemma_byte_determined(b: u8)
    requires
        8 <= b < 16,
    ensures
        b == level_byte(byte_sign_x(b), byte_sign_y(b), byte_sign_z(b)),
{
    assert(b == 8 + 4 * ((b / 4) % 2) + 2 * ((b / 2) % 2) + b % 2) by (bit_vector)
        requires
            8 <= b < 16,
    ;
}

/// The index of the first all-zero byte of a path, or the length of the path
/// if every byte is in use.
pub open spec fn first_zero(s: Seq<u8>) -> int
    decreases s.len(),
{
    if s.len() == 0 {
        0
    } else if s[0] == 0 {
        0
    } else {
        1 + first_zero(s.drop_first())
    }
}

/// What `first_zero` returns: every byte before it is non-zero, and the byte
/// at it (if any) is zero.
pub proof fn lemma_first_zero(s: Seq<u8>)
    ensures
        0 <= first_zero(s) <= s.len(),
        first_zero(s) < s.len() ==> s[first_zero(s)] == 0,
        forall|j: int| 0 <= j < first_zero(s) ==> s[j] != 0,
    decreases s.len(),
{
    if s.len() > 0 && s[0] != 0 {
        lemma_first_zero(s.drop_first());
        assert(forall|j: int|
            1 <= j < first_zero(s) ==> s[j] == s.drop_first()[j - 1] && s[j] != 0);
    }
}

/// If the first `d` bytes of a path are non-zero and the byte at `d` (if any)
/// is zero, then `d` is exactly where the first zero byte stands.
pub proof fn lemma_first_zero_is(s: Seq<u8>, d: int)
    requires
        0 <= d <= s.len(),
        forall|j: int| 0 <= j < d ==> s[j] != 0,
        d < s.len() ==> s[d] == 0,
    ensures
        first_zero(s) == d,
    decreases s.len(),
{
    if s.len() > 0 && s[0] != 0 {
        lemma_first_zero_is(s.drop_first(), d - 1);
    }
}

/// Octant identity: a fixed-capacity path code naming one position of the
/// tree without parent or child references.
///
/// `N` is the maximum depth of the octree, 0-indexed and exclusive. The path
/// holds one byte per tree level. Each byte carries a "level active" flag
/// and the three sign bits of the level's subdivision choice; a byte of all
/// zero bits means "this level and all deeper levels are unused", which is
/// how paths shorter than `N` are represented without a separate length
/// field. Two ids are equal iff their byte sequences are identical at every
/// position, trailing unused bytes included.
///
/// | Value  | Active | x sign | y sign | z sign |
/// |--------|--------|--------|--------|--------|
/// | 0b1000 | yes    | `+`    | `+`    | `+`    |
/// | 0b1001 | yes    | `+`    | `+`    | `-`    |
/// | 0b1010 | yes    | `+`    | `-`    | `+`    |
/// | 0b1011 | yes    | `+`    | `-`    | `-`    |
/// | 0b1100 | yes    | `-`    | `+`    | `+`    |
/// | 0b1101 | yes    | `-`    | `+`    | `-`    |
/// | 0b1110 | yes    | `-`    | `-`    | `+`    |
/// | 0b1111 | yes    | `-`    | `-`    | `-`    |
#[derive(Debug, Clone, Copy, Eq, Hash)]
pub struct Id<const N: usize> {
    pub bits: [u8; N],
}

impl<const N: usize> Id<N> {
    /// The raw bytes of the path.
    pub open spec fn bytes(self) -> Seq<u8> {
        self.bits@
    }

    /// The number of levels of the path that are in use: the active bytes
    /// of a well-formed path form a prefix, and `depth` is that prefix's
    /// length.
    pub open spec fn depth(self) -> int {
        first_zero(self.bits@)
    }

    /// A well-formed path: the bytes up to `depth` are active level bytes,
    /// everything deeper is the all-zero sentinel. `root` and `child` only
    /// ever produce well-formed paths.
    pub open spec fn wf(self) -> bool {
        forall|i: int|
            0 <= i < N ==> {
                &&& (i < self.depth() ==> 8 <= #[trigger] self.bits@[i] < 16)
                &&& (i >= self.depth() ==> self.bits@[i] == 0)
            }
    }

    /// The sign triple the path records at level `i`.
    pub open spec fn signs_at(self, i: int) -> (Sign, Sign, Sign) {
        (byte_sign_x(self.bits@[i]), byte_sign_y(self.bits@[i]), byte_sign_z(self.bits@[i]))
    }

    /// Create a new uninitialized id: every level unused.
    pub fn uninitialized() -> (r: Self)
        ensures
            r.bytes() == Seq::new(N as nat, |i: int| 0u8),
            r.depth() == 0,
            r.wf(),
    {
        let r = Id { bits: [0; N] };
        proof {
            assert(r.bits@ =~= Seq::new(N as nat, |i: int| 0u8));
            lemma_first_zero_is(r.bits@, 0);
        }
        r
    }

    /// True iff every byte is the all-zero sentinel: the id was freshly
    /// allocated and never assigned by `root` or `child`.
    pub fn is_uninitialized(&self) -> (r: bool)
        ensures
            r == (forall|i: int| 0 <= i < N ==> self.bits@[i] == 0),
    {
        let mut i: usize = 0;
        while i < N
            invariant
                0 <= i <= N,
                forall|j: int| 0 <= j < i ==> self.bits@[j] == 0,
            decreases N - i,
        {
            if self.bits[i] != 0 {
                return false;
            }
            i += 1;
        }
        true
    }

    /// Create a new id at the root level: level 0 records the given signs,
    /// every deeper level is unused.
    pub fn root(x: Sign, y: Sign, z: Sign) -> (r: Self)
        requires
            N >= 1,
        ensures
            r.bytes() == Seq::new(N as nat, |i: int| 0u8).update(0, level_byte(x, y, z)),
            r.wf(),
            r.depth() == 1,
            r.signs_at(0) == (x, y, z),
    {
        let mut bits = [0; N];
        bits[0] = signs_to_bits(x, y, z) + LEVEL_ACTIVE_MASK;
        let r = Id { bits };
        proof {
            assert(r.bits@ =~= Seq::new(N as nat, |i: int| 0u8).update(0, level_byte(x, y, z)));
            lemma_level_byte_signs(x, y, z);
            lemma_first_zero_is(r.bits@, 1);
        }
        r
    }

    /// Derive a child id: copy the parent's path and record the given signs
    /// at the first unused level. If the parent's path already fills all `N`
    /// levels, the deepest level is overwritten instead — a deliberate clamp,
    /// which the octree never triggers because it stops subdividing at the
    /// last level.
    pub fn child(parent_id: Self, x: Sign, y: Sign, z: Sign) -> (r: Self)
        requires
            N >= 1,
        ensures
            r.bytes() == parent_id.bytes().update(
                if parent_id.depth() < N {
                    parent_id.depth()
                } else {
                    N - 1
                },
                level_byte(x, y, z),
            ),
            parent_id.wf() && parent_id.depth() < N ==> {
                &&& r.wf()
                &&& r.depth() == parent_id.depth() + 1
                &&& r.signs_at(parent_id.depth()) == (x, y, z)
                &&& forall|j: int| 0 <= j < parent_id.depth() ==> r.signs_at(j) == parent_id.signs_at(j)
            },
            parent_id.wf() && parent_id.depth() == N ==> {
                &&& r.wf()
                &&& r.depth() == N
                &&& r.signs_at(N - 1) == (x, y, z)
                &&& forall|j: int| 0 <= j < N - 1 ==> r.signs_at(j) == parent_id.signs_at(j)
            },
    {
        proof {
            lemma_first_zero(parent_id.bits@);
        }
        let mut bits = parent_id.bits;
        let current_depth = match find_first_zero(&bits) {
            Some(i) => i,
            None => N - 1,
        };
        bits[current_depth] = signs_to_bits(x, y, z) + LEVEL_ACTIVE_MASK;
        let r = Id { bits };
        proof {
            lemma_level_byte_signs(x, y, z);
            if parent_id.wf() && parent_id.depth() < N {
                lemma_first_zero_is(r.bits@, parent_id.depth() + 1);
            }
            if parent_id.wf() && parent_id.depth() == N {
                lemma_first_zero_is(r.bits@, N as int);
            }
        }
        r
    }
}

impl<const N: usize> PartialEq for Id<N> {
    /// Ids are equal iff their byte sequences are identical at every
    /// position, trailing unused bytes included.
    fn eq(&self, other: &Self) -> (r: bool) {
        let mut i: usize = 0;
        while i < N
            invariant
                0 <= i <= N,
                forall|j: int| 0 <= j < i ==> self.bits@[j] == other.bits@[j],
            decreases N - i,
        {
            if self.bits[i] != other.bits[i] {
                return false;
            }
            i += 1;
        }
        proof {
            assert(self.bits =~= other.bits);
        }
        true
    }
}

impl<const N: usize> vstd::std_specs::cmp::PartialEqSpecImpl for Id<N> {
    open spec fn obeys_eq_spec() -> bool {
        true
    }

    open spec fn eq_spec(&self, other: &Id<N>) -> bool {
        *self == *other
    }
}

impl<const N: usize> From<[u8; N]> for Id<N> {
    fn from(bits: [u8; N]) -> (r: Id<N>) {
        Id { bits }
    }
}

impl<const N: usize> vstd::std_specs::convert::FromSpecImpl<[u8; N]> for Id<N> {
    open spec fn obeys_from_spec() -> bool {
        true
    }

    open spec fn from_spec(bits: [u8; N]) -> Id<N> {
        Id { bits }
    }
}

/// The three sign bits of one level, not yet marked active.
fn signs_to_bits(x: Sign, y: Sign, z: Sign) -> (bits: u8)
    ensures
        bits == sign_bits(x, y, z),
{
    let mut bits: u8 = 0;
    if x == Sign::Negative {
        bits += X_MASK;
    }
    if y == Sign::Negative {
        bits += Y_MASK;
    }
    if z == Sign::Negative {
        bits += Z_MASK;
    }
    bits
}

/// The index of the first all-zero byte, if any byte is all-zero.
fn find_first_zero<const N: usize>(bits: &[u8; N]) -> (r: Option<usize>)
    ensures
        match r {
            Some(i) => i == first_zero(bits@) && i < N,
            None => first_zero(bits@) == N,
        },
{
    proof {
        lemma_first_zero(bits@);
    }
    let mut i: usize = 0;
    while i < N
        invariant
            0 <= i <= N,
            forall|j: int| 0 <= j < i ==> bits@[j] != 0,
        decreases N - i,
    {
        if bits[i] == 0 {
            proof {
                lemma_first_zero_is(bits@, i as int);
            }
            return Some(i);
        }
        i += 1;
    }
    proof {
        lemma_first_zero_is(bits@, N as int);
    }
    None
}

} // verus!
