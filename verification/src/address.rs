//! Memory locations as plain integers.
use vstd::prelude::*;

verus! {

/// The number of distinct addresses.
pub open spec fn address_space() -> int {
    usize::MAX + 1
}

/// The address with the same low bits as `x`, for `x` within one address space
/// of the range of addresses.
pub open spec fn wrap(x: int) -> usize {
    if x > usize::MAX {
        (x - address_space()) as usize
    } else if x < 0 {
        (x + address_space()) as usize
    } else {
        x as usize
    }
}

/// The signed value with the same low bits as `x`, for `x` within one address
/// space of the signed range.
pub open spec fn wrap_signed(x: int) -> isize {
    if x > isize::MAX {
        (x - address_space()) as isize
    } else if x < isize::MIN {
        (x + address_space()) as isize
    } else {
        x as isize
    }
}

/// A memory location. It owns nothing, and is ordered by its numeric value.
#[derive(Clone, Copy, PartialEq, Eq, Structural, Debug, Hash, PartialOrd, Ord)]
pub struct Address(pub usize);

impl Address {
    /// The address zero.
    pub fn null() -> (a: Address)
        ensures
            a == Address(0),
    {
        Address(0)
    }

    /// The highest address.
    pub fn max() -> (a: Address)
        ensures
            a == Address(usize::MAX),
    {
        Address(usize::MAX)
    }

    /// The address with the given numeric value.
    pub fn new(value: usize) -> (a: Address)
        ensures
            a == Address(value),
    {
        Address(value)
    }

    /// The numeric value of the address.
    pub fn value(&self) -> (v: usize)
        ensures
            v == self.0,
    {
        self.0
    }

    /// The address `offset` bytes away, modulo the address space.
    pub open spec fn shifted(self, offset: int) -> Address {
        Address(wrap(self.0 + offset))
    }

    /// Whether the address lies in `[start, start + size)`.
    pub open spec fn within(self, start: Address, size: int) -> bool {
        start.0 <= self.0 < start.0 + size
    }

    /// The address `other` bytes up, wrapping at the end of the address space.
    pub fn plus(self, other: usize) -> (r: Address)
        ensures
            r == self.shifted(other as int),
    {
        Address(self.0.wrapping_add(other))
    }

    /// The address at the signed offset `other`, wrapping at either end.
    pub fn plus_signed(self, other: isize) -> (r: Address)
        ensures
            r == self.shifted(other as int),
    {
        Address(self.0.wrapping_add_signed(other))
    }

    /// The address `other` bytes down, wrapping at zero.
    pub fn minus(self, other: usize) -> (r: Address)
        ensures
            r == self.shifted(-(other as int)),
    {
        Address(self.0.wrapping_sub(other))
    }

    /// The address against the signed offset `other`, wrapping at either end.
    pub fn minus_signed(self, other: isize) -> (r: Address)
        ensures
            r == self.shifted(-(other as int)),
    {
        if other == isize::MIN {
            // The lowest offset has no negation; adding it changes the same bits.
            Address(self.0.wrapping_add_signed(other))
        } else {
            Address(self.0.wrapping_add_signed(-other))
        }
    }

    /// How far the address lies above `other`, as a signed number of bytes that
    /// wraps like the difference of two pointers.
    pub fn distance(self, other: Address) -> (r: isize)
        ensures
            r == wrap_signed(self.0 - other.0),
    {
        let half: usize = (isize::MAX as usize) + 1;
        if self.0 >= other.0 {
            let distance: usize = self.0 - other.0;
            if distance < half {
                distance as isize
            } else {
                ((distance - half) as isize) + isize::MIN
            }
        } else {
            let distance: usize = other.0 - self.0;
            if distance <= half {
                (0 - ((distance - 1) as isize)) - 1
            } else {
                isize::MAX - ((distance - half - 1) as isize)
            }
        }
    }

    /// Moves the address up by `other` bytes, wrapping at the end of the address space.
    pub fn add_assign(&mut self, other: usize)
        ensures
            *final(self) == old(self).shifted(other as int),
    {
        *self = self.plus(other);
    }

    /// Moves the address by the signed offset `other`, wrapping at either end.
    pub fn add_assign_signed(&mut self, other: isize)
        ensures
            *final(self) == old(self).shifted(other as int),
    {
        *self = self.plus_signed(other);
    }

    /// Moves the address down by `other` bytes, wrapping at zero.
    pub fn sub_assign(&mut self, other: usize)
        ensures
            *final(self) == old(self).shifted(-(other as int)),
    {
        *self = self.minus(other);
    }

    /// Moves the address against the signed offset `other`, wrapping at either end.
    pub fn sub_assign_signed(&mut self, other: isize)
        ensures
            *final(self) == old(self).shifted(-(other as int)),
    {
        *self = self.minus_signed(other);
    }
}

impl Default for Address {
    fn default() -> (a: Address)
        ensures
            a == Address(0),
    {
        Address(0)
    }
}

impl core::ops::Add<usize> for Address {
    type Output = Address;

    fn add(self, other: usize) -> (r: Address) {
        self.plus(other)
    }
}

impl vstd::std_specs::ops::AddSpecImpl<usize> for Address {
    open spec fn obeys_add_spec() -> bool {
        true
    }

    open spec fn add_req(self, other: usize) -> bool {
        true
    }

    open spec fn add_spec(self, other: usize) -> Address {
        self.shifted(other as int)
    }
}

impl core::ops::Add<isize> for Address {
    type Output = Address;

    fn add(self, other: isize) -> (r: Address) {
        self.plus_signed(other)
    }
}

impl vstd::std_specs::ops::AddSpecImpl<isize> for Address {
    open spec fn obeys_add_spec() -> bool {
        true
    }

    open spec fn add_req(self, other: isize) -> bool {
        true
    }

    open spec fn add_spec(self, other: isize) -> Address {
        self.shifted(other as int)
    }
}

impl core::ops::Sub<usize> for Address {
    type Output = Address;

    fn sub(self, other: usize) -> (r: Address) {
        self.minus(other)
    }
}

impl vstd::std_specs::ops::SubSpecImpl<usize> for Address {
    open spec fn obeys_sub_spec() -> bool {
        true
    }

    open spec fn sub_req(self, other: usize) -> bool {
        true
    }

    open spec fn sub_spec(self, other: usize) -> Address {
        self.shifted(-(other as int))
    }
}

impl core::ops::Sub<isize> for Address {
    type Output = Address;

    fn sub(self, other: isize) -> (r: Address) {
        self.minus_signed(other)
    }
}

impl vstd::std_specs::ops::SubSpecImpl<isize> for Address {
    open spec fn obeys_sub_spec() -> bool {
        true
    }

    open spec fn sub_req(self, other: isize) -> bool {
        true
    }

    open spec fn sub_spec(self, other: isize) -> Address {
        self.shifted(-(other as int))
    }
}

impl core::ops::Sub<Address> for Address {
    type Output = isize;

    fn sub(self, other: Address) -> (r: isize) {
        self.distance(other)
    }
}

impl vstd::std_specs::ops::SubSpecImpl<Address> for Address {
    open spec fn obeys_sub_spec() -> bool {
        true
    }

    open spec fn sub_req(self, other: Address) -> bool {
        true
    }

    open spec fn sub_spec(self, other: Address) -> isize {
        wrap_signed(self.0 - other.0)
    }
}

/// An offset added and then taken away leaves the address where it was.
pub proof fn lemma_shift_back(a: Address, offset: int)
    requires
        -address_space() < offset < address_space(),
    ensures
        a.shifted(offset).shifted(-offset) == a,
{
}

/// Moving an address by the signed difference to another address reaches that
/// other address.
pub proof fn lemma_difference_reaches(a: Address, b: Address)
    ensures
        a.shifted(wrap_signed(b.0 - a.0) as int) == b,
{
}

} // verus!
