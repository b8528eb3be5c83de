//! QUIC variable-length integers.
use core::ops::Add;
use core::ops::AddAssign;
use core::ops::Sub;
use vstd::prelude::*;

verus! {

/// The largest value representable as a QUIC variable-length integer.
pub const MAX_VARINT_VALUE: u64 = 4_611_686_018_427_387_903;

/// Error returned when a value cannot fit in a QUIC variable-length integer.
#[derive(Debug, Clone, Copy, PartialEq, Eq, Structural)]
pub struct VarIntError;

impl VarIntError {
    /// Returns what went wrong, in words.
    pub fn message(&self) -> (r: String)
        ensures
            r@ == "varint range exceeded"@,
    {
        "varint range exceeded".to_string()
    }
}

/// A QUIC variable-length integer.
#[derive(Clone, Copy, Debug, Eq, Hash, PartialEq, PartialOrd, Ord, Structural)]
pub struct VarInt(u64);

impl View for VarInt {
    type V = int;

    closed spec fn view(&self) -> int {
        self.0 as int
    }
}

impl VarInt {
    /// The value fits in a QUIC variable-length integer.
    #[verifier::type_invariant]
    spec fn fits(self) -> bool {
        self.0 <= MAX_VARINT_VALUE
    }

    /// The integer with value `v`.
    pub closed spec fn of(v: int) -> VarInt {
        VarInt(v as u64)
    }

    /// The maximum valid QUIC variable-length integer.
    pub fn max_value() -> (r: Self)
        ensures
            r == VarInt::of(MAX_VARINT_VALUE as int),
            r@ == MAX_VARINT_VALUE,
    {
        Self(MAX_VARINT_VALUE)
    }

    /// The zero value.
    pub fn zero() -> (r: Self)
        ensures
            r == VarInt::of(0),
            r@ == 0,
    {
        Self(0)
    }

    /// Creates a new [`VarInt`].
    pub fn new(v: u64) -> (r: Result<Self, VarIntError>)
        ensures
            r == (if v <= MAX_VARINT_VALUE {
                Ok(VarInt::of(v as int))
            } else {
                Err(VarIntError)
            }),
            r matches Ok(n) ==> n@ == v,
    {
        if v > MAX_VARINT_VALUE {
            return Err(VarIntError);
        }
        Ok(Self(v))
    }

    /// Returns a [`VarInt`] without validating the input.
    pub fn new_unchecked(value: u64) -> (r: Self)
        requires
            value <= MAX_VARINT_VALUE,
        ensures
            r == VarInt::of(value as int),
            r@ == value,
    {
        Self(value)
    }

    /// Creates a value from a `u8`.
    pub fn from_u8(v: u8) -> (r: Self)
        ensures
            r == VarInt::of(v as int),
            r@ == v,
    {
        Self(v as u64)
    }

    /// Creates a value from a `u16`.
    pub fn from_u16(v: u16) -> (r: Self)
        ensures
            r == VarInt::of(v as int),
            r@ == v,
    {
        Self(v as u64)
    }

    /// Creates a value from a `u32`.
    pub fn from_u32(v: u32) -> (r: Self)
        ensures
            r == VarInt::of(v as int),
            r@ == v,
    {
        Self(v as u64)
    }

    /// Returns the integer value.
    pub fn as_u64(self) -> (r: u64)
        ensures
            r == self@,
            r <= MAX_VARINT_VALUE,
            self == VarInt::of(r as int),
    {
        proof {
            use_type_invariant(self);
        }
        self.0
    }

    /// Adds two values, returning `None` on overflow.
    pub fn checked_add(self, value: Self) -> (r: Option<Self>)
        ensures
            r == (if self@ + value@ <= MAX_VARINT_VALUE {
                Some(VarInt::of(self@ + value@))
            } else {
                None
            }),
            r matches Some(n) ==> n@ == self@ + value@,
    {
        Self::new(self.as_u64() + value.as_u64()).ok()
    }

    /// Adds a `usize`, returning `None` on overflow.
    pub fn checked_add_usize(self, value: usize) -> (r: Option<Self>)
        ensures
            r == (if self@ + value <= MAX_VARINT_VALUE {
                Some(VarInt::of(self@ + value))
            } else {
                None
            }),
            r matches Some(n) ==> n@ == self@ + value,
    {
        match Self::new(value as u64) {
            Ok(value) => self.checked_add(value),
            Err(_) => None,
        }
    }

    /// Saturating subtraction.
    #[must_use]
    pub fn saturating_sub(self, value: Self) -> (r: Self)
        ensures
            r@ == (if value@ <= self@ {
                self@ - value@
            } else {
                0
            }),
            r == VarInt::of(r@),
    {
        Self::new_unchecked(self.as_u64().saturating_sub(value.as_u64()))
    }

    /// Checked subtraction.
    pub fn checked_sub(self, value: Self) -> (r: Option<Self>)
        ensures
            r == (if value@ <= self@ {
                Some(VarInt::of(self@ - value@))
            } else {
                None
            }),
            r matches Some(n) ==> n@ == self@ - value@,
    {
        let (a, b) = (self.as_u64(), value.as_u64());
        match a.checked_sub(b) {
            Some(v) => Some(Self::new_unchecked(v)),
            None => None,
        }
    }
}

impl Default for VarInt {
    fn default() -> (r: Self)
        ensures
            r@ == 0,
            r == VarInt::of(0),
    {
        Self(0)
    }
}

impl vstd::std_specs::ops::AddSpecImpl<VarInt> for VarInt {
    open spec fn obeys_add_spec() -> bool {
        true
    }

    open spec fn add_req(self, rhs: VarInt) -> bool {
        self@ + rhs@ <= MAX_VARINT_VALUE
    }

    open spec fn add_spec(self, rhs: VarInt) -> VarInt {
        VarInt::of(self@ + rhs@)
    }
}

impl Add<VarInt> for VarInt {
    type Output = VarInt;

    fn add(self, rhs: VarInt) -> (r: VarInt)
        ensures
            r@ == self@ + rhs@,
    {
        self.checked_add(rhs).unwrap()
    }
}

impl AddAssign<VarInt> for VarInt {
    fn add_assign(&mut self, rhs: VarInt)
        requires
            old(self)@ + rhs@ <= MAX_VARINT_VALUE,
        ensures
            final(self)@ == old(self)@ + rhs@,
            *final(self) == VarInt::of(old(self)@ + rhs@),
    {
        *self = self.checked_add(rhs).unwrap();
    }
}

impl vstd::std_specs::ops::AddSpecImpl<usize> for VarInt {
    open spec fn obeys_add_spec() -> bool {
        true
    }

    open spec fn add_req(self, rhs: usize) -> bool {
        self@ + rhs <= MAX_VARINT_VALUE
    }

    open spec fn add_spec(self, rhs: usize) -> VarInt {
        VarInt::of(self@ + rhs)
    }
}

impl Add<usize> for VarInt {
    type Output = VarInt;

    fn add(self, rhs: usize) -> (r: VarInt)
        ensures
            r@ == self@ + rhs,
    {
        self.checked_add_usize(rhs).unwrap()
    }
}

impl AddAssign<usize> for VarInt {
    fn add_assign(&mut self, rhs: usize)
        requires
            old(self)@ + rhs <= MAX_VARINT_VALUE,
        ensures
            final(self)@ == old(self)@ + rhs,
            *final(self) == VarInt::of(old(self)@ + rhs),
    {
        *self = self.checked_add_usize(rhs).unwrap();
    }
}

impl vstd::std_specs::ops::SubSpecImpl<VarInt> for VarInt {
    open spec fn obeys_sub_spec() -> bool {
        true
    }

    open spec fn sub_req(self, rhs: VarInt) -> bool {
        rhs@ <= self@
    }

    open spec fn sub_spec(self, rhs: VarInt) -> VarInt {
        VarInt::of(self@ - rhs@)
    }
}

impl Sub<VarInt> for VarInt {
    type Output = VarInt;

    fn sub(self, rhs: VarInt) -> (r: VarInt)
        ensures
            r@ == self@ - rhs@,
    {
        self.checked_sub(rhs).unwrap()
    }
}

impl vstd::std_specs::convert::TryFromSpecImpl<usize> for VarInt {
    open spec fn obeys_try_from_spec() -> bool {
        true
    }

    open spec fn try_from_spec(value: usize) -> Result<Self, VarIntError> {
        if value <= MAX_VARINT_VALUE {
            Ok(VarInt::of(value as int))
        } else {
            Err(VarIntError)
        }
    }
}

impl TryFrom<usize> for VarInt {
    type Error = VarIntError;

    fn try_from(value: usize) -> (r: Result<Self, VarIntError>)
        ensures
            r matches Ok(n) ==> n@ == value,
    {
        Self::new(value as u64)
    }
}

impl vstd::std_specs::convert::TryFromSpecImpl<u64> for VarInt {
    open spec fn obeys_try_from_spec() -> bool {
        true
    }

    open spec fn try_from_spec(value: u64) -> Result<Self, VarIntError> {
        if value <= MAX_VARINT_VALUE {
            Ok(VarInt::of(value as int))
        } else {
            Err(VarIntError)
        }
    }
}

impl TryFrom<u64> for VarInt {
    type Error = VarIntError;

    fn try_from(value: u64) -> (r: Result<Self, VarIntError>)
        ensures
            r matches Ok(n) ==> n@ == value,
    {
        Self::new(value)
    }
}

impl vstd::std_specs::convert::TryFromSpecImpl<u128> for VarInt {
    open spec fn obeys_try_from_spec() -> bool {
        true
    }

    open spec fn try_from_spec(value: u128) -> Result<Self, VarIntError> {
        if value <= MAX_VARINT_VALUE {
            Ok(VarInt::of(value as int))
        } else {
            Err(VarIntError)
        }
    }
}

impl TryFrom<u128> for VarInt {
    type Error = VarIntError;

    fn try_from(value: u128) -> (r: Result<Self, VarIntError>)
        ensures
            r matches Ok(n) ==> n@ == value,
    {
        if value > MAX_VARINT_VALUE as u128 {
            return Err(VarIntError);
        }
        Ok(Self(value as u64))
    }
}

impl vstd::std_specs::convert::FromSpecImpl<u8> for VarInt {
    open spec fn obeys_from_spec() -> bool {
        true
    }

    open spec fn from_spec(value: u8) -> Self {
        VarInt::of(value as int)
    }
}

impl From<u8> for VarInt {
    fn from(value: u8) -> (r: Self)
        ensures
            r@ == value,
    {
        Self::from_u8(value)
    }
}

impl vstd::std_specs::convert::FromSpecImpl<u16> for VarInt {
    open spec fn obeys_from_spec() -> bool {
        true
    }

    open spec fn from_spec(value: u16) -> Self {
        VarInt::of(value as int)
    }
}

impl From<u16> for VarInt {
    fn from(value: u16) -> (r: Self)
        ensures
            r@ == value,
    {
        Self::from_u16(value)
    }
}

impl vstd::std_specs::convert::FromSpecImpl<u32> for VarInt {
    open spec fn obeys_from_spec() -> bool {
        true
    }

    open spec fn from_spec(value: u32) -> Self {
        VarInt::of(value as int)
    }
}

impl From<u32> for VarInt {
    fn from(value: u32) -> (r: Self)
        ensures
            r@ == value,
    {
        Self::from_u32(value)
    }
}

impl vstd::std_specs::cmp::PartialEqSpecImpl<u64> for VarInt {
    open spec fn obeys_eq_spec() -> bool {
        true
    }

    open spec fn eq_spec(&self, other: &u64) -> bool {
        self@ == *other
    }
}

impl PartialEq<u64> for VarInt {
    fn eq(&self, other: &u64) -> (r: bool) {
        self.0 == *other
    }
}

impl vstd::std_specs::cmp::PartialEqSpecImpl<VarInt> for u64 {
    open spec fn obeys_eq_spec() -> bool {
        true
    }

    open spec fn eq_spec(&self, other: &VarInt) -> bool {
        *self == other@
    }
}

impl PartialEq<VarInt> for u64 {
    fn eq(&self, other: &VarInt) -> (r: bool) {
        *self == other.0
    }
}

/// How one integer compares to another.
pub open spec fn order(a: int, b: int) -> core::cmp::Ordering {
    if a < b {
        core::cmp::Ordering::Less
    } else if a == b {
        core::cmp::Ordering::Equal
    } else {
        core::cmp::Ordering::Greater
    }
}

impl vstd::std_specs::cmp::PartialOrdSpecImpl<u64> for VarInt {
    open spec fn obeys_partial_cmp_spec() -> bool {
        true
    }

    open spec fn partial_cmp_spec(&self, other: &u64) -> Option<core::cmp::Ordering> {
        Some(order(self@, int_of(*other)))
    }
}

impl PartialOrd<u64> for VarInt {
    fn partial_cmp(&self, other: &u64) -> (r: Option<core::cmp::Ordering>) {
        self.0.partial_cmp(other)
    }
}

impl vstd::std_specs::cmp::PartialOrdSpecImpl<VarInt> for u64 {
    open spec fn obeys_partial_cmp_spec() -> bool {
        true
    }

    open spec fn partial_cmp_spec(&self, other: &VarInt) -> Option<core::cmp::Ordering> {
        Some(order(int_of(*self), other@))
    }
}

impl PartialOrd<VarInt> for u64 {
    fn partial_cmp(&self, other: &VarInt) -> (r: Option<core::cmp::Ordering>) {
        self.partial_cmp(&other.0)
    }
}

/// The value of a `u64`.
pub open spec fn int_of(v: u64) -> int {
    v as int
}

/// What was added can be taken away again.
pub proof fn law_add_then_sub(a: VarInt, b: VarInt)
    requires
        0 <= a@,
        0 <= b@,
        vstd::std_specs::ops::AddSpec::add_req(a, b),
    ensures
        vstd::std_specs::ops::SubSpec::sub_req(vstd::std_specs::ops::AddSpec::add_spec(a, b), b),
        vstd::std_specs::ops::SubSpec::sub_spec(
            vstd::std_specs::ops::AddSpec::add_spec(a, b),
            b,
        )@ == a@,
{
}

/// The integer with a value has that value.
pub proof fn law_value_of(v: int)
    requires
        0 <= v <= MAX_VARINT_VALUE,
    ensures
        VarInt::of(v)@ == v,
{
}

/// The integer with the value of an integer is that integer.
pub proof fn law_of_value(a: VarInt)
    ensures
        VarInt::of(a@) == a,
{
}

/// An integer is determined by its value.
pub proof fn law_value_determines(a: VarInt, b: VarInt)
    requires
        a@ == b@,
    ensures
        a == b,
{
}

/// Integers add up and can be told apart as their values do, as long as those have
/// less than 63 bits.
pub proof fn law_arithmetic(a: VarInt, b: VarInt, n: usize)
    requires
        0 <= a@ < 0x4000_0000_0000_0000,
        0 <= b@ < 0x4000_0000_0000_0000,
    ensures
        vstd::std_specs::ops::AddSpec::add_req(a, b) <==> a@ + b@ < 0x4000_0000_0000_0000,
        a@ + b@ < 0x4000_0000_0000_0000 ==> vstd::std_specs::ops::AddSpec::add_spec(a, b)@ == a@
            + b@,
        vstd::std_specs::ops::AddSpec::add_req(a, n) <==> a@ + n < 0x4000_0000_0000_0000,
        a@ + n < 0x4000_0000_0000_0000 ==> vstd::std_specs::ops::AddSpec::add_spec(a, n)@ == a@
            + n,
        vstd::std_specs::ops::SubSpec::sub_req(a, b) <==> b@ <= a@,
        b@ <= a@ ==> vstd::std_specs::ops::SubSpec::sub_spec(a, b)@ == a@ - b@,
{
}

/// An integer is made from every value that has less than 63 bits, and from no
/// other.
pub proof fn law_conversions(a: usize, b: u64, c: u128)
    ensures
        <VarInt as vstd::std_specs::convert::TryFromSpec<usize>>::try_from_spec(a) == (if a
            < 0x4000_0000_0000_0000 {
            Ok::<VarInt, VarIntError>(VarInt::of(a as int))
        } else {
            Err(VarIntError)
        }),
        <VarInt as vstd::std_specs::convert::TryFromSpec<u64>>::try_from_spec(b) == (if b
            < 0x4000_0000_0000_0000 {
            Ok::<VarInt, VarIntError>(VarInt::of(b as int))
        } else {
            Err(VarIntError)
        }),
        <VarInt as vstd::std_specs::convert::TryFromSpec<u128>>::try_from_spec(c) == (if c
            < 0x4000_0000_0000_0000 {
            Ok::<VarInt, VarIntError>(VarInt::of(c as int))
        } else {
            Err(VarIntError)
        }),
{
}

/// Integers are ordered one way or the other, or are the same.
pub proof fn law_order(a: int, b: int)
    ensures
        order(a, b) is Less <==> a < b,
        order(a, b) is Equal <==> a == b,
        order(a, b) is Greater <==> a > b,
{
}

} // verus!
