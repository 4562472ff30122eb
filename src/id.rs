//! Arbitration identifiers and the priority order between them.
use crate::{EXTENDED_ID_ALL_BITS, STANDARD_ID_ALL_BITS};
use core::cmp::Ordering;
use vstd::prelude::*;

verus! {

/// An 11-bit standard identifier.
#[derive(Eq, PartialEq, Structural, Copy, Clone, Hash, Debug, PartialOrd, Ord)]
pub struct StandardId(u16);

impl StandardId {
    #[verifier::type_invariant]
    spec fn inv(self) -> bool {
        self.0 <= 0x7FF
    }

    /// The identifier's numeric value.
    pub closed spec fn value(self) -> u16 {
        self.0
    }

    /// Two standard identifiers are equal exactly when their values are.
    pub broadcast proof fn lemma_value_injective(a: StandardId, b: StandardId)
        ensures
            #[trigger] a.value() == #[trigger] b.value() ==> a == b,
    {
    }

    /// Returns the identifier with value `standard_id`, or `None` when a bit
    /// above the low 11 is set.
    pub fn new(standard_id: u16) -> (r: Option<StandardId>)
        ensures
            r is Some <==> standard_id <= STANDARD_ID_ALL_BITS,
            r matches Some(s) ==> s.value() == standard_id,
    {
        if standard_id & (0b0001_1111 << 11) != 0 {
            assert(standard_id & (0b0001_1111u16 << 11u16) != 0 ==> standard_id > 0x7FF)
                by (bit_vector);
            None
        } else {
            assert(standard_id & (0b0001_1111u16 << 11u16) == 0 ==> standard_id <= 0x7FF)
                by (bit_vector);
            Some(StandardId(standard_id))
        }
    }

    pub fn inner(&self) -> (r: u16)
        ensures
            r == self.value(),
            r <= 0x7FF,
    {
        proof {
            use_type_invariant(self);
        }
        self.0
    }

    /// Builds the identifier without a runtime check; the caller guarantees the range.
    pub fn new_unchecked(standard_id: u16) -> (r: StandardId)
        requires
            standard_id <= 0x7FF,
        ensures
            r.value() == standard_id,
    {
        StandardId(standard_id)
    }
}

/// A 29-bit extended identifier.
#[derive(Eq, PartialEq, Structural, Copy, Clone, Hash, Debug, PartialOrd, Ord)]
pub struct ExtendedId(u32);

impl ExtendedId {
    #[verifier::type_invariant]
    spec fn inv(self) -> bool {
        self.0 <= 0x1FFF_FFFF
    }

    /// The identifier's numeric value.
    pub closed spec fn value(self) -> u32 {
        self.0
    }

    /// Two extended identifiers are equal exactly when their values are.
    pub broadcast proof fn lemma_value_injective(a: ExtendedId, b: ExtendedId)
        ensures
            #[trigger] a.value() == #[trigger] b.value() ==> a == b,
    {
    }

    /// Returns the identifier with value `extended_id`, or `None` when a bit
    /// above the low 29 is set.
    pub fn new(extended_id: u32) -> (r: Option<ExtendedId>)
        ensures
            r is Some <==> extended_id <= EXTENDED_ID_ALL_BITS,
            r matches Some(e) ==> e.value() == extended_id,
    {
        if extended_id & (0b111 << 29) != 0 {
            assert(extended_id & (0b111u32 << 29u32) != 0 ==> extended_id > 0x1FFF_FFFF)
                by (bit_vector);
            None
        } else {
            assert(extended_id & (0b111u32 << 29u32) == 0 ==> extended_id <= 0x1FFF_FFFF)
                by (bit_vector);
            Some(ExtendedId(extended_id))
        }
    }

    pub fn inner(&self) -> (r: u32)
        ensures
            r == self.value(),
            r <= 0x1FFF_FFFF,
    {
        proof {
            use_type_invariant(self);
        }
        self.0
    }

    /// Builds the identifier without a runtime check; the caller guarantees the range.
    pub fn new_unchecked(extended_id: u32) -> (r: ExtendedId)
        requires
            extended_id <= 0x1FFF_FFFF,
        ensures
            r.value() == extended_id,
    {
        ExtendedId(extended_id)
    }
}

/// A bus arbitration identifier: standard or extended.
///
/// Ordering models arbitration: a smaller identifier wins and is sent first.
/// Every standard identifier wins over every extended one; within one kind
/// the smaller value wins.
#[derive(Eq, PartialEq, Structural, Copy, Clone, Hash, Debug, Ord)]
pub enum FrameId {
    Standard(StandardId),
    Extended(ExtendedId),
}

/// Three-way comparison of two integers.
pub open spec fn cmp_int(a: int, b: int) -> Ordering {
    if a < b {
        Ordering::Less
    } else if a == b {
        Ordering::Equal
    } else {
        Ordering::Greater
    }
}

impl FrameId {
    /// The arbitration order between two identifiers.
    pub open spec fn order(self, other: FrameId) -> Ordering {
        match (self, other) {
            (FrameId::Standard(a), FrameId::Standard(b)) => cmp_int(a.value() as int, b.value() as int),
            (FrameId::Standard(_), FrameId::Extended(_)) => Ordering::Less,
            (FrameId::Extended(_), FrameId::Standard(_)) => Ordering::Greater,
            (FrameId::Extended(a), FrameId::Extended(b)) => cmp_int(a.value() as int, b.value() as int),
        }
    }

    /// `self` wins arbitration against `other`, i.e. is strictly smaller.
    pub open spec fn wins_over(self, other: FrameId) -> bool {
        self.order(other) == Ordering::Less
    }

    /// A position on the integer line that orders identifiers as arbitration does.
    pub open spec fn rank(self) -> int {
        match self {
            FrameId::Standard(s) => s.value() as int,
            FrameId::Extended(e) => 0x1_0000 + e.value() as int,
        }
    }

    /// The arbitration order is the order of ranks, and equal ranks mean equal identifiers.
    pub proof fn lemma_rank(self, other: FrameId)
        ensures
            self.wins_over(other) <==> self.rank() < other.rank(),
            self.order(other) == cmp_int(self.rank(), other.rank()),
            self.rank() == other.rank() <==> self == other,
    {
        broadcast use StandardId::lemma_value_injective, ExtendedId::lemma_value_injective;
    }

    /// The identifier `Standard(standard_id)`, or `None` when a bit above the low 11 is set.
    pub fn new_standard(standard_id: u16) -> (r: Option<FrameId>)
        ensures
            r is Some <==> standard_id <= STANDARD_ID_ALL_BITS,
            r matches Some(id) ==> id matches FrameId::Standard(s) && s.value() == standard_id,
    {
        match StandardId::new(standard_id) {
            Some(id) => Some(FrameId::Standard(id)),
            None => None,
        }
    }

    /// The identifier `Extended(extended_id)`, or `None` when a bit above the low 29 is set.
    pub fn new_extended(extended_id: u32) -> (r: Option<FrameId>)
        ensures
            r is Some <==> extended_id <= EXTENDED_ID_ALL_BITS,
            r matches Some(id) ==> id matches FrameId::Extended(e) && e.value() == extended_id,
    {
        match ExtendedId::new(extended_id) {
            Some(id) => Some(FrameId::Extended(id)),
            None => None,
        }
    }

    /// Whether `self` wins arbitration against `other`.
    pub fn precedes(&self, other: &FrameId) -> (r: bool)
        ensures
            r == self.wins_over(*other),
    {
        match (self, other) {
            (FrameId::Standard(a), FrameId::Standard(b)) => a.inner() < b.inner(),
            (FrameId::Standard(_), FrameId::Extended(_)) => true,
            (FrameId::Extended(_), FrameId::Standard(_)) => false,
            (FrameId::Extended(a), FrameId::Extended(b)) => a.inner() < b.inner(),
        }
    }
}

impl PartialOrd for FrameId {
    fn partial_cmp(&self, other: &FrameId) -> (r: Option<Ordering>) {
        match (self, other) {
            (FrameId::Standard(a), FrameId::Standard(b)) => a.inner().partial_cmp(&b.inner()),
            (FrameId::Standard(_), FrameId::Extended(_)) => Some(Ordering::Less),
            (FrameId::Extended(_), FrameId::Standard(_)) => Some(Ordering::Greater),
            (FrameId::Extended(a), FrameId::Extended(b)) => a.inner().partial_cmp(&b.inner()),
        }
    }
}

impl vstd::std_specs::cmp::PartialOrdSpecImpl for FrameId {
    open spec fn obeys_partial_cmp_spec() -> bool {
        true
    }

    open spec fn partial_cmp_spec(&self, other: &FrameId) -> Option<Ordering> {
        Some(self.order(*other))
    }
}

/// Every standard identifier wins arbitration against every extended one.
pub proof fn lemma_standard_before_extended(s: FrameId, e: FrameId)
    requires
        s is Standard,
        e is Extended,
    ensures
        s.wins_over(e),
        !e.wins_over(s),
{
}

} // verus!
