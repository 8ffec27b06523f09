//! Packed pairs: a ring and an index, a bucket and an index.

use std::cmp::Ordering;

use vstd::prelude::*;

use crate::protocol::{composite_id, decompose_id, IdNotFoundError, RingKind};
use crate::ring::MAX_ENTRIES;

verus! {

/// A ring and an index into it, packed into 32 bits.
///
/// The order is by index first and by ring second.
#[derive(Copy, Clone, Eq, PartialEq, Ord, Hash, Debug, Structural)]
pub struct RingAndIndex(u32);

impl PartialOrd for RingAndIndex {
    fn partial_cmp(&self, other: &RingAndIndex) -> (order: Option<Ordering>) {
        if self.0 < other.0 {
            Some(Ordering::Less)
        } else if self.0 == other.0 {
            Some(Ordering::Equal)
        } else {
            Some(Ordering::Greater)
        }
    }
}

impl vstd::std_specs::cmp::PartialOrdSpecImpl for RingAndIndex {
    open spec fn obeys_partial_cmp_spec() -> bool {
        true
    }

    open spec fn partial_cmp_spec(&self, other: &RingAndIndex) -> Option<Ordering> {
        if self.raw() < other.raw() {
            Some(Ordering::Less)
        } else if self.raw() == other.raw() {
            Some(Ordering::Equal)
        } else {
            Some(Ordering::Greater)
        }
    }
}

impl RingAndIndex {
    /// The packed number.
    pub closed spec fn raw(self) -> u32 {
        self.0
    }

    /// The lower byte names a ring.
    pub open spec fn wf(self) -> bool {
        self.raw() % 0x100 <= 1
    }

    pub open spec fn spec_ring(self) -> RingKind {
        if self.raw() % 0x100 == 0 {
            RingKind::Favorites
        } else {
            RingKind::Main
        }
    }

    pub open spec fn spec_index(self) -> u32 {
        self.raw() / 0x100
    }

    /// Whether this is the pack of a ring and an index.
    pub open spec fn is(self, ring: RingKind, index: u32) -> bool {
        self.raw() == index * 0x100 + ring.spec_tag()
    }

    #[must_use]
    pub fn new(ring: RingKind, index: u32) -> (rai: RingAndIndex)
        requires
            index <= MAX_ENTRIES,
        ensures
            rai.wf(),
            rai.spec_ring() == ring,
            rai.spec_index() == index,
            rai.is(ring, index),
    {
        let low: u32 = ring.tag();
        assert((index << 8) | low == index * 0x100 + low) by (bit_vector)
            requires
                low <= 1,
                index <= 0xf_ffff,
        ;
        RingAndIndex((index << 8) | low)
    }

    /// The ring and index that a composite ID stands for.
    pub fn from_id(id: u64) -> (rai: Result<RingAndIndex, IdNotFoundError>)
        requires
            crate::protocol::spec_decompose_id(id) matches Ok(parts) ==> parts.1 <= MAX_ENTRIES,
        ensures
            match (crate::protocol::spec_decompose_id(id), rai) {
                (Ok(parts), Ok(rai)) => rai.wf() && rai.is(parts.0, parts.1),
                (Err(expected), Err(error)) => expected == error,
                _ => false,
            },
    {
        match decompose_id(id) {
            Ok((ring, index)) => Ok(RingAndIndex::new(ring, index)),
            Err(error) => Err(error),
        }
    }

    #[must_use]
    pub fn ring(self) -> (ring: RingKind)
        ensures
            ring == self.spec_ring(),
    {
        let raw: u32 = self.0;
        if raw % 0x100 == 0 {
            RingKind::Favorites
        } else {
            RingKind::Main
        }
    }

    #[must_use]
    pub fn index(self) -> (index: u32)
        ensures
            index == self.spec_index(),
    {
        let raw: u32 = self.0;
        assert(raw >> 8 == raw / 0x100) by (bit_vector);
        raw >> 8
    }

    /// The packed number, by which packs are ordered.
    #[must_use]
    pub fn packed(self) -> (packed: u32)
        ensures
            packed == self.raw(),
    {
        self.0
    }

    /// The composite ID of the entry.
    #[must_use]
    pub fn id(self) -> (id: u64)
        ensures
            id == crate::protocol::spec_composite_id(self.spec_ring(), self.spec_index()),
    {
        composite_id(self.ring(), self.index())
    }
}

/// A ring and an index pin down their pack.
pub proof fn lemma_ring_and_index_injective(a: RingAndIndex, b: RingAndIndex)
    requires
        a.wf(),
        b.wf(),
        a.spec_ring() == b.spec_ring(),
        a.spec_index() == b.spec_index(),
    ensures
        a == b,
{
    assert(a.raw() == (a.raw() / 0x100) * 0x100 + a.raw() % 0x100);
    assert(b.raw() == (b.raw() / 0x100) * 0x100 + b.raw() % 0x100);
}

/// Every ring and index have a pack.
pub proof fn lemma_pack_exists(ring: RingKind, index: u32)
    requires
        index <= MAX_ENTRIES,
    ensures
        exists|rai: RingAndIndex| rai.wf() && #[trigger] rai.is(ring, index),
{
    let rai = RingAndIndex((index * 0x100 + ring.spec_tag()) as u32);
    assert(rai.wf() && rai.is(ring, index));
}

/// A pack gives back its ring and index.
pub proof fn lemma_unpack(rai: RingAndIndex, ring: RingKind, index: u32)
    requires
        rai.is(ring, index),
    ensures
        rai.wf(),
        rai.spec_ring() == ring,
        rai.spec_index() == index,
{
}

/// A bucket and an index into it, packed into 32 bits.
///
/// The order is by index first and by bucket second.
#[derive(Copy, Clone, Eq, PartialEq, Ord, Hash, Debug, Structural)]
pub struct BucketAndIndex(u32);

impl PartialOrd for BucketAndIndex {
    fn partial_cmp(&self, other: &BucketAndIndex) -> (order: Option<Ordering>) {
        if self.0 < other.0 {
            Some(Ordering::Less)
        } else if self.0 == other.0 {
            Some(Ordering::Equal)
        } else {
            Some(Ordering::Greater)
        }
    }
}

impl vstd::std_specs::cmp::PartialOrdSpecImpl for BucketAndIndex {
    open spec fn obeys_partial_cmp_spec() -> bool {
        true
    }

    open spec fn partial_cmp_spec(&self, other: &BucketAndIndex) -> Option<Ordering> {
        if self.raw() < other.raw() {
            Some(Ordering::Less)
        } else if self.raw() == other.raw() {
            Some(Ordering::Equal)
        } else {
            Some(Ordering::Greater)
        }
    }
}

impl BucketAndIndex {
    /// The packed number.
    pub closed spec fn raw(self) -> u32 {
        self.0
    }

    pub open spec fn spec_bucket(self) -> u8 {
        (self.raw() % 0x100) as u8
    }

    pub open spec fn spec_index(self) -> u32 {
        self.raw() / 0x100
    }

    #[must_use]
    pub fn new(bucket: u8, index: u32) -> (bai: BucketAndIndex)
        requires
            index <= MAX_ENTRIES,
        ensures
            bai.spec_bucket() == bucket,
            bai.spec_index() == index,
            bai.raw() == index * 0x100 + bucket,
    {
        let low: u32 = bucket as u32;
        assert((index << 8) | low == index * 0x100 + low) by (bit_vector)
            requires
                low <= 0xff,
                index <= 0xf_ffff,
        ;
        BucketAndIndex((index << 8) | low)
    }

    /// The packed number.
    #[must_use]
    pub fn packed(self) -> (packed: u32)
        ensures
            packed == self.raw(),
    {
        self.0
    }

    #[must_use]
    pub fn bucket(&self) -> (bucket: u8)
        ensures
            bucket == self.spec_bucket(),
    {
        (self.0 % 0x100) as u8
    }

    #[must_use]
    pub fn index(&self) -> (index: u32)
        ensures
            index == self.spec_index(),
    {
        self.0 / 0x100
    }
}

/// Rings and indices are ordered by index first and by ring second.
pub proof fn lemma_ring_and_index_order(a: RingAndIndex, b: RingAndIndex)
    requires
        a.wf(),
        b.wf(),
    ensures
        (vstd::std_specs::cmp::PartialOrdSpec::partial_cmp_spec(&a, &b) == Some(Ordering::Less))
            == (a.spec_index() < b.spec_index() || (a.spec_index() == b.spec_index()
            && a.spec_ring().spec_tag() < b.spec_ring().spec_tag())),
        (vstd::std_specs::cmp::PartialOrdSpec::partial_cmp_spec(&a, &b) == Some(Ordering::Equal))
            == (a == b),
{
}

/// Buckets and indices are ordered by index first and by bucket second.
pub proof fn lemma_bucket_and_index_order(a: BucketAndIndex, b: BucketAndIndex)
    ensures
        (vstd::std_specs::cmp::PartialOrdSpec::partial_cmp_spec(&a, &b) == Some(Ordering::Less))
            == (a.spec_index() < b.spec_index() || (a.spec_index() == b.spec_index()
            && a.spec_bucket() < b.spec_bucket())),
        (vstd::std_specs::cmp::PartialOrdSpec::partial_cmp_spec(&a, &b) == Some(Ordering::Equal))
            == (a == b),
{
}

/// A bucket and an index pin down their pack.
pub proof fn lemma_bucket_and_index_injective(a: BucketAndIndex, b: BucketAndIndex)
    requires
        a.spec_bucket() == b.spec_bucket(),
        a.spec_index() == b.spec_index(),
    ensures
        a == b,
{
    assert(a.raw() == (a.raw() / 0x100) * 0x100 + a.raw() % 0x100);
    assert(b.raw() == (b.raw() / 0x100) * 0x100 + b.raw() % 0x100);
}

/// What was packed is unpacked again, and told apart by its ID.
pub proof fn lemma_pack_is_undone(
    ring: RingKind,
    index: u32,
    rai: RingAndIndex,
    unpacked_ring: RingKind,
    unpacked_index: u32,
    id: u64,
)
    requires
        index <= MAX_ENTRIES,
        call_ensures(RingAndIndex::new, (ring, index), rai),
        call_ensures(RingAndIndex::ring, (rai,), unpacked_ring),
        call_ensures(RingAndIndex::index, (rai,), unpacked_index),
        call_ensures(RingAndIndex::id, (rai,), id),
    ensures
        unpacked_ring == ring,
        unpacked_index == index,
        ring == RingKind::Favorites ==> id == index,
        ring == RingKind::Main ==> id == index + 0x1_0000_0000,
{
}

/// The ID of a pack leads back to it.
pub proof fn lemma_id_leads_back(
    rai: RingAndIndex,
    id: u64,
    back: Result<RingAndIndex, IdNotFoundError>,
)
    requires
        rai.wf(),
        call_ensures(RingAndIndex::id, (rai,), id),
        call_ensures(RingAndIndex::from_id, (id,), back),
    ensures
        back == Ok::<RingAndIndex, IdNotFoundError>(rai),
{
    crate::protocol::lemma_decompose_of_composite(rai.spec_ring(), rai.spec_index());
    lemma_unpack(back->Ok_0, rai.spec_ring(), rai.spec_index());
    lemma_ring_and_index_injective(back->Ok_0, rai);
}

/// A bucket and an index that were packed are unpacked again.
pub proof fn lemma_bucket_pack_is_undone(
    bucket: u8,
    index: u32,
    bai: BucketAndIndex,
    unpacked_bucket: u8,
    unpacked_index: u32,
)
    requires
        index <= MAX_ENTRIES,
        call_ensures(BucketAndIndex::new, (bucket, index), bai),
        call_ensures(BucketAndIndex::bucket, (&bai,), unpacked_bucket),
        call_ensures(BucketAndIndex::index, (&bai,), unpacked_index),
    ensures
        unpacked_bucket == bucket,
        unpacked_index == index,
{
}

/// Packs are ordered as their numbers are: by index, and favorites first in each.
pub proof fn lemma_packed_numbers_are_ordered(
    ring1: RingKind,
    index1: u32,
    ring2: RingKind,
    index2: u32,
    a: RingAndIndex,
    b: RingAndIndex,
    packed1: u32,
    packed2: u32,
)
    requires
        index1 <= MAX_ENTRIES,
        index2 <= MAX_ENTRIES,
        call_ensures(RingAndIndex::new, (ring1, index1), a),
        call_ensures(RingAndIndex::new, (ring2, index2), b),
        call_ensures(RingAndIndex::packed, (a,), packed1),
        call_ensures(RingAndIndex::packed, (b,), packed2),
    ensures
        packed1 < packed2 <==> index1 < index2 || (index1 == index2 && ring1 == RingKind::Favorites
            && ring2 == RingKind::Main),
{
}

} // verus!
