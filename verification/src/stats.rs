//! Statistics about a database.

use vstd::prelude::*;
use vstd::utf8::*;

use crate::cli::dump_order;
use crate::protocol::RingKind;
use crate::ring_reader::{DatabaseReader, Entry, Kind};
use crate::text::{is_before, str_equal};
use crate::utils::{bucket_to_length, size_to_bucket, NUM_BUCKETS};

verus! {

/// The size of the blocks in which the system counts the space of files.
pub const BLOCK_LEN: u64 = 512;

/// An entry as the statistics see it.
#[allow(inconsistent_fields)]
pub enum Observation {
    Bucket { ring: RingKind, size: u16, duplicate: bool },
    File { ring: RingKind, size: u64, blocks: u64, mime_type: Seq<char>, duplicate: bool },
}

impl Observation {
    pub open spec fn ring(self) -> RingKind {
        match self {
            Observation::Bucket { ring, .. } => ring,
            Observation::File { ring, .. } => ring,
        }
    }

    pub open spec fn size(self) -> nat {
        match self {
            Observation::Bucket { size, .. } => size as nat,
            Observation::File { size, .. } => size as nat,
        }
    }

    /// The space that the system has set aside for the entry's own file.
    pub open spec fn allocated(self) -> nat {
        match self {
            Observation::File { blocks, .. } => (blocks * BLOCK_LEN) as nat,
            _ => 0,
        }
    }

    pub open spec fn duplicate(self) -> bool {
        match self {
            Observation::Bucket { duplicate, .. } => duplicate,
            Observation::File { duplicate, .. } => duplicate,
        }
    }

    /// Whether the entry is kept in the given bucket.
    pub open spec fn in_bucket(self, bucket: int) -> bool {
        self matches Observation::Bucket { size, .. } && crate::utils::spec_size_to_bucket(
            size as int,
        ) == bucket
    }
}

/// The sum of a quantity over all entries.
pub open spec fn total(seen: Seq<Observation>, quantity: spec_fn(Observation) -> nat) -> nat
    decreases seen.len(),
{
    if seen.len() == 0 {
        0
    } else {
        total(seen.drop_last(), quantity) + quantity(seen.last())
    }
}

/// The number of entries with a property.
pub open spec fn count(seen: Seq<Observation>, property: spec_fn(Observation) -> bool) -> nat {
    total(
        seen,
        |o: Observation|
            if property(o) {
                1nat
            } else {
                0
            },
    )
}

/// The sum of the sizes of the entries with a property.
pub open spec fn total_size(seen: Seq<Observation>, property: spec_fn(Observation) -> bool) -> nat {
    total(
        seen,
        |o: Observation|
            if property(o) {
                o.size()
            } else {
                0
            },
    )
}

/// The size of the smallest entry of a ring, or the largest number if it has none.
pub open spec fn min_size(seen: Seq<Observation>, ring: RingKind) -> nat
    decreases seen.len(),
{
    if seen.len() == 0 {
        u64::MAX as nat
    } else {
        let rest = min_size(seen.drop_last(), ring);
        if seen.last().ring() == ring && seen.last().size() < rest {
            seen.last().size()
        } else {
            rest
        }
    }
}

/// The size of the largest entry of a ring, or zero if it has none.
pub open spec fn max_size(seen: Seq<Observation>, ring: RingKind) -> nat
    decreases seen.len(),
{
    if seen.len() == 0 {
        0
    } else {
        let rest = max_size(seen.drop_last(), ring);
        if seen.last().ring() == ring && seen.last().size() > rest {
            seen.last().size()
        } else {
            rest
        }
    }
}

/// Statistics about a ring.
#[derive(Copy, Clone, Debug)]
pub struct RingStats {
    pub capacity: u32,
    pub len: u32,
    pub bucketed_entry_count: u32,
    pub file_entry_count: u32,
    pub num_duplicates: u32,
    pub min_entry_size: u64,
    pub max_entry_size: u64,
    pub owned_bytes: u64,
}

impl RingStats {
    /// Statistics about a ring none of whose entries have been looked at.
    pub fn new(capacity: u32, len: u32) -> (stats: RingStats)
        ensures
            stats.capacity == capacity,
            stats.len == len,
            forall|ring: RingKind| #[trigger] stats.describes(Seq::empty(), ring),
    {
        RingStats {
            capacity,
            len,
            bucketed_entry_count: 0,
            file_entry_count: 0,
            num_duplicates: 0,
            min_entry_size: u64::MAX,
            max_entry_size: 0,
            owned_bytes: 0,
        }
    }

    /// Whether these are the statistics about the entries of a ring.
    pub open spec fn describes(self, seen: Seq<Observation>, ring: RingKind) -> bool {
        &&& self.bucketed_entry_count == count(
            seen,
            |o: Observation| o.ring() == ring && o is Bucket,
        )
        &&& self.file_entry_count == count(seen, |o: Observation| o.ring() == ring && o is File)
        &&& self.num_duplicates == count(
            seen,
            |o: Observation| o.ring() == ring && o.duplicate(),
        )
        &&& self.owned_bytes == total_size(seen, |o: Observation| o.ring() == ring)
        &&& self.min_entry_size == min_size(seen, ring)
        &&& self.max_entry_size == max_size(seen, ring)
    }

    /// Room for one more entry of the given size.
    pub open spec fn has_room(self, size: u64) -> bool {
        &&& self.bucketed_entry_count < u32::MAX
        &&& self.file_entry_count < u32::MAX
        &&& self.num_duplicates < u32::MAX
        &&& self.owned_bytes + size <= u64::MAX
    }

    fn add_sized(&mut self, size: u64, duplicate: bool)
        requires
            old(self).has_room(size),
        ensures
            *final(self) == (RingStats {
                num_duplicates: (old(self).num_duplicates + if duplicate {
                    1int
                } else {
                    0
                }) as u32,
                min_entry_size: if size < old(self).min_entry_size {
                    size
                } else {
                    old(self).min_entry_size
                },
                max_entry_size: if size > old(self).max_entry_size {
                    size
                } else {
                    old(self).max_entry_size
                },
                owned_bytes: (old(self).owned_bytes + size) as u64,
                ..*old(self)
            }),
    {
        self.owned_bytes = self.owned_bytes + size;
        if size < self.min_entry_size {
            self.min_entry_size = size;
        }
        if size > self.max_entry_size {
            self.max_entry_size = size;
        }
        if duplicate {
            self.num_duplicates = self.num_duplicates + 1;
        }
    }

    /// The number of entries.
    pub fn num_entries(&self) -> (num: u32)
        requires
            self.bucketed_entry_count + self.file_entry_count <= u32::MAX,
        ensures
            num == self.bucketed_entry_count + self.file_entry_count,
    {
        self.bucketed_entry_count + self.file_entry_count
    }

    /// The number of slots without an entry.
    pub fn uninitialized_entry_count(&self) -> (num: u32)
        requires
            self.bucketed_entry_count + self.file_entry_count <= self.len,
        ensures
            num == self.len - self.bucketed_entry_count - self.file_entry_count,
    {
        self.len - self.num_entries()
    }
}

/// Statistics about a bucket.
#[derive(Copy, Clone, Debug)]
pub struct BucketStats {
    /// The exponent of the slot length.
    pub size_class: usize,
    pub num_slots: u32,
    pub used_slots: u32,
    pub owned_bytes: u64,
}

impl BucketStats {
    /// Whether these are the statistics about the entries of a bucket.
    pub open spec fn describes(self, seen: Seq<Observation>, bucket: int) -> bool {
        &&& self.size_class == bucket + 2
        &&& self.used_slots == count(seen, |o: Observation| o.in_bucket(bucket))
        &&& self.owned_bytes == total_size(seen, |o: Observation| o.in_bucket(bucket))
    }

    /// The number of slots without an entry.
    pub fn free_slots(&self) -> (free: u32)
        requires
            self.used_slots <= self.num_slots,
        ensures
            free == self.num_slots - self.used_slots,
    {
        self.num_slots - self.used_slots
    }

    /// The number of bytes in used slots.
    pub fn used_bytes(&self) -> (bytes: u64)
        requires
            2 <= self.size_class < NUM_BUCKETS + 2,
        ensures
            bytes == crate::utils::spec_bucket_to_length(self.size_class - 2) * self.used_slots,
    {
        let length: u64 = bucket_to_length(self.size_class - 2) as u64;
        let used: u64 = self.used_slots as u64;
        assert(length * used <= 4096 * u32::MAX) by (nonlinear_arith)
            requires
                0 <= length <= 4096,
                0 <= used <= u32::MAX,
        ;
        length * used
    }

    /// The number of bytes in used slots that hold no contents.
    pub fn fragmentation_bytes(&self) -> (bytes: u64)
        requires
            2 <= self.size_class < NUM_BUCKETS + 2,
            self.owned_bytes <= crate::utils::spec_bucket_to_length(self.size_class - 2)
                * self.used_slots,
        ensures
            bytes == crate::utils::spec_bucket_to_length(self.size_class - 2) * self.used_slots
                - self.owned_bytes,
    {
        self.used_bytes() - self.owned_bytes
    }
}

/// Whether texts are in the order of their bytes.
pub open spec fn are_sorted(names: Seq<Seq<char>>) -> bool {
    forall|i: int, j: int|
        0 <= i < j < names.len() ==> crate::text::bytes_before(
            encode_utf8(#[trigger] names[i]),
            encode_utf8(#[trigger] names[j]),
        )
}

/// How often each mime type occurs.
#[derive(Debug)]
pub struct MimeCounts {
    names: Vec<String>,
    counts: Vec<u32>,
}

impl MimeCounts {
    pub closed spec fn spec_names(self) -> Seq<Seq<char>> {
        Seq::new(self.names@.len(), |i: int| self.names@[i]@)
    }

    pub closed spec fn spec_counts(self) -> Seq<u32> {
        self.counts@
    }

    /// Every mime type that occurs is listed once, in the order of their bytes.
    pub open spec fn wf(self) -> bool {
        &&& self.spec_names().len() == self.spec_counts().len()
        &&& self.spec_names().no_duplicates()
        &&& are_sorted(self.spec_names())
    }

    /// How often a mime type occurs.
    pub open spec fn count_of(self, name: Seq<char>) -> nat {
        if self.spec_names().contains(name) {
            self.spec_counts()[self.spec_names().index_of(name)] as nat
        } else {
            0
        }
    }

    pub fn new() -> (counts: MimeCounts)
        ensures
            counts.wf(),
            counts.spec_names() == Seq::<Seq<char>>::empty(),
            forall|name: Seq<char>| #[trigger] counts.count_of(name) == 0,
    {
        let counts = MimeCounts { names: Vec::new(), counts: Vec::new() };
        assert(counts.spec_names() =~= Seq::<Seq<char>>::empty());
        counts
    }

    /// The mime types with how often they occur.
    pub fn entries(&self) -> (entries: (&Vec<String>, &Vec<u32>))
        ensures
            entries.0@.len() == self.spec_names().len(),
            forall|i: int|
                0 <= i < entries.0@.len() ==> #[trigger] entries.0@[i]@ == self.spec_names()[i],
            entries.1@ == self.spec_counts(),
    {
        (&self.names, &self.counts)
    }

    /// Counts one more occurrence of a mime type.
    pub fn increment(&mut self, name: &str)
        requires
            old(self).wf(),
            old(self).count_of(name@) < u32::MAX,
        ensures
            final(self).wf(),
            forall|other: Seq<char>| #[trigger]
                final(self).count_of(other) == old(self).count_of(other) + if other == name@ {
                    1nat
                } else {
                    0
                },
    {
        let ghost before = *self;
        let ghost names = self.spec_names();
        let mut i: usize = 0;
        while i < self.names.len() && is_before(self.names[i].as_str().as_bytes(), name.as_bytes())
            invariant
                *self == before,
                names == self.spec_names(),
                i <= names.len(),
                names.len() == self.names@.len(),
                forall|j: int|
                    0 <= j < i ==> crate::text::bytes_before(
                        encode_utf8(#[trigger] names[j]),
                        encode_utf8(name@),
                    ),
            decreases names.len() - i,
        {
            assert(names[i as int] == self.names@[i as int]@);
            i += 1;
        }
        if i < self.names.len() && str_equal(self.names[i].as_str(), name) {
            proof {
                assert(names[i as int] == name@);
                assert(names.contains(name@));
                assert(names.index_of(name@) == i);
            }
            let count: u32 = self.counts[i];
            self.counts.set(i, count + 1);
            proof {
                assert(self.spec_names() =~= names);
                assert forall|other: Seq<char>| #[trigger]
                    self.count_of(other) == before.count_of(other) + if other == name@ {
                        1nat
                    } else {
                        0
                    } by {
                    if other != name@ && names.contains(other) {
                        let k = names.index_of(other);
                        assert(names[k] == other);
                        assert(k != i);
                    }
                }
            }
            return;
        }
        self.names.insert(i, name.to_owned());
        self.counts.insert(i, 1);
        proof {
            let after = self.spec_names();
            assert(after =~= names.insert(i as int, name@));
            lemma_sorted_insert(names, i as int, name@);
            assert(after[i as int] == name@);
            assert(after.contains(name@));
            assert(after.index_of(name@) == i);
            assert forall|other: Seq<char>| #[trigger]
                self.count_of(other) == before.count_of(other) + if other == name@ {
                    1nat
                } else {
                    0
                } by {
                if other == name@ {
                    if names.contains(other) {
                        let k = names.index_of(other);
                        assert(names[k] == other);
                    }
                } else if names.contains(other) {
                    let k = names.index_of(other);
                    assert(names[k] == other);
                    let moved = if k < i {
                        k
                    } else {
                        k + 1
                    };
                    assert(after[moved] == other);
                    assert(after.contains(other));
                    assert(after.index_of(other) == moved);
                } else if after.contains(other) {
                    let k = after.index_of(other);
                    assert(after[k] == other);
                    if k < i {
                        assert(names[k] == other);
                    } else {
                        assert(names[k - 1] == other);
                    }
                }
            }
        }
    }
}

/// A text that is put between those before it and those after it leaves texts sorted.
proof fn lemma_sorted_insert(names: Seq<Seq<char>>, at: int, name: Seq<char>)
    requires
        are_sorted(names),
        0 <= at <= names.len(),
        forall|j: int|
            0 <= j < at ==> crate::text::bytes_before(
                encode_utf8(#[trigger] names[j]),
                encode_utf8(name),
            ),
        at < names.len() ==> names[at] != name && !crate::text::bytes_before(
            encode_utf8(names[at]),
            encode_utf8(name),
        ),
    ensures
        are_sorted(names.insert(at, name)),
        names.insert(at, name).no_duplicates(),
        !names.contains(name),
{
    let after = names.insert(at, name);
    if at < names.len() {
        encode_utf8_decode_utf8(names[at]);
        encode_utf8_decode_utf8(name);
        crate::text::lemma_bytes_before_total(encode_utf8(names[at]), encode_utf8(name));
    }
    assert forall|j: int| at <= j < names.len() implies crate::text::bytes_before(
        encode_utf8(name),
        encode_utf8(#[trigger] names[j]),
    ) by {
        if j > at {
            crate::text::lemma_bytes_before_trans(
                encode_utf8(name),
                encode_utf8(names[at]),
                encode_utf8(names[j]),
            );
        }
    }
    assert forall|i: int, j: int| 0 <= i < j < after.len() implies crate::text::bytes_before(
        encode_utf8(#[trigger] after[i]),
        encode_utf8(#[trigger] after[j]),
    ) by {
        if j < at {
            assert(after[i] == names[i] && after[j] == names[j]);
        } else if j == at {
            assert(after[i] == names[i]);
        } else if i < at {
            assert(after[i] == names[i] && after[j] == names[j - 1]);
        } else if i == at {
            assert(after[j] == names[j - 1]);
        } else {
            assert(after[i] == names[i - 1] && after[j] == names[j - 1]);
        }
    }
    assert forall|i: int, j: int| 0 <= i < after.len() && 0 <= j < after.len() && i != j implies
        after[i] != after[j] by {
        crate::text::lemma_bytes_before_total(encode_utf8(after[i]), encode_utf8(after[j]));
        if i < j {
            assert(crate::text::bytes_before(encode_utf8(after[i]), encode_utf8(after[j])));
        } else {
            assert(crate::text::bytes_before(encode_utf8(after[j]), encode_utf8(after[i])));
        }
    }
    if names.contains(name) {
        let k = choose|k: int| 0 <= k < names.len() && names[k] == name;
        crate::text::lemma_bytes_before_total(encode_utf8(name), encode_utf8(name));
    }
}

/// Statistics about the direct files.
#[derive(Debug)]
pub struct DirectFileStats {
    pub owned_bytes: u64,
    pub allocated_bytes: u64,
    pub mime_types: MimeCounts,
}

impl DirectFileStats {
    /// Whether these are the statistics about the entries with direct files.
    pub open spec fn describes(self, seen: Seq<Observation>) -> bool {
        &&& self.mime_types.wf()
        &&& self.owned_bytes == total_size(seen, |o: Observation| o is File)
        &&& self.allocated_bytes == total(
            seen,
            |o: Observation| o.allocated(),
        )
        &&& forall|name: Seq<char>| #[trigger]
            self.mime_types.count_of(name) == count(
                seen,
                |o: Observation| o matches Observation::File { mime_type, .. } && mime_type == name,
            )
    }

    /// The number of allocated bytes that hold no contents.
    pub fn fragmentation_bytes(&self) -> (bytes: u64)
        requires
            self.owned_bytes <= self.allocated_bytes,
        ensures
            bytes == self.allocated_bytes - self.owned_bytes,
    {
        self.allocated_bytes - self.owned_bytes
    }
}

/// Statistics about a database.
pub struct Stats {
    pub favorites: RingStats,
    pub main: RingStats,
    pub buckets: Vec<BucketStats>,
    pub direct_files: DirectFileStats,
    pub seen: Ghost<Seq<Observation>>,
}

impl Stats {
    pub open spec fn ring(self, ring: RingKind) -> RingStats {
        match ring {
            RingKind::Favorites => self.favorites,
            RingKind::Main => self.main,
        }
    }

    /// These are the statistics about the entries seen.
    pub open spec fn wf(self) -> bool {
        &&& self.favorites.describes(self.seen@, RingKind::Favorites)
        &&& self.main.describes(self.seen@, RingKind::Main)
        &&& self.buckets@.len() == NUM_BUCKETS
        &&& forall|b: int|
            0 <= b < NUM_BUCKETS ==> (#[trigger] self.buckets@[b]).describes(self.seen@, b)
        &&& self.direct_files.describes(self.seen@)
        &&& forall|i: int|
            0 <= i < self.seen@.len() ==> (#[trigger] self.seen@[i] matches Observation::Bucket {
                size,
                ..
            } ==> size < 4096)
    }

    /// The rings and buckets are those of the other statistics, whatever entries were
    /// looked at.
    pub open spec fn same_places(self, other: Stats) -> bool {
        &&& self.favorites.capacity == other.favorites.capacity
        &&& self.favorites.len == other.favorites.len
        &&& self.main.capacity == other.main.capacity
        &&& self.main.len == other.main.len
        &&& forall|b: int|
            0 <= b < NUM_BUCKETS ==> (#[trigger] self.buckets@[b]).num_slots
                == other.buckets@[b].num_slots
    }

    /// Statistics before any entry was looked at. `bucket_lens` are the lengths
    /// of the bucket files.
    pub fn new(favorites: RingStats, main: RingStats, bucket_lens: &Vec<usize>) -> (stats: Stats)
        requires
            favorites.describes(Seq::empty(), RingKind::Favorites),
            main.describes(Seq::empty(), RingKind::Main),
            bucket_lens@.len() == NUM_BUCKETS,
            forall|b: int|
                0 <= b < NUM_BUCKETS ==> (#[trigger] bucket_lens@[b]) as int
                    / crate::utils::spec_bucket_to_length(b) <= u32::MAX,
        ensures
            stats.wf(),
            stats.seen@ == Seq::<Observation>::empty(),
            stats.favorites == favorites,
            stats.main == main,
            forall|b: int|
                0 <= b < NUM_BUCKETS ==> (#[trigger] stats.buckets@[b]).num_slots
                    == bucket_lens@[b] as int / crate::utils::spec_bucket_to_length(b),
    {
        let mut buckets: Vec<BucketStats> = Vec::new();
        let mut b: usize = 0;
        while b < NUM_BUCKETS
            invariant
                b <= NUM_BUCKETS,
                buckets@.len() == b,
                bucket_lens@.len() == NUM_BUCKETS,
                forall|i: int|
                    0 <= i < NUM_BUCKETS ==> (#[trigger] bucket_lens@[i]) as int
                        / crate::utils::spec_bucket_to_length(i) <= u32::MAX,
                forall|i: int|
                    0 <= i < b ==> (#[trigger] buckets@[i]).describes(Seq::empty(), i)
                        && buckets@[i].num_slots == bucket_lens@[i] as int
                        / crate::utils::spec_bucket_to_length(i),
            decreases NUM_BUCKETS - b,
        {
            let slots: usize = bucket_lens[b] / bucket_to_length(b) as usize;
            assert(bucket_lens@[b as int] as int / crate::utils::spec_bucket_to_length(b as int)
                <= u32::MAX);
            buckets.push(
                BucketStats {
                    size_class: b + 2,
                    num_slots: slots as u32,
                    used_slots: 0,
                    owned_bytes: 0,
                },
            );
            b += 1;
        }
        let direct_files = DirectFileStats {
            owned_bytes: 0,
            allocated_bytes: 0,
            mime_types: MimeCounts::new(),
        };
        Stats { favorites, main, buckets, direct_files, seen: Ghost(Seq::empty()) }
    }

    /// Looks at a bucketed entry.
    pub fn add_bucketed(&mut self, ring: RingKind, size: u16, duplicate: bool)
        requires
            old(self).wf(),
            size < 4096,
            old(self).ring(ring).has_room(size as u64),
            ({
                let bucket = old(self).buckets@[crate::utils::spec_size_to_bucket(size as int)];
                bucket.used_slots < u32::MAX && bucket.owned_bytes + size <= u64::MAX
            }),
        ensures
            final(self).wf(),
            final(self).same_places(*old(self)),
            final(self).seen@ == old(self).seen@.push(
                Observation::Bucket { ring, size, duplicate },
            ),
    {
        let ghost seen = self.seen@;
        let ghost o = Observation::Bucket { ring, size, duplicate };
        let ghost now = seen.push(o);
        let b: usize = size_to_bucket(size) as usize;
        let bucket = self.buckets[b];
        self.buckets.set(
            b,
            BucketStats {
                size_class: bucket.size_class,
                num_slots: bucket.num_slots,
                used_slots: bucket.used_slots + 1,
                owned_bytes: bucket.owned_bytes + size as u64,
            },
        );
        match ring {
            RingKind::Favorites => {
                self.favorites.add_sized(size as u64, duplicate);
                self.favorites.bucketed_entry_count = self.favorites.bucketed_entry_count + 1;
            },
            RingKind::Main => {
                self.main.add_sized(size as u64, duplicate);
                self.main.bucketed_entry_count = self.main.bucketed_entry_count + 1;
            },
        }
        self.seen = Ghost(now);
        assert(now.drop_last() =~= seen);
        assert(now.last() == o);
    }

    /// Looks at an entry with a direct file.
    pub fn add_file(
        &mut self,
        ring: RingKind,
        size: u64,
        blocks: u64,
        mime_type: &str,
        duplicate: bool,
    )
        requires
            old(self).wf(),
            old(self).ring(ring).has_room(size),
            old(self).direct_files.owned_bytes + size <= u64::MAX,
            old(self).direct_files.allocated_bytes + blocks * BLOCK_LEN <= u64::MAX,
            old(self).direct_files.mime_types.count_of(mime_type@) < u32::MAX,
        ensures
            final(self).wf(),
            final(self).same_places(*old(self)),
            final(self).seen@ == old(self).seen@.push(
                Observation::File { ring, size, blocks, mime_type: mime_type@, duplicate },
            ),
    {
        let ghost seen = self.seen@;
        let ghost o = Observation::File { ring, size, blocks, mime_type: mime_type@, duplicate };
        let ghost now = seen.push(o);
        self.direct_files.owned_bytes = self.direct_files.owned_bytes + size;
        self.direct_files.allocated_bytes = self.direct_files.allocated_bytes + blocks * BLOCK_LEN;
        self.direct_files.mime_types.increment(mime_type);
        match ring {
            RingKind::Favorites => {
                self.favorites.add_sized(size, duplicate);
                self.favorites.file_entry_count = self.favorites.file_entry_count + 1;
            },
            RingKind::Main => {
                self.main.add_sized(size, duplicate);
                self.main.file_entry_count = self.main.file_entry_count + 1;
            },
        }
        self.seen = Ghost(now);
        assert(now.drop_last() =~= seen);
        assert(now.last() == o);
    }
}

/// What is found out about an entry by reading it: whether it is a duplicate, and the
/// size, space and mime type of its file if it has one of its own.
#[derive(Debug)]
pub struct EntryFacts {
    pub duplicate: bool,
    pub size: u64,
    pub blocks: u64,
    pub mime_type: String,
}

/// An entry of a ring as the statistics see it.
pub open spec fn observation(entry: Entry, facts: EntryFacts) -> Observation {
    match entry.spec_kind() {
        Kind::Bucket(metadata) => Observation::Bucket {
            ring: entry.spec_ring(),
            size: metadata.spec_size(),
            duplicate: facts.duplicate,
        },
        Kind::File => Observation::File {
            ring: entry.spec_ring(),
            size: facts.size,
            blocks: facts.blocks,
            mime_type: facts.mime_type@,
            duplicate: facts.duplicate,
        },
    }
}

/// Entries as the statistics see them.
pub open spec fn observations(entries: Seq<Entry>, facts: Seq<EntryFacts>) -> Seq<Observation> {
    Seq::new(entries.len(), |i: int| observation(entries[i], facts[i]))
}

impl Stats {
    /// The statistics about all entries of a database, given what was found out about
    /// each of them.
    pub fn of_database(
        database: &DatabaseReader<'_>,
        bucket_lens: &Vec<usize>,
        facts: &Vec<EntryFacts>,
    ) -> (stats: Stats)
        requires
            database.wf(),
            crate::ring_reader::can_walk(database.spec_favorites()),
            crate::ring_reader::can_walk(database.spec_main()),
            bucket_lens@.len() == NUM_BUCKETS,
            forall|b: int|
                0 <= b < NUM_BUCKETS ==> (#[trigger] bucket_lens@[b]) as int
                    / crate::utils::spec_bucket_to_length(b) <= u32::MAX,
            facts@.len() == crate::cli::all_entries(*database).len(),
            total(
                observations(crate::cli::all_entries(*database), facts@),
                |o: Observation| o.size(),
            ) <= u64::MAX,
            total(
                observations(crate::cli::all_entries(*database), facts@),
                |o: Observation| o.allocated(),
            ) <= u64::MAX,
        ensures
            stats.wf(),
            stats.seen@ == observations(crate::cli::all_entries(*database), facts@),
            forall|kind: RingKind|
                {
                    let ring = #[trigger] stats.ring(kind);
                    &&& ring.capacity == database.spec_ring(kind).spec_capacity()
                    &&& ring.len == database.spec_ring(kind).spec_len()
                },
            forall|b: int|
                0 <= b < NUM_BUCKETS ==> (#[trigger] stats.buckets@[b]).num_slots
                    == bucket_lens@[b] as int / crate::utils::spec_bucket_to_length(b),
    {
        let entries = dump_order(database);
        proof {
            crate::ring_reader::lemma_walk_len(database.spec_favorites(), RingKind::Favorites);
            crate::ring_reader::lemma_walk_len(database.spec_main(), RingKind::Main);
        }
        let favorites = RingStats::new(
            database.favorites_ring().capacity(),
            database.favorites_ring().len(),
        );
        let main = RingStats::new(database.main_ring().capacity(), database.main_ring().len());
        let mut stats = Stats::new(favorites, main, bucket_lens);
        let ghost start = stats;
        let ghost all = observations(entries@, facts@);
        let mut i: usize = 0;
        assert(all.take(0) =~= Seq::<Observation>::empty());
        while i < entries.len()
            invariant
                i <= entries@.len(),
                entries@.len() == facts@.len() < u32::MAX,
                all == observations(entries@, facts@),
                total(all, |o: Observation| o.size()) <= u64::MAX,
                total(all, |o: Observation| o.allocated()) <= u64::MAX,
                stats.wf(),
                stats.seen@ == all.take(i as int),
                stats.same_places(start),
            decreases entries@.len() - i,
        {
            let entry = &entries[i];
            proof {
                lemma_room(stats, all, i as int);
                assert(all.take(i + 1) =~= all.take(i as int).push(all[i as int]));
            }
            match entry.kind() {
                Kind::Bucket(metadata) => {
                    let size: u16 = metadata.size();
                    proof {
                        crate::utils::lemma_bucket_exists(size);
                    }
                    stats.add_bucketed(entry.ring(), size, facts[i].duplicate);
                },
                Kind::File => {
                    stats.add_file(
                        entry.ring(),
                        facts[i].size,
                        facts[i].blocks,
                        facts[i].mime_type.as_str(),
                        facts[i].duplicate,
                    );
                },
            }
            i += 1;
        }
        assert(all.take(entries@.len() as int) =~= all);
        stats
    }
}

proof fn lemma_total_prefix(
    seen: Seq<Observation>,
    quantity: spec_fn(Observation) -> nat,
    n: int,
)
    requires
        0 <= n <= seen.len(),
    ensures
        total(seen.take(n), quantity) <= total(seen, quantity),
    decreases seen.len(),
{
    if n < seen.len() {
        lemma_total_prefix(seen.drop_last(), quantity, n);
        assert(seen.drop_last().take(n) =~= seen.take(n));
    } else {
        assert(seen.take(n) =~= seen);
    }
}

proof fn lemma_count_bound(seen: Seq<Observation>, property: spec_fn(Observation) -> bool)
    ensures
        count(seen, property) <= seen.len(),
    decreases seen.len(),
{
    if seen.len() > 0 {
        lemma_count_bound(seen.drop_last(), property);
    }
}

proof fn lemma_total_size_in_all(seen: Seq<Observation>, property: spec_fn(Observation) -> bool)
    ensures
        total_size(seen, property) <= total(seen, |o: Observation| o.size()),
    decreases seen.len(),
{
    if seen.len() > 0 {
        lemma_total_size_in_all(seen.drop_last(), property);
    }
}

/// There is room for the next entry as long as all entries together have room.
proof fn lemma_room(stats: Stats, all: Seq<Observation>, i: int)
    requires
        stats.wf(),
        0 <= i < all.len() < u32::MAX,
        stats.seen@ == all.take(i),
        total(all, |o: Observation| o.size()) <= u64::MAX,
        total(all, |o: Observation| o.allocated()) <= u64::MAX,
    ensures
        forall|kind: RingKind| (#[trigger] stats.ring(kind)).has_room(all[i].size() as u64),
        forall|b: int|
            0 <= b < NUM_BUCKETS ==> (#[trigger] stats.buckets@[b]).used_slots < u32::MAX
                && stats.buckets@[b].owned_bytes + all[i].size() <= u64::MAX,
        stats.direct_files.owned_bytes + all[i].size() <= u64::MAX,
        stats.direct_files.allocated_bytes + all[i].allocated() <= u64::MAX,
        forall|name: Seq<char>| #[trigger]
            stats.direct_files.mime_types.count_of(name) < u32::MAX,
        all[i].size() <= u64::MAX,
{
    let seen = all.take(i);
    let size = |o: Observation| o.size();
    let allocated = |o: Observation| o.allocated();
    let next = all.take(i + 1);
    assert(next.drop_last() =~= seen);
    assert(next.last() == all[i]);
    lemma_total_prefix(all, size, i + 1);
    lemma_total_prefix(all, allocated, i + 1);
    assert(total(next, size) == total(seen, size) + all[i].size());
    assert(total(next, allocated) == total(seen, allocated) + all[i].allocated());
    assert forall|kind: RingKind| (#[trigger] stats.ring(kind)).has_room(all[i].size() as u64) by {
        assert(stats.ring(kind).describes(seen, kind));
        lemma_count_bound(seen, |o: Observation| o.ring() == kind && o is Bucket);
        lemma_count_bound(seen, |o: Observation| o.ring() == kind && o is File);
        lemma_count_bound(seen, |o: Observation| o.ring() == kind && o.duplicate());
        lemma_total_size_in_all(seen, |o: Observation| o.ring() == kind);
    }
    assert forall|b: int| 0 <= b < NUM_BUCKETS implies (#[trigger] stats.buckets@[b]).used_slots
        < u32::MAX && stats.buckets@[b].owned_bytes + all[i].size() <= u64::MAX by {
        assert(stats.buckets@[b].describes(seen, b));
        lemma_count_bound(seen, |o: Observation| o.in_bucket(b));
        lemma_total_size_in_all(seen, |o: Observation| o.in_bucket(b));
    }
    lemma_total_size_in_all(seen, |o: Observation| o is File);
    assert forall|name: Seq<char>| #[trigger]
        stats.direct_files.mime_types.count_of(name) < u32::MAX by {
        lemma_count_bound(
            seen,
            |o: Observation| o matches Observation::File { mime_type, .. } && mime_type == name,
        );
    }
}

/// The entries that are counted for a ring are those in its initialized slots, so there
/// are no more of them than the ring is long.
pub proof fn lemma_entries_are_counted(
    database: DatabaseReader,
    facts: Seq<EntryFacts>,
    stats: Stats,
    kind: RingKind,
)
    requires
        database.wf(),
        crate::ring_reader::is_head_within(database.spec_favorites()),
        crate::ring_reader::is_head_within(database.spec_main()),
        facts.len() == crate::cli::all_entries(database).len(),
        stats.wf(),
        stats.seen@ == observations(crate::cli::all_entries(database), facts),
    ensures
        stats.ring(kind).bucketed_entry_count + stats.ring(kind).file_entry_count
            == crate::ring_reader::num_initialized(
            database.spec_ring(kind),
            database.spec_ring(kind).spec_len() as nat,
        ),
        stats.ring(kind).bucketed_entry_count + stats.ring(kind).file_entry_count
            <= database.spec_ring(kind).spec_len(),
{
    let favorites = crate::ring_reader::contents(database.spec_favorites(), RingKind::Favorites);
    let main = crate::ring_reader::contents(database.spec_main(), RingKind::Main);
    crate::ring_reader::lemma_full_walk(database.spec_favorites(), RingKind::Favorites);
    crate::ring_reader::lemma_full_walk(database.spec_main(), RingKind::Main);
    crate::ring_reader::lemma_contents_len(database.spec_favorites(), RingKind::Favorites);
    crate::ring_reader::lemma_contents_len(database.spec_main(), RingKind::Main);
    crate::ring_reader::lemma_contents_complete(database.spec_favorites(), RingKind::Favorites);
    crate::ring_reader::lemma_contents_complete(database.spec_main(), RingKind::Main);
    let entries = crate::cli::all_entries(database);
    assert(entries == favorites + main);
    let seen = stats.seen@;
    let n = favorites.len() as int;
    let ring = |o: Observation| o.ring() == kind;
    lemma_count_split(
        seen,
        |o: Observation| o.ring() == kind && o is Bucket,
        |o: Observation| o.ring() == kind && o is File,
        ring,
    );
    assert(stats.ring(kind).describes(seen, kind));
    assert forall|i: int| 0 <= i < seen.len() implies #[trigger] seen[i].ring() == if i < n {
        RingKind::Favorites
    } else {
        RingKind::Main
    } by {
        if i < n {
            assert(favorites.contains(favorites[i]));
            assert(entries[i] == favorites[i]);
        } else {
            assert(main.contains(main[i - n]));
            assert(entries[i] == main[i - n]);
        }
    }
    lemma_count_between(
        seen,
        ring,
        if kind == RingKind::Favorites {
            0
        } else {
            n
        },
        if kind == RingKind::Favorites {
            n
        } else {
            seen.len() as int
        },
    );
}

/// The number of entries with a property that exactly those from one place up to another
/// have.
proof fn lemma_count_between(
    seen: Seq<Observation>,
    property: spec_fn(Observation) -> bool,
    from: int,
    to: int,
)
    requires
        0 <= from <= to <= seen.len(),
        forall|i: int| 0 <= i < seen.len() ==> property(#[trigger] seen[i]) == (from <= i < to),
    ensures
        count(seen, property) == to - from,
    decreases seen.len(),
{
    if seen.len() > 0 {
        let rest = seen.drop_last();
        let last = seen.len() - 1;
        assert(seen.last() == seen[last]);
        assert forall|i: int| 0 <= i < rest.len() implies property(#[trigger] rest[i]) == (from <= i
            < to) by {
            assert(rest[i] == seen[i]);
        }
        if to == seen.len() {
            if from == to {
                lemma_count_between(rest, property, last, last);
            } else {
                lemma_count_between(rest, property, from, last);
            }
        } else {
            lemma_count_between(rest, property, from, to);
        }
    }
}

/// No more entries are duplicates than there are.
pub proof fn lemma_duplicates_are_entries(stats: Stats, kind: RingKind)
    requires
        stats.wf(),
    ensures
        stats.ring(kind).num_duplicates <= stats.ring(kind).bucketed_entry_count
            + stats.ring(kind).file_entry_count,
{
    let seen = stats.seen@;
    assert(stats.ring(kind).describes(seen, kind));
    let ring = |o: Observation| o.ring() == kind;
    lemma_count_split(
        seen,
        |o: Observation| o.ring() == kind && o is Bucket,
        |o: Observation| o.ring() == kind && o is File,
        ring,
    );
    lemma_count_split(
        seen,
        |o: Observation| o.ring() == kind && o.duplicate(),
        |o: Observation| o.ring() == kind && !o.duplicate(),
        ring,
    );
}

/// The number of bytes in the first buckets.
pub open spec fn bucketed_bytes(buckets: Seq<BucketStats>, n: nat) -> nat
    decreases n,
{
    if n == 0 {
        0
    } else {
        bucketed_bytes(buckets, (n - 1) as nat) + buckets[n - 1].owned_bytes as nat
    }
}

/// The bytes of the rings are those that the buckets and the direct files hold.
pub proof fn lemma_owned_bytes_add_up(stats: Stats)
    requires
        stats.wf(),
    ensures
        bucketed_bytes(stats.buckets@, NUM_BUCKETS as nat) + stats.direct_files.owned_bytes
            == stats.favorites.owned_bytes + stats.main.owned_bytes,
{
    let seen = stats.seen@;
    lemma_bucketed_bytes(stats, NUM_BUCKETS as nat);
    assert forall|i: int| 0 <= i < seen.len() && #[trigger] seen[i] is Bucket implies in_first_buckets(
        seen[i],
        NUM_BUCKETS as nat,
    ) by {
        if let Observation::Bucket { size, .. } = seen[i] {
            crate::utils::lemma_bucket_exists(size);
        }
    }
    lemma_size_split(
        seen,
        |o: Observation| in_first_buckets(o, NUM_BUCKETS as nat),
        |o: Observation| o is File,
        |o: Observation| true,
    );
    lemma_size_split(
        seen,
        |o: Observation| o.ring() == RingKind::Favorites,
        |o: Observation| o.ring() == RingKind::Main,
        |o: Observation| true,
    );
}

proof fn lemma_bucketed_bytes(stats: Stats, n: nat)
    requires
        stats.wf(),
        n <= NUM_BUCKETS,
    ensures
        bucketed_bytes(stats.buckets@, n) == total_size(
            stats.seen@,
            |o: Observation| in_first_buckets(o, n),
        ),
    decreases n,
{
    let seen = stats.seen@;
    if n == 0 {
        assert forall|i: int| 0 <= i < seen.len() implies !in_first_buckets(#[trigger] seen[i], 0) by {
            if let Observation::Bucket { size, .. } = seen[i] {
                crate::utils::lemma_bucket_exists(size);
            }
        }
        lemma_size_split(
            seen,
            |o: Observation| in_first_buckets(o, 0),
            |o: Observation| in_first_buckets(o, 0),
            |o: Observation| in_first_buckets(o, 0),
        );
    } else {
        lemma_bucketed_bytes(stats, (n - 1) as nat);
        assert(stats.buckets@[n - 1].describes(seen, n - 1));
        lemma_size_split(
            seen,
            |o: Observation| in_first_buckets(o, (n - 1) as nat),
            |o: Observation| o.in_bucket(n - 1),
            |o: Observation| in_first_buckets(o, n),
        );
    }
}

proof fn lemma_size_split(
    seen: Seq<Observation>,
    one: spec_fn(Observation) -> bool,
    other: spec_fn(Observation) -> bool,
    either: spec_fn(Observation) -> bool,
)
    requires
        forall|i: int|
            0 <= i < seen.len() ==> either(#[trigger] seen[i]) == (one(seen[i]) || other(seen[i]))
                && !(one(seen[i]) && other(seen[i])),
    ensures
        total_size(seen, either) == total_size(seen, one) + total_size(seen, other),
    decreases seen.len(),
{
    if seen.len() > 0 {
        let rest = seen.drop_last();
        assert forall|i: int| 0 <= i < rest.len() implies either(#[trigger] rest[i]) == (one(rest[i])
            || other(rest[i])) && !(one(rest[i]) && other(rest[i])) by {
            assert(rest[i] == seen[i]);
        }
        lemma_size_split(rest, one, other, either);
        assert(seen.last() == seen[seen.len() - 1]);
    }
}

/// The sum of the first counts.
pub open spec fn counted(counts: Seq<u32>, n: nat) -> nat
    decreases n,
{
    if n == 0 {
        0
    } else {
        counted(counts, (n - 1) as nat) + counts[n - 1] as nat
    }
}

/// Every entry with a direct file is counted for exactly one mime type.
pub proof fn lemma_mime_counts_add_up(stats: Stats)
    requires
        stats.wf(),
    ensures
        counted(
            stats.direct_files.mime_types.spec_counts(),
            stats.direct_files.mime_types.spec_counts().len(),
        ) == stats.favorites.file_entry_count + stats.main.file_entry_count,
{
    let seen = stats.seen@;
    let names = stats.direct_files.mime_types.spec_names();
    lemma_counted(stats, names.len());
    assert(names.take(names.len() as int) =~= names);
    assert forall|i: int| 0 <= i < seen.len() implies (#[trigger] seen[i] matches Observation::File {
        mime_type,
        ..
    } ==> names.contains(mime_type)) by {
        if let Observation::File { mime_type, .. } = seen[i] {
            lemma_count_positive(
                seen,
                |o: Observation|
                    o matches Observation::File { mime_type: m, .. } && m == mime_type,
                i,
            );
            assert(stats.direct_files.mime_types.count_of(mime_type) > 0);
        }
    }
    lemma_count_split(
        seen,
        |o: Observation| o.ring() == RingKind::Favorites && o is File,
        |o: Observation| o.ring() == RingKind::Main && o is File,
        |o: Observation| has_mime_of(o, names),
    );
}

/// Whether an entry has a direct file with one of some mime types.
pub open spec fn has_mime_of(o: Observation, names: Seq<Seq<char>>) -> bool {
    o matches Observation::File { mime_type, .. } && names.contains(mime_type)
}

proof fn lemma_counted(stats: Stats, n: nat)
    requires
        stats.wf(),
        n <= stats.direct_files.mime_types.spec_names().len(),
    ensures
        counted(stats.direct_files.mime_types.spec_counts(), n) == count(
            stats.seen@,
            |o: Observation|
                has_mime_of(o, stats.direct_files.mime_types.spec_names().take(n as int)),
        ),
    decreases n,
{
    let seen = stats.seen@;
    let names = stats.direct_files.mime_types.spec_names();
    let some = names.take(n as int);
    if n == 0 {
        lemma_count_split(
            seen,
            |o: Observation| has_mime_of(o, some),
            |o: Observation| has_mime_of(o, some),
            |o: Observation| has_mime_of(o, some),
        );
    } else {
        lemma_counted(stats, (n - 1) as nat);
        let fewer = names.take(n - 1);
        let last = names[n - 1];
        assert(names.contains(last));
        assert(names.index_of(last) == n - 1);
        assert(stats.direct_files.mime_types.count_of(last)
            == stats.direct_files.mime_types.spec_counts()[n - 1]);
        assert(some =~= fewer.push(last));
        assert forall|i: int| 0 <= i < seen.len() implies has_mime_of(#[trigger] seen[i], some) == (
        has_mime_of(seen[i], fewer) || (seen[i] matches Observation::File { mime_type, .. }
            && mime_type == last)) && !(has_mime_of(seen[i], fewer) && (seen[i] matches Observation::File {
            mime_type,
            ..
        } && mime_type == last)) by {
            if let Observation::File { mime_type, .. } = seen[i] {
                if some.contains(mime_type) {
                    let k = choose|k: int| 0 <= k < some.len() && some[k] == mime_type;
                    if k < n - 1 {
                        assert(fewer[k] == mime_type);
                    }
                }
                if fewer.contains(mime_type) {
                    let k = choose|k: int| 0 <= k < fewer.len() && fewer[k] == mime_type;
                    assert(some[k] == mime_type);
                    assert(names[k] == mime_type);
                }
                if mime_type == last {
                    assert(some[n - 1] == last);
                }
            }
        }
        lemma_count_split(
            seen,
            |o: Observation| has_mime_of(o, fewer),
            |o: Observation| o matches Observation::File { mime_type, .. } && mime_type == last,
            |o: Observation| has_mime_of(o, some),
        );
    }
}

proof fn lemma_count_positive(
    seen: Seq<Observation>,
    property: spec_fn(Observation) -> bool,
    i: int,
)
    requires
        0 <= i < seen.len(),
        property(seen[i]),
    ensures
        count(seen, property) > 0,
    decreases seen.len(),
{
    if i < seen.len() - 1 {
        lemma_count_positive(seen.drop_last(), property, i);
    }
}

/// The number of slots in use in the first buckets.
pub open spec fn used_slots(buckets: Seq<BucketStats>, n: nat) -> nat
    decreases n,
{
    if n == 0 {
        0
    } else {
        used_slots(buckets, (n - 1) as nat) + buckets[n - 1].used_slots as nat
    }
}

/// The bucketed entries of the rings are those that the buckets hold.
pub proof fn lemma_used_slots_add_up(stats: Stats)
    requires
        stats.wf(),
    ensures
        used_slots(stats.buckets@, NUM_BUCKETS as nat) == stats.favorites.bucketed_entry_count
            + stats.main.bucketed_entry_count,
{
    let seen = stats.seen@;
    lemma_used_slots(stats, NUM_BUCKETS as nat);
    assert forall|i: int| 0 <= i < seen.len() implies (#[trigger] seen[i] matches Observation::Bucket {
        size,
        ..
    } ==> crate::utils::spec_size_to_bucket(size as int) < NUM_BUCKETS) by {
        if let Observation::Bucket { size, .. } = seen[i] {
            crate::utils::lemma_bucket_exists(size);
        }
    }
    lemma_count_split(
        seen,
        |o: Observation| o.ring() == RingKind::Favorites && o is Bucket,
        |o: Observation| o.ring() == RingKind::Main && o is Bucket,
        |o: Observation| in_first_buckets(o, NUM_BUCKETS as nat),
    );
}

/// Whether an entry is kept in one of the first buckets.
pub open spec fn in_first_buckets(o: Observation, n: nat) -> bool {
    o matches Observation::Bucket { size, .. } && crate::utils::spec_size_to_bucket(size as int) < n
}

proof fn lemma_used_slots(stats: Stats, n: nat)
    requires
        stats.wf(),
        n <= NUM_BUCKETS,
    ensures
        used_slots(stats.buckets@, n) == count(
            stats.seen@,
            |o: Observation| in_first_buckets(o, n),
        ),
    decreases n,
{
    let seen = stats.seen@;
    if n == 0 {
        assert forall|i: int| 0 <= i < seen.len() implies !in_first_buckets(#[trigger] seen[i], 0) by {
            if let Observation::Bucket { size, .. } = seen[i] {
                crate::utils::lemma_bucket_exists(size);
            }
        }
        lemma_count_split(
            seen,
            |o: Observation| in_first_buckets(o, 0),
            |o: Observation| in_first_buckets(o, 0),
            |o: Observation| in_first_buckets(o, 0),
        );
    } else {
        lemma_used_slots(stats, (n - 1) as nat);
        assert(stats.buckets@[n - 1].describes(seen, n - 1));
        lemma_count_split(
            seen,
            |o: Observation| in_first_buckets(o, (n - 1) as nat),
            |o: Observation| o.in_bucket(n - 1),
            |o: Observation| in_first_buckets(o, n),
        );
    }
}

proof fn lemma_count_split(
    seen: Seq<Observation>,
    one: spec_fn(Observation) -> bool,
    other: spec_fn(Observation) -> bool,
    either: spec_fn(Observation) -> bool,
)
    requires
        forall|i: int|
            0 <= i < seen.len() ==> either(#[trigger] seen[i]) == (one(seen[i]) || other(seen[i]))
                && !(one(seen[i]) && other(seen[i])),
    ensures
        count(seen, either) == count(seen, one) + count(seen, other),
    decreases seen.len(),
{
    if seen.len() > 0 {
        let rest = seen.drop_last();
        assert forall|i: int| 0 <= i < rest.len() implies either(#[trigger] rest[i]) == (one(rest[i])
            || other(rest[i])) && !(one(rest[i]) && other(rest[i])) by {
            assert(rest[i] == seen[i]);
        }
        lemma_count_split(rest, one, other, either);
        assert(seen.last() == seen[seen.len() - 1]);
    }
}

/// No entry of a bucket is larger than its slots, so the contents fit in the
/// bytes that are used for them.
pub proof fn lemma_bucket_contents_fit(stats: BucketStats, seen: Seq<Observation>, bucket: int)
    requires
        stats.describes(seen, bucket),
        0 <= bucket < NUM_BUCKETS,
    ensures
        stats.owned_bytes <= crate::utils::spec_bucket_to_length(bucket) * stats.used_slots,
{
    lemma_total_size_bound(seen, bucket);
}

proof fn lemma_total_size_bound(seen: Seq<Observation>, bucket: int)
    requires
        bucket >= 0,
    ensures
        total_size(seen, |o: Observation| o.in_bucket(bucket))
            <= crate::utils::spec_bucket_to_length(bucket) * count(
            seen,
            |o: Observation| o.in_bucket(bucket),
        ),
    decreases seen.len(),
{
    let length = crate::utils::spec_bucket_to_length(bucket);
    if seen.len() > 0 {
        lemma_total_size_bound(seen.drop_last(), bucket);
        let n = count(seen.drop_last(), |o: Observation| o.in_bucket(bucket));
        assert(length * (n + 1) == length * n + length) by (nonlinear_arith);
        if let Observation::Bucket { size, .. } = seen.last() {
            crate::utils::lemma_bucket_exists(size);
        }
    } else {
        assert(length * 0 == 0) by (nonlinear_arith);
    }
}

/// Every entry of a ring is no smaller than its smallest and no larger than its
/// largest one.
pub proof fn lemma_sizes_in_range(seen: Seq<Observation>, ring: RingKind, i: int)
    requires
        0 <= i < seen.len(),
        seen[i].ring() == ring,
    ensures
        min_size(seen, ring) <= seen[i].size() <= max_size(seen, ring),
    decreases seen.len(),
{
    if i < seen.len() - 1 {
        lemma_sizes_in_range(seen.drop_last(), ring, i);
    }
}

/// What one more entry of a size adds to the statistics about its ring.
pub open spec fn has_one_more(
    after: RingStats,
    before: RingStats,
    size: int,
    duplicate: bool,
) -> bool {
    &&& after.capacity == before.capacity
    &&& after.len == before.len
    &&& after.bucketed_entry_count + after.file_entry_count == before.bucketed_entry_count
        + before.file_entry_count + 1
    &&& duplicate ==> after.num_duplicates == before.num_duplicates + 1
    &&& !duplicate ==> after.num_duplicates == before.num_duplicates
    &&& after.owned_bytes == before.owned_bytes + size
    &&& after.min_entry_size <= size <= after.max_entry_size
    &&& after.min_entry_size == size || after.min_entry_size == before.min_entry_size
    &&& after.min_entry_size <= before.min_entry_size
    &&& after.max_entry_size == size || after.max_entry_size == before.max_entry_size
    &&& after.max_entry_size >= before.max_entry_size
}

/// An entry in a bucket is counted once in its ring and once in the bucket with the smallest
/// slots that it fits in, and nowhere else.
pub proof fn lemma_bucketed_entry_is_counted(
    stats: &mut Stats,
    ring: RingKind,
    other: RingKind,
    size: u16,
    duplicate: bool,
    bucket: u8,
)
    requires
        old(stats).wf(),
        size < 4096,
        other != ring,
        call_ensures(size_to_bucket, (size,), bucket),
        call_ensures(Stats::add_bucketed, (stats, ring, size, duplicate), ()),
    ensures
        has_one_more(final(stats).ring(ring), old(stats).ring(ring), size as int, duplicate),
        final(stats).ring(ring).file_entry_count == old(stats).ring(ring).file_entry_count,
        final(stats).ring(other) == old(stats).ring(other),
        final(stats).buckets@[bucket as int] == (BucketStats {
            used_slots: (old(stats).buckets@[bucket as int].used_slots + 1) as u32,
            owned_bytes: (old(stats).buckets@[bucket as int].owned_bytes + size) as u64,
            ..old(stats).buckets@[bucket as int]
        }),
        forall|b: int|
            0 <= b < NUM_BUCKETS && b != bucket ==> #[trigger] final(stats).buckets@[b]
                == old(stats).buckets@[b],
        final(stats).direct_files.owned_bytes == old(stats).direct_files.owned_bytes,
        final(stats).direct_files.allocated_bytes == old(stats).direct_files.allocated_bytes,
        forall|name: Seq<char>| #[trigger]
            final(stats).direct_files.mime_types.count_of(name)
                == old(stats).direct_files.mime_types.count_of(name),
{
    let o = Observation::Bucket { ring, size, duplicate };
    lemma_step(old(stats).seen@, o);
    assert(final(stats).ring(ring).describes(final(stats).seen@, ring));
    assert(old(stats).ring(ring).describes(old(stats).seen@, ring));
    assert(final(stats).ring(other).describes(final(stats).seen@, other));
    assert(old(stats).ring(other).describes(old(stats).seen@, other));
    assert forall|b: int| 0 <= b < NUM_BUCKETS && b != bucket implies #[trigger] final(
        stats).buckets@[b] == old(stats).buckets@[b] by {
        assert(old(stats).buckets@[b].describes(old(stats).seen@, b));
        assert(final(stats).buckets@[b].describes(final(stats).seen@, b));
    }
    assert(old(stats).buckets@[bucket as int].describes(old(stats).seen@, bucket as int));
    assert(final(stats).buckets@[bucket as int].describes(final(stats).seen@, bucket as int));
}

/// An entry with a file of its own is counted once in its ring and once with the mime type of
/// the file, and nowhere else. The system counts the space of the file in blocks of 512 bytes.
pub proof fn lemma_file_entry_is_counted(
    stats: &mut Stats,
    ring: RingKind,
    other: RingKind,
    size: u64,
    blocks: u64,
    mime_type: &str,
    duplicate: bool,
)
    requires
        old(stats).wf(),
        other != ring,
        call_ensures(Stats::add_file, (stats, ring, size, blocks, mime_type, duplicate), ()),
    ensures
        has_one_more(final(stats).ring(ring), old(stats).ring(ring), size as int, duplicate),
        final(stats).ring(ring).bucketed_entry_count == old(stats).ring(ring).bucketed_entry_count,
        final(stats).ring(other) == old(stats).ring(other),
        forall|b: int|
            0 <= b < NUM_BUCKETS ==> #[trigger] final(stats).buckets@[b]
                == old(stats).buckets@[b],
        final(stats).direct_files.owned_bytes == old(stats).direct_files.owned_bytes + size,
        final(stats).direct_files.allocated_bytes == old(stats).direct_files.allocated_bytes
            + 512 * blocks,
        forall|name: Seq<char>| #[trigger]
            final(stats).direct_files.mime_types.count_of(name)
                == old(stats).direct_files.mime_types.count_of(name) + if name == mime_type@ {
                1nat
            } else {
                0
            },
{
    let o = Observation::File { ring, size, blocks, mime_type: mime_type@, duplicate };
    lemma_step(old(stats).seen@, o);
    assert(final(stats).ring(ring).describes(final(stats).seen@, ring));
    assert(old(stats).ring(ring).describes(old(stats).seen@, ring));
    assert(final(stats).ring(other).describes(final(stats).seen@, other));
    assert(old(stats).ring(other).describes(old(stats).seen@, other));
    assert forall|b: int| 0 <= b < NUM_BUCKETS implies #[trigger] final(stats).buckets@[b]
        == old(stats).buckets@[b] by {
        assert(old(stats).buckets@[b].describes(old(stats).seen@, b));
        assert(final(stats).buckets@[b].describes(final(stats).seen@, b));
    }
}

proof fn lemma_step(seen: Seq<Observation>, o: Observation)
    ensures
        seen.push(o).drop_last() == seen,
        seen.push(o).last() == o,
{
    assert(seen.push(o).drop_last() =~= seen);
}

/// All entries of the database are looked at, favorites first: those in buckets with the size
/// that the ring gives, and those with a file of their own with what was found out about it.
pub proof fn lemma_all_entries_are_looked_at(
    database: &DatabaseReader<'_>,
    bucket_lens: &Vec<usize>,
    facts: &Vec<EntryFacts>,
    stats: Stats,
    i: int,
)
    requires
        call_ensures(Stats::of_database, (database, bucket_lens, facts), stats),
        ({
            let favorites = crate::ring_reader::contents(
                database.spec_favorites(),
                RingKind::Favorites,
            );
            let main = crate::ring_reader::contents(database.spec_main(), RingKind::Main);
            &&& crate::ring_reader::is_head_within(database.spec_favorites())
            &&& crate::ring_reader::is_head_within(database.spec_main())
            &&& 0 <= i < favorites.len() + main.len()
        }),
    ensures
        ({
            let favorites = crate::ring_reader::contents(
                database.spec_favorites(),
                RingKind::Favorites,
            );
            let main = crate::ring_reader::contents(database.spec_main(), RingKind::Main);
            let entry = if i < favorites.len() {
                favorites[i]
            } else {
                main[i - favorites.len()]
            };
            let fact = facts@[i];
            &&& stats.seen@.len() == favorites.len() + main.len()
            &&& match entry.spec_kind() {
                Kind::Bucket(metadata) => stats.seen@[i] == (Observation::Bucket {
                    ring: entry.spec_ring(),
                    size: metadata.spec_size(),
                    duplicate: fact.duplicate,
                }),
                Kind::File => stats.seen@[i] == (Observation::File {
                    ring: entry.spec_ring(),
                    size: fact.size,
                    blocks: fact.blocks,
                    mime_type: fact.mime_type@,
                    duplicate: fact.duplicate,
                }),
            }
        }),
{
    crate::ring_reader::lemma_full_walk(database.spec_favorites(), RingKind::Favorites);
    crate::ring_reader::lemma_full_walk(database.spec_main(), RingKind::Main);
}

/// A bucket has as many slots as fit in its file, each of them twice as long as those of the
/// bucket before it.
pub proof fn lemma_slots_fill_bucket(
    database: &DatabaseReader<'_>,
    bucket_lens: &Vec<usize>,
    facts: &Vec<EntryFacts>,
    stats: Stats,
    bucket: int,
    bytes: u64,
)
    requires
        call_ensures(Stats::of_database, (database, bucket_lens, facts), stats),
        0 <= bucket < NUM_BUCKETS,
        call_ensures(BucketStats::used_bytes, (&stats.buckets@[bucket],), bytes),
    ensures
        ({
            let slot = vstd::arithmetic::power2::pow2((bucket + 2) as nat);
            let stats = stats.buckets@[bucket];
            &&& stats.num_slots * slot <= bucket_lens@[bucket] < (stats.num_slots + 1) * slot
            &&& bytes == stats.used_slots * slot
            &&& stats.size_class == bucket + 2
        }),
{
    let length = crate::utils::spec_bucket_to_length(bucket);
    vstd::arithmetic::power2::lemma_pow2_unfold((bucket + 2) as nat);
    vstd::arithmetic::power2::lemma_pow2_unfold((bucket + 1) as nat);
    vstd::arithmetic::power2::lemma_pow2_pos((bucket + 2) as nat);
    let slot = vstd::arithmetic::power2::pow2((bucket + 2) as nat) as int;
    assert(length == slot);
    assert(stats.buckets@[bucket].describes(stats.seen@, bucket));
    let len = bucket_lens@[bucket] as int;
    let n = stats.buckets@[bucket].num_slots as int;
    let used = stats.buckets@[bucket].used_slots as int;
    assert(n == len / slot);
    vstd::arithmetic::div_mod::lemma_fundamental_div_mod(len, slot);
    vstd::arithmetic::div_mod::lemma_mod_bound(len, slot);
    assert(n * slot <= len < (n + 1) * slot) by (nonlinear_arith)
        requires
            len == slot * n + len % slot,
            0 <= len % slot < slot,
    ;
    assert(length * used == used * slot) by (nonlinear_arith)
        requires
            length == slot,
    ;
}

/// Every slot of a ring either holds an entry or does not, every slot of a bucket is used or
/// free, and every byte that is set aside is owned or wasted.
pub proof fn lemma_parts_make_up_whole(
    ring: RingStats,
    bucket: BucketStats,
    files: DirectFileStats,
    entries: u32,
    uninitialized: u32,
    free: u32,
    used: u64,
    wasted_in_bucket: u64,
    wasted_in_files: u64,
)
    requires
        call_ensures(RingStats::num_entries, (&ring,), entries),
        call_ensures(RingStats::uninitialized_entry_count, (&ring,), uninitialized),
        call_ensures(BucketStats::free_slots, (&bucket,), free),
        call_ensures(BucketStats::used_bytes, (&bucket,), used),
        call_ensures(BucketStats::fragmentation_bytes, (&bucket,), wasted_in_bucket),
        call_ensures(DirectFileStats::fragmentation_bytes, (&files,), wasted_in_files),
    ensures
        entries + uninitialized == ring.len,
        entries == ring.bucketed_entry_count + ring.file_entry_count,
        free + bucket.used_slots == bucket.num_slots,
        wasted_in_bucket + bucket.owned_bytes == used,
        wasted_in_files + files.owned_bytes == files.allocated_bytes,
{
}

/// The smallest and the largest size in a ring are sizes of entries in it.
pub proof fn lemma_extremes_are_sizes(seen: Seq<Observation>, ring: RingKind, i: int) -> (found: (
    int,
    int,
))
    requires
        0 <= i < seen.len(),
        seen[i].ring() == ring,
        forall|j: int| 0 <= j < seen.len() ==> 0 < (#[trigger] seen[j]).size() < u64::MAX,
    ensures
        0 <= found.0 < seen.len() && seen[found.0].ring() == ring && seen[found.0].size()
            == min_size(seen, ring),
        0 <= found.1 < seen.len() && seen[found.1].ring() == ring && seen[found.1].size()
            == max_size(seen, ring),
    decreases seen.len(),
{
    let rest = seen.drop_last();
    let last = seen.len() - 1;
    assert(seen[last] == seen.last());
    assert forall|j: int| 0 <= j < rest.len() implies 0 < (#[trigger] rest[j]).size()
        < u64::MAX by {
        assert(rest[j] == seen[j]);
    }
    if exists|j: int| 0 <= j < rest.len() && (#[trigger] rest[j]).ring() == ring {
        let j = choose|j: int| 0 <= j < rest.len() && (#[trigger] rest[j]).ring() == ring;
        let (smallest, largest) = lemma_extremes_are_sizes(rest, ring, j);
        assert(rest[smallest] == seen[smallest] && rest[largest] == seen[largest]);
        (
            if seen.last().ring() == ring && seen.last().size() < min_size(rest, ring) {
                last
            } else {
                smallest
            },
            if seen.last().ring() == ring && seen.last().size() > max_size(rest, ring) {
                last
            } else {
                largest
            },
        )
    } else {
        assert forall|j: int| 0 <= j < rest.len() implies (#[trigger] rest[j]).ring() != ring by {
        }
        if i < last {
            assert(rest[i].ring() == ring);
        }
        lemma_no_extremes(rest, ring);
        (last, last)
    }
}

proof fn lemma_no_extremes(seen: Seq<Observation>, ring: RingKind)
    requires
        forall|j: int| 0 <= j < seen.len() ==> (#[trigger] seen[j]).ring() != ring,
    ensures
        min_size(seen, ring) == u64::MAX,
        max_size(seen, ring) == 0,
    decreases seen.len(),
{
    if seen.len() > 0 {
        assert(seen[seen.len() - 1] == seen.last());
        assert forall|j: int| 0 <= j < seen.drop_last().len() implies (
        #[trigger] seen.drop_last()[j]).ring() != ring by {
            assert(seen.drop_last()[j] == seen[j]);
        }
        lemma_no_extremes(seen.drop_last(), ring);
    }
}

/// The mime types are listed once each and in the order of their bytes, each with how often it
/// was counted.
pub proof fn lemma_mime_types_are_listed_in_order(
    counts: MimeCounts,
    names: Vec<String>,
    numbers: Vec<u32>,
    i: int,
    j: int,
)
    requires
        counts.wf(),
        call_ensures(MimeCounts::entries, (&counts,), (&names, &numbers)),
        0 <= i < j < names@.len(),
    ensures
        names@.len() == numbers@.len(),
        names@[i]@ != names@[j]@,
        crate::text::bytes_before(encode_utf8(names@[i]@), encode_utf8(names@[j]@)),
        counts.count_of(names@[i]@) == numbers@[i],
        counts.count_of(names@[j]@) == numbers@[j],
{
    let all = counts.spec_names();
    assert(all[i] == names@[i]@ && all[j] == names@[j]@);
    assert(all.contains(all[i]) && all.contains(all[j]));
}

} // verus!
