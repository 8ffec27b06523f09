//! The ring file: a header followed by fixed-size entries, read through a
//! memory mapping.

use vstd::prelude::*;

verus! {

/// The most entries that a ring can hold: an index fits in 20 bits, and one
/// value is kept free.
pub const MAX_ENTRIES: u32 = 0xf_ffff;

/// The bytes that every ring file starts with.
pub const MAGIC: [u8; 3] = [0x4D, 0x18, 0x32];

/// The version byte that follows the magic bytes.
pub const VERSION: u8 = 0;

/// The size of the header in bytes.
pub const HEADER_LEN: usize = 8;

/// The size of an entry in bytes.
pub const ENTRY_LEN: usize = 4;

/// The header of a ring file.
#[derive(Copy, Clone, Debug)]
pub struct Header {
    pub magic: [u8; 3],
    pub version: u8,
    pub write_head: u32,
}

impl Default for Header {
    fn default() -> (header: Header)
        ensures
            header.magic == MAGIC,
            header.version == VERSION,
            header.write_head == 0,
    {
        Header { magic: MAGIC, version: VERSION, write_head: 0 }
    }
}

/// The number that four bytes stand for, least significant byte first.
pub open spec fn le_u32(bytes: Seq<u8>) -> u32 {
    (bytes[0] + 0x100 * bytes[1] + 0x1_0000 * bytes[2] + 0x100_0000 * bytes[3]) as u32
}

/// Reads the number at `offset`, least significant byte first.
pub(crate) fn read_le_u32(mem: &[u8], offset: usize) -> (value: u32)
    requires
        offset + 4 <= mem@.len(),
    ensures
        value == le_u32(mem@.subrange(offset as int, offset + 4)),
{
    let b0: u32 = mem[offset] as u32;
    let b1: u32 = mem[offset + 1] as u32;
    let b2: u32 = mem[offset + 2] as u32;
    let b3: u32 = mem[offset + 3] as u32;
    b0 + 0x100 * b1 + 0x1_0000 * b2 + 0x100_0000 * b3
}

/// The four bytes that stand for a number, least significant byte first.
pub open spec fn spec_le_bytes(value: u32) -> Seq<u8> {
    seq![
        (value % 0x100) as u8,
        (value / 0x100 % 0x100) as u8,
        (value / 0x1_0000 % 0x100) as u8,
        (value / 0x100_0000) as u8,
    ]
}

/// Appends a number, least significant byte first.
pub(crate) fn push_le_u32(out: &mut Vec<u8>, value: u32)
    ensures
        final(out)@ == old(out)@ + spec_le_bytes(value),
{
    out.push((value % 0x100) as u8);
    out.push((value / 0x100 % 0x100) as u8);
    out.push((value / 0x1_0000 % 0x100) as u8);
    out.push((value / 0x100_0000) as u8);
}

/// A number survives being written as bytes and read back.
pub proof fn lemma_le_u32_round_trip(value: u32)
    ensures
        spec_le_bytes(value).len() == 4,
        le_u32(spec_le_bytes(value)) == value,
{
    assert(value == value % 0x100 + 0x100 * (value / 0x100 % 0x100) + 0x1_0000 * (value / 0x1_0000
        % 0x100) + 0x100_0000 * (value / 0x100_0000)) by (nonlinear_arith);
}

impl Header {
    /// The bytes of the header as they stand in the file.
    pub open spec fn spec_bytes(self) -> Seq<u8> {
        self.magic@ + seq![self.version] + spec_le_bytes(self.write_head)
    }

    /// The bytes of the header as they stand in the file.
    pub fn to_bytes(&self) -> (bytes: Vec<u8>)
        ensures
            bytes@ == self.spec_bytes(),
            bytes@.len() == HEADER_LEN,
    {
        let mut bytes: Vec<u8> = Vec::new();
        bytes.push(self.magic[0]);
        bytes.push(self.magic[1]);
        bytes.push(self.magic[2]);
        bytes.push(self.version);
        push_le_u32(&mut bytes, self.write_head);
        assert(bytes@ =~= self.spec_bytes());
        bytes
    }
}

/// An entry as it is stored in the ring file.
#[derive(Copy, Clone, Eq, PartialEq, Debug, Structural)]
pub struct RawEntry(pub u32);

/// A nonzero entry: where its contents are kept.
///
/// The lower 12 bits hold the size of a bucketed entry, the upper 20 bits its
/// slot in the bucket. A size of zero marks an entry that has a file of its own.
#[derive(Copy, Clone, Eq, PartialEq, Hash, Debug, Structural)]
pub struct InitializedEntry(u32);

/// The contents of one slot of a ring.
#[derive(Copy, Clone, Eq, PartialEq, Hash, Debug, Structural)]
pub enum Entry {
    Uninitialized,
    Bucketed(InitializedEntry),
    File,
}

impl InitializedEntry {
    /// The stored number.
    pub closed spec fn raw(self) -> u32 {
        self.0
    }

    /// The size of the contents in bytes, zero for a direct file.
    pub open spec fn spec_size(self) -> u16 {
        (self.raw() % 0x1000) as u16
    }

    /// The slot within the bucket.
    pub open spec fn spec_index(self) -> u32 {
        self.raw() / 0x1000
    }

    /// An entry with the given contents size, in the given slot of its bucket.
    #[must_use]
    pub fn bucket(size: u16, index: u32) -> (entry: InitializedEntry)
        requires
            0 < size < 0x1000,
            index < MAX_ENTRIES,
        ensures
            entry.spec_size() == size,
            entry.spec_index() == index,
            entry.raw() == index * 0x1000 + size,
    {
        let low: u32 = size as u32;
        assert((index << 12) | low == index * 0x1000 + low) by (bit_vector)
            requires
                low < 0x1000,
                index < 0xf_ffff,
        ;
        InitializedEntry((index << 12) | low)
    }

    /// The entry that stands for a direct file.
    #[must_use]
    pub fn file() -> (entry: InitializedEntry)
        ensures
            entry.raw() == 0x8000_0000,
            entry.spec_size() == 0,
    {
        InitializedEntry(0x8000_0000)
    }

    #[must_use]
    pub fn size(&self) -> (size: u16)
        ensures
            size == self.spec_size(),
    {
        let raw: u32 = self.0;
        assert(raw & 0xfff == raw % 0x1000) by (bit_vector);
        (raw & 0xfff) as u16
    }

    #[must_use]
    pub fn index(&self) -> (index: u32)
        ensures
            index == self.spec_index(),
    {
        let raw: u32 = self.0;
        assert(raw >> 12 == raw / 0x1000) by (bit_vector);
        raw >> 12
    }

    #[must_use]
    pub fn is_file(&self) -> (is_file: bool)
        ensures
            is_file == (self.spec_size() == 0),
    {
        self.size() == 0
    }
}

impl Entry {
    /// A bucketed entry has contents.
    pub open spec fn wf(self) -> bool {
        self matches Entry::Bucketed(entry) ==> entry.spec_size() > 0
    }
}

/// The entry that a stored number stands for.
pub open spec fn spec_decode_entry(raw: u32) -> Entry {
    if raw == 0 {
        Entry::Uninitialized
    } else if raw % 0x1000 == 0 {
        Entry::File
    } else {
        Entry::Bucketed(spec_initialized(raw))
    }
}

/// The initialized entry with the given stored number.
pub closed spec fn spec_initialized(raw: u32) -> InitializedEntry {
    InitializedEntry(raw)
}

/// The number that an entry is stored as.
pub open spec fn spec_encode_entry(entry: Entry) -> u32 {
    match entry {
        Entry::Uninitialized => 0,
        Entry::Bucketed(entry) => entry.raw(),
        Entry::File => 0x8000_0000,
    }
}

/// The number of an initialized entry pins it down.
pub proof fn lemma_initialized(raw: u32)
    ensures
        spec_initialized(raw).raw() == raw,
        forall|entry: InitializedEntry| #[trigger] spec_initialized(entry.raw()) == entry,
{
}

impl vstd::std_specs::convert::FromSpecImpl<Entry> for RawEntry {
    open spec fn obeys_from_spec() -> bool {
        true
    }

    open spec fn from_spec(value: Entry) -> RawEntry {
        RawEntry(spec_encode_entry(value))
    }
}

impl From<Entry> for RawEntry {
    fn from(value: Entry) -> (raw: RawEntry) {
        match value {
            Entry::Uninitialized => RawEntry(0),
            Entry::Bucketed(entry) => RawEntry(entry.0),
            Entry::File => RawEntry(InitializedEntry::file().0),
        }
    }
}

impl vstd::std_specs::convert::FromSpecImpl<RawEntry> for Entry {
    open spec fn obeys_from_spec() -> bool {
        true
    }

    open spec fn from_spec(value: RawEntry) -> Entry {
        spec_decode_entry(value.0)
    }
}

impl From<RawEntry> for Entry {
    fn from(value: RawEntry) -> (entry: Entry) {
        if value.0 == 0 {
            return Entry::Uninitialized;
        }
        let entry = InitializedEntry(value.0);
        if entry.is_file() {
            Entry::File
        } else {
            Entry::Bucketed(entry)
        }
    }
}

/// An entry survives being stored and loaded.
pub proof fn lemma_entry_round_trip(entry: Entry)
    requires
        entry.wf(),
    ensures
        spec_decode_entry(spec_encode_entry(entry)) == entry,
{
}

/// What is loaded is well formed, and loading loses nothing but the unused bits
/// of a direct file's marker.
pub proof fn lemma_raw_entry_round_trip(raw: u32)
    ensures
        spec_decode_entry(raw).wf(),
        spec_decode_entry(raw) !is File ==> spec_encode_entry(spec_decode_entry(raw)) == raw,
{
}

/// Where the entry with the given index starts in a ring file.
pub open spec fn spec_entries_to_offset(entries: int) -> int {
    entries * 4 + 8
}

/// How many whole entries fit in a ring file of the given length.
pub open spec fn spec_offset_to_entries(offset: int) -> int {
    if offset <= 8 {
        0
    } else {
        (offset - 8) / 4
    }
}

/// The length of a ring file with the given number of entries.
#[must_use]
pub fn entries_to_offset(entries: u32) -> (offset: u64)
    ensures
        offset == spec_entries_to_offset(entries as int),
{
    entries as u64 * ENTRY_LEN as u64 + HEADER_LEN as u64
}

/// How many whole entries fit in a ring file of the given length.
#[must_use]
pub fn offset_to_entries(offset: usize) -> (entries: u32)
    requires
        spec_offset_to_entries(offset as int) <= u32::MAX,
    ensures
        entries == spec_offset_to_entries(offset as int),
{
    (offset.saturating_sub(HEADER_LEN) / ENTRY_LEN) as u32
}

/// A number of entries survives being turned into a file length.
pub proof fn lemma_offset_round_trip(entries: u32)
    ensures
        spec_offset_to_entries(spec_entries_to_offset(entries as int)) == entries,
{
}

/// The least power of two that is at least `n`, searching from `from` upwards.
pub open spec fn next_power_of_two_from(from: nat, n: nat) -> nat
    decreases
            if from < n {
                n - from
            } else {
                0
            },
{
    if from == 0 || from >= n {
        from
    } else {
        next_power_of_two_from(2 * from, n)
    }
}

/// The least power of two that is at least `n`.
pub open spec fn spec_next_power_of_two(n: nat) -> nat {
    next_power_of_two_from(1, n)
}

/// The least power of two that is at least `n`, if it fits.
fn checked_next_power_of_two(n: usize) -> (power: Option<usize>)
    ensures
        power is Some <==> spec_next_power_of_two(n as nat) <= usize::MAX,
        power matches Some(p) ==> p == spec_next_power_of_two(n as nat) && p >= n,
{
    let mut p: usize = 1;
    while p < n
        invariant
            p >= 1,
            spec_next_power_of_two(n as nat) == next_power_of_two_from(p as nat, n as nat),
        decreases
                if p < n {
                    n - p
                } else {
                    0
                },
    {
        if p > usize::MAX / 2 {
            proof {
                lemma_next_power_of_two_lower(2 * p as nat, n as nat);
            }
            return None;
        }
        p = p * 2;
    }
    Some(p)
}

proof fn lemma_next_power_of_two_lower(from: nat, n: nat)
    requires
        from > 0,
    ensures
        next_power_of_two_from(from, n) >= from,
        next_power_of_two_from(from, n) >= n,
    decreases
            if from < n {
                n - from
            } else {
                0
            },
{
    if from < n {
        lemma_next_power_of_two_lower(2 * from, n);
    }
}

/// The size and slot of a bucketed entry, neither of them too large to be stored.
#[derive(Copy, Clone, Eq, PartialEq, Hash, Debug, Structural)]
pub struct BucketEntry {
    size: u32,
    index: u32,
}

impl BucketEntry {
    pub closed spec fn spec_size(self) -> u32 {
        self.size
    }

    pub closed spec fn spec_index(self) -> u32 {
        self.index
    }

    /// Sizes and slots that can be stored.
    pub open spec fn wf(self) -> bool {
        0 < self.spec_size() < 0x1000 && self.spec_index() < 0x10_0000
    }

    #[must_use]
    pub fn new(size: u32, index: u32) -> (entry: Option<BucketEntry>)
        ensures
            entry is Some <==> 0 < size < 0x1000 && index < 0x10_0000,
            entry matches Some(entry) ==> entry.wf() && entry.spec_size() == size
                && entry.spec_index() == index,
    {
        if size > 0 && size < 0x1000 && index < 0x10_0000 {
            Some(BucketEntry { size, index })
        } else {
            None
        }
    }

    #[must_use]
    pub fn size(&self) -> (size: u32)
        ensures
            size == self.spec_size(),
    {
        self.size
    }

    #[must_use]
    pub fn index(&self) -> (index: u32)
        ensures
            index == self.spec_index(),
    {
        self.index
    }

    /// The entry as it is stored, which is not mistaken for a direct file.
    #[must_use]
    pub fn initialized(&self) -> (entry: InitializedEntry)
        requires
            self.wf(),
        ensures
            entry.raw() == self.spec_index() * 0x1000 + self.spec_size(),
            entry.spec_size() == self.spec_size(),
            entry.spec_index() == self.spec_index(),
    {
        InitializedEntry(self.index * 0x1000 + self.size)
    }
}

/// The lengths of a memory mapping: what was asked for and what is mapped.
#[derive(Copy, Clone, Debug)]
pub struct Mmap {
    requested_len: usize,
    backing_len: usize,
}

/// What a change of a mapping's length asks of the system.
#[derive(Copy, Clone, Eq, PartialEq, Debug, Structural)]
pub enum Remap {
    /// The mapping already covers the new length.
    Kept,
    /// The mapping is to be resized.
    Resize { old_len: usize, new_len: usize },
}

impl Mmap {
    /// The length asked for.
    pub closed spec fn spec_len(self) -> usize {
        self.requested_len
    }

    /// The length of the mapping.
    pub closed spec fn spec_backing_len(self) -> usize {
        self.backing_len
    }

    /// What was asked for is mapped.
    pub open spec fn wf(self) -> bool {
        self.spec_len() <= self.spec_backing_len()
    }

    /// The lengths of a fresh mapping: at least a page is mapped.
    pub fn new(len: usize) -> (map: Mmap)
        ensures
            map.wf(),
            map.spec_len() == len,
            map.spec_backing_len() == if len >= 4096 {
                len
            } else {
                4096
            },
    {
        Mmap {
            requested_len: len,
            backing_len: if len >= 4096 {
                len
            } else {
                4096
            },
        }
    }

    /// The length that the mapping grows to when `len` is not covered by it.
    pub open spec fn spec_grown_len(self, len: usize) -> usize {
        let wanted = spec_next_power_of_two(
            if self.spec_backing_len() == usize::MAX {
                usize::MAX as nat
            } else {
                (self.spec_backing_len() + 1) as nat
            },
        );
        let doubled = if wanted <= usize::MAX {
            wanted as usize
        } else {
            usize::MAX
        };
        if len >= doubled {
            len
        } else {
            doubled
        }
    }

    /// What a new length asks of the system.
    pub open spec fn spec_remap(self, len: usize) -> Remap {
        if self.spec_len() <= len <= self.spec_backing_len() {
            Remap::Kept
        } else {
            Remap::Resize {
                old_len: self.spec_backing_len(),
                new_len: self.spec_grown_len(len),
            }
        }
    }

    /// What a new length asks of the system.
    #[must_use]
    pub fn plan_remap(&self, len: usize) -> (action: Remap)
        ensures
            action == self.spec_remap(len),
    {
        if len >= self.requested_len && len <= self.backing_len {
            return Remap::Kept;
        }
        let doubled: usize = match checked_next_power_of_two(self.backing_len.saturating_add(1)) {
            Some(power) => power,
            None => usize::MAX,
        };
        Remap::Resize {
            old_len: self.backing_len,
            new_len: if len >= doubled {
                len
            } else {
                doubled
            },
        }
    }

    /// Changes the length asked for, once the system has resized the mapping or failed
    /// to. If it failed, both lengths stay as they are.
    pub fn remap(&mut self, len: usize, resized: bool) -> (changed: bool)
        ensures
            changed == (old(self).spec_remap(len) is Kept || resized),
            !changed ==> *final(self) == *old(self),
            changed ==> final(self).wf() && final(self).spec_len() == len
                && final(self).spec_backing_len() == match old(self).spec_remap(len) {
                Remap::Kept => old(self).spec_backing_len(),
                Remap::Resize { new_len, .. } => new_len,
            },
    {
        match self.plan_remap(len) {
            Remap::Kept => {
                self.requested_len = len;
                true
            },
            Remap::Resize { new_len, .. } => {
                if resized {
                    self.requested_len = len;
                    self.backing_len = new_len;
                }
                resized
            },
        }
    }

    /// The part of the mapped memory that was asked for.
    #[must_use]
    pub fn slice<'a>(&self, mapped: &'a [u8]) -> (slice: &'a [u8])
        requires
            self.wf(),
            mapped@.len() == self.spec_backing_len(),
        ensures
            slice@.len() == self.spec_len(),
            slice@ == mapped@.take(self.spec_len() as int),
    {
        vstd::slice::slice_subrange(mapped, 0, self.requested_len)
    }

    #[must_use]
    pub fn len(&self) -> (len: usize)
        ensures
            len == self.spec_len(),
    {
        self.requested_len
    }

    #[must_use]
    pub fn is_empty(&self) -> (empty: bool)
        ensures
            empty == (self.spec_len() == 0),
    {
        self.requested_len == 0
    }

    /// The length of the mapping itself.
    #[must_use]
    pub fn backing_len(&self) -> (len: usize)
        ensures
            len == self.spec_backing_len(),
    {
        self.backing_len
    }
}

/// Why a file is not a ring.
#[derive(Copy, Clone, Eq, PartialEq, Debug, Structural)]
pub enum RingError {
    /// The file does not start with the magic bytes.
    InvalidMagic,
}

/// How many entries a ring may grow to: what was asked for, but no less than
/// what it already holds.
pub open spec fn spec_ring_capacity(max_entries: u32, file_len: int) -> int {
    if max_entries < spec_offset_to_entries(file_len) {
        spec_offset_to_entries(file_len)
    } else if max_entries > MAX_ENTRIES {
        MAX_ENTRIES as int
    } else {
        max_entries as int
    }
}

/// How many entries a ring whose file has the given length may grow to.
pub fn ring_capacity(max_entries: u32, file_len: usize) -> (capacity: u32)
    requires
        spec_offset_to_entries(file_len as int) <= MAX_ENTRIES,
    ensures
        capacity == spec_ring_capacity(max_entries, file_len as int),
        capacity <= MAX_ENTRIES,
{
    let held: u32 = offset_to_entries(file_len);
    if max_entries < held {
        held
    } else if max_entries > MAX_ENTRIES {
        MAX_ENTRIES
    } else {
        max_entries
    }
}

/// A ring of entries over the bytes of its file.
///
/// The mapping covers the ring's capacity; of it, the first `len` entries are
/// backed by the file.
#[derive(Debug)]
pub struct Ring<'a> {
    mem: &'a [u8],
    len: u32,
    capacity: u32,
}

impl<'a> Ring<'a> {
    /// The bytes of the mapping.
    pub closed spec fn mem(self) -> Seq<u8> {
        self.mem@
    }

    /// The number of entries.
    pub closed spec fn spec_len(self) -> u32 {
        self.len
    }

    /// The number of entries that the ring may grow to.
    pub closed spec fn spec_capacity(self) -> u32 {
        self.capacity
    }

    /// The mapping covers the capacity, and the entries fit in it.
    pub open spec fn wf(self) -> bool {
        &&& self.spec_len() <= self.spec_capacity() <= MAX_ENTRIES
        &&& spec_entries_to_offset(self.spec_capacity() as int) <= self.mem().len()
    }

    /// The stored number of the entry at `index`.
    pub open spec fn raw_at(self, index: int) -> u32 {
        le_u32(
            self.mem().subrange(spec_entries_to_offset(index), spec_entries_to_offset(index) + 4),
        )
    }

    /// The entry at `index`, if the ring has one.
    pub open spec fn spec_get(self, index: u32) -> Option<Entry> {
        if index >= self.spec_len() {
            None
        } else {
            Some(spec_decode_entry(self.raw_at(index as int)))
        }
    }

    /// The index that the next entry will be written to.
    pub open spec fn spec_write_head(self) -> u32 {
        le_u32(self.mem().subrange(4, 8))
    }

    /// The index after `current`, wrapping around at the end of the entries.
    pub open spec fn spec_next_entry(self, current: u32) -> u32 {
        if self.spec_len() == 0 {
            current
        } else if current >= self.spec_len() - 1 {
            0
        } else {
            (current + 1) as u32
        }
    }

    /// The index before `current`, wrapping around at the start of the entries.
    pub open spec fn spec_prev_entry(self, current: u32) -> u32 {
        if self.spec_len() == 0 {
            current
        } else if current == 0 {
            (self.spec_len() - 1) as u32
        } else {
            (current - 1) as u32
        }
    }

    /// Opens a ring whose file has length `file_len` and is mapped at `mem`.
    pub fn open(max_entries: u32, file_len: usize, mem: &'a [u8]) -> (ring: Result<
        Ring<'a>,
        RingError,
    >)
        requires
            spec_offset_to_entries(file_len as int) <= MAX_ENTRIES,
            spec_entries_to_offset(spec_ring_capacity(max_entries, file_len as int)) <= mem@.len(),
        ensures
            ring is Ok <==> file_len >= 3 && mem@.subrange(0, 3) == MAGIC@,
            ring matches Ok(ring) ==> {
                &&& ring.wf()
                &&& ring.mem() == mem@
                &&& ring.spec_len() == spec_offset_to_entries(file_len as int)
                &&& ring.spec_capacity() == spec_ring_capacity(max_entries, file_len as int)
            },
    {
        let capacity: u32 = ring_capacity(max_entries, file_len);
        if file_len < 3 || mem[0] != MAGIC[0] || mem[1] != MAGIC[1] || mem[2] != MAGIC[2] {
            assert(file_len >= 3 && mem@.subrange(0, 3) == MAGIC@ ==> {
                &&& mem@.subrange(0, 3)[0] == MAGIC@[0]
                &&& mem@.subrange(0, 3)[1] == MAGIC@[1]
                &&& mem@.subrange(0, 3)[2] == MAGIC@[2]
            });
            return Err(RingError::InvalidMagic);
        }
        assert(mem@.subrange(0, 3) =~= MAGIC@);
        Ok(Ring { mem, len: offset_to_entries(file_len), capacity })
    }

    #[must_use]
    pub fn len(&self) -> (len: u32)
        ensures
            len == self.spec_len(),
    {
        self.len
    }

    #[must_use]
    pub fn is_empty(&self) -> (empty: bool)
        ensures
            empty == (self.spec_len() == 0),
    {
        self.len == 0
    }

    /// Tells the ring how many entries its file now holds.
    pub fn set_len(&mut self, len: u32)
        requires
            old(self).wf(),
            len <= old(self).spec_capacity(),
        ensures
            final(self).wf(),
            final(self).spec_len() == len,
            final(self).mem() == old(self).mem(),
            final(self).spec_capacity() == old(self).spec_capacity(),
    {
        self.len = len;
    }

    #[must_use]
    pub fn capacity(&self) -> (capacity: u32)
        ensures
            capacity == self.spec_capacity(),
    {
        self.capacity
    }

    /// The index that the next entry will be written to.
    #[must_use]
    pub fn write_head(&self) -> (head: u32)
        requires
            self.wf(),
        ensures
            head == self.spec_write_head(),
    {
        read_le_u32(self.mem, 4)
    }

    /// The write head that follows `current`.
    #[must_use]
    pub fn next_head(&self, current: u32) -> (next: u32)
        requires
            self.spec_capacity() > 0,
        ensures
            next == if current >= self.spec_capacity() - 1 {
                0
            } else {
                current + 1
            },
    {
        if current >= self.capacity - 1 {
            0
        } else {
            current + 1
        }
    }

    #[must_use]
    pub fn next_entry(&self, current: u32) -> (next: u32)
        ensures
            next == self.spec_next_entry(current),
    {
        if self.is_empty() {
            return current;
        }
        if current >= self.len - 1 {
            0
        } else {
            current + 1
        }
    }

    #[must_use]
    pub fn prev_entry(&self, current: u32) -> (prev: u32)
        ensures
            prev == self.spec_prev_entry(current),
    {
        if self.is_empty() {
            return current;
        }
        if current == 0 {
            self.len - 1
        } else {
            current - 1
        }
    }

    /// The entry at `index`; `None` past the end of the ring.
    #[must_use]
    pub fn get(&self, index: u32) -> (entry: Option<Entry>)
        requires
            self.wf(),
        ensures
            entry == self.spec_get(index),
    {
        if index >= self.len {
            return None;
        }
        let raw = RawEntry(read_le_u32(self.mem, entries_to_offset(index) as usize));
        Some(Entry::from(raw))
    }
}

/// Going forwards and then backwards leads back, for every index in the ring.
pub proof fn lemma_prev_of_next(ring: Ring, index: u32)
    requires
        index < ring.spec_len(),
    ensures
        ring.spec_prev_entry(ring.spec_next_entry(index)) == index,
        ring.spec_next_entry(ring.spec_prev_entry(index)) == index,
        ring.spec_next_entry(index) < ring.spec_len(),
        ring.spec_prev_entry(index) < ring.spec_len(),
{
}

/// What four bytes of a ring file hold: the size of a bucketed entry in the lowest twelve
/// bits, and its slot in the others. A file of its own has size zero, and four zero bytes
/// are no entry.
pub proof fn lemma_stored_entry(ring: Ring, index: u32)
    requires
        ring.wf(),
        index < ring.spec_len(),
    ensures
        ({
            let at = 8 + 4 * index;
            let b0 = ring.mem()[at];
            let b1 = ring.mem()[at + 1];
            let b2 = ring.mem()[at + 2];
            let b3 = ring.mem()[at + 3];
            match ring.spec_get(index) {
                Some(Entry::Uninitialized) => b0 == 0 && b1 == 0 && b2 == 0 && b3 == 0,
                Some(Entry::File) => b0 == 0 && b1 % 16 == 0 && !(b1 == 0 && b2 == 0 && b3 == 0),
                Some(Entry::Bucketed(entry)) => {
                    &&& entry.spec_size() == b0 + 0x100 * (b1 % 16)
                    &&& entry.spec_size() > 0
                    &&& entry.spec_index() == b1 / 16 + 0x10 * b2 + 0x1000 * b3
                },
                None => false,
            }
        }),
{
    let at = 8 + 4 * index;
    let bytes = ring.mem().subrange(at, at + 4);
    let b0 = ring.mem()[at] as int;
    let b1 = ring.mem()[at + 1] as int;
    let b2 = ring.mem()[at + 2] as int;
    let b3 = ring.mem()[at + 3] as int;
    assert(bytes[0] == b0 && bytes[1] == b1 && bytes[2] == b2 && bytes[3] == b3);
    let raw = ring.raw_at(index as int) as int;
    assert(raw == b0 + 0x100 * b1 + 0x1_0000 * b2 + 0x100_0000 * b3);
    assert(raw % 0x1000 == b0 + 0x100 * (b1 % 16) && raw / 0x1000 == b1 / 16 + 0x10 * b2 + 0x1000
        * b3) by (nonlinear_arith)
        requires
            raw == b0 + 0x100 * b1 + 0x1_0000 * b2 + 0x100_0000 * b3,
            0 <= b0 < 256,
            0 <= b1 < 256,
            0 <= b2 < 256,
            0 <= b3 < 256,
    ;
    lemma_initialized(raw as u32);
}

/// A ring that is opened has as many entries as its file has room for after eight bytes,
/// and room for as many as were asked for.
pub proof fn lemma_opened_ring<'a>(
    max_entries: u32,
    file_len: usize,
    mem: &'a [u8],
    ring: Result<Ring<'a>, RingError>,
)
    requires
        8 <= file_len <= mem@.len(),
        file_len <= 8 + 4 * 0xf_ffff,
        max_entries <= 0xf_ffff,
        mem@.len() >= 8 + 4 * max_entries,
        call_ensures(Ring::open, (max_entries, file_len, mem), ring),
    ensures
        ring is Ok <==> mem@[0] == 0x4d && mem@[1] == 0x18 && mem@[2] == 0x32,
        ring matches Ok(ring) ==> {
            &&& ring.mem() == mem@
            &&& 8 + 4 * ring.spec_len() <= file_len < 8 + 4 * (ring.spec_len() + 1)
            &&& ring.spec_capacity() >= max_entries
            &&& ring.spec_capacity() >= ring.spec_len()
            &&& ring.spec_capacity() == max_entries || ring.spec_capacity() == ring.spec_len()
            &&& ring.spec_write_head() == mem@[4] + 0x100 * mem@[5] + 0x1_0000 * mem@[6]
                + 0x100_0000 * mem@[7]
        },
{
    let start = mem@.subrange(0, 3);
    assert(start[0] == mem@[0] && start[1] == mem@[1] && start[2] == mem@[2]);
    if mem@[0] == 0x4d && mem@[1] == 0x18 && mem@[2] == 0x32 {
        assert(start =~= MAGIC@);
    }
    let head = mem@.subrange(4, 8);
    assert(head[0] == mem@[4] && head[1] == mem@[5] && head[2] == mem@[6] && head[3] == mem@[7]);
}

/// A header gives back what it was made of.
pub proof fn lemma_header_is_read_back(header: Header, bytes: Vec<u8>)
    requires
        call_ensures(Header::to_bytes, (&header,), bytes),
    ensures
        bytes@.len() == 8,
        bytes@[0] == header.magic@[0],
        bytes@[1] == header.magic@[1],
        bytes@[2] == header.magic@[2],
        bytes@[3] == header.version,
        header.write_head == bytes@[4] + 0x100 * bytes@[5] + 0x1_0000 * bytes@[6] + 0x100_0000
            * bytes@[7],
{
    lemma_le_u32_round_trip(header.write_head);
    let head = spec_le_bytes(header.write_head);
    assert(bytes@[4] == head[0] && bytes@[5] == head[1] && bytes@[6] == head[2] && bytes@[7]
        == head[3]);
}

/// A mapping is left alone as long as it is long enough and nothing is given back; otherwise it
/// is made long enough, and longer than it was.
pub proof fn lemma_mapping_is_long_enough(map: Mmap, len: usize, action: Remap)
    requires
        call_ensures(Mmap::plan_remap, (&map, len), action),
    ensures
        action is Kept <==> map.spec_len() <= len <= map.spec_backing_len(),
        action matches Remap::Resize { old_len, new_len } ==> {
            &&& old_len == map.spec_backing_len()
            &&& new_len >= len
            &&& new_len > old_len || new_len == usize::MAX
            &&& new_len > len && old_len > 0 ==> new_len <= 2 * old_len
            &&& new_len > len && new_len < usize::MAX ==> exists|k: nat|
                new_len == #[trigger] vstd::arithmetic::power2::pow2(k)
        },
{
    let wanted = if map.spec_backing_len() == usize::MAX {
        usize::MAX as nat
    } else {
        (map.spec_backing_len() + 1) as nat
    };
    lemma_next_power_of_two_lower(1, wanted);
    vstd::arithmetic::power2::lemma2_to64();
    lemma_next_power_of_two_is_near(0, wanted);
}

proof fn lemma_next_power_of_two_is_near(k: nat, n: nat)
    requires
        n > 0,
    ensures
        ({
            let from = vstd::arithmetic::power2::pow2(k);
            let power = next_power_of_two_from(from, n);
            &&& power == from || power <= 2 * (n - 1)
            &&& exists|j: nat| power == #[trigger] vstd::arithmetic::power2::pow2(j)
        }),
    decreases
            if vstd::arithmetic::power2::pow2(k) < n {
                n - vstd::arithmetic::power2::pow2(k)
            } else {
                0
            },
{
    let from = vstd::arithmetic::power2::pow2(k);
    vstd::arithmetic::power2::lemma_pow2_pos(k);
    vstd::arithmetic::power2::lemma_pow2_unfold(k + 1);
    if from < n {
        lemma_next_power_of_two_is_near(k + 1, n);
    }
}

/// After a change of its length a mapping is as long as was asked for, or as it was if the
/// system failed; it is never shorter than what was asked for.
pub proof fn lemma_mapping_follows(map: &mut Mmap, len: usize, resized: bool, changed: bool)
    requires
        old(map).wf(),
        call_ensures(Mmap::remap, (map, len, resized), changed),
    ensures
        final(map).wf(),
        changed ==> final(map).spec_len() == len && final(map).spec_backing_len() >= len,
        !changed ==> *final(map) == *old(map) && !resized,
        resized ==> changed,
        old(map).spec_len() <= len <= old(map).spec_backing_len() ==> changed,
{
}

/// A ring may grow to what was asked for, up to the largest number of entries that there can
/// be, and always has room for what it holds.
pub proof fn lemma_capacity_holds_entries(max_entries: u32, file_len: usize, capacity: u32)
    requires
        8 <= file_len <= 8 + 4 * 0xf_ffff,
        call_ensures(ring_capacity, (max_entries, file_len), capacity),
    ensures
        file_len < 8 + 4 * (capacity + 1),
        max_entries <= 0xf_ffff ==> capacity >= max_entries,
        max_entries > 0xf_ffff ==> capacity == 0xf_ffff,
        capacity == max_entries || capacity == 0xf_ffff || 8 + 4 * capacity <= file_len,
{
}

/// The entries of a ring follow one another, and the first one follows the last.
pub proof fn lemma_entries_follow(ring: Ring, current: u32, next: u32, prev: u32)
    requires
        current < ring.spec_len(),
        call_ensures(Ring::next_entry, (&ring, current), next),
        call_ensures(Ring::prev_entry, (&ring, current), prev),
    ensures
        current + 1 < ring.spec_len() ==> next == current + 1,
        current + 1 == ring.spec_len() ==> next == 0,
        current > 0 ==> prev == current - 1,
        current == 0 ==> prev == ring.spec_len() - 1,
{
}

/// The write head goes from one slot to the next, and from the last one that the ring may have
/// to the first.
pub proof fn lemma_head_goes_on(ring: Ring, current: u32, next: u32)
    requires
        current < ring.spec_capacity(),
        call_ensures(Ring::next_head, (&ring, current), next),
    ensures
        current + 1 < ring.spec_capacity() ==> next == current + 1,
        current + 1 == ring.spec_capacity() ==> next == 0,
{
}

} // verus!
