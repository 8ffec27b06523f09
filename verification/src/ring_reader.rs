//! Reading entries out of the rings and their contents out of the buckets.

use vstd::prelude::*;

use crate::protocol::{decompose_id, mime_from, mime_new, IdNotFoundError, MimeType, RingKind};
use crate::ring;
use crate::ring::{InitializedEntry, Ring};
use crate::text::{bytes_equal, starts_with, str_from_utf8};
use crate::utils::{bucket_to_length, direct_file_name, size_to_bucket};
use crate::views::RingAndIndex;

verus! {

/// Whether a mime type is shown as text.
pub open spec fn spec_is_text_mime(mime: Seq<u8>) -> bool {
    ||| mime.len() == 0
    ||| crate::text::spec_starts_with(mime, vstd::utf8::encode_utf8("text/"@))
    ||| mime == vstd::utf8::encode_utf8("application/xml"@)
}

/// Whether a mime type is shown as text.
#[must_use]
pub fn is_text_mime(mime: &str) -> (text: bool)
    ensures
        text == spec_is_text_mime(vstd::utf8::encode_utf8(mime@)),
{
    let bytes = mime.as_bytes();
    bytes.len() == 0 || starts_with(bytes, "text/".as_bytes()) || bytes_equal(
        bytes,
        "application/xml".as_bytes(),
    )
}

/// An initialized entry of a ring.
#[derive(Copy, Clone, Eq, PartialEq, Debug, Structural)]
pub struct Entry {
    rai: RingAndIndex,
    metadata: InitializedEntry,
}

/// Where the contents of an entry are kept.
#[derive(Copy, Clone, Eq, PartialEq, Hash, Debug, Structural)]
pub enum Kind {
    Bucket(InitializedEntry),
    File,
}

/// What a ring holds at an index, if that is an initialized entry.
pub open spec fn spec_metadata_at(ring: Ring, index: u32) -> Option<InitializedEntry> {
    match ring.spec_get(index) {
        None => None,
        Some(ring::Entry::Uninitialized) => None,
        Some(ring::Entry::Bucketed(entry)) => Some(entry),
        Some(ring::Entry::File) => Some(ring::spec_initialized(0x8000_0000)),
    }
}

/// What an iteration over the ring `kind` finds at an index.
pub open spec fn spec_entry_at(ring: Ring, kind: RingKind, index: u32) -> Option<Entry> {
    match spec_metadata_at(ring, index) {
        None => None,
        Some(metadata) => Some(spec_entry(kind, index, metadata)),
    }
}

/// The entry with the given place and metadata.
pub closed spec fn spec_entry(kind: RingKind, index: u32, metadata: InitializedEntry) -> Entry {
    Entry { rai: choose|rai: RingAndIndex| rai.wf() && rai.is(kind, index), metadata }
}

impl Entry {
    pub closed spec fn spec_rai(self) -> RingAndIndex {
        self.rai
    }

    pub closed spec fn spec_metadata(self) -> InitializedEntry {
        self.metadata
    }

    pub open spec fn spec_ring(self) -> RingKind {
        self.spec_rai().spec_ring()
    }

    pub open spec fn spec_index(self) -> u32 {
        self.spec_rai().spec_index()
    }

    pub open spec fn spec_kind(self) -> Kind {
        if self.spec_metadata().spec_size() == 0 {
            Kind::File
        } else {
            Kind::Bucket(self.spec_metadata())
        }
    }

    pub open spec fn spec_id(self) -> u64 {
        crate::protocol::spec_composite_id(self.spec_ring(), self.spec_index())
    }

    /// The entry that the ring `kind` holds at `index`.
    fn from(ring: &Ring<'_>, kind: RingKind, index: u32) -> (entry: Option<Entry>)
        requires
            ring.wf(),
        ensures
            entry == spec_entry_at(*ring, kind, index),
            entry matches Some(entry) ==> entry.spec_ring() == kind && entry.spec_index() == index,
    {
        let metadata = match ring.get(index) {
            None => return None,
            Some(ring::Entry::Uninitialized) => return None,
            Some(ring::Entry::Bucketed(entry)) => entry,
            Some(ring::Entry::File) => InitializedEntry::file(),
        };
        let rai = RingAndIndex::new(kind, index);
        proof {
            ring::lemma_initialized(0x8000_0000);
            let chosen = choose|rai: RingAndIndex| rai.wf() && rai.is(kind, index);
            assert(rai.wf() && rai.is(kind, index));
            assert(chosen.raw() == rai.raw());
            crate::views::lemma_ring_and_index_injective(chosen, rai);
        }
        Some(Entry { rai, metadata })
    }

    #[must_use]
    pub fn rai(&self) -> (rai: RingAndIndex)
        ensures
            rai == self.spec_rai(),
    {
        self.rai
    }

    #[must_use]
    pub fn kind(&self) -> (kind: Kind)
        ensures
            kind == self.spec_kind(),
    {
        if self.metadata.is_file() {
            Kind::File
        } else {
            Kind::Bucket(self.metadata)
        }
    }

    #[must_use]
    pub fn ring(&self) -> (ring: RingKind)
        ensures
            ring == self.spec_ring(),
    {
        self.rai.ring()
    }

    #[must_use]
    pub fn index(&self) -> (index: u32)
        ensures
            index == self.spec_index(),
    {
        self.rai.index()
    }

    #[must_use]
    pub fn id(&self) -> (id: u64)
        ensures
            id == self.spec_id(),
    {
        self.rai.id()
    }
}

/// The entry found at an index knows where it was found.
pub proof fn lemma_entry_at(ring: Ring, kind: RingKind, index: u32)
    requires
        ring.wf(),
        spec_entry_at(ring, kind, index) is Some,
    ensures
        ({
            let entry = spec_entry_at(ring, kind, index)->0;
            &&& entry.spec_ring() == kind
            &&& entry.spec_index() == index
            &&& entry.spec_rai().wf()
            &&& entry.spec_id() == crate::protocol::spec_composite_id(kind, index)
            &&& Some(entry.spec_metadata()) == spec_metadata_at(ring, index)
        }),
{
    crate::views::lemma_pack_exists(kind, index);
    let chosen = choose|rai: RingAndIndex| rai.wf() && rai.is(kind, index);
    crate::views::lemma_unpack(chosen, kind, index);
}

/// A walk over the indices of a ring, from both ends.
#[derive(Copy, Clone, Eq, PartialEq, Debug, Structural)]
pub struct RingIter {
    pub kind: RingKind,
    pub write_head: u32,
    pub front: u32,
    pub back: u32,
    pub done: bool,
}

/// The write head that follows `head` in a ring of the given capacity.
pub open spec fn spec_next_head(ring: Ring, head: u32) -> int {
    if head >= ring.spec_capacity() - 1 {
        0
    } else {
        head + 1
    }
}

impl RingIter {
    /// Whether the walk ends with the index that is visited next.
    pub open spec fn at_last(self, ring: Ring) -> bool {
        ||| self.front == self.back
        ||| spec_next_head(ring, self.front) == self.write_head
        ||| self.back == self.write_head
    }

    /// The walk stays within the ring, or is about to end.
    pub open spec fn wf(self, ring: Ring) -> bool {
        &&& ring.wf()
        &&& ring.spec_capacity() > 0
        &&& ring.spec_len() == 0 ==> self.front == self.back
        &&& ring.spec_len() > 0 ==> self.front < ring.spec_len()
        &&& {
            ||| self.done
            ||| self.front == self.back
            ||| self.back < ring.spec_len()
            ||| self.write_head == ring.spec_len() < ring.spec_capacity()
        }
    }

    /// The walk after its front index was visited.
    pub open spec fn step_front(self, ring: Ring) -> RingIter {
        RingIter { done: self.at_last(ring), front: ring.spec_next_entry(self.front), ..self }
    }

    /// The walk after its back index was visited.
    pub open spec fn step_back(self, ring: Ring) -> RingIter {
        RingIter { done: self.at_last(ring), back: ring.spec_prev_entry(self.back), ..self }
    }

    /// An upper bound on the indices left to visit from the front.
    pub open spec fn front_bound(self, ring: Ring) -> int {
        if self.done {
            0
        } else if self.front == self.back {
            1
        } else if self.back >= ring.spec_len() {
            1 + ring.spec_len() - self.front
        } else if self.front < self.back {
            1 + self.back - self.front
        } else {
            1 + ring.spec_len() - self.front + self.back
        }
    }

    /// An upper bound on the indices left to visit from the back.
    pub open spec fn back_bound(self, ring: Ring) -> int {
        if self.done {
            0
        } else if self.front == self.back {
            1
        } else if self.front < self.back {
            1 + self.back - self.front
        } else {
            1 + ring.spec_len() - self.front + self.back
        }
    }

    proof fn lemma_step_front(self, ring: Ring)
        requires
            self.wf(ring),
            !self.done,
        ensures
            self.step_front(ring).wf(ring),
            0 <= self.step_front(ring).front_bound(ring) < self.front_bound(ring),
    {
    }

    proof fn lemma_step_back(self, ring: Ring)
        requires
            self.wf(ring),
            !self.done,
        ensures
            self.step_back(ring).wf(ring),
            0 <= self.step_back(ring).back_bound(ring) < self.back_bound(ring),
    {
    }

    /// The entries left, from the front.
    pub open spec fn front_entries(self, ring: Ring) -> Seq<Entry>
        decreases self.front_bound(ring),
        when self.wf(ring)
        via Self::front_entries_decreases
    {
        if self.done {
            seq![]
        } else {
            let rest = self.step_front(ring).front_entries(ring);
            match spec_entry_at(ring, self.kind, self.front) {
                Some(entry) => seq![entry] + rest,
                None => rest,
            }
        }
    }

    #[via_fn]
    proof fn front_entries_decreases(self, ring: Ring) {
        if !self.done {
            self.lemma_step_front(ring);
        }
    }

    /// The entries left, from the back.
    pub open spec fn back_entries(self, ring: Ring) -> Seq<Entry>
        decreases self.back_bound(ring),
        when self.wf(ring)
        via Self::back_entries_decreases
    {
        if self.done {
            seq![]
        } else {
            let rest = self.step_back(ring).back_entries(ring);
            match spec_entry_at(ring, self.kind, self.back) {
                Some(entry) => seq![entry] + rest,
                None => rest,
            }
        }
    }

    #[via_fn]
    proof fn back_entries_decreases(self, ring: Ring) {
        if !self.done {
            self.lemma_step_back(ring);
        }
    }

    /// The walk after the next entry from the front was taken.
    pub open spec fn after_next(self, ring: Ring) -> RingIter
        decreases self.front_bound(ring),
        when self.wf(ring)
        via Self::after_next_decreases
    {
        if self.done || spec_entry_at(ring, self.kind, self.front) is Some {
            if self.done {
                self
            } else {
                self.step_front(ring)
            }
        } else {
            self.step_front(ring).after_next(ring)
        }
    }

    #[via_fn]
    proof fn after_next_decreases(self, ring: Ring) {
        if !self.done {
            self.lemma_step_front(ring);
        }
    }

    /// The walk after the next entry from the back was taken.
    pub open spec fn after_next_back(self, ring: Ring) -> RingIter
        decreases self.back_bound(ring),
        when self.wf(ring)
        via Self::after_next_back_decreases
    {
        if self.done || spec_entry_at(ring, self.kind, self.back) is Some {
            if self.done {
                self
            } else {
                self.step_back(ring)
            }
        } else {
            self.step_back(ring).after_next_back(ring)
        }
    }

    #[via_fn]
    proof fn after_next_back_decreases(self, ring: Ring) {
        if !self.done {
            self.lemma_step_back(ring);
        }
    }

    fn next(&mut self, ring: &Ring<'_>) -> (entry: Option<Entry>)
        requires
            old(self).wf(*ring),
        ensures
            final(self).wf(*ring),
            *final(self) == old(self).after_next(*ring),
            entry is Some <==> old(self).front_entries(*ring).len() > 0,
            entry is Some ==> entry == Some(old(self).front_entries(*ring)[0])
                && final(self).front_entries(*ring) == old(self).front_entries(*ring).drop_first(),
            entry is None ==> final(self).done,
    {
        loop
            invariant
                self.wf(*ring),
                self.front_entries(*ring) == old(self).front_entries(*ring),
                self.after_next(*ring) == old(self).after_next(*ring),
            decreases self.front_bound(*ring),
        {
            if self.done {
                return None;
            }
            let ghost before = *self;
            proof {
                self.lemma_step_front(*ring);
            }
            self.done = self.front == self.back || ring.next_head(self.front) == self.write_head
                || self.back == self.write_head;
            let index: u32 = self.front;
            self.front = ring.next_entry(index);
            assert(*self == before.step_front(*ring));
            if let Some(entry) = Entry::from(ring, self.kind, index) {
                assert(before.front_entries(*ring) == seq![entry] + self.front_entries(*ring));
                assert((seq![entry] + self.front_entries(*ring)).drop_first()
                    =~= self.front_entries(*ring));
                return Some(entry);
            }
        }
    }

    fn next_back(&mut self, ring: &Ring<'_>) -> (entry: Option<Entry>)
        requires
            old(self).wf(*ring),
        ensures
            final(self).wf(*ring),
            *final(self) == old(self).after_next_back(*ring),
            entry is Some <==> old(self).back_entries(*ring).len() > 0,
            entry is Some ==> entry == Some(old(self).back_entries(*ring)[0])
                && final(self).back_entries(*ring) == old(self).back_entries(*ring).drop_first(),
            entry is None ==> final(self).done,
    {
        loop
            invariant
                self.wf(*ring),
                self.back_entries(*ring) == old(self).back_entries(*ring),
                self.after_next_back(*ring) == old(self).after_next_back(*ring),
            decreases self.back_bound(*ring),
        {
            if self.done {
                return None;
            }
            let ghost before = *self;
            proof {
                self.lemma_step_back(*ring);
            }
            self.done = self.front == self.back || ring.next_head(self.front) == self.write_head
                || self.back == self.write_head;
            let index: u32 = self.back;
            self.back = ring.prev_entry(index);
            assert(*self == before.step_back(*ring));
            if let Some(entry) = Entry::from(ring, self.kind, index) {
                assert(before.back_entries(*ring) == seq![entry] + self.back_entries(*ring));
                assert((seq![entry] + self.back_entries(*ring)).drop_first()
                    =~= self.back_entries(*ring));
                return Some(entry);
            }
        }
    }

    fn size_hint(&self, ring: &Ring<'_>) -> (hint: (usize, Option<usize>))
        requires
            self.wf(*ring),
        ensures
            hint.0 == if self.front > self.back {
                ring.spec_len() - self.front + self.back
            } else {
                self.back - self.front
            },
            hint.1 == Some(hint.0),
    {
        let len: u32 = if self.front > self.back {
            ring.len() - self.front + self.back
        } else {
            self.back - self.front
        };
        (len as usize, Some(len as usize))
    }
}

/// The state of a ring file that the server keeps: the write head follows the
/// last entry, or the ring is full and the write head points at the oldest one.
pub open spec fn is_settled(ring: Ring) -> bool {
    &&& ring.wf()
    &&& ring.spec_capacity() > 0
    &&& {
        ||| ring.spec_write_head() == ring.spec_len()
        ||| ring.spec_write_head() < ring.spec_len() == ring.spec_capacity()
    }
}

/// The write head is within the ring, or right behind its last entry.
pub open spec fn is_head_within(ring: Ring) -> bool {
    &&& ring.wf()
    &&& ring.spec_capacity() > 0
    &&& ring.spec_write_head() <= ring.spec_len()
}

/// The index of the oldest entry: the one at the write head, or the first one if there
/// is none.
pub open spec fn oldest_index(ring: Ring) -> u32 {
    if ring.spec_write_head() < ring.spec_len() {
        ring.spec_write_head()
    } else {
        0
    }
}

/// The entries found at `n` consecutive indices from `first` on, wrapping around.
pub open spec fn entries_from(ring: Ring, kind: RingKind, first: u32, n: nat) -> Seq<Entry>
    decreases n,
{
    if n == 0 {
        seq![]
    } else {
        found_at(ring, kind, first) + entries_from(
            ring,
            kind,
            ring.spec_next_entry(first),
            (n - 1) as nat,
        )
    }
}

/// The entry found at an index, or nothing.
pub open spec fn found_at(ring: Ring, kind: RingKind, index: u32) -> Seq<Entry> {
    match spec_entry_at(ring, kind, index) {
        Some(entry) => seq![entry],
        None => seq![],
    }
}

/// The entries of a ring, oldest first.
pub open spec fn contents(ring: Ring, kind: RingKind) -> Seq<Entry> {
    entries_from(ring, kind, oldest_index(ring), ring.spec_len() as nat)
}

/// The index `n` places after `first`, wrapping around.
pub open spec fn index_after(ring: Ring, first: u32, n: int) -> int {
    if first + n < ring.spec_len() {
        first + n
    } else {
        first + n - ring.spec_len()
    }
}

proof fn lemma_entries_from_last(ring: Ring, kind: RingKind, first: u32, n: nat)
    requires
        first < ring.spec_len(),
        0 < n <= ring.spec_len(),
    ensures
        entries_from(ring, kind, first, n) == entries_from(ring, kind, first, (n - 1) as nat)
            + found_at(ring, kind, index_after(ring, first, n - 1) as u32),
    decreases n,
{
    reveal_with_fuel(entries_from, 2);
    let next = ring.spec_next_entry(first);
    if n == 1 {
        assert(found_at(ring, kind, first) + Seq::<Entry>::empty() =~= Seq::<Entry>::empty()
            + found_at(ring, kind, first));
    } else {
        lemma_entries_from_last(ring, kind, next, (n - 1) as nat);
        assert(index_after(ring, next, n - 2) == index_after(ring, first, n - 1));
        assert(entries_from(ring, kind, first, n) =~= entries_from(
            ring,
            kind,
            first,
            (n - 1) as nat,
        ) + found_at(ring, kind, index_after(ring, first, n - 1) as u32));
    }
}

proof fn lemma_front_entries(it: RingIter, ring: Ring)
    requires
        is_head_within(ring),
        it.wf(ring),
        !it.done,
        ring.spec_len() > 0,
        it.write_head == ring.spec_write_head(),
        it.back == ring.spec_prev_entry(oldest_index(ring)),
    ensures
        it.front_entries(ring) == entries_from(
            ring,
            it.kind,
            it.front,
            it.front_bound(ring) as nat,
        ),
    decreases it.front_bound(ring),
{
    it.lemma_step_front(ring);
    let next = it.step_front(ring);
    if it.front == it.back {
        assert(next.front_entries(ring) =~= seq![]);
        reveal_with_fuel(entries_from, 2);
    } else {
        assert(!it.at_last(ring));
        lemma_front_entries(next, ring);
    }
    assert(it.front_entries(ring) =~= found_at(ring, it.kind, it.front) + next.front_entries(ring));
}

proof fn lemma_back_entries(it: RingIter, ring: Ring)
    requires
        is_head_within(ring),
        it.wf(ring),
        !it.done,
        ring.spec_len() > 0,
        it.back < ring.spec_len(),
        it.write_head == ring.spec_write_head(),
        it.front == oldest_index(ring),
    ensures
        it.back_entries(ring) == entries_from(
            ring,
            it.kind,
            it.front,
            it.back_bound(ring) as nat,
        ).reverse(),
    decreases it.back_bound(ring),
{
    it.lemma_step_back(ring);
    let next = it.step_back(ring);
    let n = it.back_bound(ring) as nat;
    lemma_entries_from_last(ring, it.kind, it.front, n);
    assert(index_after(ring, it.front, n - 1) == it.back);
    if it.front == it.back {
        assert(next.back_entries(ring) =~= seq![]);
        reveal_with_fuel(entries_from, 2);
        assert(it.back_entries(ring) =~= found_at(ring, it.kind, it.back));
        assert(found_at(ring, it.kind, it.back).reverse() =~= found_at(ring, it.kind, it.back));
        assert(entries_from(ring, it.kind, it.front, n) =~= found_at(ring, it.kind, it.back));
    } else {
        assert(!it.at_last(ring));
        lemma_back_entries(next, ring);
        let front = entries_from(ring, it.kind, it.front, (n - 1) as nat);
        assert(next.back_entries(ring) == front.reverse());
        assert(it.back_entries(ring) =~= found_at(ring, it.kind, it.back) + front.reverse());
        assert((front + found_at(ring, it.kind, it.back)).reverse() =~= found_at(
            ring,
            it.kind,
            it.back,
        ) + front.reverse());
    }
}

/// A walk over a whole ring visits its entries from the oldest to the newest, and
/// backwards from the newest to the oldest, wherever in the ring the write head is.
pub proof fn lemma_full_walk(ring: Ring, kind: RingKind)
    requires
        is_head_within(ring),
    ensures
        ({
            let it = spec_reset(ring, kind, ring.spec_write_head(), ring.spec_write_head());
            &&& it.wf(ring)
            &&& it.front_entries(ring) == contents(ring, kind)
            &&& it.back_entries(ring) == contents(ring, kind).reverse()
        }),
{
    let it = spec_reset(ring, kind, ring.spec_write_head(), ring.spec_write_head());
    if ring.spec_len() == 0 {
        assert(it.front == it.back);
        it.lemma_step_front(ring);
        it.lemma_step_back(ring);
        assert(it.step_front(ring).front_entries(ring) =~= seq![]);
        assert(it.step_back(ring).back_entries(ring) =~= seq![]);
        assert(contents(ring, kind) =~= seq![]);
        assert(contents(ring, kind).reverse() =~= seq![]);
    } else {
        lemma_front_entries(it, ring);
        lemma_back_entries(it, ring);
        assert(it.front_bound(ring) == ring.spec_len());
        assert(it.back_bound(ring) == ring.spec_len());
    }
}

proof fn lemma_entries_from_elements(ring: Ring, kind: RingKind, first: u32, n: nat)
    requires
        ring.wf(),
        first < ring.spec_len(),
        n <= ring.spec_len(),
    ensures
        forall|i: int|
            0 <= i < n && (#[trigger] spec_entry_at(
                ring,
                kind,
                index_after(ring, first, i) as u32,
            )) is Some ==> entries_from(ring, kind, first, n).contains(
                spec_entry_at(ring, kind, index_after(ring, first, i) as u32)->0,
            ),
        forall|e: Entry| #[trigger]
            entries_from(ring, kind, first, n).contains(e) ==> exists|i: int|
                0 <= i < n && spec_entry_at(
                    ring,
                    kind,
                    #[trigger] index_after(ring, first, i) as u32,
                ) == Some(e),
        entries_from(ring, kind, first, n).no_duplicates(),
    decreases n,
{
    let all = entries_from(ring, kind, first, n);
    if n == 0 {
        assert(all =~= seq![]);
    } else {
        let front = entries_from(ring, kind, first, (n - 1) as nat);
        let index = index_after(ring, first, n - 1) as u32;
        let last = found_at(ring, kind, index);
        lemma_entries_from_last(ring, kind, first, n);
        lemma_entries_from_elements(ring, kind, first, (n - 1) as nat);
        assert(all == front + last);
        assert forall|i: int|
            0 <= i < n && (#[trigger] spec_entry_at(
                ring,
                kind,
                index_after(ring, first, i) as u32,
            )) is Some implies all.contains(
            spec_entry_at(ring, kind, index_after(ring, first, i) as u32)->0,
        ) by {
            let e = spec_entry_at(ring, kind, index_after(ring, first, i) as u32)->0;
            if i == n - 1 {
                assert(all[front.len() as int] == e);
            } else {
                assert(front.contains(e));
                let j = choose|j: int| 0 <= j < front.len() && front[j] == e;
                assert(all[j] == e);
            }
        }
        assert forall|e: Entry| #[trigger] all.contains(e) implies exists|i: int|
            0 <= i < n && spec_entry_at(
                ring,
                kind,
                #[trigger] index_after(ring, first, i) as u32,
            ) == Some(e) by {
            let j = choose|j: int| 0 <= j < all.len() && all[j] == e;
            if j < front.len() {
                assert(front[j] == e);
                assert(front.contains(e));
            } else {
                assert(last[j - front.len()] == e);
                assert(spec_entry_at(ring, kind, index_after(ring, first, n - 1) as u32) == Some(
                    e,
                ));
            }
        }
        assert forall|i: int, j: int| 0 <= i < j < all.len() implies all[i] != all[j] by {
            if j < front.len() {
                assert(front[i] != front[j]);
            } else {
                assert(front.contains(front[i]));
                let k = choose|k: int|
                    0 <= k < n - 1 && spec_entry_at(
                        ring,
                        kind,
                        #[trigger] index_after(ring, first, k) as u32,
                    ) == Some(front[i]);
                lemma_entry_at(ring, kind, index_after(ring, first, k) as u32);
                lemma_entry_at(ring, kind, index);
                assert(index_after(ring, first, k) != index_after(ring, first, n - 1));
            }
        }
    }
}

/// A walk over a whole ring visits every initialized entry exactly once.
pub proof fn lemma_contents_complete(ring: Ring, kind: RingKind)
    requires
        is_head_within(ring),
    ensures
        contents(ring, kind).no_duplicates(),
        forall|index: u32|
            (#[trigger] spec_entry_at(ring, kind, index)) is Some ==> contents(
                ring,
                kind,
            ).contains(spec_entry_at(ring, kind, index)->0),
        forall|e: Entry| #[trigger]
            contents(ring, kind).contains(e) ==> e.spec_ring() == kind && e.spec_index()
                < ring.spec_len() && spec_entry_at(ring, kind, e.spec_index()) == Some(e),
{
    if ring.spec_len() > 0 {
        let first = oldest_index(ring);
        let n = ring.spec_len() as nat;
        lemma_entries_from_elements(ring, kind, first, n);
        assert forall|index: u32| (#[trigger] spec_entry_at(ring, kind, index)) is Some implies (
        contents(ring, kind).contains(spec_entry_at(ring, kind, index)->0)) by {
            let i = if index >= first {
                index - first
            } else {
                index + ring.spec_len() - first
            };
            assert(index_after(ring, first, i) as u32 == index);
        }
        assert forall|e: Entry| #[trigger] contents(ring, kind).contains(e) implies e.spec_ring()
            == kind && e.spec_index() < ring.spec_len() && spec_entry_at(ring, kind, e.spec_index())
            == Some(e) by {
            let i = choose|i: int|
                0 <= i < n && spec_entry_at(
                    ring,
                    kind,
                    #[trigger] index_after(ring, first, i) as u32,
                ) == Some(e);
            lemma_entry_at(ring, kind, index_after(ring, first, i) as u32);
        }
    }
}

/// How many slots of a ring were written to after the one at an index: those from there up
/// to the write head, going around.
pub open spec fn written_after(ring: Ring, index: u32) -> int {
    if index < ring.spec_write_head() {
        ring.spec_write_head() - 1 - index
    } else {
        ring.spec_write_head() + ring.spec_len() - 1 - index
    }
}

/// How far an index is from another, going around.
pub open spec fn distance_from(ring: Ring, first: u32, index: u32) -> int {
    if index >= first {
        index - first
    } else {
        index + ring.spec_len() - first
    }
}

proof fn lemma_entries_from_order(ring: Ring, kind: RingKind, first: u32, n: nat)
    requires
        ring.wf(),
        first < ring.spec_len(),
        n <= ring.spec_len(),
    ensures
        forall|i: int|
            0 <= i < entries_from(ring, kind, first, n).len() ==> {
                let e = #[trigger] entries_from(ring, kind, first, n)[i];
                e.spec_index() < ring.spec_len() && distance_from(ring, first, e.spec_index()) < n
            },
        forall|i: int, j: int|
            0 <= i < j < entries_from(ring, kind, first, n).len() ==> distance_from(
                ring,
                first,
                (#[trigger] entries_from(ring, kind, first, n)[i]).spec_index(),
            ) < distance_from(
                ring,
                first,
                (#[trigger] entries_from(ring, kind, first, n)[j]).spec_index(),
            ),
    decreases n,
{
    if n > 0 {
        let all = entries_from(ring, kind, first, n);
        let front = entries_from(ring, kind, first, (n - 1) as nat);
        let index = index_after(ring, first, n - 1) as u32;
        lemma_entries_from_last(ring, kind, first, n);
        lemma_entries_from_order(ring, kind, first, (n - 1) as nat);
        let last = found_at(ring, kind, index);
        assert(all == front + last);
        if last.len() > 0 {
            lemma_entry_at(ring, kind, index);
        }
        assert forall|i: int| 0 <= i < all.len() implies {
            let e = #[trigger] all[i];
            e.spec_index() < ring.spec_len() && distance_from(ring, first, e.spec_index()) < n && (i
                < front.len() ==> distance_from(ring, first, e.spec_index()) < n - 1) && (i
                >= front.len() ==> distance_from(ring, first, e.spec_index()) == n - 1)
        } by {
            if i < front.len() {
                assert(all[i] == front[i]);
            }
        }
        assert forall|i: int, j: int| 0 <= i < j < all.len() implies distance_from(
            ring,
            first,
            (#[trigger] all[i]).spec_index(),
        ) < distance_from(ring, first, (#[trigger] all[j]).spec_index()) by {
            if j < front.len() {
                assert(all[i] == front[i] && all[j] == front[j]);
            }
        }
    }
}

/// The entries of a ring come in the order in which they were written.
pub proof fn lemma_contents_oldest_first(ring: Ring, kind: RingKind, i: int, j: int)
    requires
        is_head_within(ring),
        0 <= i < j < contents(ring, kind).len(),
    ensures
        written_after(ring, contents(ring, kind)[i].spec_index()) > written_after(
            ring,
            contents(ring, kind)[j].spec_index(),
        ) >= 0,
        written_after(ring, contents(ring, kind)[i].spec_index()) < ring.spec_len(),
{
    lemma_entries_from_order(ring, kind, oldest_index(ring), ring.spec_len() as nat);
    let a = contents(ring, kind)[i].spec_index();
    let b = contents(ring, kind)[j].spec_index();
    assert(written_after(ring, a) == ring.spec_len() - 1 - distance_from(
        ring,
        oldest_index(ring),
        a,
    ));
    assert(written_after(ring, b) == ring.spec_len() - 1 - distance_from(
        ring,
        oldest_index(ring),
        b,
    ));
}

/// How many of the first slots of a ring hold an entry.
pub open spec fn num_initialized(ring: Ring, n: nat) -> nat
    decreases n,
{
    if n == 0 {
        0
    } else {
        num_initialized(ring, (n - 1) as nat) + if spec_metadata_at(ring, (n - 1) as u32) is Some {
            1nat
        } else {
            0
        }
    }
}

proof fn lemma_entries_from_len(ring: Ring, kind: RingKind, first: u32, n: nat)
    requires
        first < ring.spec_len(),
        n <= ring.spec_len(),
    ensures
        entries_from(ring, kind, first, n).len() == if first + n <= ring.spec_len() {
            num_initialized(ring, (first + n) as nat) - num_initialized(ring, first as nat)
        } else {
            num_initialized(ring, ring.spec_len() as nat) - num_initialized(ring, first as nat)
                + num_initialized(ring, (first + n - ring.spec_len()) as nat)
        },
    decreases n,
{
    if n > 0 {
        lemma_entries_from_last(ring, kind, first, n);
        lemma_entries_from_len(ring, kind, first, (n - 1) as nat);
        let index = index_after(ring, first, n - 1);
        assert(num_initialized(ring, (index + 1) as nat) == num_initialized(ring, index as nat)
            + found_at(ring, kind, index as u32).len());
    }
}

/// There are as many entries in a ring as slots that hold one, and no more than slots.
pub proof fn lemma_contents_len(ring: Ring, kind: RingKind)
    requires
        is_head_within(ring),
    ensures
        contents(ring, kind).len() == num_initialized(ring, ring.spec_len() as nat),
        contents(ring, kind).len() <= ring.spec_len(),
{
    lemma_num_initialized_bound(ring, ring.spec_len() as nat);
    if ring.spec_len() > 0 {
        lemma_entries_from_len(ring, kind, oldest_index(ring), ring.spec_len() as nat);
    }
}

proof fn lemma_num_initialized_bound(ring: Ring, n: nat)
    ensures
        num_initialized(ring, n) <= n,
    decreases n,
{
    if n > 0 {
        lemma_num_initialized_bound(ring, (n - 1) as nat);
    }
}

/// The walk that starts between the indices before and after `start`.
pub open spec fn spec_reset(ring: Ring, kind: RingKind, write_head: u32, start: u32) -> RingIter {
    let back = ring.spec_prev_entry(start);
    RingIter {
        kind,
        write_head: if write_head <= ring.spec_len() {
            write_head
        } else {
            ring.spec_len()
        },
        front: ring.spec_next_entry(back),
        back,
        done: false,
    }
}

/// A walk over the entries of a ring, from the oldest to the newest.
#[derive(Debug)]
pub struct RingReader<'r, 'a> {
    ring: &'r Ring<'a>,
    iter: RingIter,
}

impl<'r, 'a> RingReader<'r, 'a> {
    /// The ring that is walked over.
    pub closed spec fn spec_ring(self) -> Ring<'a> {
        *self.ring
    }

    /// The state of the walk.
    pub closed spec fn spec_iter(self) -> RingIter {
        self.iter
    }

    pub open spec fn wf(self) -> bool {
        self.spec_iter().wf(self.spec_ring())
    }

    /// The entries left, oldest first.
    pub open spec fn remaining(self) -> Seq<Entry> {
        self.spec_iter().front_entries(self.spec_ring())
    }

    /// The entries left, newest first.
    pub open spec fn remaining_back(self) -> Seq<Entry> {
        self.spec_iter().back_entries(self.spec_ring())
    }

    /// A walk over the whole ring.
    #[must_use]
    pub fn from_ring(ring: &'r Ring<'a>, kind: RingKind) -> (reader: RingReader<'r, 'a>)
        requires
            ring.wf(),
            ring.spec_capacity() > 0,
            ring.spec_write_head() <= ring.spec_len() || ring.spec_len() < ring.spec_capacity(),
        ensures
            reader.wf(),
            reader.spec_ring() == *ring,
            reader.spec_iter() == spec_reset(
                *ring,
                kind,
                ring.spec_write_head(),
                ring.spec_write_head(),
            ),
            is_head_within(*ring) ==> reader.remaining() == contents(*ring, kind)
                && reader.remaining_back() == contents(*ring, kind).reverse(),
    {
        let tail: u32 = ring.write_head();
        proof {
            if is_head_within(*ring) {
                lemma_full_walk(*ring, kind);
            }
        }
        RingReader::from_id(ring, kind, tail, tail)
    }

    /// A walk forwards from `id` and backwards from the index before it.
    #[must_use]
    pub fn from_id(ring: &'r Ring<'a>, kind: RingKind, write_head: u32, id: u32) -> (reader:
        RingReader<'r, 'a>)
        requires
            ring.wf(),
            ring.spec_capacity() > 0,
            id <= ring.spec_len() || ring.spec_len() <= write_head && ring.spec_len()
                < ring.spec_capacity(),
        ensures
            reader.wf(),
            reader.spec_ring() == *ring,
            reader.spec_iter() == spec_reset(*ring, kind, write_head, id),
    {
        let mut me = RingReader::from_uninit(ring, kind);
        me.reset_to(write_head, id);
        me
    }

    /// A walk that visits nothing until it is reset.
    #[must_use]
    pub fn from_uninit(ring: &'r Ring<'a>, kind: RingKind) -> (reader: RingReader<'r, 'a>)
        requires
            ring.wf(),
            ring.spec_capacity() > 0,
        ensures
            reader.wf(),
            reader.spec_ring() == *ring,
            reader.spec_iter() == (RingIter {
                kind,
                write_head: 0,
                front: 0,
                back: 0,
                done: true,
            }),
            reader.remaining() == Seq::<Entry>::empty(),
            reader.remaining_back() == Seq::<Entry>::empty(),
    {
        RingReader { ring, iter: RingIter { kind, write_head: 0, front: 0, back: 0, done: true } }
    }

    #[must_use]
    pub fn ring(&self) -> (ring: &Ring<'a>)
        ensures
            *ring == self.spec_ring(),
    {
        self.ring
    }

    #[must_use]
    pub fn kind(&self) -> (kind: RingKind)
        ensures
            kind == self.spec_iter().kind,
    {
        self.iter.kind
    }

    /// Starts the walk anew. A write head past the known end of the ring is
    /// taken to be at the end.
    pub fn reset_to(&mut self, write_head: u32, start: u32)
        requires
            old(self).wf(),
            start <= old(self).spec_ring().spec_len() || old(self).spec_ring().spec_len()
                <= write_head && old(self).spec_ring().spec_len() < old(
                self,
            ).spec_ring().spec_capacity(),
        ensures
            final(self).wf(),
            final(self).spec_ring() == old(self).spec_ring(),
            final(self).spec_iter() == spec_reset(
                old(self).spec_ring(),
                old(self).spec_iter().kind,
                write_head,
                start,
            ),
    {
        let len: u32 = self.ring.len();
        self.iter.write_head =
        if write_head <= len {
            write_head
        } else {
            len
        };
        self.iter.back = self.ring.prev_entry(start);
        self.iter.front = self.ring.next_entry(self.iter.back);
        self.iter.done = false;
    }

    /// Takes the next entry, oldest first.
    pub fn next(&mut self) -> (entry: Option<Entry>)
        requires
            old(self).wf(),
        ensures
            final(self).wf(),
            final(self).spec_ring() == old(self).spec_ring(),
            final(self).spec_iter() == old(self).spec_iter().after_next(old(self).spec_ring()),
            entry is Some <==> old(self).remaining().len() > 0,
            entry is Some ==> entry == Some(old(self).remaining()[0]) && final(self).remaining()
                == old(self).remaining().drop_first(),
            entry is None ==> final(self).spec_iter().done,
    {
        self.iter.next(self.ring)
    }

    /// Takes the next entry, newest first.
    pub fn next_back(&mut self) -> (entry: Option<Entry>)
        requires
            old(self).wf(),
        ensures
            final(self).wf(),
            final(self).spec_ring() == old(self).spec_ring(),
            final(self).spec_iter() == old(self).spec_iter().after_next_back(
                old(self).spec_ring(),
            ),
            entry is Some <==> old(self).remaining_back().len() > 0,
            entry is Some ==> entry == Some(old(self).remaining_back()[0])
                && final(self).remaining_back() == old(self).remaining_back().drop_first(),
            entry is None ==> final(self).spec_iter().done,
    {
        self.iter.next_back(self.ring)
    }

    /// How far the two ends of the walk are apart.
    pub fn size_hint(&self) -> (hint: (usize, Option<usize>))
        requires
            self.wf(),
        ensures
            ({
                let it = self.spec_iter();
                &&& hint.0 == if it.front > it.back {
                    self.spec_ring().spec_len() - it.front + it.back
                } else {
                    it.back - it.front
                }
                &&& hint.1 == Some(hint.0)
            }),
    {
        self.iter.size_hint(self.ring)
    }
}

/// The two rings of a database.
#[derive(Debug)]
pub struct DatabaseReader<'a> {
    main: Ring<'a>,
    favorites: Ring<'a>,
}

impl<'a> DatabaseReader<'a> {
    pub closed spec fn spec_main(self) -> Ring<'a> {
        self.main
    }

    pub closed spec fn spec_favorites(self) -> Ring<'a> {
        self.favorites
    }

    /// The ring of the given kind.
    pub open spec fn spec_ring(self, kind: RingKind) -> Ring<'a> {
        match kind {
            RingKind::Favorites => self.spec_favorites(),
            RingKind::Main => self.spec_main(),
        }
    }

    /// Both rings are well formed and can hold entries.
    pub open spec fn wf(self) -> bool {
        &&& self.spec_main().wf()
        &&& self.spec_main().spec_capacity() > 0
        &&& self.spec_favorites().wf()
        &&& self.spec_favorites().spec_capacity() > 0
    }

    /// The entry with the given ID, or why there is none.
    pub open spec fn spec_get_raw(self, id: u64) -> Result<Entry, IdNotFoundError> {
        match crate::protocol::spec_decompose_id(id) {
            Err(error) => Err(error),
            Ok((kind, index)) => match spec_entry_at(self.spec_ring(kind), kind, index) {
                None => Err(IdNotFoundError::Entry(index)),
                Some(entry) => Ok(entry),
            },
        }
    }

    /// A database over its two rings.
    pub fn new(main: Ring<'a>, favorites: Ring<'a>) -> (database: DatabaseReader<'a>)
        ensures
            database.spec_main() == main,
            database.spec_favorites() == favorites,
    {
        DatabaseReader { main, favorites }
    }

    /// Looks an entry up among the entries known so far.
    pub fn get_raw(&self, id: u64) -> (entry: Result<Entry, IdNotFoundError>)
        requires
            self.wf(),
        ensures
            entry == self.spec_get_raw(id),
    {
        let (kind, index) = match decompose_id(id) {
            Ok(parts) => parts,
            Err(error) => return Err(error),
        };
        let ring = match kind {
            RingKind::Favorites => &self.favorites,
            RingKind::Main => &self.main,
        };
        match Entry::from(ring, kind, index) {
            Some(entry) => Ok(entry),
            None => Err(IdNotFoundError::Entry(index)),
        }
    }

    /// Whether the rings are those of another reader, but for the one that an ID names: it
    /// is long enough for the ID.
    pub open spec fn is_grown_to(self, other: DatabaseReader<'_>, id: u64) -> bool {
        forall|kind: RingKind|
            {
                let before = #[trigger] other.spec_ring(kind);
                let after = self.spec_ring(kind);
                &&& after.mem() == before.mem()
                &&& after.spec_capacity() == before.spec_capacity()
                &&& after.spec_len() == match crate::protocol::spec_decompose_id(id) {
                    Ok((named, index)) if named == kind && index >= before.spec_len() => index + 1,
                    _ => before.spec_len() as int,
                }
            }
    }

    /// Looks an entry up that the ring's file is known to hold, growing the
    /// ring up to it.
    pub fn get(&mut self, id: u64) -> (entry: Result<Entry, IdNotFoundError>)
        requires
            old(self).wf(),
            crate::protocol::spec_decompose_id(id) matches Ok(parts) ==> parts.1 < old(
                self,
            ).spec_ring(parts.0).spec_capacity(),
        ensures
            final(self).wf(),
            entry == final(self).spec_get_raw(id),
            final(self).is_grown_to(*old(self), id),
    {
        let (kind, index) = match decompose_id(id) {
            Ok(parts) => parts,
            Err(error) => return Err(error),
        };
        match kind {
            RingKind::Favorites => {
                if index >= self.favorites.len() {
                    self.favorites.set_len(index + 1);
                }
            },
            RingKind::Main => {
                if index >= self.main.len() {
                    self.main.set_len(index + 1);
                }
            },
        }
        self.get_raw(id)
    }

    /// Whether the ring that an ID names, if any, can hold an entry there.
    pub fn is_id_in_range(&self, id: u64) -> (ok: bool)
        ensures
            ok == (crate::protocol::spec_decompose_id(id) matches Ok(parts) ==> parts.1
                < self.spec_ring(parts.0).spec_capacity()),
    {
        match decompose_id(id) {
            Err(_) => true,
            Ok((RingKind::Favorites, index)) => index < self.favorites.capacity(),
            Ok((RingKind::Main, index)) => index < self.main.capacity(),
        }
    }

    #[must_use]
    pub fn main_ring(&self) -> (ring: &Ring<'a>)
        ensures
            *ring == self.spec_main(),
    {
        &self.main
    }

    #[must_use]
    pub fn favorites_ring(&self) -> (ring: &Ring<'a>)
        ensures
            *ring == self.spec_favorites(),
    {
        &self.favorites
    }

    pub fn main_ring_mut(&mut self) -> (ring: &mut Ring<'a>)
        ensures
            *ring == old(self).spec_main(),
            final(self).spec_main() == *final(ring),
            final(self).spec_favorites() == old(self).spec_favorites(),
    {
        &mut self.main
    }

    pub fn favorites_ring_mut(&mut self) -> (ring: &mut Ring<'a>)
        ensures
            *ring == old(self).spec_favorites(),
            final(self).spec_favorites() == *final(ring),
            final(self).spec_main() == old(self).spec_main(),
    {
        &mut self.favorites
    }

    /// A walk over the main ring.
    #[must_use]
    pub fn main(&self) -> (reader: RingReader<'_, 'a>)
        requires
            self.wf(),
            can_walk(self.spec_main()),
        ensures
            reader.wf(),
            reader.spec_ring() == self.spec_main(),
            reader.spec_iter() == spec_walk(self.spec_main(), RingKind::Main),
            is_head_within(self.spec_main()) ==> reader.remaining() == contents(
                self.spec_main(),
                RingKind::Main,
            ) && reader.remaining_back() == contents(self.spec_main(), RingKind::Main).reverse(),
    {
        RingReader::from_ring(&self.main, RingKind::Main)
    }

    /// A walk over the favorites.
    #[must_use]
    pub fn favorites(&self) -> (reader: RingReader<'_, 'a>)
        requires
            self.wf(),
            can_walk(self.spec_favorites()),
        ensures
            reader.wf(),
            reader.spec_ring() == self.spec_favorites(),
            reader.spec_iter() == spec_walk(self.spec_favorites(), RingKind::Favorites),
            is_head_within(self.spec_favorites()) ==> reader.remaining() == contents(
                self.spec_favorites(),
                RingKind::Favorites,
            ) && reader.remaining_back() == contents(
                self.spec_favorites(),
                RingKind::Favorites,
            ).reverse(),
    {
        RingReader::from_ring(&self.favorites, RingKind::Favorites)
    }
}

/// The write head is known, or there is room for the entries up to it.
pub open spec fn can_walk(ring: Ring) -> bool {
    ring.spec_write_head() <= ring.spec_len() || ring.spec_len() < ring.spec_capacity()
}

/// The walk over a whole ring.
pub open spec fn spec_walk(ring: Ring, kind: RingKind) -> RingIter {
    spec_reset(ring, kind, ring.spec_write_head(), ring.spec_write_head())
}

proof fn lemma_front_entries_len(it: RingIter, ring: Ring)
    requires
        it.wf(ring),
    ensures
        it.front_entries(ring).len() <= it.front_bound(ring),
    decreases it.front_bound(ring),
{
    if !it.done {
        it.lemma_step_front(ring);
        lemma_front_entries_len(it.step_front(ring), ring);
    }
}

/// A walk over a ring visits no more entries than there is room for, but for one.
pub proof fn lemma_walk_len(ring: Ring, kind: RingKind)
    requires
        ring.wf(),
        ring.spec_capacity() > 0,
        can_walk(ring),
    ensures
        spec_walk(ring, kind).front_entries(ring).len() <= ring.spec_len() + 1,
{
    let it = spec_walk(ring, kind);
    assert(it.wf(ring));
    lemma_front_entries_len(it, ring);
}

/// Every entry that a walk over a ring visits is found again by its ID.
pub proof fn lemma_walked_entries_are_found(database: DatabaseReader, kind: RingKind, entry: Entry)
    requires
        database.wf(),
        is_head_within(database.spec_ring(kind)),
        contents(database.spec_ring(kind), kind).contains(entry),
    ensures
        database.spec_get_raw(entry.spec_id()) == Ok::<Entry, IdNotFoundError>(entry),
{
    lemma_contents_complete(database.spec_ring(kind), kind);
    crate::protocol::lemma_decompose_of_composite(kind, entry.spec_index());
}

/// A bucket whose mapping ends before an entry does.
#[derive(Copy, Clone, Eq, PartialEq, Debug, Structural)]
pub struct BucketTooShort {
    pub bucket: usize,
    pub needed_len: u64,
}

/// The mapped bucket files, one per size class.
#[derive(Debug)]
pub struct EntryReader<'a> {
    buckets: Vec<&'a [u8]>,
}

impl<'a> EntryReader<'a> {
    /// The bytes of each bucket.
    pub closed spec fn spec_buckets(self) -> Seq<Seq<u8>> {
        Seq::new(self.buckets@.len(), |i: int| self.buckets@[i]@)
    }

    /// There is a bucket for every size class.
    pub open spec fn wf(self) -> bool {
        self.spec_buckets().len() == crate::utils::NUM_BUCKETS
    }

    /// A reader over the mapped buckets.
    pub fn new(buckets: Vec<&'a [u8]>) -> (reader: EntryReader<'a>)
        requires
            buckets@.len() == crate::utils::NUM_BUCKETS,
        ensures
            reader.wf(),
            forall|i: int|
                0 <= i < crate::utils::NUM_BUCKETS ==> #[trigger] reader.spec_buckets()[i]
                    == buckets@[i]@,
    {
        EntryReader { buckets }
    }

    /// The bytes of each bucket.
    #[must_use]
    pub fn buckets(&self) -> (buckets: &Vec<&'a [u8]>)
        ensures
            buckets@.len() == self.spec_buckets().len(),
            forall|i: int|
                0 <= i < buckets@.len() ==> #[trigger] buckets@[i]@ == self.spec_buckets()[i],
    {
        &self.buckets
    }

    /// Replaces the mapping of a bucket that has been resized.
    pub fn set_bucket(&mut self, bucket: usize, mem: &'a [u8])
        requires
            old(self).wf(),
            bucket < crate::utils::NUM_BUCKETS,
        ensures
            final(self).wf(),
            final(self).spec_buckets() == old(self).spec_buckets().update(bucket as int, mem@),
    {
        self.buckets.set(bucket, mem);
        assert(self.spec_buckets() =~= old(self).spec_buckets().update(bucket as int, mem@));
    }

    /// Where the contents of a bucketed entry lie: the bucket, and the range of
    /// bytes in it.
    pub open spec fn spec_place(entry: InitializedEntry) -> (int, int, int) {
        let bucket = crate::utils::spec_size_to_bucket(entry.spec_size() as int);
        let start = crate::utils::spec_bucket_to_length(bucket) * entry.spec_index();
        (bucket, start, start + entry.spec_size())
    }

    /// The contents of a bucketed entry, or how long its bucket must be mapped.
    pub open spec fn spec_contents(self, entry: InitializedEntry) -> Option<Seq<u8>> {
        let (bucket, start, end) = EntryReader::spec_place(entry);
        if end > self.spec_buckets()[bucket].len() {
            None
        } else {
            Some(self.spec_buckets()[bucket].subrange(start, end))
        }
    }

    /// The length that a bucket needs for the slot of an entry.
    pub open spec fn spec_needed_len(entry: InitializedEntry) -> int {
        let bucket = crate::utils::spec_size_to_bucket(entry.spec_size() as int);
        crate::utils::spec_bucket_to_length(bucket) * (entry.spec_index() + 1)
    }

    /// The contents of a bucketed entry.
    pub fn bucket_entry_to_slice(&self, entry: InitializedEntry) -> (bytes: Result<
        &'a [u8],
        BucketTooShort,
    >)
        requires
            self.wf(),
        ensures
            match bytes {
                Ok(bytes) => self.spec_contents(entry) == Some(bytes@),
                Err(short) => {
                    &&& self.spec_contents(entry) is None
                    &&& short.bucket == EntryReader::spec_place(entry).0
                    &&& short.bucket < crate::utils::NUM_BUCKETS
                    &&& short.needed_len == EntryReader::spec_needed_len(entry)
                },
            },
    {
        let index: u64 = entry.index() as u64;
        let size: u64 = entry.size() as u64;
        let bucket: usize = size_to_bucket(entry.size()) as usize;
        let size_class: u64 = bucket_to_length(bucket) as u64;
        assert(size_class * index <= 4096 * 0xf_ffff && size_class * (index + 1) <= 4096
            * 0x10_0000) by (nonlinear_arith)
            requires
                0 <= size_class <= 4096,
                0 <= index <= 0xf_ffff,
        ;
        let start: u64 = size_class * index;
        let mem: &'a [u8] = self.buckets[bucket];
        assert(mem@ == self.spec_buckets()[bucket as int]);
        assert(start == EntryReader::spec_place(entry).1);
        if start + size > mem.len() as u64 {
            return Err(BucketTooShort { bucket, needed_len: size_class * (index + 1) });
        }
        Ok(vstd::slice::slice_subrange(mem, start as usize, (start + size) as usize))
    }
}

/// A bucket that is grown as asked holds the whole entry.
pub proof fn lemma_needed_len_suffices(reader: EntryReader, entry: InitializedEntry)
    requires
        reader.wf(),
        reader.spec_buckets()[EntryReader::spec_place(entry).0].len()
            >= EntryReader::spec_needed_len(entry),
    ensures
        reader.spec_contents(entry) is Some,
        reader.spec_contents(entry)->0.len() == entry.spec_size(),
{
    let bytes = entry.spec_size() as int;
    let (bucket, start, end) = EntryReader::spec_place(entry);
    crate::utils::lemma_bucket_exists(entry.spec_size());
    let slot = crate::utils::spec_bucket_to_length(bucket);
    assert(slot * (entry.spec_index() + 1) == slot * entry.spec_index() + slot)
        by (nonlinear_arith);
    assert(0 <= slot * entry.spec_index()) by (nonlinear_arith)
        requires
            0 <= slot,
    ;
}

/// Where to read the contents of an entry from.
#[derive(Debug)]
pub enum Source<'a> {
    /// The contents themselves, out of a bucket.
    Bytes(&'a [u8]),
    /// The bucket must be mapped further first.
    Grow(BucketTooShort),
    /// The file of this name in the directory of direct files.
    Direct(Vec<u8>),
}

/// Where to read the mime type of an entry from.
#[derive(Debug)]
pub enum MimeSource {
    /// The entry has no mime type.
    Empty,
    /// The file of this name in the metadata directory, empty if it is missing.
    Metadata(Vec<u8>),
    /// The extended attribute of the entry's file, empty if it is missing.
    Attribute,
}

/// The mime type in a database is not valid UTF-8.
#[derive(Copy, Clone, Eq, PartialEq, Debug, Structural)]
pub struct InvalidMimeType;

impl Entry {
    /// Where to read the contents from.
    pub fn to_slice_raw<'a>(&self, reader: &EntryReader<'a>) -> (source: Source<'a>)
        requires
            reader.wf(),
        ensures
            match self.spec_kind() {
                Kind::File => source matches Source::Direct(name) && name@
                    == crate::utils::spec_direct_file_name(self.spec_id()),
                Kind::Bucket(entry) => match reader.spec_contents(entry) {
                    Some(bytes) => source matches Source::Bytes(slice) && slice@ == bytes,
                    None => source matches Source::Grow(short) && short.bucket
                        == EntryReader::spec_place(entry).0 && short.needed_len
                        == EntryReader::spec_needed_len(entry),
                },
            },
    {
        match self.kind() {
            Kind::File => Source::Direct(direct_file_name(self.ring(), self.index())),
            Kind::Bucket(entry) => match reader.bucket_entry_to_slice(entry) {
                Ok(bytes) => Source::Bytes(bytes),
                Err(short) => Source::Grow(short),
            },
        }
    }

    /// Whether a bucket must be mapped further before the entry can be read.
    pub fn grow_bucket_if_needed(self, reader: &EntryReader<'_>) -> (short: Option<BucketTooShort>)
        requires
            reader.wf(),
        ensures
            short is Some <==> (self.spec_kind() matches Kind::Bucket(entry)
                && reader.spec_contents(entry) is None),
            short matches Some(short) ==> short.bucket == EntryReader::spec_place(
                self.spec_metadata(),
            ).0 && short.needed_len == EntryReader::spec_needed_len(self.spec_metadata()),
    {
        match self.kind() {
            Kind::File => None,
            Kind::Bucket(entry) => match reader.bucket_entry_to_slice(entry) {
                Ok(_) => None,
                Err(short) => Some(short),
            },
        }
    }

    /// Where to read the mime type from. Only direct files have one; it is kept
    /// in the metadata directory if the database has that.
    pub fn mime_source(&self, has_metadata_dir: bool) -> (source: MimeSource)
        ensures
            match self.spec_kind() {
                Kind::Bucket(_) => source is Empty,
                Kind::File => if has_metadata_dir {
                    source matches MimeSource::Metadata(name) && name@
                        == crate::utils::spec_direct_file_name(self.spec_id())
                } else {
                    source is Attribute
                },
            },
    {
        match self.kind() {
            Kind::Bucket(_) => MimeSource::Empty,
            Kind::File => {
                if has_metadata_dir {
                    MimeSource::Metadata(direct_file_name(self.ring(), self.index()))
                } else {
                    MimeSource::Attribute
                }
            },
        }
    }
}

/// The mime type in the bytes read for it; empty if there were none to read.
pub fn xattr_mime_type(read: Option<&[u8]>) -> (mime: Result<MimeType, InvalidMimeType>)
    requires
        read matches Some(bytes) ==> bytes@.len() <= crate::protocol::MIME_TYPE_CAPACITY,
    ensures
        match read {
            None => mime matches Ok(mime) && crate::protocol::mime_text(mime)
                == Seq::<char>::empty(),
            Some(bytes) => {
                &&& mime is Ok <==> vstd::utf8::valid_utf8(bytes@)
                &&& mime matches Ok(mime) ==> crate::protocol::mime_text(mime)
                    == vstd::utf8::decode_utf8(bytes@)
            },
        },
{
    match read {
        None => Ok(mime_new()),
        Some(bytes) => match str_from_utf8(bytes) {
            Err(_) => Err(InvalidMimeType),
            Ok(text) => {
                proof {
                    vstd::utf8::decode_utf8_encode_utf8(bytes@);
                }
                match mime_from(text) {
                    Some(mime) => Ok(mime),
                    None => Err(InvalidMimeType),
                }
            },
        },
    }
}

/// The contents of a bucketed entry are the beginning of its slot: slots of a bucket lie one
/// after the other, and their length is a power of two that the size just fits in.
pub proof fn lemma_contents_begin_slot(
    reader: EntryReader,
    entry: InitializedEntry,
    bucket: int,
    contents: Seq<u8>,
)
    requires
        reader.wf(),
        crate::utils::is_bucket_for(entry.spec_size() as int, bucket),
        reader.spec_contents(entry) == Some(contents),
    ensures
        contents.len() == entry.spec_size(),
        forall|i: int|
            0 <= i < contents.len() ==> #[trigger] contents[i] == reader.spec_buckets()[bucket][i
                + entry.spec_index() * vstd::arithmetic::power2::pow2((bucket + 2) as nat)],
{
    let size = entry.spec_size();
    crate::utils::lemma_bucket_exists(size);
    crate::utils::lemma_bucket_unique(
        size as int,
        bucket,
        crate::utils::spec_size_to_bucket(size as int),
    );
    vstd::arithmetic::power2::lemma_pow2_unfold((bucket + 2) as nat);
    vstd::arithmetic::power2::lemma_pow2_unfold((bucket + 1) as nat);
    let length = crate::utils::spec_bucket_to_length(bucket);
    let slot = entry.spec_index() as int;
    assert(length == vstd::arithmetic::power2::pow2((bucket + 2) as nat));
    assert(length * slot == slot * length) by (nonlinear_arith);
    crate::utils::lemma_bucket_length_positive(bucket);
    assert(0 <= length * slot) by (nonlinear_arith)
        requires
            0 <= length,
            0 <= slot,
    ;
}

/// An entry is read from its slot if it is kept in a bucket, from the file that its ID
/// names otherwise, and never from anywhere else.
pub proof fn lemma_entry_is_read_from_its_place<'a>(
    entry: Entry,
    reader: EntryReader<'a>,
    source: Source<'a>,
)
    requires
        reader.wf(),
        call_ensures(Entry::to_slice_raw, (&entry, &reader), source),
    ensures
        source is Direct <==> entry.spec_metadata().spec_size() == 0,
        source matches Source::Direct(name) ==> crate::text::spec_parse_u64(name@) == Some(
            entry.spec_id(),
        ),
        source matches Source::Bytes(bytes) ==> bytes@.len() == entry.spec_metadata().spec_size(),
        source matches Source::Bytes(bytes) ==> reader.spec_contents(entry.spec_metadata()) == Some(
            bytes@,
        ),
{
    crate::utils::lemma_direct_file_name_round_trip(entry.spec_id());
    if let Source::Bytes(bytes) = source {
        crate::utils::lemma_bucket_exists(entry.spec_metadata().spec_size());
        lemma_contents_begin_slot(
            reader,
            entry.spec_metadata(),
            crate::utils::spec_size_to_bucket(entry.spec_metadata().spec_size() as int),
            bytes@,
        );
    }
}

/// An entry that a ring holds is found by its ID, which has the number of the ring in its
/// upper half and the index in its lower half; an ID of no ring, or of a slot without an
/// entry, is not found.
pub proof fn lemma_entries_are_found_by_id(database: DatabaseReader, kind: RingKind, index: u32)
    requires
        database.wf(),
    ensures
        ({
            let id = (index + if kind == RingKind::Favorites {
                0
            } else {
                0x1_0000_0000int
            }) as u64;
            match database.spec_get_raw(id) {
                Ok(entry) => spec_entry_at(database.spec_ring(kind), kind, index) == Some(entry)
                    && entry.spec_ring() == kind && entry.spec_index() == index && entry.spec_id()
                    == id,
                Err(error) => spec_entry_at(database.spec_ring(kind), kind, index) is None && error
                    == IdNotFoundError::Entry(index),
            }
        }),
        forall|id: u64|
            id >= 0x2_0000_0000 ==> (#[trigger] database.spec_get_raw(id)) == Err::<
                Entry,
                IdNotFoundError,
            >(IdNotFoundError::Ring((id / 0x1_0000_0000) as u32)),
{
    crate::protocol::lemma_decompose_of_composite(kind, index);
    if spec_entry_at(database.spec_ring(kind), kind, index) is Some {
        lemma_entry_at(database.spec_ring(kind), kind, index);
    }
}

/// Text is what has no mime type, the mime type of some text, or that of XML.
pub proof fn lemma_text_mime_types(mime: &str, text: bool)
    requires
        call_ensures(is_text_mime, (mime,), text),
    ensures
        mime@.len() == 0 ==> text,
        forall|subtype: Seq<char>|
            mime@ == #[trigger] ("text/"@ + subtype) ==> text,
        mime@ == "application/xml"@ ==> text,
        text && mime@.len() > 0 && mime@ != "application/xml"@ ==> mime@.len() >= 5 && mime@[0]
            == 't',
{
    let bytes = vstd::utf8::encode_utf8(mime@);
    reveal_strlit("text/");
    vstd::utf8::is_ascii_chars_encode_utf8("text/"@);
    assert("text/"@ =~= seq!['t', 'e', 'x', 't', '/']);
    if mime@.len() == 0 {
        reveal_with_fuel(vstd::utf8::encode_utf8, 1);
    }
    assert forall|subtype: Seq<char>|
        mime@ == #[trigger] ("text/"@ + subtype) implies text by {
        crate::text::lemma_encode_concat("text/"@, subtype);
        assert(bytes.take(5) =~= vstd::utf8::encode_utf8("text/"@));
    }
    if text && mime@.len() > 0 && mime@ != "application/xml"@ {
        vstd::utf8::encode_utf8_decode_utf8(mime@);
        vstd::utf8::encode_utf8_decode_utf8("application/xml"@);
        crate::text::lemma_text_prefix(mime@, "text/"@);
    }
}

/// The mime type of an entry in a bucket is empty, and that of another is in the file that is
/// named after its ID, or in an attribute if there are no such files.
pub proof fn lemma_mime_type_has_its_place(
    entry: Entry,
    has_metadata_dir: bool,
    source: MimeSource,
)
    requires
        call_ensures(Entry::mime_source, (&entry, has_metadata_dir), source),
    ensures
        source is Empty <==> entry.spec_metadata().spec_size() > 0,
        source is Attribute <==> entry.spec_metadata().spec_size() == 0 && !has_metadata_dir,
        source matches MimeSource::Metadata(name) ==> crate::text::spec_parse_u64(name@) == Some(
            entry.spec_id(),
        ),
{
    crate::utils::lemma_direct_file_name_round_trip(entry.spec_id());
}

/// A mime type is read as it was written, and a missing one is empty.
pub proof fn lemma_mime_type_is_read(
    text: Seq<char>,
    bytes: &[u8],
    mime: Result<MimeType, InvalidMimeType>,
    missing: Result<MimeType, InvalidMimeType>,
)
    requires
        bytes@ == vstd::utf8::encode_utf8(text),
        call_ensures(xattr_mime_type, (Some(bytes),), mime),
        call_ensures(xattr_mime_type, (None,), missing),
    ensures
        mime matches Ok(mime) && crate::protocol::mime_text(mime) == text,
        missing matches Ok(mime) && crate::protocol::mime_text(mime).len() == 0,
{
    vstd::utf8::encode_utf8_valid_utf8(text);
    vstd::utf8::encode_utf8_decode_utf8(text);
}

/// A bucket that an entry lies beyond is grown to the end of the entry's slot, which is where
/// the contents can be read once it is.
pub proof fn lemma_bucket_is_grown_to_slot<'a>(
    entry: Entry,
    reader: EntryReader<'a>,
    short: BucketTooShort,
    bucket: u8,
    length: u16,
)
    requires
        reader.wf(),
        call_ensures(Entry::grow_bucket_if_needed, (entry, &reader), Some(short)),
        call_ensures(size_to_bucket, (entry.spec_metadata().spec_size(),), bucket),
        call_ensures(bucket_to_length, (bucket as usize,), length),
        entry.spec_metadata().spec_size() <= 4096,
    ensures
        short.bucket == bucket,
        short.needed_len == length * (entry.spec_metadata().spec_index() + 1),
        reader.spec_buckets()[bucket as int].len() < length * entry.spec_metadata().spec_index()
            + entry.spec_metadata().spec_size(),
{
}

} // verus!
