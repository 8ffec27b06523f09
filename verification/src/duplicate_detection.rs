//! Finding entries with the same contents.

use std::collections::BTreeMap;
use std::hash::{Hash, Hasher};

use rustc_hash::FxHasher;
use smallvec::SmallVec;
use vstd::prelude::*;

use crate::protocol::IdNotFoundError;
use crate::ring_reader::{DatabaseReader, EntryReader, Source};
use crate::text::bytes_equal;
use crate::views::RingAndIndex;

verus! {

/// Files at least this long are told apart by their length alone until their
/// contents are compared.
pub const HASHED_FILE_LEN: u64 = 4096;

/// A short list of entries, kept in a `smallvec::SmallVec`.
#[verifier::external_body]
#[derive(Debug)]
pub struct EntryList {
    items: SmallVec<[RingAndIndex; 4]>,
}

/// The entries in a list, in the order in which they were added.
pub uninterp spec fn list_items(list: EntryList) -> Seq<RingAndIndex>;

/// `SmallVec::new`: holds nothing.
#[verifier::external_body]
fn list_new() -> (list: EntryList)
    ensures
        list_items(list) == Seq::<RingAndIndex>::empty(),
{
    EntryList { items: SmallVec::new() }
}

/// `SmallVec::push`: adds an item at the end.
#[verifier::external_body]
fn list_push(list: &mut EntryList, item: RingAndIndex)
    ensures
        list_items(*final(list)) == list_items(*old(list)).push(item),
{
    list.items.push(item);
}

/// `SmallVec::as_slice`: all the items in order.
#[verifier::external_body]
fn list_as_slice(list: &EntryList) -> (items: &[RingAndIndex])
    ensures
        items@ == list_items(*list),
{
    list.items.as_slice()
}

/// `rustc_hash::FxHasher`: a hasher, as it is built for the machine at hand.
#[verifier::external_type_specification]
#[verifier::external_body]
pub struct ExFxHasher(FxHasher);

/// The hash of a slice of bytes, beginning with a hasher. Hashers of different machines
/// differ.
pub uninterp spec fn fx_slice_hash(hasher: FxHasher, bytes: Seq<u8>) -> u64;

/// The hash of a number, beginning with a hasher. Hashers of different machines differ.
pub uninterp spec fn fx_number_hash(hasher: FxHasher, n: u64) -> u64;

/// `FxHasher::default`: a hasher that nothing was handed to.
#[verifier::external_body]
fn fx_hasher() -> (hasher: FxHasher) {
    FxHasher::default()
}

/// `FxHasher` over the bytes of a slice: the hash is given by the hasher that it begins
/// with and the bytes.
#[verifier::external_body]
fn fx_hash_slice(hasher: &FxHasher, bytes: &[u8]) -> (hash: u64)
    ensures
        hash == fx_slice_hash(*hasher, bytes@),
{
    let mut hasher = hasher.clone();
    bytes.hash(&mut hasher);
    hasher.finish()
}

/// `FxHasher` over a number: the hash is given by the hasher that it begins with and the
/// number.
#[verifier::external_body]
fn fx_hash_u64(hasher: &FxHasher, n: u64) -> (hash: u64)
    ensures
        hash == fx_number_hash(*hasher, n),
{
    let mut hasher = hasher.clone();
    n.hash(&mut hasher);
    hasher.finish()
}

/// What the hash of an entry is computed from.
#[derive(Copy, Clone, Debug)]
pub enum Fingerprint<'a> {
    /// The contents of a bucketed entry.
    Bucket(&'a [u8]),
    /// The length of a direct file, and its contents if it is a short one.
    File { len: u64, contents: &'a [u8] },
}

/// What is handed to the hash function.
#[derive(Copy, Clone, Debug)]
pub enum Hashed<'a> {
    Bytes(&'a [u8]),
    Len(u64),
}

/// What is hashed of some contents: the contents themselves, or only their length if
/// they are long.
pub open spec fn is_hashed_of(hashed: Hashed<'_>, contents: Seq<u8>) -> bool {
    if contents.len() >= HASHED_FILE_LEN {
        hashed matches Hashed::Len(len) && len == contents.len()
    } else {
        hashed matches Hashed::Bytes(bytes) && bytes@ == contents
    }
}

impl<'a> Fingerprint<'a> {
    /// Whether this is the fingerprint of an entry with the given contents. Entries in
    /// buckets are short.
    pub open spec fn is_of(self, contents: Seq<u8>) -> bool {
        match self {
            Fingerprint::Bucket(bytes) => bytes@ == contents && contents.len() < HASHED_FILE_LEN,
            Fingerprint::File { len, contents: bytes } => len == contents.len() && (len
                < HASHED_FILE_LEN ==> bytes@ == contents),
        }
    }

    /// What is handed to the hash function.
    pub open spec fn spec_hashed(self) -> Hashed<'a> {
        match self {
            Fingerprint::Bucket(bytes) => Hashed::Bytes(bytes),
            Fingerprint::File { len, contents } => if len >= HASHED_FILE_LEN {
                Hashed::Len(len)
            } else {
                Hashed::Bytes(contents)
            },
        }
    }

    /// What is handed to the hash function.
    #[must_use]
    pub fn hashed(self) -> (hashed: Hashed<'a>)
        ensures
            hashed == self.spec_hashed(),
            forall|contents: Seq<u8>| #[trigger]
                self.is_of(contents) ==> is_hashed_of(hashed, contents),
    {
        match self {
            Fingerprint::Bucket(bytes) => Hashed::Bytes(bytes),
            Fingerprint::File { len, contents } => {
                if len >= HASHED_FILE_LEN {
                    Hashed::Len(len)
                } else {
                    Hashed::Bytes(contents)
                }
            },
        }
    }
}

/// Wherever they are kept, the same is hashed of entries with the same contents.
pub proof fn lemma_same_contents_hashed_alike(a: Hashed<'_>, b: Hashed<'_>, contents: Seq<u8>)
    requires
        is_hashed_of(a, contents),
        is_hashed_of(b, contents),
    ensures
        match (a, b) {
            (Hashed::Len(x), Hashed::Len(y)) => x == y,
            (Hashed::Bytes(x), Hashed::Bytes(y)) => x@ == y@,
            _ => false,
        },
{
}

/// The hash of what is handed to the hash function.
pub open spec fn spec_hash(hasher: FxHasher, hashed: Hashed<'_>) -> u64 {
    match hashed {
        Hashed::Bytes(bytes) => fx_slice_hash(hasher, bytes@),
        Hashed::Len(len) => fx_number_hash(hasher, len),
    }
}

/// The hash of some contents: long ones are hashed by their length alone.
pub open spec fn content_hash(hasher: FxHasher, contents: Seq<u8>) -> u64 {
    if contents.len() >= HASHED_FILE_LEN {
        fx_number_hash(hasher, contents.len() as u64)
    } else {
        fx_slice_hash(hasher, contents)
    }
}

/// The hash of an entry.
fn hash_entry(hasher: &FxHasher, fingerprint: Fingerprint<'_>) -> (hash: u64)
    ensures
        hash == spec_hash(*hasher, fingerprint.spec_hashed()),
{
    match fingerprint.hashed() {
        Hashed::Bytes(bytes) => fx_hash_slice(hasher, bytes),
        Hashed::Len(len) => fx_hash_u64(hasher, len),
    }
}

/// The entries with different contents seen so far, by the lower half of their
/// hash.
pub struct DuplicateDetector {
    hasher: FxHasher,
    hashes: BTreeMap<u32, EntryList>,
}

/// The part of a hash that entries are grouped by.
pub open spec fn hash_key(hash: u64) -> u32 {
    (hash % 0x1_0000_0000) as u32
}

/// The entries in a group.
pub open spec fn group(groups: Map<u32, Seq<RingAndIndex>>, hash: u64) -> Seq<RingAndIndex> {
    if groups.contains_key(hash_key(hash)) {
        groups[hash_key(hash)]
    } else {
        seq![]
    }
}

/// Whether the given contents are among others.
pub open spec fn holds_contents(others: Seq<Seq<u8>>, contents: Seq<u8>) -> bool {
    exists|i: int| 0 <= i < others.len() && #[trigger] others[i] == contents
}

impl View for DuplicateDetector {
    type V = Map<u32, Seq<RingAndIndex>>;

    closed spec fn view(&self) -> Map<u32, Seq<RingAndIndex>> {
        self.hashes@.map_values(|list: EntryList| list_items(list))
    }
}

impl Default for DuplicateDetector {
    fn default() -> (detector: DuplicateDetector)
        ensures
            detector@ == Map::<u32, Seq<RingAndIndex>>::empty(),
    {
        let detector = DuplicateDetector { hasher: fx_hasher(), hashes: BTreeMap::new() };
        assert(detector@ =~= Map::<u32, Seq<RingAndIndex>>::empty());
        detector
    }
}

impl DuplicateDetector {
    /// The hasher that every hash begins with.
    pub closed spec fn hasher(self) -> FxHasher {
        self.hasher
    }

    /// The hash of an entry, and the earlier entries that it must be compared
    /// with: those whose hash has the same lower half.
    pub fn candidates(&self, fingerprint: Fingerprint<'_>) -> (found: (u64, Vec<RingAndIndex>))
        ensures
            found.0 == spec_hash(self.hasher(), fingerprint.spec_hashed()),
            forall|contents: Seq<u8>| #[trigger]
                fingerprint.is_of(contents) ==> found.0 == content_hash(self.hasher(), contents),
            found.1@ == group(self@, found.0),
    {
        let hash: u64 = hash_entry(&self.hasher, fingerprint);
        (hash, self.candidates_for(hash))
    }

    /// The earlier entries whose hash has the same lower half as the given one.
    pub fn candidates_for(&self, hash: u64) -> (found: Vec<RingAndIndex>)
        ensures
            found@ == group(self@, hash),
    {
        broadcast use vstd::std_specs::btree::group_btree_axioms;

        let key: u32 = (hash % 0x1_0000_0000) as u32;
        match self.hashes.get(&key) {
            Some(list) => vstd::slice::slice_to_vec(list_as_slice(list)),
            None => Vec::new(),
        }
    }

    /// Adds an entry with the given hash and contents, unless one of the earlier
    /// entries with that hash, whose contents are `others`, has the same
    /// contents. Tells whether one has.
    pub fn add_entry(
        &mut self,
        hash: u64,
        rai: RingAndIndex,
        contents: &[u8],
        others: &Vec<Vec<u8>>,
    ) -> (duplicate: bool)
        requires
            others@.len() == group(old(self)@, hash).len(),
        ensures
            duplicate == holds_contents(
                Seq::new(others@.len(), |i: int| others@[i]@),
                contents@,
            ),
            duplicate ==> final(self)@ == old(self)@,
            !duplicate ==> final(self)@ == old(self)@.insert(
                hash_key(hash),
                group(old(self)@, hash).push(rai),
            ),
            final(self).hasher() == old(self).hasher(),
            forall|all: spec_fn(RingAndIndex) -> Seq<u8>|
                all(rai) == contents@ && #[trigger] contents_of(group(old(self)@, hash), all)
                    == Seq::new(others@.len(), |i: int| others@[i]@) ==> (final(self)@, duplicate)
                    == with_entry(old(self)@, all, hash, rai),
    {
        broadcast use vstd::std_specs::btree::group_btree_axioms;

        let ghost all = Seq::new(others@.len(), |i: int| others@[i]@);
        let mut i: usize = 0;
        while i < others.len()
            invariant
                i <= others@.len(),
                all == Seq::new(others@.len(), |i: int| others@[i]@),
                forall|j: int| 0 <= j < i ==> #[trigger] all[j] != contents@,
            decreases others@.len() - i,
        {
            if bytes_equal(contents, others[i].as_slice()) {
                assert(all[i as int] == contents@);
                return true;
            }
            i += 1;
        }
        let key: u32 = (hash % 0x1_0000_0000) as u32;
        let mut list = match self.hashes.remove(&key) {
            Some(list) => list,
            None => list_new(),
        };
        assert(list_items(list) == group(old(self)@, hash));
        list_push(&mut list, rai);
        self.hashes.insert(key, list);
        assert(self@ =~= old(self)@.insert(key, group(old(self)@, hash).push(rai)));
        false
    }

    /// Where to read the contents of an earlier entry from. It may have been
    /// removed, or lie past what is mapped of its bucket.
    pub fn candidate_source<'a>(
        rai: RingAndIndex,
        database: &DatabaseReader<'_>,
        reader: &EntryReader<'a>,
    ) -> (source: Result<Source<'a>, IdNotFoundError>)
        requires
            database.wf(),
            reader.wf(),
        ensures
            ({
                let id = crate::protocol::spec_composite_id(rai.spec_ring(), rai.spec_index());
                match database.spec_get_raw(id) {
                    Err(error) => source == Err::<Source<'a>, IdNotFoundError>(error),
                    Ok(entry) => match entry.spec_kind() {
                        crate::ring_reader::Kind::File => source matches Ok(Source::Direct(name))
                            && name@ == crate::utils::spec_direct_file_name(entry.spec_id()),
                        crate::ring_reader::Kind::Bucket(metadata) => match reader.spec_contents(
                            metadata,
                        ) {
                            Some(bytes) => source matches Ok(Source::Bytes(slice)) && slice@
                                == bytes,
                            None => source matches Err(IdNotFoundError::Entry(index)) && index
                                == entry.spec_index(),
                        },
                    },
                }
            }),
    {
        match database.get_raw(rai.id()) {
            Err(error) => Err(error),
            Ok(entry) => match entry.to_slice_raw(reader) {
                Source::Grow(_) => Err(IdNotFoundError::Entry(entry.index())),
                source => Ok(source),
            },
        }
    }
}

/// The contents of entries, in order.
pub open spec fn contents_of(
    entries: Seq<RingAndIndex>,
    contents: spec_fn(RingAndIndex) -> Seq<u8>,
) -> Seq<Seq<u8>> {
    Seq::new(entries.len(), |i: int| contents(entries[i]))
}

/// The groups after an entry is added to them, and whether it is a duplicate of one that
/// is there.
pub open spec fn with_entry(
    groups: Map<u32, Seq<RingAndIndex>>,
    contents: spec_fn(RingAndIndex) -> Seq<u8>,
    hash: u64,
    rai: RingAndIndex,
) -> (Map<u32, Seq<RingAndIndex>>, bool) {
    if holds_contents(contents_of(group(groups, hash), contents), contents(rai)) {
        (groups, true)
    } else {
        (groups.insert(hash_key(hash), group(groups, hash).push(rai)), false)
    }
}

/// The groups after some entries are added, one after the other.
pub open spec fn groups_after(
    entries: Seq<RingAndIndex>,
    contents: spec_fn(RingAndIndex) -> Seq<u8>,
    hasher: FxHasher,
) -> Map<u32, Seq<RingAndIndex>>
    decreases entries.len(),
{
    if entries.len() == 0 {
        Map::empty()
    } else {
        let hash = content_hash(hasher, contents(entries.last()));
        with_entry(
            groups_after(entries.drop_last(), contents, hasher),
            contents,
            hash,
            entries.last(),
        ).0
    }
}

/// Whether an entry of a list is found to be a duplicate when the entries are added one
/// after the other.
pub open spec fn found_duplicate(
    entries: Seq<RingAndIndex>,
    contents: spec_fn(RingAndIndex) -> Seq<u8>,
    hasher: FxHasher,
    k: int,
) -> bool {
    with_entry(
        groups_after(entries.take(k), contents, hasher),
        contents,
        content_hash(hasher, contents(entries[k])),
        entries[k],
    ).1
}

/// How many entries of a list are not found to be duplicates.
pub open spec fn num_kept(
    entries: Seq<RingAndIndex>,
    contents: spec_fn(RingAndIndex) -> Seq<u8>,
    hasher: FxHasher,
    n: nat,
) -> nat
    decreases n,
{
    if n == 0 {
        0
    } else {
        num_kept(entries, contents, hasher, (n - 1) as nat) + if found_duplicate(
            entries,
            contents,
            hasher,
            n - 1,
        ) {
            0nat
        } else {
            1
        }
    }
}

/// Whether an earlier entry of a list has the contents of a later one.
pub open spec fn has_earlier(
    entries: Seq<RingAndIndex>,
    contents: spec_fn(RingAndIndex) -> Seq<u8>,
    k: int,
) -> bool {
    exists|j: int| 0 <= j < k && contents(#[trigger] entries[j]) == contents(entries[k])
}

/// Of entries that are added one after the other, exactly those are found to be
/// duplicates that have the contents of an earlier one. As many are not as there are
/// different contents.
pub proof fn lemma_duplicates_in_list(
    entries: Seq<RingAndIndex>,
    contents: spec_fn(RingAndIndex) -> Seq<u8>,
    hasher: FxHasher,
)
    ensures
        forall|k: int|
            0 <= k < entries.len() ==> #[trigger] found_duplicate(entries, contents, hasher, k)
                == has_earlier(entries, contents, k),
        num_kept(entries, contents, hasher, entries.len()) == contents_of(
            entries,
            contents,
        ).to_set().len(),
{
    assert forall|k: int| 0 <= k < entries.len() implies #[trigger] found_duplicate(
        entries,
        contents,
        hasher,
        k,
    ) == has_earlier(entries, contents, k) by {
        lemma_duplicate_in_list(entries, contents, hasher, k);
    }
    lemma_num_kept(entries, contents, hasher, entries.len());
    assert(contents_of(entries, contents).take(entries.len() as int) =~= contents_of(
        entries,
        contents,
    ));
}

proof fn lemma_groups_after(
    entries: Seq<RingAndIndex>,
    contents: spec_fn(RingAndIndex) -> Seq<u8>,
    hasher: FxHasher,
)
    ensures
        ({
            let groups = groups_after(entries, contents, hasher);
            &&& all_distinct(groups, contents, |c: Seq<u8>| content_hash(hasher, c))
            &&& forall|wanted: Seq<u8>| #[trigger]
                has_contents(groups, contents, wanted) <==> contents_of(
                    entries,
                    contents,
                ).contains(wanted)
        }),
    decreases entries.len(),
{
    let all = contents_of(entries, contents);
    let hash = |c: Seq<u8>| content_hash(hasher, c);
    if entries.len() > 0 {
        let rest = entries.drop_last();
        let rai = entries.last();
        let before = groups_after(rest, contents, hasher);
        let after = groups_after(entries, contents, hasher);
        lemma_groups_after(rest, contents, hasher);
        lemma_duplicates_are_found(before, contents, hash, rai);
        let earlier = contents_of(rest, contents);
        assert(all =~= earlier.push(contents(rai)));
        let h = hash(contents(rai));
        let key = hash_key(h);
        assert forall|wanted: Seq<u8>| #[trigger]
            has_contents(after, contents, wanted) <==> all.contains(wanted) by {
            if all.contains(wanted) {
                let i = choose|i: int| 0 <= i < all.len() && all[i] == wanted;
                if i < earlier.len() {
                    assert(earlier[i] == wanted);
                    assert(earlier.contains(wanted));
                    assert(has_contents(before, contents, wanted));
                    let (k, j) = choose|k: u32, j: int|
                        before.contains_key(k) && 0 <= j < before[k].len() && contents(
                            #[trigger] before[k][j],
                        ) == wanted;
                    assert(after.contains_key(k) && after[k][j] == before[k][j]);
                }
            }
            if has_contents(after, contents, wanted) {
                let (k, j) = choose|k: u32, j: int|
                    after.contains_key(k) && 0 <= j < after[k].len() && contents(
                        #[trigger] after[k][j],
                    ) == wanted;
                if before.contains_key(k) && j < before[k].len() {
                    assert(after[k][j] == before[k][j]);
                    assert(has_contents(before, contents, wanted));
                    let i = choose|i: int| 0 <= i < earlier.len() && earlier[i] == wanted;
                    assert(all[i] == wanted);
                } else {
                    assert(after[k][j] == rai);
                    assert(all[earlier.len() as int] == wanted);
                }
            }
        }
    } else {
        assert forall|wanted: Seq<u8>| !#[trigger] has_contents(
            groups_after(entries, contents, hasher),
            contents,
            wanted,
        ) by {
        }
    }
}

proof fn lemma_duplicate_in_list(
    entries: Seq<RingAndIndex>,
    contents: spec_fn(RingAndIndex) -> Seq<u8>,
    hasher: FxHasher,
    k: int,
)
    requires
        0 <= k < entries.len(),
    ensures
        found_duplicate(entries, contents, hasher, k) == has_earlier(entries, contents, k),
{
    let before = entries.take(k);
    let groups = groups_after(before, contents, hasher);
    let hash = |c: Seq<u8>| content_hash(hasher, c);
    lemma_groups_after(before, contents, hasher);
    lemma_duplicates_are_found(groups, contents, hash, entries[k]);
    let all = contents_of(before, contents);
    let wanted = contents(entries[k]);
    assert(has_contents(groups, contents, wanted) <==> all.contains(wanted));
    if all.contains(wanted) {
        let i = choose|i: int| 0 <= i < all.len() && all[i] == wanted;
        assert(contents(entries[i]) == wanted);
    }
    if has_earlier(entries, contents, k) {
        let j = choose|j: int| 0 <= j < k && contents(#[trigger] entries[j]) == wanted;
        assert(all[j] == wanted);
    }
}

proof fn lemma_num_kept(
    entries: Seq<RingAndIndex>,
    contents: spec_fn(RingAndIndex) -> Seq<u8>,
    hasher: FxHasher,
    n: nat,
)
    requires
        n <= entries.len(),
    ensures
        num_kept(entries, contents, hasher, n) == contents_of(entries, contents).take(
            n as int,
        ).to_set().len(),
        contents_of(entries, contents).take(n as int).to_set().finite(),
    decreases n,
{
    let all = contents_of(entries, contents);
    let some = all.take(n as int);
    vstd::seq_lib::seq_to_set_is_finite(some);
    if n == 0 {
        some.lemma_cardinality_of_empty_set_is_0();
    } else {
        lemma_num_kept(entries, contents, hasher, (n - 1) as nat);
        lemma_duplicate_in_list(entries, contents, hasher, n - 1);
        let fewer = all.take(n - 1);
        let last = all[n - 1];
        assert(some =~= fewer.push(last));
        fewer.lemma_push_to_set_commute(last);
        if has_earlier(entries, contents, n - 1) {
            let j = choose|j: int|
                0 <= j < n - 1 && contents(#[trigger] entries[j]) == contents(entries[n - 1]);
            assert(fewer[j] == last);
            assert(fewer.to_set().contains(last));
            assert(fewer.to_set().insert(last) =~= fewer.to_set());
        } else if fewer.to_set().contains(last) {
            let j = choose|j: int| 0 <= j < fewer.len() && fewer[j] == last;
            assert(contents(entries[j]) == contents(entries[n - 1]));
        }
    }
}

/// No entry stands in the wrong group, and no contents were added twice.
pub open spec fn all_distinct(
    groups: Map<u32, Seq<RingAndIndex>>,
    contents: spec_fn(RingAndIndex) -> Seq<u8>,
    hash: spec_fn(Seq<u8>) -> u64,
) -> bool {
    &&& forall|key: u32, i: int|
        groups.contains_key(key) && 0 <= i < groups[key].len() ==> hash_key(
            hash(contents(#[trigger] groups[key][i])),
        ) == key
    &&& forall|key: u32, i: int, j: int|
        groups.contains_key(key) && 0 <= i < j < groups[key].len() ==> contents(
            #[trigger] groups[key][i],
        ) != contents(#[trigger] groups[key][j])
}

/// Whether an entry with these contents was added.
pub open spec fn has_contents(
    groups: Map<u32, Seq<RingAndIndex>>,
    contents: spec_fn(RingAndIndex) -> Seq<u8>,
    wanted: Seq<u8>,
) -> bool {
    exists|key: u32, i: int|
        groups.contains_key(key) && 0 <= i < groups[key].len() && contents(
            #[trigger] groups[key][i],
        ) == wanted
}

/// As long as equal contents have equal hashes, an entry is a duplicate exactly
/// if an entry with its contents was added before, and adding the entries that
/// are not keeps the contents different.
pub proof fn lemma_duplicates_are_found(
    groups: Map<u32, Seq<RingAndIndex>>,
    contents: spec_fn(RingAndIndex) -> Seq<u8>,
    hash: spec_fn(Seq<u8>) -> u64,
    rai: RingAndIndex,
)
    requires
        all_distinct(groups, contents, hash),
    ensures
        ({
            let h = hash(contents(rai));
            let duplicate = holds_contents(
                contents_of(group(groups, h), contents),
                contents(rai),
            );
            let added = groups.insert(hash_key(h), group(groups, h).push(rai));
            &&& duplicate <==> has_contents(groups, contents, contents(rai))
            &&& !duplicate ==> all_distinct(added, contents, hash) && has_contents(
                added,
                contents,
                contents(rai),
            )
        }),
{
    let h = hash(contents(rai));
    let key = hash_key(h);
    let old_group = group(groups, h);
    let others = contents_of(old_group, contents);
    let duplicate = holds_contents(others, contents(rai));
    if duplicate {
        let i = choose|i: int| 0 <= i < others.len() && #[trigger] others[i] == contents(rai);
        assert(groups.contains_key(key));
        assert(contents(groups[key][i]) == contents(rai));
    }
    if has_contents(groups, contents, contents(rai)) {
        let (k, i) = choose|k: u32, i: int|
            groups.contains_key(k) && 0 <= i < groups[k].len() && contents(
                #[trigger] groups[k][i],
            ) == contents(rai);
        assert(k == key);
        assert(others[i] == contents(rai));
    }
    if !duplicate {
        let added = groups.insert(key, old_group.push(rai));
        assert forall|k: u32, i: int| added.contains_key(k) && 0 <= i < added[k].len() implies (
        hash_key(hash(contents(#[trigger] added[k][i]))) == k) by {
            if k == key {
                if i < old_group.len() {
                    assert(added[k][i] == groups[k][i]);
                }
            } else {
                assert(added[k][i] == groups[k][i]);
            }
        }
        assert forall|k: u32, i: int, j: int|
            added.contains_key(k) && 0 <= i < j < added[k].len() implies contents(
            #[trigger] added[k][i],
        ) != contents(#[trigger] added[k][j]) by {
            if k == key {
                assert(added[k][i] == groups[k][i]);
                if j < old_group.len() {
                    assert(added[k][j] == groups[k][j]);
                } else {
                    assert(others[i] != contents(rai));
                }
            } else {
                assert(added[k][i] == groups[k][i]);
                assert(added[k][j] == groups[k][j]);
            }
        }
        assert(contents(added[key][old_group.len() as int]) == contents(rai));
    }
}

/// Entries with the same contents have the same hash, wherever they are kept, so that the one
/// is compared with the other.
pub proof fn lemma_copies_are_compared(
    detector: DuplicateDetector,
    a: Fingerprint<'_>,
    b: Fingerprint<'_>,
    contents: Seq<u8>,
    found_a: (u64, Vec<RingAndIndex>),
    found_b: (u64, Vec<RingAndIndex>),
)
    requires
        a.is_of(contents),
        b.is_of(contents),
        call_ensures(DuplicateDetector::candidates, (&detector, a), found_a),
        call_ensures(DuplicateDetector::candidates, (&detector, b), found_b),
    ensures
        found_a.0 == found_b.0,
        found_a.1@ == found_b.1@,
{
}

/// An entry that is no duplicate is compared with all that come later and have its hash, and a
/// duplicate with none: only the first of equal entries is kept.
pub proof fn lemma_first_copy_is_kept(
    detector: &mut DuplicateDetector,
    hash: u64,
    rai: RingAndIndex,
    contents: &[u8],
    others: &Vec<Vec<u8>>,
    duplicate: bool,
    later: Vec<RingAndIndex>,
)
    requires
        call_ensures(
            DuplicateDetector::add_entry,
            (detector, hash, rai, contents, others),
            duplicate,
        ),
        call_ensures(DuplicateDetector::candidates_for, (&*final(detector), hash), later),
    ensures
        duplicate <==> exists|i: int| 0 <= i < others@.len() && #[trigger] others@[i]@ == contents@,
        duplicate ==> final(detector)@ == old(detector)@,
        !duplicate ==> later@.len() > 0 && later@.last() == rai,
{
    let all = Seq::new(others@.len(), |i: int| others@[i]@);
    if duplicate {
        let i = choose|i: int| 0 <= i < all.len() && #[trigger] all[i] == contents@;
        assert(others@[i]@ == contents@);
    }
    if exists|i: int| 0 <= i < others@.len() && #[trigger] others@[i]@ == contents@ {
        let i = choose|i: int| 0 <= i < others@.len() && #[trigger] others@[i]@ == contents@;
        assert(all[i] == contents@);
    }
}

/// Contents of 4096 bytes or more are told apart by their length until they are compared, and
/// shorter ones by all their bytes.
pub proof fn lemma_long_contents_are_hashed_by_length(
    fingerprint: Fingerprint<'_>,
    contents: Seq<u8>,
    hashed: Hashed<'_>,
)
    requires
        fingerprint.is_of(contents),
        call_ensures(Fingerprint::hashed, (fingerprint,), hashed),
    ensures
        contents.len() >= 4096 ==> (hashed matches Hashed::Len(len) && len == contents.len()),
        contents.len() < 4096 ==> (hashed matches Hashed::Bytes(bytes) && bytes@ == contents),
{
}

} // verus!
