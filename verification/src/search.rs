//! Searching through the contents of a database.

use regex::bytes::Regex;
use regex::Error as RegexError;
use vstd::prelude::*;

use crate::ring_reader::is_text_mime;
use crate::text::ascii_lower;
use crate::utils::{
    bucket_to_length, entry_id_from_direct_file_name, size_to_bucket, DIRECT_FILE_NAME_LEN,
    NUM_BUCKETS,
};

verus! {

/// `regex::bytes::Regex`: a compiled regular expression.
#[verifier::external_type_specification]
#[verifier::external_body]
pub struct ExRegex(Regex);

/// `regex::Error`: why a pattern is no regular expression.
#[verifier::external_type_specification]
#[verifier::external_body]
pub struct ExRegexError(RegexError);

/// What a pattern compiles to, if it is a regular expression and not too large. How large
/// one is in memory depends on how many bits an address has.
pub uninterp spec fn regex_of(pattern: Seq<char>, bits: u32) -> Option<Regex>;

/// The first match of a regular expression in some bytes, from where up to where.
pub uninterp spec fn regex_match(regex: Regex, haystack: Seq<u8>) -> Option<(usize, usize)>;

/// `regex::bytes::Regex::new`: compiles a pattern, unless it is no regular
/// expression or one that is too large. What it compiles to, and whether, is a
/// function of the pattern and of the number of bits in an address, by which its size
/// in memory goes.
#[verifier::external_body]
pub(crate) fn regex_new(pattern: &str) -> (regex: Result<Regex, RegexError>)
    ensures
        match regex {
            Ok(regex) => regex_of(pattern@, usize::BITS) == Some(regex),
            Err(_) => regex_of(pattern@, usize::BITS) is None,
        },
{
    Regex::new(pattern)
}

/// `regex::bytes::Regex::find`: the range of the first match, which lies in the
/// haystack. Which one that is, is a function of the two.
#[verifier::external_body]
fn regex_find(regex: &Regex, haystack: &[u8]) -> (found: Option<(usize, usize)>)
    ensures
        found == regex_match(*regex, haystack@),
        found matches Some((start, end)) ==> start <= end <= haystack@.len(),
{
    regex.find(haystack).map(|m| (m.start(), m.end()))
}

/// Whether `needle` stands at a position of `haystack`.
pub open spec fn occurs_at(haystack: Seq<u8>, needle: Seq<u8>, at: int) -> bool {
    0 <= at <= haystack.len() - needle.len() && haystack.subrange(at, at + needle.len()) == needle
}

/// Whether a position is the first at which `needle` stands in `haystack`.
pub open spec fn is_first_occurrence(haystack: Seq<u8>, needle: Seq<u8>, at: int) -> bool {
    occurs_at(haystack, needle, at) && forall|before: int|
        before < at ==> !#[trigger] occurs_at(haystack, needle, before)
}

/// `memchr::memmem::find`: the first position of a needle in a haystack.
#[verifier::external_body]
fn memmem_find(haystack: &[u8], needle: &[u8]) -> (at: Option<usize>)
    ensures
        match at {
            Some(first) => is_first_occurrence(haystack@, needle@, first as int),
            None => forall|i: int| !#[trigger] occurs_at(haystack@, needle@, i),
        },
{
    memchr::memmem::find(haystack, needle)
}

/// `memchr::memchr`: the first position of a byte.
#[verifier::external_body]
fn memchr_find(needle: u8, haystack: &[u8]) -> (at: Option<usize>)
    ensures
        match at {
            Some(first) => {
                &&& first < haystack@.len()
                &&& haystack@[first as int] == needle
                &&& forall|i: int| 0 <= i < first ==> #[trigger] haystack@[i] != needle
            },
            None => forall|i: int| 0 <= i < haystack@.len() ==> #[trigger] haystack@[i] != needle,
        },
{
    memchr::memchr(needle, haystack)
}

/// A query that ignores the case of ASCII letters.
#[derive(Clone, Debug)]
pub struct CaselessQuery {
    query: Vec<u8>,
    trim: bool,
}

impl CaselessQuery {
    pub closed spec fn spec_query(self) -> Seq<u8> {
        self.query@
    }

    pub closed spec fn spec_trim(self) -> bool {
        self.trim
    }

    pub fn new(query: Vec<u8>) -> (caseless: CaselessQuery)
        ensures
            caseless.spec_query() == query@,
            !caseless.spec_trim(),
    {
        CaselessQuery { query, trim: false }
    }

    /// Leaves out the whitespace around the query.
    #[must_use]
    pub fn trim(self) -> (trimmed: CaselessQuery)
        ensures
            trimmed.spec_query() == self.spec_query(),
            trimmed.spec_trim(),
    {
        CaselessQuery { query: self.query, trim: true }
    }
}

/// What to search for.
#[derive(Debug)]
pub enum Query<'a> {
    Plain(&'a [u8]),
    PlainIgnoreCase(CaselessQuery),
    Regex(Regex),
    Mimes(Regex),
}

/// A byte that counts as whitespace in ASCII.
pub open spec fn is_ascii_whitespace(b: u8) -> bool {
    b == 9 || b == 10 || b == 12 || b == 13 || b == 32
}

/// How many bytes at the front are whitespace.
pub open spec fn leading_whitespace(bytes: Seq<u8>) -> nat
    decreases bytes.len(),
{
    if bytes.len() > 0 && is_ascii_whitespace(bytes[0]) {
        1 + leading_whitespace(bytes.drop_first())
    } else {
        0
    }
}

/// How many bytes at the back are whitespace.
pub open spec fn trailing_whitespace(bytes: Seq<u8>) -> nat
    decreases bytes.len(),
{
    if bytes.len() > 0 && is_ascii_whitespace(bytes.last()) {
        1 + trailing_whitespace(bytes.drop_last())
    } else {
        0
    }
}

/// The bytes without the whitespace around them.
pub open spec fn spec_trim_ascii(bytes: Seq<u8>) -> Seq<u8> {
    let front = bytes.skip(leading_whitespace(bytes) as int);
    front.take(front.len() - trailing_whitespace(front))
}

proof fn lemma_whitespace_bounds(bytes: Seq<u8>)
    ensures
        leading_whitespace(bytes) <= bytes.len(),
        trailing_whitespace(bytes) <= bytes.len(),
    decreases bytes.len(),
{
    if bytes.len() > 0 {
        lemma_whitespace_bounds(bytes.drop_first());
        lemma_whitespace_bounds(bytes.drop_last());
    }
}

/// The bytes without the whitespace around them.
pub fn trim_ascii(bytes: &[u8]) -> (trimmed: Vec<u8>)
    ensures
        trimmed@ == spec_trim_ascii(bytes@),
{
    let mut from: usize = 0;
    assert(bytes@.skip(0) =~= bytes@);
    while from < bytes.len() && (bytes[from] == 9 || bytes[from] == 10 || bytes[from] == 12
        || bytes[from] == 13 || bytes[from] == 32)
        invariant
            from <= bytes@.len(),
            leading_whitespace(bytes@) == from + leading_whitespace(bytes@.skip(from as int)),
        decreases bytes@.len() - from,
    {
        assert(bytes@.skip(from as int).drop_first() =~= bytes@.skip(from + 1));
        from += 1;
    }
    let ghost front = bytes@.skip(from as int);
    let mut to: usize = bytes.len();
    assert(front.take(front.len() as int) =~= front);
    while to > from && (bytes[to - 1] == 9 || bytes[to - 1] == 10 || bytes[to - 1] == 12 || bytes[to
        - 1] == 13 || bytes[to - 1] == 32)
        invariant
            from <= to <= bytes@.len(),
            front == bytes@.skip(from as int),
            trailing_whitespace(front) == bytes@.len() - to + trailing_whitespace(
                front.take(to - from),
            ),
        decreases to,
    {
        let ghost kept = front.take(to - from);
        assert(kept.last() == bytes@[to - 1]);
        assert(kept.drop_last() =~= front.take(to - from - 1));
        to -= 1;
    }
    let trimmed = vstd::slice::slice_subrange(bytes, from, to);
    assert(trimmed@ =~= front.take(to - from));
    vstd::slice::slice_to_vec(trimmed)
}

/// A query made ready for searching.
#[derive(Debug)]
pub enum Matcher {
    Plain(Vec<u8>),
    /// The needle is in lower case.
    IgnoreCase(Vec<u8>),
    Regex(Regex),
}

/// The bytes with every ASCII letter in lower case.
fn ascii_lowercase(bytes: &[u8]) -> (lower: Vec<u8>)
    ensures
        lower@ == crate::text::spec_ascii_lowercase(bytes@),
{
    let mut lower: Vec<u8> = Vec::new();
    let mut i: usize = 0;
    while i < bytes.len()
        invariant
            i <= bytes@.len(),
            lower@.len() == i,
            forall|j: int|
                0 <= j < i ==> #[trigger] lower@[j] == crate::text::spec_ascii_lower(bytes@[j]),
        decreases bytes@.len() - i,
    {
        lower.push(ascii_lower(bytes[i]));
        i += 1;
    }
    assert(lower@ =~= crate::text::spec_ascii_lowercase(bytes@));
    lower
}

impl CaselessQuery {
    /// What is searched for: the query in lower case, trimmed if asked for.
    pub open spec fn spec_needle(self) -> Seq<u8> {
        let lower = crate::text::spec_ascii_lowercase(self.spec_query());
        if self.spec_trim() {
            spec_trim_ascii(lower)
        } else {
            lower
        }
    }

    /// What is searched for: the query in lower case, trimmed if asked for.
    pub fn needle(&self) -> (needle: Vec<u8>)
        ensures
            needle@ == self.spec_needle(),
    {
        let lower = ascii_lowercase(self.query.as_slice());
        if self.trim {
            trim_ascii(lower.as_slice())
        } else {
            lower
        }
    }
}

/// Which part of a database a query looks at.
#[derive(Copy, Clone, Eq, PartialEq, Debug, Structural)]
pub enum Scope {
    /// The contents of all entries.
    Contents,
    /// The mime types of direct files.
    MimeTypes,
}

impl<'a> Query<'a> {
    /// Makes the query ready for searching.
    pub fn prepare(self) -> (prepared: (Matcher, Scope))
        ensures
            prepared.1 == if self is Mimes {
                Scope::MimeTypes
            } else {
                Scope::Contents
            },
            match self {
                Query::Plain(needle) => prepared.0 matches Matcher::Plain(n) && n@ == needle@,
                Query::PlainIgnoreCase(query) => prepared.0 matches Matcher::IgnoreCase(n) && n@
                    == query.spec_needle(),
                Query::Regex(regex) => prepared.0 == Matcher::Regex(regex),
                Query::Mimes(regex) => prepared.0 == Matcher::Regex(regex),
            },
    {
        match self {
            Query::Plain(needle) => (
                Matcher::Plain(vstd::slice::slice_to_vec(needle)),
                Scope::Contents,
            ),
            Query::PlainIgnoreCase(query) => (
                Matcher::IgnoreCase(query.needle()),
                Scope::Contents,
            ),
            Query::Regex(regex) => (Matcher::Regex(regex), Scope::Contents),
            Query::Mimes(regex) => (Matcher::Regex(regex), Scope::MimeTypes),
        }
    }
}

impl Matcher {
    /// Whether a range is what a search in `haystack` finds: the first match.
    pub open spec fn finds(self, haystack: Seq<u8>, found: Option<(usize, usize)>) -> bool {
        match self {
            Matcher::Plain(needle) => finds_needle(haystack, needle@, found),
            Matcher::IgnoreCase(needle) => finds_needle(
                crate::text::spec_ascii_lowercase(haystack),
                needle@,
                found,
            ),
            Matcher::Regex(regex) => found == regex_match(regex, haystack),
        }
    }

    /// Searches for the first match.
    pub fn find(&self, haystack: &[u8]) -> (found: Option<(usize, usize)>)
        ensures
            self.finds(haystack@, found),
            found matches Some((start, end)) ==> start <= end <= haystack@.len(),
    {
        match self {
            Matcher::Plain(needle) => find_needle(haystack, needle.as_slice()),
            Matcher::IgnoreCase(needle) => {
                let lower = ascii_lowercase(haystack);
                find_needle(lower.as_slice(), needle.as_slice())
            },
            Matcher::Regex(regex) => regex_find(regex, haystack),
        }
    }

    pub open spec fn spec_needle_len(self) -> Option<nat> {
        match self {
            Matcher::Plain(needle) => Some(needle@.len()),
            Matcher::IgnoreCase(needle) => Some(needle@.len()),
            Matcher::Regex(_) => None,
        }
    }

    /// The length of every match, if it is fixed.
    pub fn needle_len(&self) -> (len: Option<usize>)
        ensures
            match len {
                Some(len) => self.spec_needle_len() == Some(len as nat),
                None => self.spec_needle_len() is None,
            },
    {
        match self {
            Matcher::Plain(needle) => Some(needle.len()),
            Matcher::IgnoreCase(needle) => Some(needle.len()),
            Matcher::Regex(_) => None,
        }
    }

    /// The first bucket whose entries can be long enough to match.
    pub open spec fn spec_first_bucket(self) -> int {
        let len = match self.spec_needle_len() {
            Some(len) => len as int,
            None => 0,
        };
        crate::utils::spec_size_to_bucket(
            if len <= 0xffff {
                len
            } else {
                0xffff
            },
        )
    }

    /// The first bucket whose entries can be long enough to match.
    pub fn first_bucket(&self) -> (bucket: usize)
        ensures
            bucket == self.spec_first_bucket(),
    {
        let len: usize = match self.needle_len() {
            Some(len) => len,
            None => 0,
        };
        let len: u16 = if len <= 0xffff {
            len as u16
        } else {
            0xffff
        };
        size_to_bucket(len) as usize
    }
}

/// Whether a range is where `needle` first stands in `haystack`.
pub open spec fn finds_needle(
    haystack: Seq<u8>,
    needle: Seq<u8>,
    found: Option<(usize, usize)>,
) -> bool {
    match found {
        Some((start, end)) => is_first_occurrence(haystack, needle, start as int) && end == start
            + needle.len(),
        None => forall|at: int| !#[trigger] occurs_at(haystack, needle, at),
    }
}

/// Searches for the first occurrence of a needle.
fn find_needle(haystack: &[u8], needle: &[u8]) -> (found: Option<(usize, usize)>)
    ensures
        finds_needle(haystack@, needle@, found),
        found matches Some((start, end)) ==> start <= end <= haystack@.len(),
{
    assert(haystack.len() == haystack@.len());
    match memmem_find(haystack, needle) {
        Some(start) => Some((start, start + needle.len())),
        None => None,
    }
}

/// Buckets before the first one that is searched hold no match: their slots are
/// shorter than the needle.
pub proof fn lemma_skipped_buckets_hold_no_match(
    matcher: Matcher,
    bucket: int,
    contents: Seq<u8>,
    found: Option<(usize, usize)>,
)
    requires
        0 <= bucket < matcher.spec_first_bucket(),
        bucket < NUM_BUCKETS,
        contents.len() <= crate::utils::spec_bucket_to_length(bucket),
        matcher.finds(contents, found),
    ensures
        found is None,
{
    let len = match matcher.spec_needle_len() {
        Some(len) => len as int,
        None => 0,
    };
    let capped: u16 = if len <= 0xffff {
        len as u16
    } else {
        0xffff
    };
    let first = matcher.spec_first_bucket();
    crate::utils::lemma_bucket_exists(capped);
    assert(crate::utils::spec_bucket_to_length(bucket) <= crate::utils::spec_bucket_to_length(
        first - 1,
    )) by {
        if bucket < first - 1 {
            vstd::arithmetic::power2::lemma_pow2_strictly_increases(
                bucket as nat,
                (first - 1) as nat,
            );
        }
    }
    assert(len > contents.len());
    if let Some((start, end)) = found {
        match matcher {
            Matcher::Plain(needle) => {
                assert(occurs_at(contents, needle@, start as int));
            },
            Matcher::IgnoreCase(needle) => {
                assert(occurs_at(
                    crate::text::spec_ascii_lowercase(contents),
                    needle@,
                    start as int,
                ));
            },
            Matcher::Regex(_) => {},
        }
    }
}

/// Where the contents of an entry are kept, as far as a search can tell.
#[derive(Copy, Clone, Eq, PartialEq, Debug, Structural)]
pub enum EntryLocation {
    Bucketed { bucket: u8, index: u32 },
    File { entry_id: u64 },
}

/// A match and where it was found.
#[derive(Copy, Clone, Eq, PartialEq, Debug, Structural)]
pub struct QueryResult {
    pub location: EntryLocation,
    pub start: usize,
    pub end: usize,
}

/// The fewest bytes that an entry in the given bucket has.
pub open spec fn spec_midpoint(slot_len: int) -> int {
    if slot_len == 4 {
        1
    } else {
        slot_len / 2 + 1
    }
}

/// Where the contents of a slot end, searching from `from` on: at the first zero
/// byte, or at the end of the slot.
pub open spec fn contents_end(slot: Seq<u8>, from: int) -> int
    decreases slot.len() - from,
{
    if from >= slot.len() || slot[from] == 0 {
        from
    } else {
        contents_end(slot, from + 1)
    }
}

/// The contents of a slot, as far as a search can tell: entries end at the first
/// zero byte after the fewest bytes that they have.
pub open spec fn slot_contents(slot: Seq<u8>) -> Seq<u8> {
    slot.take(contents_end(slot, spec_midpoint(slot.len() as int)))
}

proof fn lemma_contents_end(slot: Seq<u8>, from: int, at: int)
    requires
        0 <= from <= at <= slot.len(),
        forall|i: int| from <= i < at ==> #[trigger] slot[i] != 0,
        at < slot.len() ==> slot[at] == 0,
    ensures
        contents_end(slot, from) == at,
    decreases at - from,
{
    if from < at {
        lemma_contents_end(slot, from + 1, at);
    }
}

/// The contents of a slot, as far as a search can tell.
fn trim_slot<'a>(slot: &'a [u8]) -> (contents: &'a [u8])
    requires
        slot@.len() >= 4,
    ensures
        contents@ == slot_contents(slot@),
{
    let midpoint: usize = if slot.len() == 4 {
        1
    } else {
        slot.len() / 2 + 1
    };
    let tail = vstd::slice::slice_subrange(slot, midpoint, slot.len());
    assert(forall|i: int|
        0 <= i < tail@.len() ==> #[trigger] tail@[i] == slot@[midpoint + i]);
    match memchr_find(0, tail) {
        Some(stop) => {
            proof {
                assert forall|i: int| midpoint <= i < midpoint + stop implies #[trigger] slot@[i]
                    != 0 by {
                    assert(tail@[i - midpoint] != 0);
                }
                lemma_contents_end(slot@, midpoint as int, midpoint + stop);
            }
            vstd::slice::slice_subrange(slot, 0, midpoint + stop)
        },
        None => {
            proof {
                assert forall|i: int| midpoint <= i < slot@.len() implies #[trigger] slot@[i]
                    != 0 by {
                    assert(tail@[i - midpoint] != 0);
                }
                lemma_contents_end(slot@, midpoint as int, slot@.len() as int);
                assert(slot@.take(slot@.len() as int) =~= slot@);
            }
            slot
        },
    }
}

/// An entry that is padded with zeros in a slot of its size class is found
/// whole, unless it holds a zero byte in its second half.
pub proof fn lemma_slot_holds_entry(slot: Seq<u8>, contents: Seq<u8>, bucket: int)
    requires
        0 <= bucket < NUM_BUCKETS,
        slot.len() == crate::utils::spec_bucket_to_length(bucket),
        0 < contents.len() <= slot.len(),
        crate::utils::is_bucket_for(contents.len() as int, bucket),
        slot.take(contents.len() as int) == contents,
        contents.len() < slot.len() ==> slot[contents.len() as int] == 0,
        forall|i: int|
            spec_midpoint(slot.len() as int) <= i < contents.len() ==> #[trigger] contents[i] != 0,
    ensures
        slot_contents(slot) == contents,
{
    vstd::arithmetic::power2::lemma2_to64();
    if bucket > 0 {
        vstd::arithmetic::power2::lemma_pow2_unfold(bucket as nat);
    }
    let midpoint = spec_midpoint(slot.len() as int);
    assert(bucket > 1 ==> slot.len() > 4) by {
        if bucket > 1 {
            vstd::arithmetic::power2::lemma_pow2_strictly_increases(0, bucket as nat);
        }
    }
    assert(midpoint <= contents.len());
    assert forall|i: int| midpoint <= i < contents.len() implies #[trigger] slot[i] != 0 by {
        assert(contents[i] == slot.take(contents.len() as int)[i]);
    }
    lemma_contents_end(slot, midpoint, contents.len() as int);
}

/// The number of whole slots in a bucket.
pub open spec fn bucket_slots(bucket: int, mem: Seq<u8>) -> int {
    mem.len() as int / crate::utils::spec_bucket_to_length(bucket)
}

/// The bytes of a slot of a bucket.
pub open spec fn bucket_slot(bucket: int, mem: Seq<u8>, index: int) -> Seq<u8> {
    let len = crate::utils::spec_bucket_to_length(bucket);
    mem.subrange(len * index, len * (index + 1))
}

/// A scan over the slots of a bucket.
#[derive(Copy, Clone, Debug)]
pub struct BucketScan<'a> {
    bucket: usize,
    mem: &'a [u8],
    index: u32,
}

/// What one step of a scan came to.
#[derive(Copy, Clone, Eq, PartialEq, Debug, Structural)]
pub enum ScanStep {
    /// There are no more slots.
    Done,
    NoMatch,
    Match(QueryResult),
}

impl<'a> BucketScan<'a> {
    pub closed spec fn spec_bucket(self) -> int {
        self.bucket as int
    }

    pub closed spec fn spec_mem(self) -> Seq<u8> {
        self.mem@
    }

    /// The slot that is looked at next.
    pub closed spec fn spec_index(self) -> int {
        self.index as int
    }

    /// The number of whole slots.
    pub open spec fn slots(self) -> int {
        bucket_slots(self.spec_bucket(), self.spec_mem())
    }

    pub open spec fn wf(self) -> bool {
        &&& 0 <= self.spec_bucket() < NUM_BUCKETS
        &&& self.slots() <= u32::MAX
        &&& 0 <= self.spec_index() <= self.slots()
    }

    /// The bytes of a slot.
    pub open spec fn slot(self, index: int) -> Seq<u8> {
        bucket_slot(self.spec_bucket(), self.spec_mem(), index)
    }

    /// A scan from the first slot of a bucket on.
    pub fn new(bucket: usize, mem: &'a [u8]) -> (scan: BucketScan<'a>)
        requires
            bucket < NUM_BUCKETS,
            bucket_slots(bucket as int, mem@) <= u32::MAX,
        ensures
            scan.wf(),
            scan.spec_bucket() == bucket,
            scan.spec_mem() == mem@,
            scan.spec_index() == 0,
    {
        let scan = BucketScan { bucket, mem, index: 0 };
        proof {
            crate::utils::lemma_bucket_length_positive(bucket as int);
            vstd::arithmetic::div_mod::lemma_div_pos_is_pos(
                mem@.len() as int,
                crate::utils::spec_bucket_to_length(bucket as int),
            );
        }
        scan
    }

    /// Looks at the next slot.
    pub fn step(&mut self, matcher: &Matcher) -> (step: ScanStep)
        requires
            old(self).wf(),
        ensures
            final(self).wf(),
            final(self).spec_bucket() == old(self).spec_bucket(),
            final(self).spec_mem() == old(self).spec_mem(),
            step is Done <==> old(self).spec_index() == old(self).slots(),
            final(self).spec_index() == old(self).spec_index() + if step is Done {
                0int
            } else {
                1
            },
            step matches ScanStep::Match(result) ==> {
                &&& result.location == (EntryLocation::Bucketed {
                    bucket: old(self).spec_bucket() as u8,
                    index: old(self).spec_index() as u32,
                })
                &&& matcher.finds(
                    slot_contents(old(self).slot(old(self).spec_index())),
                    Some((result.start, result.end)),
                )
                &&& result.start <= result.end
            },
            step is NoMatch ==> matcher.finds(
                slot_contents(old(self).slot(old(self).spec_index())),
                None,
            ),
    {
        let slot_len: usize = bucket_to_length(self.bucket) as usize;
        let slots: usize = self.mem.len() / slot_len;
        assert(slots == self.slots());
        if self.index as usize == slots {
            return ScanStep::Done;
        }
        let index: usize = self.index as usize;
        proof {
            lemma_slot_in_bounds(self.mem@.len() as int, slot_len as int, index as int);
        }
        let slot = vstd::slice::slice_subrange(
            self.mem,
            slot_len * index,
            slot_len * (index + 1),
        );
        assert(slot@ == self.slot(index as int));
        assert(slot@.len() == slot_len) by (nonlinear_arith)
            requires
                slot@.len() == slot_len * (index + 1) - slot_len * index,
        ;
        let contents = trim_slot(slot);
        let location = EntryLocation::Bucketed { bucket: self.bucket as u8, index: self.index };
        self.index = self.index + 1;
        match matcher.find(contents) {
            None => ScanStep::NoMatch,
            Some((start, end)) => ScanStep::Match(QueryResult { location, start, end }),
        }
    }
}

proof fn lemma_slot_in_bounds(mem_len: int, slot_len: int, index: int)
    requires
        slot_len > 0,
        0 <= index < mem_len / slot_len,
    ensures
        0 <= slot_len * index <= slot_len * (index + 1) <= mem_len,
{
    vstd::arithmetic::div_mod::lemma_fundamental_div_mod(mem_len, slot_len);
    vstd::arithmetic::mul::lemma_mul_inequality(index + 1, mem_len / slot_len, slot_len);
    vstd::arithmetic::mul::lemma_mul_is_commutative(slot_len, index + 1);
    vstd::arithmetic::mul::lemma_mul_is_commutative(slot_len, mem_len / slot_len);
    assert(0 <= slot_len * index <= slot_len * (index + 1)) by (nonlinear_arith)
        requires
            slot_len > 0,
            index >= 0,
    ;
}

/// Whether `results` are the matches in the first slots of a bucket, in order.
pub open spec fn are_bucket_results(
    bucket: int,
    mem: Seq<u8>,
    matcher: Matcher,
    upto: int,
    results: Seq<QueryResult>,
) -> bool {
    &&& forall|i: int|
        0 <= i < results.len() ==> {
            &&& (#[trigger] results[i]).location is Bucketed
            &&& results[i].location->bucket == bucket
            &&& results[i].location->index < upto
            &&& matcher.finds(
                slot_contents(bucket_slot(bucket, mem, results[i].location->index as int)),
                Some((results[i].start, results[i].end)),
            )
        }
    &&& forall|i: int, j: int|
        0 <= i < j < results.len() ==> (#[trigger] results[i]).location->index
            < (#[trigger] results[j]).location->index
    &&& forall|index: int|
        0 <= index < upto ==> {
            ||| matcher.finds(slot_contents(#[trigger] bucket_slot(bucket, mem, index)), None)
            ||| exists|i: int|
                0 <= i < results.len() && (#[trigger] results[i]).location->index == index
        }
}

/// Searches through all the slots of a bucket.
pub fn search_bucket(bucket: usize, mem: &[u8], matcher: &Matcher) -> (results: Vec<QueryResult>)
    requires
        bucket < NUM_BUCKETS,
        bucket_slots(bucket as int, mem@) <= u32::MAX,
    ensures
        are_bucket_results(
            bucket as int,
            mem@,
            *matcher,
            bucket_slots(bucket as int, mem@),
            results@,
        ),
{
    let mut results: Vec<QueryResult> = Vec::new();
    let mut scan = BucketScan::new(bucket, mem);
    loop
        invariant
            scan.wf(),
            scan.spec_bucket() == bucket,
            scan.spec_mem() == mem@,
            are_bucket_results(bucket as int, mem@, *matcher, scan.spec_index(), results@),
        decreases scan.slots() - scan.spec_index(),
    {
        let ghost before = results@;
        let ghost index = scan.spec_index();
        match scan.step(matcher) {
            ScanStep::Done => {
                return results;
            },
            ScanStep::NoMatch => {},
            ScanStep::Match(result) => {
                results.push(result);
                proof {
                    assert(results@[before.len() as int] == result);
                    assert forall|k: int| 0 <= k < index + 1 implies {
                        ||| matcher.finds(
                            slot_contents(#[trigger] bucket_slot(bucket as int, mem@, k)),
                            None,
                        )
                        ||| exists|i: int|
                            0 <= i < results@.len() && (#[trigger] results@[i]).location->index == k
                    } by {
                        if k < index && !matcher.finds(
                            slot_contents(bucket_slot(bucket as int, mem@, k)),
                            None,
                        ) {
                            let i = choose|i: int|
                                0 <= i < before.len() && (#[trigger] before[i]).location->index
                                    == k;
                            assert(results@[i] == before[i]);
                        }
                    }
                }
            },
        }
    }
}

/// A file in the directory of direct files whose name is not that of one.
#[derive(Copy, Clone, Eq, PartialEq, Debug, Structural)]
pub enum InvalidFileName {
    /// The name does not have the length that it should.
    Size,
    /// The name is not a number.
    Id,
}

/// What to do with a file in the directory of direct files.
#[derive(Copy, Clone, Eq, PartialEq, Debug, Structural)]
pub enum DirectFile {
    /// The entries `.` and `..` of every directory, and files that are not text.
    Skip,
    Search,
    Invalid(InvalidFileName),
}

/// Whether a name is one of the two that every directory holds.
pub open spec fn is_dot_name(name: Seq<u8>) -> bool {
    name == seq![46u8] || name == seq![46u8, 46u8]
}

/// Whether a name is one of the two that every directory holds.
pub fn is_dot_file(name: &[u8]) -> (dot: bool)
    ensures
        dot == is_dot_name(name@),
{
    let dot = (name.len() == 1 && name[0] == 46) || (name.len() == 2 && name[0] == 46 && name[1]
        == 46);
    assert(dot ==> name@ =~= seq![46u8] || name@ =~= seq![46u8, 46u8]);
    dot
}

/// What to do with a file in the directory of direct files when searching
/// through contents.
pub fn classify_direct_file(name: &[u8], mime_type: &str) -> (action: DirectFile)
    ensures
        action == if is_dot_name(name@) || !crate::ring_reader::spec_is_text_mime(
            vstd::utf8::encode_utf8(mime_type@),
        ) {
            DirectFile::Skip
        } else if name@.len() != DIRECT_FILE_NAME_LEN {
            DirectFile::Invalid(InvalidFileName::Size)
        } else {
            DirectFile::Search
        },
{
    if is_dot_file(name) || !is_text_mime(mime_type) {
        DirectFile::Skip
    } else if name.len() != DIRECT_FILE_NAME_LEN {
        DirectFile::Invalid(InvalidFileName::Size)
    } else {
        DirectFile::Search
    }
}

/// Searches through the contents of a direct file.
pub fn search_direct_file(matcher: &Matcher, contents: &[u8], name: &[u8]) -> (result: Result<
    Option<QueryResult>,
    InvalidFileName,
>)
    ensures
        match result {
            Ok(None) => matcher.finds(contents@, None),
            Ok(Some(found)) => {
                &&& matcher.finds(contents@, Some((found.start, found.end)))
                &&& found.start <= found.end <= contents@.len()
                &&& crate::utils::spec_entry_id_from_direct_file_name(name@) matches Some(entry_id)
                &&& found.location == (EntryLocation::File { entry_id })
            },
            Err(error) => {
                &&& error == InvalidFileName::Id
                &&& crate::utils::spec_entry_id_from_direct_file_name(name@) is None
                &&& exists|range: (usize, usize)| #[trigger] matcher.finds(contents@, Some(range))
            },
        },
{
    match matcher.find(contents) {
        None => Ok(None),
        Some((start, end)) => match entry_id_from_direct_file_name(name) {
            None => {
                assert(matcher.finds(contents@, Some((start, end))));
                Err(InvalidFileName::Id)
            },
            Some(entry_id) => Ok(
                Some(QueryResult { location: EntryLocation::File { entry_id }, start, end }),
            ),
        },
    }
}

/// Searches through the mime type of a direct file. Plain text has none, so it
/// never matches.
pub fn search_mime_type(matcher: &Matcher, mime_type: &str, name: &[u8]) -> (result: Result<
    Option<QueryResult>,
    InvalidFileName,
>)
    ensures
        match result {
            Ok(None) => mime_type@.len() == 0 || matcher.finds(
                vstd::utf8::encode_utf8(mime_type@),
                None,
            ),
            Ok(Some(found)) => {
                &&& mime_type@.len() > 0
                &&& exists|range: (usize, usize)| #[trigger]
                    matcher.finds(vstd::utf8::encode_utf8(mime_type@), Some(range))
                &&& crate::utils::spec_entry_id_from_direct_file_name(name@) matches Some(entry_id)
                &&& found == (QueryResult {
                    location: EntryLocation::File { entry_id },
                    start: 0,
                    end: 0,
                })
            },
            Err(error) => {
                &&& mime_type@.len() > 0
                &&& error == InvalidFileName::Id
                &&& crate::utils::spec_entry_id_from_direct_file_name(name@) is None
                &&& exists|range: (usize, usize)| #[trigger]
                    matcher.finds(vstd::utf8::encode_utf8(mime_type@), Some(range))
            },
        },
{
    if mime_type.is_empty() {
        return Ok(None);
    }
    match matcher.find(mime_type.as_bytes()) {
        None => Ok(None),
        Some(range) => {
            assert(matcher.finds(vstd::utf8::encode_utf8(mime_type@), Some(range)));
            match entry_id_from_direct_file_name(name) {
                None => Err(InvalidFileName::Id),
                Some(entry_id) => Ok(
                    Some(
                        QueryResult {
                            location: EntryLocation::File { entry_id },
                            start: 0,
                            end: 0,
                        },
                    ),
                ),
            }
        },
    }
}

/// A plain search finds what it is for wherever it stands, at the first place at which it
/// does, and nothing else.
pub proof fn lemma_plain_search(
    matcher: Matcher,
    needle: Vec<u8>,
    haystack: Seq<u8>,
    found: Option<(usize, usize)>,
)
    requires
        matcher == Matcher::Plain(needle),
        matcher.finds(haystack, found),
    ensures
        found matches Some((start, end)) ==> start <= end <= haystack.len() && haystack.subrange(
            start as int,
            end as int,
        ) == needle@,
        forall|before: Seq<u8>, after: Seq<u8>|
            haystack == #[trigger] (before + needle@ + after) ==> (found matches Some((start, _))
                && start <= before.len()),
{
    assert forall|before: Seq<u8>, after: Seq<u8>|
        haystack == #[trigger] (before + needle@ + after) implies (found matches Some((start, _))
        && start <= before.len()) by {
        let at = before.len() as int;
        assert(haystack.subrange(at, at + needle@.len()) =~= needle@);
        assert(occurs_at(haystack, needle@, at));
    }
}

/// Whether two bytes are the same, or the upper and the lower case of an ASCII letter.
pub open spec fn same_letter(a: u8, b: u8) -> bool {
    a == b || (65 <= a <= 90 && b == a + 32) || (65 <= b <= 90 && a == b + 32)
}

/// Whether two byte strings are the same but for the case of ASCII letters.
pub open spec fn same_letters(a: Seq<u8>, b: Seq<u8>) -> bool {
    a.len() == b.len() && forall|i: int| 0 <= i < a.len() ==> same_letter(#[trigger] a[i], b[i])
}

/// Bytes are the same in lower case exactly if they are the same but for the case of ASCII
/// letters.
pub proof fn lemma_same_in_lower_case(a: Seq<u8>, b: Seq<u8>)
    ensures
        crate::text::spec_ascii_lowercase(a) == crate::text::spec_ascii_lowercase(b)
            <==> same_letters(a, b),
{
    let lower_a = crate::text::spec_ascii_lowercase(a);
    let lower_b = crate::text::spec_ascii_lowercase(b);
    if same_letters(a, b) {
        assert forall|i: int| 0 <= i < a.len() implies #[trigger] lower_a[i] == lower_b[i] by {
            assert(same_letter(a[i], b[i]));
        }
        assert(lower_a =~= lower_b);
    }
    if lower_a == lower_b {
        assert(a.len() == lower_a.len() && b.len() == lower_b.len());
        assert forall|i: int| 0 <= i < a.len() implies same_letter(#[trigger] a[i], b[i]) by {
            assert(lower_a[i] == lower_b[i]);
        }
    }
}

/// A search that ignores case finds what it is for in any case, and nothing else.
pub proof fn lemma_caseless_search(
    matcher: Matcher,
    query: CaselessQuery,
    needle: Vec<u8>,
    haystack: Seq<u8>,
    found: Option<(usize, usize)>,
)
    requires
        matcher == Matcher::IgnoreCase(needle),
        needle@ == query.spec_needle(),
        !query.spec_trim(),
        matcher.finds(haystack, found),
    ensures
        found matches Some((start, end)) ==> start <= end <= haystack.len() && same_letters(
            haystack.subrange(start as int, end as int),
            query.spec_query(),
        ),
        forall|before: Seq<u8>, hit: Seq<u8>, after: Seq<u8>|
            #![trigger before + hit + after]
            haystack == before + hit + after && same_letters(hit, query.spec_query()) ==> (
            found matches Some((start, _)) && start <= before.len()),
{
    let lower = crate::text::spec_ascii_lowercase(haystack);
    let wanted = query.spec_query();
    if let Some((start, end)) = found {
        assert(occurs_at(lower, needle@, start as int));
        let part = haystack.subrange(start as int, end as int);
        assert(crate::text::spec_ascii_lowercase(part) =~= lower.subrange(
            start as int,
            end as int,
        ));
        lemma_same_in_lower_case(part, wanted);
    }
    assert forall|before: Seq<u8>, hit: Seq<u8>, after: Seq<u8>|
        #![trigger before + hit + after]
        haystack == before + hit + after && same_letters(hit, wanted) implies (found matches Some(
        (start, _),
    ) && start <= before.len()) by {
        let at = before.len() as int;
        lemma_same_in_lower_case(hit, wanted);
        assert(haystack.subrange(at, at + hit.len()) =~= hit);
        assert(lower.subrange(at, at + hit.len()) =~= crate::text::spec_ascii_lowercase(hit));
        assert(occurs_at(lower, needle@, at));
    }
}

/// What is trimmed is what stands between the whitespace before and after it, which is handed
/// out.
pub proof fn lemma_trimmed(bytes: Seq<u8>) -> (around: (Seq<u8>, Seq<u8>))
    ensures
        bytes == around.0 + spec_trim_ascii(bytes) + around.1,
        forall|i: int| 0 <= i < around.0.len() ==> is_ascii_whitespace(#[trigger] around.0[i]),
        forall|i: int| 0 <= i < around.1.len() ==> is_ascii_whitespace(#[trigger] around.1[i]),
        spec_trim_ascii(bytes).len() > 0 ==> !is_ascii_whitespace(spec_trim_ascii(bytes)[0])
            && !is_ascii_whitespace(spec_trim_ascii(bytes).last()),
{
    let n = leading_whitespace(bytes) as int;
    lemma_leading_whitespace(bytes);
    let front = bytes.skip(n);
    lemma_trailing_whitespace(front);
    let m = front.len() - trailing_whitespace(front);
    let trimmed = front.take(m);
    let before = bytes.take(n);
    let after = front.skip(m);
    assert(trimmed == spec_trim_ascii(bytes));
    assert(bytes =~= before + trimmed + after);
    assert forall|i: int| 0 <= i < before.len() implies is_ascii_whitespace(
        #[trigger] before[i],
    ) by {
        assert(before[i] == bytes[i]);
    }
    assert forall|i: int| 0 <= i < after.len() implies is_ascii_whitespace(#[trigger] after[i]) by {
        assert(after[i] == front[m + i]);
    }
    if trimmed.len() > 0 {
        assert(trimmed[0] == bytes[n]);
        assert(trimmed.last() == front[m - 1]);
    }
    (before, after)
}

proof fn lemma_leading_whitespace(bytes: Seq<u8>)
    ensures
        leading_whitespace(bytes) <= bytes.len(),
        forall|i: int|
            0 <= i < leading_whitespace(bytes) ==> is_ascii_whitespace(#[trigger] bytes[i]),
        leading_whitespace(bytes) < bytes.len() ==> !is_ascii_whitespace(
            bytes[leading_whitespace(bytes) as int],
        ),
    decreases bytes.len(),
{
    if bytes.len() > 0 && is_ascii_whitespace(bytes[0]) {
        let rest = bytes.drop_first();
        lemma_leading_whitespace(rest);
        assert forall|i: int| 0 <= i < leading_whitespace(bytes) implies is_ascii_whitespace(
            #[trigger] bytes[i],
        ) by {
            if i > 0 {
                assert(rest[i - 1] == bytes[i]);
            }
        }
        if leading_whitespace(bytes) < bytes.len() {
            assert(rest[leading_whitespace(rest) as int] == bytes[leading_whitespace(bytes) as int]);
        }
    }
}

proof fn lemma_trailing_whitespace(bytes: Seq<u8>)
    ensures
        trailing_whitespace(bytes) <= bytes.len(),
        forall|i: int|
            bytes.len() - trailing_whitespace(bytes) <= i < bytes.len() ==> is_ascii_whitespace(
                #[trigger] bytes[i],
            ),
        trailing_whitespace(bytes) < bytes.len() ==> !is_ascii_whitespace(
            bytes[bytes.len() - trailing_whitespace(bytes) - 1],
        ),
    decreases bytes.len(),
{
    if bytes.len() > 0 && is_ascii_whitespace(bytes.last()) {
        let rest = bytes.drop_last();
        lemma_trailing_whitespace(rest);
        assert forall|i: int|
            bytes.len() - trailing_whitespace(bytes) <= i < bytes.len() implies is_ascii_whitespace(
            #[trigger] bytes[i],
        ) by {
            if i < rest.len() {
                assert(rest[i] == bytes[i]);
            }
        }
        if trailing_whitespace(bytes) < bytes.len() {
            let at = rest.len() - trailing_whitespace(rest) - 1;
            assert(rest[at] == bytes[at]);
        }
    }
}

/// A search that ignores case, with or without the whitespace around the query, finds
/// whatever holds the query in any case.
pub proof fn lemma_query_is_found_in_any_case(
    matcher: Matcher,
    query: CaselessQuery,
    needle: Vec<u8>,
    before: Seq<u8>,
    hit: Seq<u8>,
    after: Seq<u8>,
    found: Option<(usize, usize)>,
)
    requires
        matcher == Matcher::IgnoreCase(needle),
        needle@ == query.spec_needle(),
        same_letters(hit, query.spec_query()),
        matcher.finds(before + hit + after, found),
    ensures
        found is Some,
{
    let haystack = before + hit + after;
    let lower = crate::text::spec_ascii_lowercase(haystack);
    let wanted = crate::text::spec_ascii_lowercase(query.spec_query());
    lemma_same_in_lower_case(hit, query.spec_query());
    lemma_trimmed(wanted);
    let (front, back) = if query.spec_trim() {
        choose|front: Seq<u8>, back: Seq<u8>|
            {
                &&& wanted == #[trigger] (front + spec_trim_ascii(wanted) + back)
                &&& forall|i: int| 0 <= i < front.len() ==> is_ascii_whitespace(#[trigger] front[i])
                &&& forall|i: int| 0 <= i < back.len() ==> is_ascii_whitespace(#[trigger] back[i])
            }
    } else {
        (Seq::empty(), Seq::empty())
    };
    assert(wanted =~= front + needle@ + back);
    let at = (before.len() + front.len()) as int;
    let part = lower.subrange(at, at + needle@.len());
    assert forall|i: int| 0 <= i < needle@.len() implies #[trigger] part[i] == needle@[i] by {
        assert(wanted[front.len() + i] == needle@[i]);
        assert(haystack[at + i] == hit[front.len() + i]);
        assert(crate::text::spec_ascii_lowercase(hit)[front.len() + i] == wanted[front.len() + i]);
    }
    assert(part =~= needle@);
    assert(occurs_at(lower, needle@, at));
}

/// Every entry in a bucket is searched as it was written, whatever zero bytes it holds in
/// the first half of its slot: more than half of a slot is in use, or at least one byte of
/// the smallest ones.
pub proof fn lemma_entry_is_searched_whole(slot: Seq<u8>, contents: Seq<u8>)
    requires
        slot.len() >= 4,
        slot.len() % 2 == 0,
        0 < contents.len() <= slot.len(),
        slot.len() > 4 ==> contents.len() > slot.len() / 2,
        slot.take(contents.len() as int) == contents,
        contents.len() < slot.len() ==> slot[contents.len() as int] == 0,
        forall|i: int|
            0 <= i < contents.len() && (if slot.len() == 4 {
                i >= 1
            } else {
                i > slot.len() / 2
            }) ==> #[trigger] contents[i] != 0,
    ensures
        slot_contents(slot) == contents,
{
    let midpoint = spec_midpoint(slot.len() as int);
    assert forall|i: int| midpoint <= i < contents.len() implies #[trigger] slot[i] != 0 by {
        assert(contents[i] == slot.take(contents.len() as int)[i]);
    }
    lemma_contents_end(slot, midpoint, contents.len() as int);
}

/// Slots lie one after the other, without gaps.
pub proof fn lemma_slots_lie_in_order(bucket: int, mem: Seq<u8>, index: int, at: int)
    requires
        0 <= bucket < NUM_BUCKETS,
        0 <= index < bucket_slots(bucket, mem),
        0 <= at < bucket_slot(bucket, mem, index).len(),
    ensures
        bucket_slot(bucket, mem, index).len() == vstd::arithmetic::power2::pow2(
            (bucket + 2) as nat,
        ),
        bucket_slot(bucket, mem, index)[at] == mem[index * vstd::arithmetic::power2::pow2(
            (bucket + 2) as nat,
        ) + at],
{
    let len = crate::utils::spec_bucket_to_length(bucket);
    vstd::arithmetic::power2::lemma_pow2_unfold((bucket + 2) as nat);
    vstd::arithmetic::power2::lemma_pow2_unfold((bucket + 1) as nat);
    assert(len == vstd::arithmetic::power2::pow2((bucket + 2) as nat));
    crate::utils::lemma_bucket_length_positive(bucket);
    lemma_slot_in_bounds(mem.len() as int, len, index);
    assert(len * (index + 1) == len * index + len) by (nonlinear_arith);
    assert(len * index == index * len) by (nonlinear_arith);
}

/// Every slot of a bucket in which something is found is among the results, with where it is
/// found, and nothing else is.
pub proof fn lemma_bucket_is_searched_whole(
    bucket: usize,
    mem: &[u8],
    matcher: Matcher,
    results: Vec<QueryResult>,
    index: int,
)
    requires
        bucket < NUM_BUCKETS,
        0 <= index < bucket_slots(bucket as int, mem@),
        call_ensures(search_bucket, (bucket, mem, &matcher), results),
    ensures
        ({
            let contents = slot_contents(bucket_slot(bucket as int, mem@, index));
            &&& !matcher.finds(contents, None) ==> exists|i: int|
                0 <= i < results@.len() && (#[trigger] results@[i]).location is Bucketed
                    && results@[i].location->bucket == bucket && results@[i].location->index == index
            &&& forall|i: int|
                0 <= i < results@.len() && (#[trigger] results@[i]).location->index == index
                    ==> matcher.finds(contents, Some((results@[i].start, results@[i].end)))
        }),
{
    let contents = slot_contents(bucket_slot(bucket as int, mem@, index));
    if !matcher.finds(contents, None) {
        let i = choose|i: int|
            0 <= i < results@.len() && (#[trigger] results@[i]).location->index == index;
        assert(results@[i].location is Bucketed);
    }
}

/// A regular expression is looked for by itself.
pub proof fn lemma_regex_search(
    matcher: Matcher,
    regex: Regex,
    haystack: &[u8],
    found: Option<(usize, usize)>,
)
    requires
        matcher == Matcher::Regex(regex),
        call_ensures(Matcher::find, (&matcher, haystack), found),
    ensures
        found == regex_match(regex, haystack@),
{
}

/// Of the files in the directory of direct files, those with text are searched, unless their
/// name cannot be that of an entry.
pub proof fn lemma_text_files_are_searched(
    name: &[u8],
    mime_type: &str,
    text: bool,
    action: DirectFile,
)
    requires
        call_ensures(is_text_mime, (mime_type,), text),
        call_ensures(classify_direct_file, (name, mime_type), action),
    ensures
        action is Search ==> text,
        text && name@.len() == 13 ==> action is Search,
        text && name@.len() > 2 && name@.len() != 13 ==> action is Invalid,
        name@ == seq!['.' as u8] || name@ == seq!['.' as u8, '.' as u8] ==> action is Skip,
        !text ==> action is Skip,
{
}

/// A mime type is found by a part of it, and then nothing of the contents is marked.
pub proof fn lemma_mime_type_is_searched(
    matcher: Matcher,
    needle: Vec<u8>,
    mime_type: &str,
    name: &[u8],
    result: Result<Option<QueryResult>, InvalidFileName>,
    before: Seq<u8>,
    after: Seq<u8>,
)
    requires
        matcher == Matcher::Plain(needle),
        call_ensures(search_mime_type, (&matcher, mime_type, name), result),
    ensures
        mime_type@.len() > 0 && vstd::utf8::encode_utf8(mime_type@) == before + needle@ + after
            ==> !(result matches Ok(None)),
        mime_type@.len() == 0 ==> result is Ok && result->Ok_0 is None,
        result matches Ok(Some(found)) ==> found.start == found.end,
{
    let haystack = vstd::utf8::encode_utf8(mime_type@);
    if mime_type@.len() > 0 && haystack == before + needle@ + after {
        let at = before.len() as int;
        assert(haystack.subrange(at, at + needle@.len()) =~= needle@);
        assert(occurs_at(haystack, needle@, at));
    }
}

/// The file of a direct entry is found by a part of it, where that part is first, under the ID
/// that the file is named after.
pub proof fn lemma_direct_file_is_searched(
    matcher: Matcher,
    needle: Vec<u8>,
    contents: &[u8],
    name: &[u8],
    result: Result<Option<QueryResult>, InvalidFileName>,
    before: Seq<u8>,
    after: Seq<u8>,
)
    requires
        matcher == Matcher::Plain(needle),
        call_ensures(search_direct_file, (&matcher, contents, name), result),
        contents@ == before + needle@ + after,
    ensures
        !(result matches Ok(None)),
        result matches Ok(Some(found)) ==> {
            &&& found.start <= before.len()
            &&& found.end == found.start + needle@.len()
            &&& contents@.subrange(found.start as int, found.end as int) == needle@
            &&& found.location matches EntryLocation::File { entry_id }
                && crate::utils::spec_entry_id_from_direct_file_name(name@) == Some(entry_id)
        },
{
    let at = before.len() as int;
    assert(contents@.subrange(at, at + needle@.len()) =~= needle@);
    assert(occurs_at(contents@, needle@, at));
}

/// A space before or after bytes is trimmed away.
pub proof fn lemma_space_is_trimmed(bytes: Seq<u8>, front: bool)
    ensures
        spec_trim_ascii(
            if front {
                seq![32u8] + bytes
            } else {
                bytes + seq![32u8]
            },
        ) == spec_trim_ascii(bytes),
{
    let n = leading_whitespace(bytes) as int;
    lemma_whitespace_bounds(bytes);
    if front {
        let longer = seq![32u8] + bytes;
        assert(longer.drop_first() =~= bytes);
        assert(leading_whitespace(longer) == n + 1);
        assert(longer.skip(n + 1) =~= bytes.skip(n));
    } else {
        let longer = bytes + seq![32u8];
        lemma_leading_whitespace_of_longer(bytes);
        let rest = bytes.skip(n);
        lemma_whitespace_bounds(rest);
        if n < bytes.len() {
            assert(longer.skip(n) =~= rest.push(32));
            assert(rest.push(32).drop_last() =~= rest);
            assert(trailing_whitespace(rest.push(32)) == trailing_whitespace(rest) + 1);
            let m = rest.len() - trailing_whitespace(rest);
            assert(rest.push(32).take(m) =~= rest.take(m));
        } else {
            assert(longer.skip(n + 1) =~= Seq::<u8>::empty());
            assert(rest =~= Seq::<u8>::empty());
        }
    }
}

proof fn lemma_leading_whitespace_of_longer(bytes: Seq<u8>)
    ensures
        leading_whitespace(bytes + seq![32u8]) == leading_whitespace(bytes) + if leading_whitespace(
            bytes,
        ) == bytes.len() {
            1nat
        } else {
            0
        },
    decreases bytes.len(),
{
    let longer = bytes + seq![32u8];
    if bytes.len() == 0 {
        assert(longer.drop_first() =~= Seq::<u8>::empty());
        assert(longer[0] == 32);
        assert(leading_whitespace(longer.drop_first()) == 0);
    } else {
        assert(longer.drop_first() =~= bytes.drop_first() + seq![32u8]);
        lemma_leading_whitespace_of_longer(bytes.drop_first());
        lemma_leading_whitespace(bytes);
    }
}

} // verus!
