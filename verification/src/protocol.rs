//! The client/server protocol: ring kinds, composite entry IDs, requests and
//! responses.

use arrayvec::ArrayString;
use vstd::prelude::*;

use crate::text::push_number;

verus! {

/// Version byte that a client and the server exchange when they connect.
pub const VERSION: u8 = 0;

/// The longest mime type that an entry can carry, in bytes.
pub const MIME_TYPE_CAPACITY: usize = 96;

/// `arrayvec::ArrayString`: a string with a fixed capacity in bytes.
#[verifier::external_type_specification]
#[verifier::external_body]
pub struct ExArrayString<const CAP: usize>(ArrayString<CAP>);

/// The mime type of an entry; empty for plain text.
pub type MimeType = ArrayString<96>;

/// The characters that a mime type holds.
pub uninterp spec fn mime_text(mime: MimeType) -> Seq<char>;

/// `arrayvec::ArrayString::new_const`: the result holds no character.
#[verifier::external_body]
pub(crate) fn mime_new() -> (mime: MimeType)
    ensures
        mime_text(mime) == Seq::<char>::empty(),
{
    MimeType::new_const()
}

/// `arrayvec::ArrayString::from`: copies the string if its UTF-8 length is at
/// most the capacity, and fails otherwise.
#[verifier::external_body]
pub(crate) fn mime_from(text: &str) -> (mime: Option<MimeType>)
    ensures
        mime is Some <==> vstd::utf8::encode_utf8(text@).len() <= MIME_TYPE_CAPACITY,
        mime matches Some(m) ==> mime_text(m) == text@,
{
    MimeType::from(text).ok()
}

/// `arrayvec::ArrayString::as_str`: the characters held, whose UTF-8 length is at
/// most the capacity.
#[verifier::external_body]
pub(crate) fn mime_as_str(mime: &MimeType) -> (text: &str)
    ensures
        text@ == mime_text(*mime),
        vstd::utf8::encode_utf8(text@).len() <= MIME_TYPE_CAPACITY,
{
    mime.as_str()
}

/// Which of the two rings an entry lives in.
#[derive(Copy, Clone, Eq, PartialEq, Hash, Debug, Structural)]
pub enum RingKind {
    Favorites,
    Main,
}

impl RingKind {
    /// The number that stands for the ring in composite IDs and packed indices.
    pub open spec fn spec_tag(self) -> u32 {
        match self {
            RingKind::Favorites => 0,
            RingKind::Main => 1,
        }
    }

    /// The number that stands for the ring in composite IDs and packed indices.
    pub fn tag(self) -> (tag: u32)
        ensures
            tag == self.spec_tag(),
    {
        match self {
            RingKind::Favorites => 0,
            RingKind::Main => 1,
        }
    }

    /// The name of the ring's file in the database directory.
    pub fn file_name(&self) -> (name: &'static str)
        ensures
            name@ == match *self {
                RingKind::Main => "main.ring"@,
                RingKind::Favorites => "favorites.ring"@,
            },
    {
        match self {
            RingKind::Main => "main.ring",
            RingKind::Favorites => "favorites.ring",
        }
    }

    /// How many entries the ring holds before it wraps around, by default.
    pub fn default_max_entries(&self) -> (max: u32)
        ensures
            max == match *self {
                RingKind::Main => 131_070u32,
                RingKind::Favorites => 1022u32,
            },
    {
        match self {
            RingKind::Main => 131_070,
            RingKind::Favorites => 1022,
        }
    }
}

impl Default for RingKind {
    fn default() -> (kind: RingKind)
        ensures
            kind == RingKind::Main,
    {
        RingKind::Main
    }
}

/// Why an ID does not name an entry.
#[derive(Copy, Clone, Eq, PartialEq, Debug, Structural)]
pub enum IdNotFoundError {
    /// The upper half of the ID is no ring.
    Ring(u32),
    /// The ring has no initialized entry there.
    Entry(u32),
}

impl IdNotFoundError {
    /// What to tell the user.
    pub fn message(&self) -> (message: String)
        ensures
            message@ == match *self {
                IdNotFoundError::Ring(ring) => "invalid ring ID: "@ + crate::text::decimal_text(
                    ring as nat,
                ),
                IdNotFoundError::Entry(entry) => "invalid entry ID: "@ + crate::text::decimal_text(
                    entry as nat,
                ),
            },
    {
        match self {
            IdNotFoundError::Ring(ring) => {
                let mut message = "invalid ring ID: ".to_owned();
                push_number(&mut message, *ring as u64);
                message
            },
            IdNotFoundError::Entry(entry) => {
                let mut message = "invalid entry ID: ".to_owned();
                push_number(&mut message, *entry as u64);
                message
            },
        }
    }
}

/// What a client asks of the server.
#[allow(inconsistent_fields)]
#[derive(Copy, Clone, Debug)]
pub enum Request {
    Add { to: RingKind, mime_type: MimeType },
    MoveToFront { id: u64, to: Option<RingKind> },
    Swap { id1: u64, id2: u64 },
    Remove { id: u64 },
    GarbageCollect { max_wasted_bytes: u64 },
}

/// A response together with its place in the server's total order of responses.
#[derive(Copy, Clone)]
pub struct Response<T> {
    pub sequence_number: u64,
    pub value: T,
}

#[derive(Copy, Clone, Eq, PartialEq, Debug, Structural)]
#[must_use]
pub enum AddResponse {
    Success { id: u64 },
}

#[derive(Copy, Clone, Eq, PartialEq, Debug, Structural)]
#[must_use]
pub enum MoveToFrontResponse {
    Success { id: u64 },
    Error(IdNotFoundError),
}

#[derive(Copy, Clone, Eq, PartialEq, Debug)]
#[must_use]
pub struct SwapResponse {
    pub error1: Option<IdNotFoundError>,
    pub error2: Option<IdNotFoundError>,
}

#[derive(Copy, Clone, Eq, PartialEq, Debug)]
#[must_use]
pub struct RemoveResponse {
    pub error: Option<IdNotFoundError>,
}

#[derive(Copy, Clone, Eq, PartialEq, Debug)]
#[must_use]
pub struct ReloadSettingsResponse {
    pub error: Option<()>,
}

#[derive(Copy, Clone, Eq, PartialEq, Debug, Structural)]
#[must_use]
pub struct GarbageCollectResponse {
    pub bytes_freed: u64,
}

/// The composite ID of the entry at `index` of the ring `kind`.
pub open spec fn spec_composite_id(kind: RingKind, index: u32) -> u64 {
    (kind.spec_tag() * 0x1_0000_0000 + index) as u64
}

/// Packs a ring into the upper half and an index into the lower half of an ID.
pub fn composite_id(kind: RingKind, index: u32) -> (id: u64)
    ensures
        id == spec_composite_id(kind, index),
        id == kind.spec_tag() * 0x1_0000_0000 + index,
{
    let tag: u64 = kind.tag() as u64;
    let low: u64 = index as u64;
    assert((tag << 32) | low == tag * 0x1_0000_0000 + low) by (bit_vector)
        requires
            tag <= 1,
            low <= 0xffff_ffff,
    ;
    (tag << 32) | low
}

/// What an ID means: a ring and an index into it, or the number of the ring
/// that does not exist.
pub open spec fn spec_decompose_id(id: u64) -> Result<(RingKind, u32), IdNotFoundError> {
    let ring = id / 0x1_0000_0000;
    let index = (id % 0x1_0000_0000) as u32;
    if ring == 0 {
        Ok((RingKind::Favorites, index))
    } else if ring == 1 {
        Ok((RingKind::Main, index))
    } else {
        Err(IdNotFoundError::Ring(ring as u32))
    }
}

/// Splits an ID into its ring and index.
pub fn decompose_id(id: u64) -> (parts: Result<(RingKind, u32), IdNotFoundError>)
    ensures
        parts == spec_decompose_id(id),
{
    let ring: u64 = id >> 32;
    let low: u64 = id & 0xffff_ffff;
    assert(ring == id / 0x1_0000_0000 && low == id % 0x1_0000_0000) by (bit_vector)
        requires
            ring == id >> 32,
            low == id & 0xffff_ffff,
    ;
    let index: u32 = low as u32;
    if ring == 0 {
        Ok((RingKind::Favorites, index))
    } else if ring == 1 {
        Ok((RingKind::Main, index))
    } else {
        Err(IdNotFoundError::Ring(ring as u32))
    }
}

/// A ring and an index survive the trip through a composite ID.
pub proof fn lemma_decompose_of_composite(kind: RingKind, index: u32)
    ensures
        spec_decompose_id(spec_composite_id(kind, index)) == Ok::<(RingKind, u32), IdNotFoundError>(
            (kind, index),
        ),
{
}

/// An ID that names a ring is the composite ID of its parts.
pub proof fn lemma_composite_of_decompose(id: u64)
    requires
        spec_decompose_id(id) is Ok,
    ensures
        ({
            let parts = spec_decompose_id(id)->Ok_0;
            spec_composite_id(parts.0, parts.1) == id
        }),
{
}

/// Composite IDs tell entries apart.
pub proof fn lemma_composite_id_injective(kind1: RingKind, index1: u32, kind2: RingKind, index2: u32)
    requires
        spec_composite_id(kind1, index1) == spec_composite_id(kind2, index2),
    ensures
        kind1 == kind2,
        index1 == index2,
{
}

/// The main ring's entries follow the favorites: an ID is the index in a ring, plus 2 to the
/// power of 32 in the main ring.
pub proof fn lemma_main_ids_follow_favorites(kind: RingKind, index: u32, id: u64)
    requires
        call_ensures(composite_id, (kind, index), id),
    ensures
        kind == RingKind::Favorites ==> id == index,
        kind == RingKind::Main ==> id == index + 0x1_0000_0000,
        spec_composite_id(kind, index) == id,
{
}

/// What an ID names is found again, and an ID that names nothing is told by its upper half.
pub proof fn lemma_id_is_decomposed(id: u64, parts: Result<(RingKind, u32), IdNotFoundError>)
    requires
        call_ensures(decompose_id, (id,), parts),
    ensures
        parts == Ok::<(RingKind, u32), IdNotFoundError>((RingKind::Favorites, id as u32)) <==> id
            < 0x1_0000_0000,
        parts == Ok::<(RingKind, u32), IdNotFoundError>(
            (RingKind::Main, (id - 0x1_0000_0000) as u32),
        ) <==> 0x1_0000_0000 <= id < 0x2_0000_0000,
        parts is Err <==> id >= 0x2_0000_0000,
        parts matches Err(error) ==> (error matches IdNotFoundError::Ring(ring) && ring * 0x1_0000_0000
            <= id < (ring + 1) * 0x1_0000_0000),
{
}

/// What is told about an ID that was not found ends in the number that was not found, and
/// tells a ring from an entry.
pub proof fn lemma_message_names_number(
    number: u32,
    ring: String,
    entry: String,
)
    requires
        call_ensures(IdNotFoundError::message, (&IdNotFoundError::Ring(number),), ring),
        call_ensures(IdNotFoundError::message, (&IdNotFoundError::Entry(number),), entry),
    ensures
        ({
            let digits = crate::text::decimal_text(number as nat);
            &&& ring@ == "invalid ring ID: "@ + digits
            &&& entry@ == "invalid entry ID: "@ + digits
            &&& ring@ != entry@
        }),
{
    reveal_strlit("invalid ring ID: ");
    reveal_strlit("invalid entry ID: ");
    assert(ring@[8] == 'r' && entry@[8] == 'e');
}

/// The rings are kept in different files.
pub proof fn lemma_rings_have_own_files(main: &str, favorites: &str)
    requires
        call_ensures(RingKind::file_name, (&RingKind::Main,), main),
        call_ensures(RingKind::file_name, (&RingKind::Favorites,), favorites),
    ensures
        main@ == "main.ring"@,
        favorites@ == "favorites.ring"@,
        main@ != favorites@,
{
    reveal_strlit("main.ring");
    reveal_strlit("favorites.ring");
    assert(main@.len() != favorites@.len());
}

} // verus!
