//! The functions that the GNOME Shell extension calls: which arguments they take,
//! and the numbers that they return.

use vstd::prelude::*;

use crate::protocol::{mime_from, AddResponse, MimeType, MoveToFrontResponse, RemoveResponse};

verus! {

/// The longest text that is accepted from a caller, in bytes.
pub const MAX_PAYLOAD_BYTES: usize = 0x100_0000;

/// Whether a text that a caller hands over is looked at: there is one, and it is
/// neither empty nor implausibly long.
#[must_use]
pub fn accepts_payload(is_null: bool, len: usize) -> (accepts: bool)
    ensures
        accepts == (!is_null && 0 < len <= MAX_PAYLOAD_BYTES),
{
    !is_null && len != 0 && len <= MAX_PAYLOAD_BYTES
}

/// The mime type of a text that a caller adds.
#[must_use]
pub fn payload_mime_type() -> (mime: Option<MimeType>)
    ensures
        mime is Some,
        mime matches Some(mime) ==> crate::protocol::mime_text(mime) == "text/plain"@,
{
    proof {
        reveal_strlit("text/plain");
        vstd::utf8::is_ascii_chars_encode_utf8("text/plain"@);
    }
    mime_from("text/plain")
}

/// What is returned for a text that was added: the ID of the entry, or -1 if it was
/// not added, or if its ID does not fit.
#[must_use]
pub fn added_id(response: Option<AddResponse>) -> (id: i64)
    ensures
        match response {
            Some(AddResponse::Success { id: added }) => id == if added <= i64::MAX {
                added as int
            } else {
                -1
            },
            None => id == -1,
        },
{
    match response {
        Some(AddResponse::Success { id }) => {
            if id <= i64::MAX as u64 {
                id as i64
            } else {
                -1
            }
        },
        None => -1,
    }
}

/// 0 if something worked, -1 if it did not, or if there is no connection to the
/// server.
#[must_use]
pub fn status(connected: bool, worked: bool) -> (status: i32)
    ensures
        status == if connected && worked {
            0int
        } else {
            -1
        },
{
    if connected && worked {
        0
    } else {
        -1
    }
}

/// What is returned for an entry that was to be moved to the front: 0 if it was.
#[must_use]
pub fn moved_status(connected: bool, response: Option<MoveToFrontResponse>) -> (status: i32)
    ensures
        status == if connected && (response matches Some(MoveToFrontResponse::Success { .. })) {
            0int
        } else {
            -1
        },
{
    let moved = match response {
        Some(MoveToFrontResponse::Success { .. }) => true,
        _ => false,
    };
    status(connected, moved)
}

/// What is returned for an entry that was to be removed: 0 if it was.
#[must_use]
pub fn removed_status(connected: bool, response: Option<RemoveResponse>) -> (status: i32)
    ensures
        status == if connected && (response matches Some(response) && response.error is None) {
            0int
        } else {
            -1
        },
{
    let removed = match response {
        Some(response) => response.error.is_none(),
        None => false,
    };
    status(connected, removed)
}

/// How many entries are listed: none, since the extension keeps its own list. -1
/// means that there is no room for any.
#[must_use]
pub fn listed_entries(is_null: bool, max_entries: usize) -> (listed: i32)
    ensures
        listed == if is_null || max_entries == 0 {
            -1int
        } else {
            0
        },
{
    if is_null || max_entries == 0 {
        -1
    } else {
        0
    }
}

/// Zero is returned exactly for what worked, and something negative for all else.
pub proof fn lemma_zero_is_success(
    connected: bool,
    moved: Option<MoveToFrontResponse>,
    removed: Option<RemoveResponse>,
    moved_status: i32,
    removed_status: i32,
)
    requires
        call_ensures(crate::gnome::moved_status, (connected, moved), moved_status),
        call_ensures(crate::gnome::removed_status, (connected, removed), removed_status),
    ensures
        moved_status == 0 <==> connected && moved is Some && moved->0 is Success,
        removed_status == 0 <==> connected && removed is Some && removed->0.error is None,
        moved_status <= 0,
        removed_status <= 0,
{
}

/// The ID of an entry that was added is returned as it is, and nothing negative is.
pub proof fn lemma_added_id_is_returned(response: Option<AddResponse>, id: i64)
    requires
        call_ensures(added_id, (response,), id),
    ensures
        id >= 0 ==> (response matches Some(AddResponse::Success { id: added }) && added == id),
        id < 0 ==> response is None || (response matches Some(AddResponse::Success { id: added })
            && added > i64::MAX),
{
}

/// Empty texts and those of more than 16 MiB are not added.
pub proof fn lemma_payload_is_plausible(is_null: bool, len: usize, accepts: bool)
    requires
        call_ensures(accepts_payload, (is_null, len), accepts),
    ensures
        accepts <==> !is_null && 1 <= len <= 16 * 1024 * 1024,
{
}

} // verus!
