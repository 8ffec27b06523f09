//! Talking to the server: the bytes of requests and responses, and what can go
//! wrong with them.

use vstd::prelude::*;
use vstd::utf8::*;

use crate::error::Error;
use crate::protocol::{
    mime_as_str, AddResponse, GarbageCollectResponse, IdNotFoundError, MimeType,
    MoveToFrontResponse, RemoveResponse, Request, Response, RingKind, SwapResponse,
    MIME_TYPE_CAPACITY, VERSION,
};
use crate::ring::{push_le_u32, read_le_u32};
use crate::text::{append_bytes, push_number};

verus! {

/// The length of a request, in bytes.
pub const REQUEST_LEN: usize = 112;

/// The length of a response that takes part in the total order, by its kind.
pub const ADD_RESPONSE_LEN: usize = 24;

pub const MOVE_TO_FRONT_RESPONSE_LEN: usize = 24;

pub const SWAP_RESPONSE_LEN: usize = 24;

pub const REMOVE_RESPONSE_LEN: usize = 16;

pub const GARBAGE_COLLECT_RESPONSE_LEN: usize = 16;

/// An error of a client.
#[derive(Debug)]
pub enum ClientError {
    Core(Error),
    /// The other side speaks another version of the protocol.
    VersionMismatch { expected: u8, actual: u8 },
    /// A message is not what it should be.
    InvalidResponse { context: String },
}

impl ClientError {
    /// What to tell the user.
    pub fn message(&self) -> (message: &'static str)
        ensures
            message@ == match *self {
                ClientError::Core(error) => error.spec_message(),
                ClientError::VersionMismatch { .. } => "protocol version mismatch"@,
                ClientError::InvalidResponse { .. } => "invalid server response"@,
            },
    {
        match self {
            ClientError::Core(error) => error.message(),
            ClientError::VersionMismatch { .. } => "protocol version mismatch",
            ClientError::InvalidResponse { .. } => "invalid server response",
        }
    }

    /// What a report adds to the message; `None` if it is up to the error of the
    /// database layer.
    pub fn attachment(&self) -> (attachment: Option<String>)
        ensures
            match *self {
                ClientError::Core(_) => attachment is None,
                ClientError::VersionMismatch { expected, actual } => attachment is Some
                    && attachment->0@ == "Expected v"@ + crate::text::decimal_text(expected as nat)
                    + " but got v"@ + crate::text::decimal_text(actual as nat) + "."@,
                ClientError::InvalidResponse { context } => attachment is Some && attachment->0@
                    == context@,
            },
    {
        match self {
            ClientError::Core(_) => None,
            ClientError::VersionMismatch { expected, actual } => {
                let mut text = "Expected v".to_owned();
                push_number(&mut text, *expected as u64);
                text.append(" but got v");
                push_number(&mut text, *actual as u64);
                text.append(".");
                Some(text)
            },
            ClientError::InvalidResponse { context } => Some(context.clone()),
        }
    }
}

impl vstd::std_specs::convert::FromSpecImpl<IdNotFoundError> for ClientError {
    open spec fn obeys_from_spec() -> bool {
        true
    }

    open spec fn from_spec(error: IdNotFoundError) -> ClientError {
        ClientError::Core(Error::IdNotFound(error))
    }
}

impl From<IdNotFoundError> for ClientError {
    fn from(error: IdNotFoundError) -> (wrapped: ClientError) {
        ClientError::Core(Error::IdNotFound(error))
    }
}

/// The bytes of numbers of four bytes each, one after another.
pub open spec fn image(words: Seq<u32>) -> Seq<u8>
    decreases words.len(),
{
    if words.len() == 0 {
        Seq::empty()
    } else {
        image(words.drop_last()) + crate::ring::spec_le_bytes(words.last())
    }
}

/// The `i`th number of four bytes.
pub open spec fn word(bytes: Seq<u8>, i: int) -> u32 {
    crate::ring::le_u32(bytes.subrange(4 * i, 4 * i + 4))
}

/// The number of eight bytes that starts with the `i`th number of four bytes.
pub open spec fn word64(bytes: Seq<u8>, i: int) -> u64 {
    (word(bytes, i) + 0x1_0000_0000 * word(bytes, i + 1)) as u64
}

/// The lower half of a number.
pub open spec fn low(n: u64) -> u32 {
    (n % 0x1_0000_0000) as u32
}

/// The upper half of a number.
pub open spec fn high(n: u64) -> u32 {
    (n / 0x1_0000_0000) as u32
}

/// The numbers are read back as they were written.
pub proof fn lemma_words_of_image(words: Seq<u32>, rest: Seq<u8>)
    ensures
        image(words).len() == 4 * words.len(),
        forall|i: int|
            0 <= i < words.len() ==> #[trigger] word(image(words) + rest, i) == words[i],
    decreases words.len(),
{
    if words.len() > 0 {
        let last = crate::ring::spec_le_bytes(words.last());
        let n = words.len() - 1;
        lemma_words_of_image(words.drop_last(), last + rest);
        crate::ring::lemma_le_u32_round_trip(words.last());
        assert(image(words) + rest =~= image(words.drop_last()) + (last + rest));
        assert((image(words) + rest).subrange(4 * n, 4 * n + 4) =~= last);
    }
}

proof fn lemma_words(words: Seq<u32>)
    ensures
        image(words).len() == 4 * words.len(),
        forall|i: int| 0 <= i < words.len() ==> #[trigger] word(image(words), i) == words[i],
{
    lemma_words_of_image(words, Seq::empty());
    assert(image(words) + Seq::<u8>::empty() =~= image(words));
}

proof fn lemma_image_push(words: Seq<u32>, n: u32)
    ensures
        image(words.push(n)) == image(words) + crate::ring::spec_le_bytes(n),
{
    assert(words.push(n).drop_last() =~= words);
}

/// Whether a mode that `stat` reports is that of a regular file.
pub fn is_regular_file(mode: u32) -> (regular: bool)
    ensures
        regular == (mode / 0x1000 % 0x10 == 8),
{
    assert((mode & 0xf000 == 0x8000) == (mode / 0x1000 % 0x10 == 8)) by (bit_vector);
    mode & 0xf000 == 0x8000
}

/// The number that stands for where an entry is moved to: its ring, or none if it
/// stays in the one it is in.
pub open spec fn destination(to: Option<RingKind>) -> u32 {
    match to {
        Some(ring) => ring.spec_tag(),
        None => 2,
    }
}

/// The numbers that a request starts with. The rest of an added entry's request is
/// its mime type.
pub open spec fn request_words(request: Request) -> Seq<u32> {
    match request {
        Request::Add { to, mime_type } => seq![
            0,
            0,
            to.spec_tag(),
            encode_utf8(crate::protocol::mime_text(mime_type)).len() as u32,
        ],
        Request::MoveToFront { id, to } => seq![1, 0, low(id), high(id), destination(to)],
        Request::Swap { id1, id2 } => seq![2, 0, low(id1), high(id1), low(id2), high(id2)],
        Request::Remove { id } => seq![3, 0, low(id), high(id)],
        Request::GarbageCollect { max_wasted_bytes } => seq![
            4,
            0,
            low(max_wasted_bytes),
            high(max_wasted_bytes),
        ],
    }
}

/// The bytes of a request without what fills it up.
pub open spec fn request_data(request: Request) -> Seq<u8> {
    match request {
        Request::Add { mime_type, .. } => image(request_words(request)) + encode_utf8(
            crate::protocol::mime_text(mime_type),
        ),
        _ => image(request_words(request)),
    }
}

/// Bytes filled up with zeros to the length of a request.
pub open spec fn filled_up(bytes: Seq<u8>) -> Seq<u8> {
    bytes + Seq::new((REQUEST_LEN - bytes.len()) as nat, |i: int| 0u8)
}

/// The bytes of a request.
pub open spec fn request_bytes(request: Request) -> Seq<u8> {
    filled_up(request_data(request))
}

/// Whether two requests ask for the same.
pub open spec fn same_request(a: Request, b: Request) -> bool {
    match (a, b) {
        (
            Request::Add { to: to1, mime_type: mime1 },
            Request::Add { to: to2, mime_type: mime2 },
        ) => to1 == to2 && crate::protocol::mime_text(mime1) == crate::protocol::mime_text(mime2),
        _ => a == b,
    }
}

/// Whether the mime type of a request is as short as those that can be held.
pub open spec fn mime_fits(request: Request) -> bool {
    request matches Request::Add { mime_type, .. } ==> encode_utf8(
        crate::protocol::mime_text(mime_type),
    ).len() <= MIME_TYPE_CAPACITY
}

proof fn lemma_request_words(request: Request)
    requires
        mime_fits(request),
    ensures
        request_words(request).len() <= 6,
        request_data(request).len() <= REQUEST_LEN,
        forall|i: int|
            0 <= i < request_words(request).len() ==> #[trigger] word(request_bytes(request), i)
                == request_words(request)[i],
{
    let words = request_words(request);
    lemma_words(words);
    let rest = request_bytes(request).skip(4 * words.len() as int);
    assert(request_bytes(request) =~= image(words) + rest);
    lemma_words_of_image(words, rest);
}

/// The bytes of a request tell what it asks for.
pub proof fn lemma_requests_differ(a: Request, b: Request)
    requires
        mime_fits(a),
        mime_fits(b),
        request_bytes(a) == request_bytes(b),
    ensures
        same_request(a, b),
{
    lemma_request_words(a);
    lemma_request_words(b);
    let wa = request_words(a);
    let wb = request_words(b);
    let bytes = request_bytes(a);
    assert(word(bytes, 0) == wa[0] && word(bytes, 0) == wb[0]);
    assert(wa.len() == wb.len());
    assert forall|i: int| 0 <= i < wa.len() implies wa[i] == wb[i] by {
        assert(word(bytes, i) == wa[i]);
        assert(word(bytes, i) == wb[i]);
    }
    match (a, b) {
        (Request::Add { mime_type: mime1, .. }, Request::Add { mime_type: mime2, .. }) => {
            let t1 = crate::protocol::mime_text(mime1);
            let t2 = crate::protocol::mime_text(mime2);
            assert(wa[2] == wb[2]);
            assert(wa[3] == wb[3]);
            lemma_words(wa);
            lemma_words(wb);
            let n = encode_utf8(t1).len() as int;
            assert(request_bytes(a).subrange(16, 16 + n) =~= encode_utf8(t1));
            assert(request_bytes(b).subrange(16, 16 + n) =~= encode_utf8(t2));
            encode_utf8_decode_utf8(t1);
            encode_utf8_decode_utf8(t2);
        },
        (Request::MoveToFront { .. }, _) => {
            assert(wa[2] == wb[2] && wa[3] == wb[3] && wa[4] == wb[4]);
        },
        (Request::Swap { .. }, _) => {
            assert(wa[2] == wb[2] && wa[3] == wb[3] && wa[4] == wb[4] && wa[5] == wb[5]);
        },
        (Request::Remove { .. }, _) => {
            assert(wa[2] == wb[2] && wa[3] == wb[3]);
        },
        (Request::GarbageCollect { .. }, _) => {
            assert(wa[2] == wb[2] && wa[3] == wb[3]);
        },
        _ => {},
    }
}

fn push_u64(out: &mut Vec<u8>, n: u64, Ghost(words): Ghost<Seq<u32>>)
    requires
        old(out)@ == image(words),
    ensures
        final(out)@ == image(words.push(low(n)).push(high(n))),
{
    proof {
        lemma_image_push(words, low(n));
        lemma_image_push(words.push(low(n)), high(n));
    }
    push_le_u32(out, (n % 0x1_0000_0000) as u32);
    push_le_u32(out, (n / 0x1_0000_0000) as u32);
}

fn push_u32(out: &mut Vec<u8>, n: u32, Ghost(words): Ghost<Seq<u32>>)
    requires
        old(out)@ == image(words),
    ensures
        final(out)@ == image(words.push(n)),
{
    proof {
        lemma_image_push(words, n);
    }
    push_le_u32(out, n);
}

impl Request {
    /// The bytes of the request as they are sent.
    pub fn as_bytes(&self) -> (bytes: Vec<u8>)
        ensures
            bytes@ == request_bytes(*self),
            bytes@.len() == REQUEST_LEN,
            mime_fits(*self),
    {
        let mut out: Vec<u8> = Vec::new();
        let tag: u32 = match self {
            Request::Add { .. } => 0,
            Request::MoveToFront { .. } => 1,
            Request::Swap { .. } => 2,
            Request::Remove { .. } => 3,
            Request::GarbageCollect { .. } => 4,
        };
        push_u32(&mut out, tag, Ghost(Seq::empty()));
        push_u32(&mut out, 0, Ghost(Seq::empty().push(tag)));
        let ghost head = Seq::<u32>::empty().push(tag).push(0);
        match self {
            Request::Add { to, mime_type } => {
                let mime = mime_as_str(mime_type).as_bytes();
                let kind: u32 = to.tag();
                push_u32(&mut out, kind, Ghost(head));
                push_u32(&mut out, mime.len() as u32, Ghost(head.push(kind)));
                assert(head.push(kind).push(mime@.len() as u32) =~= request_words(*self));
                append_bytes(&mut out, mime);
            },
            Request::MoveToFront { id, to } => {
                let destination: u32 = match to {
                    Some(ring) => ring.tag(),
                    None => 2,
                };
                push_u64(&mut out, *id, Ghost(head));
                let ghost words = head.push(low(*id)).push(high(*id));
                push_u32(&mut out, destination, Ghost(words));
                assert(words.push(destination) =~= request_words(*self));
            },
            Request::Swap { id1, id2 } => {
                push_u64(&mut out, *id1, Ghost(head));
                let ghost words = head.push(low(*id1)).push(high(*id1));
                push_u64(&mut out, *id2, Ghost(words));
                assert(words.push(low(*id2)).push(high(*id2)) =~= request_words(*self));
            },
            Request::Remove { id } => {
                push_u64(&mut out, *id, Ghost(head));
                assert(head.push(low(*id)).push(high(*id)) =~= request_words(*self));
            },
            Request::GarbageCollect { max_wasted_bytes } => {
                push_u64(&mut out, *max_wasted_bytes, Ghost(head));
                assert(head.push(low(*max_wasted_bytes)).push(high(*max_wasted_bytes))
                    =~= request_words(*self));
            },
        }
        let ghost data = out@;
        assert(data == request_data(*self));
        proof {
            lemma_request_words(*self);
            assert(data =~= data + Seq::new(0, |i: int| 0u8));
        }
        while out.len() < REQUEST_LEN
            invariant
                data.len() <= out@.len() <= REQUEST_LEN,
                out@ == data + Seq::new((out@.len() - data.len()) as nat, |i: int| 0u8),
            decreases REQUEST_LEN - out@.len(),
        {
            let ghost before = out@;
            out.push(0);
            assert(out@ =~= data + Seq::new((before.len() + 1 - data.len()) as nat, |i: int| 0u8));
        }
        out
    }
}

/// Asks to add an entry.
#[derive(Copy, Clone, Debug)]
pub struct AddRequest;

impl AddRequest {
    #[must_use]
    pub fn request(to: RingKind, mime_type: MimeType) -> (request: Request)
        ensures
            request == (Request::Add { to, mime_type }),
    {
        Request::Add { to, mime_type }
    }

    /// Whether the contents have to be copied to a temporary file before they are
    /// handed over, given the mode of the file that holds them: the server takes
    /// regular files only.
    #[must_use]
    pub fn needs_copy(mode: u32) -> (copy: bool)
        ensures
            copy == (mode / 0x1000 % 0x10 != 8),
    {
        !is_regular_file(mode)
    }
}

/// Asks to move an entry to the front of a ring.
#[derive(Copy, Clone, Debug)]
pub struct MoveToFrontRequest;

impl MoveToFrontRequest {
    #[must_use]
    pub fn request(id: u64, to: Option<RingKind>) -> (request: Request)
        ensures
            request == (Request::MoveToFront { id, to }),
    {
        Request::MoveToFront { id, to }
    }
}

/// Asks to exchange two entries.
#[derive(Copy, Clone, Debug)]
pub struct SwapRequest;

impl SwapRequest {
    #[must_use]
    pub fn request(id1: u64, id2: u64) -> (request: Request)
        ensures
            request == (Request::Swap { id1, id2 }),
    {
        Request::Swap { id1, id2 }
    }
}

/// Asks to remove an entry.
#[derive(Copy, Clone, Debug)]
pub struct RemoveRequest;

impl RemoveRequest {
    #[must_use]
    pub fn request(id: u64) -> (request: Request)
        ensures
            request == (Request::Remove { id }),
    {
        Request::Remove { id }
    }
}

/// Asks to collect garbage.
#[derive(Copy, Clone, Debug)]
pub struct GarbageCollectRequest;

impl GarbageCollectRequest {
    #[must_use]
    pub fn request(max_wasted_bytes: u64) -> (request: Request)
        ensures
            request == (Request::GarbageCollect { max_wasted_bytes }),
    {
        Request::GarbageCollect { max_wasted_bytes }
    }
}

/// What a kind of response is called in an error.
pub open spec fn bad_response(name: Seq<char>) -> Seq<char> {
    "Bad "@ + name + "."@
}

fn invalid_response(name: &str) -> (error: ClientError)
    ensures
        is_bad(error, name@),
{
    let mut context = "Bad ".to_owned();
    context.append(name);
    context.append(".");
    ClientError::InvalidResponse { context }
}

/// Whether an error says that a response of the given kind cannot be read.
pub open spec fn is_bad(error: ClientError, name: Seq<char>) -> bool {
    error matches ClientError::InvalidResponse { context } && context@ == bad_response(name)
}

/// Whether a response is what bytes stand for, or the error says that they stand
/// for none.
pub open spec fn is_read<T>(
    response: Result<Response<T>, ClientError>,
    expected: Option<Response<T>>,
    name: Seq<char>,
) -> bool {
    match expected {
        Some(expected) => response is Ok && response->Ok_0 == expected,
        None => response is Err && is_bad(response->Err_0, name),
    }
}

fn read_u64(bytes: &[u8], word: usize) -> (n: u64)
    requires
        word <= 4,
        4 * word + 8 <= bytes@.len(),
    ensures
        n == word64(bytes@, word as int),
{
    let lower: u64 = read_le_u32(bytes, 4 * word) as u64;
    let upper: u64 = read_le_u32(bytes, 4 * word + 4) as u64;
    lower + 0x1_0000_0000 * upper
}

/// The error that the `i`th number and the one after it stand for. The outer
/// `None` means that they stand for nothing.
pub open spec fn optional_error(bytes: Seq<u8>, i: int) -> Option<Option<IdNotFoundError>> {
    if word(bytes, i) == 0 {
        Some(Some(IdNotFoundError::Ring(word(bytes, i + 1))))
    } else if word(bytes, i) == 1 {
        Some(Some(IdNotFoundError::Entry(word(bytes, i + 1))))
    } else if word(bytes, i) == 2 {
        Some(None)
    } else {
        None
    }
}

fn read_optional_error(bytes: &[u8], i: usize) -> (error: Option<Option<IdNotFoundError>>)
    requires
        i <= 4,
        4 * i + 8 <= bytes@.len(),
    ensures
        error == optional_error(bytes@, i as int),
{
    let tag: u32 = read_le_u32(bytes, 4 * i);
    let value: u32 = read_le_u32(bytes, 4 * i + 4);
    if tag == 0 {
        Some(Some(IdNotFoundError::Ring(value)))
    } else if tag == 1 {
        Some(Some(IdNotFoundError::Entry(value)))
    } else if tag == 2 {
        Some(None)
    } else {
        None
    }
}

/// The two numbers that an error stands for.
pub open spec fn error_words(error: Option<IdNotFoundError>) -> Seq<u32> {
    match error {
        Some(IdNotFoundError::Ring(ring)) => seq![0, ring],
        Some(IdNotFoundError::Entry(entry)) => seq![1, entry],
        None => seq![2, 0],
    }
}

/// What the bytes of a response to an addition stand for.
pub open spec fn spec_read_add(bytes: Seq<u8>) -> Option<Response<AddResponse>> {
    if bytes.len() == ADD_RESPONSE_LEN && word(bytes, 2) == 0 {
        Some(
            Response {
                sequence_number: word64(bytes, 0),
                value: AddResponse::Success { id: word64(bytes, 4) },
            },
        )
    } else {
        None
    }
}

/// Reads the response to an addition.
pub fn read_add_response(bytes: &[u8]) -> (response: Result<Response<AddResponse>, ClientError>)
    ensures
        is_read(response, spec_read_add(bytes@), "AddResponse"@),
{
    if bytes.len() != ADD_RESPONSE_LEN || read_le_u32(bytes, 8) != 0 {
        return Err(invalid_response("AddResponse"));
    }
    Ok(
        Response {
            sequence_number: read_u64(bytes, 0),
            value: AddResponse::Success { id: read_u64(bytes, 4) },
        },
    )
}

/// The bytes of a response to an addition.
pub open spec fn add_response_image(response: Response<AddResponse>) -> Seq<u8> {
    let id = match response.value {
        AddResponse::Success { id } => id,
    };
    image(
        seq![
            low(response.sequence_number),
            high(response.sequence_number),
            0,
            0,
            low(id),
            high(id),
        ],
    )
}

/// What the bytes of a response to a move stand for.
pub open spec fn spec_read_move(bytes: Seq<u8>) -> Option<Response<MoveToFrontResponse>> {
    if bytes.len() != MOVE_TO_FRONT_RESPONSE_LEN {
        None
    } else if word(bytes, 2) == 0 {
        Some(
            Response {
                sequence_number: word64(bytes, 0),
                value: MoveToFrontResponse::Success { id: word64(bytes, 4) },
            },
        )
    } else if word(bytes, 2) == 1 && optional_error(bytes, 4) is Some && optional_error(
        bytes,
        4,
    )->0 is Some {
        Some(
            Response {
                sequence_number: word64(bytes, 0),
                value: MoveToFrontResponse::Error(optional_error(bytes, 4)->0->0),
            },
        )
    } else {
        None
    }
}

/// Reads the response to a move.
pub fn read_move_to_front_response(bytes: &[u8]) -> (response: Result<
    Response<MoveToFrontResponse>,
    ClientError,
>)
    ensures
        is_read(response, spec_read_move(bytes@), "MoveToFrontResponse"@),
{
    if bytes.len() != MOVE_TO_FRONT_RESPONSE_LEN {
        return Err(invalid_response("MoveToFrontResponse"));
    }
    let tag: u32 = read_le_u32(bytes, 8);
    let sequence_number: u64 = read_u64(bytes, 0);
    if tag == 0 {
        let value = MoveToFrontResponse::Success { id: read_u64(bytes, 4) };
        return Ok(Response { sequence_number, value });
    }
    if tag == 1 {
        if let Some(Some(error)) = read_optional_error(bytes, 4) {
            return Ok(Response { sequence_number, value: MoveToFrontResponse::Error(error) });
        }
    }
    Err(invalid_response("MoveToFrontResponse"))
}

/// The bytes of a response to a move.
pub open spec fn move_response_image(response: Response<MoveToFrontResponse>) -> Seq<u8> {
    let start = seq![low(response.sequence_number), high(response.sequence_number)];
    match response.value {
        MoveToFrontResponse::Success { id } => image(start + seq![0, 0, low(id), high(id)]),
        MoveToFrontResponse::Error(error) => image(start + seq![1, 0] + error_words(Some(error))),
    }
}

/// What the bytes of a response to a swap stand for.
pub open spec fn spec_read_swap(bytes: Seq<u8>) -> Option<Response<SwapResponse>> {
    if bytes.len() == SWAP_RESPONSE_LEN && optional_error(bytes, 2) is Some && optional_error(
        bytes,
        4,
    ) is Some {
        Some(
            Response {
                sequence_number: word64(bytes, 0),
                value: SwapResponse {
                    error1: optional_error(bytes, 2)->0,
                    error2: optional_error(bytes, 4)->0,
                },
            },
        )
    } else {
        None
    }
}

/// Reads the response to a swap.
pub fn read_swap_response(bytes: &[u8]) -> (response: Result<Response<SwapResponse>, ClientError>)
    ensures
        is_read(response, spec_read_swap(bytes@), "SwapResponse"@),
{
    if bytes.len() != SWAP_RESPONSE_LEN {
        return Err(invalid_response("SwapResponse"));
    }
    match (read_optional_error(bytes, 2), read_optional_error(bytes, 4)) {
        (Some(error1), Some(error2)) => Ok(
            Response {
                sequence_number: read_u64(bytes, 0),
                value: SwapResponse { error1, error2 },
            },
        ),
        _ => Err(invalid_response("SwapResponse")),
    }
}

/// The bytes of a response to a swap.
pub open spec fn swap_response_image(response: Response<SwapResponse>) -> Seq<u8> {
    image(
        seq![low(response.sequence_number), high(response.sequence_number)] + error_words(
            response.value.error1,
        ) + error_words(response.value.error2),
    )
}

/// What the bytes of a response to a removal stand for.
pub open spec fn spec_read_remove(bytes: Seq<u8>) -> Option<Response<RemoveResponse>> {
    if bytes.len() == REMOVE_RESPONSE_LEN && optional_error(bytes, 2) is Some {
        Some(
            Response {
                sequence_number: word64(bytes, 0),
                value: RemoveResponse { error: optional_error(bytes, 2)->0 },
            },
        )
    } else {
        None
    }
}

/// Reads the response to a removal.
pub fn read_remove_response(bytes: &[u8]) -> (response: Result<
    Response<RemoveResponse>,
    ClientError,
>)
    ensures
        is_read(response, spec_read_remove(bytes@), "RemoveResponse"@),
{
    if bytes.len() != REMOVE_RESPONSE_LEN {
        return Err(invalid_response("RemoveResponse"));
    }
    match read_optional_error(bytes, 2) {
        Some(error) => Ok(
            Response { sequence_number: read_u64(bytes, 0), value: RemoveResponse { error } },
        ),
        None => Err(invalid_response("RemoveResponse")),
    }
}

/// The bytes of a response to a removal.
pub open spec fn remove_response_image(response: Response<RemoveResponse>) -> Seq<u8> {
    image(
        seq![low(response.sequence_number), high(response.sequence_number)] + error_words(
            response.value.error,
        ),
    )
}

/// What the bytes of a response to a garbage collection stand for.
pub open spec fn spec_read_garbage_collect(bytes: Seq<u8>) -> Option<
    Response<GarbageCollectResponse>,
> {
    if bytes.len() == GARBAGE_COLLECT_RESPONSE_LEN {
        Some(
            Response {
                sequence_number: word64(bytes, 0),
                value: GarbageCollectResponse { bytes_freed: word64(bytes, 2) },
            },
        )
    } else {
        None
    }
}

/// Reads the response to a garbage collection.
pub fn read_garbage_collect_response(bytes: &[u8]) -> (response: Result<
    Response<GarbageCollectResponse>,
    ClientError,
>)
    ensures
        is_read(response, spec_read_garbage_collect(bytes@), "GarbageCollectResponse"@),
{
    if bytes.len() != GARBAGE_COLLECT_RESPONSE_LEN {
        return Err(invalid_response("GarbageCollectResponse"));
    }
    Ok(
        Response {
            sequence_number: read_u64(bytes, 0),
            value: GarbageCollectResponse { bytes_freed: read_u64(bytes, 2) },
        },
    )
}

/// The bytes of a response to a garbage collection.
pub open spec fn garbage_collect_response_image(response: Response<GarbageCollectResponse>) -> Seq<
    u8,
> {
    image(
        seq![
            low(response.sequence_number),
            high(response.sequence_number),
            low(response.value.bytes_freed),
            high(response.value.bytes_freed),
        ],
    )
}

/// A response to an addition is read back from its bytes.
pub proof fn lemma_add_response_round_trip(response: Response<AddResponse>)
    ensures
        spec_read_add(add_response_image(response)) == Some(response),
{
    let id = match response.value {
        AddResponse::Success { id } => id,
    };
    let n = response.sequence_number;
    lemma_words(seq![low(n), high(n), 0, 0, low(id), high(id)]);
}

/// A response to a move is read back from its bytes.
pub proof fn lemma_move_response_round_trip(response: Response<MoveToFrontResponse>)
    ensures
        spec_read_move(move_response_image(response)) == Some(response),
{
    let n = response.sequence_number;
    match response.value {
        MoveToFrontResponse::Success { id } => {
            lemma_words(seq![low(n), high(n)] + seq![0, 0, low(id), high(id)]);
        },
        MoveToFrontResponse::Error(error) => {
            lemma_words(seq![low(n), high(n)] + seq![1, 0] + error_words(Some(error)));
        },
    }
}

/// A response to a swap is read back from its bytes.
pub proof fn lemma_swap_response_round_trip(response: Response<SwapResponse>)
    ensures
        spec_read_swap(swap_response_image(response)) == Some(response),
{
    let n = response.sequence_number;
    lemma_words(
        seq![low(n), high(n)] + error_words(response.value.error1) + error_words(
            response.value.error2,
        ),
    );
}

/// A response to a removal is read back from its bytes.
pub proof fn lemma_remove_response_round_trip(response: Response<RemoveResponse>)
    ensures
        spec_read_remove(remove_response_image(response)) == Some(response),
{
    let n = response.sequence_number;
    lemma_words(seq![low(n), high(n)] + error_words(response.value.error));
}

/// A response to a garbage collection is read back from its bytes.
pub proof fn lemma_garbage_collect_response_round_trip(response: Response<GarbageCollectResponse>)
    ensures
        spec_read_garbage_collect(garbage_collect_response_image(response)) == Some(response),
{
    let n = response.sequence_number;
    let freed = response.value.bytes_freed;
    lemma_words(seq![low(n), high(n), low(freed), high(freed)]);
}

/// Checks what the server answers when a client connects: the version of the
/// protocol that it speaks.
pub fn check_version(bytes: &[u8]) -> (result: Result<(), ClientError>)
    ensures
        match result {
            Ok(()) => bytes@ == seq![VERSION],
            Err(ClientError::VersionMismatch { expected, actual }) => expected == VERSION && actual
                != VERSION && bytes@ == seq![actual],
            Err(error) => bytes@.len() != 1 && is_bad(error, "VersionResponse"@),
        },
{
    if bytes.len() != 1 {
        return Err(invalid_response("VersionResponse"));
    }
    let version: u8 = bytes[0];
    assert(bytes@ =~= seq![version]);
    if version != VERSION {
        return Err(ClientError::VersionMismatch { expected: VERSION, actual: version });
    }
    Ok(())
}

/// Checks a command that was sent to the paste server: `buf` has the length of a
/// command and starts with the version of the protocol, and `received` bytes of it
/// were sent. Another version is reported whatever the length.
pub fn read_paste_command(version: u8, buf: &[u8], received: usize) -> (result: Result<
    (),
    ClientError,
>)
    requires
        buf@.len() > 0,
    ensures
        match result {
            Ok(()) => buf@[0] == version && received == buf@.len(),
            Err(ClientError::VersionMismatch { expected, actual }) => expected == version && actual
                == buf@[0] && actual != version,
            Err(error) => buf@[0] == version && received != buf@.len() && is_bad(
                error,
                "paste command"@,
            ),
        },
{
    let actual: u8 = buf[0];
    if actual != version {
        return Err(ClientError::VersionMismatch { expected: version, actual });
    }
    if received != buf.len() {
        return Err(invalid_response("paste command"));
    }
    Ok(())
}

/// The number that bytes stand for, least significant byte first.
pub open spec fn number(bytes: Seq<u8>) -> int
    decreases bytes.len(),
{
    if bytes.len() == 0 {
        0
    } else {
        bytes[0] + 0x100 * number(bytes.drop_first())
    }
}

/// The number that the bytes of a message from `start` to `end` stand for.
pub open spec fn number_at(bytes: Seq<u8>, start: int, end: int) -> int {
    number(bytes.subrange(start, end))
}

proof fn lemma_number_at(bytes: Seq<u8>, start: int, end: int)
    requires
        0 <= start < end <= bytes.len(),
    ensures
        number_at(bytes, start, end) == bytes[start] + 0x100 * number_at(bytes, start + 1, end),
{
    assert(bytes.subrange(start, end).drop_first() =~= bytes.subrange(start + 1, end));
}

proof fn lemma_number_of_word(bytes: Seq<u8>, i: int)
    requires
        0 <= i,
        4 * i + 4 <= bytes.len(),
    ensures
        number_at(bytes, 4 * i, 4 * i + 4) == word(bytes, i),
{
    let at = 4 * i;
    lemma_number_at(bytes, at, at + 4);
    lemma_number_at(bytes, at + 1, at + 4);
    lemma_number_at(bytes, at + 2, at + 4);
    lemma_number_at(bytes, at + 3, at + 4);
    assert(number_at(bytes, at + 4, at + 4) == 0);
}

proof fn lemma_number_of_word64(bytes: Seq<u8>, i: int)
    requires
        0 <= i,
        4 * i + 8 <= bytes.len(),
    ensures
        number_at(bytes, 4 * i, 4 * i + 8) == word64(bytes, i),
{
    let at = 4 * i;
    lemma_number_at(bytes, at, at + 8);
    lemma_number_at(bytes, at + 1, at + 8);
    lemma_number_at(bytes, at + 2, at + 8);
    lemma_number_at(bytes, at + 3, at + 8);
    lemma_number_of_word(bytes, i);
    lemma_number_at(bytes, at, at + 4);
    lemma_number_at(bytes, at + 1, at + 4);
    lemma_number_at(bytes, at + 2, at + 4);
    lemma_number_at(bytes, at + 3, at + 4);
    assert(number_at(bytes, at + 4, at + 4) == 0);
    lemma_number_of_word(bytes, i + 1);
}

/// A request says in its first bytes what it asks for and from the ninth byte on of what, each
/// number with the least significant byte first.
pub proof fn lemma_request_is_laid_out(request: Request, bytes: Vec<u8>)
    requires
        call_ensures(Request::as_bytes, (&request,), bytes),
    ensures
        bytes@.len() == 112,
        number_at(bytes@, 0, 8) == match request {
            Request::Add { .. } => 0int,
            Request::MoveToFront { .. } => 1,
            Request::Swap { .. } => 2,
            Request::Remove { .. } => 3,
            Request::GarbageCollect { .. } => 4,
        },
        match request {
            Request::Add { to, mime_type } => {
                let mime = encode_utf8(crate::protocol::mime_text(mime_type));
                &&& number_at(bytes@, 8, 12) == if to == RingKind::Main {
                    1int
                } else {
                    0
                }
                &&& number_at(bytes@, 12, 16) == mime.len()
                &&& bytes@.subrange(16, 16 + mime.len() as int) == mime
                &&& forall|i: int| 16 + mime.len() <= i < 112 ==> #[trigger] bytes@[i] == 0
            },
            Request::MoveToFront { id, to } => {
                &&& number_at(bytes@, 8, 16) == id
                &&& number_at(bytes@, 16, 20) == match to {
                    Some(RingKind::Favorites) => 0int,
                    Some(RingKind::Main) => 1,
                    None => 2,
                }
                &&& forall|i: int| 20 <= i < 112 ==> #[trigger] bytes@[i] == 0
            },
            Request::Swap { id1, id2 } => {
                &&& number_at(bytes@, 8, 16) == id1
                &&& number_at(bytes@, 16, 24) == id2
                &&& forall|i: int| 24 <= i < 112 ==> #[trigger] bytes@[i] == 0
            },
            Request::Remove { id } => {
                &&& number_at(bytes@, 8, 16) == id
                &&& forall|i: int| 16 <= i < 112 ==> #[trigger] bytes@[i] == 0
            },
            Request::GarbageCollect { max_wasted_bytes } => {
                &&& number_at(bytes@, 8, 16) == max_wasted_bytes
                &&& forall|i: int| 16 <= i < 112 ==> #[trigger] bytes@[i] == 0
            },
        },
{
    lemma_request_numbers(request, bytes@, 0);
    lemma_request_numbers(request, bytes@, 2);
    match request {
        Request::Add { to, mime_type } => {
            let mime = encode_utf8(crate::protocol::mime_text(mime_type));
            lemma_request_numbers(request, bytes@, 3);
            assert(bytes@.subrange(16, 16 + mime.len() as int) =~= mime);
        },
        Request::MoveToFront { .. } => {
            lemma_request_numbers(request, bytes@, 4);
        },
        Request::Swap { .. } => {
            lemma_request_numbers(request, bytes@, 4);
        },
        Request::Remove { .. } => {},
        Request::GarbageCollect { .. } => {},
    }
}

proof fn lemma_request_numbers(request: Request, bytes: Seq<u8>, i: int)
    requires
        mime_fits(request),
        bytes == request_bytes(request),
        0 <= i < request_words(request).len(),
    ensures
        bytes.len() == 112,
        image(request_words(request)).len() == 4 * request_words(request).len(),
        number_at(bytes, 4 * i, 4 * i + 4) == request_words(request)[i],
        i + 1 < request_words(request).len() ==> number_at(bytes, 4 * i, 4 * i + 8)
            == request_words(request)[i] + 0x1_0000_0000 * request_words(request)[i + 1],
{
    let words = request_words(request);
    lemma_request_words(request);
    lemma_words(words);
    lemma_number_of_word(bytes, i);
    assert(word(bytes, i) == words[i]);
    if i + 1 < words.len() {
        lemma_number_of_word64(bytes, i);
        assert(word(bytes, i + 1) == words[i + 1]);
    }
}

/// A response to an addition starts with its place in the order of all responses and ends with
/// the ID of what was added.
pub proof fn lemma_add_response_is_laid_out(
    bytes: &[u8],
    response: Result<Response<AddResponse>, ClientError>,
)
    requires
        call_ensures(read_add_response, (bytes,), response),
    ensures
        response is Ok <==> bytes@.len() == 24 && number_at(bytes@, 8, 12) == 0,
        response matches Ok(Response { sequence_number, value: AddResponse::Success { id } }) ==> {
            &&& sequence_number == number_at(bytes@, 0, 8)
            &&& id == number_at(bytes@, 16, 24)
        },
{
    if bytes@.len() == 24 {
        lemma_number_of_word64(bytes@, 0);
        lemma_number_of_word64(bytes@, 4);
        lemma_number_of_word(bytes@, 2);
    }
}

/// Whether an error is what the bytes from `start` on say: its kind and what could not be
/// found, each in four bytes.
pub open spec fn is_error_at(error: Option<IdNotFoundError>, bytes: Seq<u8>, start: int) -> bool {
    let kind = number_at(bytes, start, start + 4);
    let value = number_at(bytes, start + 4, start + 8);
    match error {
        Some(IdNotFoundError::Ring(ring)) => kind == 0 && ring == value,
        Some(IdNotFoundError::Entry(entry)) => kind == 1 && entry == value,
        None => kind == 2,
    }
}

proof fn lemma_error_at(bytes: Seq<u8>, i: int)
    requires
        0 <= i,
        4 * i + 8 <= bytes.len(),
    ensures
        optional_error(bytes, i) matches Some(error) ==> is_error_at(error, bytes, 4 * i),
        optional_error(bytes, i) is Some <==> number_at(bytes, 4 * i, 4 * i + 4) <= 2,
{
    lemma_number_of_word(bytes, i);
    lemma_number_of_word(bytes, i + 1);
}

/// A response to a move starts with its place in the order of all responses and ends with the
/// new ID, or with what could not be found.
pub proof fn lemma_move_response_is_laid_out(
    bytes: &[u8],
    response: Result<Response<MoveToFrontResponse>, ClientError>,
)
    requires
        call_ensures(read_move_to_front_response, (bytes,), response),
    ensures
        response is Ok <==> bytes@.len() == 24 && (number_at(bytes@, 8, 12) == 0 || number_at(
            bytes@,
            8,
            12,
        ) == 1 && number_at(bytes@, 16, 20) <= 1),
        response matches Ok(Response { sequence_number, value }) ==> sequence_number == number_at(
            bytes@,
            0,
            8,
        ) && match value {
            MoveToFrontResponse::Success { id } => number_at(bytes@, 8, 12) == 0 && id
                == number_at(bytes@, 16, 24),
            MoveToFrontResponse::Error(error) => number_at(bytes@, 8, 12) == 1 && is_error_at(
                Some(error),
                bytes@,
                16,
            ),
        },
{
    if bytes@.len() == 24 {
        lemma_number_of_word64(bytes@, 0);
        lemma_number_of_word64(bytes@, 4);
        lemma_number_of_word(bytes@, 2);
        lemma_number_of_word(bytes@, 4);
        lemma_error_at(bytes@, 4);
    }
}

/// A response to a swap starts with its place in the order of all responses. What went wrong
/// with the first entry follows, then what did with the second.
pub proof fn lemma_swap_response_is_laid_out(
    bytes: &[u8],
    response: Result<Response<SwapResponse>, ClientError>,
)
    requires
        call_ensures(read_swap_response, (bytes,), response),
    ensures
        response is Ok <==> bytes@.len() == 24 && number_at(bytes@, 8, 12) <= 2 && number_at(
            bytes@,
            16,
            20,
        ) <= 2,
        response matches Ok(Response { sequence_number, value }) ==> {
            &&& sequence_number == number_at(bytes@, 0, 8)
            &&& is_error_at(value.error1, bytes@, 8)
            &&& is_error_at(value.error2, bytes@, 16)
        },
{
    if bytes@.len() == 24 {
        lemma_number_of_word64(bytes@, 0);
        lemma_error_at(bytes@, 2);
        lemma_error_at(bytes@, 4);
    }
}

/// A response to a removal starts with its place in the order of all responses and ends with
/// what went wrong.
pub proof fn lemma_remove_response_is_laid_out(
    bytes: &[u8],
    response: Result<Response<RemoveResponse>, ClientError>,
)
    requires
        call_ensures(read_remove_response, (bytes,), response),
    ensures
        response is Ok <==> bytes@.len() == 16 && number_at(bytes@, 8, 12) <= 2,
        response matches Ok(Response { sequence_number, value }) ==> {
            &&& sequence_number == number_at(bytes@, 0, 8)
            &&& is_error_at(value.error, bytes@, 8)
        },
{
    if bytes@.len() == 16 {
        lemma_number_of_word64(bytes@, 0);
        lemma_error_at(bytes@, 2);
    }
}

/// A response to a garbage collection starts with its place in the order of all responses and
/// ends with how many bytes were freed.
pub proof fn lemma_garbage_collect_response_is_laid_out(
    bytes: &[u8],
    response: Result<Response<GarbageCollectResponse>, ClientError>,
)
    requires
        call_ensures(read_garbage_collect_response, (bytes,), response),
    ensures
        response is Ok <==> bytes@.len() == 16,
        response matches Ok(Response { sequence_number, value }) ==> {
            &&& sequence_number == number_at(bytes@, 0, 8)
            &&& value.bytes_freed == number_at(bytes@, 8, 16)
        },
{
    if bytes@.len() == 16 {
        lemma_number_of_word64(bytes@, 0);
        lemma_number_of_word64(bytes@, 2);
    }
}

/// A server that speaks the version of the client is talked to, and no other is; what it
/// answered is told.
pub proof fn lemma_version_is_checked(bytes: &[u8], result: Result<(), ClientError>)
    requires
        call_ensures(check_version, (bytes,), result),
    ensures
        result is Ok <==> bytes@.len() == 1 && bytes@[0] == 0,
        result matches Err(ClientError::VersionMismatch { expected, actual }) ==> expected == 0
            && bytes@.len() == 1 && actual == bytes@[0],
        bytes@.len() == 1 && bytes@[0] != 0 ==> (result matches Err(
            ClientError::VersionMismatch { .. },
        )),
{
    if bytes@.len() == 1 {
        assert(bytes@ =~= seq![bytes@[0]]);
    }
}

/// Contents that are not in a regular file are copied into one first.
pub proof fn lemma_other_files_are_copied(mode: u32, copy: bool)
    requires
        call_ensures(AddRequest::needs_copy, (mode,), copy),
    ensures
        !copy <==> mode & 0o170_000 == 0o100_000,
{
    assert((mode & 0xf000 == 0x8000) == (mode / 0x1000 % 0x10 == 8)) by (bit_vector);
}

} // verus!
