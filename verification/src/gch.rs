//! Importing the log of the Gnome Clipboard History extension.
//!
//! The log is a sequence of operations. Texts are numbered from one in the order
//! in which they were saved; later operations refer to these numbers.

use vstd::prelude::*;

use crate::protocol::RingKind;
use crate::ring::read_le_u32;

verus! {

pub const OP_TYPE_SAVE_TEXT: u8 = 1;

pub const OP_TYPE_DELETE_TEXT: u8 = 2;

pub const OP_TYPE_FAVORITE_ITEM: u8 = 3;

pub const OP_TYPE_UNFAVORITE_ITEM: u8 = 4;

pub const OP_TYPE_MOVE_ITEM_TO_END: u8 = 5;

/// An operation of the log.
#[derive(Copy, Clone, Eq, PartialEq, Debug, Structural)]
pub enum LogOp {
    /// A text was saved: its bytes lie from `start` on in the log.
    Save { start: usize, len: usize },
    /// The text with this number, counted from zero, was deleted.
    Delete { text: u32 },
    /// The text with this number was moved to the end, possibly of another ring.
    Move { text: u32, to: Option<RingKind> },
}

/// Why the log cannot be read.
#[derive(Copy, Clone, Eq, PartialEq, Debug, Structural)]
pub enum LogError {
    /// A text is not terminated.
    Unterminated,
    /// There is no such operation. The byte that follows is shown, if any.
    UnknownOperation { following: Option<u8> },
    /// The log ends within a number.
    Truncated,
    /// Texts are numbered from one, so none has this number.
    NumberZero,
    /// No text with this number was saved.
    UnknownText,
}

/// The first zero byte from `at` on, or the end of the bytes.
pub open spec fn zero_from(bytes: Seq<u8>, at: int) -> int
    decreases bytes.len() - at,
{
    if at >= bytes.len() || bytes[at] == 0 {
        at
    } else {
        zero_from(bytes, at + 1)
    }
}

/// The number at a position of the log, counted from zero.
pub open spec fn spec_text_number(bytes: Seq<u8>, at: int) -> Result<u32, LogError> {
    if at + 4 > bytes.len() {
        Err(LogError::Truncated)
    } else {
        let number = crate::ring::le_u32(bytes.subrange(at, at + 4));
        if number == 0 {
            Err(LogError::NumberZero)
        } else {
            Ok((number - 1) as u32)
        }
    }
}

/// The ring that an operation moves a text to.
pub open spec fn move_target(op: u8) -> Option<RingKind> {
    if op == OP_TYPE_FAVORITE_ITEM {
        Some(RingKind::Favorites)
    } else if op == OP_TYPE_UNFAVORITE_ITEM {
        Some(RingKind::Main)
    } else {
        None
    }
}

/// The operation at a position of the log, and where the next one starts.
pub open spec fn spec_read_op(bytes: Seq<u8>, at: int) -> Result<(LogOp, int), LogError> {
    let op = bytes[at];
    if op == OP_TYPE_SAVE_TEXT {
        let end = zero_from(bytes, at + 1);
        if end >= bytes.len() {
            Err(LogError::Unterminated)
        } else {
            Ok(
                (
                    LogOp::Save { start: (at + 1) as usize, len: (end - at - 1) as usize },
                    end + 1,
                ),
            )
        }
    } else if op == OP_TYPE_DELETE_TEXT {
        match spec_text_number(bytes, at + 1) {
            Err(error) => Err(error),
            Ok(text) => Ok((LogOp::Delete { text }, at + 5)),
        }
    } else if OP_TYPE_FAVORITE_ITEM <= op <= OP_TYPE_MOVE_ITEM_TO_END {
        match spec_text_number(bytes, at + 1) {
            Err(error) => Err(error),
            Ok(text) => Ok((LogOp::Move { text, to: move_target(op) }, at + 5)),
        }
    } else {
        Err(
            LogError::UnknownOperation {
                following: if at + 1 < bytes.len() {
                    Some(bytes[at + 1])
                } else {
                    None
                },
            },
        )
    }
}

proof fn lemma_zero_from(bytes: Seq<u8>, from: int, at: int)
    requires
        0 <= from <= at <= bytes.len(),
        forall|i: int| from <= i < at ==> #[trigger] bytes[i] != 0,
        at < bytes.len() ==> bytes[at] == 0,
    ensures
        zero_from(bytes, from) == at,
    decreases at - from,
{
    if from < at {
        lemma_zero_from(bytes, from + 1, at);
    }
}

fn read_text_number(bytes: &[u8], at: usize) -> (text: Result<u32, LogError>)
    requires
        at <= bytes@.len(),
    ensures
        text == spec_text_number(bytes@, at as int),
{
    if bytes.len() - at < 4 {
        return Err(LogError::Truncated);
    }
    let number: u32 = read_le_u32(bytes, at);
    if number == 0 {
        Err(LogError::NumberZero)
    } else {
        Ok(number - 1)
    }
}

/// Reads the operation at a position of the log.
pub fn read_op(bytes: &[u8], at: usize) -> (op: Result<(LogOp, usize), LogError>)
    requires
        at < bytes@.len(),
    ensures
        match op {
            Ok((op, next)) => spec_read_op(bytes@, at as int) == Ok::<(LogOp, int), LogError>(
                (op, next as int),
            ) && at < next <= bytes@.len(),
            Err(error) => spec_read_op(bytes@, at as int) == Err::<(LogOp, int), LogError>(error),
        },
{
    let op: u8 = bytes[at];
    match op {
        1 => {
            let mut end: usize = at + 1;
            while end < bytes.len() && bytes[end] != 0
                invariant
                    at + 1 <= end <= bytes@.len(),
                    forall|i: int| at + 1 <= i < end ==> #[trigger] bytes@[i] != 0,
                decreases bytes@.len() - end,
            {
                end += 1;
            }
            proof {
                lemma_zero_from(bytes@, at + 1, end as int);
            }
            if end == bytes.len() {
                Err(LogError::Unterminated)
            } else {
                Ok((LogOp::Save { start: at + 1, len: end - at - 1 }, end + 1))
            }
        },
        2 => match read_text_number(bytes, at + 1) {
            Err(error) => Err(error),
            Ok(text) => Ok((LogOp::Delete { text }, at + 5)),
        },
        3 | 4 | 5 => match read_text_number(bytes, at + 1) {
            Err(error) => Err(error),
            Ok(text) => {
                let to = match op {
                    3 => Some(RingKind::Favorites),
                    4 => Some(RingKind::Main),
                    _ => None,
                };
                Ok((LogOp::Move { text, to }, at + 5))
            },
        },
        _ => {
            let following = if at + 1 < bytes.len() {
                Some(bytes[at + 1])
            } else {
                None
            };
            Err(LogError::UnknownOperation { following })
        },
    }
}

/// What the server is asked for next.
#[derive(Copy, Clone, Eq, PartialEq, Debug, Structural)]
pub enum ImportAction {
    /// Add the text at these bytes of the log.
    Add { start: usize, len: usize },
    /// Wait for the responses to the texts added so far: one of their IDs is
    /// needed.
    AwaitAdded,
    Remove { id: u64 },
    MoveToFront { id: u64, to: Option<RingKind> },
    Done,
}

/// An import in progress: where it stands in the log, and the ID that each text
/// of the log has by now.
pub struct LogImport<'a> {
    bytes: &'a [u8],
    at: usize,
    added: usize,
    translation: Vec<u64>,
    moving: Option<usize>,
}

impl<'a> LogImport<'a> {
    pub closed spec fn log(self) -> Seq<u8> {
        self.bytes@
    }

    /// Where the next operation starts.
    pub closed spec fn position(self) -> int {
        self.at as int
    }

    /// How many texts were added.
    pub closed spec fn added(self) -> int {
        self.added as int
    }

    /// The IDs of the texts whose responses have come.
    pub closed spec fn translation(self) -> Seq<u64> {
        self.translation@
    }

    /// The text that is being moved.
    pub closed spec fn moving(self) -> Option<int> {
        match self.moving {
            Some(text) => Some(text as int),
            None => None,
        }
    }

    pub open spec fn wf(self) -> bool {
        &&& 0 <= self.position() <= self.log().len()
        &&& self.translation().len() <= self.added() <= self.position()
        &&& self.moving() matches Some(text) ==> 0 <= text < self.translation().len()
    }

    /// Begins to import a log.
    pub fn new(bytes: &'a [u8]) -> (import: LogImport<'a>)
        ensures
            import.wf(),
            import.log() == bytes@,
            import.position() == 0,
            import.added() == 0,
            import.translation() == Seq::<u64>::empty(),
            import.moving() is None,
    {
        LogImport { bytes, at: 0, added: 0, translation: Vec::new(), moving: None }
    }

    /// Carries on with the next operation. Operations on a text whose ID is not
    /// known yet are put off until it is.
    pub fn next(&mut self) -> (action: Result<ImportAction, LogError>)
        requires
            old(self).wf(),
            old(self).moving() is None,
        ensures
            final(self).log() == old(self).log(),
            final(self).translation() == old(self).translation(),
            action is Ok ==> final(self).wf(),
            ({
                let at = old(self).position();
                let log = old(self).log();
                let known = old(self).translation();
                if at == log.len() {
                    action == Ok::<ImportAction, LogError>(ImportAction::Done) && *final(self)
                        == *old(self)
                } else {
                    match spec_read_op(log, at) {
                        Err(error) => action == Err::<ImportAction, LogError>(error),
                        Ok((LogOp::Save { start, len }, next)) => {
                            &&& action == Ok::<ImportAction, LogError>(
                                ImportAction::Add { start, len },
                            )
                            &&& final(self).position() == next
                            &&& final(self).added() == old(self).added() + 1
                            &&& final(self).moving() is None
                        },
                        Ok((LogOp::Delete { text }, next)) => if text < known.len() {
                            &&& action == Ok::<ImportAction, LogError>(
                                ImportAction::Remove { id: known[text as int] },
                            )
                            &&& final(self).position() == next
                            &&& final(self).added() == old(self).added()
                            &&& final(self).moving() is None
                        } else {
                            awaits_or_fails(*old(self), *final(self), action)
                        },
                        Ok((LogOp::Move { text, to }, next)) => if text < known.len() {
                            &&& action == Ok::<ImportAction, LogError>(
                                ImportAction::MoveToFront { id: known[text as int], to },
                            )
                            &&& final(self).position() == next
                            &&& final(self).added() == old(self).added()
                            &&& final(self).moving() == Some(text as int)
                        } else {
                            awaits_or_fails(*old(self), *final(self), action)
                        },
                    }
                }
            }),
    {
        if self.at == self.bytes.len() {
            return Ok(ImportAction::Done);
        }
        let (op, next) = match read_op(self.bytes, self.at) {
            Ok(read) => read,
            Err(error) => return Err(error),
        };
        let text: u32 = match op {
            LogOp::Save { start, len } => {
                self.at = next;
                self.added = self.added + 1;
                return Ok(ImportAction::Add { start, len });
            },
            LogOp::Delete { text } => text,
            LogOp::Move { text, .. } => text,
        };
        let known: usize = self.translation.len();
        if text as usize >= known {
            return if known < self.added {
                Ok(ImportAction::AwaitAdded)
            } else {
                Err(LogError::UnknownText)
            };
        }
        let id: u64 = self.translation[text as usize];
        self.at = next;
        match op {
            LogOp::Move { to, .. } => {
                self.moving = Some(text as usize);
                Ok(ImportAction::MoveToFront { id, to })
            },
            _ => Ok(ImportAction::Remove { id }),
        }
    }

    /// The server has added the next text.
    pub fn text_added(&mut self, id: u64)
        requires
            old(self).wf(),
            old(self).translation().len() < old(self).added(),
        ensures
            final(self).wf(),
            final(self).translation() == old(self).translation().push(id),
            final(self).log() == old(self).log(),
            final(self).position() == old(self).position(),
            final(self).added() == old(self).added(),
            final(self).moving() == old(self).moving(),
    {
        self.translation.push(id);
    }

    /// The server has moved the text that was to be moved: it has a new ID.
    pub fn text_moved(&mut self, id: u64)
        requires
            old(self).wf(),
            old(self).moving() is Some,
        ensures
            final(self).wf(),
            final(self).translation() == old(self).translation().update(
                old(self).moving()->0,
                id,
            ),
            final(self).log() == old(self).log(),
            final(self).position() == old(self).position(),
            final(self).added() == old(self).added(),
            final(self).moving() is None,
    {
        if let Some(text) = self.moving {
            self.translation.set(text, id);
        }
        self.moving = None;
    }

    /// How many responses to added texts are outstanding.
    pub fn outstanding(&self) -> (outstanding: usize)
        requires
            self.wf(),
        ensures
            outstanding == self.added() - self.translation().len(),
    {
        self.added - self.translation.len()
    }
}

/// An operation on a text whose ID is not known waits for it, if it can come.
pub open spec fn awaits_or_fails(
    before: LogImport,
    after: LogImport,
    action: Result<ImportAction, LogError>,
) -> bool {
    &&& after == before
    &&& action == if before.translation().len() < before.added() {
        Ok::<ImportAction, LogError>(ImportAction::AwaitAdded)
    } else {
        Err::<ImportAction, LogError>(LogError::UnknownText)
    }
}

/// Once all responses have come, no operation waits for one: the import goes on
/// until the end of the log or an error.
pub proof fn lemma_import_progresses(
    before: LogImport,
    after: LogImport,
    action: Result<ImportAction, LogError>,
)
    requires
        before.translation().len() == before.added(),
        awaits_or_fails(before, after, action),
    ensures
        action == Err::<ImportAction, LogError>(LogError::UnknownText),
{
}

/// A text that was saved to the log is read back from it, wherever it stands and
/// whatever follows: the range that is read is the text, and the next operation starts
/// right after the zero byte that ends it.
pub proof fn lemma_saved_text_is_read(before: Seq<u8>, text: Seq<u8>, after: Seq<u8>)
    requires
        forall|i: int| 0 <= i < text.len() ==> #[trigger] text[i] != 0,
        before.len() + text.len() + after.len() + 2 <= usize::MAX,
    ensures
        ({
            let log = before + seq![1u8] + text + seq![0u8] + after;
            match spec_read_op(log, before.len() as int) {
                Ok((LogOp::Save { start, len }, next)) => {
                    &&& start + len <= log.len()
                    &&& log.subrange(start as int, start + len) == text
                    &&& log.subrange(next, log.len() as int) == after
                    &&& next == before.len() + text.len() + 2
                },
                _ => false,
            }
        }),
{
    let log = before + seq![1u8] + text + seq![0u8] + after;
    let at = before.len() as int;
    let end = at + 1 + text.len();
    assert(log[at] == 1);
    assert(forall|i: int| at + 1 <= i < end ==> #[trigger] log[i] == text[i - at - 1]);
    assert(log[end] == 0);
    lemma_zero_from(log, at + 1, end);
    assert(log.subrange(at + 1, end) =~= text);
    assert(log.subrange(end + 1, log.len() as int) =~= after);
}

/// A text that the log does not end is not read.
pub proof fn lemma_unfinished_text_is_refused(before: Seq<u8>, text: Seq<u8>)
    requires
        forall|i: int| 0 <= i < text.len() ==> #[trigger] text[i] != 0,
    ensures
        spec_read_op(before + seq![1u8] + text, before.len() as int) == Err::<
            (LogOp, int),
            LogError,
        >(LogError::Unterminated),
{
    let log = before + seq![1u8] + text;
    let at = before.len() as int;
    assert(log[at] == 1);
    assert(forall|i: int| at + 1 <= i < log.len() ==> #[trigger] log[i] == text[i - at - 1]);
    lemma_zero_from(log, at + 1, log.len() as int);
}

/// Deleting a text, making it a favorite or none, and moving it to the end are read as
/// such. The number of the text has its lowest byte first and counts from one.
pub proof fn lemma_operation_on_text_is_read(
    before: Seq<u8>,
    op: u8,
    text: u32,
    after: Seq<u8>,
)
    requires
        2 <= op <= 5,
        text < u32::MAX,
    ensures
        ({
            let number = text + 1;
            let log = before + seq![
                op,
                (number % 0x100) as u8,
                (number / 0x100 % 0x100) as u8,
                (number / 0x1_0000 % 0x100) as u8,
                (number / 0x100_0000) as u8,
            ] + after;
            match spec_read_op(log, before.len() as int) {
                Ok((read, next)) => {
                    &&& next == before.len() + 5
                    &&& log.subrange(next, log.len() as int) == after
                    &&& op == 2 ==> read == (LogOp::Delete { text })
                    &&& op == 3 ==> read == (LogOp::Move { text, to: Some(RingKind::Favorites) })
                    &&& op == 4 ==> read == (LogOp::Move { text, to: Some(RingKind::Main) })
                    &&& op == 5 ==> read == (LogOp::Move { text, to: None })
                },
                Err(_) => false,
            }
        }),
{
    let number = (text + 1) as u32;
    let bytes = seq![
        (number as int % 0x100) as u8,
        (number as int / 0x100 % 0x100) as u8,
        (number as int / 0x1_0000 % 0x100) as u8,
        (number as int / 0x100_0000) as u8,
    ];
    let log = before + seq![op, bytes[0], bytes[1], bytes[2], bytes[3]] + after;
    let at = before.len() as int;
    assert(log[at] == op);
    assert(log.subrange(at + 1, at + 5) =~= bytes);
    assert(log.subrange(at + 5, log.len() as int) =~= after);
    assert(crate::ring::le_u32(bytes) == number);
}

/// Texts are numbered from one, and a number is never cut short.
pub proof fn lemma_no_text_without_number(log: Seq<u8>, at: int)
    requires
        0 <= at < log.len(),
        2 <= log[at] <= 5,
    ensures
        log.len() < at + 5 ==> spec_read_op(log, at) == Err::<(LogOp, int), LogError>(
            LogError::Truncated,
        ),
        log.len() >= at + 5 && log[at + 1] == 0 && log[at + 2] == 0 && log[at + 3] == 0 && log[at
            + 4] == 0 ==> spec_read_op(log, at) == Err::<(LogOp, int), LogError>(
            LogError::NumberZero,
        ),
{
    if log.len() >= at + 5 {
        let bytes = log.subrange(at + 1, at + 5);
        assert(bytes[0] == log[at + 1] && bytes[1] == log[at + 2] && bytes[2] == log[at + 3]
            && bytes[3] == log[at + 4]);
    }
}

/// Only five bytes begin an operation.
pub proof fn lemma_other_operations_are_refused(log: Seq<u8>, at: int)
    requires
        0 <= at < log.len(),
    ensures
        !(1 <= log[at] <= 5) ==> (spec_read_op(log, at) matches Err(
            LogError::UnknownOperation { following },
        ) && (following is Some <==> at + 1 < log.len()) && (following matches Some(byte) ==> byte
            == log[at + 1])),
        1 <= log[at] <= 5 ==> !(spec_read_op(log, at) matches Err(LogError::UnknownOperation { .. })),
{
}

/// A text that was saved is added to the server next, exactly its bytes, and the import goes
/// on right after it.
pub proof fn lemma_saved_text_is_added(
    import: &mut LogImport<'_>,
    before: Seq<u8>,
    text: Seq<u8>,
    after: Seq<u8>,
    action: Result<ImportAction, LogError>,
)
    requires
        forall|i: int| 0 <= i < text.len() ==> #[trigger] text[i] != 0,
        before.len() + text.len() + after.len() + 2 <= usize::MAX,
        old(import).log() == before + seq![1u8] + text + seq![0u8] + after,
        old(import).position() == before.len(),
        call_ensures(LogImport::next, (import,), action),
    ensures
        action matches Ok(ImportAction::Add { start, len }) && start + len <= old(import).log().len()
            && old(import).log().subrange(start as int, start + len) == text,
        final(import).position() == before.len() + text.len() + 2,
        final(import).added() == old(import).added() + 1,
        final(import).translation() == old(import).translation(),
{
    lemma_saved_text_is_read(before, text, after);
}

/// An operation on a text whose ID is known is carried out on the entry with that ID, and the
/// import goes on right after it. The text is removed if the operation deletes it, and moved
/// otherwise: to the ring that the operation names, if it names one.
pub proof fn lemma_operation_is_carried_out(
    import: &mut LogImport<'_>,
    before: Seq<u8>,
    op: u8,
    text: u32,
    after: Seq<u8>,
    action: Result<ImportAction, LogError>,
)
    requires
        2 <= op <= 5,
        text < old(import).translation().len(),
        text < u32::MAX,
        ({
            let number = text + 1;
            old(import).log() == before + seq![
                op,
                (number % 0x100) as u8,
                (number / 0x100 % 0x100) as u8,
                (number / 0x1_0000 % 0x100) as u8,
                (number / 0x100_0000) as u8,
            ] + after
        }),
        old(import).position() == before.len(),
        call_ensures(LogImport::next, (import,), action),
    ensures
        ({
            let id = old(import).translation()[text as int];
            &&& op == 2 ==> action == Ok::<ImportAction, LogError>(ImportAction::Remove { id })
            &&& op == 3 ==> action == Ok::<ImportAction, LogError>(
                ImportAction::MoveToFront { id, to: Some(RingKind::Favorites) },
            )
            &&& op == 4 ==> action == Ok::<ImportAction, LogError>(
                ImportAction::MoveToFront { id, to: Some(RingKind::Main) },
            )
            &&& op == 5 ==> action == Ok::<ImportAction, LogError>(
                ImportAction::MoveToFront { id, to: None },
            )
        }),
        final(import).position() == before.len() + 5,
        final(import).translation() == old(import).translation(),
        op > 2 ==> final(import).moving() == Some(text as int),
{
    lemma_operation_on_text_is_read(before, op, text, after);
}

/// An operation on a text whose ID has yet to come is put off, and one on a text that was never
/// saved is refused.
pub proof fn lemma_operation_waits_for_text(
    import: &mut LogImport<'_>,
    before: Seq<u8>,
    op: u8,
    text: u32,
    after: Seq<u8>,
    action: Result<ImportAction, LogError>,
)
    requires
        2 <= op <= 5,
        old(import).wf(),
        old(import).translation().len() <= text < u32::MAX,
        ({
            let number = text + 1;
            old(import).log() == before + seq![
                op,
                (number % 0x100) as u8,
                (number / 0x100 % 0x100) as u8,
                (number / 0x1_0000 % 0x100) as u8,
                (number / 0x100_0000) as u8,
            ] + after
        }),
        old(import).position() == before.len(),
        call_ensures(LogImport::next, (import,), action),
    ensures
        text < old(import).added() ==> action == Ok::<ImportAction, LogError>(
            ImportAction::AwaitAdded,
        ) && *final(import) == *old(import),
        old(import).translation().len() == old(import).added() ==> action == Err::<
            ImportAction,
            LogError,
        >(LogError::UnknownText),
{
    lemma_operation_on_text_is_read(before, op, text, after);
}

/// Texts get the IDs of the responses in order, and a text that was moved gets its new one;
/// the IDs of all others stay.
pub proof fn lemma_texts_keep_their_ids(import: &mut LogImport<'_>, id: u64, other: int)
    requires
        0 <= other < old(import).translation().len(),
        old(import).wf(),
    ensures
        call_ensures(LogImport::text_added, (import, id), ()) ==> {
            &&& final(import).translation()[old(import).translation().len() as int] == id
            &&& final(import).translation()[other] == old(import).translation()[other]
        },
        call_ensures(LogImport::text_moved, (import, id), ()) && old(import).moving() is Some ==> {
            &&& final(import).translation()[old(import).moving()->0] == id
            &&& other != old(import).moving()->0 ==> final(import).translation()[other]
                == old(import).translation()[other]
        },
{
}

} // verus!
