//! The lock file that keeps a server or client the only one of its kind.

use vstd::prelude::*;
use vstd::utf8::*;

use crate::error::ParsePidError;
use crate::text::str_from_utf8;

verus! {

/// What to do if another process holds the lock.
#[derive(Copy, Clone, Eq, PartialEq, Debug, Structural)]
pub enum LockAlreadyOwnedActionKind {
    SendQuitAndWait,
    SendKillAndTakeover,
    LeaveBe,
}

/// A choice of what to do if another process holds the lock.
pub trait LockAlreadyOwnedAction {
    /// The choice.
    spec fn spec_kind(&self) -> LockAlreadyOwnedActionKind;

    fn kind(&self) -> (kind: LockAlreadyOwnedActionKind)
        ensures
            kind == self.spec_kind(),
    ;
}

/// Ask the other process to quit, and wait until it has.
#[derive(Copy, Clone, Debug)]
pub struct SendQuitAndWait;

/// Ask the other process to terminate, and take over at once.
#[derive(Copy, Clone, Debug)]
pub struct SendKillAndTakeover;

/// Leave the other process alone.
#[derive(Copy, Clone, Debug)]
pub struct LeaveBe;

impl LockAlreadyOwnedAction for SendQuitAndWait {
    open spec fn spec_kind(&self) -> LockAlreadyOwnedActionKind {
        LockAlreadyOwnedActionKind::SendQuitAndWait
    }

    fn kind(&self) -> (kind: LockAlreadyOwnedActionKind) {
        LockAlreadyOwnedActionKind::SendQuitAndWait
    }
}

impl LockAlreadyOwnedAction for SendKillAndTakeover {
    open spec fn spec_kind(&self) -> LockAlreadyOwnedActionKind {
        LockAlreadyOwnedActionKind::SendKillAndTakeover
    }

    fn kind(&self) -> (kind: LockAlreadyOwnedActionKind) {
        LockAlreadyOwnedActionKind::SendKillAndTakeover
    }
}

impl LockAlreadyOwnedAction for LeaveBe {
    open spec fn spec_kind(&self) -> LockAlreadyOwnedActionKind {
        LockAlreadyOwnedActionKind::LeaveBe
    }

    fn kind(&self) -> (kind: LockAlreadyOwnedActionKind) {
        LockAlreadyOwnedActionKind::LeaveBe
    }
}

/// Why a lock file does not name its owner.
#[derive(Copy, Clone, Eq, PartialEq, Debug, Structural)]
pub enum LockFileError {
    /// The file is not valid UTF-8.
    Corrupted,
    /// The file does not hold a process ID.
    InvalidPid(ParsePidError),
}

/// The number that digits stand for, or what is wrong with the first one that
/// is no digit or makes the number too large.
pub open spec fn signed_digits(digits: Seq<u8>, negative: bool) -> Result<int, ParsePidError>
    decreases digits.len(),
{
    if digits.len() == 0 {
        Ok(0)
    } else {
        match signed_digits(digits.drop_last(), negative) {
            Err(error) => Err(error),
            Ok(value) => {
                let digit = digits.last();
                if digit < 48 || digit > 57 {
                    Err(ParsePidError::InvalidDigit)
                } else if negative {
                    if 10 * value - (digit - 48) < i32::MIN {
                        Err(ParsePidError::NegOverflow)
                    } else {
                        Ok(10 * value - (digit - 48))
                    }
                } else if 10 * value + (digit - 48) > i32::MAX {
                    Err(ParsePidError::PosOverflow)
                } else {
                    Ok(10 * value + (digit - 48))
                }
            },
        }
    }
}

/// The number that a text stands for: digits with an optional sign.
pub open spec fn spec_parse_i32(bytes: Seq<u8>) -> Result<int, ParsePidError> {
    if bytes.len() == 0 {
        Err(ParsePidError::Empty)
    } else if bytes.len() == 1 && (bytes[0] == 43 || bytes[0] == 45) {
        Err(ParsePidError::InvalidDigit)
    } else if bytes[0] == 43 {
        signed_digits(bytes.drop_first(), false)
    } else if bytes[0] == 45 {
        signed_digits(bytes.drop_first(), true)
    } else {
        signed_digits(bytes, false)
    }
}

proof fn lemma_signed_digits_prefix(digits: Seq<u8>, negative: bool, n: int)
    requires
        0 <= n <= digits.len(),
        signed_digits(digits.take(n), negative) is Err,
    ensures
        signed_digits(digits, negative) == signed_digits(digits.take(n), negative),
    decreases digits.len() - n,
{
    if n < digits.len() {
        assert(digits.take(n + 1).drop_last() =~= digits.take(n));
        lemma_signed_digits_prefix(digits, negative, n + 1);
    } else {
        assert(digits.take(n) =~= digits);
    }
}

proof fn lemma_signed_digits_range(digits: Seq<u8>, negative: bool)
    ensures
        signed_digits(digits, negative) matches Ok(value) ==> i32::MIN <= value <= i32::MAX && (
        negative ==> value <= 0) && (!negative ==> value >= 0),
    decreases digits.len(),
{
    if digits.len() > 0 {
        lemma_signed_digits_range(digits.drop_last(), negative);
    }
}

fn parse_digits(digits: &[u8], negative: bool) -> (value: Result<i32, ParsePidError>)
    ensures
        match value {
            Ok(value) => signed_digits(digits@, negative) == Ok::<int, ParsePidError>(value as int),
            Err(error) => signed_digits(digits@, negative) == Err::<int, ParsePidError>(error),
        },
{
    let mut value: i64 = 0;
    let mut i: usize = 0;
    assert(digits@.take(0) =~= Seq::<u8>::empty());
    while i < digits.len()
        invariant
            i <= digits@.len(),
            signed_digits(digits@.take(i as int), negative) == Ok::<int, ParsePidError>(
                value as int,
            ),
            i32::MIN <= value <= i32::MAX,
        decreases digits@.len() - i,
    {
        let digit: u8 = digits[i];
        let ghost longer = digits@.take(i + 1);
        proof {
            assert(longer.drop_last() =~= digits@.take(i as int));
            assert(longer.last() == digit);
            if signed_digits(longer, negative) is Err {
                lemma_signed_digits_prefix(digits@, negative, i + 1);
            }
        }
        if digit < 48 || digit > 57 {
            return Err(ParsePidError::InvalidDigit);
        }
        let digit: i64 = (digit - 48) as i64;
        if negative {
            value = 10 * value - digit;
            if value < i32::MIN as i64 {
                return Err(ParsePidError::NegOverflow);
            }
        } else {
            value = 10 * value + digit;
            if value > i32::MAX as i64 {
                return Err(ParsePidError::PosOverflow);
            }
        }
        proof {
            lemma_signed_digits_range(longer, negative);
        }
        i += 1;
    }
    assert(digits@.take(i as int) =~= digits@);
    Ok(value as i32)
}

fn parse_i32(bytes: &[u8]) -> (value: Result<i32, ParsePidError>)
    ensures
        match value {
            Ok(value) => spec_parse_i32(bytes@) == Ok::<int, ParsePidError>(value as int),
            Err(error) => spec_parse_i32(bytes@) == Err::<int, ParsePidError>(error),
        },
{
    if bytes.len() == 0 {
        return Err(ParsePidError::Empty);
    }
    let signed = bytes[0] == 43 || bytes[0] == 45;
    if bytes.len() == 1 && signed {
        return Err(ParsePidError::InvalidDigit);
    }
    if signed {
        let rest = vstd::slice::slice_subrange(bytes, 1, bytes.len());
        assert(rest@ =~= bytes@.drop_first());
        parse_digits(rest, bytes[0] == 45)
    } else {
        parse_digits(bytes, false)
    }
}

/// How much of a lock file is looked at, in bytes: the longest process ID there can be.
pub const MAX_PID_LEN: usize = 11;

/// How much of a server's lock file is looked at, in bytes.
pub const MAX_SERVER_PID_LEN: usize = 10;

/// The beginning of a file.
pub open spec fn beginning(contents: Seq<u8>, len: int) -> Seq<u8> {
    if contents.len() <= len {
        contents
    } else {
        contents.take(len)
    }
}

fn file_beginning(contents: &[u8], len: usize) -> (start: &[u8])
    ensures
        start@ == beginning(contents@, len as int),
{
    if contents.len() <= len {
        contents
    } else {
        vstd::slice::slice_subrange(contents, 0, len)
    }
}

/// The process that a lock file names as its owner, or why it names none.
pub open spec fn spec_lock_file_pid(file: Seq<u8>) -> Result<int, LockFileError> {
    let contents = beginning(file, MAX_PID_LEN as int);
    if !valid_utf8(contents) {
        Err(LockFileError::Corrupted)
    } else {
        let text = crate::text::spec_trim(decode_utf8(contents));
        match spec_parse_i32(encode_utf8(text)) {
            Err(error) => Err(LockFileError::InvalidPid(error)),
            Ok(pid) => if pid == 0 {
                Err(LockFileError::InvalidPid(ParsePidError::Zero))
            } else {
                Ok(pid)
            },
        }
    }
}

/// The process that a lock file names as its owner.
pub fn read_lock_file_pid(contents: &[u8]) -> (pid: Result<i32, LockFileError>)
    ensures
        match pid {
            Ok(pid) => spec_lock_file_pid(contents@) == Ok::<int, LockFileError>(pid as int),
            Err(error) => spec_lock_file_pid(contents@) == Err::<int, LockFileError>(error),
        },
{
    match str_from_utf8(file_beginning(contents, MAX_PID_LEN)) {
        Err(_) => Err(LockFileError::Corrupted),
        Ok(text) => match parse_i32(text.trim().as_bytes()) {
            Err(error) => Err(LockFileError::InvalidPid(error)),
            Ok(pid) => {
                if pid == 0 {
                    Err(LockFileError::InvalidPid(ParsePidError::Zero))
                } else {
                    Ok(pid)
                }
            },
        },
    }
}

/// The process that a server's lock file names, if there is any, or why it cannot be
/// told.
pub open spec fn spec_server_pid(file: Seq<u8>) -> Result<Option<int>, LockFileError> {
    let contents = beginning(file, MAX_SERVER_PID_LEN as int);
    let text = crate::text::spec_trim(decode_utf8(contents));
    if !valid_utf8(contents) {
        Err(LockFileError::Corrupted)
    } else if text.len() == 0 {
        Ok(None)
    } else {
        match spec_parse_i32(encode_utf8(text)) {
            Err(error) => Err(LockFileError::InvalidPid(error)),
            Ok(pid) => Ok(
                if pid == 0 {
                    None
                } else {
                    Some(pid)
                },
            ),
        }
    }
}

/// The process that a server's lock file names, if there is any.
pub fn read_server_pid(contents: &[u8]) -> (pid: Result<Option<i32>, LockFileError>)
    ensures
        spec_server_pid(contents@) == match pid {
            Ok(Some(pid)) => Ok::<Option<int>, LockFileError>(Some(pid as int)),
            Ok(None) => Ok::<Option<int>, LockFileError>(None),
            Err(error) => Err::<Option<int>, LockFileError>(error),
        },
{
    match str_from_utf8(file_beginning(contents, MAX_SERVER_PID_LEN)) {
        Err(_) => Err(LockFileError::Corrupted),
        Ok(text) => {
            let text = text.trim();
            if text.is_empty() {
                return Ok(None);
            }
            match parse_i32(text.as_bytes()) {
                Err(error) => Err(LockFileError::InvalidPid(error)),
                Ok(pid) => {
                    if pid == 0 {
                        Ok(None)
                    } else {
                        Ok(Some(pid))
                    }
                },
            }
        },
    }
}

/// What a lock file holds: the process ID of its owner in a line of its own.
pub fn lock_file_contents(pid: i32) -> (contents: Vec<u8>)
    requires
        pid > 0,
    ensures
        contents@ == crate::text::decimal(pid as nat) + seq![10u8],
{
    let mut contents: Vec<u8> = Vec::new();
    crate::text::push_decimal(&mut contents, pid as u64);
    contents.push(10);
    assert(contents@ =~= crate::text::decimal(pid as nat) + seq![10u8]);
    contents
}

/// How a system call went, as far as taking the lock depends on it.
#[derive(Copy, Clone, Eq, PartialEq, Debug, Structural)]
pub enum SysResult {
    Success,
    /// The file exists already.
    Exists,
    /// There is no such file.
    NotFound,
    /// Another process holds the lock.
    WouldBlock,
    /// There is no such process.
    NoProcess,
    /// Anything else went wrong.
    Failed,
}

/// What was asked of the system, and where taking the lock stands.
#[derive(Copy, Clone, Eq, PartialEq, Debug, Structural)]
pub enum LockState {
    /// Creating the lock file, in the hope that there is none.
    Creating,
    /// Opening the lock file that is there.
    OpeningPrevious,
    /// Creating the lock file after the previous one vanished or was removed.
    CreatingAgain,
    /// Writing our process ID to the new lock file.
    Writing,
    /// Locking the new lock file.
    LockingNew,
    /// Finding out whether anyone holds the previous lock file.
    CheckingOwner,
    /// Reading who does.
    ReadingOwner,
    /// Locking the previous lock file, which is our own.
    LockingOwn,
    /// Getting hold of the owner before asking it to quit.
    OpeningOwner { pid: i32 },
    /// Asking the owner to quit.
    SendingQuit { pid: i32 },
    /// Waiting for the owner to quit.
    Waiting { pid: i32 },
    /// Asking the owner to terminate.
    SendingKill { pid: i32 },
    /// Removing the previous lock file.
    Removing,
    /// The new lock file is ours.
    Locked,
    /// The previous lock file is ours.
    LockedOwn,
    /// Another process has the lock and keeps it.
    Exists { pid: i32 },
    /// The lock was not taken.
    Failed(LockFailure),
}

/// Why the lock was not taken.
#[derive(Copy, Clone, Eq, PartialEq, Debug, Structural)]
pub enum LockFailure {
    Create,
    OpenPrevious,
    Write,
    Lock,
    CheckOwner,
    /// The lock file could not be read.
    Read,
    /// The lock file does not say who owns it.
    ReadOwner(LockFileError),
    OpenOwner,
    SendQuit,
    Wait,
    /// The owner was waited for, but did not quit.
    BadPoll,
    SendKill,
    Remove,
}

impl LockState {
    /// Whether nothing remains to be done.
    pub open spec fn is_final(self) -> bool {
        self is Locked || self is LockedOwn || self is Exists || self is Failed
    }

    /// How many steps remain at most.
    pub open spec fn rank(self) -> nat {
        match self {
            LockState::Creating => 11,
            LockState::OpeningPrevious => 10,
            LockState::CheckingOwner => 9,
            LockState::ReadingOwner => 8,
            LockState::OpeningOwner { .. } => 7,
            LockState::SendingQuit { .. } => 6,
            LockState::Waiting { .. } => 5,
            LockState::SendingKill { .. } => 5,
            LockState::LockingOwn => 1,
            LockState::Removing => 4,
            LockState::CreatingAgain => 3,
            LockState::Writing => 2,
            LockState::LockingNew => 1,
            _ => 0,
        }
    }
}

/// Where taking the lock stands once the last system call has come back.
/// `owner` is what the lock file was found to hold, `quit` whether the owner was
/// seen to quit, `me` our own process.
pub open spec fn spec_lock_step(
    state: LockState,
    kind: LockAlreadyOwnedActionKind,
    me: i32,
    result: SysResult,
    owner: Result<i32, LockFileError>,
    quit: bool,
) -> LockState {
    let ok = result is Success;
    match state {
        LockState::Creating => match result {
            SysResult::Success => LockState::Writing,
            SysResult::Exists => LockState::OpeningPrevious,
            _ => LockState::Failed(LockFailure::Create),
        },
        LockState::CreatingAgain => if ok {
            LockState::Writing
        } else {
            LockState::Failed(LockFailure::Create)
        },
        LockState::Writing => if ok {
            LockState::LockingNew
        } else {
            LockState::Failed(LockFailure::Write)
        },
        LockState::LockingNew => if ok {
            LockState::Locked
        } else {
            LockState::Failed(LockFailure::Lock)
        },
        LockState::OpeningPrevious => match result {
            SysResult::Success => LockState::CheckingOwner,
            SysResult::NotFound => LockState::CreatingAgain,
            _ => LockState::Failed(LockFailure::OpenPrevious),
        },
        LockState::CheckingOwner => match result {
            SysResult::Success => LockState::Removing,
            SysResult::WouldBlock => LockState::ReadingOwner,
            _ => LockState::Failed(LockFailure::CheckOwner),
        },
        LockState::ReadingOwner => if !ok {
            LockState::Failed(LockFailure::Read)
        } else {
            match owner {
                Err(error) => LockState::Failed(LockFailure::ReadOwner(error)),
                Ok(pid) => if pid == me {
                    LockState::LockingOwn
                } else {
                    match kind {
                        LockAlreadyOwnedActionKind::SendQuitAndWait => LockState::OpeningOwner {
                            pid,
                        },
                        LockAlreadyOwnedActionKind::SendKillAndTakeover => LockState::SendingKill {
                            pid,
                        },
                        LockAlreadyOwnedActionKind::LeaveBe => LockState::Exists { pid },
                    }
                },
            }
        },
        LockState::LockingOwn => if ok {
            LockState::LockedOwn
        } else {
            LockState::Failed(LockFailure::Lock)
        },
        LockState::OpeningOwner { pid } => match result {
            SysResult::Success => LockState::SendingQuit { pid },
            SysResult::NoProcess => LockState::Removing,
            _ => LockState::Failed(LockFailure::OpenOwner),
        },
        LockState::SendingQuit { pid } => match result {
            SysResult::Success => LockState::Waiting { pid },
            SysResult::NoProcess => LockState::Removing,
            _ => LockState::Failed(LockFailure::SendQuit),
        },
        LockState::Waiting { .. } => if !ok {
            LockState::Failed(LockFailure::Wait)
        } else if quit {
            LockState::Removing
        } else {
            LockState::Failed(LockFailure::BadPoll)
        },
        LockState::SendingKill { .. } => match result {
            SysResult::Success => LockState::Removing,
            SysResult::NoProcess => LockState::Removing,
            _ => LockState::Failed(LockFailure::SendKill),
        },
        LockState::Removing => match result {
            SysResult::Success => LockState::CreatingAgain,
            SysResult::NotFound => LockState::CreatingAgain,
            _ => LockState::Failed(LockFailure::Remove),
        },
        _ => state,
    }
}

/// Decides what to ask of the system next, once the last call has come back.
pub fn acquire_lock_file(
    state: LockState,
    kind: LockAlreadyOwnedActionKind,
    me: i32,
    result: SysResult,
    owner: Result<i32, LockFileError>,
    quit: bool,
) -> (next: LockState)
    ensures
        next == spec_lock_step(state, kind, me, result, owner, quit),
{
    match state {
        LockState::Creating => match result {
            SysResult::Success => LockState::Writing,
            SysResult::Exists => LockState::OpeningPrevious,
            _ => LockState::Failed(LockFailure::Create),
        },
        LockState::CreatingAgain => match result {
            SysResult::Success => LockState::Writing,
            _ => LockState::Failed(LockFailure::Create),
        },
        LockState::Writing => match result {
            SysResult::Success => LockState::LockingNew,
            _ => LockState::Failed(LockFailure::Write),
        },
        LockState::LockingNew => match result {
            SysResult::Success => LockState::Locked,
            _ => LockState::Failed(LockFailure::Lock),
        },
        LockState::OpeningPrevious => match result {
            SysResult::Success => LockState::CheckingOwner,
            SysResult::NotFound => LockState::CreatingAgain,
            _ => LockState::Failed(LockFailure::OpenPrevious),
        },
        LockState::CheckingOwner => match result {
            SysResult::Success => LockState::Removing,
            SysResult::WouldBlock => LockState::ReadingOwner,
            _ => LockState::Failed(LockFailure::CheckOwner),
        },
        LockState::ReadingOwner => match (result, owner) {
            (SysResult::Success, Err(error)) => LockState::Failed(LockFailure::ReadOwner(error)),
            (SysResult::Success, Ok(pid)) => {
                if pid == me {
                    return LockState::LockingOwn;
                }
                match kind {
                    LockAlreadyOwnedActionKind::SendQuitAndWait => LockState::OpeningOwner { pid },
                    LockAlreadyOwnedActionKind::SendKillAndTakeover => LockState::SendingKill {
                        pid,
                    },
                    LockAlreadyOwnedActionKind::LeaveBe => LockState::Exists { pid },
                }
            },
            _ => LockState::Failed(LockFailure::Read),
        },
        LockState::LockingOwn => match result {
            SysResult::Success => LockState::LockedOwn,
            _ => LockState::Failed(LockFailure::Lock),
        },
        LockState::OpeningOwner { pid } => match result {
            SysResult::Success => LockState::SendingQuit { pid },
            SysResult::NoProcess => LockState::Removing,
            _ => LockState::Failed(LockFailure::OpenOwner),
        },
        LockState::SendingQuit { pid } => match result {
            SysResult::Success => LockState::Waiting { pid },
            SysResult::NoProcess => LockState::Removing,
            _ => LockState::Failed(LockFailure::SendQuit),
        },
        LockState::Waiting { .. } => match result {
            SysResult::Success => {
                if quit {
                    LockState::Removing
                } else {
                    LockState::Failed(LockFailure::BadPoll)
                }
            },
            _ => LockState::Failed(LockFailure::Wait),
        },
        LockState::SendingKill { .. } => match result {
            SysResult::Success | SysResult::NoProcess => LockState::Removing,
            _ => LockState::Failed(LockFailure::SendKill),
        },
        LockState::Removing => match result {
            SysResult::Success | SysResult::NotFound => LockState::CreatingAgain,
            _ => LockState::Failed(LockFailure::Remove),
        },
        _ => state,
    }
}

/// Taking the lock ends: every system call that comes back brings it nearer.
pub proof fn lemma_lock_steps_end(
    state: LockState,
    kind: LockAlreadyOwnedActionKind,
    me: i32,
    result: SysResult,
    owner: Result<i32, LockFileError>,
    quit: bool,
)
    ensures
        ({
            let next = spec_lock_step(state, kind, me, result, owner, quit);
            if state.is_final() {
                next == state
            } else {
                next.rank() < state.rank()
            }
        }),
{
}

/// The lock file of another process is only removed if nobody holds it, if its
/// owner is gone or was seen to quit, or if the owner was told to terminate by a
/// process that takes over.
pub proof fn lemma_removal_is_justified(
    state: LockState,
    kind: LockAlreadyOwnedActionKind,
    me: i32,
    result: SysResult,
    owner: Result<i32, LockFileError>,
    quit: bool,
)
    requires
        spec_lock_step(state, kind, me, result, owner, quit) is Removing,
        !(state is Removing),
    ensures
        ({
            ||| state is CheckingOwner && result is Success
            ||| result is NoProcess
            ||| state is Waiting && quit
            ||| state is SendingKill
        }),
{
}

/// No process is ever signalled under the choice to leave it be: the states in
/// which that happens are never entered.
pub proof fn lemma_leave_be_sends_nothing(
    state: LockState,
    me: i32,
    result: SysResult,
    owner: Result<i32, LockFileError>,
    quit: bool,
)
    requires
        !(state is OpeningOwner || state is SendingQuit || state is Waiting
            || state is SendingKill),
    ensures
        ({
            let next = spec_lock_step(
                state,
                LockAlreadyOwnedActionKind::LeaveBe,
                me,
                result,
                owner,
                quit,
            );
            !(next is OpeningOwner || next is SendingQuit || next is Waiting || next is SendingKill)
        }),
{
}

/// Only under the choice to leave another process be is it reported as the
/// owner, and never our own process.
pub proof fn lemma_only_leave_be_reports_owner(
    state: LockState,
    kind: LockAlreadyOwnedActionKind,
    me: i32,
    result: SysResult,
    owner: Result<i32, LockFileError>,
    quit: bool,
)
    requires
        !state.is_final(),
        spec_lock_step(state, kind, me, result, owner, quit) is Exists,
    ensures
        kind == LockAlreadyOwnedActionKind::LeaveBe,
        spec_lock_step(state, kind, me, result, owner, quit)->Exists_pid != me,
{
}

proof fn lemma_digits_signed(digits: Seq<u8>)
    requires
        crate::text::all_digits(digits),
        crate::text::digits_value(digits) <= i32::MAX,
    ensures
        signed_digits(digits, false) == Ok::<int, ParsePidError>(
            crate::text::digits_value(digits) as int,
        ),
    decreases digits.len(),
{
    if digits.len() > 0 {
        lemma_digits_signed(digits.drop_last());
    }
}

proof fn lemma_decimal_len(n: nat, len: nat)
    requires
        n < vstd::arithmetic::power::pow(10, len),
        len > 0,
    ensures
        crate::text::decimal(n).len() <= len,
    decreases n,
{
    if n >= 10 {
        vstd::arithmetic::power::lemma_pow1(10);
        assert(len > 1);
        vstd::arithmetic::power::lemma_pow_adds(10, (len - 1) as nat, 1);
        let tenth = vstd::arithmetic::power::pow(10, (len - 1) as nat);
        assert(n / 10 < tenth) by (nonlinear_arith)
            requires
                n < tenth * 10,
        ;
        lemma_decimal_len(n / 10, (len - 1) as nat);
    }
}

/// No owner is acted upon unless the lock file was read.
pub proof fn lemma_owner_was_read(
    kind: LockAlreadyOwnedActionKind,
    me: i32,
    result: SysResult,
    owner: Result<i32, LockFileError>,
    quit: bool,
)
    requires
        !(result is Success),
    ensures
        spec_lock_step(LockState::ReadingOwner, kind, me, result, owner, quit)
            == LockState::Failed(LockFailure::Read),
{
}

/// The owner that is written to a lock file is read back from it.
pub proof fn lemma_lock_file_round_trip(pid: i32)
    requires
        pid > 0,
    ensures
        spec_lock_file_pid(crate::text::decimal(pid as nat) + seq![10u8]) == Ok::<
            int,
            LockFileError,
        >(pid as int),
{
    let digits = crate::text::decimal(pid as nat);
    let contents = digits + seq![10u8];
    reveal_with_fuel(vstd::arithmetic::power::pow, 11);
    lemma_decimal_len(pid as nat, 10);
    crate::text::lemma_decimal_value(pid as nat);
    crate::text::lemma_ascii_decodes(contents);
    crate::text::lemma_ascii_decodes(digits);
    let text = decode_utf8(contents);
    assert(text =~= crate::text::ascii_chars(contents));
    assert(crate::text::leading_space(text) == 0);
    assert(text.skip(0) =~= text);
    assert(text.drop_last() =~= crate::text::ascii_chars(digits));
    assert(!crate::text::spec_is_whitespace(text.drop_last().last()));
    reveal_with_fuel(crate::text::trailing_space, 2);
    assert(crate::text::trailing_space(text) == 1);
    assert(crate::text::spec_trim(text) =~= crate::text::ascii_chars(digits));
    lemma_digits_signed(digits);
}

/// The owner that is written to a lock file is found as that of a server, too.
pub proof fn lemma_server_pid_round_trip(pid: i32)
    requires
        pid > 0,
    ensures
        spec_server_pid(crate::text::decimal(pid as nat) + seq![10u8]) == Ok::<
            Option<int>,
            LockFileError,
        >(Some(pid as int)),
{
    let digits = crate::text::decimal(pid as nat);
    let contents = digits + seq![10u8];
    reveal_with_fuel(vstd::arithmetic::power::pow, 11);
    lemma_decimal_len(pid as nat, 10);
    crate::text::lemma_decimal_value(pid as nat);
    crate::text::lemma_ascii_decodes(digits);
    lemma_digits_signed(digits);
    if digits.len() < 10 {
        lemma_lock_file_round_trip(pid);
        assert(beginning(contents, 10) == beginning(contents, 11));
    } else {
        assert(beginning(contents, 10) =~= digits);
        let text = crate::text::ascii_chars(digits);
        assert(decode_utf8(digits) =~= text);
        assert(crate::text::leading_space(text) == 0);
        assert(text.skip(0) =~= text);
        assert(crate::text::trailing_space(text) == 0);
        assert(crate::text::spec_trim(text) =~= text);
    }
}

/// The owner is dealt with as was chosen, and the one that is asked to quit or to terminate, or
/// that is reported, is the one that the lock file names. Our own process is never asked.
pub proof fn lemma_owner_is_dealt_with_as_chosen(
    kind: LockAlreadyOwnedActionKind,
    me: i32,
    pid: i32,
    quit: bool,
    next: LockState,
)
    requires
        call_ensures(
            acquire_lock_file,
            (LockState::ReadingOwner, kind, me, SysResult::Success, Ok(pid), quit),
            next,
        ),
    ensures
        pid == me <==> next is LockingOwn,
        pid != me ==> match kind {
            LockAlreadyOwnedActionKind::SendQuitAndWait => next == (LockState::OpeningOwner { pid }),
            LockAlreadyOwnedActionKind::SendKillAndTakeover => next == (LockState::SendingKill {
                pid,
            }),
            LockAlreadyOwnedActionKind::LeaveBe => next == (LockState::Exists { pid }),
        },
{
}

/// The owner that was asked to quit is the one that is waited for.
pub proof fn lemma_same_owner_is_waited_for(
    state: LockState,
    kind: LockAlreadyOwnedActionKind,
    me: i32,
    result: SysResult,
    owner: Result<i32, LockFileError>,
    quit: bool,
    next: LockState,
)
    requires
        call_ensures(acquire_lock_file, (state, kind, me, result, owner, quit), next),
        !state.is_final(),
    ensures
        next matches LockState::SendingQuit { pid } ==> state == (LockState::OpeningOwner { pid })
            && result is Success,
        next matches LockState::Waiting { pid } ==> state == (LockState::SendingQuit { pid })
            && result is Success,
        next matches LockState::OpeningOwner { pid } ==> owner == Ok::<i32, LockFileError>(pid) && pid
            != me,
        next matches LockState::SendingKill { pid } ==> owner == Ok::<i32, LockFileError>(pid) && pid
            != me,
{
}

/// The lock is only held after our process ID was written to a new file that was then locked,
/// or after a file that names our process was.
pub proof fn lemma_lock_is_taken(
    state: LockState,
    kind: LockAlreadyOwnedActionKind,
    me: i32,
    result: SysResult,
    owner: Result<i32, LockFileError>,
    quit: bool,
    next: LockState,
)
    requires
        call_ensures(acquire_lock_file, (state, kind, me, result, owner, quit), next),
        !state.is_final(),
    ensures
        next is Locked <==> state is LockingNew && result is Success,
        next is LockingNew <==> state is Writing && result is Success,
        next is Writing <==> (state is Creating || state is CreatingAgain) && result is Success,
        next is LockedOwn <==> state is LockingOwn && result is Success,
        next is LockingOwn ==> state is ReadingOwner && result is Success && owner == Ok::<
            i32,
            LockFileError,
        >(me),
        next is CreatingAgain <==> (state is OpeningPrevious && result is NotFound) || (state
            is Removing && (result is Success || result is NotFound)),
        next is OpeningPrevious <==> state is Creating && result is Exists,
        next is CheckingOwner <==> state is OpeningPrevious && result is Success,
        next is ReadingOwner <==> state is CheckingOwner && result is WouldBlock,
{
}

/// Anything that goes wrong in an unexpected way ends the attempt.
pub proof fn lemma_failure_ends_attempt(
    state: LockState,
    kind: LockAlreadyOwnedActionKind,
    me: i32,
    owner: Result<i32, LockFileError>,
    quit: bool,
    next: LockState,
)
    requires
        call_ensures(acquire_lock_file, (state, kind, me, SysResult::Failed, owner, quit), next),
        !state.is_final(),
    ensures
        next is Failed,
{
}

/// The file of an owner that nobody holds, that is gone, that was seen to quit or that was told
/// to terminate is removed.
pub proof fn lemma_stale_file_is_removed(
    state: LockState,
    kind: LockAlreadyOwnedActionKind,
    me: i32,
    result: SysResult,
    owner: Result<i32, LockFileError>,
    quit: bool,
    next: LockState,
)
    requires
        call_ensures(acquire_lock_file, (state, kind, me, result, owner, quit), next),
    ensures
        state is CheckingOwner && result is Success ==> next is Removing,
        (state is OpeningOwner || state is SendingQuit || state is SendingKill) && result is NoProcess
            ==> next is Removing,
        state is Waiting && result is Success ==> (quit <==> next is Removing),
        state is SendingKill && result is Success ==> next is Removing,
{
}

/// The number that digits stand for is read with its sign, unless it is too large for a process
/// ID or zero. What is not a number is refused.
pub proof fn lemma_signed_number_is_read(
    contents: &[u8],
    digits: Seq<u8>,
    pid: Result<i32, LockFileError>,
)
    requires
        call_ensures(read_lock_file_pid, (contents,), pid),
        crate::text::all_digits(digits),
        0 < digits.len() <= 9,
    ensures
        ({
            let value = crate::text::digits_value(digits);
            &&& contents@ == digits || contents@ == seq!['+' as u8] + digits ==> if value == 0 {
                pid == Err::<i32, LockFileError>(LockFileError::InvalidPid(ParsePidError::Zero))
            } else {
                pid matches Ok(pid) && pid == value
            }
            &&& contents@ == seq!['-' as u8] + digits ==> if value == 0 {
                pid == Err::<i32, LockFileError>(LockFileError::InvalidPid(ParsePidError::Zero))
            } else {
                pid matches Ok(pid) && pid == -value
            }
        }),
{
    let all = contents@;
    let value = crate::text::digits_value(digits);
    lemma_few_digits(digits);
    if all == digits || all == seq![43u8] + digits || all == seq![45u8] + digits {
        assert(all.len() <= 11);
        assert forall|i: int| 0 <= i < all.len() implies #[trigger] all[i] < 128 by {
            if all.len() > digits.len() && i > 0 {
                assert(all[i] == digits[i - 1]);
            }
        }
        crate::text::lemma_ascii_decodes(all);
        let text = crate::text::ascii_chars(all);
        assert(all.last() == digits.last());
        assert(text.skip(0) =~= text);
        assert(crate::text::spec_trim(text) =~= text);
        if all.len() > digits.len() {
            assert(all.drop_first() =~= digits);
        }
        lemma_digits_signed(digits);
        lemma_digits_negative(digits);
    }
}

proof fn lemma_few_digits(digits: Seq<u8>)
    requires
        crate::text::all_digits(digits),
        digits.len() <= 9,
    ensures
        crate::text::digits_value(digits) < vstd::arithmetic::power::pow(10, digits.len()),
        crate::text::digits_value(digits) < 1_000_000_000,
    decreases digits.len(),
{
    reveal_with_fuel(vstd::arithmetic::power::pow, 10);
    if digits.len() > 0 {
        lemma_few_digits(digits.drop_last());
    }
}

proof fn lemma_digits_negative(digits: Seq<u8>)
    requires
        crate::text::all_digits(digits),
        crate::text::digits_value(digits) <= i32::MAX,
    ensures
        signed_digits(digits, true) == Ok::<int, ParsePidError>(
            -crate::text::digits_value(digits),
        ),
    decreases digits.len(),
{
    if digits.len() > 0 {
        lemma_digits_negative(digits.drop_last());
    }
}

/// What was written to a lock file is read from it by both of its readers.
pub proof fn lemma_written_owner_is_read(
    pid: i32,
    contents: Vec<u8>,
    file: &[u8],
    owner: Result<i32, LockFileError>,
    server: Result<Option<i32>, LockFileError>,
)
    requires
        pid > 0,
        call_ensures(lock_file_contents, (pid,), contents),
        file@ == contents@,
        call_ensures(read_lock_file_pid, (file,), owner),
        call_ensures(read_server_pid, (file,), server),
    ensures
        owner == Ok::<i32, LockFileError>(pid),
        server == Ok::<Option<i32>, LockFileError>(Some(pid)),
{
    lemma_lock_file_round_trip(pid);
    lemma_server_pid_round_trip(pid);
}

/// An empty lock file names no server, and does not tell an owner.
pub proof fn lemma_empty_lock_file(
    file: &[u8],
    owner: Result<i32, LockFileError>,
    server: Result<Option<i32>, LockFileError>,
)
    requires
        file@.len() == 0,
        call_ensures(read_lock_file_pid, (file,), owner),
        call_ensures(read_server_pid, (file,), server),
    ensures
        owner == Err::<i32, LockFileError>(LockFileError::InvalidPid(ParsePidError::Empty)),
        server == Ok::<Option<i32>, LockFileError>(None),
{
    crate::text::lemma_ascii_decodes(file@);
    let text = crate::text::ascii_chars(file@);
    assert(crate::text::spec_trim(text) =~= Seq::<char>::empty());
    assert(encode_utf8(Seq::<char>::empty()) =~= Seq::<u8>::empty());
}

} // verus!
