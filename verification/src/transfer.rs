//! Moving data between files: the decisions between one system call and the next.

use vstd::prelude::*;
use vstd::utf8::*;

use crate::text::{append_bytes, push_decimal};

verus! {

/// A copy from one file to another that the system may do in several parts.
#[derive(Copy, Clone, Eq, PartialEq, Debug)]
pub struct CopyRange {
    pub len: usize,
    pub copied: usize,
    /// Whether everything is copied, or there is no more to copy.
    pub done: bool,
}

impl CopyRange {
    pub open spec fn wf(self) -> bool {
        &&& self.copied <= self.len
        &&& !self.done ==> (self.copied < self.len || self.len == 0)
    }

    #[must_use]
    pub fn new(len: usize) -> (copy: CopyRange)
        ensures
            copy.wf(),
            copy.len == len,
            copy.copied == 0,
            !copy.done,
    {
        CopyRange { len, copied: 0, done: false }
    }

    /// How much to ask for next.
    #[must_use]
    pub fn next_len(&self) -> (len: usize)
        requires
            self.wf(),
        ensures
            len == self.len - self.copied,
    {
        self.len - self.copied
    }

    /// Takes note of how much was copied of what was asked for. Nothing means that
    /// the source has ended.
    pub fn advance(&mut self, n: usize)
        requires
            old(self).wf(),
            !old(self).done,
            n <= old(self).len - old(self).copied,
        ensures
            final(self).wf(),
            final(self).len == old(self).len,
            final(self).copied == old(self).copied + n,
            final(self).done == (n == 0 || final(self).copied == final(self).len),
            !final(self).done ==> final(self).len - final(self).copied < old(self).len
                - old(self).copied,
    {
        self.copied += n;
        self.done = n == 0 || self.copied == self.len;
    }
}

/// How a read turned out.
#[derive(Copy, Clone, Eq, PartialEq, Debug, Structural)]
pub enum ReadOutcome {
    /// So many bytes were read; none means that the file has ended.
    Read(usize),
    /// A signal came in between.
    Interrupted,
    Failed,
}

/// How a read of everything from some offset on stands.
#[derive(Copy, Clone, Eq, PartialEq, Debug, Structural)]
pub enum ReadState {
    Reading,
    Done,
    Failed,
}

/// A read into a buffer until the buffer is full or the file has ended.
#[derive(Copy, Clone, Eq, PartialEq, Debug)]
pub struct ReadToEnd {
    /// Where in the file the buffer starts.
    pub offset: u64,
    /// The length of the buffer.
    pub capacity: usize,
    /// How much of the buffer is filled.
    pub filled: usize,
    pub state: ReadState,
}

impl ReadToEnd {
    pub open spec fn wf(self) -> bool {
        &&& self.filled <= self.capacity
        &&& self.offset + self.capacity <= u64::MAX
        &&& self.state == ReadState::Reading ==> self.filled < self.capacity
    }

    #[must_use]
    pub fn new(offset: u64, capacity: usize) -> (read: ReadToEnd)
        requires
            offset + capacity <= u64::MAX,
        ensures
            read.wf(),
            read.offset == offset,
            read.capacity == capacity,
            read.filled == 0,
            read.state == if capacity == 0 {
                ReadState::Done
            } else {
                ReadState::Reading
            },
    {
        let state = if capacity == 0 {
            ReadState::Done
        } else {
            ReadState::Reading
        };
        ReadToEnd { offset, capacity, filled: 0, state }
    }

    /// Where in the file to read next, and how much at most: right behind what the
    /// buffer holds, and as much as still goes in.
    #[must_use]
    pub fn next_read(&self) -> (read: (u64, usize))
        requires
            self.wf(),
        ensures
            read.0 == self.offset + self.filled,
            read.1 == self.capacity - self.filled,
    {
        (self.offset + self.filled as u64, self.capacity - self.filled)
    }

    /// Takes note of how a read turned out.
    pub fn advance(&mut self, outcome: ReadOutcome)
        requires
            old(self).wf(),
            old(self).state == ReadState::Reading,
            outcome matches ReadOutcome::Read(n) ==> n <= old(self).capacity - old(self).filled,
        ensures
            final(self).wf(),
            final(self).offset == old(self).offset,
            final(self).capacity == old(self).capacity,
            match outcome {
                ReadOutcome::Read(n) => {
                    &&& final(self).filled == old(self).filled + n
                    &&& final(self).state == if n == 0 || final(self).filled == old(
                        self,
                    ).capacity {
                        ReadState::Done
                    } else {
                        ReadState::Reading
                    }
                },
                ReadOutcome::Interrupted => *final(self) == *old(self),
                ReadOutcome::Failed => final(self).filled == old(self).filled && final(self).state
                    == ReadState::Failed,
            },
    {
        match outcome {
            ReadOutcome::Read(n) => {
                self.filled += n;
                if n == 0 || self.filled == self.capacity {
                    self.state = ReadState::Done;
                }
            },
            ReadOutcome::Interrupted => {},
            ReadOutcome::Failed => {
                self.state = ReadState::Failed;
            },
        }
    }
}

/// How an attempt to open a file without a name turned out.
#[derive(Copy, Clone, Eq, PartialEq, Debug, Structural)]
pub enum OpenOutcome {
    Opened,
    NotSupported,
    Failed,
}

/// What comes next in making a temporary file.
#[derive(Copy, Clone, Eq, PartialEq, Debug, Structural)]
pub enum TmpFileStep {
    /// Open a file that has no name.
    OpenUnnamed,
    /// Create a file under the fallback name, and then remove the name.
    OpenNamed,
    /// The file is there.
    Finished,
    /// The last error is the result.
    Failed,
}

/// How to start making a temporary file. It is remembered if files without a name
/// are not supported.
#[must_use]
pub fn create_tmp_file(unsupported: bool) -> (step: TmpFileStep)
    ensures
        step == if unsupported {
            TmpFileStep::OpenNamed
        } else {
            TmpFileStep::OpenUnnamed
        },
{
    if unsupported {
        TmpFileStep::OpenNamed
    } else {
        TmpFileStep::OpenUnnamed
    }
}

/// What comes after an attempt to open a file that has no name.
pub fn after_open_unnamed(outcome: OpenOutcome, unsupported: &mut bool) -> (step: TmpFileStep)
    ensures
        *final(unsupported) == (*old(unsupported) || outcome == OpenOutcome::NotSupported),
        step == match outcome {
            OpenOutcome::Opened => TmpFileStep::Finished,
            OpenOutcome::NotSupported => TmpFileStep::OpenNamed,
            OpenOutcome::Failed => TmpFileStep::Failed,
        },
{
    match outcome {
        OpenOutcome::Opened => TmpFileStep::Finished,
        OpenOutcome::NotSupported => {
            *unsupported = true;
            TmpFileStep::OpenNamed
        },
        OpenOutcome::Failed => TmpFileStep::Failed,
    }
}

/// The path, with a zero byte at the end, under which a process finds a file that
/// it has open.
#[must_use]
pub fn proc_self_fd_buf(fd: u32) -> (path: Vec<u8>)
    ensures
        path@ == (encode_utf8("/proc/self/fd/"@) + crate::text::decimal(fd as nat)).push(0),
{
    let mut path: Vec<u8> = Vec::new();
    append_bytes(&mut path, "/proc/self/fd/".as_bytes());
    push_decimal(&mut path, fd as u64);
    path.push(0);
    assert(path@ =~= (encode_utf8("/proc/self/fd/"@) + crate::text::decimal(fd as nat)).push(0));
    path
}

/// What was copied is not asked for again, and nothing is left out: what is asked for next is
/// less by what was copied. The copy ends when all is there or the source has ended.
pub proof fn lemma_copy_goes_on(copy: &mut CopyRange, n: usize, before: usize, after: usize)
    requires
        old(copy).wf(),
        call_ensures(CopyRange::next_len, (old(copy),), before),
        call_ensures(CopyRange::advance, (copy, n), ()),
        call_ensures(CopyRange::next_len, (final(copy),), after),
    ensures
        after == before - n,
        after == 0 ==> final(copy).done,
        n > 0 && after > 0 ==> !final(copy).done,
        n == 0 ==> final(copy).done,
{
}

/// Each read starts where the one before it ended, and none goes past the end of the buffer.
pub proof fn lemma_reads_are_contiguous(
    read: &mut ReadToEnd,
    n: usize,
    before: (u64, usize),
    after: (u64, usize),
)
    requires
        old(read).wf(),
        call_ensures(ReadToEnd::next_read, (old(read),), before),
        call_ensures(ReadToEnd::advance, (read, ReadOutcome::Read(n)), ()),
        call_ensures(ReadToEnd::next_read, (final(read),), after),
    ensures
        after.0 == before.0 + n,
        after.1 == before.1 - n,
        n == 0 || after.1 == 0 ==> final(read).state == ReadState::Done,
        n > 0 && after.1 > 0 ==> final(read).state != ReadState::Done,
{
}

/// A read that a signal came into is done again, and one that failed is not.
pub proof fn lemma_interrupted_read_is_repeated(
    read: &mut ReadToEnd,
    outcome: ReadOutcome,
    before: (u64, usize),
    after: (u64, usize),
)
    requires
        old(read).wf(),
        old(read).state == ReadState::Reading,
        !(outcome is Read),
        call_ensures(ReadToEnd::next_read, (old(read),), before),
        call_ensures(ReadToEnd::advance, (read, outcome), ()),
        call_ensures(ReadToEnd::next_read, (final(read),), after),
    ensures
        after == before,
        outcome is Interrupted ==> final(read).state == ReadState::Reading,
        outcome is Failed ==> final(read).state == ReadState::Failed,
{
}

/// Once files without a name are known not to be supported, none is asked for anymore.
pub proof fn lemma_unsupported_is_remembered(
    outcome: OpenOutcome,
    unsupported: &mut bool,
    step: TmpFileStep,
    next: TmpFileStep,
)
    requires
        call_ensures(after_open_unnamed, (outcome, unsupported), step),
        call_ensures(create_tmp_file, (*final(unsupported),), next),
    ensures
        outcome is NotSupported ==> step is OpenNamed && next is OpenNamed,
        *old(unsupported) ==> next is OpenNamed,
        !*old(unsupported) && !(outcome is NotSupported) ==> next is OpenUnnamed,
        outcome is Opened <==> step is Finished,
        outcome is Failed <==> step is Failed,
{
}

/// An open file is found under its number in `/proc/self/fd`, and different files under
/// different paths.
pub proof fn lemma_open_file_is_found(fd: u32, path: Vec<u8>)
    requires
        call_ensures(proc_self_fd_buf, (fd,), path),
    ensures
        path@.last() == 0,
        path@.drop_last() == encode_utf8("/proc/self/fd/"@) + crate::text::decimal(fd as nat),
{
    assert(path@.drop_last() =~= encode_utf8("/proc/self/fd/"@) + crate::text::decimal(fd as nat));
}

} // verus!
