use ringboard::error::ParsePidError;
use ringboard::fuzz::{
    choose_action, complete, drawn_gc_limit, drawn_ring, FuzzAction, Oracle, PendingOp, Reply,
    RequestKind, ResponseKind, Violation,
};
use ringboard::gch::{read_op, ImportAction, LogError, LogImport, LogOp};
use ringboard::lock_file::{
    acquire_lock_file, lock_file_contents, read_lock_file_pid, read_server_pid, LeaveBe,
    LockAlreadyOwnedAction, LockAlreadyOwnedActionKind, LockFailure, LockFileError, LockState,
    SendKillAndTakeover, SendQuitAndWait, SysResult,
};
use ringboard::pipeline::{Phase, Pipeline, PipelineAction};
use ringboard::protocol::{
    AddResponse, GarbageCollectResponse, IdNotFoundError, MoveToFrontResponse, RemoveResponse,
    RingKind, SwapResponse,
};

#[test]
fn process_ids_are_read() {
    assert_eq!(read_lock_file_pid(b"1234\n"), Ok(1234));
    assert_eq!(read_lock_file_pid(b" +7 "), Ok(7));
    let invalid = |error| Err(LockFileError::InvalidPid(error));
    assert_eq!(read_lock_file_pid(b""), invalid(ParsePidError::Empty));
    assert_eq!(read_lock_file_pid(b"12x"), invalid(ParsePidError::InvalidDigit));
    assert_eq!(read_lock_file_pid(b"-"), invalid(ParsePidError::InvalidDigit));
    assert_eq!(read_lock_file_pid(b"2147483648"), invalid(ParsePidError::PosOverflow));
    assert_eq!(read_lock_file_pid(b"-2147483649"), invalid(ParsePidError::NegOverflow));
    assert_eq!(read_lock_file_pid(b"0"), invalid(ParsePidError::Zero));
    assert_eq!(read_lock_file_pid(&[0xff]), Err(LockFileError::Corrupted));
    assert_eq!(read_server_pid(b" \n"), Ok(None));
    assert_eq!(read_server_pid(b"0"), Ok(None));
    assert_eq!(read_server_pid(b"42"), Ok(Some(42)));
    assert_eq!(read_server_pid(&[0xff]), Err(LockFileError::Corrupted));
    assert_eq!(read_lock_file_pid(b"42         x"), Ok(42));
    assert_eq!(read_lock_file_pid(b"42        x"), invalid(ParsePidError::InvalidDigit));
    assert_eq!(read_server_pid(b"42        x"), Ok(Some(42)));
    assert_eq!(
        read_server_pid(b"42       x"),
        Err(LockFileError::InvalidPid(ParsePidError::InvalidDigit))
    );
}

#[test]
fn lock_files_name_their_owner() {
    for pid in [1, 99, 4_194_304, i32::MAX] {
        assert_eq!(read_lock_file_pid(&lock_file_contents(pid)), Ok(pid));
        assert_eq!(read_server_pid(&lock_file_contents(pid)), Ok(Some(pid)));
    }
    assert_eq!(lock_file_contents(10), b"10\n");
}

fn walk(kind: LockAlreadyOwnedActionKind, results: &[SysResult], owner: i32) -> LockState {
    let mut state = LockState::Creating;
    for result in results {
        state = acquire_lock_file(state, kind, 100, *result, Ok(owner), true);
    }
    state
}

#[test]
fn a_new_lock_file_is_written_and_locked() {
    let ok = SysResult::Success;
    assert_eq!(walk(LeaveBe.kind(), &[ok, ok, ok], 0), LockState::Locked);
    assert_eq!(
        walk(LeaveBe.kind(), &[SysResult::Failed], 0),
        LockState::Failed(LockFailure::Create)
    );
    assert_eq!(
        walk(LeaveBe.kind(), &[ok, SysResult::Failed], 0),
        LockState::Failed(LockFailure::Write)
    );
    assert_eq!(
        walk(LeaveBe.kind(), &[ok, ok, SysResult::Failed], 0),
        LockState::Failed(LockFailure::Lock)
    );
}

#[test]
fn stale_lock_files_are_removed() {
    let ok = SysResult::Success;
    let results = [SysResult::Exists, ok, ok, ok, ok, ok, ok];
    assert_eq!(walk(LeaveBe.kind(), &results[..3], 7), LockState::Removing);
    assert_eq!(walk(LeaveBe.kind(), &results, 7), LockState::Locked);
}

#[test]
fn owned_lock_files() {
    let ok = SysResult::Success;
    let owned = [SysResult::Exists, ok, SysResult::WouldBlock, ok];
    assert_eq!(walk(LeaveBe.kind(), &owned, 7), LockState::Exists { pid: 7 });
    assert_eq!(walk(SendQuitAndWait.kind(), &owned, 7), LockState::OpeningOwner { pid: 7 });
    assert_eq!(walk(SendKillAndTakeover.kind(), &owned, 7), LockState::SendingKill { pid: 7 });
    assert_eq!(walk(LeaveBe.kind(), &owned, 100), LockState::LockingOwn);
    let quit = [&owned[..], &[ok, ok, ok]].concat();
    assert_eq!(walk(SendQuitAndWait.kind(), &quit, 7), LockState::Removing);
    let gone = [&owned[..], &[SysResult::NoProcess]].concat();
    assert_eq!(walk(SendQuitAndWait.kind(), &gone, 7), LockState::Removing);
    assert_eq!(walk(SendKillAndTakeover.kind(), &gone, 7), LockState::Removing);
    let waiting = LockState::Waiting { pid: 7 };
    let kind = SendQuitAndWait.kind();
    assert_eq!(
        acquire_lock_file(waiting, kind, 100, ok, Ok(7), false),
        LockState::Failed(LockFailure::BadPoll)
    );
    let error = LockFileError::InvalidPid(ParsePidError::Zero);
    assert_eq!(
        acquire_lock_file(LockState::ReadingOwner, kind, 100, ok, Err(error), false),
        LockState::Failed(LockFailure::ReadOwner(error))
    );
}

#[test]
fn failures_of_every_step() {
    let kind = SendQuitAndWait.kind();
    for (state, failure) in [
        (LockState::OpeningPrevious, LockFailure::OpenPrevious),
        (LockState::CheckingOwner, LockFailure::CheckOwner),
        (LockState::ReadingOwner, LockFailure::Read),
        (LockState::OpeningOwner { pid: 1 }, LockFailure::OpenOwner),
        (LockState::SendingQuit { pid: 1 }, LockFailure::SendQuit),
        (LockState::Waiting { pid: 1 }, LockFailure::Wait),
        (LockState::SendingKill { pid: 1 }, LockFailure::SendKill),
        (LockState::Removing, LockFailure::Remove),
        (LockState::CreatingAgain, LockFailure::Create),
        (LockState::LockingOwn, LockFailure::Lock),
    ] {
        let next = acquire_lock_file(state, kind, 100, SysResult::Failed, Ok(1), false);
        assert_eq!(next, LockState::Failed(failure));
    }
}

#[test]
fn requests_are_pipelined() {
    let pipeline = Pipeline::begin_request(0);
    assert_eq!(pipeline.action(), PipelineAction::Send { wait: true });
    let pipeline = pipeline.sent();
    assert_eq!((pipeline.pending, pipeline.action()), (1, PipelineAction::Done));
    let pipeline = Pipeline::begin_request(1);
    assert_eq!(pipeline.action(), PipelineAction::Send { wait: false });
    let pipeline = Pipeline::begin_request(3).not_sent();
    assert_eq!(pipeline.phase, Phase::Drain { remaining: 1, then_send: true });
}

#[test]
fn full_pipelines_are_drained_to_half() {
    let mut pipeline = Pipeline::begin_request(8);
    for _ in 0..4 {
        assert_eq!(pipeline.action(), PipelineAction::Receive { wait: true });
        pipeline = pipeline.received();
    }
    assert_eq!(pipeline.action(), PipelineAction::Receive { wait: false });
    pipeline = pipeline.nothing_received();
    assert_eq!(pipeline.action(), PipelineAction::Send { wait: false });
    assert_eq!(pipeline.sent().pending, 5);
}

#[test]
fn any_number_of_responses_may_be_outstanding() {
    let mut pipeline = Pipeline::begin_request(21);
    assert_eq!(pipeline.phase, Phase::Drain { remaining: 10, then_send: true });
    while pipeline.action() == (PipelineAction::Receive { wait: true }) {
        pipeline = pipeline.received();
    }
    assert_eq!(pipeline.nothing_received().sent().pending, 11);
    let full = Pipeline::begin_request(u32::MAX);
    assert_eq!(full.phase, Phase::Drain { remaining: u32::MAX / 2, then_send: true });
    let drain = Pipeline::begin_drain(u32::MAX, 0).received();
    assert_eq!(drain.pending, u32::MAX - 1);
    assert_eq!(drain.action(), PipelineAction::Receive { wait: true });
}

#[test]
fn final_drains_wait_for_everything() {
    let mut pipeline = Pipeline::begin_drain(3, 0);
    let mut received = 0;
    while pipeline.action() == (PipelineAction::Receive { wait: true }) {
        pipeline = pipeline.received();
        received += 1;
    }
    assert_eq!(received, 3);
    assert_eq!(pipeline.action(), PipelineAction::Done);
    assert_eq!(Pipeline::begin_drain(0, 0).action(), PipelineAction::Done);
}

#[test]
fn logs_are_read() {
    assert_eq!(read_op(b"\x01abc\0", 0), Ok((LogOp::Save { start: 1, len: 3 }, 5)));
    assert_eq!(read_op(b"\x01abc", 0), Err(LogError::Unterminated));
    assert_eq!(read_op(b"\x02\x03\0\0\0", 0), Ok((LogOp::Delete { text: 2 }, 5)));
    let moved = |to| Ok((LogOp::Move { text: 0, to }, 5));
    assert_eq!(read_op(b"\x03\x01\0\0\0", 0), moved(Some(RingKind::Favorites)));
    assert_eq!(read_op(b"\x04\x01\0\0\0", 0), moved(Some(RingKind::Main)));
    assert_eq!(read_op(b"\x05\x01\0\0\0", 0), moved(None));
    assert_eq!(read_op(b"\x05\x01\0\0", 0), Err(LogError::Truncated));
    assert_eq!(read_op(b"\x02\0\0\0\0", 0), Err(LogError::NumberZero));
    assert_eq!(read_op(b"\x09a", 0), Err(LogError::UnknownOperation { following: Some(b'a') }));
    assert_eq!(read_op(b"\x09", 0), Err(LogError::UnknownOperation { following: None }));
}

#[test]
fn logs_are_imported() {
    let log = b"\x01a\0\x01bc\0\x03\x01\0\0\0\x02\x01\0\0\0";
    let mut import = LogImport::new(log);
    assert_eq!(import.next(), Ok(ImportAction::Add { start: 1, len: 1 }));
    assert_eq!(import.next(), Ok(ImportAction::Add { start: 4, len: 2 }));
    assert_eq!(import.outstanding(), 2);
    assert_eq!(import.next(), Ok(ImportAction::AwaitAdded));
    import.text_added(10);
    import.text_added(11);
    assert_eq!(import.outstanding(), 0);
    assert_eq!(
        import.next(),
        Ok(ImportAction::MoveToFront { id: 10, to: Some(RingKind::Favorites) })
    );
    import.text_moved(20);
    assert_eq!(import.next(), Ok(ImportAction::Remove { id: 20 }));
    assert_eq!(import.next(), Ok(ImportAction::Done));
}

#[test]
fn unknown_texts_are_rejected() {
    let mut import = LogImport::new(b"\x02\x01\0\0\0");
    assert_eq!(import.next(), Err(LogError::UnknownText));
}

#[test]
fn responses_are_matched_with_requests() {
    let add = Reply::Add(AddResponse::Success { id: 1 });
    assert!(matches!(
        complete(PendingOp::Add { data: b"x".to_vec() }, add),
        Some(ResponseKind::Add { data, .. }) if data == b"x"
    ));
    let gc = Reply::Gc(GarbageCollectResponse { bytes_freed: 0 });
    assert!(complete(PendingOp::Remove { id: 1 }, gc).is_none());
}

fn added(id: u64, data: &[u8]) -> ResponseKind {
    ResponseKind::Add { data: data.to_vec(), value: AddResponse::Success { id } }
}

fn removed(id: u64, error: Option<IdNotFoundError>) -> ResponseKind {
    ResponseKind::Remove { id, value: RemoveResponse { error } }
}

#[test]
fn responses_are_put_in_order() {
    let mut late = Oracle::new(5);
    assert_eq!(late.receive(6, removed(1, None)), Ok(()));
    assert!(!late.is_settled());
    assert_eq!(late.receive(5, added(1, b"a")), Ok(()));
    assert_eq!(late.receive(7, added(2, b"b")), Ok(()));
    let mut ordered = Oracle::new(5);
    assert_eq!(ordered.receive(5, added(1, b"a")), Ok(()));
    assert_eq!(ordered.receive(6, removed(1, None)), Ok(()));
    assert_eq!(ordered.receive(7, added(2, b"b")), Ok(()));
    for oracle in [late, ordered] {
        assert!(oracle.is_settled());
        assert_eq!((oracle.len(), oracle.seq_num_head()), (1, 8));
        assert!(oracle.agrees(2, b"b"));
        assert!(!oracle.agrees(2, b"a"));
        assert_eq!(oracle.ids(), [2]);
    }
}

#[test]
fn wrong_responses_are_noticed() {
    let missing = Some(IdNotFoundError::Entry(0));
    let mut oracle = Oracle::new(0);
    assert_eq!(oracle.receive(0, removed(3, None)), Err(Violation::RemovedMissing(3)));
    let mut oracle = Oracle::new(0);
    let moved = MoveToFrontResponse::Success { id: 1 };
    let response = ResponseKind::Move { move_id: 4, value: moved };
    assert_eq!(oracle.receive(0, response), Err(Violation::MovedMissing(4)));
    let mut oracle = Oracle::new(0);
    let value = SwapResponse { error1: None, error2: None };
    let response = ResponseKind::Swap { id1: 1, id2: 2, value };
    assert_eq!(oracle.receive(0, response), Err(Violation::SwappedMissing(1, 2)));
    let mut oracle = Oracle::new(0);
    assert_eq!(oracle.receive(0, added(9, b"")), Ok(()));
    assert_eq!(oracle.receive(1, removed(9, missing)), Err(Violation::ExistingNotFound(9)));
}

#[test]
fn swaps_exchange_contents() {
    let mut oracle = Oracle::new(0);
    assert_eq!(oracle.receive(0, added(1, b"one")), Ok(()));
    let value = SwapResponse { error1: None, error2: None };
    let response = ResponseKind::Swap { id1: 1, id2: 2, value };
    assert_eq!(oracle.receive(1, response), Ok(()));
    assert!(oracle.agrees(2, b"one"));
    assert_eq!(oracle.ids(), [2]);
}

#[test]
fn drawn_numbers() {
    assert_eq!(
        choose_action(0, 0),
        FuzzAction::Connect { nonblocking: false, required: true }
    );
    assert_eq!(
        choose_action(0, 32),
        FuzzAction::Connect { nonblocking: true, required: false }
    );
    assert_eq!(choose_action(1, 0), FuzzAction::Nothing);
    assert_eq!(choose_action(1, 1), FuzzAction::Disconnect);
    let send = |request| FuzzAction::Send { request, connect_first: true };
    assert_eq!(choose_action(2, 0), send(RequestKind::Add));
    assert_eq!(choose_action(6, 0), send(RequestKind::Gc));
    assert_eq!(choose_action(7, 3), FuzzAction::Validate);
    assert_eq!(drawn_ring(0), RingKind::Favorites);
    assert_eq!(drawn_ring(1), RingKind::Main);
    assert_eq!(drawn_gc_limit(0, 50), 0);
    assert_eq!(drawn_gc_limit(1, 50), 51);
}

#[test]
fn numbers_of_the_system_agree() {
    let texts = [
        "1", "+1", "-1", "0", "-0", "", "+", "-", "--1", "1 1", "00012", "2147483647",
        "2147483648", "-2147483648", "-2147483649", "99999999999", "1x99999999999", "x", "\u{661}",
    ];
    for text in texts {
        let expected = text.parse::<i32>().ok().filter(|pid| *pid != 0);
        assert_eq!(read_lock_file_pid(format!("{text}\n").as_bytes()).ok(), expected, "{text:?}");
        if text.len() <= 8 {
            let padded = format!("\u{2003}{text}\n");
            assert_eq!(read_lock_file_pid(padded.as_bytes()).ok(), expected, "{text:?}");
        }
    }
}
