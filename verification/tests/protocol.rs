use ringboard::api::{
    check_version, is_regular_file, read_add_response, read_garbage_collect_response,
    read_move_to_front_response, read_paste_command, read_remove_response, read_swap_response,
    AddRequest, ClientError, GarbageCollectRequest, MoveToFrontRequest, RemoveRequest,
    SwapRequest, REQUEST_LEN,
};
use ringboard::error::{Error, ParsePidError};
use ringboard::protocol::{
    composite_id, decompose_id, AddResponse, IdNotFoundError, MimeType, MoveToFrontResponse,
    Request, RingKind,
};

fn words(words: &[u32]) -> Vec<u8> {
    words.iter().flat_map(|w| w.to_le_bytes()).collect()
}

#[test]
fn ring_kinds() {
    assert_eq!(RingKind::Main.file_name(), "main.ring");
    assert_eq!(RingKind::Favorites.file_name(), "favorites.ring");
    assert_eq!(RingKind::Main.default_max_entries(), 131_070);
    assert_eq!(RingKind::Favorites.default_max_entries(), 1022);
    assert_eq!(RingKind::default(), RingKind::Main);
    assert_eq!((RingKind::Favorites.tag(), RingKind::Main.tag()), (0, 1));
}

#[test]
fn composite_ids_round_trip() {
    for kind in [RingKind::Favorites, RingKind::Main] {
        for index in [0, 1, 7, 0xf_ffff, u32::MAX] {
            assert_eq!(decompose_id(composite_id(kind, index)), Ok((kind, index)));
        }
    }
    assert_eq!(composite_id(RingKind::Main, 3), 0x1_0000_0003);
    assert_eq!(composite_id(RingKind::Favorites, 3), 3);
}

#[test]
fn unknown_rings_are_rejected() {
    assert_eq!(decompose_id(0x2_0000_0000), Err(IdNotFoundError::Ring(2)));
    assert_eq!(decompose_id(u64::MAX), Err(IdNotFoundError::Ring(u32::MAX)));
}

#[test]
fn error_messages() {
    assert_eq!(IdNotFoundError::Ring(42).message(), "invalid ring ID: 42");
    assert_eq!(IdNotFoundError::Entry(0).message(), "invalid entry ID: 0");
    let io = Error::Io { error: "e".to_string(), context: "c".to_string() };
    assert_eq!(io.message(), "An I/O error occurred.");
    let pid = Error::InvalidPidError { error: ParsePidError::Zero, context: String::new() };
    assert_eq!(pid.message(), "Invalid PID.");
    assert_eq!(Error::IdNotFound(IdNotFoundError::Entry(1)).message(), "Id not found.");
    assert_eq!(ClientError::Core(io).message(), "An I/O error occurred.");
}

#[test]
fn client_errors() {
    let mismatch = ClientError::VersionMismatch { expected: 0, actual: 255 };
    assert_eq!(mismatch.message(), "protocol version mismatch");
    assert_eq!(mismatch.attachment().as_deref(), Some("Expected v0 but got v255."));
    let invalid = ClientError::InvalidResponse { context: "Bad AddResponse.".to_string() };
    assert_eq!(invalid.message(), "invalid server response");
    assert_eq!(invalid.attachment().as_deref(), Some("Bad AddResponse."));
    let core = ClientError::from(IdNotFoundError::Ring(9));
    assert_eq!(core.message(), "Id not found.");
    assert!(core.attachment().is_none());
    assert!(matches!(core, ClientError::Core(Error::IdNotFound(IdNotFoundError::Ring(9)))));
}

#[test]
fn add_request_bytes() {
    let mime = MimeType::from("image/png").unwrap();
    let bytes = AddRequest::request(RingKind::Main, mime).as_bytes();
    assert_eq!(bytes.len(), REQUEST_LEN);
    assert_eq!(&bytes[..16], words(&[0, 0, 1, 9]).as_slice());
    assert_eq!(&bytes[16..25], b"image/png");
    assert!(bytes[25..].iter().all(|b| *b == 0));
}

#[test]
fn longest_mime_type_fills_the_request() {
    let mime = MimeType::from(&"m".repeat(96)).unwrap();
    let bytes = AddRequest::request(RingKind::Favorites, mime).as_bytes();
    assert_eq!(bytes.len(), 112);
    assert_eq!(&bytes[..16], words(&[0, 0, 0, 96]).as_slice());
    assert!(bytes[16..].iter().all(|b| *b == b'm'));
}

#[test]
fn other_request_bytes() {
    let start = |request: Request, n: usize| request.as_bytes()[..4 * n].to_vec();
    let id = 0x1_0000_0002;
    assert_eq!(start(MoveToFrontRequest::request(id, None), 6), words(&[1, 0, 2, 1, 2, 0]));
    assert_eq!(
        start(MoveToFrontRequest::request(id, Some(RingKind::Main)), 6),
        words(&[1, 0, 2, 1, 1, 0])
    );
    assert_eq!(
        start(MoveToFrontRequest::request(id, Some(RingKind::Favorites)), 6),
        words(&[1, 0, 2, 1, 0, 0])
    );
    assert_eq!(start(SwapRequest::request(id, 5), 7), words(&[2, 0, 2, 1, 5, 0, 0]));
    assert_eq!(start(RemoveRequest::request(id), 5), words(&[3, 0, 2, 1, 0]));
    assert_eq!(
        start(GarbageCollectRequest::request(u64::MAX), 5),
        words(&[4, 0, u32::MAX, u32::MAX, 0])
    );
}

#[test]
fn different_requests_have_different_bytes() {
    let a = SwapRequest::request(1, 2).as_bytes();
    let b = SwapRequest::request(2, 1).as_bytes();
    let text = AddRequest::request(RingKind::Main, MimeType::from("text").unwrap()).as_bytes();
    let none = AddRequest::request(RingKind::Main, MimeType::new()).as_bytes();
    assert_ne!(a, b);
    assert_ne!(text, none);
}

#[test]
fn only_regular_files_are_handed_over() {
    assert!(is_regular_file(0o100_644));
    assert!(!is_regular_file(0o040_755));
    assert!(!is_regular_file(0o010_600));
    assert!(!is_regular_file(0o140_777));
    assert!(!AddRequest::needs_copy(0o100_600));
    assert!(AddRequest::needs_copy(0o010_600));
}

#[test]
fn add_responses() {
    let response = read_add_response(&words(&[7, 1, 0, 0, 3, 1])).unwrap();
    assert_eq!(response.sequence_number, 0x1_0000_0007);
    assert_eq!(response.value, AddResponse::Success { id: 0x1_0000_0003 });
    for bad in [&words(&[7, 1, 0, 0, 3])[..], &words(&[7, 1, 1, 0, 3, 1])[..], &[]] {
        match read_add_response(bad) {
            Err(ClientError::InvalidResponse { context }) => {
                assert_eq!(context, "Bad AddResponse.");
            }
            _ => panic!("accepted"),
        }
    }
}

#[test]
fn move_responses() {
    let success = read_move_to_front_response(&words(&[1, 0, 0, 0, 5, 1])).unwrap();
    assert_eq!(success.value, MoveToFrontResponse::Success { id: 0x1_0000_0005 });
    let ring = read_move_to_front_response(&words(&[1, 0, 1, 0, 0, 9])).unwrap();
    assert_eq!(ring.value, MoveToFrontResponse::Error(IdNotFoundError::Ring(9)));
    let entry = read_move_to_front_response(&words(&[1, 0, 1, 0, 1, 9])).unwrap();
    assert_eq!(entry.value, MoveToFrontResponse::Error(IdNotFoundError::Entry(9)));
    assert!(read_move_to_front_response(&words(&[1, 0, 1, 0, 2, 9])).is_err());
    assert!(read_move_to_front_response(&words(&[1, 0, 2, 0, 0, 9])).is_err());
    assert!(read_move_to_front_response(&words(&[1, 0])).is_err());
}

#[test]
fn swap_responses() {
    let fine = read_swap_response(&words(&[4, 0, 2, 0, 2, 0])).unwrap();
    assert_eq!((fine.value.error1, fine.value.error2), (None, None));
    let errors = read_swap_response(&words(&[4, 0, 0, 8, 1, 3])).unwrap();
    assert_eq!(errors.value.error1, Some(IdNotFoundError::Ring(8)));
    assert_eq!(errors.value.error2, Some(IdNotFoundError::Entry(3)));
    assert!(read_swap_response(&words(&[4, 0, 3, 0, 2, 0])).is_err());
    assert!(read_swap_response(&words(&[4, 0, 2, 0, 2])).is_err());
}

#[test]
fn remove_and_gc_responses() {
    assert_eq!(read_remove_response(&words(&[4, 0, 2, 0])).unwrap().value.error, None);
    assert_eq!(
        read_remove_response(&words(&[4, 0, 1, 6])).unwrap().value.error,
        Some(IdNotFoundError::Entry(6))
    );
    assert!(read_remove_response(&words(&[4, 0, 9, 6])).is_err());
    assert!(read_remove_response(&[0; 15]).is_err());
    let gc = read_garbage_collect_response(&words(&[4, 0, 10, 1])).unwrap();
    assert_eq!((gc.sequence_number, gc.value.bytes_freed), (4, 0x1_0000_000a));
    assert!(read_garbage_collect_response(&[0; 24]).is_err());
}

#[test]
fn versions_are_compared() {
    assert!(check_version(&[0]).is_ok());
    assert!(matches!(
        check_version(&[3]),
        Err(ClientError::VersionMismatch { expected: 0, actual: 3 })
    ));
    match check_version(&[]) {
        Err(ClientError::InvalidResponse { context }) => assert_eq!(context, "Bad VersionResponse."),
        _ => panic!("accepted"),
    }
    assert!(check_version(&[0, 0]).is_err());
}

#[test]
fn paste_commands() {
    assert!(read_paste_command(1, &[1, 0, 0], 3).is_ok());
    assert!(matches!(
        read_paste_command(1, &[0, 0, 0], 2),
        Err(ClientError::VersionMismatch { expected: 1, actual: 0 })
    ));
    match read_paste_command(1, &[1, 0, 0], 2) {
        Err(ClientError::InvalidResponse { context }) => assert_eq!(context, "Bad paste command."),
        _ => panic!("accepted"),
    }
}
