use catten_services::object_requests::{
    answer, decode_request, error_code, ErrorCodes, Opcodes, Request,
};
use catten_services::objstore::StoreError;

const OPCODES: Opcodes = Opcodes {
    create: 1,
    create_at: 2,
    delete: 3,
    set_size: 4,
    write: 5,
    read: 6,
    resize: 7,
    flush: 8,
    info: 9,
};

const ERRORS: ErrorCodes = ErrorCodes {
    invalid_id: -1,
    exists: -2,
    not_found: -3,
    no_space: -4,
    too_large: -5,
    io: -6,
};

#[test]
fn object_requests_are_told_by_their_numbers() {
    let requests = [
        Request::Create,
        Request::CreateAt { id: 42 },
        Request::Delete { id: 42 },
        Request::SetSize { id: 42 },
        Request::Write { id: 42 },
        Request::Read { id: 42 },
        Request::Resize,
        Request::Flush,
        Request::Info { id: 42 },
        Request::Unknown,
    ];
    for (index, request) in requests.iter().enumerate() {
        assert_eq!(decode_request(&OPCODES, index as u32 + 1, 42), *request);
    }
}

#[test]
fn object_requests_are_answered() {
    assert_eq!(answer(&ERRORS, Request::Create, Ok(7)), 7);
    assert_eq!(answer(&ERRORS, Request::Create, Err(StoreError::NoSpace)), 0);
    assert_eq!(answer(&ERRORS, Request::CreateAt { id: 7 }, Ok(7)), 0);
    assert_eq!(answer(&ERRORS, Request::CreateAt { id: 7 }, Err(StoreError::Exists)), -2);
    assert_eq!(answer(&ERRORS, Request::Delete { id: 7 }, Err(StoreError::NotFound)), -3);
    assert_eq!(answer(&ERRORS, Request::Write { id: 7 }, Ok(7)), 0);
    assert_eq!(answer(&ERRORS, Request::Info { id: 7 }, Ok(100)), 100);
    assert_eq!(answer(&ERRORS, Request::Info { id: 7 }, Ok(1 << 63)), -3);
    assert_eq!(answer(&ERRORS, Request::Info { id: 7 }, Err(StoreError::Io)), -3);
    assert_eq!(answer(&ERRORS, Request::Resize, Ok(0)), -6);
    assert_eq!(answer(&ERRORS, Request::Flush, Err(StoreError::Io)), -6);
    assert_eq!(answer(&ERRORS, Request::Unknown, Ok(0)), -1);
}

#[test]
fn store_errors_have_their_numbers() {
    let errors = [
        StoreError::InvalidId,
        StoreError::Exists,
        StoreError::NotFound,
        StoreError::NoSpace,
        StoreError::TooLarge,
        StoreError::Io,
    ];
    for (index, error) in errors.iter().enumerate() {
        assert_eq!(error_code(&ERRORS, *error), -1 - index as i64);
    }
}
