//! Requests to the object store: their kinds and answers, and the steps by which
//! a client stores a record in an object of its own.
use vstd::prelude::*;

use crate::objstore::StoreError;

verus! {

/// The numbers of the requests.
#[derive(Clone, Copy, Debug, PartialEq, Eq)]
pub struct Opcodes {
    pub create: u32,
    pub create_at: u32,
    pub delete: u32,
    pub set_size: u32,
    pub write: u32,
    pub read: u32,
    pub resize: u32,
    pub flush: u32,
    pub info: u32,
}

/// A request.
#[derive(Clone, Copy, Debug, PartialEq, Eq, Structural)]
pub enum Request {
    /// Create an object that the store numbers.
    Create,
    CreateAt { id: u64 },
    Delete { id: u64 },
    SetSize { id: u64 },
    Write { id: u64 },
    Read { id: u64 },
    /// Not supported.
    Resize,
    Flush,
    Info { id: u64 },
    Unknown,
}

/// The request that a number and its argument stand for.
pub open spec fn request_for(codes: Opcodes, opcode: u32, argument: u64) -> Request {
    if opcode == codes.create {
        Request::Create
    } else if opcode == codes.create_at {
        Request::CreateAt { id: argument }
    } else if opcode == codes.delete {
        Request::Delete { id: argument }
    } else if opcode == codes.set_size {
        Request::SetSize { id: argument }
    } else if opcode == codes.write {
        Request::Write { id: argument }
    } else if opcode == codes.read {
        Request::Read { id: argument }
    } else if opcode == codes.resize {
        Request::Resize
    } else if opcode == codes.flush {
        Request::Flush
    } else if opcode == codes.info {
        Request::Info { id: argument }
    } else {
        Request::Unknown
    }
}

/// Tell a request by its number.
pub fn decode_request(codes: &Opcodes, opcode: u32, argument: u64) -> (request: Request)
    ensures
        request == request_for(*codes, opcode, argument),
{
    if opcode == codes.create {
        Request::Create
    } else if opcode == codes.create_at {
        Request::CreateAt { id: argument }
    } else if opcode == codes.delete {
        Request::Delete { id: argument }
    } else if opcode == codes.set_size {
        Request::SetSize { id: argument }
    } else if opcode == codes.write {
        Request::Write { id: argument }
    } else if opcode == codes.read {
        Request::Read { id: argument }
    } else if opcode == codes.resize {
        Request::Resize
    } else if opcode == codes.flush {
        Request::Flush
    } else if opcode == codes.info {
        Request::Info { id: argument }
    } else {
        Request::Unknown
    }
}

/// The numbers of the errors.
#[derive(Clone, Copy, Debug, PartialEq, Eq)]
pub struct ErrorCodes {
    pub invalid_id: i64,
    pub exists: i64,
    pub not_found: i64,
    pub no_space: i64,
    pub too_large: i64,
    pub io: i64,
}

/// The number of an error.
pub open spec fn error_number(codes: ErrorCodes, error: StoreError) -> i64 {
    match error {
        StoreError::InvalidId => codes.invalid_id,
        StoreError::Exists => codes.exists,
        StoreError::NotFound => codes.not_found,
        StoreError::NoSpace => codes.no_space,
        StoreError::TooLarge => codes.too_large,
        StoreError::Io => codes.io,
    }
}

/// Number an error.
pub fn error_code(codes: &ErrorCodes, error: StoreError) -> (code: i64)
    ensures
        code == error_number(*codes, error),
{
    match error {
        StoreError::InvalidId => codes.invalid_id,
        StoreError::Exists => codes.exists,
        StoreError::NotFound => codes.not_found,
        StoreError::NoSpace => codes.no_space,
        StoreError::TooLarge => codes.too_large,
        StoreError::Io => codes.io,
    }
}

/// The number that a finished request is answered with. A store that numbers an
/// object answers with the number, or with zero where it made none; a size is
/// answered where it is one; other requests are answered with zero.
pub open spec fn answered(
    codes: ErrorCodes,
    request: Request,
    outcome: Result<u64, StoreError>,
) -> int {
    match request {
        Request::Create => match outcome {
            Ok(id) => id as i64 as int,
            Err(_) => 0,
        },
        Request::Info { id } => match outcome {
            Ok(size) => if size <= i64::MAX {
                size as int
            } else {
                codes.not_found as int
            },
            Err(_) => codes.not_found as int,
        },
        Request::Resize => codes.io as int,
        Request::Unknown => -1,
        _ => match outcome {
            Ok(_) => 0,
            Err(error) => error_number(codes, error) as int,
        },
    }
}

/// Number the answer to a finished request other than a read that succeeded.
pub fn answer(codes: &ErrorCodes, request: Request, outcome: Result<u64, StoreError>) -> (answer: i64)
    ensures
        answer == answered(*codes, request, outcome),
{
    match request {
        Request::Create => match outcome {
            Ok(id) => id as i64,
            Err(_) => 0,
        },
        Request::Info { id } => match outcome {
            Ok(size) => if size <= 0x7fff_ffff_ffff_ffff {
                size as i64
            } else {
                codes.not_found
            },
            Err(_) => codes.not_found,
        },
        Request::Resize => codes.io,
        Request::Unknown => -1,
        _ => match outcome {
            Ok(_) => 0,
            Err(error) => error_code(codes, error),
        },
    }
}

/// How far the storing of a record is.
#[derive(Clone, Copy, Debug, PartialEq, Eq, Structural)]
pub enum SaveStage {
    Create,
    SetSize,
    Write,
    Flush,
    Saved,
    Failed,
}

/// The results of the object store that are told apart.
#[derive(Clone, Copy, Debug, PartialEq, Eq)]
pub struct StoreCodes {
    pub ok: i64,
    pub exists: i64,
}

/// The stage after a reply, or after none.
pub open spec fn save_next(stage: SaveStage, reply: Option<i64>, codes: StoreCodes) -> SaveStage {
    let done = reply == Some(codes.ok);
    match stage {
        SaveStage::Create => if done || reply == Some(codes.exists) {
            SaveStage::SetSize
        } else {
            SaveStage::Failed
        },
        SaveStage::SetSize => if done {
            SaveStage::Write
        } else {
            SaveStage::Failed
        },
        SaveStage::Write => if done {
            SaveStage::Flush
        } else {
            SaveStage::Failed
        },
        SaveStage::Flush => if done {
            SaveStage::Saved
        } else {
            SaveStage::Failed
        },
        SaveStage::Saved => SaveStage::Saved,
        SaveStage::Failed => SaveStage::Failed,
    }
}

/// Decide how to go on with the storing of a record.
pub fn save_step(stage: SaveStage, reply: Option<i64>, codes: &StoreCodes) -> (next: SaveStage)
    ensures
        next == save_next(stage, reply, *codes),
{
    let (done, existed): (bool, bool) = match reply {
        Some(result) => (result == codes.ok, result == codes.exists),
        None => (false, false),
    };
    match stage {
        SaveStage::Create => if done || existed {
            SaveStage::SetSize
        } else {
            SaveStage::Failed
        },
        SaveStage::SetSize => if done {
            SaveStage::Write
        } else {
            SaveStage::Failed
        },
        SaveStage::Write => if done {
            SaveStage::Flush
        } else {
            SaveStage::Failed
        },
        SaveStage::Flush => if done {
            SaveStage::Saved
        } else {
            SaveStage::Failed
        },
        SaveStage::Saved => SaveStage::Saved,
        SaveStage::Failed => SaveStage::Failed,
    }
}

/// A record counts as saved only after it was flushed.
pub proof fn law_saved_means_flushed(stage: SaveStage, reply: Option<i64>, codes: StoreCodes)
    requires
        save_next(stage, reply, codes) == SaveStage::Saved,
    ensures
        stage == SaveStage::Saved || (stage == SaveStage::Flush && reply == Some(codes.ok)),
{
}

/// A request is read by its own number, for the object that its argument names.
pub proof fn law_requests_by_their_number(codes: Opcodes, opcode: u32, argument: u64)
    ensures
        match request_for(codes, opcode, argument) {
            Request::Create => opcode == codes.create,
            Request::CreateAt { id } => opcode == codes.create_at && id == argument,
            Request::Delete { id } => opcode == codes.delete && id == argument,
            Request::SetSize { id } => opcode == codes.set_size && id == argument,
            Request::Write { id } => opcode == codes.write && id == argument,
            Request::Read { id } => opcode == codes.read && id == argument,
            Request::Resize => opcode == codes.resize,
            Request::Flush => opcode == codes.flush,
            Request::Info { id } => opcode == codes.info && id == argument,
            Request::Unknown => opcode != codes.create && opcode != codes.create_at && opcode
                != codes.delete && opcode != codes.set_size && opcode != codes.write && opcode
                != codes.read && opcode != codes.resize && opcode != codes.flush && opcode
                != codes.info,
        },
{
}

/// An answer tells the created object or its size where that was asked for, else that
/// all went well; and each failure by its own number.
pub proof fn law_answers_tell_the_outcome(codes: ErrorCodes, id: u64, value: u64, error: StoreError)
    requires
        value <= i64::MAX,
    ensures
        answered(codes, Request::Create, Ok(value)) == value,
        answered(codes, Request::Create, Err(error)) == 0,
        answered(codes, Request::Info { id }, Ok(value)) == value,
        answered(codes, Request::Info { id }, Err(error)) == codes.not_found,
        answered(codes, Request::CreateAt { id }, Ok(value)) == 0,
        answered(codes, Request::Delete { id }, Ok(value)) == 0,
        answered(codes, Request::SetSize { id }, Ok(value)) == 0,
        answered(codes, Request::Write { id }, Ok(value)) == 0,
        answered(codes, Request::Read { id }, Ok(value)) == 0,
        answered(codes, Request::Flush, Ok(value)) == 0,
        answered(codes, Request::Resize, Ok(value)) == codes.io,
        answered(codes, Request::Unknown, Ok(value)) == -1,
        ({
            let code = match error {
                StoreError::InvalidId => codes.invalid_id,
                StoreError::Exists => codes.exists,
                StoreError::NotFound => codes.not_found,
                StoreError::NoSpace => codes.no_space,
                StoreError::TooLarge => codes.too_large,
                StoreError::Io => codes.io,
            };
            &&& answered(codes, Request::CreateAt { id }, Err(error)) == code
            &&& answered(codes, Request::Delete { id }, Err(error)) == code
            &&& answered(codes, Request::SetSize { id }, Err(error)) == code
            &&& answered(codes, Request::Write { id }, Err(error)) == code
            &&& answered(codes, Request::Read { id }, Err(error)) == code
            &&& answered(codes, Request::Flush, Err(error)) == code
        }),
{
}

/// Saving goes from step to step as long as each is done; only the creation may find
/// that the object is there; and a failure is final.
pub proof fn law_saving_takes_every_step(codes: StoreCodes, reply: Option<i64>)
    requires
        codes.ok != codes.exists,
    ensures
        save_next(SaveStage::Create, Some(codes.ok), codes) == SaveStage::SetSize,
        save_next(SaveStage::Create, Some(codes.exists), codes) == SaveStage::SetSize,
        save_next(SaveStage::SetSize, Some(codes.ok), codes) == SaveStage::Write,
        save_next(SaveStage::Write, Some(codes.ok), codes) == SaveStage::Flush,
        save_next(SaveStage::Flush, Some(codes.ok), codes) == SaveStage::Saved,
        reply != Some(codes.ok) ==> save_next(SaveStage::SetSize, reply, codes)
            == SaveStage::Failed && save_next(SaveStage::Write, reply, codes) == SaveStage::Failed
            && save_next(SaveStage::Flush, reply, codes) == SaveStage::Failed,
        reply != Some(codes.ok) && reply != Some(codes.exists) ==> save_next(
            SaveStage::Create,
            reply,
            codes,
        ) == SaveStage::Failed,
        save_next(SaveStage::Failed, reply, codes) == SaveStage::Failed,
        save_next(SaveStage::Saved, reply, codes) == SaveStage::Saved,
{
}

} // verus!
