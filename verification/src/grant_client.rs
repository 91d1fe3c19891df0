//! What an application makes of the grant controller's replies.
//!
//! The controller gives an application the capabilities that its signed
//! deployment descriptor allows, and publishes the endpoints that it allows.
use vstd::prelude::*;

verus! {

/// Why a capability was not granted or an endpoint not published.
#[derive(Clone, Copy, Debug, PartialEq, Eq, Structural)]
pub enum Error {
    /// The call failed.
    Ipc { code: i64 },
    /// Memory could not be had or mapped.
    Memory { code: i64 },
    /// The request could not be written down, or the reply makes no sense.
    InvalidRequest,
    /// The controller refused.
    Service { code: i64 },
}

/// The controller's reply.
#[derive(Clone, Copy, Debug, PartialEq, Eq, Structural)]
pub struct Reply {
    pub result: i64,
    pub connection: Option<u64>,
    pub has_memory: bool,
}

/// The length of the request, once it was written down.
pub fn request_len(encoded: Option<usize>) -> (len: Result<usize, Error>)
    ensures
        len == match encoded {
            Some(len) => Ok::<usize, Error>(len),
            None => Err(Error::InvalidRequest),
        },
{
    match encoded {
        Some(len) => Ok(len),
        None => Err(Error::InvalidRequest),
    }
}

/// The connection that a reply brings.
pub open spec fn acquired(reply: Result<Reply, Error>) -> Result<u64, Error> {
    match reply {
        Err(error) => Err(error),
        Ok(reply) => if reply.result < 0 {
            Err(Error::Service { code: reply.result })
        } else {
            match reply.connection {
                Some(connection) => if reply.has_memory {
                    Err(Error::InvalidRequest)
                } else {
                    Ok(connection)
                },
                None => Err(Error::InvalidRequest),
            }
        },
    }
}

/// The capability that a reply to a request for one holds.
pub fn acquire(reply: Result<Reply, Error>) -> (connection: Result<u64, Error>)
    ensures
        connection == acquired(reply),
{
    match reply {
        Err(error) => Err(error),
        Ok(reply) => {
            if reply.result < 0 {
                return Err(Error::Service { code: reply.result });
            }
            if reply.has_memory {
                return Err(Error::InvalidRequest);
            }
            match reply.connection {
                Some(connection) => Ok(connection),
                None => Err(Error::InvalidRequest),
            }
        },
    }
}

/// The generation that a reply tells.
pub open spec fn published(reply: Result<Reply, Error>) -> Result<i64, Error> {
    match reply {
        Err(error) => Err(error),
        Ok(reply) => if reply.result < 1 {
            Err(Error::Service { code: reply.result })
        } else if reply.connection is Some || reply.has_memory {
            Err(Error::InvalidRequest)
        } else {
            Ok(reply.result)
        },
    }
}

/// The generation that a reply to a publication holds.
pub fn publish(reply: Result<Reply, Error>) -> (generation: Result<i64, Error>)
    ensures
        generation == published(reply),
{
    match reply {
        Err(error) => Err(error),
        Ok(reply) => {
            if reply.result < 1 {
                Err(Error::Service { code: reply.result })
            } else if reply.connection.is_some() || reply.has_memory {
                Err(Error::InvalidRequest)
            } else {
                Ok(reply.result)
            }
        },
    }
}

/// A connection is acquired exactly by a reply that is no failure and brings it, and
/// nothing else; a service is published exactly by a positive generation alone.
pub proof fn law_replies_bring_what_was_asked_for(reply: Reply, error: Error)
    ensures
        acquired(Ok(reply)) is Ok <==> reply.result >= 0 && reply.connection is Some
            && !reply.has_memory,
        acquired(Ok(reply)) is Ok ==> acquired(Ok(reply))->Ok_0 == reply.connection->0,
        reply.result < 0 ==> acquired(Ok(reply)) == Err::<u64, Error>(
            Error::Service { code: reply.result },
        ),
        reply.result >= 0 && acquired(Ok(reply)) is Err ==> acquired(Ok(reply))->Err_0
            == Error::InvalidRequest,
        acquired(Err(error)) == Err::<u64, Error>(error),
        published(Ok(reply)) is Ok <==> reply.result > 0 && reply.connection is None
            && !reply.has_memory,
        published(Ok(reply)) is Ok ==> published(Ok(reply))->Ok_0 == reply.result,
        reply.result <= 0 ==> published(Ok(reply)) == Err::<i64, Error>(
            Error::Service { code: reply.result },
        ),
        reply.result > 0 && published(Ok(reply)) is Err ==> published(Ok(reply))->Err_0
            == Error::InvalidRequest,
        published(Err(error)) == Err::<i64, Error>(error),
{
}

} // verus!
