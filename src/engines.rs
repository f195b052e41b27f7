use crate::error::KvsError;
use crate::protocol::Response;
use vstd::prelude::*;

verus! {

/// A storage engine that serves string keys and values; handles are cloned
/// and shared between workers.
pub trait KvsEngine: Clone + Send + 'static {
    fn set(&self, key: String, value: String) -> Result<(), KvsError>;

    fn get(&self, key: String) -> Result<Option<String>, KvsError>;

    fn remove(&self, key: String) -> Result<(), KvsError>;
}

/// A data directory may be opened with an engine only if no other engine
/// owned it before.
pub fn same_engine_as_last_time(previous: Option<String>, engine: &str) -> (r: Result<(), KvsError>)
    ensures
        match previous {
            Some(p) => if p@ == engine@ {
                r is Ok
            } else {
                r matches Err(KvsError::EngineMismatch { requested, previous: q }) && requested@
                    == engine@ && q@ == p@
            },
            None => r is Ok,
        },
{
    match previous {
        Some(p) => {
            let requested = String::from_str(engine);
            if requested == p {
                Ok(())
            } else {
                Err(KvsError::EngineMismatch { requested, previous: p })
            }
        },
        None => Ok(()),
    }
}

/// What a client makes of the server's answer to a `get`.
pub fn get_result(response: Response) -> (r: Result<Option<String>, KvsError>)
    ensures
        match response {
            Response::Success(v) => r == Ok::<Option<String>, KvsError>(v),
            Response::Failure(m) => r == Err::<Option<String>, KvsError>(KvsError::StringError(m)),
        },
{
    match response {
        Response::Success(v) => Ok(v),
        Response::Failure(m) => Err(KvsError::StringError(m)),
    }
}

/// What a client makes of the server's answer to a `set` or a `remove`.
pub fn unit_result(response: Response) -> (r: Result<(), KvsError>)
    ensures
        match response {
            Response::Success(_) => r is Ok,
            Response::Failure(m) => r == Err::<(), KvsError>(KvsError::StringError(m)),
        },
{
    match response {
        Response::Success(_) => Ok(()),
        Response::Failure(m) => Err(KvsError::StringError(m)),
    }
}

/// The answer to a `get`: the value read, or the error's message.
pub fn get_response(result: Result<Option<String>, String>) -> (r: Response)
    ensures
        match result {
            Ok(v) => r == Response::Success(v),
            Err(m) => r == Response::Failure(m),
        },
{
    match result {
        Ok(v) => Response::Success(v),
        Err(m) => Response::Failure(m),
    }
}

/// The answer to a `set` or a `remove`: no value, or the error's message.
pub fn unit_response(result: Result<(), String>) -> (r: Response)
    ensures
        match result {
            Ok(_) => r == Response::Success(None),
            Err(m) => r == Response::Failure(m),
        },
{
    match result {
        Ok(_) => Response::Success(None),
        Err(m) => Response::Failure(m),
    }
}

} // verus!
