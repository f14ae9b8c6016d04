//! What can go wrong with a request, and how a response is classified.
use vstd::prelude::*;

verus! {

/// The failure of a transport, as `reqwest` reports it. It is carried to the
/// caller as it is.
#[verifier::external_type_specification]
#[verifier::external_body]
pub struct ExTransportError(reqwest::Error);

/// The failure of a codec, as `serde_json` reports it. It is carried to the
/// caller as it is.
#[verifier::external_type_specification]
#[verifier::external_body]
pub struct ExCodecError(serde_json::Error);

/// The failures that a caller can be handed. None is retried or recovered here.
#[derive(Debug)]
pub enum RequestError {
    /// The request could not be built or sent, or no response came back.
    Reqwest(reqwest::Error),
    /// A body could not be decoded; `msg` is the text that was received.
    Serde { error: serde_json::Error, msg: String },
    /// The server answered with a status from 400 to 499; the text of the
    /// response comes with it.
    ClientError(u16, String),
    /// The server answered with a status that is neither a success nor a
    /// client error, such as one from 500 to 599; the text of the response
    /// comes with it.
    ServerError(u16, String),
    /// A page could not be written into the URL of a request.
    Pagination { msg: String },
}

/// Whether `status` reports a success: 200 to 299.
pub open spec fn is_success(status: u16) -> bool {
    200 <= status < 300
}

/// Whether `status` reports a mistake of the client: 400 to 499.
pub open spec fn is_client_error(status: u16) -> bool {
    400 <= status < 500
}

/// What an exchange with the server amounts to, as a function of the status and
/// of whether a response came at all.
pub open spec fn classified(
    outcome: Result<(u16, String), reqwest::Error>,
) -> Result<String, RequestError> {
    match outcome {
        Err(error) => Err(RequestError::Reqwest(error)),
        Ok((status, body)) => if is_success(status) {
            Ok(body)
        } else if is_client_error(status) {
            Err(RequestError::ClientError(status, body))
        } else {
            Err(RequestError::ServerError(status, body))
        },
    }
}

/// Classifies the outcome of sending a request. `outcome` is the failure of the
/// transport, or the status of the response with the text of its body. A
/// success hands the body on to be decoded; every other status is an error
/// that carries status and body, whatever the body holds.
pub fn classify(outcome: Result<(u16, String), reqwest::Error>) -> (r: Result<String, RequestError>)
    ensures
        r == classified(outcome),
{
    match outcome {
        Err(error) => Err(RequestError::Reqwest(error)),
        Ok((status, body)) => {
            if 200 <= status && status < 300 {
                Ok(body)
            } else if 400 <= status && status < 500 {
                Err(RequestError::ClientError(status, body))
            } else {
                Err(RequestError::ServerError(status, body))
            }
        },
    }
}

/// Turns the result of decoding a body into the result of the request: a
/// codec failure becomes [`RequestError::Serde`] and keeps the text it was given.
pub fn decoded<T>(parsed: Result<T, serde_json::Error>, body: String) -> (r: Result<T, RequestError>)
    ensures
        r == match parsed {
            Ok(value) => Ok::<T, RequestError>(value),
            Err(error) => Err(RequestError::Serde { error, msg: body }),
        },
{
    match parsed {
        Ok(value) => Ok(value),
        Err(error) => Err(RequestError::Serde { error, msg: body }),
    }
}

} // verus!
