//! The request, response and notification envelopes of the session protocol.
use vstd::prelude::*;
use crate::error::{error_message, LogError};
use crate::layout::DisplayLine;

verus! {

/// What a message asks for or announces.
#[derive(Clone, Copy, Debug, PartialEq, Eq, Structural)]
pub enum Method {
    /// Request to list all available logsets
    List,
    /// Request to change which logset to display and tail
    Logs,
    /// Notification from the server, additional display lines
    Tail,
    /// Notification from the server that the logset has fused,
    /// or no more tailing is possible
    Done,
}

/// The part every request shares.
#[derive(Clone, Copy, Debug, PartialEq, Eq, Structural)]
pub struct RequestHeader {
    pub id: u64,
    pub method: Method,
}

/// A request from the client.
#[derive(Clone, Debug)]
pub struct Request<T> {
    pub id: u64,
    pub method: Method,
    pub params: T,
}

/// A message from the server that answers no request.
#[derive(Clone, Debug)]
pub struct Notification<T> {
    pub method: Method,
    pub params: T,
}

/// The answer to the request `id`.
#[derive(Clone, Debug)]
pub struct Response<T> {
    pub id: u64,
    pub result: Option<T>,
    pub error: Option<Error>,
}

/// Why a request failed.
#[derive(Clone, Debug, PartialEq, Eq)]
pub struct Error {
    pub code: i32,
    pub message: String,
}

/// The parameters of a `logs` request.
#[derive(Clone, Debug, PartialEq, Eq)]
pub struct LogsRequest {
    pub cols: usize,
    pub filter: Option<String>,
    pub log_file: String,
    /// The first row of a one-shot query; `None` asks to follow the file.
    pub from: Option<usize>,
    pub to: Option<usize>,
}

/// The parameters of a `tail` notification.
#[derive(Clone, Debug)]
pub struct LogsTail {
    pub display_lines: Vec<DisplayLine>,
}

/// The protocol code of a library error.
pub open spec fn error_code(e: LogError) -> i32 {
    match e {
        LogError::InvalidFilter => 1,
        LogError::BadTimestamp => 2,
        LogError::LayoutImpossible => 3,
    }
}

impl Error {
    /// The protocol error for a library error.
    pub fn from_log_error(e: LogError) -> (r: Error)
        ensures
            r.code == error_code(e),
            r.message@ == error_message(e),
    {
        let code: i32 = match e {
            LogError::InvalidFilter => 1,
            LogError::BadTimestamp => 2,
            LogError::LayoutImpossible => 3,
        };
        Error { code, message: e.message() }
    }
}

impl<T> Response<T> {
    /// A successful answer to request `id`.
    pub fn success(id: u64, value: T) -> (r: Response<T>)
        ensures
            r.id == id,
            r.result == Some(value),
            r.error is None,
    {
        Response { id, result: Some(value), error: None }
    }

    /// A failed answer to request `id`.
    pub fn failure(id: u64, error: Error) -> (r: Response<T>)
        ensures
            r.id == id,
            r.result is None,
            r.error == Some(error),
    {
        Response { id, result: None, error: Some(error) }
    }
}

} // verus!
