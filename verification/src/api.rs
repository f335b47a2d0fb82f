//! The surface shared between the runtime core and pluggable language
//! backends: the error type carried across that boundary, the outcome types
//! for handler invocations, and the traits a backend implements so the host
//! can log, schedule background work, and feed records to handlers.

use vstd::prelude::*;

verus! {

/// Error handed across the backend boundary: a single human-readable message.
#[derive(Debug)]
pub enum GearsApiError {
    Msg(String),
}

impl GearsApiError {
    /// The message text carried by the error.
    pub fn get_msg(&self) -> (msg: &str)
        ensures
            match self {
                GearsApiError::Msg(s) => msg@ == s@,
            },
    {
        match self {
            GearsApiError::Msg(s) => s.as_str(),
        }
    }
}

/// Outcome of invoking a function handler: finished synchronously, or held
/// open until an out-of-band reply arrives.
pub enum FunctionCallResult {
    Done,
    Hold,
}

/// Positive or negative processing outcome for one stream record.
pub enum StreamRecordAck {
    Ack,
    Nack(String),
}

/// How a key-space notification consumer is bound: to one exact key, or to
/// every key carrying a prefix.
pub enum RegisteredKeys<'a> {
    Key(&'a str),
    Prefix(&'a str),
}

/// Logging surface the host lends to handlers and backends.
pub trait RedisLogerCtxInterface {
    fn log(&self, msg: &str);
}

/// Services a backend receives for the lifetime of one compiled library:
/// logging and scheduling of background jobs on the host's worker pool.
pub trait CompiledLibraryInterface {
    fn log(&self, msg: &str);

    fn run_on_background<F: FnOnce() + Send + 'static>(&self, job: F);
}

/// A callable function handler registered by a library.
pub trait FunctionCtx {
    fn call(&self, args: &Vec<Vec<u8>>) -> FunctionCallResult;
}

/// One record read from a stream: its id and its field-value pairs.
pub trait StreamRecordInterface {
    fn get_id(&self) -> (u64, u64);

    fn fields(&self) -> Vec<(Vec<u8>, Vec<u8>)>;
}

} // verus!
