//! Requests and responses of the network protocol.
use crate::error::{fixed_message, KvsError};
use vstd::prelude::*;

verus! {

/// A request from a client.
#[derive(Debug)]
pub enum Request {
    /// Get the value of `key`.
    Get {
        /// The key.
        key: String,
    },
    /// Set `key` to `value` (tagged `Set` on the wire).
    Put {
        /// The key.
        key: String,
        /// The value.
        value: String,
    },
    /// Remove `key`.
    Rm {
        /// The key.
        key: String,
    },
}

/// A response to a request.
#[derive(Debug)]
pub struct Response {
    /// The value a `Get` found.
    pub value: Option<String>,
    /// The message of the error the request met.
    pub error: Option<String>,
}

impl Response {
    /// The response to a `Get`: its value, `None` where the key is absent, or
    /// the error's message.
    pub fn of_get(result: Result<Option<String>, KvsError>) -> (r: Response)
        ensures
            result matches Ok(v) ==> r.value == v && r.error is None,
            result is Err ==> r.value is None,
            result matches Err(e) ==> (r.error matches Some(m) && (fixed_message(e) matches Some(t) ==> m@ == t)),
    {
        match result {
            Ok(value) => Response { value, error: None },
            Err(e) => Response { value: None, error: Some(e.message()) },
        }
    }

    /// The response to a `Set` or a remove: empty on success, else the
    /// error's message.
    pub fn of_write(result: Result<(), KvsError>) -> (r: Response)
        ensures
            r.value is None,
            result is Ok <==> r.error is None,
            result matches Err(e) ==> (r.error matches Some(m) && (fixed_message(e) matches Some(t) ==> m@ == t)),
    {
        match result {
            Ok(()) => Response { value: None, error: None },
            Err(e) => Response { value: None, error: Some(e.message()) },
        }
    }
}

} // verus!
