//! The error taxonomy that the engine surfaces.

use vstd::prelude::*;
use vstd::string::StringExecFns;

verus! {

/// Error kinds surfaced by the store, the codec and the server.
#[derive(Debug, Clone)]
pub enum KvsError {
    /// A filesystem or network failure, reported by the host program.
    Io(String),
    /// A malformed record met during replay or response parsing.
    Encoding(String),
    /// `remove` was asked for a key that is not present.
    KeyNotFound,
    /// An unknown record variant met during replay.
    InvalidCommand(String),
    /// The store path is not a directory.
    InvalidInput(String),
    /// A non-`Set` record sits at an indexed offset.
    Corruption(String),
    /// Bytes read back from an engine are not valid UTF-8.
    Utf8(String),
    /// Any other error.
    Other(String),
}

/// The text of the key-not-found message, which the client recognises to
/// decide its exit status.
pub open spec fn key_not_found_msg() -> Seq<char> {
    seq!['K', 'e', 'y', ' ', 'n', 'o', 't', ' ', 'f', 'o', 'u', 'n', 'd']
}

impl KvsError {
    /// A human-readable message, used in failure frames and on standard
    /// error.  A missing key reports exactly `Key not found`.
    pub fn message(&self) -> (r: String)
        ensures
            self is KeyNotFound ==> r@ == key_not_found_msg(),
    {
        let (head, detail) = match self {
            KvsError::Io(s) => ("IO error: ", Some(s)),
            KvsError::Encoding(s) => ("Encoding error: ", Some(s)),
            KvsError::KeyNotFound => {
                let mut v: Vec<char> = Vec::new();
                v.push('K'); v.push('e'); v.push('y'); v.push(' '); v.push('n'); v.push('o');
                v.push('t'); v.push(' '); v.push('f'); v.push('o'); v.push('u'); v.push('n');
                v.push('d');
                proof {
                    assert(v@ =~= key_not_found_msg());
                }
                return crate::strutil::string_of(&v);
            },
            KvsError::InvalidCommand(s) => ("Invalid command: ", Some(s)),
            KvsError::InvalidInput(s) => ("Invalid input: ", Some(s)),
            KvsError::Corruption(s) => ("Corruption: ", Some(s)),
            KvsError::Utf8(s) => ("Utf8 error: ", Some(s)),
            KvsError::Other(s) => ("Unknown error: ", Some(s)),
        };
        let mut m = head.to_owned();
        match detail {
            Some(s) => {
                m.append(s.as_str());
            },
            None => {},
        }
        m
    }
}

} // verus!
