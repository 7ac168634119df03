//! The diagnostic that a parser attaches to the log.
use vstd::prelude::*;

verus! {

/// A diagnostic payload. The pass hands it to the sink as it found it and
/// never reads the message.
#[derive(Clone, Debug, PartialEq, Eq)]
pub struct ParseError {
    pub msg: String,
}

} // verus!
