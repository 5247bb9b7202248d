//! The decisions of one client connection.
use vstd::prelude::*;

use crate::text::{chars_of, lemma_trim_blank, trim, trim_end_len};

verus! {

/// What a connection does with a line it has read.
#[derive(Debug, Clone, Copy, PartialEq, Eq)]
pub enum LineAction {
    /// The client closed the connection: stop reading.
    Close,
    /// A blank line: read the next one.
    Skip,
    /// Decode the line as a client message.
    Decode,
}

/// The action for a line of `bytes_read` bytes: close at end of input,
/// skip a blank line, decode any other.
pub fn classify_line(bytes_read: usize, line: &str) -> (r: LineAction)
    ensures
        bytes_read == 0 ==> r == LineAction::Close,
        bytes_read > 0 && trim(line@).len() == 0 ==> r == LineAction::Skip,
        bytes_read > 0 && trim(line@).len() > 0 ==> r == LineAction::Decode,
{
    if bytes_read == 0 {
        return LineAction::Close;
    }
    let chars = chars_of(line);
    let k = trim_end_len(&chars);
    proof {
        lemma_trim_blank(line@);
    }
    if k == 0 {
        LineAction::Skip
    } else {
        LineAction::Decode
    }
}

} // verus!
