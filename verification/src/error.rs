//! What can go wrong while building, opening or querying an index.
use vstd::prelude::*;

use crate::decimal::{decimal_of, write_decimal};
use crate::search::MAX_EDITS;

verus! {

/// The broad class of an [`IndexError`].
#[derive(Debug, Clone, Copy, PartialEq, Eq, Structural)]
pub enum ErrorKind {
    /// The bytes read are not what the format allows.
    InvalidData,
    /// The caller asked for something that the library does not do.
    InvalidInput,
    /// The transducer builder refused an entry.
    Other,
}

/// A failure, with what is needed to tell one cause from another.
#[derive(Debug, Clone, Copy, PartialEq, Eq, Structural)]
pub enum IndexError {
    /// `records.bin` is shorter than its header.
    ShortHeader,
    /// `records.bin` does not start with the magic bytes.
    BadMagic,
    /// `records.bin` is not as long as its header says.
    LengthMismatch,
    /// A `u16` field reaches past the end of the buffer.
    U16OutOfBounds,
    /// A `u32` field reaches past the end of the buffer.
    U32OutOfBounds,
    /// A `u64` field reaches past the end of the buffer.
    U64OutOfBounds,
    /// A string reaches past the end of the buffer.
    StringOutOfBounds,
    /// A string is not UTF-8.
    StringNotUtf8,
    /// There is no postings entry of that number.
    PostingIndex,
    /// There is no record of that id.
    RecordId,
    /// A record's payload reaches past the end of the buffer.
    PayloadOutOfBounds,
    /// `index.fst` is not a transducer.
    NotATransducer,
    /// The transducer builder failed.
    TransducerBuild,
    /// More edits were asked for than a fuzzy query allows.
    TooManyEdits(u32),
}

impl IndexError {
    /// The class of an error: bytes that are not what they should be, a request
    /// that is not served, or a builder that failed.
    pub open spec fn spec_kind(self) -> ErrorKind {
        match self {
            IndexError::TooManyEdits(_) => ErrorKind::InvalidInput,
            IndexError::TransducerBuild => ErrorKind::Other,
            _ => ErrorKind::InvalidData,
        }
    }

    /// The class of this error.
    pub fn kind(&self) -> (kind: ErrorKind)
        ensures
            kind == self.spec_kind(),
    {
        match self {
            IndexError::TooManyEdits(_) => ErrorKind::InvalidInput,
            IndexError::TransducerBuild => ErrorKind::Other,
            _ => ErrorKind::InvalidData,
        }
    }

    /// What an error says. Of the transducer it says what the `fst` crate says of any failure
    /// in the format or the order of keys.
    pub open spec fn text(self) -> Seq<char> {
        match self {
            IndexError::ShortHeader => "records.bin shorter than header"@,
            IndexError::BadMagic => "records.bin bad magic"@,
            IndexError::LengthMismatch => "records.bin length mismatch"@,
            IndexError::U16OutOfBounds => "u16 out of bounds"@,
            IndexError::U32OutOfBounds => "u32 out of bounds"@,
            IndexError::U64OutOfBounds => "u64 out of bounds"@,
            IndexError::StringOutOfBounds => "string out of bounds"@,
            IndexError::StringNotUtf8 => "string not utf-8"@,
            IndexError::PostingIndex => "posting index out of range"@,
            IndexError::RecordId => "record id out of range"@,
            IndexError::PayloadOutOfBounds => "payload out of bounds"@,
            IndexError::NotATransducer => "FST error"@,
            IndexError::TransducerBuild => "FST error"@,
            IndexError::TooManyEdits(n) => "max_edits "@ + decimal_of(n as nat)
                + " exceeds MAX_EDITS "@ + decimal_of(MAX_EDITS as nat),
        }
    }

    /// What this error says.
    pub fn message(&self) -> (message: String)
        ensures
            message@ == self.text(),
    {
        match self {
            IndexError::ShortHeader => "records.bin shorter than header".to_owned(),
            IndexError::BadMagic => "records.bin bad magic".to_owned(),
            IndexError::LengthMismatch => "records.bin length mismatch".to_owned(),
            IndexError::U16OutOfBounds => "u16 out of bounds".to_owned(),
            IndexError::U32OutOfBounds => "u32 out of bounds".to_owned(),
            IndexError::U64OutOfBounds => "u64 out of bounds".to_owned(),
            IndexError::StringOutOfBounds => "string out of bounds".to_owned(),
            IndexError::StringNotUtf8 => "string not utf-8".to_owned(),
            IndexError::PostingIndex => "posting index out of range".to_owned(),
            IndexError::RecordId => "record id out of range".to_owned(),
            IndexError::PayloadOutOfBounds => "payload out of bounds".to_owned(),
            IndexError::NotATransducer => "FST error".to_owned(),
            IndexError::TransducerBuild => "FST error".to_owned(),
            IndexError::TooManyEdits(n) => {
                let mut message = "max_edits ".to_owned();
                message.append(write_decimal(*n as u64).as_str());
                message.append(" exceeds MAX_EDITS ");
                message.append(write_decimal(MAX_EDITS as u64).as_str());
                message
            },
        }
    }
}

/// What is said of too many edits.
pub proof fn law_what_is_said_of_edits(n: u32)
    ensures
        IndexError::TooManyEdits(n).text() == "max_edits "@ + decimal_of(n as nat)
            + " exceeds MAX_EDITS 2"@,
        IndexError::TooManyEdits(n).spec_kind() == ErrorKind::InvalidInput,
{
    reveal_strlit(" exceeds MAX_EDITS ");
    reveal_strlit(" exceeds MAX_EDITS 2");
    assert(decimal_of(2) =~= seq!['2']);
    assert(IndexError::TooManyEdits(n).text() =~= "max_edits "@ + decimal_of(n as nat)
        + " exceeds MAX_EDITS 2"@);
}

} // verus!
