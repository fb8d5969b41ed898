//! Data model shared by the entry parser and the call correlator: one parsed
//! capture record (`Entry`), its best-effort payload summary, and the parse
//! errors a record can produce.

use vstd::prelude::*;

verus! {

/// Which side of an RPC exchange a capture record describes.
#[derive(Clone, Copy, Debug, PartialEq, Eq, Structural)]
pub enum Direction {
    Request,
    Response,
}

/// Best-effort decoded representation of a message body.
///
/// A payload field that is present but fails structural decoding degrades to
/// `Unparsed` rather than failing the whole record.
#[derive(Clone, Debug, PartialEq, Eq)]
pub enum PayloadSummary {
    /// No payload field was present on the record.
    Absent,
    /// The payload field decoded structurally; the inner bytes are kept.
    Decoded(Vec<u8>),
    /// The payload field was present but could not be decoded; the raw bytes
    /// are kept verbatim.
    Unparsed(Vec<u8>),
}

/// Mathematical value of a `PayloadSummary`.
#[verifier::ext_equal]
pub enum PayloadModel {
    Absent,
    Decoded(Seq<u8>),
    Unparsed(Seq<u8>),
}

impl View for PayloadSummary {
    type V = PayloadModel;

    open spec fn view(&self) -> PayloadModel {
        match self {
            PayloadSummary::Absent => PayloadModel::Absent,
            PayloadSummary::Decoded(b) => PayloadModel::Decoded(b@),
            PayloadSummary::Unparsed(b) => PayloadModel::Unparsed(b@),
        }
    }
}

/// One structurally parsed record from a capture file.
#[derive(Clone, Debug, PartialEq, Eq)]
pub struct Entry {
    /// Correlation key: which logical exchange this record belongs to.
    pub stream_id: u64,
    /// Which side of the exchange this record captures.
    pub direction: Direction,
    /// Fully-qualified RPC method path, when the record carried one.
    pub method_name: Option<Vec<u8>>,
    /// Response status code, when the record carried one; 0 means success.
    pub status_code: Option<u64>,
    /// Best-effort decoded message body.
    pub payload_summary: PayloadSummary,
    /// Zero-based position of the record within its file.
    pub sequence_index: usize,
}

/// Mathematical value of an `Entry`.
#[verifier::ext_equal]
pub struct EntryModel {
    pub stream_id: u64,
    pub direction: Direction,
    pub method_name: Option<Seq<u8>>,
    pub status_code: Option<u64>,
    pub payload_summary: PayloadModel,
    pub sequence_index: int,
}

impl View for Entry {
    type V = EntryModel;

    open spec fn view(&self) -> EntryModel {
        EntryModel {
            stream_id: self.stream_id,
            direction: self.direction,
            method_name: match self.method_name {
                Some(m) => Some(m@),
                None => None,
            },
            status_code: self.status_code,
            payload_summary: self.payload_summary@,
            sequence_index: self.sequence_index as int,
        }
    }
}

/// Why one record of a capture file failed to parse. A failed record never
/// blocks parsing of subsequent records.
#[derive(Clone, Debug, PartialEq, Eq)]
pub enum ParseError {
    /// The record is missing or mangles a mandatory structural field
    /// (stream id or direction).
    Malformed { line_number: usize, raw_excerpt: Vec<u8> },
    /// The input ended mid-record: the final record had no terminator.
    Truncated { line_number: usize },
}

/// Mathematical value of a `ParseError`.
#[verifier::ext_equal]
pub enum ParseErrorModel {
    Malformed { line_number: int, raw_excerpt: Seq<u8> },
    Truncated { line_number: int },
}

impl View for ParseError {
    type V = ParseErrorModel;

    open spec fn view(&self) -> ParseErrorModel {
        match self {
            ParseError::Malformed { line_number, raw_excerpt } => ParseErrorModel::Malformed {
                line_number: *line_number as int,
                raw_excerpt: raw_excerpt@,
            },
            ParseError::Truncated { line_number } => ParseErrorModel::Truncated {
                line_number: *line_number as int,
            },
        }
    }
}

} // verus!
