//! Error values surfaced by the library.

use vstd::prelude::*;
use vstd::string::StringExecFns;
use vstd::utf8::decode_utf8;
use crate::bytes::dec_of;

verus! {

/// Everything a library operation can fail with.
#[derive(Debug)]
pub enum Error {
    /// A vector's length differs from the collection's dimension.
    DimensionMismatch {
        /// Dimension the collection was created with.
        expected: usize,
        /// Dimension of the offending vector.
        got: usize,
    },
    /// An insert named an identifier that is already present.
    DuplicateId(u64),
    /// An update or lookup named an identifier that is not present.
    NotFound(u64),
    /// A filter was rejected.
    InvalidFilter(String),
    /// A payload could not be used.
    PayloadError(String),
    /// An empty vector where one with elements is needed.
    EmptyVector,
    /// A storage operation failed.
    IoError(String),
    /// The write-ahead log is corrupted.
    WalCorrupted(String),
    /// The collection's files or metadata cannot be used.
    CollectionError(String),
}

/// Decimal rendering of a number as characters.
pub open spec fn dec_chars(n: nat) -> Seq<char> {
    decode_utf8(dec_of(n))
}

/// The message text of each error.
pub open spec fn spec_message(e: Error) -> Seq<char> {
    match e {
        Error::DimensionMismatch { expected, got } => "dimension mismatch: expected "@ + dec_chars(
            expected as nat,
        ) + ", got "@ + dec_chars(got as nat),
        Error::DuplicateId(id) => "duplicate vector id: "@ + dec_chars(id as nat),
        Error::NotFound(id) => "vector not found: "@ + dec_chars(id as nat),
        Error::InvalidFilter(m) => "invalid filter: "@ + m@,
        Error::PayloadError(m) => "payload error: "@ + m@,
        Error::EmptyVector => "empty vector not allowed"@,
        Error::IoError(m) => "io error: "@ + m@,
        Error::WalCorrupted(m) => "WAL corrupted: "@ + m@,
        Error::CollectionError(m) => "collection error: "@ + m@,
    }
}

/// Renders a number in decimal as a string.
pub fn dec_string(n: u64) -> (r: String)
    ensures
        r@ == dec_chars(n as nat),
{
    let digits = crate::bytes::u64_to_dec(n);
    proof {
        crate::bytes::lemma_dec_of_digits(n as nat);
        lemma_digits_valid_utf8(digits@);
    }
    match crate::json::string_from_utf8(digits) {
        Some(s) => s,
        None => {
            proof {
                assert(false);
            }
            String::new()
        },
    }
}

/// A sequence of decimal digit bytes is valid UTF-8.
proof fn lemma_digits_valid_utf8(b: Seq<u8>)
    requires
        forall|i: int| 0 <= i < b.len() ==> crate::bytes::is_digit(#[trigger] b[i]),
    ensures
        vstd::utf8::valid_utf8(b),
    decreases b.len(),
{
    if b.len() > 0 {
        assert(crate::bytes::is_digit(b[0]));
        assert(vstd::utf8::is_leading_byte_width_1(b[0]));
        assert(vstd::utf8::length_of_first_scalar(b) == 1);
        assert(vstd::utf8::valid_first_scalar(b));
        assert(vstd::utf8::pop_first_scalar(b) =~= b.drop_first());
        lemma_digits_valid_utf8(b.drop_first());
    }
}

impl Error {
    /// The message text of the error.
    pub fn message(&self) -> (r: String)
        ensures
            r@ == spec_message(*self),
    {
        match self {
            Error::DimensionMismatch { expected, got } => {
                let mut s = String::from_str("dimension mismatch: expected ");
                s.append(dec_string(*expected as u64).as_str());
                s.append(", got ");
                s.append(dec_string(*got as u64).as_str());
                proof {
                    assert(s@ =~= spec_message(*self));
                }
                s
            },
            Error::DuplicateId(id) => {
                let mut s = String::from_str("duplicate vector id: ");
                s.append(dec_string(*id).as_str());
                proof {
                    assert(s@ =~= spec_message(*self));
                }
                s
            },
            Error::NotFound(id) => {
                let mut s = String::from_str("vector not found: ");
                s.append(dec_string(*id).as_str());
                proof {
                    assert(s@ =~= spec_message(*self));
                }
                s
            },
            Error::InvalidFilter(m) => {
                let mut s = String::from_str("invalid filter: ");
                s.append(m.as_str());
                proof {
                    assert(s@ =~= spec_message(*self));
                }
                s
            },
            Error::PayloadError(m) => {
                let mut s = String::from_str("payload error: ");
                s.append(m.as_str());
                proof {
                    assert(s@ =~= spec_message(*self));
                }
                s
            },
            Error::EmptyVector => String::from_str("empty vector not allowed"),
            Error::IoError(m) => {
                let mut s = String::from_str("io error: ");
                s.append(m.as_str());
                proof {
                    assert(s@ =~= spec_message(*self));
                }
                s
            },
            Error::WalCorrupted(m) => {
                let mut s = String::from_str("WAL corrupted: ");
                s.append(m.as_str());
                proof {
                    assert(s@ =~= spec_message(*self));
                }
                s
            },
            Error::CollectionError(m) => {
                let mut s = String::from_str("collection error: ");
                s.append(m.as_str());
                proof {
                    assert(s@ =~= spec_message(*self));
                }
                s
            },
        }
    }
}

} // verus!
