use crate::bytes::{be_value, lemma_be_value_bound, lemma_pow256_values, read_be};
use crate::data::{extends, fresh};
use crate::source::{
    coherent, lemma_prefix_take, lemma_taken, read_exact, upcoming, ByteSource, StreamError,
};
use vstd::prelude::*;

verus! {

/// The terminal attached to a recorded session.
#[derive(Clone, Debug)]
pub struct PTYMetadata {
    pub term: Option<String>,
    pub width: u32,
    pub height: u32,
    /// Terminal modes as (name, value) pairs, in recorded order.
    pub modes: Vec<(String, u32)>,
}

/// How a recorded session ended.
#[derive(Clone, Debug)]
pub struct ExitData {
    /// Unix seconds.
    pub timestamp: u64,
    pub status: Option<u32>,
    pub signal: Option<String>,
    pub core_dumped: bool,
    pub error_msg: Option<String>,
}

/// What the recording agent states about a session.
#[derive(Clone, Debug)]
pub struct Metadata {
    /// Unix seconds.
    pub started_at: u64,
    pub data_size: u64,
    /// Hex encoding of the sender's encapsulated key.
    pub encapsulated_key: String,
    pub pty: Option<PTYMetadata>,
    pub exit_data: Option<ExitData>,
}

/// The last second of the year 9999: timestamps up to here have a
/// four-digit calendar year.
pub const MAX_TIMESTAMP: u64 = 253402300799;

impl Metadata {
    /// Timestamps that can be written as calendar dates.
    pub open spec fn wf(&self) -> bool {
        &&& self.started_at <= MAX_TIMESTAMP
        &&& self.exit_data matches Some(e) ==> e.timestamp <= MAX_TIMESTAMP
    }

    /// Reads the metadata header: a 4-byte big-endian length, then that many
    /// bytes of base64. Returns the decoded bytes, which hold the metadata
    /// as JSON.
    pub fn read_encoded<R: ByteSource>(reader: &mut R) -> (r: Result<Vec<u8>, MetadataError>)
        ensures
            extends(old(reader).delivered(), final(reader).delivered()),
            final(reader).faults() >= old(reader).faults(),
            coherent(old(reader)) ==> coherent(final(reader)),
            (coherent(old(reader)) && final(reader).faults() == old(reader).faults()) ==> {
                let got = fresh(final(reader).delivered(), old(reader).delivered().len());
                &&& final(reader).stream() == old(reader).stream()
                &&& got == upcoming(old(reader)).take(got.len() as int)
            },
            ({
                let got = fresh(final(reader).delivered(), old(reader).delivered().len());
                let same_faults = final(reader).faults() == old(reader).faults();
                match r {
                    Ok(v) => {
                        &&& same_faults
                        &&& got.len() >= 4
                        &&& got.len() == 4 + be_value(got.take(4))
                        &&& base64_decoded(got.skip(4)) == Some(v@)
                    },
                    Err(MetadataError::DecodeB64Meta) => {
                        &&& same_faults
                        &&& got.len() >= 4
                        &&& got.len() == 4 + be_value(got.take(4))
                        &&& base64_decoded(got.skip(4)) is None
                    },
                    Err(MetadataError::ReadError(e)) => {
                        ||| !same_faults
                        ||| {
                            &&& e == StreamError::UnexpectedEnd
                            &&& final(reader).at_end()
                            &&& (got.len() < 4 || got.len() < 4 + be_value(got.take(4)))
                        }
                    },
                    Err(MetadataError::DecodeJsonMeta) => false,
                }
            }),
    {
        let ghost d0 = reader.delivered();
        let len_bytes = match read_exact(reader, 4) {
            Ok(b) => b,
            Err(e) => {
                proof { lemma_taken(old(reader), reader); }
                proof { lemma_taken(old(reader), reader); }
                return Err(MetadataError::ReadError(e));
            },
        };
        proof {
            assert(len_bytes@.subrange(0, 4) =~= len_bytes@);
            lemma_be_value_bound(len_bytes@);
            lemma_pow256_values();
        }
        let len: u64 = read_be(len_bytes.as_slice(), 0, 4);
        let ghost d1 = reader.delivered();
        let body = match read_exact(reader, len as usize) {
            Ok(b) => b,
            Err(e) => {
                proof {
                    let df = reader.delivered();
                    assert(df.take(d0.len() as int) =~= df.take(d1.len() as int).take(d0.len() as int));
                    let got = fresh(df, d0.len());
                    assert(d1 =~= d0 + len_bytes@);
                    assert(got.take(4) =~= len_bytes@) by {
                        assert forall|i: int| 0 <= i < 4 implies got[i] == len_bytes@[i] by {
                            assert(df[d0.len() + i] == df.take(d1.len() as int)[d0.len() + i]);
                        }
                    }
                }
                return Err(MetadataError::ReadError(e));
            },
        };
        proof {
            let got = len_bytes@ + body@;
            assert(reader.delivered() =~= d0 + got);
            lemma_prefix_take(d0, got);
            assert(fresh(reader.delivered(), d0.len()) =~= got);
            assert(got.take(4) =~= len_bytes@);
            assert(got.skip(4) =~= body@);
        }
        proof { lemma_taken(old(reader), reader); }
        match decode_base64(body.as_slice()) {
            Some(v) => Ok(v),
            None => Err(MetadataError::DecodeB64Meta),
        }
    }
}

#[derive(Clone, Copy, Debug, PartialEq, Eq)]
pub enum MetadataError {
    ReadError(StreamError),
    DecodeB64Meta,
    DecodeJsonMeta,
}

/// What `base64::decode` yields for the given bytes, standard alphabet with
/// padding; `None` where it reports an error.
pub uninterp spec fn base64_decoded(input: Seq<u8>) -> Option<Seq<u8>>;

/// Relies on `base64::decode` (0.13): decodes the standard alphabet, and its
/// outcome depends on the input bytes alone.
#[verifier::external_body]
pub(crate) fn decode_base64(input: &[u8]) -> (r: Option<Vec<u8>>)
    ensures
        match r {
            Some(v) => base64_decoded(input@) == Some(v@),
            None => base64_decoded(input@) is None,
        },
{
    base64::decode(input).ok()
}

} // verus!
