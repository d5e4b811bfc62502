//! Reconstruction of session recordings from an encrypted, framed capture.
//!
//! The recording is a sequence of authenticated ciphertext chunks. Their
//! plaintext is a stream of length-prefixed frames, each carrying a packet
//! from one side of an interactive session. The packets are either split
//! into two raw byte streams, or replayed into a terminal transcript with a
//! companion timing file.
//!
//! Every stage pulls bytes through [`ByteSource`]: [`SliceSource`] over bytes
//! in memory, and [`Ctx`], which decrypts the chunks of another source.

mod bytes;
pub mod data;
pub mod decimal;
pub mod metadata;
pub mod pty;
pub mod source;
pub mod stream;

pub use data::{
    decode_frame, frame_length, generate_data_file, DataDecoder, DataError, DataPacket, DataSource,
};
pub use metadata::{ExitData, Metadata, MetadataError, PTYMetadata, MAX_TIMESTAMP};
pub use pty::{echo_enabled, generate_replay, write_exit_data, PTYParserError};
pub use source::{ByteSource, SliceSource, StreamError};
pub use stream::{write_buf, Ctx, HPKEDecryptionError};
