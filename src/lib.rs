//! Reading and writing the metadata blocks of a FLAC stream.
//!
//! A tag is the sequence of typed, length-prefixed blocks between the `fLaC` marker and the
//! audio frames. The library decodes and encodes those blocks with their exact byte layout,
//! keeps blocks of unknown type as they are, gives views of the Vorbis comments and pictures
//! among them, and writes them back in a canonical order. Everything works on bytes in
//! memory; reading and writing files is left to the caller.
use vstd::prelude::*;

pub mod block;
pub mod bytes;
pub mod codec;
pub mod comments;
pub mod fields;
pub mod pictures;
pub mod round_trip;
pub mod tag;

pub use block::{Application, Block, Picture, PictureType, TagError, VorbisComment};
pub use codec::{decode_block, encode_block};
pub use tag::{FlacTag, decode_blocks, is_candidate, skip_metadata};

verus! {

} // verus!
