//! Length-prefixed framing for reliable, ordered byte streams.
//!
//! A frame on the wire is `MAGIC || LEN || BODY`, where `MAGIC` is a fixed
//! 8-byte sentinel, `LEN` is a big-endian unsigned 32-bit integer equal to the
//! body length, and `BODY` carries `LEN` opaque bytes.
//!
//! [`FrameWriter`] prepends the 12-byte header to a payload. [`FrameParser`]
//! reassembles the original message sequence from arbitrarily fragmented
//! delivery chunks, carrying a partial body or a partial header between calls
//! as residue owned by the caller.
//!
//! The contracts are stated against the state machine [`spec_parse`], and the
//! laws in [`laws`] prove that framing and parsing round-trip under every
//! partitioning of the stream into chunks.

mod error;
mod model;
mod stream_frame;
mod laws;

pub use error::FrameError;
pub use model::ParsedView;
pub use model::ParserState;
pub use model::magic;
pub use model::spec_be32;
pub use model::be32_bytes;
pub use model::frame_of;
pub use model::frames_of;
pub use model::concat_chunks;
pub use model::spec_parse;
pub use model::stream_parse;
pub use model::completed_of;
pub use model::residue_of;
pub use model::completed_views;
pub use model::emissions_ok;
pub use model::drop_terminal;
pub use model::wf_state;
pub use model::residue_state;
pub use model::state_rank;
pub use laws::lemma_parse_emissions;
pub use laws::lemma_residue_wf;
pub use laws::lemma_parse_append;
pub use laws::lemma_parse_one_frame;
pub use laws::lemma_parse_frames;
pub use laws::lemma_stream_flatten;
pub use laws::lemma_round_trip;
pub use laws::lemma_zero_length_frame;
pub use laws::lemma_be32_roundtrip;
pub use stream_frame::FrameWriter;
pub use stream_frame::FrameParser;
pub use stream_frame::ParsedStreamData;
pub use stream_frame::HeaderParsing;
pub use stream_frame::Truncating;
pub use stream_frame::HDR_SIZE;
pub use stream_frame::magic_prefix;
pub use stream_frame::state_of;
pub use stream_frame::emits_of;
pub use stream_frame::pending_header_seq;
pub use stream_frame::is_header;
pub use stream_frame::compose_header_candidat;
pub use stream_frame::has_hdr_first;
pub use stream_frame::has_no_hdr_start;
pub use stream_frame::is_data_size_truncating_next_header;
