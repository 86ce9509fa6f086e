//! Packets of several logical bitstreams put on pages of one physical stream.
pub mod auto_index;

pub mod chain_laws;
pub mod clean_laws;
pub mod codec_headers;
pub mod index_laws;
pub mod keypoint_laws;
pub mod layout_laws;
pub mod link_laws;
pub mod mux_laws;
pub mod muxer;
pub mod neat_laws;
pub mod order_laws;
pub mod page_times;
pub mod patch_laws;
pub mod refusal_laws;
pub mod serials;
pub mod stamp_laws;
pub mod stream_laws;
pub mod stream_writer;
pub mod tidy;
pub mod time_laws;
pub mod wire;
pub mod xiph;

pub use crate::mux::auto_index::AutoIndexConfig;
pub use crate::mux::muxer::{
    open_concrete, open_with_skeleton, open_with_skeleton_indexed, streams_fit, OggMuxer, Patch,
};
pub use crate::mux::xiph::{xiph_lace, xiph_unlace};
