//! Pages of one physical stream taken apart into the packets of its logical
//! bitstreams.
pub mod bisect;
pub mod bisect_laws;
pub mod codec_params;
pub mod codec_private;
pub mod comment_laws;
pub mod comments;
pub mod demux_laws;
pub mod demuxer;
pub mod describe_laws;
pub mod duration_laws;
pub mod durations;
pub mod end_laws;
pub mod flush_laws;
pub mod hole_laws;
pub mod index_build;
pub mod logical;
pub mod page_scan;
pub mod param_laws;
pub mod reading_laws;
pub mod round_trip;
pub mod seek;
pub mod seek_index;
pub mod seek_laws;
pub mod stamp_laws;
pub mod target_laws;
pub mod walk_laws;
pub mod whole_laws;

pub use crate::demux::demuxer::{bytes_wanted, input_ended, OggDemuxer, StreamEnd};
