//! The Ogg container: pages, packets, multiplexing, demultiplexing, Skeleton
//! metadata and a conformance validator.
//!
//! Nothing here reads or writes files. A caller hands over the bytes that it has
//! read, and takes the bytes that are to be written.
pub mod bytes;
pub mod chars;
pub mod codec_id;
pub mod crc;
pub mod crc_tables;
pub mod demux;
pub mod error;
pub mod framing;
pub mod framing_laws;
pub mod header_packets;
pub mod mux;
pub mod page;
pub mod probe;
pub mod report_laws;
pub mod serial_map;
pub mod single;
pub mod skeleton;
pub mod stream;
pub mod text;
pub mod text_laws;
pub mod theora;
pub mod utf8;
pub mod validate;
pub mod validate_anywhere;
pub mod validate_chain;
pub mod validate_damage;
pub mod validate_group;
pub mod validate_laws;
pub mod validate_meaning;
