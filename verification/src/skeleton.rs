//! The Ogg Skeleton metadata bitstream, versions 3.0 and 4.0.
//!
//! Skeleton is a logical bitstream that describes the other logical bitstreams
//! of a physical stream: a `fishead` packet, one `fisbone` packet for each
//! content track, and in 4.0 `index` packets with keyframe positions.
pub mod bone;
pub mod content_type;
pub mod display_hint;
pub mod head;
pub mod header_laws;
pub mod index;
pub mod parameters;
pub mod role;
pub mod state;
pub mod title_name;

pub use crate::skeleton::bone::{
    FisBone, MessageHeader, FISBONE_FIXED_LEN, FISBONE_MAGIC, FISBONE_MSG_HEADER_OFFSET,
};
pub use crate::skeleton::content_type::{ContentType, ContentTypeKind};
pub use crate::skeleton::display_hint::{DisplayCoord, DisplayHint};
pub use crate::skeleton::head::{
    FisHead, Rational, Version, FISHEAD_LEN_3_0, FISHEAD_LEN_4_0, FISHEAD_MAGIC,
};
pub use crate::skeleton::index::{
    read_vbi_u64, write_vbi_u64, KeyPoint, SkelIndex, INDEX_MAGIC,
};
pub use crate::skeleton::role::{Role, RoleKind};
pub use crate::skeleton::state::{is_fisbone, is_fishead, is_index, Skeleton};
pub use crate::skeleton::title_name::{Name, Title};
