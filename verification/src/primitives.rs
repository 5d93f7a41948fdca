//! The primitives: compaction by flags, concatenation of sequences, and
//! splitting into tokens.  Each is defined in a module of its own and is
//! brought together here.

pub use crate::flatten::{flatten, flatten_by_val};
pub use crate::pack::{
    nc_pack, nc_pack_helper, nc_pack_serial, nc_pack_serial_at, pack, pack_helper, pack_index,
    pack_serial, pack_serial_at, PackError,
};
pub use crate::tokens::{map_tokens, tokens};
