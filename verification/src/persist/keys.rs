//! NVS keys — exactly four.

use vstd::prelude::*;

verus! {

pub const IM_CURSOR: &'static str = "im_cursor";

pub const REPLY_MAP: &'static str = "reply_map";

pub const BLOCK_LIST: &'static str = "block_list";

pub const FWD_ENABLED: &'static str = "fwd_enabled";

} // verus!
