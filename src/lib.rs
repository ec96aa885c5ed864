pub mod offset_list;
pub mod tree_utils;

pub use offset_list::{Item, OffsetError, OffsetList};
pub use tree_utils::{lte, ranges_within, Range, LAST_RANGE_END};
