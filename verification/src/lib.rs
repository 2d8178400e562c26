//! The verified core of a composable-function UI toolkit: a positional
//! memoization cache with invalidatable groups, the call keys that address it,
//! and the plain state of a few widgets.
pub mod cache;
pub mod cache_cell;
pub mod call_key;
pub mod data;
pub mod gap_buffer;
pub mod group_table;
pub mod laws;
pub mod layout;
pub mod model;
pub mod rerun;
pub mod slot;
pub mod table;
pub mod text_edit;
pub mod vec_ops;
pub mod writer;
pub mod writer_model;

pub use cache::Cache;
pub use cache_cell::CacheCell;
pub use call_key::{CallKey, CallKeyStack, CallSite};
pub use data::Data;
pub use gap_buffer::GapBuffer;
pub use group_table::{Group, GroupId};
pub use layout::{Axis, CrossAxisAlignment, MainAxisAlignment, MainAxisSize};
pub use model::{CollectionChange, Model, ValueLens};
pub use slot::Slot;
pub use table::{CacheEntryError, CacheInner, CacheInvalidationToken, DumpLine};
pub use text_edit::{EditState, Movement, Selection, TextEdit, TextEditAction, TextEditResult};
pub use writer::CacheWriter;
