//! A small columnar store for line items and the group-by aggregation that
//! runs directly on its run-length encoded key columns.

pub mod error;
pub mod io;
pub mod le;
pub mod line_item;
pub mod query;
pub mod reader;
pub mod row_group;
pub mod run_cursor;
pub mod runs;
pub mod sort;
pub mod string_column;
pub mod tracked_writer;
pub mod u16_column;

pub use error::FormatError;
pub use line_item::{get_state_index, LineItem};
pub use query::{
    empty_state, populated_groups, query_1_column, update_state_from_row_group,
    QueryOneStateColumn, STATE_SLOTS,
};
pub use reader::ByteReader;
pub use row_group::{
    read_row_group, write_batch, write_row_group, RowGroup, MAX_ROW_GROUP_SIZE,
};
pub use u16_column::{read_u16_column, U16column};
pub use tracked_writer::TrackedWriter;
