//! Per-line authorship history of one file, rebuilt from a blame snapshot.
//!
//! Blame hunks (with their commits resolved) become [`Message`] records,
//! which a [`HistoryLog`] groups by commit id: an unseen commit gets a new
//! entry, a repeated hunk is dropped, and other hunks of a known commit add
//! their lines to its entry. The log renders as a date-ordered listing, or
//! as a prompt for a text-generation step.

mod model;
mod normalize;
mod history_log;
mod render;
pub mod laws;

pub use model::{
    Line, LineView, Message, MessageView, absorb, absorb_lines, has_line_no, lines_view, unique_line_nos,
};
pub use normalize::{
    BlameHunk, email_or_unknown, hunk_fits, hunk_lines, hunk_message, line_text, message_from_hunk,
    range_lines, summary_or_none,
};
pub use history_log::{
    HistoryLog, as_ints, blame_log, date_order, history_rows, insert_by_date, merged, order_prefix,
    position_of, prompt_text, rows_in_order, unique_ids, unique_lines_everywhere, with_lines,
};
pub use render::{
    EARLIEST_DATED, LATEST_DATED, date_text, dec, decimal, digit_char, entry_rows, format_date, joined,
    line_row, mdy_of, meta_row, render_entry,
};
