//! Ingestion of wide-format calendar CSV files.
//!
//! Each record holds a base date in its first field, written `MM/DD/YYYY`,
//! followed by one observation per successive calendar month. A record becomes
//! a [`csv_parser::RowData`]: the Unix timestamps (UTC midnight) of the months
//! whose date exists, paired with the observations written for them.
//!
//! - [`calendar`]: which dates exist, their timestamps, and month arithmetic.
//! - [`date_text`]: the base date as it is written.
//! - [`numeric`]: the grammar of an observation.
//! - [`text`]: bytes as text, splitting, and decimal numbers.
//! - [`csv_parser`]: records into rows, and a file into a dataset.
//!
//! One failing record fails its file: no part of a dataset is handed out.

pub mod calendar;
pub mod csv_parser;
pub mod date_text;
pub mod numeric;
pub mod text;
