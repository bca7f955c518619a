//! Encoding and decoding of financial transaction records in three formats:
//! a magic-framed big-endian binary layout, CSV with a header line, and
//! blocks of `KEY: value` lines.

pub mod binary;
pub mod compare;
pub mod csv;
pub mod decimal;
pub mod error;
pub mod format;
pub mod record;
pub mod scan;
pub mod text;
pub mod transaction;

pub use binary::BinaryFormat;
pub use compare::{compare_transactions, Comparison};
pub use csv::CsvFormat;
pub use error::{ErrorView, ParseError, ParseResult};
pub use format::Format;
pub use text::TextFormat;
pub use transaction::{Transaction, TransactionStatus, TransactionType, TransactionView};
