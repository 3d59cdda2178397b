//! Reading and writing sequence records in the FASTA text format.
//!
//! Lines are classified as comment/blank, header or sequence data; a small
//! state machine turns a stream of lines into records, either one record per
//! pull (`FastaBuffer`) or all at once (`parse`). `Record::as_string` renders a
//! record back to wrapped FASTA text.
pub mod errors;
pub mod text;
pub mod record;
pub mod parser;
pub mod stream;
pub mod lemmas;
