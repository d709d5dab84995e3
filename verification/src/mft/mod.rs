//! Reading the NTFS master file table: record parsing, the boot sector and the
//! plan of reads that walks the table's fragments.

pub mod parser;
pub mod reader;
pub mod scan;
pub mod table;
pub mod types;

pub use parser::MftParser;
pub use reader::MftReader;

pub use types::{FileEntry, MftError};
