//! Column extraction: the range language, the selection of fields from a
//! split line, and a reader that reads several byte sources one after another.

pub mod extract;
pub mod line;
pub mod range;
pub mod reader;

pub use extract::extract_columns;
pub use line::{format_fields, join_fields, setup, Delimiter, LineFormat, SetupError};
pub use range::{parse_column_range, separate_args, ColumnRange};
pub use reader::{
    source_plan, ByteSource, LoggedOpener, MultipleFileReader, OpenCall, SourceName, SourceOpener,
};
