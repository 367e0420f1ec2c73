//! A verified core for a line-oriented, block-structured configuration
//! language (`config` / `edit` / `set` / `append` / `unset` / `next` / `end`)
//! together with a path resolver, a row flattener and a CSV serializer.

pub mod csv;
pub mod exporters;
pub mod laws;
pub mod parser;
pub mod rows;
pub mod text;
pub mod tokenizer;
pub mod value;

pub use csv::{csv_escape, to_csv};
pub use exporters::{extract_addresses, extract_policies};
pub use parser::parse_forti;
pub use rows::{get_by_path, rows_from_node, Row};
pub use tokenizer::tokenize;
pub use value::Value;
