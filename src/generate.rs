//! From document text to the generated file, in either format.
use vstd::prelude::*;
use crate::emit::{
    flatten, json_quoted, json_text, make_json, make_rust, quote_entry, rust_text,
};
use crate::table::{build_table, run_lines, BuildError};

verus! {

/// The two output formats.
#[derive(Debug, Clone, Copy, PartialEq, Eq)]
pub enum Format {
    /// Rust constants.
    Rust,
    /// A JSON document.
    Json,
}

impl Format {
    /// The name of the format as given on the command line.
    pub fn as_str(&self) -> (r: &'static str)
        ensures
            r@ == match self {
                Format::Rust => "rust"@,
                Format::Json => "json"@,
            },
    {
        match self {
            Format::Rust => "rust",
            Format::Json => "json",
        }
    }

    /// The name of the file that the format is written to.
    pub fn file_name(&self) -> (r: &'static str)
        ensures
            r@ == match self {
                Format::Rust => "codes.rs"@,
                Format::Json => "codes.json"@,
            },
    {
        match self {
            Format::Rust => "codes.rs",
            Format::Json => "codes.json",
        }
    }
}

/// Builds the table from the text of a document and writes it out, with the
/// version, in the given format. Fails exactly where the table cannot be
/// built.
pub fn generate(text: &Vec<char>, version: &Vec<char>, format: Format) -> (r: Result<
    Vec<char>,
    BuildError,
>)
    ensures
        run_lines(Seq::empty(), text@, 0) is Ok <==> r is Ok,
        run_lines(Seq::empty(), text@, 0) matches Err(e) ==> r == Err::<Vec<char>, BuildError>(e),
        run_lines(Seq::empty(), text@, 0) matches Ok(banks) ==> r matches Ok(out) && out@ == match format {
            Format::Rust => rust_text(banks, version@),
            Format::Json => json_text(
                json_quoted(version@),
                flatten(banks).map_values(|e: Option<Seq<char>>| quote_entry(e)),
            ),
        },
{
    let table = match build_table(text) {
        Ok(t) => t,
        Err(e) => {
            return Err(e);
        },
    };
    match format {
        Format::Rust => Ok(make_rust(&table, version)),
        Format::Json => Ok(make_json(&table, version)),
    }
}

} // verus!
