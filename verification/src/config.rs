//! Run configuration: which sheets are split on which column, which are
//! copied whole, and the output options.

use vstd::prelude::*;
use std::path::PathBuf;

verus! {

/// `std::path::PathBuf`, carried through the configuration unread.
#[verifier::external_type_specification]
#[verifier::external_body]
pub struct ExPathBuf(PathBuf);

/// The path that `PathBuf::from` makes of a text.
pub uninterp spec fn path_of_text(s: Seq<char>) -> PathBuf;

/// `PathBuf::from(&str)`: the path made of the text `s`. The contract names
/// the result as a function of `s`; `PathBuf::from("")` is the empty path
/// that `PathBuf::new` also gives.
#[verifier::external_body]
pub(crate) fn path_from(s: &str) -> (p: PathBuf)
    ensures
        p == path_of_text(s@),
{
    PathBuf::from(s)
}

/// How formula cells are written out.
#[derive(Debug, Clone, Copy, PartialEq, Eq, Structural)]
pub enum FormulaMode {
    /// Write the computed value.
    Value,
    /// Keep the formula.
    Keep,
}

impl Default for FormulaMode {
    fn default() -> (r: Self)
        ensures
            r == FormulaMode::Value,
    {
        FormulaMode::Value
    }
}

/// One sheet to split: its name, the column to split on (a header name or
/// column letters) and the 1-based row that holds the headers.
#[derive(Debug, Clone)]
pub struct SplitSheetConfig {
    pub name: String,
    pub split_column: String,
    pub header_row: usize,
}

/// The whole configuration of a run.
#[derive(Debug)]
pub struct AppConfig {
    pub input: PathBuf,
    pub output_dir: PathBuf,
    pub force: bool,
    pub empty_key_label: String,
    pub create_empty_sheet: bool,
    pub formula_mode: FormulaMode,
    pub split_sheets: Vec<SplitSheetConfig>,
    pub common_sheets: Vec<String>,
}

/// The label that rows without a key are grouped under by default.
pub open spec fn default_empty_label() -> Seq<char> {
    seq!['空', '值']
}

/// The default label as a new string.
pub fn empty_label_text() -> (r: String)
    ensures
        r@ == default_empty_label(),
{
    let mut s = String::new();
    crate::text::push_char(&mut s, '空');
    crate::text::push_char(&mut s, '值');
    s
}

impl Default for AppConfig {
    fn default() -> (r: Self)
        ensures
            r.input == path_of_text(Seq::empty()),
            r.output_dir == path_of_text(seq!['o', 'u', 't', 'p', 'u', 't']),
            !r.force,
            r.empty_key_label@ == default_empty_label(),
            r.create_empty_sheet,
            r.formula_mode == FormulaMode::Value,
            r.split_sheets@.len() == 0,
            r.common_sheets@.len() == 0,
    {
        let empty = "";
        let out = "output";
        proof {
            reveal_strlit("");
            reveal_strlit("output");
            assert(empty@ =~= Seq::<char>::empty());
            assert(out@ =~= seq!['o', 'u', 't', 'p', 'u', 't']);
        }
        AppConfig {
            input: path_from(empty),
            output_dir: path_from(out),
            force: false,
            empty_key_label: empty_label_text(),
            create_empty_sheet: true,
            formula_mode: FormulaMode::Value,
            split_sheets: Vec::new(),
            common_sheets: Vec::new(),
        }
    }
}

} // verus!
