//! Errors of a run and their messages.

use vstd::prelude::*;
use std::io::ErrorKind;
use crate::text::push_text;

verus! {

/// `std::io::ErrorKind`, whose variants Verus reads.
#[verifier::external_type_specification]
pub struct ExErrorKind(ErrorKind);

/// What can go wrong in a run. Each variant carries the text of its cause.
#[derive(Debug)]
pub enum AppError {
    /// A file-system failure, such as an output file that already exists:
    /// its kind and its message.
    Io(ErrorKind, String),
    /// The workbook could not be read.
    Calamine(String),
    /// An output workbook could not be written.
    XlsxWriter(String),
    /// The configuration names a sheet or column that is not there.
    Config(String),
    /// Anything else.
    Unknown(String),
}

/// The message shown for an error: a prefix naming its kind, then its cause.
pub open spec fn error_message(e: AppError) -> Seq<char> {
    match e {
        AppError::Io(_, s) => "IO error: "@ + s@,
        AppError::Calamine(s) => "Calamine error: "@ + s@,
        AppError::XlsxWriter(s) => "XlsxWriter error: "@ + s@,
        AppError::Config(s) => "Invalid configuration: "@ + s@,
        AppError::Unknown(s) => "Unknown error: "@ + s@,
    }
}

impl AppError {
    /// The message of this error: its kind's prefix, then its cause.
    pub fn message(&self) -> (r: String)
        ensures
            r@ == error_message(*self),
    {
        let mut m = String::new();
        match self {
            AppError::Io(_, s) => {
                push_text(&mut m, "IO error: ");
                push_text(&mut m, s.as_str());
            },
            AppError::Calamine(s) => {
                push_text(&mut m, "Calamine error: ");
                push_text(&mut m, s.as_str());
            },
            AppError::XlsxWriter(s) => {
                push_text(&mut m, "XlsxWriter error: ");
                push_text(&mut m, s.as_str());
            },
            AppError::Config(s) => {
                push_text(&mut m, "Invalid configuration: ");
                push_text(&mut m, s.as_str());
            },
            AppError::Unknown(s) => {
                push_text(&mut m, "Unknown error: ");
                push_text(&mut m, s.as_str());
            },
        }
        m
    }
}

} // verus!
