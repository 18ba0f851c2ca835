//! Splitting the rows of spreadsheet workbooks into one output workbook per
//! value of a chosen column: the planning, naming and configuration logic.

pub mod text;
pub mod config;
pub mod error;
pub mod reader;
pub mod processor;
pub mod writer;
pub mod state;
pub mod task;
