use excel_splitter::config::{AppConfig, FormulaMode};
use excel_splitter::error::AppError;
use std::path::PathBuf;

#[test]
fn formula_mode_default_is_value() {
    assert_eq!(FormulaMode::default(), FormulaMode::Value);
}

#[test]
fn app_config_default() {
    let c = AppConfig::default();
    assert_eq!(c.input, PathBuf::new());
    assert_eq!(c.output_dir, PathBuf::from("output"));
    assert!(!c.force);
    assert_eq!(c.empty_key_label, "空值");
    assert!(c.create_empty_sheet);
    assert_eq!(c.formula_mode, FormulaMode::Value);
    assert!(c.split_sheets.is_empty());
    assert!(c.common_sheets.is_empty());
}

#[test]
fn error_messages() {
    assert_eq!(AppError::Io(std::io::ErrorKind::NotFound, "x".to_string()).message(), "IO error: x");
    assert_eq!(AppError::Calamine("bad".to_string()).message(), "Calamine error: bad");
    assert_eq!(AppError::XlsxWriter("w".to_string()).message(), "XlsxWriter error: w");
    assert_eq!(AppError::Config("c".to_string()).message(), "Invalid configuration: c");
    assert_eq!(AppError::Unknown("u".to_string()).message(), "Unknown error: u");
}
