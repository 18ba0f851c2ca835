use excel_splitter::config::{AppConfig, SplitSheetConfig};
use excel_splitter::error::AppError;
use excel_splitter::processor::{OutputGroup, SheetRows};
use excel_splitter::reader::{Cell, SheetData, WorkbookData};
use excel_splitter::writer::{check_overwrite, output_file_name, plan_group_sheets};

fn s(t: &str) -> String {
    t.to_string()
}

fn workbook() -> WorkbookData {
    let a = SheetData { name: s("A"), headers: vec![s("h")], rows: vec![vec![Cell::Int(1)], vec![Cell::Int(2)]] };
    let b = SheetData { name: s("B"), headers: vec![s("h")], rows: vec![vec![Cell::Int(3)]] };
    WorkbookData { sheet_order: vec![s("A"), s("B")], sheets: vec![a, b] }
}

fn group(sheets: Vec<(&str, Vec<usize>)>) -> OutputGroup {
    OutputGroup {
        key: s("k/1"),
        safe_key: s("k_1"),
        sheets: sheets.into_iter().map(|(n, r)| SheetRows { name: s(n), rows: r }).collect(),
    }
}

#[test]
fn file_name_adds_extension() {
    assert_eq!(output_file_name(&group(vec![])), "k_1.xlsx");
}

#[test]
fn split_then_common_sheets() {
    let mut cfg = AppConfig::default();
    cfg.common_sheets = vec![s("B"), s("missing")];
    let plans = plan_group_sheets(&cfg, &workbook(), &group(vec![("A", vec![1, 5])])).unwrap();
    assert_eq!(plans.len(), 2);
    assert_eq!(plans[0].name, "A");
    assert_eq!(plans[0].source, Some(0));
    assert_eq!(plans[0].rows, vec![Some(1), None]);
    assert_eq!(plans[1].name, "B");
    assert_eq!(plans[1].source, Some(1));
    assert_eq!(plans[1].rows, vec![Some(0)]);
}

#[test]
fn empty_group_gets_sheet1() {
    let cfg = AppConfig::default();
    let plans = plan_group_sheets(&cfg, &workbook(), &group(vec![])).unwrap();
    assert_eq!(plans.len(), 1);
    assert_eq!(plans[0].name, "Sheet1");
    assert_eq!(plans[0].source, None);
    assert!(plans[0].rows.is_empty());
    let mut off = AppConfig::default();
    off.create_empty_sheet = false;
    assert!(plan_group_sheets(&off, &workbook(), &group(vec![])).unwrap().is_empty());
}

#[test]
fn missing_split_sheet_is_an_error() {
    let cfg = AppConfig::default();
    match plan_group_sheets(&cfg, &workbook(), &group(vec![("A", vec![0]), ("Z", vec![0])])) {
        Err(AppError::Config(m)) => assert_eq!(m, "Sheet 'Z' not found"),
        _ => panic!("expected an error"),
    }
}

#[test]
fn overwrite_only_when_forced() {
    assert!(check_overwrite(false, false, "a.xlsx").is_ok());
    assert!(check_overwrite(true, true, "a.xlsx").is_ok());
    match check_overwrite(true, false, "out/a.xlsx") {
        Err(AppError::Io(kind, m)) => {
            assert_eq!(kind, std::io::ErrorKind::AlreadyExists);
            assert_eq!(m, "File already exists: out/a.xlsx");
        }
        _ => panic!("expected an error"),
    }
}

#[test]
fn planned_groups_write_all_their_rows() {
    let wb = workbook();
    let mut cfg = AppConfig::default();
    cfg.split_sheets = vec![SplitSheetConfig { name: s("A"), split_column: s("h"), header_row: 1 }];
    let groups = excel_splitter::processor::plan_outputs(&cfg, &wb).unwrap();
    assert_eq!(groups.len(), 2);
    for g in &groups {
        let plans = plan_group_sheets(&cfg, &wb, g).unwrap();
        for (k, sr) in g.sheets.iter().enumerate() {
            let expect: Vec<Option<usize>> = sr.rows.iter().map(|r| Some(*r)).collect();
            assert_eq!(plans[k].rows, expect);
        }
    }
}
