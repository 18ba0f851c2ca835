use excel_splitter::config::{AppConfig, SplitSheetConfig};
use excel_splitter::error::AppError;
use excel_splitter::processor::{make_safe_filename, plan_defined_check, plan_outputs, safe_name_ok, try_plan_outputs, OutputGroup};
use excel_splitter::reader::{Cell, SheetData, WorkbookData};

fn s(t: &str) -> String {
    t.to_string()
}

/// The naming rule written directly on `str` bytes, for comparison.
fn reference_safe(key: &str) -> String {
    let mut result = String::new();
    for ch in key.chars() {
        match ch {
            '\\' | '/' | ':' | '*' | '?' | '"' | '<' | '>' | '|' => result.push('_'),
            c => result.push(c),
        }
    }
    if result.is_empty() {
        result = "empty".to_string();
    }
    if result.len() > 200 {
        result = result[..200].to_string();
    }
    result
}

#[test]
fn safe_filename_replaces_forbidden_chars() {
    assert_eq!(make_safe_filename("a/b\\c:d*e?f\"g<h>i|j"), "a_b_c_d_e_f_g_h_i_j");
    assert_eq!(make_safe_filename("销售部"), "销售部");
}

#[test]
fn safe_filename_of_empty_key() {
    assert_eq!(make_safe_filename(""), "empty");
}

#[test]
fn safe_filename_cut_at_200_bytes() {
    let long = "x".repeat(250);
    assert_eq!(make_safe_filename(&long), "x".repeat(200));
    let exact = "y".repeat(200);
    assert_eq!(make_safe_filename(&exact), exact);
    let cjk = format!("{}{}", "中".repeat(66), "ab") + &"c".repeat(10);
    assert!(safe_name_ok(&cjk));
    assert_eq!(make_safe_filename(&cjk), reference_safe(&cjk));
    assert_eq!(make_safe_filename(&cjk).len(), 200);
}

#[test]
fn safe_filename_undefined_where_cut_splits_a_char() {
    let cjk = "中".repeat(67);
    assert!(!safe_name_ok(&cjk));
    assert!(safe_name_ok(&"中".repeat(66)));
    assert!(safe_name_ok("short"));
}

#[test]
fn safe_filename_matches_reference() {
    for k in ["", "a", "a/b", "::", &"é".repeat(150), &"ab".repeat(120), &"𝄞".repeat(60)] {
        if safe_name_ok(k) {
            assert_eq!(make_safe_filename(k), reference_safe(k), "{:?}", k);
        }
    }
}

fn sheet(name: &str, headers: &[&str], rows: Vec<Vec<Cell>>) -> SheetData {
    SheetData { name: s(name), headers: headers.iter().map(|h| s(h)).collect(), rows }
}

fn workbook() -> WorkbookData {
    let orders = sheet(
        "订单",
        &["部门", "金额"],
        vec![
            vec![Cell::String(s("销售")), Cell::Int(10)],
            vec![Cell::String(s("财务")), Cell::Int(20)],
            vec![Cell::String(s("销售")), Cell::Int(30)],
            vec![Cell::Empty, Cell::Int(40)],
            vec![Cell::String(s("a/b")), Cell::Int(50)],
            vec![Cell::String(s("a_b"))],
            vec![],
        ],
    );
    let staff = sheet(
        "人员",
        &["姓名", "部门"],
        vec![vec![Cell::String(s("张")), Cell::String(s("财务"))], vec![Cell::String(s("李")), Cell::Int(5)]],
    );
    WorkbookData { sheet_order: vec![s("订单"), s("人员")], sheets: vec![orders, staff] }
}

fn config(splits: Vec<(&str, &str)>) -> AppConfig {
    let mut c = AppConfig::default();
    c.split_sheets = splits
        .into_iter()
        .map(|(n, col)| SplitSheetConfig { name: s(n), split_column: s(col), header_row: 1 })
        .collect();
    c
}

fn rows_of(g: &OutputGroup, sheet: &str) -> Option<Vec<usize>> {
    g.sheets.iter().find(|r| r.name == sheet).map(|r| r.rows.clone())
}

#[test]
fn plan_groups_rows_by_key() {
    let wb = workbook();
    let cfg = config(vec![("订单", "部门"), ("人员", "B")]);
    let groups = plan_outputs(&cfg, &wb).unwrap();
    let keys: Vec<&str> = groups.iter().map(|g| g.key.as_str()).collect();
    let mut sorted = keys.clone();
    sorted.sort();
    assert_eq!(keys, sorted);
    assert_eq!(keys, vec!["5", "a/b", "空值", "财务", "销售"]);
    let sales = groups.iter().find(|g| g.key == "销售").unwrap();
    assert_eq!(rows_of(sales, "订单"), Some(vec![0, 2]));
    assert_eq!(rows_of(sales, "人员"), None);
    let fin = groups.iter().find(|g| g.key == "财务").unwrap();
    assert_eq!(rows_of(fin, "订单"), Some(vec![1]));
    assert_eq!(rows_of(fin, "人员"), Some(vec![0]));
    let ab = groups.iter().find(|g| g.key == "a/b").unwrap();
    assert_eq!(ab.safe_key, "a_b");
    assert_eq!(rows_of(ab, "订单"), Some(vec![4, 5]));
    let empty = groups.iter().find(|g| g.key == "空值").unwrap();
    assert_eq!(rows_of(empty, "订单"), Some(vec![3, 6]));
}

#[test]
fn keys_that_share_a_file_name_share_a_group() {
    let wb = workbook();
    let cfg = config(vec![("订单", "部门")]);
    let groups = plan_outputs(&cfg, &wb).unwrap();
    assert!(groups.iter().all(|g| g.key != "a_b"));
    let mut names: Vec<&str> = groups.iter().map(|g| g.safe_key.as_str()).collect();
    let n = names.len();
    names.dedup();
    assert_eq!(names.len(), n);
}

#[test]
fn every_row_lands_in_exactly_one_group() {
    let wb = workbook();
    let cfg = config(vec![("订单", "A"), ("人员", "部门")]);
    let groups = plan_outputs(&cfg, &wb).unwrap();
    let total: usize = groups.iter().flat_map(|g| g.sheets.iter()).map(|r| r.rows.len()).sum();
    assert_eq!(total, 9);
}

#[test]
fn plan_reports_missing_sheet() {
    let wb = workbook();
    let cfg = config(vec![("订单", "部门"), ("无", "部门")]);
    match plan_outputs(&cfg, &wb) {
        Err(AppError::Config(m)) => assert_eq!(m, "Sheet '无' not found"),
        _ => panic!("expected a configuration error"),
    }
}

#[test]
fn plan_reports_missing_column() {
    let wb = workbook();
    let cfg = config(vec![("订单", "不存在")]);
    match plan_outputs(&cfg, &wb) {
        Err(AppError::Config(m)) => assert_eq!(m, "Column '不存在' not found in sheet '订单'"),
        _ => panic!("expected a configuration error"),
    }
}

#[test]
fn plan_with_no_split_sheets_is_empty() {
    let wb = workbook();
    let groups = plan_outputs(&config(vec![]), &wb).unwrap();
    assert!(groups.is_empty());
}

#[test]
fn try_plan_refuses_a_key_cut_inside_a_char() {
    let long = "中".repeat(67);
    let wb = WorkbookData {
        sheet_order: vec![s("S")],
        sheets: vec![sheet("S", &["k"], vec![vec![Cell::String(long)]])],
    };
    let cfg = config(vec![("S", "k")]);
    assert!(!plan_defined_check(&cfg, &wb));
    assert!(try_plan_outputs(&cfg, &wb).is_none());
    let cfg2 = config(vec![("X", "k"), ("S", "k")]);
    assert!(plan_defined_check(&cfg2, &wb));
    assert!(matches!(try_plan_outputs(&cfg2, &wb), Some(Err(_))));
}

#[test]
fn custom_empty_label() {
    let wb = workbook();
    let mut cfg = config(vec![("订单", "部门")]);
    cfg.empty_key_label = s("none");
    let groups = plan_outputs(&cfg, &wb).unwrap();
    assert!(groups.iter().any(|g| g.key == "none"));
}

#[test]
fn each_row_once_and_rows_belong_to_their_group() {
    let wb = workbook();
    let cfg = config(vec![("订单", "部门"), ("人员", "部门")]);
    let groups = plan_outputs(&cfg, &wb).unwrap();
    let mut seen = std::collections::HashSet::new();
    for g in &groups {
        for sr in &g.sheets {
            let sheet = wb.sheets.iter().find(|s| s.name == sr.name).unwrap();
            for &r in &sr.rows {
                assert!(seen.insert((sr.name.clone(), r)), "row listed twice");
                let key = excel_splitter::reader::row_key(&sheet.rows[r], if sr.name == "订单" { 0 } else { 1 }, &cfg.empty_key_label);
                assert_eq!(make_safe_filename(&key), g.safe_key);
            }
        }
    }
    assert_eq!(seen.len(), 7 + 2);
}

#[test]
fn safe_names_are_valid_and_stable() {
    for k in ["", "a/b", "x:y*z", &"长".repeat(66), &"q".repeat(300)] {
        let n = make_safe_filename(k);
        assert!(!n.is_empty());
        assert!(n.len() <= 200);
        assert!(!n.chars().any(|c| "\\/:*?\"<>|".contains(c)));
        assert_eq!(make_safe_filename(&n), n);
    }
}
