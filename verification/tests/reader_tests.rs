use excel_splitter::config::SplitSheetConfig;
use excel_splitter::reader::{
    build_workbook, column_letters_index, get_column_index, header_of, header_row_for, letters_fit_check,
    preview_columns, row_key, sheet_from_grid, Cell, SheetData, SheetGrid,
};

fn s(t: &str) -> String {
    t.to_string()
}

fn grid() -> SheetGrid {
    SheetGrid {
        width: 3,
        cells: vec![
            vec![Some(Cell::String(s("名称"))), Some(Cell::Int(7)), None],
            vec![Some(Cell::String(s("a"))), Some(Cell::Float(s("1.5"))), Some(Cell::Bool(true))],
            vec![None, Some(Cell::Empty), Some(Cell::String(s("z")))],
        ],
    }
}

#[test]
fn headers_and_rows_from_grid() {
    let sh = sheet_from_grid(s("S"), &grid(), 1);
    assert_eq!(sh.name, "S");
    assert_eq!(sh.headers, vec![s("名称"), s("7"), s("Column3")]);
    assert_eq!(sh.rows.len(), 2);
    assert!(matches!(&sh.rows[0][1], Cell::Float(t) if t == "1.5"));
    assert!(matches!(sh.rows[1][0], Cell::Empty));
    assert!(matches!(&sh.rows[1][2], Cell::String(t) if t == "z"));
}

#[test]
fn header_row_zero_is_first_row() {
    let sh = sheet_from_grid(s("S"), &grid(), 0);
    assert_eq!(sh.headers[0], "名称");
    assert_eq!(sh.rows.len(), 2);
}

#[test]
fn header_row_beyond_grid_gives_nothing() {
    let sh = sheet_from_grid(s("S"), &grid(), 9);
    assert!(sh.headers.is_empty());
    assert!(sh.rows.is_empty());
    let sh = sheet_from_grid(s("S"), &grid(), 3);
    assert_eq!(sh.headers, vec![s("Column1"), s("Column2"), s("z")]);
    assert!(sh.rows.is_empty());
}

#[test]
fn header_texts() {
    assert_eq!(header_of(&Some(Cell::Int(-3)), 0), "-3");
    assert_eq!(header_of(&Some(Cell::Bool(true)), 4), "Column5");
    assert_eq!(header_of(&None, 0), "Column1");
    assert_eq!(header_of(&Some(Cell::String(String::new())), 0), "");
}

#[test]
fn header_row_from_first_matching_config() {
    let cfgs = vec![
        SplitSheetConfig { name: s("A"), split_column: s("x"), header_row: 3 },
        SplitSheetConfig { name: s("A"), split_column: s("y"), header_row: 5 },
    ];
    assert_eq!(header_row_for(&s("A"), &cfgs), 3);
    assert_eq!(header_row_for(&s("B"), &cfgs), 1);
}

#[test]
fn workbook_from_grids() {
    let cfgs = vec![SplitSheetConfig { name: s("B"), split_column: s("x"), header_row: 2 }];
    let wb = build_workbook(vec![s("A"), s("B")], vec![grid(), grid()], &cfgs);
    assert_eq!(wb.sheet_order, vec![s("A"), s("B")]);
    assert_eq!(wb.sheets[0].rows.len(), 2);
    assert_eq!(wb.sheets[1].headers, vec![s("a"), s("1.5"), s("Column3")]);
    assert_eq!(wb.sheets[1].rows.len(), 1);
}

fn sheet(headers: &[&str]) -> SheetData {
    SheetData { name: s("S"), headers: headers.iter().map(|h| s(h)).collect(), rows: vec![] }
}

#[test]
fn column_by_header_then_letters() {
    let sh = sheet(&["部门", "B", "部门"]);
    assert_eq!(get_column_index(&sh, "部门"), Some(2));
    assert_eq!(get_column_index(&sh, "B"), Some(1));
    assert_eq!(get_column_index(&sh, "a"), Some(0));
    assert_eq!(get_column_index(&sh, "aa"), Some(26));
    assert_eq!(get_column_index(&sh, "XFD"), Some(16383));
    assert_eq!(get_column_index(&sh, "A1"), None);
    assert_eq!(get_column_index(&sh, ""), None);
    assert_eq!(get_column_index(&sh, "ß"), Some(512));
    assert_eq!(get_column_index(&sh, "ZZZZZZZZZZZZZZZZZZZZ"), None);
}

#[test]
fn letters() {
    assert_eq!(column_letters_index("A"), Some(0));
    assert_eq!(column_letters_index("Z"), Some(25));
    assert_eq!(column_letters_index("AB"), Some(27));
    assert_eq!(column_letters_index("a"), None);
    assert!(letters_fit_check("ZZZ"));
    assert!(!letters_fit_check("ZZZZZZZZZZZZZZZZZZZZ"));
    assert!(letters_fit_check("1ZZZZZZZZZZZZZZZZZZZZ"));
}

#[test]
fn preview_lists_non_empty_names() {
    let row = vec![
        Some(Cell::String(s("姓名"))),
        None,
        Some(Cell::Float(s("2.5"))),
        Some(Cell::Bool(false)),
        Some(Cell::Int(3)),
        Some(Cell::String(String::new())),
    ];
    assert_eq!(preview_columns(&row), vec![s("姓名"), s("2.5"), s("3")]);
}

#[test]
fn row_keys() {
    let row = vec![Cell::String(s("x")), Cell::String(String::new()), Cell::Int(-2), Cell::Bool(true), Cell::Empty, Cell::Float(s("0.1")), Cell::Error(s("Div0"))];
    let label = s("空值");
    assert_eq!(row_key(&row, 0, &label), "x");
    assert_eq!(row_key(&row, 1, &label), "空值");
    assert_eq!(row_key(&row, 2, &label), "-2");
    assert_eq!(row_key(&row, 3, &label), "true");
    assert_eq!(row_key(&row, 4, &label), "空值");
    assert_eq!(row_key(&row, 5, &label), "0.1");
    assert_eq!(row_key(&row, 6, &label), "空值");
    assert_eq!(row_key(&row, 9, &label), "空值");
}

#[test]
fn letter_columns_are_one_to_one_and_ordered() {
    let sh = sheet(&["名称"]);
    let words = ["a", "Z", "aa", "AZ", "ba", "zz", "aaa", "Xfd", "zzzz"];
    let idx: Vec<usize> = words.iter().map(|w| get_column_index(&sh, w).unwrap()).collect();
    for i in 0..words.len() {
        for j in 0..words.len() {
            let (s, t) = (words[i], words[j]);
            assert_eq!(idx[i] == idx[j], s.to_uppercase() == t.to_uppercase());
            if s.len() < t.len() || (s.len() == t.len() && s.to_uppercase() < t.to_uppercase()) {
                assert!(idx[i] < idx[j], "{} before {}", s, t);
            }
        }
    }
    assert_eq!(get_column_index(&sh, "az"), get_column_index(&sh, "AZ"));
}
