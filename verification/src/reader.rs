//! The workbook as the splitter sees it: per sheet its headers and data rows,
//! built from the cells read out of each sheet, and the lookup of sheets and
//! columns by name.

use vstd::prelude::*;
use crate::config::SplitSheetConfig;
use crate::text::{all_ascii, ascii_upper, ascii_upper_char, seq_lt, bool_text, bool_to_text, i64_text, int_text, nat_text, push_char, push_decimal, to_upper, upper_case};

verus! {

/// The value of one cell, as far as splitting and writing need it.
/// Numbers that the workbook stores as floating point are carried as the
/// text that Rust's `Display` gives for them, which reads back exactly.
#[derive(Debug)]
pub enum Cell {
    Int(i64),
    Float(String),
    String(String),
    Bool(bool),
    DateTime(String),
    DateTimeIso(String),
    DurationIso(String),
    Error(String),
    Empty,
}

impl Cell {
    /// A copy of this cell.
    pub fn copy(&self) -> (r: Cell)
        ensures
            r == *self,
    {
        match self {
            Cell::Int(i) => Cell::Int(*i),
            Cell::Float(t) => Cell::Float(t.clone()),
            Cell::String(t) => Cell::String(t.clone()),
            Cell::Bool(b) => Cell::Bool(*b),
            Cell::DateTime(t) => Cell::DateTime(t.clone()),
            Cell::DateTimeIso(t) => Cell::DateTimeIso(t.clone()),
            Cell::DurationIso(t) => Cell::DurationIso(t.clone()),
            Cell::Error(t) => Cell::Error(t.clone()),
            Cell::Empty => Cell::Empty,
        }
    }
}

/// The cells of one sheet as read: `cells[r][c]` is the value at row `r`,
/// column `c` (absolute positions, `None` where the sheet has no value),
/// for the rows and columns that the sheet's used range spans.
pub struct SheetGrid {
    pub width: usize,
    pub cells: Vec<Vec<Option<Cell>>>,
}

impl SheetGrid {
    /// Every row has `width` cells.
    pub open spec fn wf(&self) -> bool {
        forall|r: int| 0 <= r < self.cells@.len() ==> (#[trigger] self.cells@[r])@.len() == self.width
    }
}

/// One sheet: its name, its headers, and its data rows (those below the
/// header row).
#[derive(Debug)]
pub struct SheetData {
    pub name: String,
    pub headers: Vec<String>,
    pub rows: Vec<Vec<Cell>>,
}

/// The whole workbook: its sheet names in order and the data of each sheet.
#[derive(Debug)]
pub struct WorkbookData {
    pub sheet_order: Vec<String>,
    pub sheets: Vec<SheetData>,
}

/// The text `"Column"`.
pub open spec fn column_word() -> Seq<char> {
    seq!['C', 'o', 'l', 'u', 'm', 'n']
}

/// The header of column `col` read from the header cell: a text as it is, a
/// number as its decimal text, otherwise `Column` and the 1-based number.
pub open spec fn header_text(cell: Option<Cell>, col: nat) -> Seq<char> {
    match cell {
        Some(Cell::String(s)) => s@,
        Some(Cell::Float(t)) => t@,
        Some(Cell::Int(i)) => int_text(i as int),
        _ => column_word() + nat_text(col + 1),
    }
}

/// A read cell, or `Empty` where there was none.
pub open spec fn cell_or_empty(cell: Option<Cell>) -> Cell {
    match cell {
        Some(c) => c,
        None => Cell::Empty,
    }
}

/// The 0-based index of the header row given its 1-based number (0 stays 0).
pub open spec fn header_index(header_row: usize) -> int {
    if header_row == 0 { 0 } else { header_row - 1 }
}

/// `s` is the sheet called `name` built from `grid` with the headers in
/// 1-based row `header_row`: when the grid reaches the header row, the
/// headers come from that row and the data rows are all rows below it, each
/// `width` cells wide; otherwise there are no headers and no rows.
pub open spec fn sheet_built(s: SheetData, name: Seq<char>, grid: SheetGrid, header_row: usize) -> bool {
    let h = header_index(header_row);
    let g = grid.cells@;
    &&& s.name@ == name
    &&& if h < g.len() {
        &&& s.headers@.len() == grid.width
        &&& (forall|c: int| 0 <= c < grid.width ==> (#[trigger] s.headers@[c])@ == header_text(g[h]@[c], c as nat))
        &&& s.rows@.len() == g.len() - h - 1
        &&& (forall|k: int| 0 <= k < s.rows@.len() ==> (#[trigger] s.rows@[k])@.len() == grid.width)
        &&& (forall|k: int, c: int| 0 <= k < s.rows@.len() && 0 <= c < grid.width
            ==> (#[trigger] s.rows@[k]@[c]) == cell_or_empty(g[h + 1 + k]@[c]))
    } else {
        &&& s.headers@.len() == 0
        &&& s.rows@.len() == 0
    }
}

/// The header of a column as a new string.
pub fn header_of(cell: &Option<Cell>, col: usize) -> (r: String)
    requires
        col < usize::MAX,
    ensures
        r@ == header_text(*cell, col as nat),
{
    match cell {
        Some(Cell::String(s)) => s.clone(),
        Some(Cell::Float(t)) => t.clone(),
        Some(Cell::Int(i)) => i64_text(*i),
        _ => {
            let mut t = String::new();
            push_char(&mut t, 'C');
            push_char(&mut t, 'o');
            push_char(&mut t, 'l');
            push_char(&mut t, 'u');
            push_char(&mut t, 'm');
            push_char(&mut t, 'n');
            push_decimal(&mut t, (col + 1) as u64);
            t
        },
    }
}

/// Builds the sheet called `name` from its read cells, with the headers in
/// 1-based row `header_row`.
pub fn sheet_from_grid(name: String, grid: &SheetGrid, header_row: usize) -> (r: SheetData)
    requires
        grid.wf(),
    ensures
        sheet_built(r, name@, *grid, header_row),
{
    let h: usize = if header_row == 0 { 0 } else { header_row - 1 };
    let height = grid.cells.len();
    let width = grid.width;
    let mut headers: Vec<String> = Vec::new();
    let mut rows: Vec<Vec<Cell>> = Vec::new();
    if height > h {
        let hrow = &grid.cells[h];
        let mut c: usize = 0;
        while c < width
            invariant
                grid.wf(),
                h < grid.cells@.len(),
                hrow == grid.cells@[h as int],
                width == grid.width,
                c <= width,
                headers@.len() == c,
                forall|j: int| 0 <= j < c ==> (#[trigger] headers@[j])@ == header_text(hrow@[j], j as nat),
            decreases width - c,
        {
            headers.push(header_of(&hrow[c], c));
            c = c + 1;
        }
        let mut r: usize = h + 1;
        while r < height
            invariant
                grid.wf(),
                height == grid.cells@.len(),
                width == grid.width,
                h < r <= height,
                rows@.len() == r - h - 1,
                forall|k: int| 0 <= k < rows@.len() ==> (#[trigger] rows@[k])@.len() == width,
                forall|k: int, j: int| 0 <= k < rows@.len() && 0 <= j < width
                    ==> (#[trigger] rows@[k]@[j]) == cell_or_empty(grid.cells@[h + 1 + k]@[j]),
            decreases height - r,
        {
            let src = &grid.cells[r];
            assert(src@.len() == width);
            let mut row: Vec<Cell> = Vec::new();
            let mut c: usize = 0;
            while c < width
                invariant
                    src@.len() == width,
                    c <= width,
                    row@.len() == c,
                    forall|j: int| 0 <= j < c ==> (#[trigger] row@[j]) == cell_or_empty(src@[j]),
                decreases width - c,
            {
                let v = match &src[c] {
                    Some(x) => x.copy(),
                    None => Cell::Empty,
                };
                row.push(v);
                c = c + 1;
            }
            rows.push(row);
            r = r + 1;
        }
    }
    SheetData { name, headers, rows }
}


/// The index of the first configuration for the sheet called `name`.
pub open spec fn first_config_for(configs: Seq<SplitSheetConfig>, name: Seq<char>) -> Option<int>
    decreases configs.len(),
{
    if configs.len() == 0 {
        None
    } else if configs[0].name@ == name {
        Some(0)
    } else {
        match first_config_for(configs.drop_first(), name) {
            Some(i) => Some(i + 1),
            None => None,
        }
    }
}

/// The 1-based header row of the sheet called `name`: that of the first
/// configuration for it, or 1.
pub open spec fn header_row_of(configs: Seq<SplitSheetConfig>, name: Seq<char>) -> usize {
    match first_config_for(configs, name) {
        Some(i) => configs[i].header_row,
        None => 1,
    }
}

proof fn lemma_first_config_for(configs: Seq<SplitSheetConfig>, name: Seq<char>, i: int)
    requires
        0 <= i <= configs.len(),
        forall|k: int| 0 <= k < i ==> (#[trigger] configs[k]).name@ != name,
    ensures
        first_config_for(configs, name) == (match first_config_for(configs.subrange(i, configs.len() as int), name) {
            Some(j) => Some(j + i),
            None => None::<int>,
        }),
    decreases i,
{
    if i > 0 {
        let t = configs.drop_first();
        lemma_first_config_for(t, name, i - 1);
        assert(t.subrange(i - 1, t.len() as int) =~= configs.subrange(i, configs.len() as int));
    } else {
        assert(configs.subrange(0, configs.len() as int) =~= configs);
    }
}

/// The header row configured for the sheet called `name` (1 when none is).
pub fn header_row_for(name: &String, configs: &Vec<SplitSheetConfig>) -> (r: usize)
    ensures
        r == header_row_of(configs@, name@),
{
    let mut i: usize = 0;
    while i < configs.len()
        invariant
            i <= configs@.len(),
            forall|k: int| 0 <= k < i ==> (#[trigger] configs@[k]).name@ != name@,
        decreases configs@.len() - i,
    {
        if configs[i].name == *name {
            proof {
                lemma_first_config_for(configs@, name@, i as int);
                let t = configs@.subrange(i as int, configs@.len() as int);
                assert(t[0] == configs@[i as int]);
            }
            return configs[i].header_row;
        }
        i = i + 1;
    }
    proof {
        lemma_first_config_for(configs@, name@, i as int);
        assert(configs@.subrange(i as int, configs@.len() as int).len() == 0);
    }
    1
}

/// Builds the workbook from its sheet names in order and the cells read from
/// each sheet, taking each sheet's header row from the configurations.
pub fn build_workbook(names: Vec<String>, grids: Vec<SheetGrid>, configs: &Vec<SplitSheetConfig>) -> (r: WorkbookData)
    requires
        names@.len() == grids@.len(),
        forall|i: int| 0 <= i < grids@.len() ==> (#[trigger] grids@[i]).wf(),
    ensures
        r.sheet_order@ == names@,
        r.sheets@.len() == names@.len(),
        forall|i: int| 0 <= i < names@.len() ==> sheet_built(#[trigger] r.sheets@[i], names@[i]@, grids@[i], header_row_of(configs@, names@[i]@)),
{
    let mut sheets: Vec<SheetData> = Vec::new();
    let mut i: usize = 0;
    while i < names.len()
        invariant
            names@.len() == grids@.len(),
            forall|j: int| 0 <= j < grids@.len() ==> (#[trigger] grids@[j]).wf(),
            i <= names@.len(),
            sheets@.len() == i,
            forall|j: int| 0 <= j < i ==> sheet_built(#[trigger] sheets@[j], names@[j]@, grids@[j], header_row_of(configs@, names@[j]@)),
        decreases names@.len() - i,
    {
        let name = names[i].clone();
        let header_row = header_row_for(&name, configs);
        let sheet = sheet_from_grid(name, &grids[i], header_row);
        sheets.push(sheet);
        i = i + 1;
    }
    WorkbookData { sheet_order: names, sheets }
}

/// The index of the sheet called `name`; with several, the last of them.
pub open spec fn sheet_index(sheets: Seq<SheetData>, name: Seq<char>) -> Option<int>
    decreases sheets.len(),
{
    if sheets.len() == 0 {
        None
    } else if sheets.last().name@ == name {
        Some(sheets.len() - 1)
    } else {
        sheet_index(sheets.drop_last(), name)
    }
}

/// A found sheet index lies within the sheets.
pub proof fn lemma_sheet_index_bounds(sheets: Seq<SheetData>, name: Seq<char>)
    ensures
        sheet_index(sheets, name) matches Some(i) ==> 0 <= i < sheets.len() && sheets[i].name@ == name,
    decreases sheets.len(),
{
    if sheets.len() > 0 && sheets.last().name@ != name {
        lemma_sheet_index_bounds(sheets.drop_last(), name);
    }
}

/// The index of the sheet called `name` in the workbook, if there is one.
pub fn find_sheet(wb: &WorkbookData, name: &String) -> (r: Option<usize>)
    ensures
        r == (match sheet_index(wb.sheets@, name@) {
            Some(i) => Some(i as usize),
            None => None::<usize>,
        }),
        r matches Some(i) ==> i < wb.sheets@.len() && sheet_index(wb.sheets@, name@) == Some(i as int),
{
    proof {
        lemma_sheet_index_bounds(wb.sheets@, name@);
    }
    let mut i: usize = wb.sheets.len();
    assert(wb.sheets@.subrange(0, i as int) =~= wb.sheets@);
    while i > 0
        invariant
            i <= wb.sheets@.len(),
            sheet_index(wb.sheets@, name@) == sheet_index(wb.sheets@.subrange(0, i as int), name@),
        decreases i,
    {
        let ghost pre = wb.sheets@.subrange(0, i as int);
        assert(pre.drop_last() =~= wb.sheets@.subrange(0, i - 1));
        if wb.sheets[i - 1].name == *name {
            return Some(i - 1);
        }
        i = i - 1;
    }
    None
}

/// The last column whose header is `name`.
pub open spec fn header_column(headers: Seq<String>, name: Seq<char>) -> Option<int>
    decreases headers.len(),
{
    if headers.len() == 0 {
        None
    } else if headers.last()@ == name {
        Some(headers.len() - 1)
    } else {
        header_column(headers.drop_last(), name)
    }
}

/// Whether `c` is an ASCII upper-case letter.
pub open spec fn is_upper_letter(c: char) -> bool {
    'A' <= c && c <= 'Z'
}

/// The value of column letters (`A` is 1, `Z` is 26, `AA` is 27, ...).
pub open spec fn letters_value(s: Seq<char>) -> nat
    decreases s.len(),
{
    if s.len() == 0 {
        0
    } else {
        letters_value(s.drop_last()) * 26 + ((s.last() as int) - 64) as nat
    }
}

/// Whether every character of `s` is an upper-case letter.
pub open spec fn all_letters(s: Seq<char>) -> bool {
    forall|k: int| 0 <= k < s.len() ==> is_upper_letter(#[trigger] s[k])
}

/// The value of every leading run of letters of `s` fits in `usize`, so that
/// reading the letters one by one never overflows.
pub open spec fn letters_fit(s: Seq<char>) -> bool {
    forall|k: int| 0 <= k <= s.len() && all_letters(#[trigger] s.take(k)) ==> letters_value(s.take(k)) <= usize::MAX
}

/// The 0-based column that the letters `s` name: `None` when `s` holds
/// anything but upper-case letters, or is empty.
pub open spec fn letters_column(s: Seq<char>) -> Option<usize> {
    if all_letters(s) && letters_value(s) > 0 {
        Some((letters_value(s) - 1) as usize)
    } else {
        None
    }
}

/// Whether the column letters `s` can be read without overflow.
pub fn letters_fit_check(s: &str) -> (r: bool)
    ensures
        r == letters_fit(s@),
{
    let n = s.unicode_len();
    let mut v: usize = 0;
    let mut i: usize = 0;
    assert(s@.take(0) =~= Seq::<char>::empty());
    while i < n
        invariant
            n == s@.len(),
            i <= n,
            all_letters(s@.take(i as int)),
            v as nat == letters_value(s@.take(i as int)),
            forall|k: int| 0 <= k <= i && all_letters(#[trigger] s@.take(k)) ==> letters_value(s@.take(k)) <= usize::MAX,
        decreases n - i,
    {
        let c = s.get_char(i);
        let ghost p = s@.take(i + 1);
        assert(p.drop_last() =~= s@.take(i as int));
        assert(p.last() == c);
        if !('A' <= c && c <= 'Z') {
            assert forall|k: int| 0 <= k <= n && all_letters(#[trigger] s@.take(k)) implies letters_value(s@.take(k)) <= usize::MAX by {
                if k > i {
                    assert(s@.take(k)[i as int] == c);
                }
            }
            return true;
        }
        let d: usize = ((c as u32) - 64) as usize;
        assert(all_letters(p));
        if v > (usize::MAX - d) / 26 {
            proof {
                assert(v * 26 + d > usize::MAX) by (nonlinear_arith)
                    requires
                        v > (usize::MAX - d) / 26,
                        d <= 26,
                ;
            }
            return false;
        }
        proof {
            assert(v * 26 + d <= usize::MAX) by (nonlinear_arith)
                requires
                    v <= (usize::MAX - d) / 26,
                    d <= 26,
            ;
        }
        v = v * 26 + d;
        i = i + 1;
    }
    assert(s@.take(n as int) =~= s@);
    true
}

/// The 0-based column that the upper-case column letters `s` name (`A` is
/// 0), or `None` when `s` is empty or holds anything but `A`..`Z`.
pub fn column_letters_index(s: &str) -> (r: Option<usize>)
    requires
        letters_fit(s@),
    ensures
        r == letters_column(s@),
{
    let n = s.unicode_len();
    let mut v: usize = 0;
    let mut i: usize = 0;
    assert(s@.take(0) =~= Seq::<char>::empty());
    while i < n
        invariant
            n == s@.len(),
            i <= n,
            letters_fit(s@),
            all_letters(s@.take(i as int)),
            v as nat == letters_value(s@.take(i as int)),
        decreases n - i,
    {
        let c = s.get_char(i);
        let ghost p = s@.take(i + 1);
        assert(p.drop_last() =~= s@.take(i as int));
        assert(p.last() == c);
        if !('A' <= c && c <= 'Z') {
            assert(!is_upper_letter(s@[i as int]));
            assert(!all_letters(s@));
            return None;
        }
        let d: usize = ((c as u32) - 64) as usize;
        assert(all_letters(p));
        assert(letters_value(p) <= usize::MAX);
        v = v * 26 + d;
        i = i + 1;
    }
    assert(s@.take(n as int) =~= s@);
    if v > 0 {
        Some(v - 1)
    } else {
        None
    }
}

/// The column that `column` names in the sheet, as the run resolves it: the
/// last column whose header is `column`; otherwise the column that the
/// upper-case form of `column` names as letters.
pub open spec fn column_index_spec(headers: Seq<String>, column: Seq<char>) -> Option<usize> {
    match header_column(headers, column) {
        Some(j) => Some(j as usize),
        None => if letters_fit(upper_case(column)) {
            letters_column(upper_case(column))
        } else {
            None
        },
    }
}

/// The index of the column that `column` names in `sheet`: the last column
/// whose header equals `column`; otherwise `column` read as column letters
/// after upper-casing (`"b"` is 1, `"AA"` is 26). Letters whose value does not
/// fit in `usize` give `None`.
pub fn get_column_index(sheet: &SheetData, column: &str) -> (r: Option<usize>)
    ensures
        r == column_index_spec(sheet.headers@, column@),
        header_column(sheet.headers@, column@) is None && all_ascii(column@) ==> r == (if letters_fit(ascii_upper(column@)) {
            letters_column(ascii_upper(column@))
        } else {
            None
        }),
{
    let name = column.to_owned();
    let mut i: usize = sheet.headers.len();
    assert(sheet.headers@.subrange(0, i as int) =~= sheet.headers@);
    while i > 0
        invariant
            i <= sheet.headers@.len(),
            name@ == column@,
            header_column(sheet.headers@, column@) == header_column(sheet.headers@.subrange(0, i as int), column@),
        decreases i,
    {
        let ghost pre = sheet.headers@.subrange(0, i as int);
        assert(pre.drop_last() =~= sheet.headers@.subrange(0, i - 1));
        if sheet.headers[i - 1] == name {
            return Some(i - 1);
        }
        i = i - 1;
    }
    let upper = to_upper(column);
    if letters_fit_check(upper.as_str()) {
        column_letters_index(upper.as_str())
    } else {
        None
    }
}

/// The column name that a header cell shows in the sheet preview: a text as
/// it is, a number as its decimal text, anything else nothing.
pub open spec fn preview_text(cell: Option<Cell>) -> Seq<char> {
    match cell {
        Some(Cell::String(s)) => s@,
        Some(Cell::Float(t)) => t@,
        Some(Cell::Int(i)) => int_text(i as int),
        _ => Seq::empty(),
    }
}

/// The non-empty column names of a first row, in order.
pub open spec fn preview_names(cells: Seq<Option<Cell>>) -> Seq<Seq<char>>
    decreases cells.len(),
{
    if cells.len() == 0 {
        Seq::empty()
    } else {
        let rest = preview_names(cells.drop_last());
        let t = preview_text(cells.last());
        if t.len() > 0 {
            rest.push(t)
        } else {
            rest
        }
    }
}

/// The column names that the sheet preview lists for a sheet whose first row
/// holds `first_row`: the non-empty texts of its cells, in order.
pub fn preview_columns(first_row: &Vec<Option<Cell>>) -> (r: Vec<String>)
    ensures
        r@.map_values(|s: String| s@) == preview_names(first_row@),
{
    let mut out: Vec<String> = Vec::new();
    let mut i: usize = 0;
    while i < first_row.len()
        invariant
            i <= first_row@.len(),
            out@.map_values(|s: String| s@) == preview_names(first_row@.take(i as int)),
        decreases first_row@.len() - i,
    {
        let t: String = match &first_row[i] {
            Some(Cell::String(s)) => s.clone(),
            Some(Cell::Float(t)) => t.clone(),
            Some(Cell::Int(v)) => i64_text(*v),
            _ => String::new(),
        };
        let ghost p = first_row@.take(i + 1);
        assert(p.drop_last() =~= first_row@.take(i as int));
        assert(t@ == preview_text(p.last()));
        let ghost before = out@;
        if !t.as_str().is_empty() {
            out.push(t);
            assert(out@.map_values(|s: String| s@) =~= before.map_values(|s: String| s@).push(t@));
        }
        i = i + 1;
    }
    assert(first_row@.take(first_row@.len() as int) =~= first_row@);
    out
}

/// The grouping key of a row for the split column `col`: the text of the
/// cell there (a non-empty text, a number's decimal text, `true`/`false`),
/// or `label` when the row has no such cell or it holds anything else.
pub open spec fn key_text(row: Seq<Cell>, col: int, label: Seq<char>) -> Seq<char> {
    if 0 <= col < row.len() {
        match row[col] {
            Cell::String(s) => if s@.len() > 0 { s@ } else { label },
            Cell::Float(t) => t@,
            Cell::Int(i) => int_text(i as int),
            Cell::Bool(b) => bool_text(b),
            _ => label,
        }
    } else {
        label
    }
}

/// The grouping key of `row` for the split column `col`.
pub fn row_key(row: &Vec<Cell>, col: usize, label: &String) -> (r: String)
    ensures
        r@ == key_text(row@, col as int, label@),
{
    if col < row.len() {
        match &row[col] {
            Cell::String(s) => if !s.as_str().is_empty() { s.clone() } else { label.clone() },
            Cell::Float(t) => t.clone(),
            Cell::Int(i) => i64_text(*i),
            Cell::Bool(b) => bool_to_text(*b),
            _ => label.clone(),
        }
    } else {
        label.clone()
    }
}


/// Whether `c` is an ASCII letter of either case.
pub open spec fn is_ascii_letter(c: char) -> bool {
    ('a' <= c && c <= 'z') || ('A' <= c && c <= 'Z')
}

/// The least value of `n` column letters (`A` repeated `n` times).
pub open spec fn letters_floor(n: nat) -> nat
    decreases n,
{
    if n == 0 {
        0
    } else {
        letters_floor((n - 1) as nat) * 26 + 1
    }
}

proof fn lemma_letters_bounds(s: Seq<char>)
    requires
        all_letters(s),
    ensures
        letters_floor(s.len()) <= letters_value(s) <= 26 * letters_floor(s.len()),
    decreases s.len(),
{
    if s.len() > 0 {
        let t = s.drop_last();
        assert forall|k: int| 0 <= k < t.len() implies is_upper_letter(#[trigger] t[k]) by {
            assert(t[k] == s[k]);
        }
        lemma_letters_bounds(t);
        assert(is_upper_letter(s[s.len() - 1]));
    }
}

proof fn lemma_letters_floor_mono(m: nat, n: nat)
    requires
        m <= n,
    ensures
        letters_floor(m) <= letters_floor(n),
    decreases n,
{
    if m < n {
        lemma_letters_floor_mono(m, (n - 1) as nat);
    }
}

proof fn lemma_seq_lt_drop_last(s: Seq<char>, t: Seq<char>)
    requires
        s.len() == t.len(),
        s.len() > 0,
        seq_lt(s, t),
    ensures
        (s.drop_last() == t.drop_last() && s.last() < t.last()) || seq_lt(s.drop_last(), t.drop_last()),
    decreases s.len(),
{
    if s[0] != t[0] {
        if s.len() == 1 {
            assert(s.drop_last() =~= t.drop_last());
        } else {
            assert(s.drop_last()[0] == s[0]);
            assert(t.drop_last()[0] == t[0]);
        }
    } else {
        let s1 = s.drop_first();
        let t1 = t.drop_first();
        if s.len() == 1 {
            assert(!seq_lt(s1, t1));
        }
        lemma_seq_lt_drop_last(s1, t1);
        assert(s.drop_last().drop_first() =~= s1.drop_last());
        assert(t.drop_last().drop_first() =~= t1.drop_last());
        assert(s1.last() == s.last());
        assert(t1.last() == t.last());
        if s1.drop_last() == t1.drop_last() {
            assert(s.drop_last() =~= seq![s[0]] + s1.drop_last());
            assert(t.drop_last() =~= seq![t[0]] + t1.drop_last());
        } else {
            assert(s.drop_last()[0] == t.drop_last()[0]);
        }
    }
}

proof fn lemma_letters_same_length_order(s: Seq<char>, t: Seq<char>)
    requires
        all_letters(s),
        all_letters(t),
        s.len() == t.len(),
        seq_lt(s, t),
    ensures
        letters_value(s) < letters_value(t),
    decreases s.len(),
{
    let s1 = s.drop_last();
    let t1 = t.drop_last();
    assert forall|k: int| 0 <= k < s1.len() implies is_upper_letter(#[trigger] s1[k]) by {
        assert(s1[k] == s[k]);
    }
    assert forall|k: int| 0 <= k < t1.len() implies is_upper_letter(#[trigger] t1[k]) by {
        assert(t1[k] == t[k]);
    }
    assert(is_upper_letter(s[s.len() - 1]) && is_upper_letter(t[t.len() - 1]));
    lemma_seq_lt_drop_last(s, t);
    if !(s1 == t1 && s.last() < t.last()) {
        lemma_letters_same_length_order(s1, t1);
    }
}

/// Column letters read as a column are one-to-one and ordered: for two
/// non-empty ASCII letter texts that are not header names and whose values
/// fit in `usize`, both name a column, the same one exactly when their
/// upper-case forms are equal, a shorter text an earlier column, and of two
/// texts of one length the alphabetically earlier upper-case form the
/// earlier column.
pub proof fn law_column_letters_order(headers: Seq<String>, s: Seq<char>, t: Seq<char>)
    requires
        s.len() > 0,
        t.len() > 0,
        forall|i: int| 0 <= i < s.len() ==> is_ascii_letter(#[trigger] s[i]),
        forall|i: int| 0 <= i < t.len() ==> is_ascii_letter(#[trigger] t[i]),
        letters_fit(ascii_upper(s)),
        letters_fit(ascii_upper(t)),
    ensures
        letters_column(ascii_upper(s)) is Some,
        letters_column(ascii_upper(t)) is Some,
        (letters_column(ascii_upper(s)) == letters_column(ascii_upper(t))) <==> (ascii_upper(s) == ascii_upper(t)),
        s.len() < t.len() ==> letters_column(ascii_upper(s)).unwrap() < letters_column(ascii_upper(t)).unwrap(),
        s.len() == t.len() && seq_lt(ascii_upper(s), ascii_upper(t)) ==> letters_column(ascii_upper(s)).unwrap() < letters_column(ascii_upper(t)).unwrap(),
{
    let us = ascii_upper(s);
    let ut = ascii_upper(t);
    assert forall|k: int| 0 <= k < us.len() implies is_upper_letter(#[trigger] us[k]) by {
        assert(us[k] == ascii_upper_char(s[k]));
        assert(is_ascii_letter(s[k]));
    }
    assert forall|k: int| 0 <= k < ut.len() implies is_upper_letter(#[trigger] ut[k]) by {
        assert(ut[k] == ascii_upper_char(t[k]));
        assert(is_ascii_letter(t[k]));
    }
    assert(us.take(us.len() as int) =~= us);
    assert(ut.take(ut.len() as int) =~= ut);
    assert(all_letters(us.take(us.len() as int)));
    assert(all_letters(ut.take(ut.len() as int)));
    lemma_letters_bounds(us);
    lemma_letters_bounds(ut);
    assert(letters_floor(us.len()) >= 1) by {
        lemma_letters_floor_mono(1, us.len());
        reveal_with_fuel(letters_floor, 2);
    }
    assert(letters_floor(ut.len()) >= 1) by {
        lemma_letters_floor_mono(1, ut.len());
        reveal_with_fuel(letters_floor, 2);
    }
    let a = letters_value(us);
    let b = letters_value(ut);
    if s.len() < t.len() {
        lemma_letters_floor_mono((us.len() + 1) as nat, ut.len());
        assert(letters_floor((us.len() + 1) as nat) == letters_floor(us.len()) * 26 + 1);
        assert(a < b);
    }
    if t.len() < s.len() {
        lemma_letters_floor_mono((ut.len() + 1) as nat, us.len());
        assert(letters_floor((ut.len() + 1) as nat) == letters_floor(ut.len()) * 26 + 1);
        assert(b < a);
    }
    crate::text::lemma_seq_lt_irreflexive(us);
    if s.len() == t.len() && us != ut {
        crate::text::lemma_seq_lt_total(us, ut);
        if seq_lt(us, ut) {
            lemma_letters_same_length_order(us, ut);
        } else {
            lemma_letters_same_length_order(ut, us);
        }
    }
}


/// The key of a row whose split-column cell is a boolean is its text,
/// `true` or `false`, whatever the empty-key label is.
pub proof fn law_key_of_bool(row: Seq<Cell>, col: int, label: Seq<char>, b: bool)
    requires
        0 <= col < row.len(),
        row[col] == Cell::Bool(b),
    ensures
        b ==> key_text(row, col, label) == seq!['t', 'r', 'u', 'e'],
        !b ==> key_text(row, col, label) == seq!['f', 'a', 'l', 's', 'e'],
{
}

/// The key of a row whose split-column cell is a text is that text, unless
/// it is empty, when it is the empty-key label.
pub proof fn law_key_of_text(row: Seq<Cell>, col: int, label: Seq<char>, t: String)
    requires
        0 <= col < row.len(),
        row[col] == Cell::String(t),
    ensures
        t@.len() > 0 ==> key_text(row, col, label) == t@,
        t@.len() == 0 ==> key_text(row, col, label) == label,
{
}

/// The key of a row whose split-column cell is a floating-point number is
/// that number's text.
pub proof fn law_key_of_float(row: Seq<Cell>, col: int, label: Seq<char>, t: String)
    requires
        0 <= col < row.len(),
        row[col] == Cell::Float(t),
    ensures
        key_text(row, col, label) == t@,
{
}

/// The key of a row whose split-column cell is an integer is its decimal
/// text: digits only when it is not negative, `-` and digits otherwise, and
/// the digits read back as its magnitude.
pub proof fn law_key_of_int(row: Seq<Cell>, col: int, label: Seq<char>, i: i64)
    requires
        0 <= col < row.len(),
        row[col] == Cell::Int(i),
    ensures
        i >= 0 ==> key_text(row, col, label) == nat_text(i as nat),
        i < 0 ==> key_text(row, col, label) == seq!['-'] + nat_text((-i) as nat),
        i >= 0 ==> crate::text::digits_value(key_text(row, col, label)) == i,
        i >= 0 ==> key_text(row, col, label).len() > 0 && (forall|k: int| 0 <= k < key_text(row, col, label).len()
            ==> '0' <= #[trigger] key_text(row, col, label)[k] && key_text(row, col, label)[k] <= '9'),
        i > 0 ==> key_text(row, col, label)[0] != '0',
        i == 0 ==> key_text(row, col, label) == seq!['0'],
        i < 0 ==> key_text(row, col, label).len() > 1 && key_text(row, col, label)[0] == '-'
            && key_text(row, col, label)[1] != '0'
            && crate::text::digits_value(key_text(row, col, label).drop_first()) == -i
            && (forall|k: int| 1 <= k < key_text(row, col, label).len()
            ==> '0' <= #[trigger] key_text(row, col, label)[k] && key_text(row, col, label)[k] <= '9'),
{
    let n: nat = if i >= 0 { i as nat } else { (-i) as nat };
    crate::text::lemma_nat_text_value(n);
    let t = key_text(row, col, label);
    let d = nat_text(n);
    if i < 0 {
        assert(t == seq!['-'] + d);
        assert(t.drop_first() =~= d);
        assert forall|k: int| 1 <= k < t.len() implies '0' <= #[trigger] t[k] && t[k] <= '9' by {
            assert(t[k] == d[k - 1]);
        }
    }
    if i == 0 {
        assert(d =~= seq!['0']);
    }
}

/// A row without a value in its split column (no cell there, an empty cell,
/// a date, a duration or an error) gets the empty-key label.
pub proof fn law_key_without_value(row: Seq<Cell>, col: int, label: Seq<char>)
    requires
        !(0 <= col < row.len()) || row[col] is Empty || row[col] is DateTime || row[col] is DateTimeIso
            || row[col] is DurationIso || row[col] is Error,
    ensures
        key_text(row, col, label) == label,
{
}

proof fn lemma_header_column_last(headers: Seq<String>, column: Seq<char>, j: int)
    requires
        0 <= j < headers.len(),
        headers[j]@ == column,
        forall|k: int| j < k < headers.len() ==> (#[trigger] headers[k])@ != column,
    ensures
        header_column(headers, column) == Some(j),
    decreases headers.len(),
{
    if j < headers.len() - 1 {
        let t = headers.drop_last();
        assert(headers.last() == headers[headers.len() - 1]);
        assert forall|k: int| j < k < t.len() implies (#[trigger] t[k])@ != column by {
            assert(t[k] == headers[k]);
        }
        assert(t[j] == headers[j]);
        lemma_header_column_last(t, column, j);
    }
}

/// A column text that some header equals names the last column with that
/// header, even when the text also reads as column letters.
pub proof fn law_header_name_first(headers: Seq<String>, column: Seq<char>, j: int)
    requires
        0 <= j < headers.len(),
        headers[j]@ == column,
        forall|k: int| j < k < headers.len() ==> (#[trigger] headers[k])@ != column,
    ensures
        column_index_spec(headers, column) == Some(j as usize),
{
    lemma_header_column_last(headers, column, j);
}

/// A sheet built from read cells keeps every cell below its header row as it
/// was read, an absent cell becoming `Empty`; its headers are the header
/// row's texts and numbers, `Column<n>` for any other cell; and it has one
/// data row for each grid row below the header row (row 0 counting as row 1).
pub proof fn law_sheet_keeps_cells(s: SheetData, name: Seq<char>, grid: SheetGrid, header_row: usize, k: int, c: int)
    requires
        sheet_built(s, name, grid, header_row),
        0 <= c < grid.width,
    ensures
        s.name@ == name,
        header_row >= 1 && header_row - 1 < grid.cells@.len() ==> s.rows@.len() == grid.cells@.len() - header_row,
        header_row == 0 && grid.cells@.len() > 0 ==> s.rows@.len() == grid.cells@.len() - 1,
        header_row >= 1 && header_row - 1 < grid.cells@.len() && 0 <= k < s.rows@.len() ==> (
            (grid.cells@[header_row + k]@[c] matches Some(x) ==> s.rows@[k]@[c] == x)
            && (grid.cells@[header_row + k]@[c] is None ==> s.rows@[k]@[c] is Empty)),
        header_row == 0 && grid.cells@.len() > 0 ==> (
            (grid.cells@[0]@[c] matches Some(Cell::String(t)) ==> s.headers@[c]@ == t@)
            && (grid.cells@[0]@[c] matches Some(Cell::Float(t)) ==> s.headers@[c]@ == t@)),
        header_row == 0 && grid.cells@.len() > 0 && 0 <= k < s.rows@.len() ==> (
            (grid.cells@[1 + k]@[c] matches Some(x) ==> s.rows@[k]@[c] == x)
            && (grid.cells@[1 + k]@[c] is None ==> s.rows@[k]@[c] is Empty)),
        header_row >= 1 && header_row - 1 < grid.cells@.len() ==> (
            (grid.cells@[header_row - 1]@[c] matches Some(Cell::String(t)) ==> s.headers@[c]@ == t@)
            && (grid.cells@[header_row - 1]@[c] matches Some(Cell::Float(t)) ==> s.headers@[c]@ == t@)
            && (grid.cells@[header_row - 1]@[c] matches Some(Cell::Int(i)) ==> s.headers@[c]@ == int_text(i as int))
            && ((grid.cells@[header_row - 1]@[c] is None || (grid.cells@[header_row - 1]@[c] matches Some(x)
                && !(x is String || x is Float || x is Int)))
                ==> s.headers@[c]@ == seq!['C', 'o', 'l', 'u', 'm', 'n'] + nat_text(c as nat + 1))),
        header_row >= 1 && header_row - 1 >= grid.cells@.len() ==> s.rows@.len() == 0 && s.headers@.len() == 0,
{
    if header_row >= 1 && header_row - 1 < grid.cells@.len() && 0 <= k < s.rows@.len() {
        assert(s.rows@[k]@[c] == cell_or_empty(grid.cells@[header_row - 1 + 1 + k]@[c]));
    }
    if header_row == 0 && grid.cells@.len() > 0 && 0 <= k < s.rows@.len() {
        assert(s.rows@[k]@[c] == cell_or_empty(grid.cells@[0 + 1 + k]@[c]));
    }
    if header_row == 0 && grid.cells@.len() > 0 {
        assert((s.headers@[c])@ == header_text(grid.cells@[0]@[c], c as nat));
    }
    if header_row >= 1 && header_row - 1 < grid.cells@.len() {
        assert((s.headers@[c])@ == header_text(grid.cells@[header_row - 1]@[c], c as nat));
    }
}


/// A sheet name finds the last sheet of that name, and no sheet when none
/// has it.
pub proof fn law_sheet_found_last(sheets: Seq<SheetData>, name: Seq<char>, j: int)
    ensures
        0 <= j < sheets.len() && sheets[j].name@ == name && (forall|k: int| j < k < sheets.len() ==> (#[trigger] sheets[k]).name@ != name)
            ==> sheet_index(sheets, name) == Some(j),
        (forall|k: int| 0 <= k < sheets.len() ==> (#[trigger] sheets[k]).name@ != name) ==> sheet_index(sheets, name) is None,
    decreases sheets.len(),
{
    if sheets.len() > 0 {
        let t = sheets.drop_last();
        assert(sheets.last() == sheets[sheets.len() - 1]);
        law_sheet_found_last(t, name, j);
        if 0 <= j < sheets.len() - 1 && sheets[j].name@ == name && (forall|k: int| j < k < sheets.len() ==> (#[trigger] sheets[k]).name@ != name) {
            assert(t[j] == sheets[j]);
            assert forall|k: int| j < k < t.len() implies (#[trigger] t[k]).name@ != name by {
                assert(t[k] == sheets[k]);
            }
        }
        if forall|k: int| 0 <= k < sheets.len() ==> (#[trigger] sheets[k]).name@ != name {
            assert forall|k: int| 0 <= k < t.len() implies (#[trigger] t[k]).name@ != name by {
                assert(t[k] == sheets[k]);
            }
        }
    }
}

/// A sheet's header row is that of the first configuration for it, and 1
/// when none is configured.
pub proof fn law_header_row_of(configs: Seq<SplitSheetConfig>, name: Seq<char>, i: int)
    ensures
        0 <= i < configs.len() && configs[i].name@ == name && (forall|k: int| 0 <= k < i ==> (#[trigger] configs[k]).name@ != name)
            ==> header_row_of(configs, name) == configs[i].header_row,
        (forall|k: int| 0 <= k < configs.len() ==> (#[trigger] configs[k]).name@ != name) ==> header_row_of(configs, name) == 1,
{
    if 0 <= i < configs.len() && configs[i].name@ == name && (forall|k: int| 0 <= k < i ==> (#[trigger] configs[k]).name@ != name) {
        lemma_first_config_for(configs, name, i);
        let t = configs.subrange(i, configs.len() as int);
        assert(t[0] == configs[i]);
    }
    if forall|k: int| 0 <= k < configs.len() ==> (#[trigger] configs[k]).name@ != name {
        lemma_first_config_for(configs, name, configs.len() as int);
        assert(configs.subrange(configs.len() as int, configs.len() as int).len() == 0);
    }
}

/// The sheet preview lists, in order, the first row's texts as they are and
/// its numbers as their texts, leaving out empty texts and every other cell.
pub proof fn law_preview_names(cells: Seq<Option<Cell>>, x: Option<Cell>)
    ensures
        preview_names(Seq::empty()) == Seq::<Seq<char>>::empty(),
        x matches Some(Cell::String(t)) ==> preview_names(cells.push(x)) == (if t@.len() > 0 {
            preview_names(cells).push(t@)
        } else {
            preview_names(cells)
        }),
        x matches Some(Cell::Float(t)) ==> preview_names(cells.push(x)) == (if t@.len() > 0 {
            preview_names(cells).push(t@)
        } else {
            preview_names(cells)
        }),
        x matches Some(Cell::Int(i)) ==> preview_names(cells.push(x)) == preview_names(cells).push(int_text(i as int)),
        (x is None || (x matches Some(c) && !(c is String || c is Float || c is Int))) ==> preview_names(cells.push(x)) == preview_names(cells),
{
    assert(cells.push(x).drop_last() =~= cells);
}

/// A single column letter names its place in the alphabet, from 0.
pub proof fn law_single_letter(c: char)
    requires
        'A' <= c && c <= 'Z',
    ensures
        letters_column(seq![c]) == Some(((c as u32) - 65) as usize),
{
    let s = seq![c];
    assert(s.drop_last() =~= Seq::<char>::empty());
    assert(s.last() == c);
    assert(letters_value(Seq::<char>::empty()) == 0);
    assert(letters_value(s) == letters_value(s.drop_last()) * 26 + ((c as int) - 64) as nat);
    assert(letters_value(s) == (c as int) - 64);
    assert(all_letters(s));
}


/// Adding a letter after column letters moves to the next block of 26:
/// `s` followed by `c` names column `(col(s) + 1) * 26 + (c - 'A')`.
pub proof fn law_letters_append(s: Seq<char>, c: char)
    requires
        s.len() > 0,
        forall|i: int| 0 <= i < s.len() ==> 'A' <= #[trigger] s[i] && s[i] <= 'Z',
        'A' <= c && c <= 'Z',
        letters_fit(s.push(c)),
    ensures
        letters_column(s) is Some,
        letters_column(s.push(c)) is Some,
        letters_column(s.push(c)).unwrap() as int == (letters_column(s).unwrap() as int + 1) * 26 + ((c as u32) as int - 65),
{
    let t = s.push(c);
    assert(t.drop_last() =~= s);
    assert(t.last() == c);
    assert(all_letters(s));
    assert forall|k: int| 0 <= k < t.len() implies is_upper_letter(#[trigger] t[k]) by {
        if k < s.len() {
            assert(t[k] == s[k]);
        }
    }
    assert(t.take(t.len() as int) =~= t);
    assert(all_letters(t.take(t.len() as int)));
    assert(letters_value(t) <= usize::MAX);
    lemma_letters_bounds(s);
    assert(letters_floor(s.len()) >= 1) by {
        lemma_letters_floor_mono(1, s.len());
        reveal_with_fuel(letters_floor, 2);
    }
    assert(letters_value(t) == letters_value(s) * 26 + ((c as int) - 64));
}

} // verus!
