# excel_splitter

Splits the rows of an Excel workbook into one workbook per value of a chosen
column: every configured sheet is split on its column, rows whose keys make
the same file name go to the same output file, and chosen "common" sheets are
copied whole into every output file.

- `src/` is the verified library (Verus): reading sheets from their cells
  (`reader`), planning the groups of rows (`processor`), planning each output
  workbook (`writer`), the run configuration (`config`), errors (`error`), the
  front end's state and its rules (`state`), run parameters and progress
  (`task`), and text utilities (`text`).
- `app/` is the program around it: the egui window, reading workbooks with
  calamine, writing them with rust_xlsxwriter, and the background thread.
- `tests/` exercises the library on concrete workbooks.

The groups by file name, the sheets of a group and of a workbook, and a
sheet's column index are maps by text; they are held as vectors in `src/`:
vstd specifies `HashMap` only for keys it can model, and with `String` keys
nothing useful about the contents can be proved. The vectors carry the maps'
invariants instead (distinct sheet names in a group; of several sheets or
headers with one name, the last is the one found, as a map's last insert
wins), and the contracts speak of them as sequences.
