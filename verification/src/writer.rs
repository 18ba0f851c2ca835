//! What goes into one output workbook: the sheets, in order, and which rows
//! of which source sheet each holds.

use vstd::prelude::*;
use crate::config::AppConfig;
use crate::error::AppError;
use crate::processor::{config_entries, config_ok, entries_of, groups_fit, group_fits, lemma_rows_of_source, ok_through, plan_result, rows_of, safe_name, OutputGroup, SheetRows};
use crate::reader::{find_sheet, lemma_sheet_index_bounds, sheet_index, WorkbookData};
use crate::config::SplitSheetConfig;
use crate::text::{push_char, push_text};

verus! {

/// One sheet of an output workbook: its name, the source sheet whose headers
/// and rows it copies (none for an empty sheet), and for each output data
/// row (the rows below the headers, in order) the source row it copies, or
/// `None` for a row left blank.
#[derive(Debug)]
pub struct SheetPlan {
    pub name: String,
    pub source: Option<usize>,
    pub rows: Vec<Option<usize>>,
}

/// The sheet plan of a split sheet: the group's rows of that sheet, each kept
/// where it is a row of the sheet and left blank otherwise.
pub open spec fn split_plan_ok(p: SheetPlan, wb: WorkbookData, sr: SheetRows) -> bool {
    let i = sheet_index(wb.sheets@, sr.name@).unwrap();
    &&& p.name@ == sr.name@
    &&& p.source == Some(i as usize)
    &&& p.rows@.len() == sr.rows@.len()
    &&& forall|k: int| 0 <= k < p.rows@.len() ==> (#[trigger] p.rows@[k]) == (if (sr.rows@[k] as int) < wb.sheets@[i].rows@.len() {
        Some(sr.rows@[k])
    } else {
        None
    })
}

/// The sheet plan of a common sheet: all its rows.
pub open spec fn common_plan_ok(p: SheetPlan, wb: WorkbookData, name: Seq<char>) -> bool {
    let i = sheet_index(wb.sheets@, name).unwrap();
    &&& p.name@ == name
    &&& p.source == Some(i as usize)
    &&& p.rows@.len() == wb.sheets@[i].rows@.len()
    &&& forall|k: int| 0 <= k < p.rows@.len() ==> (#[trigger] p.rows@[k]) == Some(k as usize)
}

/// The common sheets that the workbook has, in configured order.
pub open spec fn present_commons(wb: WorkbookData, names: Seq<String>) -> Seq<Seq<char>>
    decreases names.len(),
{
    if names.len() == 0 {
        Seq::empty()
    } else {
        let rest = present_commons(wb, names.drop_last());
        if sheet_index(wb.sheets@, names.last()@) is Some {
            rest.push(names.last()@)
        } else {
            rest
        }
    }
}

/// The text `"Sheet1"`.
pub open spec fn sheet1_word() -> Seq<char> {
    seq!['S', 'h', 'e', 'e', 't', '1']
}

/// Whether the output workbook gets the empty sheet `Sheet1`: when the
/// option is on and the group splits no sheet.
pub open spec fn wants_empty_sheet(config: AppConfig, group: OutputGroup) -> bool {
    config.create_empty_sheet && group.sheets@.len() == 0
}

/// What planning one output workbook gives: the group's split sheets in
/// order, then the common sheets that exist, then `Sheet1` when wanted; or,
/// when a split sheet is missing from the workbook, the error naming the
/// first one missing.
pub open spec fn group_plan_result(config: AppConfig, wb: WorkbookData, group: OutputGroup, r: Result<Vec<SheetPlan>, AppError>) -> bool {
    let gs = group.sheets@;
    let cn = present_commons(wb, config.common_sheets@);
    match r {
        Ok(ps) => {
            &&& forall|k: int| 0 <= k < gs.len() ==> sheet_index(wb.sheets@, (#[trigger] gs[k]).name@) is Some
            &&& ps@.len() == gs.len() + cn.len() + (if wants_empty_sheet(config, group) { 1int } else { 0int })
            &&& forall|k: int| 0 <= k < gs.len() ==> split_plan_ok(#[trigger] ps@[k], wb, gs[k])
            &&& forall|k: int| 0 <= k < cn.len() ==> common_plan_ok(#[trigger] ps@[gs.len() + k], wb, cn[k])
            &&& wants_empty_sheet(config, group) ==> {
                let last = ps@[ps@.len() - 1];
                &&& last.name@ == sheet1_word()
                &&& last.source is None
                &&& last.rows@.len() == 0
            }
        },
        Err(e) => exists|k: int| 0 <= k < gs.len() && sheet_index(wb.sheets@, (#[trigger] gs[k]).name@) is None
            && (forall|j: int| 0 <= j < k ==> sheet_index(wb.sheets@, (#[trigger] gs[j]).name@) is Some)
            && (e matches AppError::Config(m) && m@ == "Sheet '"@ + gs[k].name@ + "' not found"@),
    }
}

/// Plans the sheets of the output workbook of `group`.
pub fn plan_group_sheets(config: &AppConfig, wb: &WorkbookData, group: &OutputGroup) -> (r: Result<Vec<SheetPlan>, AppError>)
    ensures
        group_plan_result(*config, *wb, *group, r),
{
    let gs = &group.sheets;
    let mut plans: Vec<SheetPlan> = Vec::new();
    let mut k: usize = 0;
    while k < gs.len()
        invariant
            gs == &group.sheets,
            k <= gs@.len(),
            plans@.len() == k,
            forall|j: int| 0 <= j < k ==> sheet_index(wb.sheets@, (#[trigger] gs@[j]).name@) is Some,
            forall|j: int| 0 <= j < k ==> split_plan_ok(#[trigger] plans@[j], *wb, gs@[j]),
        decreases gs@.len() - k,
    {
        let sr = &gs[k];
        let si = find_sheet(wb, &sr.name);
        if si.is_none() {
            let mut m = String::new();
            push_text(&mut m, "Sheet '");
            push_text(&mut m, sr.name.as_str());
            push_text(&mut m, "' not found");
            return Err(AppError::Config(m));
        }
        let si = si.unwrap();
        let len = wb.sheets[si].rows.len();
        let mut rows: Vec<Option<usize>> = Vec::new();
        let mut t: usize = 0;
        while t < sr.rows.len()
            invariant
                t <= sr.rows@.len(),
                rows@.len() == t,
                forall|q: int| 0 <= q < t ==> (#[trigger] rows@[q]) == (if (sr.rows@[q] as int) < len {
                    Some(sr.rows@[q])
                } else {
                    None
                }),
            decreases sr.rows@.len() - t,
        {
            let r = sr.rows[t];
            rows.push(if r < len { Some(r) } else { None });
            t = t + 1;
        }
        plans.push(SheetPlan { name: sr.name.clone(), source: Some(si), rows });
        k = k + 1;
    }
    let commons = &config.common_sheets;
    let ghost base = plans@.len();
    let mut c: usize = 0;
    assert(commons@.take(0) =~= Seq::<String>::empty());
    while c < commons.len()
        invariant
            commons == &config.common_sheets,
            base == gs@.len(),
            c <= commons@.len(),
            plans@.len() == base + present_commons(*wb, commons@.take(c as int)).len(),
            forall|j: int| 0 <= j < base ==> split_plan_ok(#[trigger] plans@[j], *wb, gs@[j]),
            forall|j: int| 0 <= j < present_commons(*wb, commons@.take(c as int)).len()
                ==> common_plan_ok(#[trigger] plans@[base + j], *wb, present_commons(*wb, commons@.take(c as int))[j]),
        decreases commons@.len() - c,
    {
        let name = &commons[c];
        let ghost pre = present_commons(*wb, commons@.take(c as int));
        proof {
            let p = commons@.take(c + 1);
            assert(p.drop_last() =~= commons@.take(c as int));
            assert(p.last() == commons@[c as int]);
        }
        let si = find_sheet(wb, name);
        if si.is_some() {
            let si = si.unwrap();
            let len = wb.sheets[si].rows.len();
            let mut rows: Vec<Option<usize>> = Vec::new();
            let mut t: usize = 0;
            while t < len
                invariant
                    t <= len,
                    rows@.len() == t,
                    forall|q: int| 0 <= q < t ==> (#[trigger] rows@[q]) == Some(q as usize),
                decreases len - t,
            {
                rows.push(Some(t));
                t = t + 1;
            }
            let ghost before = plans@;
            plans.push(SheetPlan { name: name.clone(), source: Some(si), rows });
            proof {
                let now = present_commons(*wb, commons@.take(c + 1));
                assert(now == pre.push(name@));
                assert forall|j: int| 0 <= j < base implies split_plan_ok(#[trigger] plans@[j], *wb, gs@[j]) by {
                    assert(plans@[j] == before[j]);
                }
                assert forall|j: int| 0 <= j < now.len() implies common_plan_ok(#[trigger] plans@[base + j], *wb, now[j]) by {
                    if j < pre.len() {
                        assert(plans@[base + j] == before[base + j]);
                    }
                }
            }
        }
        c = c + 1;
    }
    assert(commons@.take(commons@.len() as int) =~= commons@);
    if config.create_empty_sheet && gs.len() == 0 {
        let mut nm = String::new();
        push_char(&mut nm, 'S');
        push_char(&mut nm, 'h');
        push_char(&mut nm, 'e');
        push_char(&mut nm, 'e');
        push_char(&mut nm, 't');
        push_char(&mut nm, '1');
        assert(nm@ =~= sheet1_word());
        let ghost before = plans@;
        plans.push(SheetPlan { name: nm, source: None, rows: Vec::new() });
        proof {
            let cn = present_commons(*wb, commons@);
            assert forall|j: int| 0 <= j < cn.len() implies common_plan_ok(#[trigger] plans@[base + j], *wb, cn[j]) by {
                assert(plans@[base + j] == before[base + j]);
            }
        }
    }
    Ok(plans)
}

/// The name of the output file of a group: its file name and `.xlsx`.
pub fn output_file_name(group: &OutputGroup) -> (r: String)
    ensures
        r@ == group.safe_key@ + ".xlsx"@,
{
    let mut s = group.safe_key.clone();
    push_text(&mut s, ".xlsx");
    s
}


/// Whether an output file may be written: an existing file is only
/// overwritten when forced; otherwise the error is of kind `AlreadyExists`
/// and names the file (`shown` is the path as displayed).
pub fn check_overwrite(exists: bool, force: bool, shown: &str) -> (r: Result<(), AppError>)
    ensures
        r is Err <==> (exists && !force),
        r matches Err(e) ==> (e matches AppError::Io(k, m) && k == std::io::ErrorKind::AlreadyExists
            && m@ == "File already exists: "@ + shown@),
{
    if exists && !force {
        let mut m = String::new();
        push_text(&mut m, "File already exists: ");
        push_text(&mut m, shown);
        Err(AppError::Io(std::io::ErrorKind::AlreadyExists, m))
    } else {
        Ok(())
    }
}


/// Every entry of resolvable configurations is a row of the sheet its name
/// finds.
proof fn lemma_entries_in_range(wb: WorkbookData, cs: Seq<SplitSheetConfig>, label: Seq<char>)
    requires
        ok_through(wb, cs, cs.len() - 1),
    ensures
        forall|k: int| 0 <= k < entries_of(wb, cs, label).len() ==> {
            let e = #[trigger] entries_of(wb, cs, label)[k];
            &&& sheet_index(wb.sheets@, e.sheet) is Some
            &&& (e.row as int) < wb.sheets@[sheet_index(wb.sheets@, e.sheet).unwrap()].rows@.len()
        },
    decreases cs.len(),
{
    if cs.len() > 0 {
        let t = cs.drop_last();
        assert forall|j: int| 0 <= j <= t.len() - 1 implies config_ok(wb, #[trigger] t[j]) by {
            assert(t[j] == cs[j]);
        }
        lemma_entries_in_range(wb, t, label);
        let c = cs.last();
        assert(config_ok(wb, cs[cs.len() - 1]));
        lemma_sheet_index_bounds(wb.sheets@, c.name@);
        let before = entries_of(wb, t, label);
        let ce = config_entries(wb, c, label);
        assert forall|k: int| 0 <= k < entries_of(wb, cs, label).len() implies {
            let e = #[trigger] entries_of(wb, cs, label)[k];
            &&& sheet_index(wb.sheets@, e.sheet) is Some
            &&& (e.row as int) < wb.sheets@[sheet_index(wb.sheets@, e.sheet).unwrap()].rows@.len()
        } by {
            if k < before.len() {
                assert(entries_of(wb, cs, label)[k] == before[k]);
            } else {
                assert(entries_of(wb, cs, label)[k] == ce[k - before.len()]);
            }
        }
    }
}

/// A planned output workbook keeps, for each split sheet of its group, every
/// row the group lists, in order, and leaves none blank: the rows written are
/// exactly the rows of that sheet whose key makes the group's file name.
pub proof fn law_planned_rows_written(wb: WorkbookData, config: AppConfig, gs: Vec<OutputGroup>, i: int, ps: Vec<SheetPlan>, k: int)
    requires
        plan_result(wb, config, Ok(gs)),
        0 <= i < gs@.len(),
        group_plan_result(config, wb, gs@[i], Ok(ps)),
        0 <= k < gs@[i].sheets@.len(),
    ensures
        ps@[k].rows@ == rows_of(entries_of(wb, config.split_sheets@, config.empty_key_label@), gs@[i].safe_key@, gs@[i].sheets@[k].name@).map_values(|r: usize| Some(r)),
{
    let cs = config.split_sheets@;
    let es = entries_of(wb, cs, config.empty_key_label@);
    let g = gs@[i];
    let sr = g.sheets@[k];
    reveal(groups_fit);
    assert(group_fits(g, es));
    reveal(group_fits);
    assert(sr.rows@ == rows_of(es, g.safe_key@, sr.name@));
    assert(split_plan_ok(ps@[k], wb, sr));
    lemma_entries_in_range(wb, cs, config.empty_key_label@);
    let want = rows_of(es, g.safe_key@, sr.name@).map_values(|r: usize| Some(r));
    assert forall|q: int| 0 <= q < ps@[k].rows@.len() implies #[trigger] ps@[k].rows@[q] == want[q] by {
        let x = sr.rows@[q];
        assert(sr.rows@.contains(x));
        lemma_rows_of_source(es, g.safe_key@, sr.name@, x);
        let e = choose|m: int| 0 <= m < es.len() && safe_name((#[trigger] es[m]).key) == g.safe_key@ && es[m].sheet == sr.name@ && es[m].row == x;
        assert(es[e].sheet == sr.name@);
    }
    assert(ps@[k].rows@ =~= want);
}


/// An output workbook's plan: first, for each split sheet of the group in
/// order, a sheet of that name copying, at output row `q`, the group's `q`-th
/// row of that sheet when the sheet has it (blank otherwise); then, for each
/// configured common sheet that the workbook has, a sheet of that name
/// copying its `q`-th row at output row `q`, for all its rows in order; then,
/// when wanted, an empty `Sheet1`.
pub proof fn law_group_plan_layout(config: AppConfig, wb: WorkbookData, group: OutputGroup, ps: Vec<SheetPlan>)
    requires
        group_plan_result(config, wb, group, Ok(ps)),
    ensures
        forall|k: int| 0 <= k < group.sheets@.len() ==> {
            let p = #[trigger] ps@[k];
            let sr = group.sheets@[k];
            let i = sheet_index(wb.sheets@, sr.name@).unwrap();
            &&& p.name@ == sr.name@
            &&& 0 <= i < wb.sheets@.len()
            &&& wb.sheets@[i].name@ == sr.name@
            &&& p.source == Some(i as usize)
            &&& p.rows@.len() == sr.rows@.len()
            &&& forall|q: int| 0 <= q < sr.rows@.len() ==> ((sr.rows@[q] as int) < wb.sheets@[i].rows@.len() ==> p.rows@[q] == Some(sr.rows@[q]))
                && ((sr.rows@[q] as int) >= wb.sheets@[i].rows@.len() ==> p.rows@[q] is None)
        },
        forall|k: int| 0 <= k < present_commons(wb, config.common_sheets@).len() ==> {
            let p = #[trigger] ps@[group.sheets@.len() + k];
            let name = present_commons(wb, config.common_sheets@)[k];
            let i = sheet_index(wb.sheets@, name).unwrap();
            &&& p.name@ == name
            &&& 0 <= i < wb.sheets@.len()
            &&& wb.sheets@[i].name@ == name
            &&& p.source == Some(i as usize)
            &&& p.rows@.len() == wb.sheets@[i].rows@.len()
            &&& forall|q: int| 0 <= q < p.rows@.len() ==> p.rows@[q] == Some(q as usize)
        },
        ps@.len() == group.sheets@.len() + present_commons(wb, config.common_sheets@).len()
            + (if config.create_empty_sheet && group.sheets@.len() == 0 { 1int } else { 0int }),
        config.create_empty_sheet && group.sheets@.len() == 0 ==> {
            let last = ps@[ps@.len() - 1];
            &&& last.name@ == seq!['S', 'h', 'e', 'e', 't', '1']
            &&& last.source is None
            &&& last.rows@.len() == 0
        },
{
    assert forall|k: int| 0 <= k < group.sheets@.len() implies {
        let p = #[trigger] ps@[k];
        let sr = group.sheets@[k];
        let i = sheet_index(wb.sheets@, sr.name@).unwrap();
        &&& p.name@ == sr.name@
        &&& 0 <= i < wb.sheets@.len()
        &&& wb.sheets@[i].name@ == sr.name@
        &&& p.source == Some(i as usize)
        &&& p.rows@.len() == sr.rows@.len()
        &&& forall|q: int| 0 <= q < sr.rows@.len() ==> ((sr.rows@[q] as int) < wb.sheets@[i].rows@.len() ==> p.rows@[q] == Some(sr.rows@[q]))
            && ((sr.rows@[q] as int) >= wb.sheets@[i].rows@.len() ==> p.rows@[q] is None)
    } by {
        let sr = group.sheets@[k];
        lemma_sheet_index_bounds(wb.sheets@, sr.name@);
        assert(split_plan_ok(ps@[k], wb, sr));
        let p = ps@[k];
        let i = sheet_index(wb.sheets@, sr.name@).unwrap();
        assert forall|q: int| 0 <= q < sr.rows@.len() implies ((sr.rows@[q] as int) < wb.sheets@[i].rows@.len() ==> p.rows@[q] == Some(sr.rows@[q]))
            && ((sr.rows@[q] as int) >= wb.sheets@[i].rows@.len() ==> p.rows@[q] is None) by {
            assert(p.rows@[q] == (if (sr.rows@[q] as int) < wb.sheets@[i].rows@.len() { Some(sr.rows@[q]) } else { None }));
        }
    }
    assert forall|k: int| 0 <= k < present_commons(wb, config.common_sheets@).len() implies {
        let p = #[trigger] ps@[group.sheets@.len() + k];
        let name = present_commons(wb, config.common_sheets@)[k];
        let i = sheet_index(wb.sheets@, name).unwrap();
        &&& p.name@ == name
        &&& 0 <= i < wb.sheets@.len()
        &&& wb.sheets@[i].name@ == name
        &&& p.source == Some(i as usize)
        &&& p.rows@.len() == wb.sheets@[i].rows@.len()
        &&& forall|q: int| 0 <= q < p.rows@.len() ==> p.rows@[q] == Some(q as usize)
    } by {
        let cn = present_commons(wb, config.common_sheets@);
        lemma_present_commons_found(wb, config.common_sheets@);
        lemma_sheet_index_bounds(wb.sheets@, cn[k]);
        assert(common_plan_ok(ps@[group.sheets@.len() + k], wb, cn[k]));
    }
}

/// The common sheets of an output workbook are the configured common sheets
/// that the workbook has, in configured order: none for no names, and adding
/// a name adds it at the end exactly when the workbook has such a sheet.
pub proof fn law_present_commons(wb: WorkbookData, names: Seq<String>, n: String)
    ensures
        present_commons(wb, Seq::empty()) == Seq::<Seq<char>>::empty(),
        sheet_index(wb.sheets@, n@) is Some ==> present_commons(wb, names.push(n)) == present_commons(wb, names).push(n@),
        sheet_index(wb.sheets@, n@) is None ==> present_commons(wb, names.push(n)) == present_commons(wb, names),
{
    assert(names.push(n).drop_last() =~= names);
}

proof fn lemma_present_commons_found(wb: WorkbookData, names: Seq<String>)
    ensures
        forall|k: int| 0 <= k < present_commons(wb, names).len() ==> sheet_index(wb.sheets@, #[trigger] present_commons(wb, names)[k]) is Some,
    decreases names.len(),
{
    if names.len() > 0 {
        let r = present_commons(wb, names.drop_last());
        lemma_present_commons_found(wb, names.drop_last());
        assert forall|k: int| 0 <= k < present_commons(wb, names).len() implies sheet_index(wb.sheets@, #[trigger] present_commons(wb, names)[k]) is Some by {
            if k < r.len() {
                assert(present_commons(wb, names)[k] == r[k]);
            }
        }
    }
}

} // verus!
