//! Planning the output: which rows of which sheets go to which output file.

use vstd::prelude::*;
use crate::config::{AppConfig, SplitSheetConfig};
use crate::error::AppError;
use crate::reader::{column_index_spec, find_sheet, get_column_index, key_text, lemma_sheet_index_bounds, row_key, sheet_index, WorkbookData};
use crate::text::{push_text, lemma_seq_lt_irreflexive, lemma_seq_lt_total, lemma_seq_lt_transitive, push_char, seq_lt, text_lt};

verus! {

/// The characters that may not stand in a file name.
pub open spec fn forbidden_char(c: char) -> bool {
    c == '\\' || c == '/' || c == ':' || c == '*' || c == '?' || c == '"' || c == '<' || c == '>' || c == '|'
}

/// A character of a key as it stands in a file name: forbidden ones become `_`.
pub open spec fn safe_char(c: char) -> char {
    if forbidden_char(c) { '_' } else { c }
}

/// The number of bytes of `c` in UTF-8.
pub open spec fn utf8_width(c: char) -> nat {
    if (c as u32) < 0x80 {
        1
    } else if (c as u32) < 0x800 {
        2
    } else if (c as u32) < 0x10000 {
        3
    } else {
        4
    }
}

/// The number of bytes of `s` in UTF-8.
pub open spec fn utf8_len(s: Seq<char>) -> nat
    decreases s.len(),
{
    if s.len() == 0 {
        0
    } else {
        utf8_len(s.drop_last()) + utf8_width(s.last())
    }
}

/// How many leading characters of `s` fit in `budget` bytes of UTF-8.
pub open spec fn chars_within(s: Seq<char>, budget: int) -> nat
    decreases s.len(),
{
    if s.len() == 0 || utf8_width(s[0]) > budget {
        0
    } else {
        1 + chars_within(s.drop_first(), budget - utf8_width(s[0]))
    }
}

/// The longest a file name may be, in bytes of UTF-8.
pub open spec fn max_name_bytes() -> int {
    200
}

/// A key with each forbidden character replaced by `_`.
pub open spec fn mapped_name(key: Seq<char>) -> Seq<char> {
    key.map_values(|c: char| safe_char(c))
}

/// The text `"empty"`.
pub open spec fn empty_word() -> Seq<char> {
    seq!['e', 'm', 'p', 't', 'y']
}

/// The file name made of a key: forbidden characters become `_`, an empty
/// key becomes `empty`, and a name longer than 200 bytes of UTF-8 is cut to
/// its first 200 bytes.
pub open spec fn safe_name(key: Seq<char>) -> Seq<char> {
    let m = mapped_name(key);
    if m.len() == 0 {
        empty_word()
    } else if utf8_len(m) > max_name_bytes() {
        m.take(chars_within(m, max_name_bytes()) as int)
    } else {
        m
    }
}

/// The cut of a long name at 200 bytes falls between two characters, so the
/// cut is possible (cutting inside a character panics).
pub open spec fn safe_name_defined(key: Seq<char>) -> bool {
    let m = mapped_name(key);
    utf8_len(m) <= max_name_bytes() || utf8_len(m.take(chars_within(m, max_name_bytes()) as int)) == max_name_bytes()
}

/// The number of UTF-8 bytes of `c`.
pub fn char_utf8_width(c: char) -> (r: usize)
    ensures
        r == utf8_width(c),
{
    let u = c as u32;
    if u < 0x80 {
        1
    } else if u < 0x800 {
        2
    } else if u < 0x10000 {
        3
    } else {
        4
    }
}

proof fn lemma_chars_within_step(s: Seq<char>, i: int, budget: int)
    requires
        0 <= i < s.len(),
    ensures
        chars_within(s.subrange(i, s.len() as int), budget) == (if utf8_width(s[i]) > budget {
            0
        } else {
            1 + chars_within(s.subrange(i + 1, s.len() as int), budget - utf8_width(s[i]))
        }),
{
    let t = s.subrange(i, s.len() as int);
    assert(t[0] == s[i]);
    assert(t.drop_first() =~= s.subrange(i + 1, s.len() as int));
}

/// The file name made of `key`: each of `\ / : * ? " < > |` becomes `_`, an
/// empty key becomes `empty`, and the name is cut to its first 200 bytes.
pub fn make_safe_filename(key: &str) -> (r: String)
    requires
        safe_name_defined(key@),
    ensures
        r@ == safe_name(key@),
{
    let n = key.unicode_len();
    let ghost m = mapped_name(key@);
    let mut result = String::new();
    let mut bytes: usize = 0;
    let mut i: usize = 0;
    while i < n
        invariant
            n == key@.len(),
            m == mapped_name(key@),
            i <= n,
            result@ =~= m.take(i as int),
            bytes == (if utf8_len(m.take(i as int)) <= 201 { utf8_len(m.take(i as int)) } else { 201 }),
        decreases n - i,
    {
        let d = safe_char_of(key.get_char(i));
        push_char(&mut result, d);
        let w = char_utf8_width(d);
        proof {
            let p = m.take(i + 1);
            assert(p.drop_last() =~= m.take(i as int));
            assert(p.last() == d);
        }
        bytes = if bytes + w <= 201 { bytes + w } else { 201 };
        i = i + 1;
    }
    assert(m.take(n as int) =~= m);
    if n == 0 {
        let mut e = String::new();
        push_char(&mut e, 'e');
        push_char(&mut e, 'm');
        push_char(&mut e, 'p');
        push_char(&mut e, 't');
        push_char(&mut e, 'y');
        return e;
    }
    if bytes <= 200 {
        return result;
    }
    let mut cut = String::new();
    let mut budget: usize = 200;
    let mut j: usize = 0;
    let rs = result.as_str();
    assert(m.subrange(0, n as int) =~= m);
    while j < n && char_utf8_width(rs.get_char(j)) <= budget
        invariant
            n == m.len(),
            rs@ == m,
            j <= n,
            budget <= 200,
            cut@ =~= m.take(j as int),
            chars_within(m, 200) == j + chars_within(m.subrange(j as int, n as int), budget as int),
        decreases n - j,
    {
        let c = rs.get_char(j);
        let w = char_utf8_width(c);
        proof {
            lemma_chars_within_step(m, j as int, budget as int);
        }
        push_char(&mut cut, c);
        budget = budget - w;
        j = j + 1;
    }
    proof {
        if j < n {
            lemma_chars_within_step(m, j as int, budget as int);
        } else {
            assert(m.subrange(j as int, n as int).len() == 0);
        }
    }
    cut
}


/// The rows of one sheet that go to an output file, in the order they appear.
#[derive(Debug, Clone)]
pub struct SheetRows {
    pub name: String,
    pub rows: Vec<usize>,
}

/// One output file: the key its rows share, the file name made of that key,
/// and the rows of each split sheet that go into it.
#[derive(Debug, Clone)]
pub struct OutputGroup {
    pub key: String,
    pub safe_key: String,
    pub sheets: Vec<SheetRows>,
}

/// One data row of a split sheet with its grouping key.
pub struct RowEntry {
    pub sheet: Seq<char>,
    pub row: usize,
    pub key: Seq<char>,
}

/// The rows, in order, of the entries of sheet `n` whose file name is `s`.
pub open spec fn rows_of(es: Seq<RowEntry>, s: Seq<char>, n: Seq<char>) -> Seq<usize>
    decreases es.len(),
{
    if es.len() == 0 {
        Seq::empty()
    } else {
        let r = rows_of(es.drop_last(), s, n);
        let e = es.last();
        if safe_name(e.key) == s && e.sheet == n {
            r.push(e.row)
        } else {
            r
        }
    }
}

/// Entry `k` is the first entry whose file name is `s`.
pub open spec fn first_with_name(es: Seq<RowEntry>, k: int, s: Seq<char>) -> bool {
    &&& 0 <= k < es.len()
    &&& safe_name(es[k].key) == s
    &&& forall|m: int| 0 <= m < k ==> safe_name((#[trigger] es[m]).key) != s
}

/// The group holds what the entries give for its file name: the key of the
/// first entry with that name, and for each sheet the rows of the entries of
/// that sheet with that name; every sheet with such entries is listed once.
#[verifier::opaque]
pub open spec fn group_fits(g: OutputGroup, es: Seq<RowEntry>) -> bool {
    &&& g.safe_key@ == safe_name(g.key@)
    &&& exists|k: int| #[trigger] first_with_name(es, k, g.safe_key@) && es[k].key == g.key@
    &&& forall|a: int, b: int| 0 <= a < g.sheets@.len() && 0 <= b < g.sheets@.len() && a != b
        ==> (#[trigger] g.sheets@[a]).name@ != (#[trigger] g.sheets@[b]).name@
    &&& forall|a: int| 0 <= a < g.sheets@.len() ==> {
        &&& (#[trigger] g.sheets@[a]).rows@ == rows_of(es, g.safe_key@, g.sheets@[a].name@)
        &&& g.sheets@[a].rows@.len() > 0
    }
    &&& forall|k: int| 0 <= k < es.len() && safe_name((#[trigger] es[k]).key) == g.safe_key@
        ==> exists|a: int| 0 <= a < g.sheets@.len() && (#[trigger] g.sheets@[a]).name@ == es[k].sheet
}

/// Some group has the file name `s`.
pub open spec fn has_group(gs: Seq<OutputGroup>, s: Seq<char>) -> bool {
    exists|i: int| 0 <= i < gs.len() && (#[trigger] gs[i]).safe_key@ == s
}

/// The groups are the output of the entries: one group per file name that the
/// entries make, each fitting the entries, ordered by strictly rising key.
#[verifier::opaque]
pub open spec fn groups_fit(gs: Seq<OutputGroup>, es: Seq<RowEntry>) -> bool {
    &&& forall|i: int, j: int| 0 <= i < j < gs.len() ==> seq_lt((#[trigger] gs[i]).key@, (#[trigger] gs[j]).key@)
    &&& forall|i: int| 0 <= i < gs.len() ==> group_fits(#[trigger] gs[i], es)
    &&& forall|k: int| 0 <= k < es.len() ==> has_group(gs, safe_name((#[trigger] es[k]).key))
}

proof fn lemma_rows_of_empty(es: Seq<RowEntry>, s: Seq<char>, n: Seq<char>)
    requires
        forall|k: int| 0 <= k < es.len() ==> !(safe_name((#[trigger] es[k]).key) == s && es[k].sheet == n),
    ensures
        rows_of(es, s, n).len() == 0,
    decreases es.len(),
{
    if es.len() > 0 {
        let t = es.drop_last();
        assert forall|k: int| 0 <= k < t.len() implies !(safe_name((#[trigger] t[k]).key) == s && t[k].sheet == n) by {
            assert(t[k] == es[k]);
        }
        lemma_rows_of_empty(t, s, n);
        assert(es.last() == es[es.len() - 1]);
    }
}

proof fn lemma_first_unique(es: Seq<RowEntry>, k1: int, k2: int, s: Seq<char>)
    requires
        first_with_name(es, k1, s),
        first_with_name(es, k2, s),
    ensures
        k1 == k2,
{
    if k1 < k2 {
        assert(safe_name(es[k1].key) != s);
    } else if k2 < k1 {
        assert(safe_name(es[k2].key) != s);
    }
}

/// No two output groups share a file name.
pub proof fn law_file_names_distinct(gs: Seq<OutputGroup>, es: Seq<RowEntry>, i: int, j: int)
    requires
        groups_fit(gs, es),
        0 <= i < gs.len(),
        0 <= j < gs.len(),
        i != j,
    ensures
        gs[i].safe_key@ != gs[j].safe_key@,
{
    reveal(groups_fit);
    reveal(group_fits);
    if gs[i].safe_key@ == gs[j].safe_key@ {
        assert(group_fits(gs[i], es));
        assert(group_fits(gs[j], es));
        let s = gs[i].safe_key@;
        let ki = choose|k: int| #[trigger] first_with_name(es, k, s) && es[k].key == gs[i].key@;
        let kj = choose|k: int| #[trigger] first_with_name(es, k, gs[j].safe_key@) && es[k].key == gs[j].key@;
        lemma_first_unique(es, ki, kj, s);
        lemma_seq_lt_irreflexive(gs[i].key@);
        if i < j {
            assert(seq_lt(gs[i].key@, gs[j].key@));
        } else {
            assert(seq_lt(gs[j].key@, gs[i].key@));
        }
    }
}

proof fn lemma_rows_of_push(es: Seq<RowEntry>, e: RowEntry, s: Seq<char>, n: Seq<char>)
    ensures
        rows_of(es.push(e), s, n) == (if safe_name(e.key) == s && e.sheet == n {
            rows_of(es, s, n).push(e.row)
        } else {
            rows_of(es, s, n)
        }),
{
    assert(es.push(e).drop_last() =~= es);
}

/// A group that the new entry does not concern still fits after it.
proof fn lemma_group_unaffected(g: OutputGroup, es: Seq<RowEntry>, e: RowEntry)
    requires
        group_fits(g, es),
        safe_name(e.key) != g.safe_key@,
    ensures
        group_fits(g, es.push(e)),
{
    reveal(group_fits);
    let es2 = es.push(e);
    let s = g.safe_key@;
    let k = choose|k: int| #[trigger] first_with_name(es, k, s) && es[k].key == g.key@;
    assert(first_with_name(es2, k, s)) by {
        assert(es2[k] == es[k]);
        assert forall|m: int| 0 <= m < k implies safe_name((#[trigger] es2[m]).key) != s by {
            assert(es2[m] == es[m]);
        }
    }
    assert(es2[k].key == g.key@);
    assert forall|a: int| 0 <= a < g.sheets@.len() implies {
        &&& (#[trigger] g.sheets@[a]).rows@ == rows_of(es2, s, g.sheets@[a].name@)
        &&& g.sheets@[a].rows@.len() > 0
    } by {
        lemma_rows_of_push(es, e, s, g.sheets@[a].name@);
    }
    assert forall|k2: int| 0 <= k2 < es2.len() && safe_name((#[trigger] es2[k2]).key) == s
        implies exists|a: int| 0 <= a < g.sheets@.len() && (#[trigger] g.sheets@[a]).name@ == es2[k2].sheet by {
        if k2 < es.len() {
            assert(es2[k2] == es[k2]);
        } else {
            assert(es2[k2] == e);
        }
    }
}

/// Adds the row of entry `e` to `g`, the group of `e`'s file name.
fn add_to_group(g: OutputGroup, sheet: &String, row: usize, Ghost(es): Ghost<Seq<RowEntry>>, Ghost(e): Ghost<RowEntry>) -> (r: OutputGroup)
    requires
        group_fits(g, es),
        e == (RowEntry { sheet: sheet@, row, key: e.key }),
        safe_name(e.key) == g.safe_key@,
    ensures
        group_fits(r, es.push(e)),
        r.key == g.key,
        r.safe_key == g.safe_key,
{
    reveal(group_fits);
    let ghost es2 = es.push(e);
    let ghost s = g.safe_key@;
    let ghost g0 = g;
    let ghost sh = g0.sheets@;
    let mut g = g;
    let mut a: usize = 0;
    while a < g.sheets.len() && !(g.sheets[a].name == *sheet)
        invariant
            g == g0,
            sh == g0.sheets@,
            a <= sh.len(),
            forall|b: int| 0 <= b < a ==> (#[trigger] sh[b]).name@ != sheet@,
        decreases sh.len() - a,
    {
        a = a + 1;
    }
    if a < g.sheets.len() {
        let mut sr = g.sheets.remove(a);
        sr.rows.push(row);
        g.sheets.insert(a, sr);
    } else {
        proof {
            assert forall|k: int| 0 <= k < es.len() implies !(safe_name((#[trigger] es[k]).key) == s && es[k].sheet == sheet@) by {
                if safe_name(es[k].key) == s && es[k].sheet == sheet@ {
                    let b = choose|b: int| 0 <= b < sh.len() && (#[trigger] sh[b]).name@ == es[k].sheet;
                    assert(sh[b].name@ != sheet@);
                }
            }
            lemma_rows_of_empty(es, s, sheet@);
        }
        let mut rows: Vec<usize> = Vec::new();
        rows.push(row);
        g.sheets.push(SheetRows { name: sheet.clone(), rows });
    }
    let ghost g1 = g;
    proof {
        let k = choose|k: int| #[trigger] first_with_name(es, k, s) && es[k].key == g0.key@;
        assert(first_with_name(es2, k, s)) by {
            assert(es2[k] == es[k]);
            assert forall|m: int| 0 <= m < k implies safe_name((#[trigger] es2[m]).key) != s by {
                assert(es2[m] == es[m]);
            }
        }
        assert(es2[k].key == g1.key@);
        assert forall|x: int, y: int| 0 <= x < g1.sheets@.len() && 0 <= y < g1.sheets@.len() && x != y
            implies (#[trigger] g1.sheets@[x]).name@ != (#[trigger] g1.sheets@[y]).name@ by {
            if x < sh.len() {
                assert(g1.sheets@[x].name == sh[x].name);
            }
            if y < sh.len() {
                assert(g1.sheets@[y].name == sh[y].name);
            }
        }
        assert forall|x: int| 0 <= x < g1.sheets@.len() implies {
            &&& (#[trigger] g1.sheets@[x]).rows@ == rows_of(es2, s, g1.sheets@[x].name@)
            &&& g1.sheets@[x].rows@.len() > 0
        } by {
            lemma_rows_of_push(es, e, s, g1.sheets@[x].name@);
            if x < sh.len() {
                assert(g1.sheets@[x].name == sh[x].name);
            }
        }
        assert forall|k2: int| 0 <= k2 < es2.len() && safe_name((#[trigger] es2[k2]).key) == s
            implies exists|b: int| 0 <= b < g1.sheets@.len() && (#[trigger] g1.sheets@[b]).name@ == es2[k2].sheet by {
            if k2 < es.len() {
                assert(es2[k2] == es[k2]);
                let b = choose|b: int| 0 <= b < sh.len() && (#[trigger] sh[b]).name@ == es[k2].sheet;
                assert(g1.sheets@[b].name == sh[b].name);
            } else {
                assert(es2[k2] == e);
                if a < sh.len() {
                    assert(g1.sheets@[a as int].name == sh[a as int].name);
                } else {
                    assert(g1.sheets@[sh.len() as int].name@ == sheet@);
                }
            }
        }
        assert(g1.safe_key@ == safe_name(g1.key@));
        assert(exists|k: int| #[trigger] first_with_name(es2, k, g1.safe_key@) && es2[k].key == g1.key@);
        assert(group_fits(g1, es2));
    }
    g
}

/// A new group for the first entry `e` with its file name.
fn new_group(sheet: &String, row: usize, key: String, safe: String, Ghost(es): Ghost<Seq<RowEntry>>, Ghost(gs): Ghost<Seq<OutputGroup>>) -> (r: OutputGroup)
    requires
        groups_fit(gs, es),
        safe@ == safe_name(key@),
        forall|j: int| 0 <= j < gs.len() ==> (#[trigger] gs[j]).safe_key@ != safe@,
    ensures
        group_fits(r, es.push(RowEntry { sheet: sheet@, row, key: key@ })),
        r.key@ == key@,
        r.safe_key@ == safe@,
{
    reveal(groups_fit);
    reveal(group_fits);
    let ghost e = RowEntry { sheet: sheet@, row, key: key@ };
    let ghost es2 = es.push(e);
    let ghost s = safe@;
    let mut rows: Vec<usize> = Vec::new();
    rows.push(row);
    let mut sheets: Vec<SheetRows> = Vec::new();
    sheets.push(SheetRows { name: sheet.clone(), rows });
    let g = OutputGroup { key, safe_key: safe, sheets };
    let ghost gn = g;
    proof {
        let k = es.len() as int;
        assert forall|m: int| 0 <= m < k implies safe_name((#[trigger] es2[m]).key) != s by {
            assert(es2[m] == es[m]);
            let i = choose|i: int| 0 <= i < gs.len() && (#[trigger] gs[i]).safe_key@ == safe_name(es[m].key);
        }
        assert(es2[k] == e);
        assert(first_with_name(es2, k, s));
        assert forall|m: int| 0 <= m < es.len() implies !(safe_name((#[trigger] es[m]).key) == s && es[m].sheet == sheet@) by {
            let i = choose|i: int| 0 <= i < gs.len() && (#[trigger] gs[i]).safe_key@ == safe_name(es[m].key);
        }
        lemma_rows_of_empty(es, s, sheet@);
        lemma_rows_of_push(es, e, s, sheet@);
        assert(gn.sheets@[0].rows@ =~= rows_of(es2, s, sheet@));
        assert forall|k2: int| 0 <= k2 < es2.len() && safe_name((#[trigger] es2[k2]).key) == s
            implies exists|b: int| 0 <= b < gn.sheets@.len() && (#[trigger] gn.sheets@[b]).name@ == es2[k2].sheet by {
            if k2 < es.len() {
                assert(es2[k2] == es[k2]);
                let i = choose|i: int| 0 <= i < gs.len() && (#[trigger] gs[i]).safe_key@ == safe_name(es[k2].key);
            } else {
                assert(es2[k2] == e);
                assert(gn.sheets@[0].name@ == sheet@);
            }
        }
        assert(gn.safe_key@ == safe_name(gn.key@));
        assert(es2[k].key == gn.key@);
        assert(exists|k: int| #[trigger] first_with_name(es2, k, gn.safe_key@) && es2[k].key == gn.key@);
        assert forall|a: int| 0 <= a < gn.sheets@.len() implies {
            &&& (#[trigger] gn.sheets@[a]).rows@ == rows_of(es2, gn.safe_key@, gn.sheets@[a].name@)
            &&& gn.sheets@[a].rows@.len() > 0
        } by {
            assert(a == 0);
        }
        assert(group_fits(gn, es2));
    }
    g
}

/// Replacing the group at `idx` by one that fits the extended entries keeps
/// the groups fitting.
proof fn lemma_update_fits(gs: Seq<OutputGroup>, es: Seq<RowEntry>, e: RowEntry, idx: int, g1: OutputGroup)
    requires
        groups_fit(gs, es),
        0 <= idx < gs.len(),
        gs[idx].safe_key@ == safe_name(e.key),
        g1.key == gs[idx].key,
        g1.safe_key == gs[idx].safe_key,
        group_fits(g1, es.push(e)),
    ensures
        groups_fit(gs.update(idx, g1), es.push(e)),
{
    reveal(groups_fit);
    let es2 = es.push(e);
    let gs2 = gs.update(idx, g1);
    assert forall|i: int| 0 <= i < gs2.len() implies group_fits(#[trigger] gs2[i], es2) by {
        if i != idx {
            law_file_names_distinct(gs, es, i, idx);
            lemma_group_unaffected(gs[i], es, e);
        }
    }
    assert forall|k: int| 0 <= k < es2.len() implies has_group(gs2, safe_name((#[trigger] es2[k]).key)) by {
        if k < es.len() {
            assert(es2[k] == es[k]);
            let i = choose|i: int| 0 <= i < gs.len() && (#[trigger] gs[i]).safe_key@ == safe_name(es[k].key);
            assert(gs2[i].safe_key == gs[i].safe_key);
        } else {
            assert(es2[k] == e);
            assert(gs2[idx].safe_key@ == safe_name(e.key));
        }
    }
    assert forall|i: int, j: int| 0 <= i < j < gs2.len() implies seq_lt((#[trigger] gs2[i]).key@, (#[trigger] gs2[j]).key@) by {
        assert(gs2[i].key == gs[i].key);
        assert(gs2[j].key == gs[j].key);
    }
}

proof fn lemma_insert_cover(gs: Seq<OutputGroup>, es: Seq<RowEntry>, e: RowEntry, p: int, gn: OutputGroup)
    requires
        forall|k: int| 0 <= k < es.len() ==> has_group(gs, safe_name((#[trigger] es[k]).key)),
        0 <= p <= gs.len(),
        gn.safe_key@ == safe_name(e.key),
    ensures
        forall|k: int| 0 <= k < es.push(e).len() ==> has_group(gs.insert(p, gn), safe_name((#[trigger] es.push(e)[k]).key)),
{
    let es2 = es.push(e);
    let gs2 = gs.insert(p, gn);
    assert forall|k: int| 0 <= k < es2.len() implies has_group(gs2, safe_name((#[trigger] es2[k]).key)) by {
        if k < es.len() {
            assert(es2[k] == es[k]);
            let i = choose|i: int| 0 <= i < gs.len() && (#[trigger] gs[i]).safe_key@ == safe_name(es[k].key);
            if i < p {
                assert(gs2[i] == gs[i]);
                assert(gs2[i].safe_key@ == safe_name(es2[k].key));
            } else {
                assert(gs2[i + 1] == gs[i]);
                assert(gs2[i + 1].safe_key@ == safe_name(es2[k].key));
            }
        } else {
            assert(es2[k] == e);
            assert(gs2[p] == gn);
            assert(gs2[p].safe_key@ == safe_name(es2[k].key));
        }
    }
}

/// Inserting the group of a new file name at the place its key sorts to
/// keeps the groups fitting.
proof fn lemma_insert_fits(gs: Seq<OutputGroup>, es: Seq<RowEntry>, e: RowEntry, p: int, gn: OutputGroup)
    requires
        groups_fit(gs, es),
        0 <= p <= gs.len(),
        forall|j: int| 0 <= j < gs.len() ==> (#[trigger] gs[j]).safe_key@ != safe_name(e.key),
        forall|j: int| 0 <= j < p ==> seq_lt((#[trigger] gs[j]).key@, e.key),
        p < gs.len() ==> seq_lt(e.key, gs[p].key@),
        gn.key@ == e.key,
        gn.safe_key@ == safe_name(e.key),
        group_fits(gn, es.push(e)),
    ensures
        groups_fit(gs.insert(p, gn), es.push(e)),
{
    reveal(groups_fit);
    let es2 = es.push(e);
    let gs2 = gs.insert(p, gn);
    let key = e.key;
    assert forall|i: int| 0 <= i < gs2.len() implies group_fits(#[trigger] gs2[i], es2) by {
        if i < p {
            assert(gs2[i] == gs[i]);
            lemma_group_unaffected(gs[i], es, e);
        } else if i > p {
            assert(gs2[i] == gs[i - 1]);
            lemma_group_unaffected(gs[i - 1], es, e);
        } else {
            assert(gs2[i] == gn);
        }
    }
    lemma_insert_cover(gs, es, e, p, gn);
    assert forall|i: int, j: int| 0 <= i < j < gs2.len() implies seq_lt((#[trigger] gs2[i]).key@, (#[trigger] gs2[j]).key@) by {
        if j < p {
            assert(gs2[i] == gs[i] && gs2[j] == gs[j]);
        } else if j == p {
            assert(gs2[i] == gs[i]);
        } else if i == p {
            assert(gs2[j] == gs[j - 1]);
            if j - 1 > p {
                lemma_seq_lt_transitive(key, gs[p].key@, gs[j - 1].key@);
            }
        } else if i < p {
            assert(gs2[i] == gs[i] && gs2[j] == gs[j - 1]);
            assert(seq_lt(gs[i].key@, key));
            lemma_seq_lt_transitive(gs[i].key@, key, gs[p].key@);
            if j - 1 > p {
                lemma_seq_lt_transitive(gs[i].key@, gs[p].key@, gs[j - 1].key@);
            }
        } else {
            assert(gs2[i] == gs[i - 1] && gs2[j] == gs[j - 1]);
        }
    }
}

/// Adds one entry to the groups: to the group with its file name if there is
/// one, else to a new group placed by its key.
fn add_entry(groups: &mut Vec<OutputGroup>, sheet: &String, row: usize, key: String, Ghost(es): Ghost<Seq<RowEntry>>)
    requires
        groups_fit(old(groups)@, es),
        safe_name_defined(key@),
    ensures
        groups_fit(final(groups)@, es.push(RowEntry { sheet: sheet@, row, key: key@ })),
{
    let ghost e = RowEntry { sheet: sheet@, row, key: key@ };
    let ghost gs = groups@;
    let safe = make_safe_filename(key.as_str());
    let ghost s = safe@;
    let mut idx: usize = 0;
    while idx < groups.len() && !(groups[idx].safe_key == safe)
        invariant
            groups@ == gs,
            s == safe@,
            idx <= gs.len(),
            forall|j: int| 0 <= j < idx ==> (#[trigger] gs[j]).safe_key@ != s,
        decreases gs.len() - idx,
    {
        idx = idx + 1;
    }
    if idx < groups.len() {
        let g = groups.remove(idx);
        assert(g == gs[idx as int]);
        proof {
            reveal(groups_fit);
        }
        let g1 = add_to_group(g, sheet, row, Ghost(es), Ghost(e));
        let ghost gg = g1;
        groups.insert(idx, g1);
        proof {
            assert(groups@ =~= gs.update(idx as int, gg));
            lemma_update_fits(gs, es, e, idx as int, gg);
        }
    } else {
        proof {
            reveal(groups_fit);
            assert forall|j: int| 0 <= j < gs.len() implies (#[trigger] gs[j]).key@ != key@ by {
                assert(group_fits(gs[j], es));
                reveal(group_fits);
            }
        }
        let mut p: usize = 0;
        while p < groups.len() && text_lt(groups[p].key.as_str(), key.as_str())
            invariant
                groups@ == gs,
                p <= gs.len(),
                forall|j: int| 0 <= j < p ==> seq_lt((#[trigger] gs[j]).key@, key@),
            decreases gs.len() - p,
        {
            p = p + 1;
        }
        proof {
            if p < gs.len() {
                lemma_seq_lt_total(gs[p as int].key@, key@);
            }
        }
        let gn = new_group(sheet, row, key, safe, Ghost(es), Ghost(gs));
        let ghost gg = gn;
        groups.insert(p, gn);
        proof {
            assert(groups@ =~= gs.insert(p as int, gg));
            lemma_insert_fits(gs, es, e, p as int, gg);
        }
    }
}


/// A character of a key as it stands in a file name.
pub fn safe_char_of(c: char) -> (r: char)
    ensures
        r == safe_char(c),
{
    if c == '\\' || c == '/' || c == ':' || c == '*' || c == '?' || c == '"' || c == '<' || c == '>' || c == '|' {
        '_'
    } else {
        c
    }
}

/// Whether the file name of `key` can be made: its cut at 200 bytes, when
/// needed, falls between characters.
pub fn safe_name_ok(key: &str) -> (r: bool)
    ensures
        r == safe_name_defined(key@),
{
    let n = key.unicode_len();
    let ghost m = mapped_name(key@);
    let ghost cw = chars_within(m, 200);
    let mut total: usize = 0;
    let mut budget: usize = 200;
    let mut stopped = false;
    let mut i: usize = 0;
    assert(m.subrange(0, n as int) =~= m);
    assert(m.take(0) =~= Seq::<char>::empty());
    while i < n
        invariant
            n == key@.len(),
            m == mapped_name(key@),
            m.len() == n,
            cw == chars_within(m, 200),
            i <= n,
            budget <= 200,
            total == (if utf8_len(m.take(i as int)) <= 201 { utf8_len(m.take(i as int)) } else { 201 }),
            !stopped ==> cw == i + chars_within(m.subrange(i as int, n as int), budget as int),
            !stopped ==> utf8_len(m.take(i as int)) + budget == 200,
            stopped ==> utf8_len(m.take(cw as int)) + budget == 200,
        decreases n - i,
    {
        let c = safe_char_of(key.get_char(i));
        let w = char_utf8_width(c);
        proof {
            let p = m.take(i + 1);
            assert(p.drop_last() =~= m.take(i as int));
            assert(p.last() == c);
            assert(m[i as int] == c);
        }
        if !stopped {
            proof {
                lemma_chars_within_step(m, i as int, budget as int);
            }
            if w <= budget {
                budget = budget - w;
            } else {
                stopped = true;
                assert(cw == i);
            }
        }
        total = if total + w <= 201 { total + w } else { 201 };
        i = i + 1;
    }
    proof {
        assert(m.take(n as int) =~= m);
        if !stopped {
            assert(m.subrange(n as int, n as int).len() == 0);
            assert(cw == n);
        }
    }
    total <= 200 || budget == 0
}

/// The index of the sheet that the configuration `c` splits.
pub open spec fn config_sheet(wb: WorkbookData, c: SplitSheetConfig) -> Option<int> {
    sheet_index(wb.sheets@, c.name@)
}

/// The column that the configuration `c` splits on.
pub open spec fn config_column(wb: WorkbookData, c: SplitSheetConfig) -> Option<usize> {
    match config_sheet(wb, c) {
        Some(i) => column_index_spec(wb.sheets@[i].headers@, c.split_column@),
        None => None,
    }
}

/// The configuration names a sheet that exists and a column that resolves.
pub open spec fn config_ok(wb: WorkbookData, c: SplitSheetConfig) -> bool {
    config_sheet(wb, c) is Some && config_column(wb, c) is Some
}

/// The entries of a resolvable configuration: each data row of its sheet
/// with the key read from its split column.
pub open spec fn config_entries(wb: WorkbookData, c: SplitSheetConfig, label: Seq<char>) -> Seq<RowEntry> {
    let sh = wb.sheets@[config_sheet(wb, c).unwrap()];
    let col = config_column(wb, c).unwrap();
    Seq::new(sh.rows@.len(), |r: int| RowEntry { sheet: c.name@, row: r as usize, key: key_text(sh.rows@[r]@, col as int, label) })
}

/// The entries of all configurations, configuration after configuration.
pub open spec fn entries_of(wb: WorkbookData, cs: Seq<SplitSheetConfig>, label: Seq<char>) -> Seq<RowEntry>
    decreases cs.len(),
{
    if cs.len() == 0 {
        Seq::empty()
    } else {
        entries_of(wb, cs.drop_last(), label) + config_entries(wb, cs.last(), label)
    }
}

/// All configurations up to and including `i` resolve.
pub open spec fn ok_through(wb: WorkbookData, cs: Seq<SplitSheetConfig>, i: int) -> bool {
    forall|j: int| 0 <= j <= i ==> config_ok(wb, #[trigger] cs[j])
}

/// Planning reaches no key whose file name cannot be cut at 200 bytes: every
/// key of a configuration reached (all before it resolve) has a file name.
pub open spec fn plan_defined(wb: WorkbookData, cs: Seq<SplitSheetConfig>, label: Seq<char>) -> bool {
    forall|i: int, r: int| 0 <= i < cs.len() && ok_through(wb, cs, i) && 0 <= r < config_entries(wb, cs[i], label).len()
        ==> safe_name_defined((#[trigger] config_entries(wb, cs[i], label)[r]).key)
}

/// The message of a configuration that does not resolve: its sheet is
/// missing, or its column is not found in that sheet.
pub open spec fn config_error_text(wb: WorkbookData, c: SplitSheetConfig) -> Seq<char> {
    if config_sheet(wb, c) is None {
        "Sheet '"@ + c.name@ + "' not found"@
    } else {
        "Column '"@ + c.split_column@ + "' not found in sheet '"@ + c.name@ + "'"@
    }
}

/// What planning gives: the groups of all entries when every configuration
/// resolves, else the error of the first configuration that does not.
pub open spec fn plan_result(wb: WorkbookData, config: AppConfig, r: Result<Vec<OutputGroup>, AppError>) -> bool {
    let cs = config.split_sheets@;
    match r {
        Ok(gs) => ok_through(wb, cs, cs.len() - 1) && groups_fit(gs@, entries_of(wb, cs, config.empty_key_label@)),
        Err(e) => exists|i: int| 0 <= i < cs.len() && (i == 0 || ok_through(wb, cs, i - 1)) && !config_ok(wb, #[trigger] cs[i])
            && (e matches AppError::Config(m) && m@ == config_error_text(wb, cs[i])),
    }
}

proof fn lemma_entries_step(wb: WorkbookData, cs: Seq<SplitSheetConfig>, label: Seq<char>, i: int)
    requires
        0 <= i < cs.len(),
    ensures
        entries_of(wb, cs.take(i + 1), label) == entries_of(wb, cs.take(i), label) + config_entries(wb, cs[i], label),
{
    let t = cs.take(i + 1);
    assert(t.drop_last() =~= cs.take(i));
    assert(t.last() == cs[i]);
}

/// Plans the output: for every split configuration in order, its sheet and
/// split column are resolved (else the error names the first that fails),
/// and each data row goes, by the file name made of its key, to one group;
/// the groups come ordered by key.
pub fn plan_outputs(config: &AppConfig, wb: &WorkbookData) -> (r: Result<Vec<OutputGroup>, AppError>)
    requires
        plan_defined(*wb, config.split_sheets@, config.empty_key_label@),
    ensures
        plan_result(*wb, *config, r),
{
    let cs = &config.split_sheets;
    let label = &config.empty_key_label;
    let ghost lab = label@;
    let mut groups: Vec<OutputGroup> = Vec::new();
    proof {
        reveal(groups_fit);
        assert(cs@.take(0) =~= Seq::<SplitSheetConfig>::empty());
    }
    let mut ci: usize = 0;
    while ci < cs.len()
        invariant
            cs == &config.split_sheets,
            lab == label@,
            label == &config.empty_key_label,
            ci <= cs@.len(),
            ci == 0 || ok_through(*wb, cs@, ci - 1),
            groups_fit(groups@, entries_of(*wb, cs@.take(ci as int), lab)),
            plan_defined(*wb, cs@, lab),
        decreases cs@.len() - ci,
    {
        let c = &cs[ci];
        let si = find_sheet(wb, &c.name);
        if si.is_none() {
            let mut m = String::new();
            push_text(&mut m, "Sheet '");
            push_text(&mut m, c.name.as_str());
            push_text(&mut m, "' not found");
            assert(!config_ok(*wb, cs@[ci as int]));
            return Err(AppError::Config(m));
        }
        let si = si.unwrap();
        let sheet = &wb.sheets[si];
        let col = get_column_index(sheet, c.split_column.as_str());
        if col.is_none() {
            let mut m = String::new();
            push_text(&mut m, "Column '");
            push_text(&mut m, c.split_column.as_str());
            push_text(&mut m, "' not found in sheet '");
            push_text(&mut m, c.name.as_str());
            push_text(&mut m, "'");
            assert(!config_ok(*wb, cs@[ci as int]));
            return Err(AppError::Config(m));
        }
        let col = col.unwrap();
        let ghost ents = config_entries(*wb, cs@[ci as int], lab);
        let ghost before = entries_of(*wb, cs@.take(ci as int), lab);
        assert(ok_through(*wb, cs@, ci as int));
        let n = sheet.rows.len();
        let mut r: usize = 0;
        assert(ents.take(0) =~= Seq::<RowEntry>::empty());
        assert(before + ents.take(0) =~= before);
        while r < n
            invariant
                cs == &config.split_sheets,
                lab == label@,
                label == &config.empty_key_label,
                ci < cs@.len(),
                ok_through(*wb, cs@, ci as int),
                si == config_sheet(*wb, cs@[ci as int]).unwrap(),
                si < wb.sheets@.len(),
                sheet == &wb.sheets@[si as int],
                col == config_column(*wb, cs@[ci as int]).unwrap(),
                c == &cs@[ci as int],
                n == sheet.rows@.len(),
                ents == config_entries(*wb, cs@[ci as int], lab),
                before == entries_of(*wb, cs@.take(ci as int), lab),
                r <= n,
                groups_fit(groups@, before + ents.take(r as int)),
                plan_defined(*wb, cs@, lab),
            decreases n - r,
        {
            let key = row_key(&sheet.rows[r], col, label);
            assert(ents[r as int].key == key@);
            assert(safe_name_defined(ents[r as int].key));
            add_entry(&mut groups, &c.name, r, key, Ghost(before + ents.take(r as int)));
            proof {
                assert(ents[r as int] == (RowEntry { sheet: c.name@, row: r, key: key@ }));
                assert((before + ents.take(r as int)).push(ents[r as int]) =~= before + ents.take(r + 1));
            }
            r = r + 1;
        }
        proof {
            assert(ents.take(n as int) =~= ents);
            lemma_entries_step(*wb, cs@, lab, ci as int);
        }
        ci = ci + 1;
    }
    proof {
        assert(cs@.take(cs@.len() as int) =~= cs@);
    }
    Ok(groups)
}

/// Whether planning reaches no key whose file name would be cut inside a
/// character.
pub fn plan_defined_check(config: &AppConfig, wb: &WorkbookData) -> (r: bool)
    ensures
        r == plan_defined(*wb, config.split_sheets@, config.empty_key_label@),
{
    let cs = &config.split_sheets;
    let label = &config.empty_key_label;
    let ghost lab = label@;
    let mut ci: usize = 0;
    while ci < cs.len()
        invariant
            cs == &config.split_sheets,
            lab == label@,
            label == &config.empty_key_label,
            ci <= cs@.len(),
            ci == 0 || ok_through(*wb, cs@, ci - 1),
            forall|i: int, r: int| 0 <= i < ci && 0 <= r < config_entries(*wb, cs@[i], lab).len()
                ==> safe_name_defined((#[trigger] config_entries(*wb, cs@[i], lab)[r]).key),
        decreases cs@.len() - ci,
    {
        let c = &cs[ci];
        let si = find_sheet(wb, &c.name);
        if si.is_none() {
            proof {
                assert(!config_ok(*wb, cs@[ci as int]));
                assert forall|i: int, r: int| 0 <= i < cs@.len() && ok_through(*wb, cs@, i) && 0 <= r < config_entries(*wb, cs@[i], lab).len()
                    implies safe_name_defined((#[trigger] config_entries(*wb, cs@[i], lab)[r]).key) by {
                    if i >= ci {
                        assert(config_ok(*wb, cs@[ci as int]));
                    }
                }
            }
            return true;
        }
        let si = si.unwrap();
        let sheet = &wb.sheets[si];
        let col = get_column_index(sheet, c.split_column.as_str());
        if col.is_none() {
            proof {
                assert(!config_ok(*wb, cs@[ci as int]));
                assert forall|i: int, r: int| 0 <= i < cs@.len() && ok_through(*wb, cs@, i) && 0 <= r < config_entries(*wb, cs@[i], lab).len()
                    implies safe_name_defined((#[trigger] config_entries(*wb, cs@[i], lab)[r]).key) by {
                    if i >= ci {
                        assert(config_ok(*wb, cs@[ci as int]));
                    }
                }
            }
            return true;
        }
        let col = col.unwrap();
        let ghost ents = config_entries(*wb, cs@[ci as int], lab);
        assert(ok_through(*wb, cs@, ci as int));
        let n = sheet.rows.len();
        let mut r: usize = 0;
        while r < n
            invariant
                cs == &config.split_sheets,
                lab == label@,
                label == &config.empty_key_label,
                ci < cs@.len(),
                ok_through(*wb, cs@, ci as int),
                si == config_sheet(*wb, cs@[ci as int]).unwrap(),
                si < wb.sheets@.len(),
                sheet == &wb.sheets@[si as int],
                col == config_column(*wb, cs@[ci as int]).unwrap(),
                n == sheet.rows@.len(),
                ents == config_entries(*wb, cs@[ci as int], lab),
                r <= n,
                forall|k: int| 0 <= k < r ==> safe_name_defined((#[trigger] ents[k]).key),
            decreases n - r,
        {
            let key = row_key(&sheet.rows[r], col, label);
            assert(ents[r as int].key == key@);
            if !safe_name_ok(key.as_str()) {
                proof {
                    assert(!safe_name_defined(ents[r as int].key));
                    assert(!safe_name_defined(config_entries(*wb, cs@[ci as int], lab)[r as int].key));
                    let i = ci as int;
                    let rr = r as int;
                    assert(0 <= i < cs@.len() && ok_through(*wb, cs@, i) && 0 <= rr < config_entries(*wb, cs@[i], lab).len());
                }
                return false;
            }
            r = r + 1;
        }
        ci = ci + 1;
    }
    true
}

/// Plans the output as `plan_outputs` does where that is defined, and gives
/// `None` where a key's file name would have to be cut inside a character.
pub fn try_plan_outputs(config: &AppConfig, wb: &WorkbookData) -> (r: Option<Result<Vec<OutputGroup>, AppError>>)
    ensures
        r is None <==> !plan_defined(*wb, config.split_sheets@, config.empty_key_label@),
        r matches Some(res) ==> plan_result(*wb, *config, res),
{
    if plan_defined_check(config, wb) {
        Some(plan_outputs(config, wb))
    } else {
        None
    }
}


proof fn lemma_rows_of_contains(es: Seq<RowEntry>, s: Seq<char>, n: Seq<char>, k: int)
    requires
        0 <= k < es.len(),
        safe_name(es[k].key) == s,
        es[k].sheet == n,
    ensures
        rows_of(es, s, n).contains(es[k].row),
    decreases es.len(),
{
    let t = es.drop_last();
    if k == es.len() - 1 {
        let r = rows_of(t, s, n);
        assert(rows_of(es, s, n) == r.push(es[k].row));
        assert(rows_of(es, s, n)[r.len() as int] == es[k].row);
    } else {
        assert(t[k] == es[k]);
        lemma_rows_of_contains(t, s, n, k);
        let r = rows_of(t, s, n);
        let j = choose|j: int| 0 <= j < r.len() && r[j] == es[k].row;
        assert(rows_of(es, s, n)[j] == es[k].row);
    }
}

/// A row listed for a sheet and file name comes from an entry of that sheet
/// whose key makes that file name.
pub proof fn lemma_rows_of_source(es: Seq<RowEntry>, s: Seq<char>, n: Seq<char>, x: usize)
    requires
        rows_of(es, s, n).contains(x),
    ensures
        exists|k: int| 0 <= k < es.len() && safe_name((#[trigger] es[k]).key) == s && es[k].sheet == n && es[k].row == x,
    decreases es.len(),
{
    let t = es.drop_last();
    let r = rows_of(t, s, n);
    let e = es.last();
    if safe_name(e.key) == s && e.sheet == n && e.row == x {
        assert(es[es.len() - 1] == e);
    } else {
        let j = choose|j: int| 0 <= j < rows_of(es, s, n).len() && rows_of(es, s, n)[j] == x;
        if safe_name(e.key) == s && e.sheet == n {
            assert(j < r.len());
            assert(r[j] == x);
        }
        assert(r.contains(x));
        lemma_rows_of_source(t, s, n, x);
        let k = choose|k: int| 0 <= k < t.len() && safe_name((#[trigger] t[k]).key) == s && t[k].sheet == n && t[k].row == x;
        assert(es[k] == t[k]);
    }
}

/// Every data row of every split sheet goes to exactly one output file: the
/// one group with the file name of its key, under its sheet.
pub proof fn law_each_row_in_one_group(gs: Seq<OutputGroup>, es: Seq<RowEntry>, k: int)
    requires
        groups_fit(gs, es),
        0 <= k < es.len(),
    ensures
        exists|i: int, a: int| 0 <= i < gs.len() && 0 <= a < gs[i].sheets@.len()
            && gs[i].safe_key@ == safe_name(es[k].key)
            && (#[trigger] gs[i].sheets@[a]).name@ == es[k].sheet
            && gs[i].sheets@[a].rows@.contains(es[k].row),
        forall|i: int| 0 <= i < gs.len() && (#[trigger] gs[i]).safe_key@ == safe_name(es[k].key)
            ==> forall|j: int| 0 <= j < gs.len() && (#[trigger] gs[j]).safe_key@ == safe_name(es[k].key) ==> i == j,
{
    reveal(groups_fit);
    let s = safe_name(es[k].key);
    assert(has_group(gs, s));
    let i = choose|i: int| 0 <= i < gs.len() && (#[trigger] gs[i]).safe_key@ == s;
    assert(group_fits(gs[i], es));
    reveal(group_fits);
    let a = choose|a: int| 0 <= a < gs[i].sheets@.len() && (#[trigger] gs[i].sheets@[a]).name@ == es[k].sheet;
    lemma_rows_of_contains(es, s, es[k].sheet, k);
    assert(gs[i].sheets@[a].rows@ == rows_of(es, s, gs[i].sheets@[a].name@));
    assert forall|i1: int| 0 <= i1 < gs.len() && (#[trigger] gs[i1]).safe_key@ == s
        implies forall|j: int| 0 <= j < gs.len() && (#[trigger] gs[j]).safe_key@ == s ==> i1 == j by {
        assert forall|j: int| 0 <= j < gs.len() && (#[trigger] gs[j]).safe_key@ == s implies i1 == j by {
            if i1 != j {
                law_file_names_distinct(gs, es, i1, j);
            }
        }
    }
}

/// Every row listed in an output group is a data row of that sheet whose key
/// makes the group's file name.
pub proof fn law_group_rows_belong(gs: Seq<OutputGroup>, es: Seq<RowEntry>, i: int, a: int, x: usize)
    requires
        groups_fit(gs, es),
        0 <= i < gs.len(),
        0 <= a < gs[i].sheets@.len(),
        gs[i].sheets@[a].rows@.contains(x),
    ensures
        exists|k: int| 0 <= k < es.len() && safe_name((#[trigger] es[k]).key) == gs[i].safe_key@
            && es[k].sheet == gs[i].sheets@[a].name@ && es[k].row == x,
{
    reveal(groups_fit);
    assert(group_fits(gs[i], es));
    reveal(group_fits);
    assert(gs[i].sheets@[a].rows@ == rows_of(es, gs[i].safe_key@, gs[i].sheets@[a].name@));
    lemma_rows_of_source(es, gs[i].safe_key@, gs[i].sheets@[a].name@, x);
}

proof fn lemma_utf8_len_prepend(s: Seq<char>)
    requires
        s.len() > 0,
    ensures
        utf8_len(s) == utf8_width(s[0]) + utf8_len(s.drop_first()),
    decreases s.len(),
{
    if s.len() > 1 {
        let t = s.drop_last();
        lemma_utf8_len_prepend(t);
        assert(t[0] == s[0]);
        assert(t.drop_first() =~= s.drop_first().drop_last());
        assert(s.drop_first().last() == s.last());
        assert(utf8_len(s.drop_first()) == utf8_len(s.drop_first().drop_last()) + utf8_width(s.drop_first().last()));
        assert(utf8_len(s) == utf8_len(t) + utf8_width(s.last()));
    } else {
        assert(s.drop_first().len() == 0);
        assert(s.drop_last().len() == 0);
        assert(utf8_len(s.drop_first()) == 0);
        assert(utf8_len(s.drop_last()) == 0);
        assert(s.last() == s[0]);
    }
}

proof fn lemma_chars_within_fits(s: Seq<char>, b: int)
    requires
        b >= 0,
    ensures
        chars_within(s, b) <= s.len(),
        utf8_len(s.take(chars_within(s, b) as int)) <= b,
        s.len() > 0 && b >= 4 ==> chars_within(s, b) > 0,
    decreases s.len(),
{
    let n = chars_within(s, b);
    if s.len() == 0 || utf8_width(s[0]) > b {
        assert(s.take(0).len() == 0);
    } else {
        let w = utf8_width(s[0]);
        let t = s.drop_first();
        lemma_chars_within_fits(t, b - w);
        let p = s.take(n as int);
        assert(p.len() > 0);
        lemma_utf8_len_prepend(p);
        assert(p.drop_first() =~= t.take(chars_within(t, b - w) as int));
        assert(p[0] == s[0]);
    }
}

/// A file name made of a key holds none of `\ / : * ? " < > |`, is not
/// empty, and is at most 200 bytes of UTF-8.
pub proof fn law_safe_name_valid(key: Seq<char>)
    requires
        safe_name_defined(key),
    ensures
        forall|i: int| 0 <= i < safe_name(key).len() ==> !forbidden_char(#[trigger] safe_name(key)[i]),
        safe_name(key).len() > 0,
        utf8_len(safe_name(key)) <= max_name_bytes(),
{
    let m = mapped_name(key);
    lemma_chars_within_fits(m, 200);
    assert(!forbidden_char('_'));
    let r = safe_name(key);
    if m.len() == 0 {
        assert(r == empty_word());
        assert(utf8_len(empty_word()) == 5) by {
            reveal_with_fuel(utf8_len, 6);
        }
    }
}

/// Making a file name of a file name changes nothing.
pub proof fn law_safe_name_idempotent(key: Seq<char>)
    requires
        safe_name_defined(key),
    ensures
        safe_name(safe_name(key)) == safe_name(key),
        safe_name_defined(safe_name(key)),
{
    let t = safe_name(key);
    law_safe_name_valid(key);
    assert(mapped_name(t) =~= t);
}


/// `utf8_len` is the length of the UTF-8 encoding, the byte length that
/// `str::len` gives.
pub proof fn law_utf8_len_is_byte_length(s: Seq<char>)
    ensures
        utf8_len(s) == vstd::utf8::encode_utf8(s).len(),
    decreases s.len(),
{
    if s.len() > 0 {
        lemma_utf8_len_prepend(s);
        law_utf8_len_is_byte_length(s.drop_first());
        vstd::utf8::char_is_scalar(s[0]);
        let v = s[0] as u32;
        assert(vstd::utf8::encode_scalar(v).len() == utf8_width(s[0]));
    }
}


proof fn lemma_mapped_utf8_len(key: Seq<char>)
    ensures
        utf8_len(mapped_name(key)) == utf8_len(key),
        mapped_name(key).len() == key.len(),
    decreases key.len(),
{
    if key.len() > 0 {
        let t = key.drop_last();
        lemma_mapped_utf8_len(t);
        assert(mapped_name(key).drop_last() =~= mapped_name(t));
        let c = key.last();
        assert(mapped_name(key).last() == safe_char(c));
        assert(utf8_width(safe_char(c)) == utf8_width(c));
    }
}

/// The file name of a non-empty key is the key with each of the nine
/// characters `\ / : * ? " < > |` replaced by `_` and every other character
/// kept, cut only when the key is longer than 200 bytes of UTF-8, and then
/// to exactly 200 bytes.
pub proof fn law_safe_name_chars(key: Seq<char>)
    requires
        safe_name_defined(key),
        key.len() > 0,
    ensures
        safe_name(key).len() <= key.len(),
        forall|i: int| 0 <= i < safe_name(key).len() ==> #[trigger] safe_name(key)[i] == (if key[i] == '\\' || key[i] == '/'
            || key[i] == ':' || key[i] == '*' || key[i] == '?' || key[i] == '"' || key[i] == '<' || key[i] == '>'
            || key[i] == '|' {
            '_'
        } else {
            key[i]
        }),
        utf8_len(key) <= 200 ==> safe_name(key).len() == key.len(),
        utf8_len(key) > 200 ==> utf8_len(safe_name(key)) == 200,
{
    lemma_mapped_utf8_len(key);
    let m = mapped_name(key);
    lemma_chars_within_fits(m, 200);
}

/// A non-empty key of at most 200 bytes of UTF-8 that holds none of
/// `\ / : * ? " < > |` is its own file name.
pub proof fn law_safe_name_plain(key: Seq<char>)
    requires
        key.len() > 0,
        utf8_len(key) <= 200,
        forall|i: int| 0 <= i < key.len() ==> !(#[trigger] key[i] == '\\' || key[i] == '/' || key[i] == ':' || key[i] == '*'
            || key[i] == '?' || key[i] == '"' || key[i] == '<' || key[i] == '>' || key[i] == '|'),
    ensures
        safe_name_defined(key),
        safe_name(key) == key,
{
    lemma_mapped_utf8_len(key);
    law_safe_name_chars(key);
    assert(safe_name(key) =~= key);
}

/// The file name of an empty key is `empty`.
pub proof fn law_safe_name_of_empty()
    ensures
        safe_name(Seq::empty()) == seq!['e', 'm', 'p', 't', 'y'],
{
    assert(mapped_name(Seq::empty()).len() == 0);
}


proof fn lemma_entries_prefix(wb: WorkbookData, cs: Seq<SplitSheetConfig>, label: Seq<char>, j: int, m: int)
    requires
        0 <= j <= cs.len(),
        0 <= m < entries_of(wb, cs.take(j), label).len(),
    ensures
        m < entries_of(wb, cs, label).len(),
        entries_of(wb, cs, label)[m] == entries_of(wb, cs.take(j), label)[m],
    decreases cs.len() - j,
{
    if j < cs.len() {
        lemma_entries_step(wb, cs, label, j);
        lemma_entries_prefix(wb, cs, label, j + 1, m);
    } else {
        assert(cs.take(j) =~= cs);
    }
}

/// Each data row of each split sheet is planned once per configuration that
/// splits that sheet: the entry names the configured sheet and the row, and
/// its key is read from that row at the column that the configured split
/// column resolves to in the sheet's headers.
pub proof fn law_entry_of_row(wb: WorkbookData, cs: Seq<SplitSheetConfig>, label: Seq<char>, i: int, r: int)
    requires
        ok_through(wb, cs, cs.len() - 1),
        0 <= i < cs.len(),
        0 <= r < wb.sheets@[sheet_index(wb.sheets@, cs[i].name@).unwrap()].rows@.len(),
    ensures
        exists|k: int| 0 <= k < entries_of(wb, cs, label).len() && {
            let e = #[trigger] entries_of(wb, cs, label)[k];
            let sh = wb.sheets@[sheet_index(wb.sheets@, cs[i].name@).unwrap()];
            &&& e.sheet == cs[i].name@
            &&& e.row == r as usize
            &&& e.key == key_text(sh.rows@[r]@, column_index_spec(sh.headers@, cs[i].split_column@).unwrap() as int, label)
        },
{
    assert(config_ok(wb, cs[i]));
    lemma_entries_step(wb, cs, label, i);
    let p = entries_of(wb, cs.take(i), label);
    let k = p.len() + r;
    lemma_entries_prefix(wb, cs, label, i + 1, k);
    let sh = wb.sheets@[sheet_index(wb.sheets@, cs[i].name@).unwrap()];
    let ce = config_entries(wb, cs[i], label);
    assert(ce.len() == sh.rows@.len());
    assert(entries_of(wb, cs, label)[k] == ce[r]);
    let e = entries_of(wb, cs, label)[k];
    assert(e.sheet == cs[i].name@);
    assert(e.row == r as usize);
    assert(e.key == key_text(sh.rows@[r]@, column_index_spec(sh.headers@, cs[i].split_column@).unwrap() as int, label));
}

/// Every planned entry comes from a configuration: it names that
/// configuration's sheet and a data row of it, and its key is read from that
/// row at the column that the configured split column resolves to.
pub proof fn law_entry_source(wb: WorkbookData, cs: Seq<SplitSheetConfig>, label: Seq<char>, k: int)
    requires
        ok_through(wb, cs, cs.len() - 1),
        0 <= k < entries_of(wb, cs, label).len(),
    ensures
        exists|i: int, r: int| 0 <= i < cs.len() && {
            let e = entries_of(wb, cs, label)[k];
            let si = sheet_index(wb.sheets@, (#[trigger] cs[i]).name@);
            &&& e.sheet == cs[i].name@
            &&& si is Some
            &&& 0 <= si.unwrap() < wb.sheets@.len()
            &&& wb.sheets@[si.unwrap()].name@ == cs[i].name@
            &&& 0 <= r < wb.sheets@[si.unwrap()].rows@.len()
            &&& e.row == #[trigger] (r as usize)
            &&& e.key == key_text(wb.sheets@[si.unwrap()].rows@[r]@,
                column_index_spec(wb.sheets@[si.unwrap()].headers@, cs[i].split_column@).unwrap() as int, label)
        },
    decreases cs.len(),
{
    let t = cs.drop_last();
    let es = entries_of(wb, cs, label);
    let p = entries_of(wb, t, label);
    if k < p.len() {
        assert forall|j: int| 0 <= j <= t.len() - 1 implies config_ok(wb, #[trigger] t[j]) by {
            assert(t[j] == cs[j]);
            assert(config_ok(wb, cs[j]));
        }
        law_entry_source(wb, t, label, k);
        let (i, r) = choose|i: int, r: int| 0 <= i < t.len() && {
            let e = entries_of(wb, t, label)[k];
            let si = sheet_index(wb.sheets@, (#[trigger] t[i]).name@);
            &&& e.sheet == t[i].name@
            &&& si is Some
            &&& 0 <= si.unwrap() < wb.sheets@.len()
            &&& wb.sheets@[si.unwrap()].name@ == t[i].name@
            &&& 0 <= r < wb.sheets@[si.unwrap()].rows@.len()
            &&& e.row == #[trigger] (r as usize)
            &&& e.key == key_text(wb.sheets@[si.unwrap()].rows@[r]@,
                column_index_spec(wb.sheets@[si.unwrap()].headers@, t[i].split_column@).unwrap() as int, label)
        };
        assert(t[i] == cs[i]);
        assert(es[k] == p[k]);
        assert(cs[i].name@ == t[i].name@);
    } else {
        let i = cs.len() - 1;
        assert(config_ok(wb, cs[i]));
        assert(cs.last() == cs[i]);
        lemma_sheet_index_bounds(wb.sheets@, cs[i].name@);
        let ce = config_entries(wb, cs[i], label);
        assert(es[k] == ce[k - p.len()]);
        let si = sheet_index(wb.sheets@, cs[i].name@);
        let e = es[k];
        assert(e.sheet == cs[i].name@);
        let r = k - p.len();
        assert(0 <= r < wb.sheets@[si.unwrap()].rows@.len());
        assert(e.row == r as usize);
        assert(e.key == key_text(wb.sheets@[si.unwrap()].rows@[r]@,
                column_index_spec(wb.sheets@[si.unwrap()].headers@, cs[i].split_column@).unwrap() as int, label));
    }
}


proof fn lemma_rows_of_rising(es: Seq<RowEntry>, s: Seq<char>, n: Seq<char>)
    requires
        forall|k1: int, k2: int| 0 <= k1 < k2 < es.len() && (#[trigger] es[k1]).sheet == n && (#[trigger] es[k2]).sheet == n
            ==> es[k1].row < es[k2].row,
    ensures
        forall|a: int, b: int| 0 <= a < b < rows_of(es, s, n).len() ==> (#[trigger] rows_of(es, s, n)[a]) < (#[trigger] rows_of(es, s, n)[b]),
    decreases es.len(),
{
    if es.len() > 0 {
        let t = es.drop_last();
        assert forall|k1: int, k2: int| 0 <= k1 < k2 < t.len() && (#[trigger] t[k1]).sheet == n && (#[trigger] t[k2]).sheet == n
            implies t[k1].row < t[k2].row by {
            assert(t[k1] == es[k1] && t[k2] == es[k2]);
        }
        lemma_rows_of_rising(t, s, n);
        let r = rows_of(t, s, n);
        let e = es.last();
        if safe_name(e.key) == s && e.sheet == n {
            let u = rows_of(es, s, n);
            assert(u == r.push(e.row));
            assert forall|a: int, b: int| 0 <= a < b < u.len() implies (#[trigger] u[a]) < (#[trigger] u[b]) by {
                if b == r.len() {
                    assert(r.contains(r[a]));
                    lemma_rows_of_source(t, s, n, r[a]);
                    let k = choose|k: int| 0 <= k < t.len() && safe_name((#[trigger] t[k]).key) == s && t[k].sheet == n && t[k].row == r[a];
                    assert(t[k] == es[k]);
                    assert(es[es.len() - 1] == e);
                } else {
                    assert(u[a] == r[a] && u[b] == r[b]);
                }
            }
        }
    }
}

/// The rows of a sheet in an output group keep the order of the planned
/// entries: when the entries of each sheet come by rising row, so do the
/// rows that each group lists for that sheet.
pub proof fn law_group_rows_rising(gs: Seq<OutputGroup>, es: Seq<RowEntry>, i: int, a: int)
    requires
        groups_fit(gs, es),
        0 <= i < gs.len(),
        0 <= a < gs[i].sheets@.len(),
        forall|k1: int, k2: int| 0 <= k1 < k2 < es.len() && (#[trigger] es[k1]).sheet == (#[trigger] es[k2]).sheet
            ==> es[k1].row < es[k2].row,
    ensures
        forall|x: int, y: int| 0 <= x < y < gs[i].sheets@[a].rows@.len()
            ==> (#[trigger] gs[i].sheets@[a].rows@[x]) < (#[trigger] gs[i].sheets@[a].rows@[y]),
{
    reveal(groups_fit);
    assert(group_fits(gs[i], es));
    reveal(group_fits);
    let n = gs[i].sheets@[a].name@;
    assert(gs[i].sheets@[a].rows@ == rows_of(es, gs[i].safe_key@, n));
    lemma_rows_of_rising(es, gs[i].safe_key@, n);
}

/// When no two configurations split the same sheet, the planned entries of
/// each sheet come by rising row.
pub proof fn law_entries_rising(wb: WorkbookData, cs: Seq<SplitSheetConfig>, label: Seq<char>)
    requires
        ok_through(wb, cs, cs.len() - 1),
        forall|i: int, j: int| 0 <= i < j < cs.len() ==> (#[trigger] cs[i]).name@ != (#[trigger] cs[j]).name@,
        forall|s: int| 0 <= s < wb.sheets@.len() ==> (#[trigger] wb.sheets@[s]).rows@.len() <= usize::MAX,
    ensures
        forall|k1: int, k2: int| 0 <= k1 < k2 < entries_of(wb, cs, label).len()
            && (#[trigger] entries_of(wb, cs, label)[k1]).sheet == (#[trigger] entries_of(wb, cs, label)[k2]).sheet
            ==> entries_of(wb, cs, label)[k1].row < entries_of(wb, cs, label)[k2].row,
    decreases cs.len(),
{
    if cs.len() > 0 {
        let t = cs.drop_last();
        let es = entries_of(wb, cs, label);
        let p = entries_of(wb, t, label);
        let c = cs.last();
        assert(c == cs[cs.len() - 1]);
        assert(config_ok(wb, c));
        let ce = config_entries(wb, c, label);
        let si = sheet_index(wb.sheets@, c.name@).unwrap();
        lemma_sheet_index_bounds(wb.sheets@, c.name@);
        assert(ce.len() == wb.sheets@[si].rows@.len());
        assert forall|j: int| 0 <= j <= t.len() - 1 implies config_ok(wb, #[trigger] t[j]) by {
            assert(t[j] == cs[j]);
            assert(config_ok(wb, cs[j]));
        }
        assert forall|i: int, j: int| 0 <= i < j < t.len() implies (#[trigger] t[i]).name@ != (#[trigger] t[j]).name@ by {
            assert(t[i] == cs[i] && t[j] == cs[j]);
        }
        law_entries_rising(wb, t, label);
        assert forall|k1: int, k2: int| 0 <= k1 < k2 < es.len() && (#[trigger] es[k1]).sheet == (#[trigger] es[k2]).sheet
            implies es[k1].row < es[k2].row by {
            if k2 < p.len() {
                assert(es[k1] == p[k1] && es[k2] == p[k2]);
            } else if k1 < p.len() {
                assert(es[k1] == p[k1]);
                assert(es[k2] == ce[k2 - p.len()]);
                law_entry_source(wb, t, label, k1);
                let (i, r) = choose|i: int, r: int| 0 <= i < t.len() && {
                    let e = entries_of(wb, t, label)[k1];
                    let si = sheet_index(wb.sheets@, (#[trigger] t[i]).name@);
                    &&& e.sheet == t[i].name@
                    &&& si is Some
                    &&& 0 <= si.unwrap() < wb.sheets@.len()
                    &&& wb.sheets@[si.unwrap()].name@ == t[i].name@
                    &&& 0 <= r < wb.sheets@[si.unwrap()].rows@.len()
                    &&& e.row == #[trigger] (r as usize)
                    &&& e.key == key_text(wb.sheets@[si.unwrap()].rows@[r]@,
                        column_index_spec(wb.sheets@[si.unwrap()].headers@, t[i].split_column@).unwrap() as int, label)
                };
                assert(t[i] == cs[i]);
                assert(false);
            } else {
                assert(es[k1] == ce[k1 - p.len()]);
                assert(es[k2] == ce[k2 - p.len()]);
            }
        }
    }
}


/// Each output group is named by the key of the first planned row whose key
/// makes its file name, its file name is the one made of that key, it lists
/// at least one row, and the groups come by strictly rising key.
pub proof fn law_group_keys(gs: Seq<OutputGroup>, es: Seq<RowEntry>, i: int, j: int)
    requires
        groups_fit(gs, es),
        0 <= i < gs.len(),
    ensures
        gs[i].safe_key@ == safe_name(gs[i].key@),
        exists|k: int| 0 <= k < es.len() && (#[trigger] es[k]).key == gs[i].key@
            && (forall|m: int| 0 <= m < k ==> safe_name((#[trigger] es[m]).key) != gs[i].safe_key@),
        gs[i].sheets@.len() > 0,
        forall|a: int| 0 <= a < gs[i].sheets@.len() ==> (#[trigger] gs[i].sheets@[a]).rows@.len() > 0,
        i < j < gs.len() ==> seq_lt(gs[i].key@, gs[j].key@),
{
    reveal(groups_fit);
    assert(group_fits(gs[i], es));
    reveal(group_fits);
    let k = choose|k: int| #[trigger] first_with_name(es, k, gs[i].safe_key@) && es[k].key == gs[i].key@;
    assert(first_with_name(es, k, gs[i].safe_key@));
    assert(safe_name(es[k].key) == gs[i].safe_key@);
    let a = choose|a: int| 0 <= a < gs[i].sheets@.len() && (#[trigger] gs[i].sheets@[a]).name@ == es[k].sheet;
}

} // verus!
