//! The state of the interactive front end: the per-sheet choices, the task
//! status, the log, and the rules that keep them consistent.

use vstd::prelude::*;
use std::path::PathBuf;
use crossbeam_channel::{Receiver, Sender};
use crate::config::{default_empty_label, empty_label_text, FormulaMode, SplitSheetConfig};
use crate::text::{contains_text, has_substring, parse_usize, parse_usize_spec, push_text, trim_text, trimmed};

verus! {

/// `crossbeam_channel::Sender`, held by the front end to signal its task.
#[verifier::external_type_specification]
#[verifier::external_body]
#[verifier::reject_recursive_types(T)]
pub struct ExSender<T>(Sender<T>);

/// `crossbeam_channel::Receiver`, on which the front end reads task messages.
#[verifier::external_type_specification]
#[verifier::external_body]
#[verifier::reject_recursive_types(T)]
pub struct ExReceiver<T>(Receiver<T>);

/// The choices made for one sheet of the input workbook.
#[derive(Debug, Clone)]
pub struct SheetConfigState {
    /// The sheet's name, as read from the file.
    pub name: String,
    /// Whether the sheet is split.
    pub enabled: bool,
    /// The column to split on, as typed.
    pub split_column: String,
    /// The 1-based header row, as typed.
    pub header_row: String,
    /// Whether the sheet is copied whole into every output file.
    pub is_common: bool,
    /// The column names found in the sheet's first row.
    pub detected_columns: Vec<String>,
}

/// The header row that a typed text gives: its value when it parses as a
/// number of at least 1, else 1.
pub open spec fn header_row_value(s: Seq<char>) -> usize {
    match parse_usize_spec(s) {
        Some(v) => if v >= 1 { v } else { 1 },
        None => 1,
    }
}

/// The sheet is configured for splitting: it is enabled and its split
/// column is not blank.
pub open spec fn split_wanted(s: SheetConfigState) -> bool {
    s.enabled && trimmed(s.split_column@).len() > 0
}

/// `c` is the split configuration of the sheet choices `s`.
pub open spec fn split_config_of(c: SplitSheetConfig, s: SheetConfigState) -> bool {
    &&& c.name@ == s.name@
    &&& c.split_column@ == trimmed(s.split_column@)
    &&& c.header_row == header_row_value(s.header_row@)
}

/// A sheet is never both split and common.
pub open spec fn exclusive(s: SheetConfigState) -> bool {
    !(s.enabled && s.is_common)
}

impl SheetConfigState {
    /// The choices for a newly listed sheet: not split, not common, no
    /// split column, header row `1`.
    pub fn new(name: String) -> (r: Self)
        ensures
            r.name@ == name@,
            !r.enabled,
            r.split_column@.len() == 0,
            r.header_row@ == seq!['1'],
            !r.is_common,
            r.detected_columns@.len() == 0,
    {
        let mut one = String::new();
        crate::text::push_char(&mut one, '1');
        SheetConfigState {
            name,
            enabled: false,
            split_column: String::new(),
            header_row: one,
            is_common: false,
            detected_columns: Vec::new(),
        }
    }

    /// The split configuration of this sheet, when it is enabled and its
    /// split column is not blank: the column trimmed, and the header row
    /// read as a number (1 when it is not one, or is 0).
    pub fn to_split_config(&self) -> (r: Option<SplitSheetConfig>)
        ensures
            r is Some <==> split_wanted(*self),
            r matches Some(c) ==> split_config_of(c, *self),
    {
        if !self.enabled {
            return None;
        }
        let col = trim_text(self.split_column.as_str());
        if col.as_str().is_empty() {
            return None;
        }
        let parsed = parse_usize(self.header_row.as_str());
        let v: usize = match parsed {
            Some(v) => v,
            None => 1,
        };
        let header_row: usize = if v >= 1 { v } else { 1 };
        Some(SplitSheetConfig { name: self.name.clone(), split_column: col, header_row })
    }

    /// Turns splitting on or off; turning it on makes the sheet no longer
    /// common.
    pub fn set_split_enabled(&mut self, on: bool)
        ensures
            final(self).enabled == on,
            final(self).is_common == (old(self).is_common && !on),
            final(self).name == old(self).name,
            final(self).split_column == old(self).split_column,
            final(self).header_row == old(self).header_row,
            final(self).detected_columns == old(self).detected_columns,
            exclusive(*final(self)),
    {
        self.enabled = on;
        if on {
            self.is_common = false;
        }
    }

    /// Marks the sheet common or not; marking it common stops splitting it
    /// and clears its split column.
    pub fn set_common(&mut self, on: bool)
        ensures
            final(self).is_common == on,
            final(self).enabled == (old(self).enabled && !on),
            on ==> final(self).split_column@.len() == 0,
            !on ==> final(self).split_column == old(self).split_column,
            final(self).name == old(self).name,
            final(self).header_row == old(self).header_row,
            final(self).detected_columns == old(self).detected_columns,
            exclusive(*final(self)),
    {
        self.is_common = on;
        if on {
            self.enabled = false;
            self.split_column = String::new();
        }
    }
}


/// Where the background task stands.
#[derive(Debug, Clone, PartialEq)]
pub enum TaskState {
    Idle,
    Running,
    Success { file_count: usize },
    Failed { error: String },
}

/// A message from the background task to the front end.
#[derive(Debug)]
pub enum TaskMessage {
    Log(String),
    Progress { current: usize, total: usize },
    Done { file_count: usize },
    Error(String),
}

/// The page shown.
#[derive(Debug, Clone, Copy, PartialEq, Eq, Structural)]
pub enum Tab {
    Config,
    Log,
}

/// The state of the front end.
pub struct AppState {
    pub input_path: Option<PathBuf>,
    pub output_dir: Option<PathBuf>,
    pub sheet_configs: Vec<SheetConfigState>,
    pub sheets_loaded: bool,
    pub force_overwrite: bool,
    pub empty_key_label: String,
    pub create_empty_sheet: bool,
    pub formula_mode: FormulaMode,
    pub task_state: TaskState,
    pub progress: (usize, usize),
    pub log_messages: Vec<String>,
    pub task_sender: Option<Sender<()>>,
    pub msg_receiver: Option<Receiver<TaskMessage>>,
    pub active_tab: Tab,
    pub show_about: bool,
    pub error_popup: Option<String>,
}

/// The most log messages kept.
pub open spec fn max_log() -> nat {
    1000
}

impl Default for AppState {
    fn default() -> (r: Self)
        ensures
            r.input_path is None,
            r.output_dir is None,
            r.sheet_configs@.len() == 0,
            !r.sheets_loaded,
            !r.force_overwrite,
            r.empty_key_label@ == default_empty_label(),
            r.create_empty_sheet,
            r.formula_mode == FormulaMode::Value,
            r.task_state == TaskState::Idle,
            r.progress == (0usize, 0usize),
            r.log_messages@.len() == 0,
            r.task_sender is None,
            r.msg_receiver is None,
            r.active_tab == Tab::Config,
            !r.show_about,
            r.error_popup is None,
    {
        AppState {
            input_path: None,
            output_dir: None,
            sheet_configs: Vec::new(),
            sheets_loaded: false,
            force_overwrite: false,
            empty_key_label: empty_label_text(),
            create_empty_sheet: true,
            formula_mode: FormulaMode::Value,
            task_state: TaskState::Idle,
            progress: (0, 0),
            log_messages: Vec::new(),
            task_sender: None,
            msg_receiver: None,
            active_tab: Tab::Config,
            show_about: false,
            error_popup: None,
        }
    }
}

/// The sheets configured for splitting, in order.
pub open spec fn split_sources(ss: Seq<SheetConfigState>) -> Seq<SheetConfigState>
    decreases ss.len(),
{
    if ss.len() == 0 {
        Seq::empty()
    } else {
        let r = split_sources(ss.drop_last());
        if split_wanted(ss.last()) {
            r.push(ss.last())
        } else {
            r
        }
    }
}

/// The names of the common sheets, in order.
pub open spec fn common_names(ss: Seq<SheetConfigState>) -> Seq<Seq<char>>
    decreases ss.len(),
{
    if ss.len() == 0 {
        Seq::empty()
    } else {
        let r = common_names(ss.drop_last());
        if ss.last().is_common {
            r.push(ss.last().name@)
        } else {
            r
        }
    }
}

/// The log after adding `msg` to `log`: the oldest message is dropped once
/// 1000 are kept.
pub open spec fn log_after(log: Seq<String>, msg: String) -> Seq<String> {
    if log.len() >= max_log() {
        log.drop_first().push(msg)
    } else {
        log.push(msg)
    }
}

/// The message when no input file is chosen.
pub open spec fn no_input_message() -> Seq<char> {
    "请先选择输入文件"@
}

/// The message when no sheet is configured for splitting.
pub open spec fn no_split_message() -> Seq<char> {
    "至少需要配置一个待拆分 Sheet（勾选「拆分」并填写拆分列）"@
}

/// What checking the state before a run gives: the missing input first, then
/// the missing split sheet, else success.
pub open spec fn validate_result(st: AppState, r: Result<(), String>) -> bool {
    if st.input_path is None {
        r matches Err(m) && m@ == no_input_message()
    } else if split_sources(st.sheet_configs@).len() == 0 {
        r matches Err(m) && m@ == no_split_message()
    } else {
        r is Ok
    }
}

impl AppState {
    /// The split configurations of all sheets configured for splitting, in
    /// order.
    pub fn collect_split_configs(&self) -> (r: Vec<SplitSheetConfig>)
        ensures
            r@.len() == split_sources(self.sheet_configs@).len(),
            forall|k: int| 0 <= k < r@.len() ==> split_config_of(#[trigger] r@[k], split_sources(self.sheet_configs@)[k]),
    {
        let ss = &self.sheet_configs;
        let mut out: Vec<SplitSheetConfig> = Vec::new();
        let mut i: usize = 0;
        assert(ss@.take(0) =~= Seq::<SheetConfigState>::empty());
        while i < ss.len()
            invariant
                i <= ss@.len(),
                out@.len() == split_sources(ss@.take(i as int)).len(),
                forall|k: int| 0 <= k < out@.len() ==> split_config_of(#[trigger] out@[k], split_sources(ss@.take(i as int))[k]),
            decreases ss@.len() - i,
        {
            let ghost p = ss@.take(i + 1);
            assert(p.drop_last() =~= ss@.take(i as int));
            assert(p.last() == ss@[i as int]);
            let ghost before = out@;
            match ss[i].to_split_config() {
                Some(c) => {
                    out.push(c);
                    assert forall|k: int| 0 <= k < out@.len() implies split_config_of(#[trigger] out@[k], split_sources(p)[k]) by {
                        if k < before.len() {
                            assert(out@[k] == before[k]);
                        }
                    }
                },
                None => {},
            }
            i = i + 1;
        }
        assert(ss@.take(ss@.len() as int) =~= ss@);
        out
    }

    /// The names of the common sheets, in order.
    pub fn collect_common_sheets(&self) -> (r: Vec<String>)
        ensures
            r@.map_values(|s: String| s@) == common_names(self.sheet_configs@),
    {
        let ss = &self.sheet_configs;
        let mut out: Vec<String> = Vec::new();
        let mut i: usize = 0;
        assert(ss@.take(0) =~= Seq::<SheetConfigState>::empty());
        assert(out@.map_values(|s: String| s@) =~= Seq::<Seq<char>>::empty());
        while i < ss.len()
            invariant
                i <= ss@.len(),
                out@.map_values(|s: String| s@) == common_names(ss@.take(i as int)),
            decreases ss@.len() - i,
        {
            let ghost p = ss@.take(i + 1);
            assert(p.drop_last() =~= ss@.take(i as int));
            assert(p.last() == ss@[i as int]);
            let ghost before = out@;
            if ss[i].is_common {
                out.push(ss[i].name.clone());
                assert(out@.map_values(|s: String| s@) =~= before.map_values(|s: String| s@).push(ss@[i as int].name@));
            }
            i = i + 1;
        }
        assert(ss@.take(ss@.len() as int) =~= ss@);
        out
    }

    /// Checks that a run can start: an input file is chosen and at least one
    /// sheet is configured for splitting.
    pub fn validate(&self) -> (r: Result<(), String>)
        ensures
            validate_result(*self, r),
    {
        if self.input_path.is_none() {
            let mut m = String::new();
            push_text(&mut m, "请先选择输入文件");
            return Err(m);
        }
        let splits = self.collect_split_configs();
        if splits.len() == 0 {
            let mut m = String::new();
            push_text(&mut m, "至少需要配置一个待拆分 Sheet（勾选「拆分」并填写拆分列）");
            return Err(m);
        }
        let mut i: usize = 0;
        while i < splits.len()
            invariant
                i <= splits@.len(),
                splits@.len() == split_sources(self.sheet_configs@).len(),
                forall|k: int| 0 <= k < splits@.len() ==> split_config_of(#[trigger] splits@[k], split_sources(self.sheet_configs@)[k]),
            decreases splits@.len() - i,
        {
            if splits[i].split_column.as_str().is_empty() {
                proof {
                    lemma_split_sources_wanted(self.sheet_configs@);
                    assert(split_config_of(splits@[i as int], split_sources(self.sheet_configs@)[i as int]));
                    assert(split_wanted(split_sources(self.sheet_configs@)[i as int]));
                }
                let mut m = String::new();
                push_text(&mut m, "Sheet「");
                push_text(&mut m, splits[i].name.as_str());
                push_text(&mut m, "」的拆分列不能为空");
                return Err(m);
            }
            i = i + 1;
        }
        Ok(())
    }

    /// Adds a message to the log, dropping the oldest once 1000 are kept.
    pub fn add_log(&mut self, msg: String)
        ensures
            final(self).log_messages@ == log_after(old(self).log_messages@, msg),
            *final(self) == (AppState { log_messages: final(self).log_messages, ..*old(self) }),
    {
        if self.log_messages.len() >= 1000 {
            self.log_messages.remove(0);
        }
        self.log_messages.push(msg);
    }

    /// Applies a message from the background task: a log line is logged,
    /// progress is recorded, and completion or failure ends the task (and
    /// stops listening to it), a failure also being logged.
    pub fn apply_message(&mut self, msg: TaskMessage)
        ensures
            match msg {
                TaskMessage::Log(m) => {
                    &&& final(self).log_messages@ == log_after(old(self).log_messages@, m)
                    &&& *final(self) == (AppState { log_messages: final(self).log_messages, ..*old(self) })
                },
                TaskMessage::Progress { current, total } => {
                    *final(self) == (AppState { progress: (current, total), ..*old(self) })
                },
                TaskMessage::Done { file_count } => {
                    *final(self) == (AppState { task_state: TaskState::Success { file_count }, msg_receiver: None, ..*old(self) })
                },
                TaskMessage::Error(e) => {
                    &&& final(self).task_state matches TaskState::Failed { error } && error@ == e@
                    &&& exists|m: String| m@ == "错误: "@ + e@ && final(self).log_messages@ == log_after(old(self).log_messages@, m)
                    &&& *final(self) == (AppState {
                        task_state: final(self).task_state,
                        msg_receiver: None,
                        log_messages: final(self).log_messages,
                        ..*old(self)
                    })
                },
            },
    {
        match msg {
            TaskMessage::Log(m) => {
                self.add_log(m);
            },
            TaskMessage::Progress { current, total } => {
                self.progress = (current, total);
            },
            TaskMessage::Done { file_count } => {
                self.task_state = TaskState::Success { file_count };
                self.msg_receiver = None;
            },
            TaskMessage::Error(e) => {
                self.task_state = TaskState::Failed { error: e.clone() };
                let mut m = String::new();
                push_text(&mut m, "错误: ");
                push_text(&mut m, e.as_str());
                let ghost mm = m;
                self.add_log(m);
                self.msg_receiver = None;
                assert(mm@ == "错误: "@ + e@);
            },
        }
    }

    /// Starts a run if the state allows one: on a validation failure the
    /// message is shown and nothing starts; otherwise the task is running,
    /// its progress reset and the start logged.
    pub fn begin_task(&mut self) -> (started: bool)
        ensures
            started == old(self).validate_ok(),
            !started ==> {
                &&& final(self).error_popup is Some
                &&& validate_result(*old(self), Err(final(self).error_popup.unwrap()))
                &&& *final(self) == (AppState { error_popup: final(self).error_popup, ..*old(self) })
            },
            started ==> {
                &&& exists|m: String| m@ == "开始执行..."@ && final(self).log_messages@ == log_after(old(self).log_messages@, m)
                &&& *final(self) == (AppState {
                    task_state: TaskState::Running,
                    progress: (0usize, 0usize),
                    log_messages: final(self).log_messages,
                    ..*old(self)
                })
            },
    {
        match self.validate() {
            Err(e) => {
                self.error_popup = Some(e);
                false
            },
            Ok(()) => {
                self.task_state = TaskState::Running;
                self.progress = (0, 0);
                let mut m = String::new();
                push_text(&mut m, "开始执行...");
                let ghost mm = m;
                self.add_log(m);
                assert(mm@ == "开始执行..."@);
                true
            },
        }
    }

    /// Whether a run may start: an input file is chosen and some sheet is
    /// configured for splitting.
    pub open spec fn validate_ok(&self) -> bool {
        self.input_path is Some && split_sources(self.sheet_configs@).len() > 0
    }

    /// Chooses the input file; the sheet list must be loaded again.
    pub fn set_input_path(&mut self, path: PathBuf)
        ensures
            final(self).input_path == Some(path),
            !final(self).sheets_loaded,
            final(self).sheet_configs@.len() == 0,
            *final(self) == (AppState {
                input_path: Some(path),
                sheets_loaded: false,
                sheet_configs: final(self).sheet_configs,
                ..*old(self)
            }),
    {
        self.input_path = Some(path);
        self.sheets_loaded = false;
        self.sheet_configs.clear();
    }

    /// Lists the sheets of a newly loaded workbook, each with the column
    /// names found in its first row and nothing chosen yet.
    pub fn load_sheet_list(&mut self, previews: Vec<(String, Vec<String>)>)
        ensures
            final(self).sheets_loaded,
            final(self).sheet_configs@.len() == previews@.len(),
            forall|k: int| 0 <= k < previews@.len() ==> {
                let c = #[trigger] final(self).sheet_configs@[k];
                &&& c.name@ == previews@[k].0@
                &&& c.detected_columns@ == previews@[k].1@
                &&& !c.enabled
                &&& !c.is_common
                &&& c.split_column@.len() == 0
                &&& c.header_row@ == seq!['1']
            },
            *final(self) == (AppState { sheet_configs: final(self).sheet_configs, sheets_loaded: true, ..*old(self) }),
    {
        let mut configs: Vec<SheetConfigState> = Vec::new();
        let mut previews = previews;
        let ghost pv = previews@;
        let n = previews.len();
        while previews.len() > 0
            invariant
                n == pv.len(),
                configs@.len() + previews@.len() == n,
                previews@ == pv.subrange(configs@.len() as int, n as int),
                forall|k: int| 0 <= k < configs@.len() ==> {
                    let c = #[trigger] configs@[k];
                    &&& c.name@ == pv[k].0@
                    &&& c.detected_columns@ == pv[k].1@
                    &&& !c.enabled
                    &&& !c.is_common
                    &&& c.split_column@.len() == 0
                    &&& c.header_row@ == seq!['1']
                },
            decreases previews@.len(),
        {
            let ghost done = configs@.len();
            let (name, columns) = previews.remove(0);
            assert(pv[done as int] == (name, columns));
            let mut cfg = SheetConfigState::new(name);
            cfg.detected_columns = columns;
            configs.push(cfg);
            assert(previews@ =~= pv.subrange(configs@.len() as int, n as int));
        }
        self.sheet_configs = configs;
        self.sheets_loaded = true;
    }

    /// Makes every sheet common and none split.
    pub fn mark_all_common(&mut self)
        ensures
            final(self).sheet_configs@.len() == old(self).sheet_configs@.len(),
            forall|k: int| 0 <= k < final(self).sheet_configs@.len() ==> {
                let c = #[trigger] final(self).sheet_configs@[k];
                let o = old(self).sheet_configs@[k];
                &&& c.is_common
                &&& !c.enabled
                &&& c.name == o.name
                &&& c.split_column == o.split_column
                &&& c.header_row == o.header_row
                &&& c.detected_columns == o.detected_columns
            },
            *final(self) == (AppState { sheet_configs: final(self).sheet_configs, ..*old(self) }),
    {
        let n = self.sheet_configs.len();
        let ghost orig = self.sheet_configs@;
        let mut i: usize = 0;
        while i < n
            invariant
                n == orig.len(),
                self.sheet_configs@.len() == n,
                i <= n,
                *self == (AppState { sheet_configs: self.sheet_configs, ..*old(self) }),
                orig == old(self).sheet_configs@,
                forall|k: int| i <= k < n ==> #[trigger] self.sheet_configs@[k] == orig[k],
                forall|k: int| 0 <= k < i ==> {
                    let c = #[trigger] self.sheet_configs@[k];
                    let o = orig[k];
                    &&& c.is_common
                    &&& !c.enabled
                    &&& c.name == o.name
                    &&& c.split_column == o.split_column
                    &&& c.header_row == o.header_row
                    &&& c.detected_columns == o.detected_columns
                },
            decreases n - i,
        {
            let mut c = self.sheet_configs.remove(i);
            c.is_common = true;
            c.enabled = false;
            self.sheet_configs.insert(i, c);
            i = i + 1;
        }
    }

    /// Un-chooses every sheet: none split, none common, no split columns.
    pub fn clear_all_sheets(&mut self)
        ensures
            final(self).sheet_configs@.len() == old(self).sheet_configs@.len(),
            forall|k: int| 0 <= k < final(self).sheet_configs@.len() ==> {
                let c = #[trigger] final(self).sheet_configs@[k];
                let o = old(self).sheet_configs@[k];
                &&& !c.is_common
                &&& !c.enabled
                &&& c.split_column@.len() == 0
                &&& c.name == o.name
                &&& c.header_row == o.header_row
                &&& c.detected_columns == o.detected_columns
            },
            *final(self) == (AppState { sheet_configs: final(self).sheet_configs, ..*old(self) }),
    {
        let n = self.sheet_configs.len();
        let ghost orig = self.sheet_configs@;
        let mut i: usize = 0;
        while i < n
            invariant
                n == orig.len(),
                self.sheet_configs@.len() == n,
                i <= n,
                *self == (AppState { sheet_configs: self.sheet_configs, ..*old(self) }),
                orig == old(self).sheet_configs@,
                forall|k: int| i <= k < n ==> #[trigger] self.sheet_configs@[k] == orig[k],
                forall|k: int| 0 <= k < i ==> {
                    let c = #[trigger] self.sheet_configs@[k];
                    let o = orig[k];
                    &&& !c.is_common
                    &&& !c.enabled
                    &&& c.split_column@.len() == 0
                    &&& c.name == o.name
                    &&& c.header_row == o.header_row
                    &&& c.detected_columns == o.detected_columns
                },
            decreases n - i,
        {
            let mut c = self.sheet_configs.remove(i);
            c.enabled = false;
            c.is_common = false;
            c.split_column = String::new();
            self.sheet_configs.insert(i, c);
            i = i + 1;
        }
    }

    /// Empties the log.
    pub fn clear_log(&mut self)
        ensures
            final(self).log_messages@.len() == 0,
            *final(self) == (AppState { log_messages: final(self).log_messages, ..*old(self) }),
    {
        self.log_messages.clear();
    }
}

/// The log keeps at most 1000 messages, and adding a message keeps the
/// newest ones: the new message last, after the most recent earlier ones.
pub proof fn law_log_bounded(log: Seq<String>, msg: String)
    requires
        log.len() <= max_log(),
    ensures
        log_after(log, msg).len() <= max_log(),
        log_after(log, msg).last() == msg,
        log_after(log, msg) == log.push(msg).skip(log.push(msg).len() - log_after(log, msg).len()),
{
    if log.len() >= max_log() {
        assert(log.drop_first().push(msg) =~= log.push(msg).skip(1));
    } else {
        assert(log.push(msg) =~= log.push(msg).skip(0));
    }
}

/// The log after adding each of `msgs` in turn to `log`.
pub open spec fn log_after_all(log: Seq<String>, msgs: Seq<String>) -> Seq<String>
    decreases msgs.len(),
{
    if msgs.len() == 0 {
        log
    } else {
        log_after(log_after_all(log, msgs.drop_last()), msgs.last())
    }
}

/// The last `n` elements of `s` (all of them when it is shorter).
pub open spec fn last_n(s: Seq<String>, n: nat) -> Seq<String> {
    if s.len() <= n {
        s
    } else {
        s.skip(s.len() - n)
    }
}

/// Adding messages one by one to a log of at most 1000 keeps exactly the
/// last 1000 of the old messages followed by the new ones, in order; from an
/// empty log, the last `min(N, 1000)` of the `N` messages added.
pub proof fn law_log_after_all(log: Seq<String>, msgs: Seq<String>)
    requires
        log.len() <= max_log(),
    ensures
        log_after_all(log, msgs) == last_n(log + msgs, max_log()),
        log_after_all(Seq::empty(), msgs) == last_n(msgs, max_log()),
    decreases msgs.len(),
{
    if msgs.len() > 0 {
        let m = msgs.drop_last();
        law_log_after_all(log, m);
        let prev = log_after_all(log, m);
        let all = log + msgs;
        assert((log + m).push(msgs.last()) =~= all);
        if (log + m).len() < max_log() {
            assert(prev.len() < max_log());
        } else {
            assert(prev.len() == max_log());
            if all.len() > max_log() {
                assert(prev.drop_first().push(msgs.last()) =~= all.skip(all.len() - max_log()));
            }
        }
        law_log_after_all(Seq::empty(), m);
        assert(Seq::<String>::empty() + msgs =~= msgs);
        assert(Seq::<String>::empty() + m =~= m);
        let prev0 = log_after_all(Seq::empty(), m);
        assert(m.push(msgs.last()) =~= msgs);
        if m.len() >= max_log() {
            assert(prev0.len() == max_log());
            if msgs.len() > max_log() {
                assert(prev0.drop_first().push(msgs.last()) =~= msgs.skip(msgs.len() - max_log()));
            }
        }
    } else {
        assert(log + msgs =~= log);
    }
}

/// The sheets configured for splitting are, in order, those enabled with a
/// split column that is not blank; the common sheets' names are, in order,
/// those of the sheets marked common.
pub proof fn law_sheet_lists(ss: Seq<SheetConfigState>, x: SheetConfigState)
    ensures
        split_sources(Seq::empty()) == Seq::<SheetConfigState>::empty(),
        common_names(Seq::empty()) == Seq::<Seq<char>>::empty(),
        x.enabled && trimmed(x.split_column@).len() > 0 ==> split_sources(ss.push(x)) == split_sources(ss).push(x),
        !(x.enabled && trimmed(x.split_column@).len() > 0) ==> split_sources(ss.push(x)) == split_sources(ss),
        x.is_common ==> common_names(ss.push(x)) == common_names(ss).push(x.name@),
        !x.is_common ==> common_names(ss.push(x)) == common_names(ss),
{
    assert(ss.push(x).drop_last() =~= ss);
}

/// A configured header row is always at least 1.
pub proof fn law_header_row_positive(s: Seq<char>)
    ensures
        header_row_value(s) >= 1,
{
}

/// A header row typed as the decimal text of a number of at least 1 is that
/// number; `0`, and any text that is not a number, give row 1.
pub proof fn law_header_row_of_text(s: Seq<char>, n: usize)
    ensures
        n >= 1 ==> header_row_value(crate::text::nat_text(n as nat)) == n,
        header_row_value(seq!['0']) == 1,
        parse_usize_spec(s) is None ==> header_row_value(s) == 1,
{
    crate::text::law_decimal_round_trip(n);
    crate::text::law_decimal_round_trip(0);
    assert(crate::text::nat_text(0) == seq!['0']);
}

/// How a log line is shown.
#[derive(Debug, Clone, Copy, PartialEq, Eq, Structural)]
pub enum LogTone {
    /// A failure, an error or a warning.
    Problem,
    /// A completion or a success.
    Success,
    /// Anything else.
    Plain,
}

/// The tone of a log line: a problem when it mentions failure (`失败`), an
/// error (`错误`) or a warning (`警告`); else a success when it mentions
/// completion (`完成`) or success (`成功`); else plain.
pub open spec fn tone_of(msg: Seq<char>) -> LogTone {
    if has_substring(msg, "失败"@) || has_substring(msg, "错误"@) || has_substring(msg, "警告"@) {
        LogTone::Problem
    } else if has_substring(msg, "完成"@) || has_substring(msg, "成功"@) {
        LogTone::Success
    } else {
        LogTone::Plain
    }
}

/// The tone a log line is shown in.
pub fn log_tone(msg: &str) -> (r: LogTone)
    ensures
        r == tone_of(msg@),
{
    if contains_text(msg, "失败") || contains_text(msg, "错误") || contains_text(msg, "警告") {
        LogTone::Problem
    } else if contains_text(msg, "完成") || contains_text(msg, "成功") {
        LogTone::Success
    } else {
        LogTone::Plain
    }
}

/// Every sheet chosen for splitting is configured for splitting.
proof fn lemma_split_sources_wanted(ss: Seq<SheetConfigState>)
    ensures
        forall|k: int| 0 <= k < split_sources(ss).len() ==> split_wanted(#[trigger] split_sources(ss)[k]),
    decreases ss.len(),
{
    if ss.len() > 0 {
        let r = split_sources(ss.drop_last());
        lemma_split_sources_wanted(ss.drop_last());
        assert forall|k: int| 0 <= k < split_sources(ss).len() implies split_wanted(#[trigger] split_sources(ss)[k]) by {
            if k < r.len() {
                assert(split_sources(ss)[k] == r[k]);
            }
        }
    }
}


/// A log line that mentions a failure, an error or a warning is shown as a
/// problem, whatever else it says; one that mentions a completion or a
/// success and none of those is shown as a success.
pub proof fn law_tone_of_words(a: Seq<char>, b: Seq<char>)
    ensures
        tone_of(a + "失败"@ + b) == LogTone::Problem,
        tone_of(a + "错误"@ + b) == LogTone::Problem,
        tone_of(a + "警告"@ + b) == LogTone::Problem,
        !has_substring(a + "完成"@ + b, "失败"@) && !has_substring(a + "完成"@ + b, "错误"@)
            && !has_substring(a + "完成"@ + b, "警告"@) ==> tone_of(a + "完成"@ + b) == LogTone::Success,
        !has_substring(a + "成功"@ + b, "失败"@) && !has_substring(a + "成功"@ + b, "错误"@)
            && !has_substring(a + "成功"@ + b, "警告"@) ==> tone_of(a + "成功"@ + b) == LogTone::Success,
{
    crate::text::law_substring(a, "失败"@, a, b);
    crate::text::law_substring(a, "错误"@, a, b);
    crate::text::law_substring(a, "警告"@, a, b);
    crate::text::law_substring(a, "完成"@, a, b);
    crate::text::law_substring(a, "成功"@, a, b);
}

} // verus!
