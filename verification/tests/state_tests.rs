use excel_splitter::config::FormulaMode;
use excel_splitter::state::{log_tone, AppState, LogTone, SheetConfigState, Tab, TaskMessage, TaskState};
use excel_splitter::task::{task_config, RunProgress, TaskParams};
use std::path::PathBuf;

fn s(t: &str) -> String {
    t.to_string()
}

fn enabled(name: &str, col: &str, header: &str) -> SheetConfigState {
    let mut c = SheetConfigState::new(s(name));
    c.enabled = true;
    c.split_column = s(col);
    c.header_row = s(header);
    c
}

#[test]
fn new_sheet_choices() {
    let c = SheetConfigState::new(s("表1"));
    assert_eq!(c.name, "表1");
    assert!(!c.enabled);
    assert!(!c.is_common);
    assert_eq!(c.split_column, "");
    assert_eq!(c.header_row, "1");
    assert!(c.detected_columns.is_empty());
}

#[test]
fn split_config_from_choices() {
    let c = enabled("S", "  部门 ", "3").to_split_config().unwrap();
    assert_eq!(c.name, "S");
    assert_eq!(c.split_column, "部门");
    assert_eq!(c.header_row, 3);
    assert_eq!(enabled("S", "A", "abc").to_split_config().unwrap().header_row, 1);
    assert_eq!(enabled("S", "A", "0").to_split_config().unwrap().header_row, 1);
    assert_eq!(enabled("S", "A", "+7").to_split_config().unwrap().header_row, 7);
    assert_eq!(enabled("S", "A", " 2").to_split_config().unwrap().header_row, 1);
    assert!(enabled("S", "   ", "1").to_split_config().is_none());
    let mut off = enabled("S", "A", "1");
    off.enabled = false;
    assert!(off.to_split_config().is_none());
}

#[test]
fn split_and_common_exclude_each_other() {
    let mut c = SheetConfigState::new(s("S"));
    c.split_column = s("A");
    c.set_common(true);
    assert!(c.is_common && !c.enabled);
    assert_eq!(c.split_column, "");
    c.set_split_enabled(true);
    assert!(c.enabled && !c.is_common);
    c.set_split_enabled(false);
    assert!(!c.enabled && !c.is_common);
    c.set_common(false);
    assert!(!c.is_common);
}

#[test]
fn default_state() {
    let st = AppState::default();
    assert!(st.input_path.is_none());
    assert!(st.output_dir.is_none());
    assert!(st.sheet_configs.is_empty());
    assert!(!st.sheets_loaded);
    assert!(!st.force_overwrite);
    assert_eq!(st.empty_key_label, "空值");
    assert!(st.create_empty_sheet);
    assert_eq!(st.formula_mode, FormulaMode::Value);
    assert_eq!(st.task_state, TaskState::Idle);
    assert_eq!(st.progress, (0, 0));
    assert!(st.log_messages.is_empty());
    assert!(st.task_sender.is_none());
    assert!(st.msg_receiver.is_none());
    assert_eq!(st.active_tab, Tab::Config);
    assert!(!st.show_about);
    assert!(st.error_popup.is_none());
}

#[test]
fn collect_configs_and_common_sheets() {
    let mut st = AppState::default();
    let mut common = SheetConfigState::new(s("C"));
    common.set_common(true);
    st.sheet_configs = vec![enabled("A", "x", "1"), SheetConfigState::new(s("N")), common, enabled("B", " y", "2")];
    let cfgs = st.collect_split_configs();
    assert_eq!(cfgs.len(), 2);
    assert_eq!(cfgs[0].name, "A");
    assert_eq!(cfgs[1].split_column, "y");
    assert_eq!(cfgs[1].header_row, 2);
    assert_eq!(st.collect_common_sheets(), vec![s("C")]);
}

#[test]
fn validate_messages() {
    let mut st = AppState::default();
    assert_eq!(st.validate(), Err(s("请先选择输入文件")));
    st.input_path = Some(PathBuf::from("in.xlsx"));
    assert_eq!(st.validate(), Err(s("至少需要配置一个待拆分 Sheet（勾选「拆分」并填写拆分列）")));
    st.sheet_configs = vec![enabled("A", "x", "1")];
    assert_eq!(st.validate(), Ok(()));
}

#[test]
fn log_keeps_the_latest_thousand() {
    let mut st = AppState::default();
    for i in 0..1005 {
        st.add_log(format!("m{}", i));
    }
    assert_eq!(st.log_messages.len(), 1000);
    assert_eq!(st.log_messages[0], "m5");
    assert_eq!(st.log_messages[999], "m1004");
    st.clear_log();
    assert!(st.log_messages.is_empty());
}

#[test]
fn task_messages_update_state() {
    let mut st = AppState::default();
    st.apply_message(TaskMessage::Log(s("hello")));
    assert_eq!(st.log_messages, vec![s("hello")]);
    st.apply_message(TaskMessage::Progress { current: 2, total: 5 });
    assert_eq!(st.progress, (2, 5));
    st.apply_message(TaskMessage::Done { file_count: 4 });
    assert_eq!(st.task_state, TaskState::Success { file_count: 4 });
    st.apply_message(TaskMessage::Error(s("坏了")));
    assert_eq!(st.task_state, TaskState::Failed { error: s("坏了") });
    assert_eq!(st.log_messages.last().unwrap(), "错误: 坏了");
    assert!(st.msg_receiver.is_none());
}

#[test]
fn begin_task_validates_first() {
    let mut st = AppState::default();
    assert!(!st.begin_task());
    assert_eq!(st.error_popup, Some(s("请先选择输入文件")));
    assert_eq!(st.task_state, TaskState::Idle);
    st.error_popup = None;
    st.input_path = Some(PathBuf::from("in.xlsx"));
    st.sheet_configs = vec![enabled("A", "x", "1")];
    st.progress = (3, 3);
    assert!(st.begin_task());
    assert_eq!(st.task_state, TaskState::Running);
    assert_eq!(st.progress, (0, 0));
    assert_eq!(st.log_messages.last().unwrap(), "开始执行...");
    assert!(st.error_popup.is_none());
}

#[test]
fn choosing_input_resets_sheets() {
    let mut st = AppState::default();
    st.sheet_configs = vec![enabled("A", "x", "1")];
    st.sheets_loaded = true;
    st.set_input_path(PathBuf::from("b.xlsx"));
    assert_eq!(st.input_path, Some(PathBuf::from("b.xlsx")));
    assert!(!st.sheets_loaded);
    assert!(st.sheet_configs.is_empty());
}

#[test]
fn sheet_list_and_bulk_choices() {
    let mut st = AppState::default();
    st.load_sheet_list(vec![(s("A"), vec![s("x"), s("y")]), (s("B"), vec![])]);
    assert!(st.sheets_loaded);
    assert_eq!(st.sheet_configs.len(), 2);
    assert_eq!(st.sheet_configs[0].name, "A");
    assert_eq!(st.sheet_configs[0].detected_columns, vec![s("x"), s("y")]);
    assert_eq!(st.sheet_configs[1].name, "B");
    st.sheet_configs[0].set_split_enabled(true);
    st.sheet_configs[0].split_column = s("x");
    st.mark_all_common();
    assert!(st.sheet_configs.iter().all(|c| c.is_common && !c.enabled));
    assert_eq!(st.sheet_configs[0].split_column, "x");
    st.clear_all_sheets();
    assert!(st.sheet_configs.iter().all(|c| !c.is_common && !c.enabled && c.split_column.is_empty()));
}

#[test]
fn run_configuration_from_parameters() {
    let p = TaskParams {
        input: PathBuf::from("in.xlsx"),
        output_dir: PathBuf::from("out"),
        split_sheets: vec![],
        common_sheets: vec![s("C")],
        force: true,
        empty_key_label: s("none"),
        create_empty_sheet: false,
        formula_mode: FormulaMode::Keep,
    };
    let c = task_config(p);
    assert_eq!(c.input, PathBuf::from("in.xlsx"));
    assert_eq!(c.output_dir, PathBuf::from("out"));
    assert!(c.force);
    assert_eq!(c.empty_key_label, "none");
    assert!(!c.create_empty_sheet);
    assert_eq!(c.formula_mode, FormulaMode::Keep);
    assert_eq!(c.common_sheets, vec![s("C")]);
}

#[test]
fn run_progress_counts_files() {
    let mut p = RunProgress::new(2);
    assert_eq!(p.next_line("a_b"), "  [1/2] 写出: a_b");
    assert!(matches!(p.record(true), TaskMessage::Progress { current: 1, total: 2 }));
    assert_eq!(p.next_line("c"), "  [2/2] 写出: c");
    assert!(matches!(p.record(false), TaskMessage::Progress { current: 2, total: 2 }));
    assert_eq!(p.summary_line("out"), "完成！成功写出 1/2 个文件，输出目录: out");
    assert!(matches!(p.finish(), TaskMessage::Done { file_count: 1 }));
}

#[test]
fn log_tones() {
    assert_eq!(log_tone("  分组「a」写出失败: x"), LogTone::Problem);
    assert_eq!(log_tone("错误: 坏了"), LogTone::Problem);
    assert_eq!(log_tone("警告"), LogTone::Problem);
    assert_eq!(log_tone("完成！成功写出 1/2 个文件"), LogTone::Success);
    assert_eq!(log_tone("成功失败"), LogTone::Problem);
    assert_eq!(log_tone("开始执行..."), LogTone::Plain);
}
