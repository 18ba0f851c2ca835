use excel_splitter::state::TaskMessage;
use excel_splitter::task::{RunEvent, RunPhase, RunState};

fn s(t: &str) -> String {
    t.to_string()
}

fn texts(msgs: &[TaskMessage]) -> Vec<String> {
    msgs.iter()
        .map(|m| match m {
            TaskMessage::Log(t) => format!("log:{}", t),
            TaskMessage::Error(t) => format!("error:{}", t),
            TaskMessage::Progress { current, total } => format!("progress:{}/{}", current, total),
            TaskMessage::Done { file_count } => format!("done:{}", file_count),
        })
        .collect()
}

#[test]
fn full_run_messages() {
    let (mut run, first) = RunState::start();
    let mut all = first;
    all.extend(run.step(RunEvent::Read { sheet_count: 3 }));
    all.extend(run.step(RunEvent::DirReady));
    all.extend(run.step(RunEvent::Planned { total: 2 }));
    all.extend(run.step(RunEvent::FileStarting { name: s("a_b") }));
    all.extend(run.step(RunEvent::FileWritten { key: s("a/b"), failure: None }));
    all.extend(run.step(RunEvent::FileStarting { name: s("c") }));
    all.extend(run.step(RunEvent::FileWritten { key: s("c"), failure: Some(s("boom")) }));
    all.extend(run.step(RunEvent::AllWritten { dir: s("out") }));
    assert_eq!(
        texts(&all),
        vec![
            "log:开始读取文件...",
            "log:文件读取完成，共 3 个 Sheet",
            "log:分析分组结构...",
            "log:共 2 个分组，开始写出...",
            "progress:0/2",
            "log:  [1/2] 写出: a_b",
            "progress:1/2",
            "log:  [2/2] 写出: c",
            "log:  分组「c」写出失败: boom",
            "progress:2/2",
            "log:完成！成功写出 1/2 个文件，输出目录: out",
            "done:1",
        ]
    );
    assert_eq!(run.phase, RunPhase::Finished);
    assert!(run.step(RunEvent::DirReady).is_empty());
}

#[test]
fn read_failure_ends_the_run() {
    let (mut run, _) = RunState::start();
    assert_eq!(texts(&run.step(RunEvent::ReadFailed(s("no file")))), vec!["error:读取失败: no file"]);
    assert_eq!(run.phase, RunPhase::Finished);
    assert!(run.step(RunEvent::Read { sheet_count: 1 }).is_empty());
}

#[test]
fn directory_and_plan_failures() {
    let (mut run, _) = RunState::start();
    run.step(RunEvent::Read { sheet_count: 1 });
    assert_eq!(texts(&run.step(RunEvent::DirFailed(s("denied")))), vec!["error:创建输出目录失败: denied"]);
    let (mut run, _) = RunState::start();
    run.step(RunEvent::Read { sheet_count: 1 });
    run.step(RunEvent::DirReady);
    assert_eq!(texts(&run.step(RunEvent::PlanFailed(s("x")))), vec!["error:分析失败: x"]);
}

#[test]
fn empty_plan_finishes_with_no_files() {
    let (mut run, _) = RunState::start();
    run.step(RunEvent::Read { sheet_count: 1 });
    run.step(RunEvent::DirReady);
    assert_eq!(texts(&run.step(RunEvent::Planned { total: 0 })), vec!["log:未找到任何分组键，无文件输出。", "done:0"]);
    assert_eq!(run.phase, RunPhase::Finished);
}

#[test]
fn out_of_order_events_do_nothing() {
    let (mut run, _) = RunState::start();
    assert!(run.step(RunEvent::DirReady).is_empty());
    assert!(run.step(RunEvent::AllWritten { dir: s("d") }).is_empty());
    assert_eq!(run.phase, RunPhase::Reading);
}
