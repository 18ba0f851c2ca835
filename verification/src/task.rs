//! The parameters a background run is started with.

use vstd::prelude::*;
use std::path::PathBuf;
use crate::config::{AppConfig, FormulaMode, SplitSheetConfig};
use crate::state::TaskMessage;
use crate::text::{nat_text, push_decimal, push_text};

verus! {

/// What a run is started with.
pub struct TaskParams {
    pub input: PathBuf,
    pub output_dir: PathBuf,
    pub split_sheets: Vec<SplitSheetConfig>,
    pub common_sheets: Vec<String>,
    pub force: bool,
    pub empty_key_label: String,
    pub create_empty_sheet: bool,
    pub formula_mode: FormulaMode,
}

/// The configuration of a run started with `params`: each setting carried
/// over unchanged.
pub fn task_config(params: TaskParams) -> (r: AppConfig)
    ensures
        r.input == params.input,
        r.output_dir == params.output_dir,
        r.force == params.force,
        r.empty_key_label == params.empty_key_label,
        r.create_empty_sheet == params.create_empty_sheet,
        r.formula_mode == params.formula_mode,
        r.split_sheets == params.split_sheets,
        r.common_sheets == params.common_sheets,
{
    AppConfig {
        input: params.input,
        output_dir: params.output_dir,
        force: params.force,
        empty_key_label: params.empty_key_label,
        create_empty_sheet: params.create_empty_sheet,
        formula_mode: params.formula_mode,
        split_sheets: params.split_sheets,
        common_sheets: params.common_sheets,
    }
}


/// How far the writing of the output files has come.
pub struct RunProgress {
    pub total: usize,
    pub done: usize,
    pub succeeded: usize,
}

impl RunProgress {
    /// Never more files succeeded than written, nor written than planned.
    pub open spec fn wf(&self) -> bool {
        self.succeeded <= self.done <= self.total
    }

    /// Nothing written yet of `total` files.
    pub fn new(total: usize) -> (r: Self)
        ensures
            r.wf(),
            r.total == total,
            r.done == 0,
            r.succeeded == 0,
    {
        RunProgress { total, done: 0, succeeded: 0 }
    }

    /// The log line announcing the next file: `  [n/total] 写出: name`.
    pub fn next_line(&self, name: &str) -> (r: String)
        requires
            self.wf(),
            self.done < self.total,
        ensures
            r@ == "  ["@ + nat_text(self.done as nat + 1) + "/"@ + nat_text(self.total as nat) + "] 写出: "@ + name@,
    {
        let mut m = String::new();
        push_text(&mut m, "  [");
        push_decimal(&mut m, (self.done + 1) as u64);
        push_text(&mut m, "/");
        push_decimal(&mut m, self.total as u64);
        push_text(&mut m, "] 写出: ");
        push_text(&mut m, name);
        m
    }

    /// Records one file written (`ok`) or failed, and gives the progress
    /// message to send.
    pub fn record(&mut self, ok: bool) -> (r: TaskMessage)
        requires
            old(self).wf(),
            old(self).done < old(self).total,
        ensures
            final(self).wf(),
            final(self).total == old(self).total,
            final(self).done == old(self).done + 1,
            final(self).succeeded == old(self).succeeded + (if ok { 1int } else { 0int }),
            r == (TaskMessage::Progress { current: final(self).done, total: final(self).total }),
    {
        self.done = self.done + 1;
        if ok {
            self.succeeded = self.succeeded + 1;
        }
        TaskMessage::Progress { current: self.done, total: self.total }
    }

    /// The closing log line: `完成！成功写出 s/total 个文件，输出目录: dir`.
    pub fn summary_line(&self, dir: &str) -> (r: String)
        ensures
            r@ == "完成！成功写出 "@ + nat_text(self.succeeded as nat) + "/"@ + nat_text(self.total as nat) + " 个文件，输出目录: "@ + dir@,
    {
        let mut m = String::new();
        push_text(&mut m, "完成！成功写出 ");
        push_decimal(&mut m, self.succeeded as u64);
        push_text(&mut m, "/");
        push_decimal(&mut m, self.total as u64);
        push_text(&mut m, " 个文件，输出目录: ");
        push_text(&mut m, dir);
        m
    }

    /// The message that ends the run: the number of files written.
    pub fn finish(&self) -> (r: TaskMessage)
        ensures
            r == (TaskMessage::Done { file_count: self.succeeded }),
    {
        TaskMessage::Done { file_count: self.succeeded }
    }
}


/// The stage a run is in.
#[derive(Debug, Clone, Copy, PartialEq, Eq, Structural)]
pub enum RunPhase {
    /// Reading the input workbook.
    Reading,
    /// Making the output directory.
    Preparing,
    /// Planning the output groups.
    Planning,
    /// Writing the output files.
    Writing,
    /// Over: the last message has been sent.
    Finished,
}

/// What happened in the run since its last step.
#[derive(Debug)]
pub enum RunEvent {
    /// The workbook could not be read; the text of the error.
    ReadFailed(String),
    /// The workbook was read; how many sheets it has.
    Read { sheet_count: usize },
    /// The output directory could not be made; the text of the error.
    DirFailed(String),
    /// The output directory is there.
    DirReady,
    /// Planning failed; the text of the error.
    PlanFailed(String),
    /// Planning gave this many output files.
    Planned { total: usize },
    /// The next output file, with this file name, is about to be written.
    FileStarting { name: String },
    /// The file of the group with this key was written, or failed with the
    /// error text given.
    FileWritten { key: String, failure: Option<String> },
    /// All files have been tried; the output directory as displayed.
    AllWritten { dir: String },
}

/// The message is a log line with this text.
pub open spec fn is_log(m: TaskMessage, text: Seq<char>) -> bool {
    m matches TaskMessage::Log(s) && s@ == text
}

/// The message is an error with this text.
pub open spec fn is_error(m: TaskMessage, text: Seq<char>) -> bool {
    m matches TaskMessage::Error(s) && s@ == text
}

/// The message ends the run: its completion or its failure.
pub open spec fn is_terminal(m: TaskMessage) -> bool {
    m is Done || m is Error
}

/// The state of a run: its stage and, while writing, its progress.
pub struct RunState {
    pub phase: RunPhase,
    pub progress: RunProgress,
}

impl RunState {
    /// A run that is starting, with the message that it starts.
    pub fn start() -> (r: (RunState, Vec<TaskMessage>))
        ensures
            r.0.phase == RunPhase::Reading,
            r.0.progress.wf(),
            r.1@.len() == 1,
            is_log(r.1@[0], "开始读取文件..."@),
    {
        let mut m = String::new();
        push_text(&mut m, "开始读取文件...");
        let mut out: Vec<TaskMessage> = Vec::new();
        out.push(TaskMessage::Log(m));
        (RunState { phase: RunPhase::Reading, progress: RunProgress::new(0) }, out)
    }

    /// Takes one step of the run: the messages to send for `event`, and the
    /// next stage. A failure ends the run with an error; an empty plan ends it
    /// with no files; after the last file the summary and the count of files
    /// written end it. An event that does not fit the stage changes nothing
    /// and sends nothing, and a finished run sends nothing more.
    pub fn step(&mut self, event: RunEvent) -> (r: Vec<TaskMessage>)
        requires
            old(self).progress.wf(),
        ensures
            final(self).progress.wf(),
            old(self).phase == RunPhase::Finished ==> r@.len() == 0 && final(self).phase == RunPhase::Finished,
            forall|i: int| 0 <= i < r@.len() - 1 ==> !is_terminal(#[trigger] r@[i]),
            (r@.len() > 0 && is_terminal(r@.last())) <==> (old(self).phase != RunPhase::Finished && final(self).phase == RunPhase::Finished),
            match (old(self).phase, event) {
                (RunPhase::Reading, RunEvent::ReadFailed(e)) => {
                    &&& r@.len() == 1 && is_error(r@[0], "读取失败: "@ + e@)
                    &&& final(self).phase == RunPhase::Finished
                },
                (RunPhase::Reading, RunEvent::Read { sheet_count }) => {
                    &&& r@.len() == 1 && is_log(r@[0], "文件读取完成，共 "@ + nat_text(sheet_count as nat) + " 个 Sheet"@)
                    &&& final(self).phase == RunPhase::Preparing
                },
                (RunPhase::Preparing, RunEvent::DirFailed(e)) => {
                    &&& r@.len() == 1 && is_error(r@[0], "创建输出目录失败: "@ + e@)
                    &&& final(self).phase == RunPhase::Finished
                },
                (RunPhase::Preparing, RunEvent::DirReady) => {
                    &&& r@.len() == 1 && is_log(r@[0], "分析分组结构..."@)
                    &&& final(self).phase == RunPhase::Planning
                },
                (RunPhase::Planning, RunEvent::PlanFailed(e)) => {
                    &&& r@.len() == 1 && is_error(r@[0], "分析失败: "@ + e@)
                    &&& final(self).phase == RunPhase::Finished
                },
                (RunPhase::Planning, RunEvent::Planned { total }) => if total == 0 {
                    &&& r@.len() == 2
                    &&& is_log(r@[0], "未找到任何分组键，无文件输出。"@)
                    &&& r@[1] == (TaskMessage::Done { file_count: 0 })
                    &&& final(self).phase == RunPhase::Finished
                } else {
                    &&& r@.len() == 2
                    &&& is_log(r@[0], "共 "@ + nat_text(total as nat) + " 个分组，开始写出..."@)
                    &&& r@[1] == (TaskMessage::Progress { current: 0, total })
                    &&& final(self).phase == RunPhase::Writing
                    &&& final(self).progress == (RunProgress { total, done: 0, succeeded: 0 })
                },
                (RunPhase::Writing, RunEvent::FileStarting { name }) => if old(self).progress.done < old(self).progress.total {
                    &&& r@.len() == 1
                    &&& is_log(r@[0], "  ["@ + nat_text(old(self).progress.done as nat + 1) + "/"@ + nat_text(old(self).progress.total as nat) + "] 写出: "@ + name@)
                    &&& final(self).phase == RunPhase::Writing
                    &&& final(self).progress == old(self).progress
                } else {
                    r@.len() == 0 && final(self).phase == old(self).phase && final(self).progress == old(self).progress
                },
                (RunPhase::Writing, RunEvent::FileWritten { key, failure }) => if old(self).progress.done < old(self).progress.total {
                    let p = RunProgress {
                        total: old(self).progress.total,
                        done: (old(self).progress.done + 1) as usize,
                        succeeded: (old(self).progress.succeeded + if failure is None { 1int } else { 0int }) as usize,
                    };
                    &&& final(self).phase == RunPhase::Writing
                    &&& final(self).progress == p
                    &&& r@.last() == (TaskMessage::Progress { current: p.done, total: p.total })
                    &&& match failure {
                        Some(e) => r@.len() == 2 && is_log(r@[0], "  分组「"@ + key@ + "」写出失败: "@ + e@),
                        None => r@.len() == 1,
                    }
                } else {
                    r@.len() == 0 && final(self).phase == old(self).phase && final(self).progress == old(self).progress
                },
                (RunPhase::Writing, RunEvent::AllWritten { dir }) => {
                    &&& r@.len() == 2
                    &&& is_log(r@[0], "完成！成功写出 "@ + nat_text(old(self).progress.succeeded as nat) + "/"@ + nat_text(old(self).progress.total as nat) + " 个文件，输出目录: "@ + dir@)
                    &&& r@[1] == (TaskMessage::Done { file_count: old(self).progress.succeeded })
                    &&& final(self).phase == RunPhase::Finished
                },
                _ => r@.len() == 0 && final(self).phase == old(self).phase && final(self).progress == old(self).progress,
            },
    {
        let mut out: Vec<TaskMessage> = Vec::new();
        match (self.phase, event) {
            (RunPhase::Reading, RunEvent::ReadFailed(e)) => {
                let mut m = String::new();
                push_text(&mut m, "读取失败: ");
                push_text(&mut m, e.as_str());
                out.push(TaskMessage::Error(m));
                self.phase = RunPhase::Finished;
            },
            (RunPhase::Reading, RunEvent::Read { sheet_count }) => {
                let mut m = String::new();
                push_text(&mut m, "文件读取完成，共 ");
                push_decimal(&mut m, sheet_count as u64);
                push_text(&mut m, " 个 Sheet");
                out.push(TaskMessage::Log(m));
                self.phase = RunPhase::Preparing;
            },
            (RunPhase::Preparing, RunEvent::DirFailed(e)) => {
                let mut m = String::new();
                push_text(&mut m, "创建输出目录失败: ");
                push_text(&mut m, e.as_str());
                out.push(TaskMessage::Error(m));
                self.phase = RunPhase::Finished;
            },
            (RunPhase::Preparing, RunEvent::DirReady) => {
                let mut m = String::new();
                push_text(&mut m, "分析分组结构...");
                out.push(TaskMessage::Log(m));
                self.phase = RunPhase::Planning;
            },
            (RunPhase::Planning, RunEvent::PlanFailed(e)) => {
                let mut m = String::new();
                push_text(&mut m, "分析失败: ");
                push_text(&mut m, e.as_str());
                out.push(TaskMessage::Error(m));
                self.phase = RunPhase::Finished;
            },
            (RunPhase::Planning, RunEvent::Planned { total }) => {
                if total == 0 {
                    let mut m = String::new();
                    push_text(&mut m, "未找到任何分组键，无文件输出。");
                    out.push(TaskMessage::Log(m));
                    out.push(TaskMessage::Done { file_count: 0 });
                    self.phase = RunPhase::Finished;
                } else {
                    let mut m = String::new();
                    push_text(&mut m, "共 ");
                    push_decimal(&mut m, total as u64);
                    push_text(&mut m, " 个分组，开始写出...");
                    out.push(TaskMessage::Log(m));
                    out.push(TaskMessage::Progress { current: 0, total });
                    self.phase = RunPhase::Writing;
                    self.progress = RunProgress::new(total);
                }
            },
            (RunPhase::Writing, RunEvent::FileStarting { name }) => {
                if self.progress.done < self.progress.total {
                    out.push(TaskMessage::Log(self.progress.next_line(name.as_str())));
                }
            },
            (RunPhase::Writing, RunEvent::FileWritten { key, failure }) => {
                if self.progress.done < self.progress.total {
                    let ok = failure.is_none();
                    match failure {
                        Some(e) => {
                            let mut m = String::new();
                            push_text(&mut m, "  分组「");
                            push_text(&mut m, key.as_str());
                            push_text(&mut m, "」写出失败: ");
                            push_text(&mut m, e.as_str());
                            out.push(TaskMessage::Log(m));
                        },
                        None => {},
                    }
                    let p = self.progress.record(ok);
                    out.push(p);
                }
            },
            (RunPhase::Writing, RunEvent::AllWritten { dir }) => {
                out.push(TaskMessage::Log(self.progress.summary_line(dir.as_str())));
                out.push(self.progress.finish());
                self.phase = RunPhase::Finished;
            },
            _ => {},
        }
        out
    }
}

} // verus!
