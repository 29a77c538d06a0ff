//! The course of a whole job, step by step: find the files, plan the results, convert them, put
//! them into order, and make them final or take everything back.
use crate::convert::{is_audio, is_audio_file, OutputFormat};
use crate::naming::{
    filename_warning, has_track_prefix, is_numbered, numbered_path_of, numbered_wav_path,
    results_stay_in_their_folder, warning_about,
};
use crate::output_order::{folder_names, OrderReport};
use crate::path::{extension, file_name, paths, FilePath, PathView};
use crate::plan::{
    music_names, outside_output_warning, outside_warning, plans, plans_are_kept_and_ordered,
    sort_plans, sorted_plans, Neighbour, Plan, PlanView,
};
use crate::text::{append, at_most, count_text, decimal, glue, glue3, glue4, join, joined, texts};
use vstd::prelude::*;
use vstd::seq_lib::group_to_multiset_ensures;
use vstd::utf8::is_ascii_chars;

verus! {

/// What a job tells the user.
#[derive(Debug)]
pub enum Msg<S> {
    Total(usize),
    Progress { done: usize, file: S },
    Log(S),
    Finished { ok: usize, failed: usize },
    Cancelled { cleanup_error: Option<S> },
    OrderError(S),
    NameWarning(S),
    OutputWarning(S),
}

impl View for Msg<String> {
    type V = Msg<Seq<char>>;

    open spec fn view(&self) -> Msg<Seq<char>> {
        match self {
            Msg::Total(n) => Msg::Total(*n),
            Msg::Progress { done, file } => Msg::Progress { done: *done, file: file@ },
            Msg::Log(line) => Msg::Log(line@),
            Msg::Finished { ok, failed } => Msg::Finished { ok: *ok, failed: *failed },
            Msg::Cancelled { cleanup_error } => Msg::Cancelled {
                cleanup_error: match cleanup_error {
                    Some(text) => Some(text@),
                    None => None,
                },
            },
            Msg::OrderError(text) => Msg::OrderError(text@),
            Msg::NameWarning(text) => Msg::NameWarning(text@),
            Msg::OutputWarning(text) => Msg::OutputWarning(text@),
        }
    }
}

/// What a list of messages says.
pub open spec fn messages(v: Seq<Msg<String>>) -> Seq<Msg<Seq<char>>> {
    Seq::new(v.len(), |i: int| v[i]@)
}

/// What the user asked for.
#[derive(Debug)]
pub struct JobSettings {
    pub input: FilePath,
    /// Where results are saved.
    pub output: FilePath,
    /// The folder that the user selected for results, where there is one.
    pub selected: Option<FilePath>,
    pub format: OutputFormat,
    /// Sources are replaced by their results.
    pub in_place: bool,
    pub remove_artist: bool,
    pub use_track_number: bool,
    pub arrange: bool,
    pub separator: String,
}

#[verifier::ext_equal]
pub struct SettingsView {
    pub input: PathView,
    pub output: PathView,
    pub selected: Option<PathView>,
    pub format: OutputFormat,
    pub in_place: bool,
    pub remove_artist: bool,
    pub use_track_number: bool,
    pub arrange: bool,
    pub separator: Seq<char>,
}

impl View for JobSettings {
    type V = SettingsView;

    open spec fn view(&self) -> SettingsView {
        SettingsView {
            input: self.input@,
            output: self.output@,
            selected: match self.selected {
                Some(p) => Some(p@),
                None => None,
            },
            format: self.format,
            in_place: self.in_place,
            remove_artist: self.remove_artist,
            use_track_number: self.use_track_number,
            arrange: self.arrange,
            separator: self.separator@,
        }
    }
}

/// Where a job stands.
#[derive(Debug, Clone, Copy, PartialEq, Eq, Structural)]
pub enum WorkStage {
    /// Looking for music in the folder that the user selected.
    Survey,
    /// Looking for files below the input folder.
    Scan,
    /// Reading the track number of a file.
    Tracks { at: usize },
    /// Opening the job's journal.
    Open { at: usize },
    /// Converting a file.
    Convert { at: usize },
    /// Noting a source that is to be removed.
    Defer { at: usize },
    /// Putting the results into order.
    Arrange,
    /// Asking whether the results may be made final.
    Claim,
    /// Taking the job back because the user cancelled.
    Rollback,
    /// Asking which places hold files again.
    Keep,
    /// Putting the files that are back into order.
    Rearrange,
    /// Making the results final.
    Commit,
    /// Taking the job back because this failed.
    Recover,
    Over,
}

/// One thing to do for a job.
#[derive(Debug)]
pub enum WorkAction<P> {
    /// Nothing: the next step can be taken at once.
    Continue,
    ListFolder(P),
    /// Give the next entry below the input folder.
    NextEntry,
    ReadTrack(P),
    Open(P),
    Convert { source: P, destination: P, format: OutputFormat },
    Defer(P),
    /// Arrange the folders of the targets.
    Arrange,
    /// Begin to commit, unless the user has cancelled.
    Claim,
    Rollback,
    /// Tell which of the targets are files.
    Keep,
    Commit,
}

impl View for WorkAction<FilePath> {
    type V = WorkAction<PathView>;

    open spec fn view(&self) -> WorkAction<PathView> {
        match self {
            WorkAction::Continue => WorkAction::Continue,
            WorkAction::ListFolder(p) => WorkAction::ListFolder(p@),
            WorkAction::NextEntry => WorkAction::NextEntry,
            WorkAction::ReadTrack(p) => WorkAction::ReadTrack(p@),
            WorkAction::Open(p) => WorkAction::Open(p@),
            WorkAction::Convert { source, destination, format } => WorkAction::Convert {
                source: source@,
                destination: destination@,
                format: *format,
            },
            WorkAction::Defer(p) => WorkAction::Defer(p@),
            WorkAction::Arrange => WorkAction::Arrange,
            WorkAction::Claim => WorkAction::Claim,
            WorkAction::Rollback => WorkAction::Rollback,
            WorkAction::Keep => WorkAction::Keep,
            WorkAction::Commit => WorkAction::Commit,
        }
    }
}

/// What came of it.
#[derive(Debug)]
pub enum WorkEvent<S> {
    Ready,
    /// There are no more entries.
    End,
    Track(u32),
    NoTrack,
    /// The results may be made final, or not.
    Granted(bool),
    /// The user cancelled meanwhile.
    Cancelled,
    /// The work broke down.
    Panicked,
    Failed(S),
    CommitFailed { committed: bool, text: S },
}

impl View for WorkEvent<String> {
    type V = WorkEvent<Seq<char>>;

    open spec fn view(&self) -> WorkEvent<Seq<char>> {
        match self {
            WorkEvent::Ready => WorkEvent::Ready,
            WorkEvent::End => WorkEvent::End,
            WorkEvent::Track(n) => WorkEvent::Track(*n),
            WorkEvent::NoTrack => WorkEvent::NoTrack,
            WorkEvent::Granted(b) => WorkEvent::Granted(*b),
            WorkEvent::Cancelled => WorkEvent::Cancelled,
            WorkEvent::Panicked => WorkEvent::Panicked,
            WorkEvent::Failed(text) => WorkEvent::Failed(text@),
            WorkEvent::CommitFailed { committed, text } => WorkEvent::CommitFailed {
                committed: *committed,
                text: text@,
            },
        }
    }
}

/// The course of a job.
#[verifier::ext_equal]
pub struct WorkerView {
    pub settings: SettingsView,
    pub stage: WorkStage,
    /// The files that were found, below the input folder.
    pub files: Seq<PathView>,
    pub plans: Seq<PlanView>,
    pub ok: nat,
    pub failed: nat,
    /// The results that were made, below the output folder.
    pub completed: Seq<PathView>,
    /// The job's journal is open.
    pub opened: bool,
    pub ordering_error: Option<Seq<char>>,
    pub cleanup_error: Option<Seq<char>>,
    /// The files that are arranged once the job was taken back.
    pub restored: Seq<PathView>,
    /// What is said once the job was taken back because it could not be committed.
    pub notice: Seq<char>,
    /// What the last step says.
    pub outbox: Seq<Msg<Seq<char>>>,
}

/// The paths of results below the output folder.
pub open spec fn destinations(output: PathView, completed: Seq<PathView>) -> Seq<PathView> {
    Seq::new(completed.len(), |i: int| output.below(completed[i].parts))
}

/// The paths that hold files.
pub open spec fn kept(all: Seq<PathView>, files: Seq<bool>) -> Seq<PathView>
    decreases all.len(),
{
    if all.len() == 0 {
        Seq::empty()
    } else {
        let front = kept(all.drop_last(), files);
        if all.len() <= files.len() && files[all.len() - 1] {
            front.push(all.last())
        } else {
            front
        }
    }
}

/// The texts of paths.
pub open spec fn shown_all(all: Seq<PathView>, separator: Seq<char>) -> Seq<Seq<char>> {
    Seq::new(all.len(), |i: int| all[i].shown(separator))
}

/// The lines that tell which names are not ASCII.
pub open spec fn name_lines(names: Seq<Seq<char>>) -> Seq<Msg<Seq<char>>>
    decreases names.len(),
{
    if names.len() == 0 {
        Seq::empty()
    } else {
        let front = name_lines(names.drop_last());
        if is_ascii_chars(names.last()) {
            front
        } else {
            front.push(Msg::Log("⚠ 비영문 이름: "@ + names.last()))
        }
    }
}

/// The line that shows how a folder is listed.
pub open spec fn folder_line(
    folder: PathView,
    names: Seq<Seq<char>>,
    separator: Seq<char>,
) -> Seq<char> {
    "목록 "@ + folder.shown(separator) + ": "@ + joined(
        names.take(at_most(names.len() as int, 12)),
        " → "@,
    ) + (if names.len() > 12 {
        " → …"@
    } else {
        Seq::empty()
    })
}

pub open spec fn folder_lines(
    checked: Seq<(PathView, Seq<Seq<char>>)>,
    separator: Seq<char>,
) -> Seq<Msg<Seq<char>>> {
    Seq::new(
        checked.len(),
        |i: int| Msg::Log(folder_line(checked[i].0, checked[i].1, separator)),
    )
}

/// The line that tells what arranging came to.
pub open spec fn order_line(
    output: PathView,
    verified: bool,
    count: nat,
    separator: Seq<char>,
) -> Seq<char> {
    if verified {
        "✓ 저장 폴더 "@ + decimal(count) + "개에서 Windows가 읽은 목록이 번호순임을 확인: "@ + output.shown(
            separator,
        )
    } else {
        "✓ 출력 폴더 재구성 완료: "@ + output.shown(separator)
            + " (DAP 재생 순서는 확인하지 않음)"@
    }
}

impl WorkerView {
    pub open spec fn wf(self) -> bool {
        match self.stage {
            WorkStage::Survey | WorkStage::Scan => self.ok == 0,
            WorkStage::Tracks { at } => at < self.files.len() && self.ok == 0,
            WorkStage::Open { at }
            | WorkStage::Convert { at }
            | WorkStage::Defer { at } => at < self.plans.len() && self.ok <= at,
            _ => true,
        }
    }

    // -- small changes

    pub open spec fn quiet(self) -> WorkerView {
        WorkerView { outbox: Seq::empty(), ..self }
    }

    pub open spec fn say(self, msg: Msg<Seq<char>>) -> WorkerView {
        WorkerView { outbox: self.outbox.push(msg), ..self }
    }

    pub open spec fn log(self, line: Seq<char>) -> WorkerView {
        self.say(Msg::Log(line))
    }

    pub open spec fn at(self, stage: WorkStage) -> WorkerView {
        WorkerView { stage, ..self }
    }

    pub open spec fn count_failure(self) -> WorkerView {
        WorkerView { failed: self.failed + 1, ..self }
    }

    /// The path of a file that was found.
    pub open spec fn source(self, relative: PathView) -> PathView {
        self.settings.input.below(relative.parts)
    }

    pub open spec fn show(self, p: PathView) -> Seq<char> {
        p.shown(self.settings.separator)
    }

    // -- finding files

    pub open spec fn start(settings: SettingsView) -> WorkerView {
        WorkerView {
            settings,
            stage: if !settings.in_place && settings.selected is Some && settings.selected->0
                != settings.output {
                WorkStage::Survey
            } else {
                WorkStage::Scan
            },
            files: Seq::empty(),
            plans: Seq::empty(),
            ok: 0,
            failed: 0,
            completed: Seq::empty(),
            opened: false,
            ordering_error: None,
            cleanup_error: None,
            restored: Seq::empty(),
            notice: Seq::empty(),
            outbox: Seq::empty(),
        }
    }

    /// The folder that the user selected was listed.
    pub open spec fn surveyed(self, entries: Seq<Neighbour>) -> WorkerView {
        if self.stage != WorkStage::Survey {
            self.quiet()
        } else {
            let names = music_names(entries);
            match self.settings.selected {
                Some(selected) if selected != self.settings.output && names.len() > 0 => {
                    let warning = outside_warning(
                        self.show(selected),
                        self.show(self.settings.output),
                        names,
                    );
                    self.quiet().log("⚠ "@ + warning).say(Msg::OutputWarning(warning)).at(
                        WorkStage::Scan,
                    )
                },
                _ => self.quiet().at(WorkStage::Scan),
            }
        }
    }

    /// An entry below the input folder was found.
    pub open spec fn found(self, relative: PathView, is_file: bool, cancelled: bool) -> WorkerView {
        let q = self.quiet();
        if self.stage != WorkStage::Scan {
            q
        } else if cancelled {
            q.end_scan(cancelled)
        } else if is_file && is_audio(self.source(relative)) {
            WorkerView { files: self.files.push(relative), ..q }
        } else {
            q
        }
    }

    pub open spec fn end_scan(self, cancelled: bool) -> WorkerView {
        self.say(Msg::Total(self.files.len() as usize)).next_track(0, cancelled)
    }

    // -- planning

    pub open spec fn next_track(self, at: int, cancelled: bool) -> WorkerView {
        if cancelled || at >= self.files.len() {
            WorkerView {
                plans: sorted_plans(self.plans, self.settings.separator),
                ..self
            }.next_file(0, cancelled)
        } else {
            self.at(WorkStage::Tracks { at: at as usize })
        }
    }

    /// The track number of a file is read where its name does not begin with one.
    pub open spec fn needs_track(self, relative: PathView) -> bool {
        self.settings.use_track_number && !is_numbered(self.source(relative))
    }

    pub open spec fn after_track(
        self,
        at: usize,
        event: WorkEvent<Seq<char>>,
        cancelled: bool,
    ) -> WorkerView {
        let file = self.files[at as int];
        let q = self.quiet();
        let track = match event {
            WorkEvent::Track(n) if self.needs_track(file) => Some(n),
            _ => None,
        };
        let told = if track is Some || !self.needs_track(file) {
            q
        } else {
            let reason = match event {
                WorkEvent::Failed(text) => text,
                WorkEvent::Panicked => "메타데이터 내부 오류"@,
                _ => "트랙 번호 태그 없음"@,
            };
            q.log(
                "⚠ 번호를 붙이지 않음: "@ + self.show(self.source(file)) + " — "@ + reason,
            )
        };
        WorkerView {
            plans: self.plans.push(
                PlanView {
                    file,
                    result: numbered_path_of(file, self.settings.remove_artist, track),
                },
            ),
            ..told
        }.next_track(at + 1, cancelled)
    }

    // -- converting

    pub open spec fn next_file(self, at: int, cancelled: bool) -> WorkerView {
        if cancelled || at >= self.plans.len() {
            self.after_files(cancelled)
        } else {
            let q = self.say(
                Msg::Progress { done: at as usize, file: self.show(self.plans[at].file) },
            );
            if self.opened {
                q.at(WorkStage::Convert { at: at as usize })
            } else {
                q.at(WorkStage::Open { at: at as usize })
            }
        }
    }

    /// A file could not be converted: the job goes on with the next.
    pub open spec fn skip_file(
        self,
        at: usize,
        event: WorkEvent<Seq<char>>,
        cancelled: bool,
    ) -> WorkerView {
        let rel = self.show(self.plans[at as int].file);
        match event {
            WorkEvent::Failed(text) => self.count_failure().log(
                "⚠ 실패: "@ + rel + " — "@ + text,
            ).next_file(at + 1, cancelled),
            WorkEvent::Panicked => self.count_failure().log(
                "⚠ 내부 오류로 건너뜀: "@ + rel,
            ).next_file(at + 1, cancelled),
            _ => self,
        }
    }

    pub open spec fn after_open(
        self,
        at: usize,
        event: WorkEvent<Seq<char>>,
        cancelled: bool,
    ) -> WorkerView {
        match event {
            WorkEvent::Ready => WorkerView {
                opened: true,
                stage: WorkStage::Convert { at },
                ..self.quiet()
            },
            _ => self.quiet().skip_file(at, event, cancelled),
        }
    }

    pub open spec fn after_convert(
        self,
        at: usize,
        event: WorkEvent<Seq<char>>,
        cancelled: bool,
    ) -> WorkerView {
        match event {
            WorkEvent::Ready => if self.settings.in_place {
                self.quiet().at(WorkStage::Defer { at })
            } else {
                self.quiet().keep_result(at, cancelled)
            },
            WorkEvent::Cancelled => self.quiet().after_files(cancelled),
            _ => self.quiet().skip_file(at, event, cancelled),
        }
    }

    pub open spec fn keep_result(self, at: usize, cancelled: bool) -> WorkerView {
        let plan = self.plans[at as int];
        WorkerView {
            completed: self.completed.push(plan.result),
            ok: self.ok + 1,
            ..self
        }.log("✓ "@ + self.show(plan.file) + " → "@ + self.show(plan.result)).next_file(
            at + 1,
            cancelled,
        )
    }

    pub open spec fn after_files(self, cancelled: bool) -> WorkerView {
        if self.settings.arrange && self.completed.len() > 0 && !cancelled {
            self.log("DAP 재생 순서 정리 중…"@).say(
                Msg::Progress {
                    done: self.files.len() as usize,
                    file: "DAP 재생 순서 정리"@,
                },
            ).at(WorkStage::Arrange)
        } else {
            self.at(WorkStage::Claim)
        }
    }

    // -- arranging

    /// The results were put into order.
    pub open spec fn ordered(
        self,
        checked: Seq<(PathView, Seq<Seq<char>>)>,
        verified: bool,
    ) -> WorkerView {
        let q = self.quiet();
        if self.stage == WorkStage::Rearrange {
            q.finish_cancel()
        } else if self.stage != WorkStage::Arrange {
            q
        } else {
            let told = q.log(
                order_line(
                    self.settings.output,
                    verified,
                    checked.len(),
                    self.settings.separator,
                ),
            );
            let lines = WorkerView {
                outbox: told.outbox + folder_lines(checked, self.settings.separator),
                ..told
            };
            (if self.failed > 0 {
                lines.log(
                    "⚠ 성공한 결과의 저장 폴더만 정리했습니다. 실패 "@ + decimal(self.failed)
                        + "개는 다시 변환해야 합니다."@,
                )
            } else {
                lines
            }).at(WorkStage::Claim)
        }
    }

    pub open spec fn after_arrange(self, event: WorkEvent<Seq<char>>) -> WorkerView {
        match event {
            WorkEvent::Failed(text) => WorkerView {
                ordering_error: Some(text),
                ..self.quiet()
            }.say(Msg::OrderError(text)).at(WorkStage::Claim),
            _ => self.quiet(),
        }
    }

    // -- cancelling

    pub open spec fn after_claim(self, event: WorkEvent<Seq<char>>) -> WorkerView {
        let q = self.quiet();
        match event {
            WorkEvent::Granted(true) => if self.opened {
                q.at(WorkStage::Commit)
            } else {
                q.finish()
            },
            WorkEvent::Granted(false) => if self.opened {
                q.at(WorkStage::Rollback)
            } else {
                q.after_taken_back()
            },
            _ => q,
        }
    }

    pub open spec fn after_rollback(self, event: WorkEvent<Seq<char>>) -> WorkerView {
        match event {
            WorkEvent::Ready => self.quiet().after_taken_back(),
            WorkEvent::Failed(text) => WorkerView {
                cleanup_error: Some(text),
                ..self.quiet()
            }.after_taken_back(),
            _ => self.quiet(),
        }
    }

    /// Files that were put back may be listed out of order: they are arranged again.
    pub open spec fn after_taken_back(self) -> WorkerView {
        if self.settings.arrange && self.cleanup_error is None && self.ordering_error is None
            && self.completed.len() > 0 {
            self.at(WorkStage::Keep)
        } else {
            self.finish_cancel()
        }
    }

    /// The places that hold files again are known.
    pub open spec fn keeps(self, files: Seq<bool>) -> WorkerView {
        let q = self.quiet();
        if self.stage != WorkStage::Keep {
            q
        } else {
            let restored = kept(destinations(self.settings.output, self.completed), files);
            if restored.len() > 0 {
                WorkerView { restored, stage: WorkStage::Rearrange, ..q }
            } else {
                q.finish_cancel()
            }
        }
    }

    pub open spec fn after_rearrange(self, event: WorkEvent<Seq<char>>) -> WorkerView {
        match event {
            WorkEvent::Failed(text) => WorkerView {
                cleanup_error: Some(
                    "기존 파일은 복구했지만 순서 정리에 실패했습니다: "@ + text,
                ),
                ..self.quiet()
            }.finish_cancel(),
            _ => self.quiet(),
        }
    }

    pub open spec fn finish_cancel(self) -> WorkerView {
        let cleanup_error = match self.ordering_error {
            None => self.cleanup_error,
            Some(error) => {
                let message = "순서 정리 중 오류가 있었습니다. 복구 위치를 확인하세요: "@ + error;
                Some(
                    match self.cleanup_error {
                        Some(cleanup) => cleanup + "\n"@ + message,
                        None => message,
                    },
                )
            },
        };
        WorkerView { cleanup_error, ..self }.say(Msg::Cancelled { cleanup_error }).at(
            WorkStage::Over,
        )
    }

    // -- finishing

    pub open spec fn warn(self, message: Seq<char>) -> WorkerView {
        self.say(Msg::OutputWarning(message)).log("⚠ "@ + message)
    }

    pub open spec fn after_commit(self, event: WorkEvent<Seq<char>>) -> WorkerView {
        match event {
            WorkEvent::Ready => self.quiet().finish(),
            WorkEvent::CommitFailed { committed, text } => {
                let message = "완료 처리 중 오류: "@ + text;
                if committed {
                    self.quiet().count_failure().warn(message).finish()
                } else {
                    // Nothing was made final: no result counts.
                    WorkerView {
                        failed: self.failed + (if self.ok > 1 {
                            self.ok
                        } else {
                            1
                        }),
                        ok: 0,
                        completed: Seq::empty(),
                        notice: message,
                        stage: WorkStage::Recover,
                        ..self.quiet()
                    }
                }
            },
            _ => self.quiet(),
        }
    }

    pub open spec fn after_recover(self, event: WorkEvent<Seq<char>>) -> WorkerView {
        match event {
            WorkEvent::Ready => self.quiet().warn(
                self.notice + "\n이번 작업의 변경 사항을 되돌렸습니다."@,
            ).finish(),
            WorkEvent::Failed(text) => self.quiet().warn(
                self.notice + "\n복구 중 오류: "@ + text,
            ).finish(),
            _ => self.quiet(),
        }
    }

    pub open spec fn finish(self) -> WorkerView {
        let names = shown_all(self.completed, self.settings.separator);
        let told = match warning_about(names) {
            Some(warning) => WorkerView { outbox: self.outbox + name_lines(names), ..self }.say(
                Msg::NameWarning(warning),
            ),
            None => self,
        };
        told.say(Msg::Finished { ok: self.ok as usize, failed: self.failed as usize }).at(
            WorkStage::Over,
        )
    }

    // -- all steps

    pub open spec fn action(self) -> WorkAction<PathView> {
        match self.stage {
            WorkStage::Survey => match self.settings.selected {
                Some(selected) => WorkAction::ListFolder(selected),
                None => WorkAction::Continue,
            },
            WorkStage::Scan => WorkAction::NextEntry,
            WorkStage::Tracks { at } => if self.needs_track(self.files[at as int]) {
                WorkAction::ReadTrack(self.source(self.files[at as int]))
            } else {
                WorkAction::Continue
            },
            WorkStage::Open { .. } => WorkAction::Open(self.settings.output),
            WorkStage::Convert { at } => WorkAction::Convert {
                source: self.source(self.plans[at as int].file),
                destination: self.settings.output.below(self.plans[at as int].result.parts),
                format: self.settings.format,
            },
            WorkStage::Defer { at } => WorkAction::Defer(self.source(self.plans[at as int].file)),
            WorkStage::Arrange | WorkStage::Rearrange => WorkAction::Arrange,
            WorkStage::Claim => WorkAction::Claim,
            WorkStage::Rollback | WorkStage::Recover => WorkAction::Rollback,
            WorkStage::Keep => WorkAction::Keep,
            WorkStage::Commit => WorkAction::Commit,
            WorkStage::Over => WorkAction::Continue,
        }
    }

    /// The files that arranging is about.
    pub open spec fn targets(self) -> Seq<PathView> {
        if self.stage == WorkStage::Rearrange {
            self.restored
        } else {
            destinations(self.settings.output, self.completed)
        }
    }

    pub open spec fn step(self, event: WorkEvent<Seq<char>>, cancelled: bool) -> WorkerView {
        match self.stage {
            WorkStage::Survey => match event {
                WorkEvent::Failed(text) => self.quiet().log(
                    "⚠ 기존 출력 확인 실패: "@ + text,
                ).at(WorkStage::Scan),
                _ => self.quiet().at(WorkStage::Scan),
            },
            WorkStage::Scan => match event {
                WorkEvent::End => self.quiet().end_scan(cancelled),
                WorkEvent::Failed(text) => if cancelled {
                    self.quiet().end_scan(cancelled)
                } else {
                    self.quiet().count_failure().log("⚠ 입력 탐색 실패: "@ + text)
                },
                _ => self.quiet(),
            },
            WorkStage::Tracks { at } => self.after_track(at, event, cancelled),
            WorkStage::Open { at } => self.after_open(at, event, cancelled),
            WorkStage::Convert { at } => self.after_convert(at, event, cancelled),
            WorkStage::Defer { at } => self.quiet().keep_result(at, cancelled),
            WorkStage::Arrange => self.after_arrange(event),
            WorkStage::Claim => self.after_claim(event),
            WorkStage::Rollback => self.after_rollback(event),
            WorkStage::Rearrange => self.after_rearrange(event),
            WorkStage::Commit => self.after_commit(event),
            WorkStage::Recover => self.after_recover(event),
            WorkStage::Keep | WorkStage::Over => self.quiet(),
        }
    }
}

/// The course of a job. It asks for one thing at a time: perform what `pending` returns, hand the
/// outcome to the method that takes it, and pass on what `take_messages` returns.
#[derive(Debug)]
pub struct Worker {
    settings: JobSettings,
    stage: WorkStage,
    files: Vec<FilePath>,
    plans: Vec<Plan>,
    ok: usize,
    failed: usize,
    completed: Vec<FilePath>,
    opened: bool,
    ordering_error: Option<String>,
    cleanup_error: Option<String>,
    restored: Vec<FilePath>,
    notice: String,
    outbox: Vec<Msg<String>>,
}

/// What an optional text says.
pub open spec fn maybe(text: Option<String>) -> Option<Seq<char>> {
    match text {
        Some(text) => Some(text@),
        None => None,
    }
}

impl View for Worker {
    type V = WorkerView;

    closed spec fn view(&self) -> WorkerView {
        WorkerView {
            settings: self.settings@,
            stage: self.stage,
            files: paths(self.files@),
            plans: plans(self.plans@),
            ok: self.ok as nat,
            failed: self.failed as nat,
            completed: paths(self.completed@),
            opened: self.opened,
            ordering_error: maybe(self.ordering_error),
            cleanup_error: maybe(self.cleanup_error),
            restored: paths(self.restored@),
            notice: self.notice@,
            outbox: messages(self.outbox@),
        }
    }
}

/// The paths of results below the output folder.
fn all_destinations(output: &FilePath, completed: &Vec<FilePath>) -> (r: Vec<FilePath>)
    ensures
        paths(r@) == destinations(output@, paths(completed@)),
{
    let mut r: Vec<FilePath> = Vec::new();
    let mut i: usize = 0;
    while i < completed.len()
        invariant
            i <= completed@.len(),
            r@.len() == i,
            forall|k: int|
                0 <= k < i ==> (#[trigger] r@[k])@ == output@.below(completed@[k]@.parts),
        decreases completed@.len() - i,
    {
        r.push(output.below(&completed[i]));
        i = i + 1;
    }
    assert(paths(r@) =~= destinations(output@, paths(completed@)));
    r
}

impl Worker {
    /// Begins a job.
    pub fn new(settings: JobSettings) -> (r: Worker)
        ensures
            r@ == WorkerView::start(settings@),
            r@.wf(),
    {
        let survey = !settings.in_place && match &settings.selected {
            Some(selected) => !selected.equals(&settings.output),
            None => false,
        };
        let stage = if survey {
            WorkStage::Survey
        } else {
            WorkStage::Scan
        };
        let r = Worker {
            settings,
            stage,
            files: Vec::new(),
            plans: Vec::new(),
            ok: 0,
            failed: 0,
            completed: Vec::new(),
            opened: false,
            ordering_error: None,
            cleanup_error: None,
            restored: Vec::new(),
            notice: String::new(),
            outbox: Vec::new(),
        };
        assert(r@ =~= WorkerView::start(settings@));
        r
    }

    /// Takes what the last step says.
    pub fn take_messages(&mut self) -> (r: Vec<Msg<String>>)
        ensures
            messages(r@) == old(self)@.outbox,
            final(self)@ == old(self)@.quiet(),
    {
        let mut r: Vec<Msg<String>> = Vec::new();
        std::mem::swap(&mut r, &mut self.outbox);
        assert(self@ =~= old(self)@.quiet());
        r
    }

    // -- small changes

    fn quiet(&mut self)
        ensures
            final(self)@ == old(self)@.quiet(),
    {
        self.outbox = Vec::new();
        assert(self@.outbox =~= Seq::<Msg<Seq<char>>>::empty());
    }

    fn say(&mut self, msg: Msg<String>)
        ensures
            final(self)@ == old(self)@.say(msg@),
    {
        self.outbox.push(msg);
        assert(self@.outbox =~= old(self)@.outbox.push(msg@));
    }

    fn log(&mut self, line: String)
        ensures
            final(self)@ == old(self)@.log(line@),
    {
        self.say(Msg::Log(line));
    }

    fn go(&mut self, stage: WorkStage)
        ensures
            final(self)@ == old(self)@.at(stage),
    {
        self.stage = stage;
    }

    fn count_failure(&mut self)
        requires
            old(self)@.failed < usize::MAX,
        ensures
            final(self)@ == old(self)@.count_failure(),
    {
        self.failed = self.failed + 1;
    }

    fn source(&self, relative: &FilePath) -> (r: FilePath)
        ensures
            r@ == self@.source(relative@),
    {
        self.settings.input.below(relative)
    }

    fn show(&self, p: &FilePath) -> (r: String)
        ensures
            r@ == self@.show(p@),
    {
        p.show(self.settings.separator.as_str())
    }

    // -- finding files

    /// Takes the next step, once the folder that the user selected was listed.
    pub fn resume_surveyed(&mut self, entries: &Vec<Neighbour>)
        requires
            old(self)@.wf(),
        ensures
            final(self)@ == old(self)@.surveyed(entries@),
            final(self)@.wf(),
    {
        self.quiet();
        if self.stage != WorkStage::Survey {
            return;
        }
        let warning = match &self.settings.selected {
            Some(selected) => outside_output_warning(
                selected,
                &self.settings.output,
                entries,
                self.settings.separator.as_str(),
            ),
            None => None,
        };
        if let Some(text) = warning {
            self.log(glue("⚠ ", text.as_str()));
            self.say(Msg::OutputWarning(text));
        }
        self.go(WorkStage::Scan);
    }
}

impl Worker {
    /// Takes the next step, once an entry below the input folder was found.
    pub fn resume_found(&mut self, relative: &FilePath, is_file: bool, cancelled: bool)
        requires
            old(self)@.wf(),
        ensures
            final(self)@ == old(self)@.found(relative@, is_file, cancelled),
            final(self)@.wf(),
    {
        self.quiet();
        if self.stage != WorkStage::Scan {
            return;
        }
        if cancelled {
            self.end_scan(cancelled);
            return;
        }
        let source = self.source(relative);
        if is_file && is_audio_file(&source) {
            self.files.push(relative.copy());
            assert(self@.files =~= old(self)@.files.push(relative@));
        }
    }

    fn end_scan(&mut self, cancelled: bool)
        requires
            old(self)@.ok == 0,
        ensures
            final(self)@ == old(self)@.end_scan(cancelled),
            final(self)@.wf(),
    {
        let n = self.files.len();
        assert(n == self@.files.len());
        self.say(Msg::Total(n));
        self.next_track(0, cancelled);
    }

    // -- planning

    fn next_track(&mut self, at: usize, cancelled: bool)
        requires
            old(self)@.ok == 0,
        ensures
            final(self)@ == old(self)@.next_track(at as int, cancelled),
            final(self)@.wf(),
    {
        if cancelled || at >= self.files.len() {
            let mut all: Vec<Plan> = Vec::new();
            std::mem::swap(&mut all, &mut self.plans);
            self.plans = sort_plans(all, self.settings.separator.as_str());
            self.next_file(0, cancelled);
        } else {
            self.go(WorkStage::Tracks { at });
        }
    }

    fn needs_track(&self, relative: &FilePath) -> (r: bool)
        ensures
            r == self@.needs_track(relative@),
    {
        self.settings.use_track_number && !has_track_prefix(&self.source(relative))
    }

    fn after_track(&mut self, at: usize, event: &WorkEvent<String>, cancelled: bool)
        requires
            old(self)@.wf(),
            old(self)@.stage == (WorkStage::Tracks { at }),
            old(self)@.ok == 0,
        ensures
            final(self)@ == old(self)@.after_track(at, event@, cancelled),
            final(self)@.wf(),
    {
        self.quiet();
        assert(at < self.files.len());
        let file = self.files[at].copy();
        let needed = self.needs_track(&file);
        let track = match event {
            WorkEvent::Track(n) => if needed {
                Some(*n)
            } else {
                None
            },
            _ => None,
        };
        if track.is_none() && needed {
            let reason = match event {
                WorkEvent::Failed(text) => text.clone(),
                WorkEvent::Panicked => "메타데이터 내부 오류".to_owned(),
                _ => "트랙 번호 태그 없음".to_owned(),
            };
            let line = glue4(
                "⚠ 번호를 붙이지 않음: ",
                self.show(&self.source(&file)).as_str(),
                " — ",
                reason.as_str(),
            );
            self.log(line);
        }
        let result = numbered_wav_path(&file, self.settings.remove_artist, track);
        let ghost before = self@;
        self.plans.push(Plan { file, result });
        assert(self@.plans =~= before.plans.push(PlanView { file: file@, result: result@ }));
        self.next_track(at + 1, cancelled);
    }

    // -- converting

    fn next_file(&mut self, at: usize, cancelled: bool)
        requires
            old(self)@.ok <= at,
        ensures
            final(self)@ == old(self)@.next_file(at as int, cancelled),
            final(self)@.wf(),
    {
        if cancelled || at >= self.plans.len() {
            self.after_files(cancelled);
        } else {
            let file = self.show(&self.plans[at].file);
            self.say(Msg::Progress { done: at, file });
            if self.opened {
                self.go(WorkStage::Convert { at });
            } else {
                self.go(WorkStage::Open { at });
            }
        }
    }

    fn skip_file(&mut self, at: usize, event: &WorkEvent<String>, cancelled: bool)
        requires
            at < old(self)@.plans.len(),
            old(self)@.ok <= at,
            old(self)@.failed < usize::MAX,
            old(self)@.wf(),
        ensures
            final(self)@ == old(self)@.skip_file(at, event@, cancelled),
            final(self)@.wf(),
    {
        assert(at < self.plans.len());
        let rel = self.show(&self.plans[at].file);
        match event {
            WorkEvent::Failed(text) => {
                self.count_failure();
                self.log(glue4("⚠ 실패: ", rel.as_str(), " — ", text.as_str()));
                self.next_file(at + 1, cancelled);
            },
            WorkEvent::Panicked => {
                self.count_failure();
                self.log(glue("⚠ 내부 오류로 건너뜀: ", rel.as_str()));
                self.next_file(at + 1, cancelled);
            },
            _ => {},
        }
    }

    fn after_open(&mut self, at: usize, event: &WorkEvent<String>, cancelled: bool)
        requires
            old(self)@.wf(),
            old(self)@.stage == (WorkStage::Open { at }),
            old(self)@.failed < usize::MAX,
        ensures
            final(self)@ == old(self)@.after_open(at, event@, cancelled),
            final(self)@.wf(),
    {
        self.quiet();
        match event {
            WorkEvent::Ready => {
                self.opened = true;
                self.stage = WorkStage::Convert { at };
            },
            _ => self.skip_file(at, event, cancelled),
        }
    }

    fn after_convert(&mut self, at: usize, event: &WorkEvent<String>, cancelled: bool)
        requires
            old(self)@.wf(),
            old(self)@.stage == (WorkStage::Convert { at }),
            old(self)@.failed < usize::MAX,
        ensures
            final(self)@ == old(self)@.after_convert(at, event@, cancelled),
            final(self)@.wf(),
    {
        self.quiet();
        match event {
            WorkEvent::Ready => if self.settings.in_place {
                self.go(WorkStage::Defer { at });
            } else {
                self.keep_result(at, cancelled);
            },
            WorkEvent::Cancelled => self.after_files(cancelled),
            _ => self.skip_file(at, event, cancelled),
        }
    }

    fn keep_result(&mut self, at: usize, cancelled: bool)
        requires
            at < old(self)@.plans.len(),
            old(self)@.ok <= at,
        ensures
            final(self)@ == old(self)@.keep_result(at, cancelled),
            final(self)@.wf(),
    {
        assert(at < self.plans.len());
        let line = glue4(
            "✓ ",
            self.show(&self.plans[at].file).as_str(),
            " → ",
            self.show(&self.plans[at].result).as_str(),
        );
        let result = self.plans[at].result.copy();
        self.completed.push(result);
        assert(self@.completed =~= old(self)@.completed.push(result@));
        self.ok = self.ok + 1;
        self.log(line);
        self.next_file(at + 1, cancelled);
    }

    fn after_files(&mut self, cancelled: bool)
        ensures
            final(self)@ == old(self)@.after_files(cancelled),
            final(self)@.wf(),
    {
        assert(self@.completed.len() == self.completed.len());
        if self.settings.arrange && self.completed.len() > 0 && !cancelled {
            let n = self.files.len();
            assert(n == self@.files.len());
            self.log("DAP 재생 순서 정리 중…".to_owned());
            self.say(Msg::Progress { done: n, file: "DAP 재생 순서 정리".to_owned() });
            self.go(WorkStage::Arrange);
        } else {
            self.go(WorkStage::Claim);
        }
    }

    // -- arranging

    /// Takes the next step, once the results, or the files that are back, were put into order.
    pub fn resume_ordered(&mut self, report: &OrderReport)
        requires
            old(self)@.wf(),
        ensures
            final(self)@ == old(self)@.ordered(
                folder_names(report.checked_directories@),
                report.physical_order_verified,
            ),
            final(self)@.wf(),
    {
        self.quiet();
        if self.stage == WorkStage::Rearrange {
            self.finish_cancel();
            return;
        }
        if self.stage != WorkStage::Arrange {
            return;
        }
        let checked = &report.checked_directories;
        let ghost all = folder_names(checked@);
        assert(all.len() == checked.len());
        let place = self.show(&self.settings.output);
        let line = if report.physical_order_verified {
            glue4(
                "✓ 저장 폴더 ",
                count_text(checked.len()).as_str(),
                "개에서 Windows가 읽은 목록이 번호순임을 확인: ",
                place.as_str(),
            )
        } else {
            glue3(
                "✓ 출력 폴더 재구성 완료: ",
                place.as_str(),
                " (DAP 재생 순서는 확인하지 않음)",
            )
        };
        self.log(line);
        let ghost told = self@;
        let ghost lines = folder_lines(all, told.settings.separator);
        let mut i: usize = 0;
        assert(told.outbox + lines.take(0) =~= told.outbox);
        while i < checked.len()
            invariant
                i <= checked@.len(),
                checked@ == report.checked_directories@,
                all == folder_names(checked@),
                lines == folder_lines(all, told.settings.separator),
                self@ == (WorkerView { outbox: told.outbox + lines.take(i as int), ..told }),
            decreases checked@.len() - i,
        {
            let line = folder_text(
                &checked[i].0,
                &checked[i].1,
                self.settings.separator.as_str(),
            );
            assert(all[i as int] == (checked@[i as int].0@, texts(checked@[i as int].1@)));
            self.log(line);
            assert(lines.take(i + 1) =~= lines.take(i as int).push(lines[i as int]));
            assert(self@.outbox =~= told.outbox + lines.take(i + 1));
            i = i + 1;
        }
        assert(lines.take(i as int) =~= lines);
        if self.failed > 0 {
            let line = glue3(
                "⚠ 성공한 결과의 저장 폴더만 정리했습니다. 실패 ",
                count_text(self.failed).as_str(),
                "개는 다시 변환해야 합니다.",
            );
            self.log(line);
        }
        self.go(WorkStage::Claim);
    }

    fn after_arrange(&mut self, event: &WorkEvent<String>)
        requires
            old(self)@.wf(),
            old(self)@.stage == WorkStage::Arrange,
        ensures
            final(self)@ == old(self)@.after_arrange(event@),
            final(self)@.wf(),
    {
        self.quiet();
        match event {
            WorkEvent::Failed(text) => {
                self.ordering_error = Some(text.clone());
                self.say(Msg::OrderError(text.clone()));
                self.go(WorkStage::Claim);
            },
            _ => {},
        }
    }

    // -- cancelling

    fn after_claim(&mut self, event: &WorkEvent<String>)
        requires
            old(self)@.wf(),
            old(self)@.stage == WorkStage::Claim,
        ensures
            final(self)@ == old(self)@.after_claim(event@),
            final(self)@.wf(),
    {
        self.quiet();
        match event {
            WorkEvent::Granted(granted) => if *granted {
                if self.opened {
                    self.go(WorkStage::Commit);
                } else {
                    self.finish();
                }
            } else {
                if self.opened {
                    self.go(WorkStage::Rollback);
                } else {
                    self.after_taken_back();
                }
            },
            _ => {},
        }
    }

    fn after_rollback(&mut self, event: &WorkEvent<String>)
        requires
            old(self)@.wf(),
            old(self)@.stage == WorkStage::Rollback,
        ensures
            final(self)@ == old(self)@.after_rollback(event@),
            final(self)@.wf(),
    {
        self.quiet();
        match event {
            WorkEvent::Ready => self.after_taken_back(),
            WorkEvent::Failed(text) => {
                self.cleanup_error = Some(text.clone());
                self.after_taken_back();
            },
            _ => {},
        }
    }

    fn after_taken_back(&mut self)
        ensures
            final(self)@ == old(self)@.after_taken_back(),
            final(self)@.wf(),
    {
        assert(self@.completed.len() == self.completed.len());
        if self.settings.arrange && self.cleanup_error.is_none() && self.ordering_error.is_none()
            && self.completed.len() > 0 {
            self.go(WorkStage::Keep);
        } else {
            self.finish_cancel();
        }
    }

    /// Takes the next step, once it is known which of the targets are files.
    pub fn resume_kept(&mut self, files: &Vec<bool>)
        requires
            old(self)@.wf(),
        ensures
            final(self)@ == old(self)@.keeps(files@),
            final(self)@.wf(),
    {
        self.quiet();
        if self.stage != WorkStage::Keep {
            return;
        }
        let all = all_destinations(&self.settings.output, &self.completed);
        let restored = pick_kept(&all, files);
        assert(paths(restored@).len() == restored@.len());
        if restored.len() > 0 {
            self.restored = restored;
            self.stage = WorkStage::Rearrange;
        } else {
            self.finish_cancel();
        }
    }

    fn after_rearrange(&mut self, event: &WorkEvent<String>)
        requires
            old(self)@.wf(),
            old(self)@.stage == WorkStage::Rearrange,
        ensures
            final(self)@ == old(self)@.after_rearrange(event@),
            final(self)@.wf(),
    {
        self.quiet();
        match event {
            WorkEvent::Failed(text) => {
                self.cleanup_error =
                Some(
                    glue(
                        "기존 파일은 복구했지만 순서 정리에 실패했습니다: ",
                        text.as_str(),
                    ),
                );
                self.finish_cancel();
            },
            _ => {},
        }
    }

    fn finish_cancel(&mut self)
        ensures
            final(self)@ == old(self)@.finish_cancel(),
            final(self)@.wf(),
    {
        let message = match &self.ordering_error {
            None => None,
            Some(error) => Some(
                glue(
                    "순서 정리 중 오류가 있었습니다. 복구 위치를 확인하세요: ",
                    error.as_str(),
                ),
            ),
        };
        if let Some(message) = message {
            let text = match &self.cleanup_error {
                Some(cleanup) => glue3(cleanup.as_str(), "\n", message.as_str()),
                None => message,
            };
            self.cleanup_error = Some(text);
        }
        let cleanup_error = match &self.cleanup_error {
            Some(text) => Some(text.clone()),
            None => None,
        };
        self.say(Msg::Cancelled { cleanup_error });
        self.go(WorkStage::Over);
    }

    // -- finishing

    fn warn(&mut self, message: String)
        ensures
            final(self)@ == old(self)@.warn(message@),
    {
        let line = glue("⚠ ", message.as_str());
        self.say(Msg::OutputWarning(message));
        self.log(line);
    }

    fn after_commit(&mut self, event: &WorkEvent<String>)
        requires
            old(self)@.wf(),
            old(self)@.stage == WorkStage::Commit,
            old(self)@.failed + old(self)@.ok < usize::MAX,
        ensures
            final(self)@ == old(self)@.after_commit(event@),
            final(self)@.wf(),
    {
        self.quiet();
        match event {
            WorkEvent::Ready => self.finish(),
            WorkEvent::CommitFailed { committed, text } => {
                let message = glue("완료 처리 중 오류: ", text.as_str());
                if *committed {
                    self.count_failure();
                    self.warn(message);
                    self.finish();
                } else {
                    self.failed = self.failed + if self.ok > 1 {
                        self.ok
                    } else {
                        1
                    };
                    self.ok = 0;
                    self.completed = Vec::new();
                    self.notice = message;
                    self.stage = WorkStage::Recover;
                    assert(self@.completed =~= Seq::<PathView>::empty());
                }
            },
            _ => {},
        }
    }

    fn after_recover(&mut self, event: &WorkEvent<String>)
        requires
            old(self)@.wf(),
            old(self)@.stage == WorkStage::Recover,
        ensures
            final(self)@ == old(self)@.after_recover(event@),
            final(self)@.wf(),
    {
        self.quiet();
        match event {
            WorkEvent::Ready => {
                let text = glue(
                    self.notice.as_str(),
                    "\n이번 작업의 변경 사항을 되돌렸습니다.",
                );
                self.warn(text);
                self.finish();
            },
            WorkEvent::Failed(error) => {
                let text = glue3(self.notice.as_str(), "\n복구 중 오류: ", error.as_str());
                self.warn(text);
                self.finish();
            },
            _ => {},
        }
    }

    fn finish(&mut self)
        ensures
            final(self)@ == old(self)@.finish(),
            final(self)@.wf(),
    {
        let names = show_all(&self.completed, self.settings.separator.as_str());
        let ghost before = self@;
        let ghost all = texts(names@);
        if let Some(warning) = filename_warning(names.as_slice()) {
            let mut i: usize = 0;
            assert(before.outbox + name_lines(all.take(0)) =~= before.outbox);
            while i < names.len()
                invariant
                    i <= names@.len(),
                    all == texts(names@),
                    self@ == (WorkerView {
                        outbox: before.outbox + name_lines(all.take(i as int)),
                        ..before
                    }),
                decreases names@.len() - i,
            {
                assert(all.take(i + 1).drop_last() =~= all.take(i as int));
                assert(all.take(i + 1).last() == names@[i as int]@);
                let ascii = names[i].as_str().is_ascii();
                if !ascii {
                    self.log(glue("⚠ 비영문 이름: ", names[i].as_str()));
                    assert(self@.outbox =~= before.outbox + name_lines(all.take(i + 1)));
                }
                i = i + 1;
            }
            assert(all.take(i as int) =~= all);
            self.say(Msg::NameWarning(warning));
        }
        let (ok, failed) = (self.ok, self.failed);
        self.say(Msg::Finished { ok, failed });
        self.go(WorkStage::Over);
    }

    // -- all steps

    /// Whether more files can be counted.
    pub fn can_count(&self) -> (r: bool)
        ensures
            r == (self@.failed + self@.ok < usize::MAX),
    {
        self.ok < usize::MAX - self.failed
    }

    /// What is to be done, or nothing once the job is over.
    pub fn pending(&self) -> (r: Option<WorkAction<FilePath>>)
        requires
            self@.wf(),
        ensures
            match r {
                Some(action) => self@.stage != WorkStage::Over && action@ == self@.action(),
                None => self@.stage == WorkStage::Over,
            },
    {
        Some(
            match self.stage {
                WorkStage::Survey => match &self.settings.selected {
                    Some(selected) => WorkAction::ListFolder(selected.copy()),
                    None => WorkAction::Continue,
                },
                WorkStage::Scan => WorkAction::NextEntry,
                WorkStage::Tracks { at } => if self.needs_track(&self.files[at]) {
                    WorkAction::ReadTrack(self.source(&self.files[at]))
                } else {
                    WorkAction::Continue
                },
                WorkStage::Open { .. } => WorkAction::Open(self.settings.output.copy()),
                WorkStage::Convert { at } => WorkAction::Convert {
                    source: self.source(&self.plans[at].file),
                    destination: self.settings.output.below(&self.plans[at].result),
                    format: self.settings.format,
                },
                WorkStage::Defer { at } => WorkAction::Defer(self.source(&self.plans[at].file)),
                WorkStage::Arrange | WorkStage::Rearrange => WorkAction::Arrange,
                WorkStage::Claim => WorkAction::Claim,
                WorkStage::Rollback | WorkStage::Recover => WorkAction::Rollback,
                WorkStage::Keep => WorkAction::Keep,
                WorkStage::Commit => WorkAction::Commit,
                WorkStage::Over => {
                    return None;
                },
            },
        )
    }

    /// The files that arranging is about.
    pub fn targets(&self) -> (r: Vec<FilePath>)
        ensures
            paths(r@) == self@.targets(),
    {
        if self.stage == WorkStage::Rearrange {
            crate::output_order::copy_paths(self.restored.as_slice())
        } else {
            all_destinations(&self.settings.output, &self.completed)
        }
    }

    /// Takes the next step, once something was done or failed. `cancelled` tells whether the user
    /// has cancelled by now.
    pub fn resume(&mut self, event: &WorkEvent<String>, cancelled: bool)
        requires
            old(self)@.wf(),
            old(self)@.failed + old(self)@.ok < usize::MAX,
        ensures
            final(self)@ == old(self)@.step(event@, cancelled),
            final(self)@.wf(),
    {
        match self.stage {
            WorkStage::Survey => {
                self.quiet();
                if let WorkEvent::Failed(text) = event {
                    self.log(glue("⚠ 기존 출력 확인 실패: ", text.as_str()));
                }
                self.go(WorkStage::Scan);
            },
            WorkStage::Scan => {
                self.quiet();
                match event {
                    WorkEvent::End => self.end_scan(cancelled),
                    WorkEvent::Failed(text) => if cancelled {
                        self.end_scan(cancelled);
                    } else {
                        self.count_failure();
                        self.log(glue("⚠ 입력 탐색 실패: ", text.as_str()));
                    },
                    _ => {},
                }
            },
            WorkStage::Tracks { at } => self.after_track(at, event, cancelled),
            WorkStage::Open { at } => self.after_open(at, event, cancelled),
            WorkStage::Convert { at } => self.after_convert(at, event, cancelled),
            WorkStage::Defer { at } => {
                self.quiet();
                self.keep_result(at, cancelled);
            },
            WorkStage::Arrange => self.after_arrange(event),
            WorkStage::Claim => self.after_claim(event),
            WorkStage::Rollback => self.after_rollback(event),
            WorkStage::Rearrange => self.after_rearrange(event),
            WorkStage::Commit => self.after_commit(event),
            WorkStage::Recover => self.after_recover(event),
            WorkStage::Keep | WorkStage::Over => self.quiet(),
        }
    }
}

/// The line that shows how a folder is listed.
fn folder_text(folder: &FilePath, names: &Vec<String>, separator: &str) -> (r: String)
    ensures
        r@ == folder_line(folder@, texts(names@), separator@),
{
    let n = names.len();
    assert(n == texts(names@).len());
    let shown = if n > 12 {
        12
    } else {
        n
    };
    let mut line = glue4(
        "목록 ",
        folder.show(separator).as_str(),
        ": ",
        join(names, shown, " → ").as_str(),
    );
    if n > 12 {
        append(&mut line, " → …");
    }
    assert(line@ =~= folder_line(folder@, texts(names@), separator@));
    line
}

/// The paths that hold files.
fn pick_kept(all: &Vec<FilePath>, files: &Vec<bool>) -> (r: Vec<FilePath>)
    ensures
        paths(r@) == kept(paths(all@), files@),
{
    let ghost whole = paths(all@);
    let mut r: Vec<FilePath> = Vec::new();
    let mut i: usize = 0;
    assert(paths(r@) =~= Seq::<PathView>::empty());
    while i < all.len()
        invariant
            i <= all@.len(),
            whole == paths(all@),
            paths(r@) == kept(whole.take(i as int), files@),
        decreases all@.len() - i,
    {
        let ghost before = r@;
        assert(whole.take(i + 1).drop_last() =~= whole.take(i as int));
        assert(whole.take(i + 1).last() == all@[i as int]@);
        if i < files.len() && files[i] {
            r.push(all[i].copy());
            assert(paths(r@) =~= paths(before).push(all@[i as int]@));
        }
        i = i + 1;
    }
    assert(whole.take(i as int) =~= whole);
    r
}

/// The texts of paths.
fn show_all(all: &Vec<FilePath>, separator: &str) -> (r: Vec<String>)
    ensures
        texts(r@) == shown_all(paths(all@), separator@),
{
    let mut r: Vec<String> = Vec::new();
    let mut i: usize = 0;
    while i < all.len()
        invariant
            i <= all@.len(),
            r@.len() == i,
            forall|k: int| 0 <= k < i ==> (#[trigger] r@[k])@ == all@[k]@.shown(separator@),
        decreases all@.len() - i,
    {
        r.push(all[i].show(separator));
        i = i + 1;
    }
    assert(texts(r@) =~= shown_all(paths(all@), separator@));
    r
}

// ---------------------------------------------------------------------------
// Laws
// ---------------------------------------------------------------------------

/// A file, or a part of the input folder, that could not be read or converted is counted as a
/// failure, and never as a result.
pub proof fn failures_are_counted(v: WorkerView, event: WorkEvent<Seq<char>>, cancelled: bool)
    requires
        v.wf(),
        match v.stage {
            WorkStage::Scan => event is Failed && !cancelled,
            WorkStage::Open { .. } | WorkStage::Convert { .. } => event is Failed || event
                is Panicked,
            _ => false,
        },
    ensures
        v.step(event, cancelled).failed == v.failed + 1,
        v.step(event, cancelled).ok == v.ok,
        v.step(event, cancelled).completed == v.completed,
{
    match v.stage {
        WorkStage::Open { at } => lemma_skipped(v.quiet(), at, event, cancelled),
        WorkStage::Convert { at } => lemma_skipped(v.quiet(), at, event, cancelled),
        _ => {},
    }
}

proof fn lemma_skipped(v: WorkerView, at: usize, event: WorkEvent<Seq<char>>, cancelled: bool)
    requires
        event is Failed || event is Panicked,
    ensures
        v.skip_file(at, event, cancelled).failed == v.failed + 1,
        v.skip_file(at, event, cancelled).ok == v.ok,
        v.skip_file(at, event, cancelled).completed == v.completed,
{
}

/// As long as files are converted, the results that were made are those that count.
pub open spec fn results_count(v: WorkerView) -> bool {
    v.ok == v.completed.len()
}

/// Each result counts once, whatever happens.
pub proof fn each_result_counts_once(v: WorkerView, event: WorkEvent<Seq<char>>, cancelled: bool)
    requires
        results_count(v),
        v.wf(),
    ensures
        results_count(v.step(event, cancelled)),
{
    let q = v.quiet();
    match v.stage {
        WorkStage::Scan => {
            assert(results_count(q.end_scan(cancelled)));
        },
        WorkStage::Tracks { at } => {
            assert(results_count(v.after_track(at, event, cancelled)));
        },
        WorkStage::Open { at } => {
            assert(results_count(q.skip_file(at, event, cancelled)));
            assert(results_count(v.after_open(at, event, cancelled)));
        },
        WorkStage::Convert { at } => {
            assert(results_count(q.skip_file(at, event, cancelled)));
            assert(results_count(q.keep_result(at, cancelled)));
            assert(results_count(v.after_convert(at, event, cancelled)));
        },
        WorkStage::Defer { at } => {
            assert(results_count(q.keep_result(at, cancelled)));
        },
        WorkStage::Claim => {
            assert(results_count(q.finish()));
            assert(results_count(v.after_claim(event)));
        },
        WorkStage::Commit => {
            assert(results_count(v.after_commit(event)));
        },
        WorkStage::Recover => {
            assert(results_count(v.after_recover(event)));
        },
        WorkStage::Rollback => {
            assert(results_count(v.after_rollback(event)));
        },
        _ => {},
    }
}

/// A plan is for a file that was found, and its result is named after that file.
pub open spec fn is_plan(settings: SettingsView, files: Seq<PathView>, plan: PlanView) -> bool {
    &&& files.contains(plan.file)
    &&& exists|track: Option<u32>|
        plan.result == #[trigger] numbered_path_of(plan.file, settings.remove_artist, track)
}

/// All plans are for files that were found.
pub open spec fn plans_are_sound(v: WorkerView) -> bool {
    forall|i: int| 0 <= i < v.plans.len() ==> is_plan(v.settings, v.files, #[trigger] v.plans[i])
}

/// Sorting keeps every plan.
pub proof fn lemma_sorted_plans(all: Seq<PlanView>, separator: Seq<char>)
    ensures
        sorted_plans(all, separator).len() == all.len(),
        forall|plan: PlanView| #[trigger]
            sorted_plans(all, separator).contains(plan) <==> all.contains(plan),
{
    broadcast use group_to_multiset_ensures;

    plans_are_kept_and_ordered(all, separator);
    let sorted = sorted_plans(all, separator);
    assert(sorted.to_multiset().len() == all.to_multiset().len());
    assert forall|plan: PlanView| #[trigger] sorted.contains(plan) <==> all.contains(plan) by {
        assert(sorted.to_multiset().count(plan) == all.to_multiset().count(plan));
    }
}

proof fn lemma_next_track(v: WorkerView, at: int, cancelled: bool)
    requires
        plans_are_sound(v),
    ensures
        plans_are_sound(v.next_track(at, cancelled)),
{
    if cancelled || at >= v.files.len() {
        let sorted = sorted_plans(v.plans, v.settings.separator);
        lemma_sorted_plans(v.plans, v.settings.separator);
        let w = WorkerView { plans: sorted, ..v };
        assert forall|i: int| 0 <= i < sorted.len() implies is_plan(
            v.settings,
            v.files,
            #[trigger] sorted[i],
        ) by {
            assert(sorted.contains(sorted[i]));
            let k = choose|k: int| 0 <= k < v.plans.len() && v.plans[k] == sorted[i];
            assert(is_plan(v.settings, v.files, v.plans[k]));
        }
        assert(plans_are_sound(w));
        let n = w.next_file(0, cancelled);
        assert(n.plans == w.plans && n.files == w.files && n.settings == w.settings);
    }
}

/// The tree of folders is kept: the result of a file goes to the output folder, into the folder
/// that the file has below the input folder, as a WAV file in the format that the user picked.
pub proof fn the_folder_tree_is_kept(v: WorkerView, event: WorkEvent<Seq<char>>, cancelled: bool)
    requires
        v.wf(),
        plans_are_sound(v),
    ensures
        plans_are_sound(v.step(event, cancelled)),
        v.stage matches WorkStage::Convert { at } ==> {
            let file = v.plans[at as int].file;
            &&& v.action() matches WorkAction::Convert { source, destination, format }
            &&& format == v.settings.format
            &&& v.files.contains(file)
            &&& source == v.settings.input.below(file.parts)
            &&& file_name(file) is Some ==> {
                &&& destination.root == v.settings.output.root
                &&& destination.parts.drop_last() == v.settings.output.parts
                    + file.parts.drop_last()
                &&& extension(destination.parts.last()) == Some("wav"@)
            }
        },
{
    let q = v.quiet();
    let w = v.step(event, cancelled);
    match v.stage {
        WorkStage::Scan => {
            lemma_next_track(q.say(Msg::Total(q.files.len() as usize)), 0, cancelled);
        },
        WorkStage::Tracks { at } => lemma_track_planned(v, at, event, cancelled),
        WorkStage::Convert { at } => {
            let plan = v.plans[at as int];
            let file = plan.file;
            assert(is_plan(v.settings, v.files, plan));
            let track = choose|track: Option<u32>|
                plan.result == #[trigger] numbered_path_of(
                    file,
                    v.settings.remove_artist,
                    track,
                );
            if file_name(file) is Some {
                results_stay_in_their_folder(file, v.settings.remove_artist, track);
                let destination = v.settings.output.below(plan.result.parts);
                assert(destination.parts.last() == plan.result.parts.last());
                assert(destination.parts.drop_last() =~= v.settings.output.parts
                    + plan.result.parts.drop_last());
            }
            assert(w == v.after_convert(at, event, cancelled));
            assert(w.plans == v.plans && w.files == v.files && w.settings == v.settings);
        },
        WorkStage::Open { at } => {
            assert(w == v.after_open(at, event, cancelled));
            assert(w.plans == v.plans && w.files == v.files && w.settings == v.settings);
        },
        WorkStage::Defer { at } => {
            assert(w.plans == v.plans && w.files == v.files && w.settings == v.settings);
        },
        _ => {
            assert(w.plans == v.plans && w.files == v.files && w.settings == v.settings);
        },
    }
}

/// The job once a track number is known, before the next file is turned to.
pub open spec fn with_track(v: WorkerView, at: usize, w: WorkerView) -> bool {
    &&& w.settings == v.settings
    &&& w.files == v.files
    &&& w.plans.len() == v.plans.len() + 1
    &&& w.plans.drop_last() == v.plans
    &&& w.plans.last().file == v.files[at as int]
    &&& is_plan(v.settings, v.files, w.plans.last())
}

pub proof fn lemma_track_planned(
    v: WorkerView,
    at: usize,
    event: WorkEvent<Seq<char>>,
    cancelled: bool,
)
    requires
        v.stage == (WorkStage::Tracks { at }),
        v.wf(),
    ensures
        exists|w: WorkerView| #[trigger]
            with_track(v, at, w) && v.step(event, cancelled) == w.next_track(
                at + 1,
                cancelled,
            ),
        plans_are_sound(v) ==> plans_are_sound(v.step(event, cancelled)),
{
    let file = v.files[at as int];
    let q = v.quiet();
    let track = match event {
        WorkEvent::Track(n) if v.needs_track(file) => Some(n),
        _ => None,
    };
    let reason = match event {
        WorkEvent::Failed(text) => text,
        WorkEvent::Panicked => "메타데이터 내부 오류"@,
        _ => "트랙 번호 태그 없음"@,
    };
    let told = if track is Some || !v.needs_track(file) {
        q
    } else {
        q.log("⚠ 번호를 붙이지 않음: "@ + v.show(v.source(file)) + " — "@ + reason)
    };
    let plan = PlanView {
        file,
        result: numbered_path_of(file, v.settings.remove_artist, track),
    };
    let w = WorkerView { plans: v.plans.push(plan), ..told };
    assert(v.step(event, cancelled) == w.next_track(at + 1, cancelled));
    assert(w.plans.drop_last() =~= v.plans);
    assert(is_plan(v.settings, v.files, plan)) by {
        assert(plan.result == numbered_path_of(plan.file, v.settings.remove_artist, track));
    }
    assert(with_track(v, at, w));
    if plans_are_sound(v) {
        assert(plans_are_sound(w));
        lemma_next_track(w, at + 1, cancelled);
    }
}

/// The files up to the one whose track number is read have their plans.
pub open spec fn planned_so_far(v: WorkerView) -> bool {
    &&& v.stage matches WorkStage::Tracks { at }
    &&& v.plans.len() == at
    &&& forall|i: int| 0 <= i < at ==> (#[trigger] v.plans[i]).file == v.files[i]
}

/// Every file that was found has its plan.
pub open spec fn all_planned(v: WorkerView) -> bool {
    &&& v.plans.len() == v.files.len()
    &&& forall|k: int|
        0 <= k < v.files.len() ==> exists|i: int|
            0 <= i < v.plans.len() && (#[trigger] v.plans[i]).file == #[trigger] v.files[k]
}

/// Unless the user cancels, no file that was found is left out: planning goes on until every one
/// of them has its plan, and only then the first is converted.
pub proof fn every_file_found_is_planned(v: WorkerView, event: WorkEvent<Seq<char>>)
    requires
        v.wf(),
        v.files.len() <= usize::MAX,
        v.stage == WorkStage::Scan && v.plans.len() == 0 && event is End || planned_so_far(v),
    ensures
        ({
            let w = v.step(event, false);
            &&& w.files == v.files
            &&& if w.stage is Tracks {
                planned_so_far(w)
            } else {
                all_planned(w)
            }
        }),
{
    if v.stage == WorkStage::Scan {
        lemma_planning(v.quiet().say(Msg::Total(v.files.len() as usize)), 0);
    } else {
        let at = v.stage->Tracks_at;
        lemma_track_planned(v, at, event, false);
        let w = choose|w: WorkerView| #[trigger]
            with_track(v, at, w) && v.step(event, false) == w.next_track(at + 1, false);
        assert forall|i: int| 0 <= i < at + 1 implies (#[trigger] w.plans[i]).file == w.files[i] by {
            if i < at {
                assert(w.plans[i] == w.plans.drop_last()[i]);
                assert(v.plans[i].file == v.files[i]);
            }
        }
        lemma_planning(w, at + 1);
    }
}

proof fn lemma_planning(w: WorkerView, at: int)
    requires
        0 <= at <= w.files.len(),
        w.files.len() <= usize::MAX,
        w.plans.len() == at,
        forall|i: int| 0 <= i < at ==> (#[trigger] w.plans[i]).file == w.files[i],
    ensures
        w.next_track(at, false).files == w.files,
        w.next_track(at, false).stage is Tracks ==> planned_so_far(w.next_track(at, false)),
        !(w.next_track(at, false).stage is Tracks) ==> all_planned(w.next_track(at, false)),
{
    if at >= w.files.len() {
        let sorted = sorted_plans(w.plans, w.settings.separator);
        lemma_sorted_plans(w.plans, w.settings.separator);
        let n = WorkerView { plans: sorted, ..w }.next_file(0, false);
        assert(n.plans == sorted && n.files == w.files);
        assert(!(n.stage is Tracks));
        assert forall|k: int| 0 <= k < w.files.len() implies exists|i: int|
            0 <= i < sorted.len() && (#[trigger] sorted[i]).file == #[trigger] w.files[k] by {
            assert(w.plans[k].file == w.files[k]);
            assert(w.plans.contains(w.plans[k]));
            assert(sorted.contains(w.plans[k]));
            let i = choose|i: int| 0 <= i < sorted.len() && sorted[i] == w.plans[k];
            assert(sorted[i].file == w.files[k]);
        }
    }
}

/// Results are made final only where the user has not cancelled before, and only after all files
/// were dealt with.
pub proof fn only_a_granted_job_commits(v: WorkerView, event: WorkEvent<Seq<char>>, cancelled: bool)
    requires
        v.wf(),
        v.stage != WorkStage::Commit,
        v.step(event, cancelled).stage == WorkStage::Commit,
    ensures
        v.stage == WorkStage::Claim,
        event == WorkEvent::<Seq<char>>::Granted(true),
{
    match v.stage {
        WorkStage::Scan => assert(v.step(event, cancelled).stage != WorkStage::Commit),
        WorkStage::Tracks { at } => assert(v.after_track(at, event, cancelled).stage
            != WorkStage::Commit),
        WorkStage::Open { at } => assert(v.after_open(at, event, cancelled).stage
            != WorkStage::Commit),
        WorkStage::Convert { at } => assert(v.after_convert(at, event, cancelled).stage
            != WorkStage::Commit),
        WorkStage::Defer { at } => assert(v.quiet().keep_result(at, cancelled).stage
            != WorkStage::Commit),
        WorkStage::Recover => assert(v.after_recover(event).stage != WorkStage::Commit),
        WorkStage::Rollback => assert(v.after_rollback(event).stage != WorkStage::Commit),
        _ => {},
    }
}

/// A job whose results may not be made final is taken back, where there is anything to take back,
/// before the user is told that it was cancelled.
pub proof fn a_cancelled_job_is_taken_back(v: WorkerView)
    requires
        v.stage == WorkStage::Claim,
        v.opened,
    ensures
        v.step(WorkEvent::Granted(false), true).action() is Rollback,
        v.step(WorkEvent::Granted(false), true).outbox.len() == 0,
{
}

/// A job that could not be committed is taken back, and none of its results counts.
pub proof fn an_uncommitted_job_has_no_results(v: WorkerView, text: Seq<char>)
    requires
        v.stage == WorkStage::Commit,
    ensures
        ({
            let w = v.step(WorkEvent::CommitFailed { committed: false, text }, false);
            &&& w.action() is Rollback
            &&& w.ok == 0
            &&& w.completed.len() == 0
            &&& w.failed > v.failed
        }),
{
}

/// A source is noted for removal only where sources are to be replaced, and only once its result
/// was made.
pub proof fn only_replaced_sources_are_removed(
    v: WorkerView,
    event: WorkEvent<Seq<char>>,
    cancelled: bool,
)
    requires
        v.wf(),
        !(v.stage is Defer),
        v.step(event, cancelled).stage is Defer,
    ensures
        v.settings.in_place,
        v.stage is Convert,
        event is Ready,
{
    match v.stage {
        WorkStage::Scan => assert(!(v.step(event, cancelled).stage is Defer)),
        WorkStage::Tracks { at } => assert(!(v.after_track(at, event, cancelled).stage is Defer)),
        WorkStage::Open { at } => assert(!(v.after_open(at, event, cancelled).stage is Defer)),
        WorkStage::Convert { at } => {
            assert(!(v.quiet().skip_file(at, event, cancelled).stage is Defer) || v.stage is Defer);
        },
        WorkStage::Recover => assert(!(v.after_recover(event).stage is Defer)),
        WorkStage::Rollback => assert(!(v.after_rollback(event).stage is Defer)),
        _ => {},
    }
}

} // verus!
