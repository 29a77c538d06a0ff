//! What the window holds and shows.
use crate::control::Phase;
use crate::convert::OutputFormat;
use crate::notification::{completion_message, completion_text};
use crate::output_order::{effective_folder, effective_output_dir};
use crate::path::{FilePath, PathView};
use crate::text::{append, count_text, decimal, glue, glue3, glue4, texts};
use crate::worker::{maybe, JobSettings, Msg, SettingsView};
use std::collections::VecDeque;
use vstd::prelude::*;

verus! {

/// How many lines of the log are kept.
pub const MAX_UI_LOGS: usize = 1000;

/// The two boxes for folders.
#[derive(Debug, Clone, Copy, PartialEq, Eq, Structural)]
pub enum Zone {
    Input,
    Output,
}

/// A job under way, as the window shows it.
#[derive(Debug)]
pub struct Job {
    pub total: usize,
    pub done: usize,
    pub current: String,
    pub order_error: Option<String>,
}

#[verifier::ext_equal]
pub struct JobView {
    pub total: usize,
    pub done: usize,
    pub current: Seq<char>,
    pub order_error: Option<Seq<char>>,
}

impl View for Job {
    type V = JobView;

    open spec fn view(&self) -> JobView {
        JobView {
            total: self.total,
            done: self.done,
            current: self.current@,
            order_error: maybe(self.order_error),
        }
    }
}

/// The state of the window.
#[derive(Debug)]
pub struct App {
    pub input_dir: Option<FilePath>,
    pub output_dir: Option<FilePath>,
    pub format: OutputFormat,
    /// Sources are replaced by their results.
    pub same_as_input: bool,
    pub remove_artist: bool,
    pub disable_track_prefix: bool,
    pub disable_ordering: bool,
    pub filename_warning: Option<String>,
    pub output_warning: Option<String>,
    pub job: Option<Job>,
    pub log: VecDeque<String>,
    pub summary: Option<String>,
    pub close_when_finished: bool,
    /// The box that a dropped folder goes to where the place of the drop is not known.
    pub drop_target: Zone,
}

#[verifier::ext_equal]
pub struct AppView {
    pub input_dir: Option<PathView>,
    pub output_dir: Option<PathView>,
    pub format: OutputFormat,
    pub same_as_input: bool,
    pub remove_artist: bool,
    pub disable_track_prefix: bool,
    pub disable_ordering: bool,
    pub filename_warning: Option<Seq<char>>,
    pub output_warning: Option<Seq<char>>,
    pub job: Option<JobView>,
    pub log: Seq<Seq<char>>,
    pub summary: Option<Seq<char>>,
    pub close_when_finished: bool,
    pub drop_target: Zone,
}

/// What an optional path says.
pub open spec fn place(p: Option<FilePath>) -> Option<PathView> {
    match p {
        Some(p) => Some(p@),
        None => None,
    }
}

impl View for App {
    type V = AppView;

    open spec fn view(&self) -> AppView {
        AppView {
            input_dir: place(self.input_dir),
            output_dir: place(self.output_dir),
            format: self.format,
            same_as_input: self.same_as_input,
            remove_artist: self.remove_artist,
            disable_track_prefix: self.disable_track_prefix,
            disable_ordering: self.disable_ordering,
            filename_warning: maybe(self.filename_warning),
            output_warning: maybe(self.output_warning),
            job: match self.job {
                Some(job) => Some(job@),
                None => None,
            },
            log: texts(self.log@),
            summary: maybe(self.summary),
            close_when_finished: self.close_when_finished,
            drop_target: self.drop_target,
        }
    }
}

/// The last lines of a log.
pub open spec fn recent(log: Seq<Seq<char>>) -> Seq<Seq<char>> {
    if log.len() > 1000 {
        log.skip(log.len() - 1000)
    } else {
        log
    }
}

/// What a job that went through came to.
pub open spec fn outcome_text(ok: nat, failed: nat, order_error: Option<Seq<char>>) -> Seq<char> {
    match order_error {
        Some(error) => "변환 성공 "@ + decimal(ok) + "개, 실패 "@ + decimal(failed)
            + "개 · 순서 정리 실패: "@ + error,
        None => if ok == 0 && failed == 0 {
            "변환할 음원이 없습니다."@
        } else if failed == 0 {
            "✅ 완료 — 성공 "@ + decimal(ok) + "개, 실패 "@ + decimal(failed) + "개"@
        } else {
            "⚠ 일부 변환 실패 — 성공 "@ + decimal(ok) + "개, 실패 "@ + decimal(failed) + "개"@
        },
    }
}

impl AppView {
    pub open spec fn note(self, line: Seq<char>) -> AppView {
        AppView { log: recent(self.log.push(line)), ..self }
    }

    /// A job went through.
    pub open spec fn finished(self, ok: usize, failed: usize) -> AppView {
        let order_error = self.job->0.order_error;
        let summary = outcome_text(ok as nat, failed as nat, order_error);
        let flawed = failed > 0 || order_error is Some;
        let message = summary
            + "\n전체 작업이 성공한 상태가 아닙니다. 아래 파일별 오류 기록을 확인하세요."@;
        AppView {
            summary: Some(summary),
            close_when_finished: self.close_when_finished && !flawed,
            output_warning: if flawed {
                match self.output_warning {
                    Some(previous) => Some(message + "\n\n"@ + previous),
                    None => Some(message),
                }
            } else {
                self.output_warning
            },
            job: None,
            ..self
        }.note(
            "── 작업 완료: 성공 "@ + decimal(ok as nat) + ", 실패 "@ + decimal(failed as nat)
                + " ──"@,
        )
    }

    /// The notice for the desktop that a job has ended.
    pub open spec fn notice(self, ok: usize, failed: usize) -> Seq<char> {
        let text = completion_text(
            ok as nat,
            failed as nat,
            self.job->0.order_error is Some,
            self.filename_warning is Some,
        );
        if self.finished(ok, failed).output_warning is Some {
            text + "\n작업 결과 경고가 있습니다. 프로그램을 확인해 주세요."@
        } else {
            text
        }
    }

    /// A job was cancelled.
    pub open spec fn cancelled(self, cleanup_error: Option<Seq<char>>) -> AppView {
        let summary = match cleanup_error {
            Some(error) => "⚠ 취소 정리 실패: "@ + error,
            None => "취소 완료 — 이번 작업의 결과물을 정리하고 기존 파일을 복구했습니다."@,
        };
        AppView {
            filename_warning: None,
            output_warning: match cleanup_error {
                Some(error) => Some(
                    "취소 과정에서 오류가 발생했습니다.\n"@ + error
                        + "\n복구 폴더가 남았다면 내부 파일을 확인하세요."@,
                ),
                None => None,
            },
            // A failed recovery stays visible.
            close_when_finished: self.close_when_finished && cleanup_error is None,
            summary: Some(summary),
            job: None,
            ..self
        }.note(summary)
    }

    /// Only the last lines of the log are kept.
    pub open spec fn trimmed(self) -> AppView {
        AppView { log: recent(self.log), ..self }
    }

    /// A message of the job came in.
    pub open spec fn accept(self, msg: Msg<Seq<char>>) -> AppView {
        self.trimmed().took(msg)
    }

    pub open spec fn took(self, msg: Msg<Seq<char>>) -> AppView {
        match self.job {
            None => self,
            Some(job) => match msg {
                Msg::Total(total) => AppView { job: Some(JobView { total, ..job }), ..self },
                Msg::Progress { done, file } => AppView {
                    job: Some(JobView { done, current: file, ..job }),
                    ..self
                },
                Msg::Log(line) => self.note(line),
                Msg::Finished { ok, failed } => self.finished(ok, failed),
                Msg::Cancelled { cleanup_error } => self.cancelled(cleanup_error),
                Msg::OrderError(error) => AppView {
                    job: Some(JobView { order_error: Some(error), ..job }),
                    ..self
                }.note("⚠ 순서 정리 실패: "@ + error),
                Msg::NameWarning(text) => AppView { filename_warning: Some(text), ..self },
                Msg::OutputWarning(text) => AppView { output_warning: Some(text), ..self },
            },
        }
    }

    /// The job is gone without having ended.
    pub open spec fn interrupted(self) -> AppView {
        match self.job {
            None => self,
            Some(_) => AppView {
                close_when_finished: false,
                summary: Some(
                    "변환 작업이 예기치 않게 중단되었습니다. 오류 기록을 확인해주세요."@,
                ),
                job: None,
                ..self
            },
        }
    }

    /// The folder that a drop gives: the folder itself, or the folder of a file.
    pub open spec fn dropped_folder(dropped: Option<PathView>, is_folder: bool) -> Option<PathView> {
        match dropped {
            Some(p) => if is_folder {
                Some(p)
            } else if p.parts.len() > 0 {
                Some(p.prefix(p.parts.len() - 1))
            } else {
                None
            },
            None => None,
        }
    }

    /// Something was dropped on the window.
    pub open spec fn dropped(
        self,
        dropped: Option<PathView>,
        is_folder: bool,
        on_output: bool,
        on_input: bool,
    ) -> AppView {
        let target = if on_output {
            Zone::Output
        } else if on_input {
            Zone::Input
        } else {
            self.drop_target
        };
        match AppView::dropped_folder(dropped, is_folder) {
            Some(folder) if self.job is None => if target == Zone::Output && !self.same_as_input {
                AppView { output_dir: Some(folder), ..self }
            } else {
                AppView { input_dir: Some(folder), ..self }
            },
            _ => self,
        }
    }

    /// A job can begin.
    pub open spec fn can_start(self) -> bool {
        self.job is None && self.input_dir is Some && (self.same_as_input || self.output_dir
            is Some)
    }

    /// What a job that begins now is asked for.
    pub open spec fn settings(self, separator: Seq<char>) -> SettingsView {
        SettingsView {
            input: self.input_dir->0,
            output: if self.same_as_input {
                self.input_dir->0
            } else {
                effective_folder(self.output_dir->0, !self.disable_ordering)
            },
            selected: self.output_dir,
            format: self.format,
            in_place: self.same_as_input,
            remove_artist: self.remove_artist,
            use_track_number: !self.disable_track_prefix,
            arrange: !self.disable_ordering,
            separator,
        }
    }

    /// A job begins.
    pub open spec fn started(self, separator: Seq<char>, record: Seq<char>) -> AppView {
        let settings = self.settings(separator);
        AppView {
            log: seq![
                "입력: "@ + settings.input.shown(separator),
                if self.same_as_input {
                    "모드: 원본 대체 (in-place)"@
                } else {
                    "출력: "@ + settings.output.shown(separator)
                },
                "오류 기록: "@ + record,
            ],
            summary: None,
            filename_warning: None,
            output_warning: None,
            job: Some(
                JobView { total: 0, done: 0, current: Seq::empty(), order_error: None },
            ),
            ..self
        }
    }

    /// The user closes the window.
    pub open spec fn closing(self) -> AppView {
        if self.job is Some {
            AppView { close_when_finished: true, ..self }
        } else {
            self
        }
    }
}

impl Default for App {
    fn default() -> (r: App)
        ensures
            r@ == (AppView {
                input_dir: None,
                output_dir: None,
                format: OutputFormat::Preserve,
                same_as_input: false,
                remove_artist: false,
                disable_track_prefix: false,
                disable_ordering: false,
                filename_warning: None,
                output_warning: None,
                job: None,
                log: Seq::empty(),
                summary: None,
                close_when_finished: false,
                drop_target: Zone::Input,
            }),
    {
        let r = App {
            input_dir: None,
            output_dir: None,
            format: OutputFormat::Preserve,
            same_as_input: false,
            remove_artist: false,
            disable_track_prefix: false,
            disable_ordering: false,
            filename_warning: None,
            output_warning: None,
            job: None,
            log: VecDeque::new(),
            summary: None,
            close_when_finished: false,
            drop_target: Zone::Input,
        };
        assert(r@.log =~= Seq::<Seq<char>>::empty());
        r
    }
}

/// A copy of an optional path.
fn copy_place(p: &Option<FilePath>) -> (r: Option<FilePath>)
    ensures
        place(r) == place(*p),
{
    match p {
        Some(p) => Some(p.copy()),
        None => None,
    }
}

impl App {
    /// Forgets the oldest lines of the log where there are too many.
    fn trim(&mut self)
        ensures
            final(self)@ == old(self)@.trimmed(),
            final(self)@.log.len() <= 1000,
    {
        let ghost whole = self@.log;
        let ghost mut n: int = 0;
        assert(whole.skip(0) =~= whole);
        while self.log.len() > MAX_UI_LOGS
            invariant
                0 <= n <= whole.len(),
                self@ == (AppView { log: whole.skip(n), ..old(self)@ }),
                n > 0 ==> whole.len() - n >= 1000,
            decreases self.log@.len(),
        {
            let ghost full = self.log@;
            assert(texts(full).len() == full.len());
            let _ = self.log.pop_front();
            proof {
                n = n + 1;
                assert(self.log@ == full.skip(1));
                assert forall|k: int| 0 <= k < self.log@.len() implies (#[trigger] self.log@[k])@
                    == whole.skip(n)[k] by {
                    assert(texts(full)[k + 1] == full[k + 1]@);
                }
                assert(texts(self.log@) =~= whole.skip(n));
            }
        }
        assert(texts(self.log@).len() == self.log@.len());
    }

    /// Adds a line to the log and forgets the oldest where there are too many.
    fn note(&mut self, line: String)
        requires
            old(self)@.log.len() <= 1000,
        ensures
            final(self)@ == old(self)@.note(line@),
    {
        let ghost before = self.log@;
        self.log.push_back(line);
        assert(texts(self.log@) =~= texts(before).push(line@));
        if self.log.len() > MAX_UI_LOGS {
            let ghost full = self.log@;
            let _ = self.log.pop_front();
            assert(self.log@ == full.skip(1));
            assert(texts(self.log@) =~= texts(full).skip(1));
        }
    }

    /// What a job that went through came to.
    fn outcome_text(ok: usize, failed: usize, order_error: &Option<String>) -> (r: String)
        ensures
            r@ == outcome_text(ok as nat, failed as nat, maybe(*order_error)),
    {
        let (m, n) = (count_text(ok), count_text(failed));
        match order_error {
            Some(error) => {
                let front = glue4("변환 성공 ", m.as_str(), "개, 실패 ", n.as_str());
                glue3(front.as_str(), "개 · 순서 정리 실패: ", error.as_str())
            },
            None => if ok == 0 && failed == 0 {
                "변환할 음원이 없습니다.".to_owned()
            } else if failed == 0 {
                let front = glue4("✅ 완료 — 성공 ", m.as_str(), "개, 실패 ", n.as_str());
                glue(front.as_str(), "개")
            } else {
                let front = glue4("⚠ 일부 변환 실패 — 성공 ", m.as_str(), "개, 실패 ", n.as_str());
                glue(front.as_str(), "개")
            },
        }
    }

    /// A job went through. Returns the notice for the desktop.
    fn finished(&mut self, ok: usize, failed: usize) -> (r: String)
        requires
            old(self)@.job is Some,
            old(self)@.log.len() <= 1000,
        ensures
            final(self)@ == old(self)@.finished(ok, failed),
            r@ == old(self)@.notice(ok, failed),
    {
        let order_error = match &self.job {
            Some(job) => match &job.order_error {
                Some(error) => Some(error.clone()),
                None => None,
            },
            None => None,
        };
        let summary = App::outcome_text(ok, failed, &order_error);
        let flawed = failed > 0 || order_error.is_some();
        if flawed {
            self.close_when_finished = false;
            let mut message = glue(
                summary.as_str(),
                "\n전체 작업이 성공한 상태가 아닙니다. 아래 파일별 오류 기록을 확인하세요.",
            );
            if let Some(previous) = &self.output_warning {
                append(&mut message, "\n\n");
                append(&mut message, previous.as_str());
            }
            self.output_warning = Some(message);
        }
        let mut text = completion_message(
            ok,
            failed,
            order_error.is_some(),
            self.filename_warning.is_some(),
        );
        if self.output_warning.is_some() {
            append(&mut text, "\n작업 결과 경고가 있습니다. 프로그램을 확인해 주세요.");
        }
        self.summary = Some(summary);
        self.job = None;
        let front = glue4(
            "── 작업 완료: 성공 ",
            count_text(ok).as_str(),
            ", 실패 ",
            count_text(failed).as_str(),
        );
        self.note(glue(front.as_str(), " ──"));
        text
    }

    fn cancelled(&mut self, cleanup_error: Option<String>)
        requires
            old(self)@.log.len() <= 1000,
        ensures
            final(self)@ == old(self)@.cancelled(maybe(cleanup_error)),
    {
        self.filename_warning = None;
        let summary = match &cleanup_error {
            Some(error) => glue("⚠ 취소 정리 실패: ", error.as_str()),
            None => "취소 완료 — 이번 작업의 결과물을 정리하고 기존 파일을 복구했습니다.".to_owned(),
        };
        self.output_warning = match &cleanup_error {
            Some(error) => Some(
                glue3(
                    "취소 과정에서 오류가 발생했습니다.\n",
                    error.as_str(),
                    "\n복구 폴더가 남았다면 내부 파일을 확인하세요.",
                ),
            ),
            None => None,
        };
        if cleanup_error.is_some() {
            self.close_when_finished = false;
        }
        self.job = None;
        self.summary = Some(summary.clone());
        self.note(summary);
    }

    /// Takes in a message of the job. Returns the notice for the desktop where the job has ended.
    pub fn accept(&mut self, msg: Msg<String>) -> (r: Option<String>)
        ensures
            final(self)@ == old(self)@.accept(msg@),
            final(self)@.log.len() <= 1000,
            match r {
                Some(text) => {
                    &&& old(self)@.job is Some
                    &&& msg@ matches Msg::Finished { ok, failed }
                    &&& text@ == old(self)@.notice(ok, failed)
                },
                None => old(self)@.job is None || !(msg is Finished),
            },
    {
        self.trim();
        match &mut self.job {
            None => {
                return None;
            },
            Some(job) => match msg {
                Msg::Total(total) => {
                    job.total = total;
                    return None;
                },
                Msg::Progress { done, file } => {
                    job.done = done;
                    job.current = file;
                    return None;
                },
                Msg::OrderError(error) => {
                    let line = glue("⚠ 순서 정리 실패: ", error.as_str());
                    job.order_error = Some(error);
                    self.note(line);
                    return None;
                },
                Msg::Log(line) => {
                    self.note(line);
                    return None;
                },
                Msg::Finished { ok, failed } => {
                    return Some(self.finished(ok, failed));
                },
                Msg::Cancelled { cleanup_error } => {
                    self.cancelled(cleanup_error);
                    return None;
                },
                Msg::NameWarning(text) => {
                    self.filename_warning = Some(text);
                    return None;
                },
                Msg::OutputWarning(text) => {
                    self.output_warning = Some(text);
                    return None;
                },
            },
        }
    }

    /// The job is gone without having ended.
    pub fn interrupted(&mut self)
        ensures
            final(self)@ == old(self)@.interrupted(),
    {
        if self.job.is_some() {
            self.close_when_finished = false;
            self.summary =
            Some("변환 작업이 예기치 않게 중단되었습니다. 오류 기록을 확인해주세요.".to_owned());
            self.job = None;
        }
    }

    /// Something was dropped on the window: a folder, or a file that stands for its folder.
    pub fn handle_dropped_files(
        &mut self,
        dropped: Option<FilePath>,
        is_folder: bool,
        on_output: bool,
        on_input: bool,
    )
        ensures
            final(self)@ == old(self)@.dropped(place(dropped), is_folder, on_output, on_input),
    {
        if self.job.is_some() {
            return;
        }
        let folder = match dropped {
            Some(p) => {
                let n = p.parts.len();
                assert(n == p@.parts.len());
                if is_folder {
                    p
                } else if n > 0 {
                    p.prefix(n - 1)
                } else {
                    return;
                }
            },
            None => {
                return;
            },
        };
        let target = if on_output {
            Zone::Output
        } else if on_input {
            Zone::Input
        } else {
            self.drop_target
        };
        if target == Zone::Output && !self.same_as_input {
            self.output_dir = Some(folder);
        } else {
            self.input_dir = Some(folder);
        }
    }

    /// Whether a job can begin.
    pub fn can_start(&self) -> (r: bool)
        ensures
            r == self@.can_start(),
    {
        self.job.is_none() && self.input_dir.is_some() && (self.same_as_input
            || self.output_dir.is_some())
    }

    /// Where results are saved.
    fn output(&self) -> (r: FilePath)
        requires
            self@.can_start(),
        ensures
            r@ == self@.settings(Seq::empty()).output,
    {
        let chosen = if self.same_as_input {
            copy_place(&self.input_dir)
        } else {
            match &self.output_dir {
                Some(selected) => Some(effective_output_dir(selected, !self.disable_ordering)),
                None => None,
            }
        };
        chosen.unwrap()
    }

    /// Begins a job. `record` tells where errors are recorded.
    pub fn start_job(&mut self, separator: &str, record: &str) -> (r: JobSettings)
        requires
            old(self)@.can_start(),
        ensures
            final(self)@ == old(self)@.started(separator@, record@),
            r@ == old(self)@.settings(separator@),
    {
        let input = copy_place(&self.input_dir).unwrap();
        let settings = JobSettings {
            output: self.output(),
            input,
            selected: copy_place(&self.output_dir),
            format: self.format,
            in_place: self.same_as_input,
            remove_artist: self.remove_artist,
            use_track_number: !self.disable_track_prefix,
            arrange: !self.disable_ordering,
            separator: separator.to_owned(),
        };
        let first = glue("입력: ", settings.input.show(separator).as_str());
        let second = if self.same_as_input {
            "모드: 원본 대체 (in-place)".to_owned()
        } else {
            glue("출력: ", settings.output.show(separator).as_str())
        };
        let third = glue("오류 기록: ", record);
        let mut log: VecDeque<String> = VecDeque::new();
        log.push_back(first);
        log.push_back(second);
        log.push_back(third);
        self.log = log;
        self.summary = None;
        self.filename_warning = None;
        self.output_warning = None;
        self.job = Some(Job { total: 0, done: 0, current: String::new(), order_error: None });
        assert(self@.log =~= old(self)@.started(separator@, record@).log);
        settings
    }

    /// The user closes the window. Tells whether it has to stay open for a job, which is then to
    /// be cancelled.
    pub fn request_close(&mut self) -> (r: bool)
        ensures
            final(self)@ == old(self)@.closing(),
            r == old(self)@.job is Some,
    {
        if self.job.is_some() {
            self.close_when_finished = true;
            true
        } else {
            false
        }
    }

    /// Whether the window closes now.
    pub fn closes(&self) -> (r: bool)
        ensures
            r == (self@.close_when_finished && self@.job is None),
    {
        self.close_when_finished && self.job.is_none()
    }

    // -- what is shown

    /// Whether the box for the output folder can be used.
    pub fn output_enabled(&self) -> (r: bool)
        ensures
            r == (self@.job is None && !self@.same_as_input),
    {
        self.job.is_none() && !self.same_as_input
    }

    /// What the box for the output folder says while it is empty.
    pub fn output_hint(&self) -> (r: &'static str)
        ensures
            r@ == (if self@.same_as_input {
                "원본 대체 모드 — 출력 폴더 사용 안 함"@
            } else {
                "(폴더를 끌어다 놓거나 버튼으로 선택)"@
            }),
    {
        if self.same_as_input {
            "원본 대체 모드 — 출력 폴더 사용 안 함"
        } else {
            "(폴더를 끌어다 놓거나 버튼으로 선택)"
        }
    }

    /// The box that drops go to. Where sources are replaced there is only the input.
    pub fn settle_target(&mut self)
        ensures
            final(self)@ == (AppView {
                drop_target: if old(self)@.same_as_input {
                    Zone::Input
                } else {
                    old(self)@.drop_target
                },
                ..old(self)@
            }),
    {
        if self.same_as_input {
            self.drop_target = Zone::Input;
        }
    }

    /// Where results will be saved, where this is worth telling.
    pub fn saving_place(&self, separator: &str) -> (r: Option<String>)
        ensures
            match r {
                Some(text) => {
                    &&& !self@.same_as_input
                    &&& self@.output_dir matches Some(selected)
                    &&& text@ == "실제 저장 위치: "@ + effective_folder(
                        selected,
                        !self@.disable_ordering,
                    ).shown(separator@)
                },
                None => self@.same_as_input || self@.output_dir is None,
            },
    {
        if self.same_as_input {
            return None;
        }
        match &self.output_dir {
            Some(selected) => {
                let place = effective_output_dir(selected, !self.disable_ordering);
                Some(glue("실제 저장 위치: ", place.show(separator).as_str()))
            },
            None => None,
        }
    }

    /// How far the job has come, as `done / total`.
    pub fn progress_text(&self) -> (r: Option<String>)
        ensures
            match r {
                Some(text) => self@.job matches Some(job) && text@ == decimal(job.done as nat)
                    + " / "@ + decimal(job.total as nat),
                None => self@.job is None,
            },
    {
        match &self.job {
            Some(job) => Some(
                glue3(count_text(job.done).as_str(), " / ", count_text(job.total).as_str()),
            ),
            None => None,
        }
    }

    /// What the job is doing.
    pub fn status_text(&self, phase: Phase) -> (r: Option<String>)
        ensures
            match r {
                Some(text) => self@.job matches Some(job) && text@ == (match phase {
                    Phase::Cancelled => {
                        "취소 중… 이번 작업의 결과물을 정리하고 기존 파일을 복구합니다."@
                    },
                    Phase::Committing => "완료 처리 중…"@,
                    Phase::Cancellable => "변환 중: "@ + job.current,
                }),
                None => self@.job is None,
            },
    {
        match &self.job {
            Some(job) => Some(
                match phase {
                    Phase::Cancelled => {
                        "취소 중… 이번 작업의 결과물을 정리하고 기존 파일을 복구합니다.".to_owned()
                    },
                    Phase::Committing => "완료 처리 중…".to_owned(),
                    Phase::Cancellable => glue("변환 중: ", job.current.as_str()),
                },
            ),
            None => None,
        }
    }
}

// ---------------------------------------------------------------------------
// Laws
// ---------------------------------------------------------------------------

/// However many messages come in, the log stays bounded.
pub proof fn the_log_stays_bounded(v: AppView, msg: Msg<Seq<char>>)
    ensures
        v.accept(msg).log.len() <= 1000,
{
}

/// A job with failures, or one that could not be put into order, is not presented as a success:
/// there is a warning, and the window stays open to show it.
pub proof fn flawed_jobs_are_not_presented_as_success(v: AppView, ok: usize, failed: usize)
    requires
        v.job is Some,
        failed > 0 || v.job->0.order_error is Some,
    ensures
        v.finished(ok, failed).output_warning is Some,
        !v.finished(ok, failed).close_when_finished,
        v.finished(ok, failed).summary == Some(
            outcome_text(ok as nat, failed as nat, v.job->0.order_error),
        ),
{
}

/// A warning about names outlives the end of the job; only a cancellation takes it back.
pub proof fn name_warnings_outlive_the_job(v: AppView, ok: usize, failed: usize)
    ensures
        v.finished(ok, failed).filename_warning == v.filename_warning,
{
}

/// Of all the lines that came in, the last thousand stay, in the order in which they came.
pub proof fn the_last_lines_stay(v: AppView, line: Seq<char>)
    requires
        v.job is Some,
    ensures
        ({
            let all = v.log.push(line);
            let kept = v.accept(Msg::Log(line)).log;
            &&& all.len() <= 1000 ==> kept == all
            &&& all.len() > 1000 ==> kept.len() == 1000 && all == all.take(all.len() - 1000) + kept
        }),
        v.accept(Msg::Log(line)) == (AppView { log: v.accept(Msg::Log(line)).log, ..v }),
{
    let all = v.log.push(line);
    let kept = v.accept(Msg::Log(line)).log;
    if all.len() > 1000 {
        assert(kept =~= all.skip(all.len() - 1000));
        assert(all =~= all.take(all.len() - 1000) + kept);
    } else {
        assert(kept =~= all);
    }
}

/// The window shows what a job tells of itself: how many files there are, how many are done, and
/// which one is next. Nothing else changes.
pub proof fn progress_is_shown(v: AppView, total: usize, done: usize, file: Seq<char>)
    requires
        v.job is Some,
        v.log.len() <= 1000,
    ensures
        v.accept(Msg::Total(total)) == (AppView {
            job: Some(JobView { total, ..v.job->0 }),
            ..v
        }),
        v.accept(Msg::Progress { done, file }) == (AppView {
            job: Some(JobView { done, current: file, ..v.job->0 }),
            ..v
        }),
{
}

/// Warnings are shown as they come in, each in its own place. That the order could not be made is
/// noted in the log as well.
pub proof fn warnings_are_shown(v: AppView, text: Seq<char>)
    requires
        v.job is Some,
        v.log.len() < 1000,
    ensures
        v.accept(Msg::NameWarning(text)) == (AppView { filename_warning: Some(text), ..v }),
        v.accept(Msg::OutputWarning(text)) == (AppView { output_warning: Some(text), ..v }),
        v.accept(Msg::OrderError(text)) == (AppView {
            job: Some(JobView { order_error: Some(text), ..v.job->0 }),
            log: v.log.push("⚠ 순서 정리 실패: "@ + text),
            ..v
        }),
{
}

/// A job that has ended is over: the window says how many files were converted and how many were
/// not, in its summary and in the log. Where all went well no warning is added, and a window that
/// was to close still does.
pub proof fn ended_jobs_are_summed_up(v: AppView, ok: usize, failed: usize)
    requires
        v.job is Some,
        v.log.len() < 1000,
    ensures
        ({
            let w = v.accept(Msg::Finished { ok, failed });
            let counts = "성공 "@ + decimal(ok as nat) + "개, 실패 "@ + decimal(failed as nat) + "개"@;
            &&& w.job is None
            &&& w.log == v.log.push(
                "── 작업 완료: 성공 "@ + decimal(ok as nat) + ", 실패 "@ + decimal(failed as nat)
                    + " ──"@,
            )
            &&& v.job->0.order_error is None && ok == 0 && failed == 0 ==> w.summary == Some(
                "변환할 음원이 없습니다."@,
            )
            &&& v.job->0.order_error is None && failed == 0 ==> w.output_warning == v.output_warning
                && w.close_when_finished == v.close_when_finished
            &&& v.job->0.order_error is None && ok > 0 && failed == 0 ==> w.summary == Some(
                "✅ 완료 — "@ + counts,
            )
            &&& v.job->0.order_error is None && failed > 0 ==> w.summary == Some(
                "⚠ 일부 변환 실패 — "@ + counts,
            )
            &&& v.job->0.order_error matches Some(error) ==> w.summary == Some(
                "변환 "@ + counts + " · 순서 정리 실패: "@ + error,
            )
        }),
{
    reveal_strlit("✅ 완료 — 성공 ");
    reveal_strlit("✅ 완료 — ");
    reveal_strlit("⚠ 일부 변환 실패 — 성공 ");
    reveal_strlit("⚠ 일부 변환 실패 — ");
    reveal_strlit("변환 성공 ");
    reveal_strlit("변환 ");
    reveal_strlit("성공 ");
    reveal_strlit("개 · 순서 정리 실패: ");
    reveal_strlit(" · 순서 정리 실패: ");
    reveal_strlit("개");
    let (a, b) = (decimal(ok as nat), decimal(failed as nat));
    let counts = "성공 "@ + a + "개, 실패 "@ + b + "개"@;
    assert("✅ 완료 — 성공 "@ =~= "✅ 완료 — "@ + "성공 "@);
    assert("⚠ 일부 변환 실패 — 성공 "@ =~= "⚠ 일부 변환 실패 — "@ + "성공 "@);
    assert("변환 성공 "@ =~= "변환 "@ + "성공 "@);
    assert("개 · 순서 정리 실패: "@ =~= "개"@ + " · 순서 정리 실패: "@);
    assert("✅ 완료 — 성공 "@ + a + "개, 실패 "@ + b + "개"@ =~= "✅ 완료 — "@ + counts);
    assert("⚠ 일부 변환 실패 — 성공 "@ + a + "개, 실패 "@ + b + "개"@ =~= "⚠ 일부 변환 실패 — "@
        + counts);
    if let Some(error) = v.job->0.order_error {
        assert("변환 성공 "@ + a + "개, 실패 "@ + b + "개 · 순서 정리 실패: "@ + error =~= "변환 "@
            + counts + " · 순서 정리 실패: "@ + error);
    }
}

/// The warning of a flawed job begins with its summary; one that was there already follows.
pub proof fn earlier_warnings_are_kept(v: AppView, ok: usize, failed: usize)
    requires
        v.job is Some,
        failed > 0 || v.job->0.order_error is Some,
    ensures
        ({
            let w = v.accept(Msg::Finished { ok, failed });
            let message = w.summary->0
                + "\n전체 작업이 성공한 상태가 아닙니다. 아래 파일별 오류 기록을 확인하세요."@;
            &&& w.summary is Some && !w.close_when_finished
            &&& v.output_warning is None ==> w.output_warning == Some(message)
            &&& v.output_warning matches Some(previous) ==> w.output_warning == Some(
                message + "\n\n"@ + previous,
            )
        }),
{
}

/// A job that was cancelled is over, and its warnings are taken back. Where something could not be
/// put back the window says so, and stays open.
pub proof fn cancelled_jobs_are_summed_up(v: AppView, error: Seq<char>)
    requires
        v.job is Some,
        v.log.len() < 1000,
    ensures
        ({
            let clean = v.accept(Msg::Cancelled { cleanup_error: None });
            let flawed = v.accept(Msg::Cancelled { cleanup_error: Some(error) });
            &&& clean.job is None && flawed.job is None
            &&& clean.filename_warning is None && flawed.filename_warning is None
            &&& clean.output_warning is None
            &&& flawed.output_warning == Some(
                "취소 과정에서 오류가 발생했습니다.\n"@ + error
                    + "\n복구 폴더가 남았다면 내부 파일을 확인하세요."@,
            )
            &&& clean.summary == Some(
                "취소 완료 — 이번 작업의 결과물을 정리하고 기존 파일을 복구했습니다."@,
            )
            &&& flawed.summary == Some("⚠ 취소 정리 실패: "@ + error)
            &&& clean.log == v.log.push(clean.summary->0)
            &&& flawed.log == v.log.push(flawed.summary->0)
            &&& clean.close_when_finished == v.close_when_finished
            &&& !flawed.close_when_finished
        }),
{
}

/// What comes in where there is no job is passed over, and a job that is gone without a word leaves
/// the window open, with a summary that says so.
pub proof fn lost_jobs_are_reported(v: AppView, msg: Msg<Seq<char>>)
    requires
        v.log.len() <= 1000,
    ensures
        v.job is None ==> v.accept(msg) == v && v.interrupted() == v,
        v.job is Some ==> v.interrupted() == (AppView {
            job: None,
            close_when_finished: false,
            summary: Some("변환 작업이 예기치 않게 중단되었습니다. 오류 기록을 확인해주세요."@),
            ..v
        }),
{
}

/// A folder that is dropped goes to the box that it was dropped on, a file stands for the folder
/// that it lies in, and while a job is under way nothing changes. Where the boxes overlap the output
/// box counts. It takes nothing where sources are replaced: what is dropped there goes to the input.
pub proof fn drops_go_where_they_fall(v: AppView, p: PathView, name: Seq<char>)
    requires
        v.job is None,
    ensures
        v.dropped(Some(p), true, false, true) == (AppView { input_dir: Some(p), ..v }),
        v.dropped(Some(p.child(name)), false, false, true) == (AppView {
            input_dir: Some(p),
            ..v
        }),
        !v.same_as_input ==> v.dropped(Some(p), true, true, false) == (AppView {
            output_dir: Some(p),
            ..v
        }),
        v.same_as_input ==> v.dropped(Some(p), true, true, false) == (AppView {
            input_dir: Some(p),
            ..v
        }),
        v.drop_target == Zone::Input ==> v.dropped(Some(p), true, false, false) == v.dropped(
            Some(p),
            true,
            false,
            true,
        ),
        v.drop_target == Zone::Output ==> v.dropped(Some(p), true, false, false) == v.dropped(
            Some(p),
            true,
            true,
            false,
        ),
        v.dropped(Some(p), true, true, true) == v.dropped(Some(p), true, true, false),
        forall|is_folder: bool, on_output: bool, on_input: bool|
            v.dropped(None, is_folder, on_output, on_input) == v,
        p.parts.len() == 0 ==> forall|on_output: bool, on_input: bool|
            v.dropped(Some(p), false, on_output, on_input) == v,
        forall|is_folder: bool, on_output: bool, on_input: bool, job: JobView|
            (AppView { job: Some(job), ..v }).dropped(
                Some(p),
                is_folder,
                on_output,
                on_input,
            ) == (AppView { job: Some(job), ..v }),
{
    let below = p.child(name);
    assert(below.prefix(below.parts.len() - 1) =~= p);
}

/// A job can begin where none is under way, once the folder of the sources is chosen and, unless
/// they are replaced, that of the results.
pub proof fn jobs_begin_with_their_folders(v: AppView)
    ensures
        v.job is Some ==> !v.can_start(),
        v.input_dir is None ==> !v.can_start(),
        !v.same_as_input && v.output_dir is None ==> !v.can_start(),
        v.job is None && v.input_dir is Some && v.same_as_input ==> v.can_start(),
        v.job is None && v.input_dir is Some && v.output_dir is Some ==> v.can_start(),
{
}

/// A job is asked for what the window shows: the sources of the input folder, results in its place
/// or in the output folder, and the switches as they stand. The two that switch something off are
/// turned round.
pub proof fn jobs_do_what_the_window_shows(v: AppView, separator: Seq<char>)
    requires
        v.can_start(),
    ensures
        ({
            let s = v.settings(separator);
            &&& s.input == v.input_dir->0
            &&& v.same_as_input ==> s.output == s.input
            &&& !v.same_as_input && v.disable_ordering ==> s.output == v.output_dir->0
            &&& !v.same_as_input && !v.disable_ordering ==> s.output == effective_folder(
                v.output_dir->0,
                true,
            )
            &&& s.selected == v.output_dir
            &&& s.format == v.format
            &&& s.in_place == v.same_as_input
            &&& s.remove_artist == v.remove_artist
            &&& s.use_track_number != v.disable_track_prefix
            &&& s.arrange != v.disable_ordering
            &&& s.separator == separator
        }),
{
}

/// A job that begins starts from nothing: no file is counted yet, the warnings and the summary of
/// an earlier job are gone, and the log says what was asked for. The choices of the user stay.
pub proof fn jobs_start_from_nothing(v: AppView, separator: Seq<char>, record: Seq<char>)
    requires
        v.can_start(),
    ensures
        ({
            let w = v.started(separator, record);
            let s = v.settings(separator);
            &&& w.job == Some(
                JobView { total: 0, done: 0, current: Seq::empty(), order_error: None },
            )
            &&& w.summary is None && w.filename_warning is None && w.output_warning is None
            &&& w.log.len() == 3
            &&& w.log[0] == "입력: "@ + s.input.shown(separator)
            &&& v.same_as_input ==> w.log[1] == "모드: 원본 대체 (in-place)"@
            &&& !v.same_as_input ==> w.log[1] == "출력: "@ + s.output.shown(separator)
            &&& w.log[2] == "오류 기록: "@ + record
            &&& w.settings(separator) == s
            &&& w.close_when_finished == v.close_when_finished
            &&& w.drop_target == v.drop_target
        }),
{
}

/// A window that is closed while a job is under way waits for the job, and otherwise changes
/// nothing.
pub proof fn closing_waits_for_the_job(v: AppView)
    ensures
        v.job is Some ==> v.closing() == (AppView { close_when_finished: true, ..v }),
        v.job is None ==> v.closing() == v,
{
}

/// The notice of a job that has ended gives both counts, and a line for each thing to look at.
pub proof fn notices_say_what_to_look_at(v: AppView, ok: usize, failed: usize)
    requires
        v.job is Some,
    ensures
        ({
            let counts = "변환 성공 "@ + decimal(ok as nat) + "개 · 실패 "@ + decimal(
                failed as nat,
            ) + "개"@;
            let order = "\n순서 정리에 실패했습니다. 프로그램 로그를 확인해 주세요."@;
            let names = "\n비영문 파일명 경고가 있습니다. 프로그램을 확인해 주세요."@;
            let warned = "\n작업 결과 경고가 있습니다. 프로그램을 확인해 주세요."@;
            let none = Seq::<char>::empty();
            v.notice(ok, failed) == counts + (if v.job->0.order_error is Some {
                order
            } else {
                none
            }) + (if v.filename_warning is Some {
                names
            } else {
                none
            }) + (if failed > 0 || v.job->0.order_error is Some || v.output_warning is Some {
                warned
            } else {
                none
            })
        }),
{
    let text = completion_text(
        ok as nat,
        failed as nat,
        v.job->0.order_error is Some,
        v.filename_warning is Some,
    );
    assert(text + Seq::<char>::empty() =~= text);
}

} // verus!
