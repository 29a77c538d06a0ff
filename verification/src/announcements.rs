//! What a job says, and when.
use crate::naming::warning_about;
use crate::path::PathView;
use crate::plan::{music_names, Neighbour};
use crate::text::{decimal, joined};
use crate::worker::{
    destinations, folder_line, folder_lines, kept, name_lines, shown_all, Msg, SettingsView,
    WorkAction, WorkEvent, WorkStage, WorkerView,
};
use vstd::prelude::*;
use vstd::utf8::is_ascii_chars;

verus! {

/// Results below another folder than the one that the user selected: that folder is looked at
/// first. Otherwise the search for files begins at once.
pub proof fn the_selected_folder_is_looked_at(settings: SettingsView)
    ensures
        ({
            let v = WorkerView::start(settings);
            &&& v.settings == settings && v.ok == 0 && v.failed == 0 && !v.opened
            &&& v.files.len() == 0 && v.plans.len() == 0 && v.completed.len() == 0
            &&& v.ordering_error is None && v.cleanup_error is None && v.outbox.len() == 0
            &&& settings.in_place ==> v.action() is NextEntry
            &&& settings.selected == Some(settings.output) ==> v.action() is NextEntry
            &&& settings.selected is None ==> v.action() is NextEntry
            &&& !settings.in_place ==> (settings.selected matches Some(selected) ==> selected
                != settings.output ==> v.action() == (WorkAction::ListFolder(selected)))
        }),
{
}

/// Music that lies there is warned of, in the log and on its own, and the search begins. Where
/// there is none, nothing is said; where the folder cannot be read, the log says why.
pub proof fn music_in_the_selected_folder_is_warned_of(
    v: WorkerView,
    entries: Seq<Neighbour>,
    selected: PathView,
    text: Seq<char>,
    cancelled: bool,
)
    requires
        v.stage == WorkStage::Survey,
        v.settings.selected == Some(selected),
        selected != v.settings.output,
    ensures
        ({
            let names = music_names(entries);
            let separator = v.settings.separator;
            let warning = crate::plan::outside_warning(
                selected.shown(separator),
                v.settings.output.shown(separator),
                names,
            );
            let w = v.surveyed(entries);
            &&& w.action() is NextEntry
            &&& names.len() == 0 ==> w.outbox.len() == 0
            &&& names.len() > 0 ==> w.outbox == seq![
                Msg::Log("⚠ "@ + warning),
                Msg::OutputWarning(warning),
            ]
        }),
        v.step(WorkEvent::Failed(text), cancelled).action() is NextEntry,
        v.step(WorkEvent::Failed(text), cancelled).outbox == seq![
            Msg::Log("⚠ 기존 출력 확인 실패: "@ + text),
        ],
{
    let names = music_names(entries);
    let separator = v.settings.separator;
    let warning = crate::plan::outside_warning(
        selected.shown(separator),
        v.settings.output.shown(separator),
        names,
    );
    if names.len() > 0 {
        assert(v.surveyed(entries).outbox =~= seq![
            Msg::Log("⚠ "@ + warning),
            Msg::OutputWarning(warning),
        ]);
    }
    assert(v.step(WorkEvent::Failed(text), cancelled).outbox =~= seq![
        Msg::Log("⚠ 기존 출력 확인 실패: "@ + text),
    ]);
}

/// Going on with the files says more, and forgets nothing that was said in the same step.
proof fn lemma_first_said(q: WorkerView, line: Msg<Seq<char>>, at: int, cancelled: bool)
    requires
        q.outbox == seq![line],
    ensures
        q.next_file(at, cancelled).outbox.len() > 0,
        q.next_file(at, cancelled).outbox[0] == line,
        q.after_files(cancelled).outbox.len() > 0,
        q.after_files(cancelled).outbox[0] == line,
{
}

proof fn lemma_first_said_of_a_track(q: WorkerView, line: Msg<Seq<char>>, at: int, cancelled: bool)
    requires
        q.outbox == seq![line],
    ensures
        q.next_track(at, cancelled).outbox.len() > 0,
        q.next_track(at, cancelled).outbox[0] == line,
{
    let sorted = WorkerView {
        plans: crate::plan::sorted_plans(q.plans, q.settings.separator),
        ..q
    };
    lemma_first_said(sorted, line, 0, cancelled);
}

/// A result is reported with its source: by both names, below their folders.
pub proof fn results_are_reported(
    v: WorkerView,
    at: usize,
    event: WorkEvent<Seq<char>>,
    cancelled: bool,
)
    requires
        at < v.plans.len(),
        v.stage == (WorkStage::Convert { at }) && event is Ready && !v.settings.in_place || v.stage
            == (WorkStage::Defer { at }),
    ensures
        ({
            let w = v.step(event, cancelled);
            let plan = v.plans[at as int];
            &&& w.outbox.len() > 0
            &&& w.outbox[0] == Msg::Log(
                "✓ "@ + plan.file.shown(v.settings.separator) + " → "@ + plan.result.shown(
                    v.settings.separator,
                ),
            )
        }),
{
    let plan = v.plans[at as int];
    let line = Msg::Log("✓ "@ + v.show(plan.file) + " → "@ + v.show(plan.result));
    let q = v.quiet();
    let told = WorkerView {
        completed: q.completed.push(plan.result),
        ok: q.ok + 1,
        outbox: seq![line],
        ..q
    };
    assert(q.outbox.push(line) =~= seq![line]);
    assert(v.step(event, cancelled) == q.keep_result(at, cancelled));
    assert(q.keep_result(at, cancelled) == told.next_file(at + 1, cancelled));
    lemma_first_said(told, line, at + 1, cancelled);
}

/// A file at which the job broke down counts as a failure and is named.
pub proof fn breakdowns_are_reported(v: WorkerView, at: usize, cancelled: bool)
    requires
        at < v.plans.len(),
        v.stage == (WorkStage::Convert { at }) || v.stage == (WorkStage::Open { at }),
    ensures
        ({
            let w = v.step(WorkEvent::Panicked, cancelled);
            &&& w.failed == v.failed + 1 && w.ok == v.ok && w.completed == v.completed
            &&& w.outbox.len() > 0
            &&& w.outbox[0] == Msg::Log(
                "⚠ 내부 오류로 건너뜀: "@ + v.plans[at as int].file.shown(v.settings.separator),
            )
        }),
{
    let line = Msg::Log("⚠ 내부 오류로 건너뜀: "@ + v.show(v.plans[at as int].file));
    let q = v.quiet().count_failure();
    let told = WorkerView { outbox: seq![line], ..q };
    assert(q.outbox.push(line) =~= seq![line]);
    assert(v.step(WorkEvent::Panicked, cancelled) == told.next_file(at + 1, cancelled));
    lemma_first_said(told, line, at + 1, cancelled);
}

/// A file for which the job cannot be opened is reported like one that cannot be converted.
pub proof fn failed_openings_are_reported(v: WorkerView, at: usize, text: Seq<char>, cancelled: bool)
    requires
        at < v.plans.len(),
        v.stage == (WorkStage::Open { at }),
    ensures
        ({
            let w = v.step(WorkEvent::Failed(text), cancelled);
            &&& w.failed == v.failed + 1 && w.ok == v.ok && w.completed == v.completed
            &&& !w.opened || v.opened
            &&& w.outbox.len() > 0
            &&& w.outbox[0] == Msg::Log(
                "⚠ 실패: "@ + v.plans[at as int].file.shown(v.settings.separator) + " — "@ + text,
            )
        }),
{
    let line = Msg::Log("⚠ 실패: "@ + v.show(v.plans[at as int].file) + " — "@ + text);
    let q = v.quiet().count_failure();
    let told = WorkerView { outbox: seq![line], ..q };
    assert(q.outbox.push(line) =~= seq![line]);
    assert(v.step(WorkEvent::Failed(text), cancelled) == told.next_file(at + 1, cancelled));
    lemma_first_said(told, line, at + 1, cancelled);
}

/// A file that should get a number and has none is named in the log, with the reason. The other
/// files are planned without a word.
pub proof fn missing_numbers_are_reported(
    v: WorkerView,
    at: usize,
    event: WorkEvent<Seq<char>>,
    cancelled: bool,
)
    requires
        v.stage == (WorkStage::Tracks { at }),
        at < v.files.len(),
        v.action() is ReadTrack,
        !(event is Track),
    ensures
        ({
            let w = v.step(event, cancelled);
            let source = v.settings.input.below(v.files[at as int].parts);
            &&& w.outbox.len() > 0
            &&& w.outbox[0] == Msg::Log(
                "⚠ 번호를 붙이지 않음: "@ + source.shown(v.settings.separator) + " — "@ + (match event {
                    WorkEvent::Failed(text) => text,
                    WorkEvent::Panicked => "메타데이터 내부 오류"@,
                    _ => "트랙 번호 태그 없음"@,
                }),
            )
        }),
{
    let file = v.files[at as int];
    let reason = match event {
        WorkEvent::Failed(text) => text,
        WorkEvent::Panicked => "메타데이터 내부 오류"@,
        _ => "트랙 번호 태그 없음"@,
    };
    let line = Msg::Log("⚠ 번호를 붙이지 않음: "@ + v.show(v.source(file)) + " — "@ + reason);
    let q = v.quiet();
    let told = WorkerView {
        outbox: seq![line],
        plans: v.plans.push(
            crate::plan::PlanView {
                file,
                result: crate::naming::numbered_path_of(file, v.settings.remove_artist, None),
            },
        ),
        ..q
    };
    assert(q.outbox.push(line) =~= seq![line]);
    assert(v.needs_track(file));
    assert(v.step(event, cancelled) == v.after_track(at, event, cancelled));
    assert(v.after_track(at, event, cancelled) == told.next_track(at + 1, cancelled));
    lemma_first_said_of_a_track(told, line, at + 1, cancelled);
}

/// Once the results are in order the log says for how many folders that was found, and shows how
/// each of them is listed, in turn. Where files failed it says how many, since those are not there.
pub proof fn the_order_is_reported(
    v: WorkerView,
    checked: Seq<(PathView, Seq<Seq<char>>)>,
    i: int,
)
    requires
        v.stage == WorkStage::Arrange,
        0 <= i < checked.len(),
    ensures
        ({
            let w = v.ordered(checked, true);
            let separator = v.settings.separator;
            &&& w.action() is Claim
            &&& w.outbox.len() == checked.len() + 1 + (if v.failed > 0 {
                1int
            } else {
                0
            })
            &&& w.outbox[0] == Msg::Log(
                "✓ 저장 폴더 "@ + decimal(checked.len())
                    + "개에서 Windows가 읽은 목록이 번호순임을 확인: "@ + v.settings.output.shown(
                    separator,
                ),
            )
            &&& w.outbox[i + 1] == Msg::Log(folder_line(checked[i].0, checked[i].1, separator))
            &&& v.failed > 0 ==> w.outbox.last() == Msg::Log(
                "⚠ 성공한 결과의 저장 폴더만 정리했습니다. 실패 "@ + decimal(v.failed)
                    + "개는 다시 변환해야 합니다."@,
            )
            &&& v.ordered(checked, false).outbox[0] == Msg::Log(
                "✓ 출력 폴더 재구성 완료: "@ + v.settings.output.shown(separator)
                    + " (DAP 재생 순서는 확인하지 않음)"@,
            )
        }),
{
    let lines = folder_lines(checked, v.settings.separator);
    assert(lines[i] == Msg::Log(folder_line(checked[i].0, checked[i].1, v.settings.separator)));
}

/// A listing is shown by its first twelve names, with a sign that there are more.
pub proof fn listings_are_shown_by_their_first_names(
    folder: PathView,
    names: Seq<Seq<char>>,
    separator: Seq<char>,
)
    ensures
        names.len() <= 12 ==> folder_line(folder, names, separator) == "목록 "@ + folder.shown(
            separator,
        ) + ": "@ + joined(names, " → "@),
        names.len() > 12 ==> folder_line(folder, names, separator) == "목록 "@ + folder.shown(
            separator,
        ) + ": "@ + joined(names.take(12), " → "@) + " → …"@,
{
    assert(names.take(names.len() as int) =~= names);
    let all = "목록 "@ + folder.shown(separator) + ": "@ + joined(names, " → "@);
    assert(all + Seq::<char>::empty() =~= all);
}

/// A job whose results could not all be made final says so: as one failure more where they stand
/// all the same, and otherwise it is taken back first, and no result counts.
pub proof fn failed_commits_are_reported(v: WorkerView, text: Seq<char>, cancelled: bool)
    requires
        v.stage == WorkStage::Commit,
    ensures
        ({
            let w = v.step(WorkEvent::CommitFailed { committed: true, text }, cancelled);
            let message = "완료 처리 중 오류: "@ + text;
            &&& w.stage is Over
            &&& w.failed == v.failed + 1 && w.ok == v.ok
            &&& w.outbox.len() > 2
            &&& w.outbox[0] == Msg::OutputWarning(message)
            &&& w.outbox[1] == Msg::Log("⚠ "@ + message)
        }),
        ({
            let w = v.step(WorkEvent::CommitFailed { committed: false, text }, cancelled);
            &&& w.action() is Rollback
            &&& w.notice == "완료 처리 중 오류: "@ + text
            &&& w.outbox.len() == 0
            &&& w.ok == 0 && w.completed.len() == 0
            &&& v.ok == 0 ==> w.failed == v.failed + 1
            &&& v.ok > 0 ==> w.failed == v.failed + v.ok
        }),
{
    let message = "완료 처리 중 오류: "@ + text;
    let q = v.quiet().count_failure().warn(message);
    assert(q.outbox =~= seq![Msg::OutputWarning(message), Msg::Log("⚠ "@ + message)]);
    lemma_name_lines_are_added(q);
}

proof fn lemma_name_lines_are_added(q: WorkerView)
    ensures
        q.finish().outbox.len() > q.outbox.len(),
        q.finish().outbox.take(q.outbox.len() as int) == q.outbox,
        q.finish().ok == q.ok && q.finish().failed == q.failed,
        forall|k: int| 0 <= k < q.outbox.len() ==> q.finish().outbox[k] == #[trigger] q.outbox[k],
{
    assert(q.finish().outbox.take(q.outbox.len() as int) =~= q.outbox);
}

/// A job that was taken back because it could not be made final says why, and whether all is back.
pub proof fn recoveries_are_reported(v: WorkerView, text: Seq<char>, cancelled: bool)
    requires
        v.stage == WorkStage::Recover,
    ensures
        ({
            let w = v.step(WorkEvent::Ready, cancelled);
            let message = v.notice + "\n이번 작업의 변경 사항을 되돌렸습니다."@;
            &&& w.stage is Over
            &&& w.outbox.len() > 2
            &&& w.outbox[0] == Msg::OutputWarning(message)
            &&& w.outbox[1] == Msg::Log("⚠ "@ + message)
        }),
        ({
            let w = v.step(WorkEvent::Failed(text), cancelled);
            let message = v.notice + "\n복구 중 오류: "@ + text;
            &&& w.stage is Over
            &&& w.outbox.len() > 2
            &&& w.outbox[0] == Msg::OutputWarning(message)
            &&& w.outbox[1] == Msg::Log("⚠ "@ + message)
        }),
{
    let whole = v.notice + "\n이번 작업의 변경 사항을 되돌렸습니다."@;
    let part = v.notice + "\n복구 중 오류: "@ + text;
    let a = v.quiet().warn(whole);
    let b = v.quiet().warn(part);
    assert(a.outbox =~= seq![Msg::OutputWarning(whole), Msg::Log("⚠ "@ + whole)]);
    assert(b.outbox =~= seq![Msg::OutputWarning(part), Msg::Log("⚠ "@ + part)]);
    lemma_name_lines_are_added(a);
    lemma_name_lines_are_added(b);
}

/// A job ends with its two counts, as the last thing it says. Every result whose name goes beyond
/// ASCII has a line of its own before.
pub proof fn jobs_end_with_their_counts(v: WorkerView, i: int, cancelled: bool)
    requires
        v.stage == WorkStage::Commit,
    ensures
        ({
            let w = v.step(WorkEvent::Ready, cancelled);
            &&& w.outbox.len() > 0
            &&& w.outbox.last() == (Msg::<Seq<char>>::Finished {
                ok: v.ok as usize,
                failed: v.failed as usize,
            })
            &&& 0 <= i < v.completed.len() && !is_ascii_chars(
                v.completed[i].shown(v.settings.separator),
            ) ==> w.outbox.contains(
                Msg::Log("⚠ 비영문 이름: "@ + v.completed[i].shown(v.settings.separator)),
            )
        }),
{
    let q = v.quiet();
    let w = q.finish();
    let names = shown_all(v.completed, v.settings.separator);
    if 0 <= i < v.completed.len() && !is_ascii_chars(v.completed[i].shown(v.settings.separator)) {
        assert(names[i] == v.completed[i].shown(v.settings.separator));
        lemma_name_line(names, i);
        let lines = name_lines(names);
        let line = Msg::Log("⚠ 비영문 이름: "@ + names[i]);
        let k = choose|k: int| 0 <= k < lines.len() && lines[k] == line;
        assert(warning_about(names) is Some);
        assert(w.outbox[k] == line);
    }
}

proof fn lemma_name_line(names: Seq<Seq<char>>, i: int)
    requires
        0 <= i < names.len(),
        !is_ascii_chars(names[i]),
    ensures
        name_lines(names).contains(Msg::Log("⚠ 비영문 이름: "@ + names[i])),
    decreases names.len(),
{
    let line = Msg::Log("⚠ 비영문 이름: "@ + names[i]);
    let front = name_lines(names.drop_last());
    if i == names.len() - 1 {
        assert(name_lines(names)[front.len() as int] == line);
    } else {
        assert(names.drop_last()[i] == names[i]);
        lemma_name_line(names.drop_last(), i);
        let k = choose|k: int| 0 <= k < front.len() && front[k] == line;
        assert(name_lines(names)[k] == line);
    }
}

/// A job that was taken back puts what is there again into order, where the results were to be in
/// order: it asks which of the places hold files, and arranges just those.
pub proof fn what_is_back_is_put_into_order(v: WorkerView, files: Seq<bool>, cancelled: bool)
    requires
        v.settings.arrange,
        v.completed.len() > 0,
        v.ordering_error is None,
        v.cleanup_error is None,
    ensures
        v.stage == WorkStage::Rollback ==> v.step(WorkEvent::Ready, cancelled).action() is Keep,
        v.stage == WorkStage::Keep && files.len() == v.completed.len() ==> {
            let w = v.keeps(files);
            &&& (exists|i: int| 0 <= i < files.len() && #[trigger] files[i]) ==> w.action()
                is Arrange
            &&& w.action() is Arrange ==> forall|p: PathView|
                #[trigger] w.targets().contains(p) <==> exists|i: int|
                    0 <= i < files.len() && files[i] && p == (
                    #[trigger] v.settings.output.below(v.completed[i].parts))
            &&& (forall|i: int| 0 <= i < files.len() ==> !#[trigger] files[i]) ==> w.stage is Over
        },
{
    if v.stage == WorkStage::Keep && files.len() == v.completed.len() {
        let all = destinations(v.settings.output, v.completed);
        lemma_kept_places(all, files);
        let w = v.keeps(files);
        if exists|i: int| 0 <= i < files.len() && #[trigger] files[i] {
            let i = choose|i: int| 0 <= i < files.len() && #[trigger] files[i];
            assert(kept(all, files).contains(all[i]));
        }
        if w.action() is Arrange {
            assert forall|p: PathView| #[trigger] w.targets().contains(p) <==> exists|i: int|
                0 <= i < files.len() && files[i] && p == (
                #[trigger] v.settings.output.below(v.completed[i].parts)) by {
                if w.targets().contains(p) {
                    let i = choose|i: int| 0 <= i < all.len() && files[i] && #[trigger] all[i] == p;
                    assert(p == v.settings.output.below(v.completed[i].parts));
                }
                if exists|i: int|
                    0 <= i < files.len() && files[i] && p == (
                    #[trigger] v.settings.output.below(v.completed[i].parts)) {
                    let i = choose|i: int|
                        0 <= i < files.len() && files[i] && p == (
                        #[trigger] v.settings.output.below(v.completed[i].parts));
                    assert(all[i] == p);
                }
            }
        }
        if forall|i: int| 0 <= i < files.len() ==> !#[trigger] files[i] {
            if kept(all, files).len() > 0 {
                assert(kept(all, files).contains(kept(all, files)[0]));
            }
        }
    }
}

proof fn lemma_kept_places(all: Seq<PathView>, files: Seq<bool>)
    requires
        all.len() <= files.len(),
    ensures
        forall|p: PathView|
            #[trigger] kept(all, files).contains(p) <==> exists|i: int|
                0 <= i < all.len() && files[i] && #[trigger] all[i] == p,
    decreases all.len(),
{
    if all.len() > 0 {
        let front = all.drop_last();
        lemma_kept_places(front, files);
        let (a, b) = (kept(front, files), kept(all, files));
        let n = all.len() - 1;
        assert forall|p: PathView| #[trigger] b.contains(p) <==> exists|i: int|
            0 <= i < all.len() && files[i] && #[trigger] all[i] == p by {
            if b.contains(p) {
                let k = choose|k: int| 0 <= k < b.len() && b[k] == p;
                if k < a.len() {
                    assert(a[k] == p);
                    assert(a.contains(p));
                    let i = choose|i: int|
                        0 <= i < front.len() && files[i] && #[trigger] front[i] == p;
                    assert(all[i] == p);
                } else {
                    assert(all[n] == p);
                }
            }
            if exists|i: int| 0 <= i < all.len() && files[i] && #[trigger] all[i] == p {
                let i = choose|i: int| 0 <= i < all.len() && files[i] && #[trigger] all[i] == p;
                if i < n {
                    assert(front[i] == p);
                    assert(a.contains(p));
                    let k = choose|k: int| 0 <= k < a.len() && a[k] == p;
                    assert(b[k] == p);
                } else {
                    assert(b[a.len() as int] == p);
                }
            }
        }
    } else {
        assert forall|p: PathView| !(#[trigger] kept(all, files).contains(p)) by {}
    }
}

/// A job that was cancelled before it was opened has nothing to take back, and says that it was
/// cancelled.
pub proof fn unopened_jobs_are_cancelled_at_once(v: WorkerView, cancelled: bool)
    requires
        v.stage == WorkStage::Claim,
        !v.opened,
        v.completed.len() == 0,
        v.ordering_error is None,
        v.cleanup_error is None,
    ensures
        ({
            let w = v.step(WorkEvent::Granted(false), cancelled);
            &&& w.stage is Over
            &&& w.outbox == seq![Msg::<Seq<char>>::Cancelled { cleanup_error: None }]
        }),
        ({
            let w = v.step(WorkEvent::Granted(true), cancelled);
            &&& w.stage is Over
            &&& w.outbox.last() == (Msg::<Seq<char>>::Finished {
                ok: v.ok as usize,
                failed: v.failed as usize,
            })
        }),
{
    let w = v.step(WorkEvent::Granted(false), cancelled);
    assert(w.outbox =~= seq![Msg::<Seq<char>>::Cancelled { cleanup_error: None }]);
}

/// A search for files that is cancelled ends at once: what is found then is not taken.
pub proof fn a_cancelled_search_ends(v: WorkerView, relative: PathView, is_file: bool)
    requires
        v.stage == WorkStage::Scan,
    ensures
        v.found(relative, is_file, true).action() is Claim,
        v.found(relative, is_file, true).files == v.files,
{
}

/// A file whose conversion was cancelled counts neither as a result nor as a failure, and no other
/// file follows it.
pub proof fn cancelled_files_do_not_count(v: WorkerView, at: usize, cancelled: bool)
    requires
        v.stage == (WorkStage::Convert { at }),
    ensures
        ({
            let w = v.step(WorkEvent::Cancelled, cancelled);
            &&& w.ok == v.ok && w.failed == v.failed && w.completed == v.completed
            &&& w.action() is Claim || w.action() is Arrange
        }),
{
    assert(v.step(WorkEvent::Cancelled, cancelled) == v.quiet().after_files(cancelled));
}

/// Once what is back is in order again, a cancelled job is over, and says so.
pub proof fn restored_files_end_the_job(
    v: WorkerView,
    checked: Seq<(PathView, Seq<Seq<char>>)>,
    verified: bool,
)
    requires
        v.stage == WorkStage::Rearrange,
        v.ordering_error is None,
        v.cleanup_error is None,
    ensures
        v.ordered(checked, verified).stage is Over,
        v.ordered(checked, verified).outbox == seq![
            Msg::<Seq<char>>::Cancelled { cleanup_error: None },
        ],
{
    assert(v.ordered(checked, verified).outbox =~= seq![
        Msg::<Seq<char>>::Cancelled { cleanup_error: None },
    ]);
}

/// What went wrong on the way of a cancelled job is told with its end: what could not be taken
/// back, what could not be put into order afterwards, and that the results could not be before.
pub proof fn cancelled_jobs_tell_what_went_wrong(
    v: WorkerView,
    text: Seq<char>,
    order: Seq<char>,
    cancelled: bool,
)
    ensures
        v.stage == WorkStage::Rearrange && v.ordering_error is None ==> {
            let w = v.step(WorkEvent::Failed(text), cancelled);
            &&& w.stage is Over
            &&& w.outbox == seq![
                Msg::Cancelled {
                    cleanup_error: Some(
                        "기존 파일은 복구했지만 순서 정리에 실패했습니다: "@ + text,
                    ),
                },
            ]
        },
        v.stage == WorkStage::Rollback && v.ordering_error == Some(order) ==> {
            let w = v.step(WorkEvent::Failed(text), cancelled);
            &&& w.stage is Over
            &&& w.outbox == seq![
                Msg::Cancelled {
                    cleanup_error: Some(
                        text + "\n"@ + (
                        "순서 정리 중 오류가 있었습니다. 복구 위치를 확인하세요: "@ + order),
                    ),
                },
            ]
        },
        v.stage == WorkStage::Rollback && v.ordering_error == Some(order) && v.cleanup_error
            is None ==> {
            let w = v.step(WorkEvent::Ready, cancelled);
            &&& w.stage is Over
            &&& w.outbox == seq![
                Msg::Cancelled {
                    cleanup_error: Some(
                        "순서 정리 중 오류가 있었습니다. 복구 위치를 확인하세요: "@ + order,
                    ),
                },
            ]
        },
{
    let (a, b) = (v.step(WorkEvent::Failed(text), cancelled), v.step(WorkEvent::Ready, cancelled));
    if v.stage == WorkStage::Rearrange && v.ordering_error is None {
        assert(a == v.after_rearrange(WorkEvent::Failed(text)));
        assert(a.outbox.len() == 1);
        assert(a.outbox =~= seq![a.outbox[0]]);
    }
    if v.stage == WorkStage::Rollback && v.ordering_error == Some(order) {
        assert(a == v.after_rollback(WorkEvent::Failed(text)));
        assert(a.outbox.len() == 1);
        assert(a.outbox =~= seq![a.outbox[0]]);
        if v.cleanup_error is None {
            assert(b == v.after_rollback(WorkEvent::Ready));
            assert(b.outbox.len() == 1);
            assert(b.outbox =~= seq![b.outbox[0]]);
        }
    }
}

} // verus!
