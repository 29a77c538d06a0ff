//! What a job promises its user, step by step.
use crate::convert::{is_audio, OutputFormat};
use crate::naming::{
    folded_order, is_numbered, numbered_names_begin_with_a_digit, numbered_path_of, warning_about,
};
use crate::path::{file_name, PathView};
use crate::plan::{plans_are_kept_and_ordered, sorted_plans, PlanView};
use crate::text::Order;
use crate::worker::{
    name_lines, shown_all, Msg, WorkAction, WorkEvent, WorkStage, WorkerView,
};
use vstd::prelude::*;
use vstd::utf8::is_ascii_chars;

verus! {

/// A result that is kept counts once, and its source is not asked for again.
proof fn lemma_kept_result(v: WorkerView, at: usize, cancelled: bool)
    requires
        at < v.plans.len(),
    ensures
        ({
            let u = v.keep_result(at, cancelled);
            &&& u.completed == v.completed.push(v.plans[at as int].result)
            &&& u.ok == v.ok + 1
            &&& !(u.action() is Defer)
        }),
{
}

proof fn lemma_replaced(
    v: WorkerView,
    at: usize,
    event: WorkEvent<Seq<char>>,
    cancelled: bool,
)
    requires
        v.stage == (WorkStage::Convert { at }),
        at < v.plans.len(),
        v.settings.in_place,
    ensures
        ({
            let w = v.step(WorkEvent::Ready, cancelled);
            &&& w == v.quiet().at(WorkStage::Defer { at })
            &&& w.step(event, cancelled) == w.quiet().keep_result(at, cancelled)
        }),
{
}

proof fn lemma_not_replaced(v: WorkerView, at: usize, cancelled: bool)
    requires
        v.stage == (WorkStage::Convert { at }),
        at < v.plans.len(),
        !v.settings.in_place,
    ensures
        v.step(WorkEvent::Ready, cancelled) == v.quiet().keep_result(at, cancelled),
{
}

/// Where a conversion is asked for, and of what.
proof fn lemma_conversion(v: WorkerView, action: WorkAction<PathView>) -> (at: usize)
    requires
        v.wf(),
        v.action() == action,
        action is Convert,
    ensures
        v.stage == (WorkStage::Convert { at }),
        at < v.plans.len(),
        action->Convert_source == v.source(v.plans[at as int].file),
        action->destination == v.settings.output.below(v.plans[at as int].result.parts),
{
    v.stage->Convert_at
}

/// In place, the source of every file that was converted is asked to be removed, whatever else the
/// user has set: right behind its conversion, and before its result counts. The result then counts,
/// by the place that it was converted to.
pub proof fn replaced_sources_are_noted(
    v: WorkerView,
    source: PathView,
    destination: PathView,
    format: OutputFormat,
    event: WorkEvent<Seq<char>>,
    cancelled: bool,
)
    requires
        v.wf(),
        v.action() == (WorkAction::Convert { source, destination, format }),
        v.settings.in_place,
    ensures
        ({
            let w = v.step(WorkEvent::Ready, cancelled);
            let u = w.step(event, cancelled);
            let n = v.completed.len() as int;
            &&& w.action() == WorkAction::Defer(source)
            &&& w.completed == v.completed
            &&& w.ok == v.ok
            &&& u.completed.len() == n + 1
            &&& u.completed.take(n) == v.completed
            &&& destination == PathView {
                root: v.settings.output.root,
                parts: v.settings.output.parts + u.completed[n].parts,
            }
            &&& u.ok == v.ok + 1
        }),
{
    let at = lemma_conversion(v, WorkAction::Convert { source, destination, format });
    lemma_replaced(v, at, event, cancelled);
    let w = v.step(WorkEvent::Ready, cancelled);
    lemma_kept_result(w.quiet(), at, cancelled);
    let result = v.plans[at as int].result;
    assert(v.completed.push(result).take(v.completed.len() as int) =~= v.completed);
}

/// Where results do not replace their sources, a result counts once it was converted, and its
/// source is not asked to be removed.
pub proof fn other_sources_are_left_alone(
    v: WorkerView,
    source: PathView,
    destination: PathView,
    format: OutputFormat,
    cancelled: bool,
)
    requires
        v.wf(),
        v.action() == (WorkAction::Convert { source, destination, format }),
        !v.settings.in_place,
    ensures
        ({
            let w = v.step(WorkEvent::Ready, cancelled);
            let n = v.completed.len() as int;
            &&& !(w.action() is Defer)
            &&& w.completed.len() == n + 1
            &&& w.completed.take(n) == v.completed
            &&& destination == PathView {
                root: v.settings.output.root,
                parts: v.settings.output.parts + w.completed[n].parts,
            }
            &&& w.ok == v.ok + 1
        }),
{
    let at = lemma_conversion(v, WorkAction::Convert { source, destination, format });
    lemma_not_replaced(v, at, cancelled);
    lemma_kept_result(v.quiet(), at, cancelled);
    let result = v.plans[at as int].result;
    assert(v.completed.push(result).take(v.completed.len() as int) =~= v.completed);
}

// ---------------------------------------------------------------------------
// Finding files
// ---------------------------------------------------------------------------

/// Whether a path names a sound does not depend on the folder it lies in.
proof fn lemma_sound_below(folder: PathView, relative: PathView)
    requires
        relative.parts.len() > 0,
    ensures
        is_audio(folder.below(relative.parts)) == is_audio(relative),
        is_numbered(folder.below(relative.parts)) == is_numbered(relative),
{
    let p = folder.below(relative.parts);
    assert(p.parts.last() == relative.parts.last());
}

/// Every entry below the input folder that is a file and by its name a sound is to be converted, in
/// the order in which they are found, and nothing else is. The job goes on looking.
pub proof fn every_sound_that_is_found_is_taken(v: WorkerView, relative: PathView, is_file: bool)
    requires
        v.stage is Scan,
        relative.parts.len() > 0,
    ensures
        ({
            let w = v.found(relative, is_file, false);
            &&& w.files == if is_file && is_audio(relative) {
                v.files.push(relative)
            } else {
                v.files
            }
            &&& w.action() is NextEntry
            &&& w.failed == v.failed
            &&& w.settings == v.settings
        }),
{
    lemma_sound_below(v.settings.input, relative);
}

/// A folder that cannot be read counts as one failure, is reported, and does not stop the search.
pub proof fn unreadable_folders_are_reported(v: WorkerView, text: Seq<char>)
    requires
        v.stage is Scan,
    ensures
        ({
            let w = v.step(WorkEvent::Failed(text), false);
            &&& w.files == v.files
            &&& w.failed == v.failed + 1
            &&& w.action() is NextEntry
            &&& w.outbox == seq![Msg::Log("⚠ 입력 탐색 실패: "@ + text)]
        }),
{
    assert(v.step(WorkEvent::Failed(text), false).outbox =~= seq![
        Msg::Log("⚠ 입력 탐색 실패: "@ + text),
    ]);
}

/// At the end of the search the number of files is told.
pub proof fn the_number_of_files_is_told(v: WorkerView)
    requires
        v.stage is Scan,
    ensures
        ({
            let w = v.step(WorkEvent::End, false);
            &&& w.outbox.len() > 0
            &&& w.outbox[0] == Msg::<Seq<char>>::Total(v.files.len() as usize)
            &&& w.files == v.files
            &&& v.files.len() > 0 && v.files.len() <= usize::MAX ==> w.stage == (WorkStage::Tracks {
                at: 0,
            })
        }),
{
    let q = v.quiet().say(Msg::Total(v.files.len() as usize));
    assert(q.outbox =~= seq![Msg::<Seq<char>>::Total(v.files.len() as usize)]);
    assert(v.step(WorkEvent::End, false) == q.next_track(0, false));
    lemma_says_more(q, 0, 0, false);
}

/// Going on says more, and forgets nothing that was said in the same step.
proof fn lemma_says_more(q: WorkerView, at: int, file: int, cancelled: bool)
    ensures
        ({
            let (w, u) = (q.next_track(at, cancelled), q.next_file(file, cancelled));
            &&& w.outbox.len() >= q.outbox.len()
            &&& w.outbox.take(q.outbox.len() as int) == q.outbox
            &&& w.files == q.files
            &&& u.outbox.len() >= q.outbox.len()
            &&& u.outbox.take(q.outbox.len() as int) == q.outbox
        }),
{
    let s = WorkerView { plans: sorted_plans(q.plans, q.settings.separator), ..q };
    lemma_file_says_more(q, file, cancelled);
    lemma_file_says_more(s, 0, cancelled);
    assert(q.outbox.take(q.outbox.len() as int) =~= q.outbox);
}

proof fn lemma_file_says_more(q: WorkerView, file: int, cancelled: bool)
    ensures
        ({
            let u = q.next_file(file, cancelled);
            &&& u.outbox.len() >= q.outbox.len()
            &&& u.outbox.take(q.outbox.len() as int) == q.outbox
            &&& u.files == q.files
        }),
{
    let u = q.next_file(file, cancelled);
    assert(u.outbox.take(q.outbox.len() as int) =~= q.outbox);
}

// ---------------------------------------------------------------------------
// Planning
// ---------------------------------------------------------------------------

/// The track number of a file is asked for exactly where the user wants numbers and the name does
/// not begin with a digit; otherwise there is nothing to wait for.
pub proof fn track_numbers_are_asked_for(v: WorkerView, at: usize)
    requires
        v.stage == (WorkStage::Tracks { at }),
        at < v.files.len(),
        file_name(v.files[at as int]) is Some,
    ensures
        ({
            let file = v.files[at as int];
            if v.settings.use_track_number && !('0' <= file.parts[file.parts.len() - 1][0] <= '9') {
                v.action() == WorkAction::ReadTrack(
                    PathView {
                        root: v.settings.input.root,
                        parts: v.settings.input.parts + file.parts,
                    },
                )
            } else {
                v.action() is Continue
            }
        }),
{
    let file = v.files[at as int];
    numbered_names_begin_with_a_digit(file);
    lemma_sound_below(v.settings.input, file);
}

/// A file is planned by its name, with the number that was read where one was asked for.
pub proof fn files_are_planned_by_their_names(
    v: WorkerView,
    at: usize,
    event: WorkEvent<Seq<char>>,
)
    requires
        v.stage == (WorkStage::Tracks { at }),
        at + 1 < v.files.len() <= usize::MAX,
    ensures
        ({
            let file = v.files[at as int];
            let number = match event {
                WorkEvent::Track(n) => if v.action() is ReadTrack {
                    Some(n)
                } else {
                    None
                },
                _ => None,
            };
            let w = v.step(event, false);
            &&& w.plans == v.plans.push(
                PlanView {
                    file,
                    result: numbered_path_of(file, v.settings.remove_artist, number),
                },
            )
            &&& w.stage == (WorkStage::Tracks { at: (at + 1) as usize })
            &&& v.action() is ReadTrack && number is None ==> w.outbox.len() == 1
            &&& !(v.action() is ReadTrack) || number is Some ==> w.outbox.len() == 0
        }),
{
}

/// The last file is planned in the same way, and then all plans are put into order, none left out.
pub proof fn the_plans_are_put_into_order(v: WorkerView, at: usize, event: WorkEvent<Seq<char>>)
    requires
        v.stage == (WorkStage::Tracks { at }),
        at + 1 == v.files.len(),
        v.files.len() <= usize::MAX,
    ensures
        ({
            let file = v.files[at as int];
            let number = match event {
                WorkEvent::Track(n) => if v.action() is ReadTrack {
                    Some(n)
                } else {
                    None
                },
                _ => None,
            };
            let all = v.plans.push(
                PlanView {
                    file,
                    result: numbered_path_of(file, v.settings.remove_artist, number),
                },
            );
            let w = v.step(event, false);
            &&& w.plans.to_multiset() == all.to_multiset()
            &&& forall|i: int, j: int|
                0 <= i < j < w.plans.len() ==> folded_order(
                    (#[trigger] w.plans[i]).result.shown(v.settings.separator),
                    (#[trigger] w.plans[j]).result.shown(v.settings.separator),
                ) != Order::Greater
        }),
{
    let file = v.files[at as int];
    let number = match event {
        WorkEvent::Track(n) => if v.needs_track(file) {
            Some(n)
        } else {
            None
        },
        _ => None,
    };
    let all = v.plans.push(
        PlanView { file, result: numbered_path_of(file, v.settings.remove_artist, number) },
    );
    plans_are_kept_and_ordered(all, v.settings.separator);
    let w = v.step(event, false);
    lemma_last_planned(v, at, event, all);
    assert(w.plans == sorted_plans(all, v.settings.separator));
}

proof fn lemma_last_planned(
    v: WorkerView,
    at: usize,
    event: WorkEvent<Seq<char>>,
    all: Seq<PlanView>,
)
    requires
        v.stage == (WorkStage::Tracks { at }),
        at + 1 == v.files.len(),
        all == v.plans.push(
            PlanView {
                file: v.files[at as int],
                result: numbered_path_of(
                    v.files[at as int],
                    v.settings.remove_artist,
                    match event {
                        WorkEvent::Track(n) => if v.needs_track(v.files[at as int]) {
                            Some(n)
                        } else {
                            None
                        },
                        _ => None,
                    },
                ),
            },
        ),
    ensures
        v.step(event, false).plans == sorted_plans(all, v.settings.separator),
{
    let told = v.after_track(at, event, false);
    assert(v.step(event, false) == told);
}

// ---------------------------------------------------------------------------
// Converting
// ---------------------------------------------------------------------------

/// What is asked for once the files up to some point are dealt with: the next file, or what follows
/// the last.
proof fn lemma_next(q: WorkerView, at: int)
    requires
        0 <= at <= q.plans.len() <= usize::MAX,
    ensures
        ({
            let u = q.next_file(at, false);
            &&& u.plans == q.plans
            &&& u.settings == q.settings
            &&& u.completed == q.completed
            &&& at < q.plans.len() ==> u.stage == if q.opened {
                WorkStage::Convert { at: at as usize }
            } else {
                WorkStage::Open { at: at as usize }
            }
            &&& at < q.plans.len() ==> u.outbox == q.outbox.push(
                Msg::Progress {
                    done: at as usize,
                    file: q.plans[at].file.shown(q.settings.separator),
                },
            )
            &&& at == q.plans.len() ==> u.stage == if q.settings.arrange && q.completed.len() > 0 {
                WorkStage::Arrange
            } else {
                WorkStage::Claim
            }
        }),
{
}

/// The plans are carried out one after the other, each of them once: a file that was converted, or
/// could not be, is followed by the next of the plans, from its place below the input folder to that
/// of its result below the output folder, in the format that the user picked; the progress is told.
pub proof fn the_next_file_follows(v: WorkerView, at: usize, event: WorkEvent<Seq<char>>)
    requires
        v.wf(),
        v.stage == (WorkStage::Convert { at }),
        v.opened,
        at + 1 < v.plans.len() <= usize::MAX,
        event is Failed || event is Panicked || event is Ready && !v.settings.in_place,
    ensures
        ({
            let w = v.step(event, false);
            let plan = v.plans[at + 1];
            &&& w.action() == (WorkAction::Convert {
                source: PathView {
                    root: v.settings.input.root,
                    parts: v.settings.input.parts + plan.file.parts,
                },
                destination: PathView {
                    root: v.settings.output.root,
                    parts: v.settings.output.parts + plan.result.parts,
                },
                format: v.settings.format,
            })
            &&& w.outbox.len() > 0
            &&& w.outbox.last() == (Msg::Progress {
                done: (at + 1) as usize,
                file: plan.file.shown(v.settings.separator),
            })
        }),
{
    let q = lemma_dealt_with(v, at, event);
    lemma_next(q, at + 1);
}

/// Behind the last file the results are put into order, where the user wants that and there are
/// any; otherwise the end of the job is decided at once.
pub proof fn the_end_follows_the_last_file(v: WorkerView, at: usize, event: WorkEvent<Seq<char>>)
    requires
        v.wf(),
        v.stage == (WorkStage::Convert { at }),
        at + 1 == v.plans.len(),
        v.plans.len() <= usize::MAX,
        event is Failed || event is Panicked || event is Ready && !v.settings.in_place,
    ensures
        ({
            let w = v.step(event, false);
            if v.settings.arrange && w.completed.len() > 0 {
                w.action() is Arrange
            } else {
                w.action() is Claim
            }
        }),
{
    let q = lemma_dealt_with(v, at, event);
    lemma_next(q, at + 1);
}

/// The job once a file is dealt with, before the next is turned to.
proof fn lemma_dealt_with(v: WorkerView, at: usize, event: WorkEvent<Seq<char>>) -> (q: WorkerView)
    requires
        v.stage == (WorkStage::Convert { at }),
        at < v.plans.len(),
        event is Failed || event is Panicked || event is Ready && !v.settings.in_place,
    ensures
        v.step(event, false) == q.next_file(at + 1, false),
        q.plans == v.plans,
        q.settings == v.settings,
        q.opened == v.opened,
{
    let rel = v.show(v.plans[at as int].file);
    let plan = v.plans[at as int];
    let n = v.quiet();
    match event {
        WorkEvent::Failed(text) => {
            let q = n.count_failure().log("⚠ 실패: "@ + rel + " — "@ + text);
            assert(v.step(event, false) == q.next_file(at + 1, false));
            q
        },
        WorkEvent::Panicked => {
            let q = n.count_failure().log("⚠ 내부 오류로 건너뜀: "@ + rel);
            assert(v.step(event, false) == q.next_file(at + 1, false));
            q
        },
        _ => {
            let q = WorkerView {
                completed: n.completed.push(plan.result),
                ok: n.ok + 1,
                ..n
            }.log("✓ "@ + n.show(plan.file) + " → "@ + n.show(plan.result));
            assert(v.step(event, false) == q.next_file(at + 1, false));
            q
        },
    }
}

/// The first file opens the job on the output folder, and is then converted like the others.
pub proof fn the_job_is_opened_for_the_first_file(v: WorkerView, at: usize)
    requires
        v.wf(),
        v.stage == (WorkStage::Open { at }),
    ensures
        v.action() == WorkAction::Open(v.settings.output),
        ({
            let w = v.step(WorkEvent::Ready, false);
            let plan = v.plans[at as int];
            &&& w.opened
            &&& w.action() == (WorkAction::Convert {
                source: PathView {
                    root: v.settings.input.root,
                    parts: v.settings.input.parts + plan.file.parts,
                },
                destination: PathView {
                    root: v.settings.output.root,
                    parts: v.settings.output.parts + plan.result.parts,
                },
                format: v.settings.format,
            })
        }),
{
}

/// A file that could not be converted is reported with the reason.
pub proof fn failed_files_are_reported(v: WorkerView, at: usize, text: Seq<char>)
    requires
        v.wf(),
        v.stage == (WorkStage::Convert { at }),
        v.plans.len() <= usize::MAX,
    ensures
        ({
            let w = v.step(WorkEvent::Failed(text), false);
            let name = v.plans[at as int].file.shown(v.settings.separator);
            &&& w.failed == v.failed + 1
            &&& w.ok == v.ok
            &&& w.completed == v.completed
            &&& w.outbox.len() > 0
            &&& w.outbox[0] == Msg::Log("⚠ 실패: "@ + name + " — "@ + text)
        }),
{
    let rel = v.show(v.plans[at as int].file);
    let q = v.quiet().count_failure().log("⚠ 실패: "@ + rel + " — "@ + text);
    assert(q.outbox =~= seq![Msg::Log("⚠ 실패: "@ + rel + " — "@ + text)]);
    assert(v.step(WorkEvent::Failed(text), false) == q.next_file(at + 1, false));
    lemma_file_says_more(q, at + 1, false);
    assert(q.next_file(at + 1, false).outbox.take(1)[0] == q.outbox[0]);
}

/// Once the user has cancelled, no further file is converted, numbered or put into order: whatever
/// the job is at, its end is decided next.
pub proof fn a_cancelled_job_takes_on_nothing_more(v: WorkerView, event: WorkEvent<Seq<char>>)
    requires
        v.wf(),
        match v.stage {
            WorkStage::Scan => event is End || event is Failed,
            WorkStage::Tracks { .. } => true,
            WorkStage::Convert { .. } => event is Failed || event is Panicked || event is Cancelled
                || event is Ready && !v.settings.in_place,
            WorkStage::Defer { .. } => true,
            WorkStage::Open { .. } => event is Failed || event is Panicked,
            _ => false,
        },
    ensures
        v.step(event, true).action() is Claim,
{
    match v.stage {
        WorkStage::Convert { at } => lemma_cancelled_file(v, at, event),
        WorkStage::Open { at } => lemma_cancelled_file(v, at, event),
        WorkStage::Defer { at } => {
            assert(v.step(event, true) == v.quiet().keep_result(at, true));
        },
        WorkStage::Tracks { at } => {
            assert(v.step(event, true) == v.after_track(at, event, true));
        },
        _ => {},
    }
}

proof fn lemma_cancelled_file(v: WorkerView, at: usize, event: WorkEvent<Seq<char>>)
    requires
        v.stage == (WorkStage::Convert { at }) && (event is Failed || event is Panicked
            || event is Cancelled || event is Ready && !v.settings.in_place) || v.stage == (
        WorkStage::Open { at }) && (event is Failed || event is Panicked),
        at < v.plans.len(),
    ensures
        v.step(event, true).action() is Claim,
{
    let q = v.quiet();
    if event is Failed || event is Panicked {
        assert(v.step(event, true) == q.skip_file(at, event, true));
    } else if event is Ready {
        assert(v.step(event, true) == q.keep_result(at, true));
    }
}

// ---------------------------------------------------------------------------
// The end
// ---------------------------------------------------------------------------

/// All results are put into order, each by its place below the output folder.
pub proof fn all_results_are_put_into_order(v: WorkerView, i: int)
    requires
        v.stage is Arrange,
    ensures
        v.targets().len() == v.completed.len(),
        0 <= i < v.completed.len() ==> v.targets()[i] == (PathView {
            root: v.settings.output.root,
            parts: v.settings.output.parts + v.completed[i].parts,
        }),
{
}

/// An order that could not be made is reported, and does not keep the job from its end.
pub proof fn a_failed_order_is_reported(v: WorkerView, text: Seq<char>, cancelled: bool)
    requires
        v.stage is Arrange,
    ensures
        ({
            let w = v.step(WorkEvent::Failed(text), cancelled);
            &&& w.action() is Claim
            &&& w.outbox == seq![Msg::<Seq<char>>::OrderError(text)]
            &&& w.completed == v.completed
            &&& w.ok == v.ok
            &&& w.failed == v.failed
        }),
{
    assert(v.step(WorkEvent::Failed(text), cancelled).outbox =~= seq![
        Msg::<Seq<char>>::OrderError(text),
    ]);
}

/// The end of a job that was opened: granted, it is committed; not granted, it is rolled back. A
/// job that was never opened ends at once.
pub proof fn the_claim_decides_the_end(v: WorkerView, cancelled: bool)
    requires
        v.stage is Claim,
    ensures
        v.opened ==> v.step(WorkEvent::Granted(true), cancelled).action() is Commit,
        v.opened ==> v.step(WorkEvent::Granted(false), cancelled).action() is Rollback,
        !v.opened ==> v.step(WorkEvent::Granted(true), cancelled).stage is Over,
{
}

/// A job that was rolled back says so, with what could not be put back; what was made is gone, so
/// nothing is counted in that message.
pub proof fn a_rolled_back_job_says_so(v: WorkerView, event: WorkEvent<Seq<char>>, cancelled: bool)
    requires
        v.stage is Rollback,
        event is Ready || event is Failed,
        !v.settings.arrange || event is Failed || v.completed.len() == 0,
        v.ordering_error is None,
        v.cleanup_error is None,
    ensures
        ({
            let w = v.step(event, cancelled);
            &&& w.stage is Over
            &&& w.outbox == seq![
                Msg::Cancelled {
                    cleanup_error: match event {
                        WorkEvent::Failed(text) => Some(text),
                        _ => None,
                    },
                },
            ]
        }),
{
    let w = v.step(event, cancelled);
    assert(w == v.after_rollback(event));
    match event {
        WorkEvent::Failed(text) => {
            assert(w.outbox =~= seq![Msg::Cancelled { cleanup_error: Some(text) }]);
        },
        _ => {
            assert(w.outbox =~= seq![Msg::<Seq<char>>::Cancelled { cleanup_error: None }]);
        },
    }
}

/// Results whose names go beyond ASCII are warned of at the end, and only those.
pub proof fn names_beyond_ascii_are_warned_of(v: WorkerView)
    requires
        v.stage is Commit,
    ensures
        ({
            let w = v.step(WorkEvent::Ready, false);
            let odd = exists|i: int|
                0 <= i < v.completed.len() && !is_ascii_chars(
                    (#[trigger] v.completed[i]).shown(v.settings.separator),
                );
            &&& w.outbox.len() > 0
            &&& w.outbox.last() is Finished
            &&& odd <==> exists|k: int|
                0 <= k < w.outbox.len() && (#[trigger] w.outbox[k]) is NameWarning
        }),
{
    let q = v.quiet();
    let names = shown_all(v.completed, v.settings.separator);
    let w = q.finish();
    assert(v.step(WorkEvent::Ready, false) == w);
    lemma_odd_names(v.completed, v.settings.separator);
    lemma_name_lines(names);
    match warning_about(names) {
        Some(warning) => {
            let told = q.outbox + name_lines(names);
            assert(w.outbox =~= told.push(Msg::NameWarning(warning)).push(w.outbox.last()));
            assert(w.outbox[told.len() as int] is NameWarning);
        },
        None => {
            assert(w.outbox =~= seq![w.outbox.last()]);
        },
    }
}

proof fn lemma_odd_names(completed: Seq<PathView>, separator: Seq<char>)
    ensures
        warning_about(shown_all(completed, separator)) is Some <==> exists|i: int|
            0 <= i < completed.len() && !is_ascii_chars((#[trigger] completed[i]).shown(separator)),
{
    let names = shown_all(completed, separator);
    assert forall|i: int| 0 <= i < completed.len() implies names[i] == (
    #[trigger] completed[i]).shown(separator) by {}
    if exists|i: int| 0 <= i < names.len() && !is_ascii_chars(#[trigger] names[i]) {
        let i = choose|i: int| 0 <= i < names.len() && !is_ascii_chars(#[trigger] names[i]);
        assert(!is_ascii_chars(completed[i].shown(separator)));
    }
}

/// The lines about names are lines of the log.
proof fn lemma_name_lines(names: Seq<Seq<char>>)
    ensures
        forall|k: int|
            0 <= k < name_lines(names).len() ==> (#[trigger] name_lines(names)[k]) is Log,
    decreases names.len(),
{
    if names.len() > 0 {
        lemma_name_lines(names.drop_last());
    }
}

} // verus!
