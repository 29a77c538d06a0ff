//! What a whole job comes to: how many files it converted, and how many it did not.
use crate::path::PathView;
use crate::plan::{sorted_plans, Neighbour};
use crate::worker::{
    lemma_sorted_plans, lemma_track_planned, with_track, Msg, SettingsView, WorkEvent, WorkStage,
    WorkerView,
};
use vstd::prelude::*;

verus! {

/// What a job hears.
pub enum Word {
    Step { event: WorkEvent<Seq<char>> },
    Surveyed { entries: Seq<Neighbour> },
    Found { relative: PathView, is_file: bool },
    Ordered { checked: Seq<(PathView, Seq<Seq<char>>)>, verified: bool },
}

/// One moment of a job follows another, and the user does not cancel.
pub open spec fn goes_on(v: WorkerView, word: Word, w: WorkerView) -> bool {
    &&& v.stage != WorkStage::Over
    &&& v.files.len() < usize::MAX
    &&& match word {
        Word::Step { event } => {
            &&& w == v.step(event, false)
            &&& event != WorkEvent::<Seq<char>>::Cancelled
            &&& event != WorkEvent::<Seq<char>>::Granted(false)
        },
        Word::Surveyed { entries } => v.stage is Survey && w == v.surveyed(entries),
        Word::Found { relative, is_file } => v.stage is Scan && w == v.found(
            relative,
            is_file,
            false,
        ),
        Word::Ordered { checked, verified } => v.stage is Arrange && w == v.ordered(
            checked,
            verified,
        ),
    }
}

/// The moments of a job that the user does not cancel, from the first.
pub open spec fn is_job(views: Seq<WorkerView>, words: Seq<Word>, settings: SettingsView) -> bool {
    &&& views.len() == words.len() + 1
    &&& views[0] == WorkerView::start(settings)
    &&& forall|t: int|
        0 <= t < words.len() ==> goes_on(views[t], #[trigger] words[t], views[t + 1])
}

/// A folder or an entry could not be read while files were looked for.
pub open spec fn is_scan_error(v: WorkerView, word: Word) -> bool {
    v.stage is Scan && (word matches Word::Step { event } && event is Failed)
}

/// The result of a file is complete: it was made, and where it replaces its source, the source was
/// noted for removal.
pub open spec fn is_result(v: WorkerView, word: Word) -> bool {
    match (v.stage, word) {
        (WorkStage::Convert { .. }, Word::Step { event }) => event is Ready && !v.settings.in_place,
        (WorkStage::Defer { .. }, Word::Step { .. }) => true,
        _ => false,
    }
}

/// How often this happened.
pub open spec fn count(
    views: Seq<WorkerView>,
    words: Seq<Word>,
    what: spec_fn(WorkerView, Word) -> bool,
) -> nat
    decreases words.len(),
{
    if words.len() == 0 {
        0
    } else {
        let before = count(views.drop_last(), words.drop_last(), what);
        if what(views[words.len() - 1], words.last()) {
            before + 1
        } else {
            before
        }
    }
}

/// The number of errors while files were looked for.
pub open spec fn scan_errors(views: Seq<WorkerView>, words: Seq<Word>) -> nat {
    count(views, words, |v: WorkerView, word: Word| is_scan_error(v, word))
}

/// The number of results.
pub open spec fn results(views: Seq<WorkerView>, words: Seq<Word>) -> nat {
    count(views, words, |v: WorkerView, word: Word| is_result(v, word))
}

/// How making the results final went.
pub enum Ending {
    /// Nothing went wrong.
    Clean,
    /// The results are final, but something could not be tidied up.
    Untidy,
    /// Nothing was made final.
    Undone,
}

pub open spec fn ending(views: Seq<WorkerView>, words: Seq<Word>) -> Ending
    decreases words.len(),
{
    if words.len() == 0 {
        Ending::Clean
    } else {
        ending_with(
            ending(views.drop_last(), words.drop_last()),
            views[words.len() - 1],
            words.last(),
        )
    }
}

/// How it went, with what was heard last.
pub open spec fn ending_with(before: Ending, v: WorkerView, word: Word) -> Ending {
    match (v.stage, word) {
        (
            WorkStage::Commit,
            Word::Step { event: WorkEvent::CommitFailed { committed, .. } },
        ) => if committed {
            Ending::Untidy
        } else {
            Ending::Undone
        },
        _ => before,
    }
}

/// What a job has to report: of `n` files it made `k` results, and `e` errors came up while files
/// were looked for.
pub open spec fn report(n: nat, k: nat, e: nat, ending: Ending) -> (nat, nat) {
    let lost = (n - k + e) as nat;
    match ending {
        Ending::Clean => (k, lost),
        Ending::Untidy => (k, lost + 1),
        Ending::Undone => (0, lost + (if k > 1 {
            k
        } else {
            1
        })),
    }
}

/// The counts are right so far.
pub open spec fn is_counted(v: WorkerView, k: nat, e: nat, ending: Ending) -> bool {
    let n = v.files.len();
    &&& v.stage !is Recover && v.stage !is Over ==> ending is Clean && v.ok == k && v.failed >= e
    &&& match v.stage {
        WorkStage::Survey | WorkStage::Scan => v.plans.len() == 0 && k == 0 && v.failed == e,
        WorkStage::Tracks { at } => at < n && v.plans.len() == at && k == 0 && v.failed == e,
        WorkStage::Open { at } | WorkStage::Convert { at } | WorkStage::Defer { at } => {
            &&& at < n
            &&& v.plans.len() == n
            &&& k + v.failed == at + e
        },
        WorkStage::Arrange | WorkStage::Claim | WorkStage::Commit => k + v.failed == n + e,
        WorkStage::Recover => k <= n && ending is Undone && (v.ok, v.failed) == report(
            n,
            k,
            e,
            ending,
        ),
        WorkStage::Over => k <= n && is_reported(v, report(n, k, e, ending)),
        _ => false,
    }
}

/// The last message names these counts.
pub open spec fn is_reported(v: WorkerView, counts: (nat, nat)) -> bool {
    &&& v.outbox.len() > 0
    &&& v.outbox.last() == (Msg::<Seq<char>>::Finished {
        ok: counts.0 as usize,
        failed: counts.1 as usize,
    })
}

proof fn lemma_next_file(w: WorkerView, at: int, k: nat, e: nat)
    requires
        0 <= at <= w.files.len() < usize::MAX,
        w.plans.len() == w.files.len(),
        w.ok == k,
        w.failed >= e,
        k + w.failed == at + e,
    ensures
        is_counted(w.next_file(at, false), k, e, Ending::Clean),
        w.next_file(at, false).files == w.files,
{
}

proof fn lemma_next_track(w: WorkerView, at: int, e: nat)
    requires
        0 <= at <= w.files.len() < usize::MAX,
        w.plans.len() == at,
        w.ok == 0,
        w.failed == e,
    ensures
        is_counted(w.next_track(at, false), 0, e, Ending::Clean),
        w.next_track(at, false).files == w.files,
{
    if at >= w.files.len() {
        lemma_sorted_plans(w.plans, w.settings.separator);
        let sorted = sorted(w);
        lemma_next_file(sorted, 0, 0, e);
    }
}

spec fn sorted(w: WorkerView) -> WorkerView {
    WorkerView { plans: sorted_plans(w.plans, w.settings.separator), ..w }
}

/// Files are looked for and planned.
proof fn lemma_search(v: WorkerView, word: Word, w: WorkerView, e: nat)
    requires
        goes_on(v, word, w),
        is_counted(v, 0, e, Ending::Clean),
        v.stage is Survey || v.stage is Scan || v.stage is Tracks,
    ensures
        is_counted(
            w,
            0,
            if is_scan_error(v, word) {
                e + 1
            } else {
                e
            },
            Ending::Clean,
        ),
{
    let q = v.quiet();
    if let Word::Step { event } = word {
        match v.stage {
            WorkStage::Scan => {
                if event is End {
                    lemma_next_track(q.say(Msg::Total(v.files.len() as usize)), 0, e);
                }
            },
            WorkStage::Tracks { at } => {
                lemma_tracks(v, at, event, e);
            },
            _ => {},
        }
    }
}

proof fn lemma_tracks(v: WorkerView, at: usize, event: WorkEvent<Seq<char>>, e: nat)
    requires
        is_counted(v, 0, e, Ending::Clean),
        v.stage == (WorkStage::Tracks { at }),
        v.files.len() < usize::MAX,
    ensures
        is_counted(v.after_track(at, event, false), 0, e, Ending::Clean),
{
    lemma_track_planned(v, at, event, false);
    let w = choose|w: WorkerView| #[trigger]
        with_track(v, at, w) && v.step(event, false) == w.next_track(at + 1, false);
    lemma_next_track(w, at + 1, e);
}

/// A file is converted.
proof fn lemma_file(v: WorkerView, word: Word, w: WorkerView, k: nat, e: nat)
    requires
        goes_on(v, word, w),
        is_counted(v, k, e, Ending::Clean),
        v.stage is Open || v.stage is Convert || v.stage is Defer,
    ensures
        is_counted(
            w,
            if is_result(v, word) {
                k + 1
            } else {
                k
            },
            e,
            Ending::Clean,
        ),
{
    let q = v.quiet();
    let at = match v.stage {
        WorkStage::Open { at } | WorkStage::Convert { at } | WorkStage::Defer { at } => at,
        _ => 0,
    };
    let event = word->event;
    let rel = v.show(v.plans[at as int].file);
    if is_result(v, word) {
        let plan = v.plans[at as int];
        let kept = WorkerView { completed: q.completed.push(plan.result), ok: q.ok + 1, ..q }.log(
            "✓ "@ + q.show(plan.file) + " → "@ + q.show(plan.result),
        );
        lemma_next_file(kept, at + 1, k + 1, e);
        assert(w == kept.next_file(at + 1, false));
    } else {
        match event {
            WorkEvent::Failed(text) => {
                lemma_next_file(
                    q.count_failure().log("⚠ 실패: "@ + rel + " — "@ + text),
                    at + 1,
                    k,
                    e,
                );
            },
            WorkEvent::Panicked => {
                lemma_next_file(
                    q.count_failure().log("⚠ 내부 오류로 건너뜀: "@ + rel),
                    at + 1,
                    k,
                    e,
                );
            },
            _ => {},
        }
    }
}

/// The job is brought to its end.
proof fn lemma_finish(v: WorkerView, word: Word, w: WorkerView, k: nat, e: nat, end: Ending)
    requires
        goes_on(v, word, w),
        is_counted(v, k, e, end),
        v.stage is Arrange || v.stage is Claim || v.stage is Commit || v.stage is Recover,
    ensures
        is_counted(w, k, e, ending_with(end, v, word)),
{
    let q = v.quiet();
    if let Word::Step { event } = word {
        match v.stage {
            WorkStage::Claim => {
                assert(is_reported(q.finish(), (q.ok, q.failed)));
            },
            WorkStage::Commit => {
                assert(is_reported(q.finish(), (q.ok, q.failed)));
                if let WorkEvent::CommitFailed { committed, text } = event {
                    if committed {
                        let last = q.count_failure().warn("완료 처리 중 오류: "@ + text);
                        assert(is_reported(last.finish(), (last.ok, last.failed)));
                    }
                }
            },
            WorkStage::Recover => {
                let done = q.warn(v.notice + "\n이번 작업의 변경 사항을 되돌렸습니다."@);
                assert(is_reported(done.finish(), (q.ok, q.failed)));
                if let WorkEvent::Failed(text) = event {
                    let hurt = q.warn(v.notice + "\n복구 중 오류: "@ + text);
                    assert(is_reported(hurt.finish(), (q.ok, q.failed)));
                }
            },
            _ => {},
        }
    }
}

/// Each moment keeps the counts right.
proof fn lemma_moment(v: WorkerView, word: Word, w: WorkerView, k: nat, e: nat, end: Ending)
    requires
        goes_on(v, word, w),
        is_counted(v, k, e, end),
    ensures
        is_counted(
            w,
            if is_result(v, word) {
                k + 1
            } else {
                k
            },
            if is_scan_error(v, word) {
                e + 1
            } else {
                e
            },
            ending_with(end, v, word),
        ),
{
    match v.stage {
        WorkStage::Survey | WorkStage::Scan | WorkStage::Tracks { .. } => {
            lemma_search(v, word, w, e);
        },
        WorkStage::Open { .. } | WorkStage::Convert { .. } | WorkStage::Defer { .. } => {
            lemma_file(v, word, w, k, e);
        },
        _ => {
            lemma_finish(v, word, w, k, e, end);
        },
    }
}

proof fn lemma_job(views: Seq<WorkerView>, words: Seq<Word>, settings: SettingsView)
    requires
        is_job(views, words, settings),
    ensures
        is_counted(
            views.last(),
            results(views, words),
            scan_errors(views, words),
            ending(views, words),
        ),
    decreases words.len(),
{
    if words.len() > 0 {
        let (front, earlier) = (views.drop_last(), words.drop_last());
        let last = words.len() - 1;
        assert forall|t: int| 0 <= t < earlier.len() implies goes_on(
            front[t],
            #[trigger] earlier[t],
            front[t + 1],
        ) by {
            assert(goes_on(views[t], words[t], views[t + 1]));
        }
        assert(front[0] == views[0]);
        lemma_job(front, earlier, settings);
        assert(goes_on(views[last], words[last], views[last + 1]));
        assert(front.last() == views[last]);
        lemma_moment(
            views[last],
            words[last],
            views[last + 1],
            results(front, earlier),
            scan_errors(front, earlier),
            ending(front, earlier),
        );
    }
}

/// A job that the user does not cancel accounts for every file: once it is over, its last message
/// says how many results it made, and how many files it did not convert, with one more for each
/// error that came up while files were looked for. Where making the results final left something
/// behind, that counts as one more failure; where nothing could be made final, no result counts,
/// and each is a failure instead, or the job itself where there was none.
pub proof fn a_whole_job_accounts_for_every_file(
    views: Seq<WorkerView>,
    words: Seq<Word>,
    settings: SettingsView,
)
    requires
        is_job(views, words, settings),
        views.last().stage == WorkStage::Over,
    ensures
        results(views, words) <= views.last().files.len(),
        is_reported(
            views.last(),
            report(
                views.last().files.len(),
                results(views, words),
                scan_errors(views, words),
                ending(views, words),
            ),
        ),
{
    lemma_job(views, words, settings);
}

} // verus!
