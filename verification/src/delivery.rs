//! What the results of a job hold.
use crate::convert::OutputFormat;
use crate::disk::{happens, is_file, look, refusal, Disk, Node, Outcome};
use crate::journal::{Entry, Journal, Stage};
use crate::path::PathView;
use crate::reversal::{
    a_committed_job_leaves_all_else_alone, follows, inputs_are_decoded_as_they_were, is_history,
    is_open, is_reversible, is_start, jobs_stay_reversible, ledger, lemma_held, lemma_notes,
    lemma_temporary_place, names_are_known, Event, Moment,
};
use vstd::prelude::*;

verus! {

/// A conversion: what was converted, into which format, and what came of it.
pub struct Made {
    pub from: Option<Node>,
    pub format: Option<OutputFormat>,
    pub result: Option<Node>,
}

/// What was delivered to each place.
pub type Delivered = Map<PathView, Made>;

/// The last conversion, with what was heard last.
pub open spec fn next_made(before: Made, m: Moment, event: Event, n: Moment) -> Made {
    if m.job.stage is Converting && event is Answer {
        Made {
            from: look(m.disk, m.job.work.source.key(m.job.fold_case)),
            format: m.job.work.format,
            result: look(n.disk, m.job.work.staged.key(m.job.fold_case)),
        }
    } else {
        before
    }
}

/// What was delivered, with what was heard last: a result is delivered once it was moved to its
/// destination.
pub open spec fn next_delivered(
    before: Delivered,
    made: Made,
    m: Moment,
    event: Event,
) -> Delivered {
    match event {
        Event::Answer { outcome } => if m.job.stage is Publish && refusal(outcome) is None {
            before.insert(m.job.work.destination.key(m.job.fold_case), made)
        } else {
            before
        },
        _ => before,
    }
}

/// The last conversion of a job, which had not begun at first.
pub open spec fn made(moments: Seq<Moment>, events: Seq<Event>) -> Made
    decreases events.len(),
{
    if events.len() == 0 {
        Made { from: None, format: None, result: None }
    } else {
        next_made(
            made(moments.drop_last(), events.drop_last()),
            moments[events.len() - 1],
            events.last(),
            moments.last(),
        )
    }
}

/// What a job has delivered: for each place, the last conversion that was moved there.
pub open spec fn delivered(moments: Seq<Moment>, events: Seq<Event>) -> Delivered
    decreases events.len(),
{
    if events.len() == 0 {
        Map::empty()
    } else {
        next_delivered(
            delivered(moments.drop_last(), events.drop_last()),
            made(moments.drop_last(), events.drop_last()),
            moments[events.len() - 1],
            events.last(),
        )
    }
}

/// A result stands at this place.
pub open spec fn has_result(v: Journal, k: PathView) -> bool {
    exists|i: int|
        0 <= i < v.outputs.len() && (#[trigger] v.outputs[i]).published
            && v.outputs[i].destination.key(v.fold_case) == k
}

/// Every result that stands holds what was delivered to its place.
pub open spec fn holds_results(v: Journal, d: Disk, all: Delivered) -> bool {
    forall|k: PathView| #[trigger]
        has_result(v, k) ==> all.dom().contains(k) && look(d, k) == all[k].result
}

/// The conversion lies ready, and an earlier result that was set aside is still there.
pub open spec fn holds_work(v: Journal, d: Disk, last: Made, all: Delivered) -> bool {
    let staged = look(d, v.work.staged.key(v.fold_case));
    let aside = look(d, v.work.aside.key(v.fold_case));
    let place = v.work.destination.key(v.fold_case);
    &&& match v.stage {
        Stage::FindParent { .. }
        | Stage::CheckChain { .. }
        | Stage::MakeFolder { .. }
        | Stage::Target
        | Stage::SetAside
        | Stage::ProbeTarget
        | Stage::MapOriginal
        | Stage::KeepOriginal
        | Stage::Publish => staged == last.result,
        _ => true,
    }
    &&& (v.stage is Publish || v.stage is Restore) && !v.work.fresh ==> all.dom().contains(place)
        && aside == all[place].result
}

/// Entries for different results have different places.
proof fn lemma_one_entry(v: Journal, i: int, j: int)
    requires
        ledger(v).layout(),
        0 <= i < v.outputs.len(),
        0 <= j < v.outputs.len(),
        v.outputs[i].destination.key(v.fold_case) == v.outputs[j].destination.key(v.fold_case),
    ensures
        i == j,
{
    let c = ledger(v);
    if i < j {
        assert(c.key(c.outputs[i].destination) != c.key(c.outputs[j].destination));
    } else if j < i {
        assert(c.key(c.outputs[j].destination) != c.key(c.outputs[i].destination));
    }
}

/// A step brings no result to any place but that of the conversion under way.
proof fn lemma_result_was_there(v: Journal, o: Outcome<Seq<char>>, k: PathView)
    requires
        v.wf(),
        has_result(v.step(o), k),
        v.stage is Publish || v.stage is Restore ==> k != v.outputs[v.work.index as int].destination.key(
            v.fold_case,
        ),
    ensures
        has_result(v, k),
{
    let w = v.step(o);
    let i = choose|i: int|
        0 <= i < w.outputs.len() && (#[trigger] w.outputs[i]).published
            && w.outputs[i].destination.key(w.fold_case) == k;
    match v.stage {
        Stage::Target => {
            assert(w.outputs == v.outputs && w.fold_case == v.fold_case);
        },
        Stage::ProbeTarget => {
            assert(w == v.after_probe_target(o));
            assert(v.outputs[i] == w.outputs[i]);
        },
        Stage::KeepOriginal => {
            assert(w == v.after_keep_original(o));
            assert(v.outputs[i] == w.outputs[i]);
        },
        Stage::Publish => {
            assert(w == v.after_publish(o));
            lemma_after_drop(v, w, i);
        },
        Stage::Restore => {
            assert(w == v.after_restore(o));
            lemma_after_drop(v, w, i);
        },
        Stage::SetAside => {
            assert(w == v.after_set_aside(o));
            assert(v.outputs[i].destination == w.outputs[i].destination);
        },
        Stage::Withdraw { left } => {
            assert(w == v.after_withdraw(left, o));
            assert(v.outputs[i].destination == w.outputs[i].destination);
        },
        Stage::PutBack { left } => {
            assert(w == v.after_put_back(left, o));
            assert(v.outputs[i].destination == w.outputs[i].destination);
        },
        Stage::Purge { at } => {
            assert(w == v.after_purge(at, o));
            assert(v.outputs[i].destination == w.outputs[i].destination);
        },
        _ => {
            assert(w.outputs == v.outputs && w.fold_case == v.fold_case);
        },
    }
}

/// An entry that is there once another was dropped or changed was there before.
proof fn lemma_after_drop(v: Journal, w: Journal, i: int)
    requires
        v.work.index < v.outputs.len(),
        w.fold_case == v.fold_case,
        0 <= i < w.outputs.len(),
        w.outputs[i].published,
        w.outputs[i].destination.key(v.fold_case) != v.outputs[v.work.index as int].destination.key(
            v.fold_case,
        ),
        w.outputs == v.outputs.remove(v.work.index as int) || w.outputs == v.outputs || (
        w.outputs.len() == v.outputs.len() && w.outputs[v.work.index as int].destination
            == v.outputs[v.work.index as int].destination && forall|j: int|
            0 <= j < v.outputs.len() && j != v.work.index ==> #[trigger] w.outputs[j]
                == v.outputs[j]),
    ensures
        has_result(v, w.outputs[i].destination.key(v.fold_case)),
{
    let at = v.work.index as int;
    if w.outputs == v.outputs.remove(at) {
        let j = if i < at {
            i
        } else {
            i + 1
        };
        assert(v.outputs[j] == w.outputs[i]);
    } else {
        assert(i != at);
        assert(v.outputs[i] == w.outputs[i]);
    }
}

/// A result that stands before and after a step is not touched by it.
proof fn lemma_result_untouched(
    v: Journal,
    o: Outcome<Seq<char>>,
    d0: Disk,
    d: Disk,
    e: Disk,
    k: PathView,
)
    requires
        is_open(v, d0, d),
        happens(v.fold_case, v.action(), o, d, e),
        has_result(v, k),
        has_result(v.step(o), k),
        v.stage is Publish || v.stage is Restore ==> k != v.work.destination.key(v.fold_case),
    ensures
        look(e, k) == look(d, k),
{
    let c = ledger(v);
    let w = v.step(o);
    let i = choose|i: int|
        0 <= i < v.outputs.len() && (#[trigger] v.outputs[i]).published
            && v.outputs[i].destination.key(v.fold_case) == k;
    assert(c.outside(c.outputs[i].destination));
    assert(is_file(look(d, c.key(c.outputs[i].destination))));
    lemma_notes(c);
    match v.stage {
        Stage::Converting => lemma_temporary_place(c, v.work.staged.key(v.fold_case)),
        Stage::SetAside => {
            lemma_temporary_place(c, v.work.aside.key(v.fold_case));
            assert(w == v.after_set_aside(o));
            if refusal(o) is None && k == v.work.destination.key(v.fold_case) {
                lemma_gone(v, w, v.work.index as int, k);
            }
        },
        Stage::KeepOriginal => {
            lemma_held(c, v.work.aside);
            assert(c.has_entry(k));
        },
        Stage::Publish => lemma_temporary_place(c, v.work.staged.key(v.fold_case)),
        Stage::Restore => {
            if v.work.fresh {
                assert(v.outputs[v.work.index as int].original is Some);
                lemma_held(c, c.outputs[v.work.index as int].original->0);
            } else {
                lemma_temporary_place(c, v.work.aside.key(v.fold_case));
            }
        },
        Stage::Discard => lemma_temporary_place(c, v.work.aside.key(v.fold_case)),
        Stage::MoveSource { at } => {
            lemma_held(c, v.work.aside);
            assert(!v.stays(v.deferred_sources[at as int]));
        },
        Stage::Withdraw { left } => {
            assert(w == v.after_withdraw(left, o));
            if left > 0 && v.outputs[left - 1].published && k == v.outputs[left
                - 1].destination.key(v.fold_case) {
                if crate::disk::removal_refusal(o) is None {
                    lemma_gone(v, w, left - 1, k);
                }
            }
        },
        Stage::PutBack { left } => {
            lemma_held(c, c.outputs[left - 1].original->0);
            if k == v.outputs[left - 1].destination.key(v.fold_case) {
                lemma_one_entry(v, i, left - 1);
            }
        },
        Stage::Return { at } => {
            assert(c.held(c.removed_sources[at as int].backup));
            lemma_held(c, c.removed_sources[at as int].backup);
        },
        Stage::Temporaries { at } => {
            if at < v.temporary_files.len() {
                assert(c.held(c.temporary_files[at as int]));
                lemma_held(c, c.temporary_files[at as int]);
            }
        },
        Stage::Workspace => {
            let base = c.base();
            assert(base.parts.take(base.parts.len() as int) =~= base.parts);
        },
        _ => {},
    }
}

/// A result that was taken from its place does not stand there.
proof fn lemma_gone(v: Journal, w: Journal, at: int, k: PathView)
    requires
        ledger(v).layout(),
        0 <= at < v.outputs.len(),
        v.outputs[at].destination.key(v.fold_case) == k,
        w.fold_case == v.fold_case,
        w.outputs == v.outputs.update(
            at,
            Entry { published: false, ..v.outputs[at] },
        ),
    ensures
        !has_result(w, k),
{
    if has_result(w, k) {
        let j = choose|j: int|
            0 <= j < w.outputs.len() && (#[trigger] w.outputs[j]).published
                && w.outputs[j].destination.key(w.fold_case) == k;
        assert(v.outputs[j].destination == w.outputs[j].destination);
        lemma_one_entry(v, j, at);
    }
}

/// The conversion that lies ready is not touched until it is moved to its destination.
proof fn lemma_work_untouched(v: Journal, o: Outcome<Seq<char>>, d0: Disk, d: Disk, e: Disk)
    requires
        is_open(v, d0, d),
        happens(v.fold_case, v.action(), o, d, e),
        match v.stage {
            Stage::FindParent { .. }
            | Stage::CheckChain { .. }
            | Stage::MakeFolder { .. }
            | Stage::Target
            | Stage::SetAside
            | Stage::ProbeTarget
            | Stage::MapOriginal
            | Stage::KeepOriginal => true,
            _ => false,
        },
    ensures
        look(e, v.work.staged.key(v.fold_case)) == look(d, v.work.staged.key(v.fold_case)),
        v.step(o).work.staged == v.work.staged,
        v.step(o).fold_case == v.fold_case,
        !(v.step(o).stage is Restore),
        v.step(o).stage is Publish && !(v.stage is SetAside) ==> v.step(o).work.fresh,
{
    let c = ledger(v);
    let staged = v.work.staged.key(v.fold_case);
    let w = v.step(o);
    lemma_temporary_place(c, staged);
    lemma_notes(c);
    match v.stage {
        Stage::Target => {
            assert(w == v.after_target(o));
        },
        Stage::ProbeTarget => {
            assert(w == v.after_probe_target(o));
        },
        Stage::SetAside => {
            assert(w == v.after_set_aside(o));
        },
        Stage::KeepOriginal => {
            assert(w == v.after_keep_original(o));
            assert(c.key(v.work.aside) != staged);
        },
        _ => {},
    }
}

/// A step of an open job keeps what its results hold.
proof fn lemma_holds_next(
    m: Moment,
    o: Outcome<Seq<char>>,
    n: Moment,
    d0: Disk,
    last: Made,
    all: Delivered,
)
    requires
        follows(m, Event::Answer { outcome: o }, n),
        is_open(m.job, d0, m.disk),
        holds_results(m.job, m.disk, all),
        holds_work(m.job, m.disk, last, all),
    ensures
        holds_results(
            n.job,
            n.disk,
            next_delivered(all, last, m, Event::Answer { outcome: o }),
        ),
{
    let (v, w, d, e) = (m.job, n.job, m.disk, n.disk);
    let event = Event::Answer { outcome: o };
    let next = next_delivered(all, last, m, event);
    let place = v.work.destination.key(v.fold_case);
    assert(w.fold_case == v.fold_case) by {
        crate::reversal::lemma_settings_stay(v, o);
    }
    assert forall|k: PathView| #[trigger] has_result(w, k) implies next.dom().contains(k) && look(
        e,
        k,
    ) == next[k].result by {
        if (v.stage is Publish || v.stage is Restore) && k == place {
            lemma_result_placed(v, o, d0, d, e, last, all);
        } else {
            lemma_result_was_there(v, o, k);
            lemma_result_untouched(v, o, d0, d, e, k);
        }
    }
}

/// The result at the place of the conversion under way, once it was moved there or put back.
proof fn lemma_result_placed(
    v: Journal,
    o: Outcome<Seq<char>>,
    d0: Disk,
    d: Disk,
    e: Disk,
    last: Made,
    all: Delivered,
)
    requires
        is_open(v, d0, d),
        happens(v.fold_case, v.action(), o, d, e),
        v.stage is Publish || v.stage is Restore,
        holds_work(v, d, last, all),
        has_result(v.step(o), v.work.destination.key(v.fold_case)),
    ensures
        ({
            let place = v.work.destination.key(v.fold_case);
            if v.stage is Publish {
                refusal(o) is None && look(e, place) == last.result
            } else {
                all.dom().contains(place) && look(e, place) == all[place].result
            }
        }),
{
    let place = v.work.destination.key(v.fold_case);
    let w = v.step(o);
    let at = v.work.index as int;
    let i = choose|i: int|
        0 <= i < w.outputs.len() && (#[trigger] w.outputs[i]).published
            && w.outputs[i].destination.key(w.fold_case) == place;
    if v.stage is Publish {
        assert(w == v.after_publish(o));
        if refusal(o) is Some {
            lemma_none_published(v, w, i);
        }
    } else {
        assert(w == v.after_restore(o));
        if refusal(o) is Some || v.work.fresh {
            lemma_none_published(v, w, i);
        }
    }
}

/// As long as nothing is moved to the place of the conversion under way, no result stands there.
proof fn lemma_none_published(v: Journal, w: Journal, i: int)
    requires
        ledger(v).layout(),
        v.work.index < v.outputs.len(),
        !v.outputs[v.work.index as int].published,
        v.outputs[v.work.index as int].destination.key(v.fold_case) == v.work.destination.key(
            v.fold_case,
        ),
        w.fold_case == v.fold_case,
        w.outputs == v.outputs || w.outputs == v.outputs.remove(v.work.index as int),
        0 <= i < w.outputs.len(),
        w.outputs[i].destination.key(v.fold_case) == v.work.destination.key(v.fold_case),
    ensures
        !w.outputs[i].published,
{
    let at = v.work.index as int;
    let j = if w.outputs == v.outputs || i < at {
        i
    } else {
        i + 1
    };
    assert(v.outputs[j] == w.outputs[i]);
    lemma_one_entry(v, j, at);
}

/// A step of an open job keeps what lies ready.
proof fn lemma_work_next(
    m: Moment,
    o: Outcome<Seq<char>>,
    n: Moment,
    d0: Disk,
    last: Made,
    all: Delivered,
)
    requires
        follows(m, Event::Answer { outcome: o }, n),
        is_open(m.job, d0, m.disk),
        holds_results(m.job, m.disk, all),
        holds_work(m.job, m.disk, last, all),
    ensures
        ({
            let event = Event::Answer { outcome: o };
            holds_work(
                n.job,
                n.disk,
                next_made(last, m, event, n),
                next_delivered(all, last, m, event),
            )
        }),
{
    let (v, w, d, e) = (m.job, n.job, m.disk, n.disk);
    let c = ledger(v);
    match v.stage {
        Stage::Converting => {
            assert(w == v.after_converting(o));
        },
        Stage::FindParent { .. }
        | Stage::CheckChain { .. }
        | Stage::MakeFolder { .. }
        | Stage::Target
        | Stage::ProbeTarget
        | Stage::MapOriginal
        | Stage::KeepOriginal => lemma_work_untouched(v, o, d0, d, e),
        Stage::SetAside => {
            lemma_work_untouched(v, o, d0, d, e);
            assert(w == v.after_set_aside(o));
            assert(has_result(v, v.work.destination.key(v.fold_case)));
        },
        Stage::Publish => {
            assert(w == v.after_publish(o));
        },
        _ => {
            lemma_elsewhere(v, o);
        },
    }
}

/// No other stage leads to a conversion.
proof fn lemma_elsewhere(v: Journal, o: Outcome<Seq<char>>)
    requires
        match v.stage {
            Stage::Converting
            | Stage::FindParent { .. }
            | Stage::CheckChain { .. }
            | Stage::MakeFolder { .. }
            | Stage::Target
            | Stage::SetAside
            | Stage::ProbeTarget
            | Stage::MapOriginal
            | Stage::KeepOriginal
            | Stage::Publish => false,
            _ => true,
        },
        v.stage != Stage::Idle,
    ensures
        match v.step(o).stage {
            Stage::FindParent { .. }
            | Stage::CheckChain { .. }
            | Stage::MakeFolder { .. }
            | Stage::Target
            | Stage::SetAside
            | Stage::ProbeTarget
            | Stage::MapOriginal
            | Stage::KeepOriginal
            | Stage::Publish
            | Stage::Restore => false,
            _ => true,
        },
{
    let w = v.step(o);
    match v.stage {
        Stage::Restore => assert(w == v.after_restore(o)),
        Stage::Check { at } => assert(w == v.after_check(at, o)),
        Stage::Source { at } => assert(w == v.after_source(at)),
        Stage::MoveSource { at } => assert(w == v.after_move_source(at, o)),
        Stage::Purge { at } => assert(w == v.after_purge(at, o)),
        Stage::PurgeSource { at } => assert(w == v.after_purge_source(at, o)),
        Stage::Withdraw { left } => assert(w == v.after_withdraw(left, o)),
        Stage::Reinstate { left } => assert(w == v.after_reinstate(left, o)),
        Stage::PutBack { left } => assert(w == v.after_put_back(left, o)),
        Stage::Sources { at } => assert(w == v.after_sources(at, o)),
        Stage::Return { at } => assert(w == v.after_return(at, o)),
        Stage::Folders { left } => assert(w == v.after_folders(left, o)),
        Stage::Temporaries { at } => assert(w == v.after_temporaries(at, o)),
        Stage::Mapping => assert(w == v.after_mapping(o)),
        Stage::Workspace => assert(w == v.after_workspace(o)),
        _ => {},
    }
}

/// Cleaning up after a commit keeps what the results hold.
proof fn lemma_sealed_next(
    m: Moment,
    o: Outcome<Seq<char>>,
    n: Moment,
    last: Made,
    all: Delivered,
)
    requires
        follows(m, Event::Answer { outcome: o }, n),
        crate::reversal::is_sealed(m.job, m.disk),
        n.job.names_are_known(),
        holds_results(m.job, m.disk, all),
    ensures
        holds_results(n.job, n.disk, all),
        holds_work(n.job, n.disk, last, all),
{
    let (v, w) = (m.job, n.job);
    let c = ledger(v);
    a_committed_job_leaves_all_else_alone(v, o, m.disk, n.disk);
    assert forall|k: PathView| #[trigger] has_result(w, k) implies all.dom().contains(k) && look(
        n.disk,
        k,
    ) == all[k].result by {
        lemma_result_was_there(v, o, k);
        let i = choose|i: int|
            0 <= i < v.outputs.len() && (#[trigger] v.outputs[i]).published
                && v.outputs[i].destination.key(v.fold_case) == k;
        assert(c.outside(c.outputs[i].destination));
    }
}

/// Beginning an operation touches no result.
proof fn lemma_begins(m: Moment, event: Event, n: Moment, last: Made, all: Delivered)
    requires
        follows(m, event, n),
        !(event is Answer),
        holds_results(m.job, m.disk, all),
    ensures
        holds_results(n.job, n.disk, all),
        holds_work(n.job, n.disk, last, all),
{
    let (v, w) = (m.job, n.job);
    assert(w.outputs == v.outputs && w.fold_case == v.fold_case);
    assert forall|k: PathView| #[trigger] has_result(w, k) implies all.dom().contains(k) && look(
        n.disk,
        k,
    ) == all[k].result by {
        let i = choose|i: int|
            0 <= i < w.outputs.len() && (#[trigger] w.outputs[i]).published
                && w.outputs[i].destination.key(w.fold_case) == k;
        assert(v.outputs[i].published);
        assert(has_result(v, k));
    }
}

proof fn lemma_course(moments: Seq<Moment>, events: Seq<Event>, d0: Disk)
    requires
        is_history(moments, events),
        is_start(moments[0], d0),
        names_are_known(moments),
    ensures
        holds_results(moments.last().job, moments.last().disk, delivered(moments, events)),
        holds_work(
            moments.last().job,
            moments.last().disk,
            made(moments, events),
            delivered(moments, events),
        ),
    decreases events.len(),
{
    if events.len() > 0 {
        crate::aftermath::lemma_earlier(moments, events);
        let (front, earlier) = (moments.drop_last(), events.drop_last());
        lemma_course(front, earlier, d0);
        jobs_stay_reversible(front, earlier, d0);
        let (m, n) = (front.last(), moments.last());
        let (last, all) = (made(front, earlier), delivered(front, earlier));
        lemma_moment(m, events.last(), n, d0, last, all);
    }
}

proof fn lemma_moment(
    m: Moment,
    event: Event,
    n: Moment,
    d0: Disk,
    last: Made,
    all: Delivered,
)
    requires
        follows(m, event, n),
        is_reversible(m.job, d0, m.disk),
        n.job.names_are_known(),
        holds_results(m.job, m.disk, all),
        holds_work(m.job, m.disk, last, all),
    ensures
        holds_results(n.job, n.disk, next_delivered(all, last, m, event)),
        holds_work(
            n.job,
            n.disk,
            next_made(last, m, event, n),
            next_delivered(all, last, m, event),
        ),
{
    match event {
        Event::Answer { outcome } => {
            if m.job.committed {
                lemma_sealed_next(m, outcome, n, last, all);
            } else {
                lemma_holds_next(m, outcome, n, d0, last, all);
                lemma_work_next(m, outcome, n, d0, last, all);
            }
        },
        _ => lemma_begins(m, event, n, last, all),
    }
}

/// A result holds what its conversion gave: from the moment it is moved to its destination, as long
/// as it stands there, also once the job is committed, its file is the one that the last conversion
/// for this place left in the workspace.
pub proof fn results_hold_what_was_converted(moments: Seq<Moment>, events: Seq<Event>, d0: Disk)
    requires
        is_history(moments, events),
        is_start(moments[0], d0),
        names_are_known(moments),
    ensures
        ({
            let (v, d) = (moments.last().job, moments.last().disk);
            forall|i: int|
                0 <= i < v.outputs.len() && (#[trigger] v.outputs[i]).published ==> {
                    let k = v.outputs[i].destination.key(v.fold_case);
                    &&& delivered(moments, events).dom().contains(k)
                    &&& look(d, k) == delivered(moments, events)[k].result
                }
        }),
{
    lemma_course(moments, events, d0);
    let v = moments.last().job;
    assert forall|i: int| 0 <= i < v.outputs.len() && (#[trigger] v.outputs[i]).published implies {
        let k = v.outputs[i].destination.key(v.fold_case);
        &&& delivered(moments, events).dom().contains(k)
        &&& look(moments.last().disk, k) == delivered(moments, events)[k].result
    } by {
        assert(has_result(v, v.outputs[i].destination.key(v.fold_case)));
    }
}

/// What holds of a job up to a moment.
proof fn lemma_so_far(moments: Seq<Moment>, events: Seq<Event>, t: int)
    requires
        is_history(moments, events),
        names_are_known(moments),
        0 <= t <= events.len(),
    ensures
        is_history(moments.take(t + 1), events.take(t)),
        names_are_known(moments.take(t + 1)),
        moments.take(t + 1)[0] == moments[0],
        moments.take(t + 1).last() == moments[t],
{
    let (front, earlier) = (moments.take(t + 1), events.take(t));
    assert forall|i: int| 0 <= i < earlier.len() implies follows(
        front[i],
        #[trigger] earlier[i],
        front[i + 1],
    ) by {
        assert(follows(moments[i], events[i], moments[i + 1]));
    }
    assert forall|i: int| 0 <= i < front.len() implies (
    #[trigger] front[i]).job.names_are_known() by {
        assert(moments[i].job.names_are_known());
    }
}

/// A conversion is one of the input as it stood before the job, into the format that was asked for,
/// also where the job has put another result in the place of the input by then.
pub proof fn conversions_use_the_input_as_it_was(
    moments: Seq<Moment>,
    events: Seq<Event>,
    d0: Disk,
    t: int,
    input: PathView,
    destination: Option<PathView>,
    format: OutputFormat,
)
    requires
        is_history(moments, events),
        is_start(moments[0], d0),
        names_are_known(moments),
        0 <= t < events.len() - 1,
        events[t] == (Event::Convert { input: Some(input), destination, format }),
        moments[t + 1].job.stage is Converting,
        is_file(look(d0, input.key(moments[t].job.fold_case))),
        ledger(moments[t].job).outside(input),
        !ledger(moments[t].job).has_source(input.key(moments[t].job.fold_case)),
    ensures
        ({
            let last = made(moments.take(t + 3), events.take(t + 2));
            &&& last.from == look(d0, input.key(moments[t].job.fold_case))
            &&& last.format == Some(format)
            &&& last.result == look(
                moments[t + 2].disk,
                moments[t + 1].job.work.staged.key(moments[t].job.fold_case),
            )
        }),
{
    lemma_so_far(moments, events, t);
    jobs_stay_reversible(moments.take(t + 1), events.take(t), d0);
    let (m, n) = (moments[t], moments[t + 1]);
    assert(follows(moments[t], events[t], moments[t + 1]));
    assert(follows(moments[t + 1], events[t + 1], moments[t + 1 + 1]));
    assert(!m.job.finished);
    inputs_are_decoded_as_they_were(m.job, d0, m.disk, input);
    let (front, earlier) = (moments.take(t + 3), events.take(t + 2));
    assert(earlier.last() == events[t + 1]);
    assert(front[earlier.len() - 1] == n && front.last() == moments[t + 2]);
}

} // verus!
