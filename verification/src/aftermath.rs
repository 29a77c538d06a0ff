//! What is left of a job once it is over, and what a job leaves undone.
use crate::disk::{happens, is_empty, is_file, is_tree, look, Action, Disk, Node, Outcome};
use crate::journal::{countable, distance, operations_end, Journal, Stage};
use crate::path::PathView;
use crate::reversal::{
    a_committed_job_leaves_all_else_alone, all_clean, an_unhindered_rollback_succeeds, follows,
    is_clean, is_history, is_obstacle, is_open, is_reversible, is_start, is_temporary,
    jobs_stay_reversible, ledger, lemma_held, lemma_notes, lemma_prefix_key, lemma_settings_stay,
    lemma_temporary_place, names_are_known, what_is_kept_is_noted_first, Event, Ledger,
    Moment,
};
use crate::text::joined;
use vstd::prelude::*;

verus! {

// ---------------------------------------------------------------------------
// The workspace is swept
// ---------------------------------------------------------------------------

/// Where a job is over and nothing went wrong at its end, its workspace is gone. A job that was
/// taken back is over only so.
pub open spec fn is_swept(m: Moment) -> bool {
    &&& m.job.finished && !m.job.committed ==> m.job.stage == Stage::Idle && m.job.errors.len() == 0
    &&& m.job.finished && m.job.stage == Stage::Idle && m.job.errors.len() == 0 ==> look(
        m.disk,
        ledger(m.job).base(),
    ) is None
    &&& m.job.finished ==> match m.job.stage {
        Stage::Idle
        | Stage::Purge { .. }
        | Stage::PurgeSource { .. }
        | Stage::Temporaries { .. }
        | Stage::Mapping
        | Stage::Workspace => true,
        _ => false,
    }
}

proof fn lemma_swept(m: Moment, event: Event, n: Moment)
    requires
        follows(m, event, n),
        is_swept(m),
    ensures
        is_swept(n),
        ledger(n.job).base() == ledger(m.job).base(),
{
    let v = m.job;
    match event {
        Event::Answer { outcome } => {
            lemma_settings_stay(v, outcome);
            let w = v.step(outcome);
            match v.stage {
                Stage::Workspace => {},
                Stage::Target => assert(v.after_target(outcome).finished == v.finished),
                Stage::Publish => assert(v.after_publish(outcome).finished == v.finished),
                Stage::Restore => assert(v.after_restore(outcome).finished == v.finished),
                Stage::Purge { at } => assert(w.stage != Stage::Idle),
                Stage::Temporaries { at } => {
                    assert(w.finished == v.finished && w.committed == v.committed);
                    assert(w.stage == Stage::Idle ==> w.errors.len() > 0);
                },
                Stage::Mapping => {
                    assert(w.finished == v.finished && w.committed == v.committed);
                    assert(w.stage == Stage::Idle ==> w.errors.len() > 0);
                },
                _ => {},
            }
        },
        _ => {},
    }
}

// ---------------------------------------------------------------------------
// No folder is left
// ---------------------------------------------------------------------------

/// A folder stands there.
pub open spec fn is_folder(d: Disk, k: PathView) -> bool {
    look(d, k) == Some(Node::Folder)
}

/// A folder that is there still holds something.
pub open spec fn is_used(d: Disk, k: PathView) -> bool {
    is_folder(d, k) ==> !is_empty(d, k)
}

/// A folder that was created before the folder around it was created again with it.
pub open spec fn folders_nest(c: Ledger, d: Disk) -> bool {
    forall|a: int, b: int|
        0 <= a < b < c.created_directories.len() && c.key(#[trigger] c.created_directories[a])
            != c.key(#[trigger] c.created_directories[b]) && c.key(
            c.created_directories[a],
        ).within(c.key(c.created_directories[b])) && is_folder(d, c.key(c.created_directories[a]))
            ==> is_repeated(c, a, b)
}

pub open spec fn is_repeated(c: Ledger, a: int, b: int) -> bool {
    exists|i: int|
        b < i < c.created_directories.len() && c.key(#[trigger] c.created_directories[i]) == c.key(
            c.created_directories[a],
        )
}

/// From this one on, the folders that the job created are gone or still in use.
pub open spec fn folders_gone(c: Ledger, d: Disk, left: int) -> bool {
    forall|i: int|
        left <= i < c.created_directories.len() ==> is_used(
            d,
            c.key(#[trigger] c.created_directories[i]),
        )
}

/// How far the folders of a job are dealt with.
pub open spec fn is_tidy(m: Moment) -> bool {
    let c = ledger(m.job);
    let d = m.disk;
    &&& is_tree(d)
    &&& !m.job.committed ==> {
        &&& !m.job.finished ==> is_folder(d, c.base())
        &&& m.job.stage is Mapping || m.job.stage is Workspace ==> m.job.errors.len() == 0
        &&& forall|i: int|
            0 <= i < c.created_directories.len() ==> !c.base().within(
                c.key(#[trigger] c.created_directories[i]),
            )
        &&& folders_nest(c, d)
        &&& m.job.errors.len() == 0 ==> match m.job.stage {
            Stage::Folders { left } => folders_gone(c, d, left as int),
            Stage::Temporaries { .. } | Stage::Mapping | Stage::Workspace => folders_gone(c, d, 0),
            Stage::Idle => m.job.finished ==> folders_gone(c, d, 0),
            _ => true,
        }
    }
}

/// Of two places above a third, one lies above the other.
proof fn lemma_comparable(j: PathView, k: PathView, l: PathView)
    requires
        j.within(k),
        j.within(l),
    ensures
        k.within(l) || l.within(k),
{
    let (m, n) = (k.parts.len() as int, l.parts.len() as int);
    if m <= n {
        assert(l.parts.take(m) =~= j.parts.take(m));
    } else {
        assert(k.parts.take(n) =~= j.parts.take(n));
    }
}

/// Folders come and go only where the job creates or removes one.
proof fn lemma_same_folders(v: Journal, o: Outcome<Seq<char>>, d0: Disk, d: Disk, e: Disk)
    requires
        is_open(v, d0, d),
        happens(v.fold_case, v.action(), o, d, e),
        !(v.stage is MakeFolder),
        !(v.stage is Folders),
        !(v.stage is Workspace),
    ensures
        forall|k: PathView|
            !k.within(ledger(v).base()) || k == ledger(v).base() ==> #[trigger] is_folder(e, k)
                == is_folder(d, k),
{
    let c = ledger(v);
    match v.stage {
        Stage::Converting => {
            let k = v.work.staged.key(v.fold_case);
            lemma_temporary_place(c, k);
            let t = choose|t: int|
                0 <= t < c.temporary_files.len() && c.key(#[trigger] c.temporary_files[t]) == k;
            lemma_held(c, c.temporary_files[t]);
        },
        Stage::MapOriginal | Stage::MapSource { .. } => {
            lemma_notes(c);
            lemma_notes_apart(c);
        },
        _ => {},
    }
}

/// The notes are not the workspace itself.
proof fn lemma_notes_apart(c: Ledger)
    ensures
        c.key(c.workspace.child("recovery.txt"@)) != c.base(),
{
    assert(c.key(c.workspace.child("recovery.txt"@)).parts.len() == c.workspace.parts.len() + 1);
    assert(c.base().parts.len() == c.workspace.parts.len());
}

/// What is in use outside the workspace does not depend on what the workspace holds.
proof fn lemma_still_used(c: Ledger, d: Disk, e: Disk, left: int)
    requires
        c.layout(),
        forall|i: int|
            0 <= i < c.created_directories.len() ==> !c.base().within(
                c.key(#[trigger] c.created_directories[i]),
            ),
        0 <= left,
        forall|k: PathView| !k.within(c.base()) ==> #[trigger] look(e, k) == look(d, k),
        folders_gone(c, d, left),
    ensures
        folders_gone(c, e, left),
{
    assert forall|i: int| left <= i < c.created_directories.len() implies is_used(
        e,
        c.key(#[trigger] c.created_directories[i]),
    ) by {
        let k = c.key(c.created_directories[i]);
        assert(c.outside(c.created_directories[i]));
        assert(look(e, k) == look(d, k));
        if is_folder(e, k) {
            let j = choose|j: PathView| j != k && j.within(k) && !(#[trigger] look(d, j) is None);
            if j.within(c.base()) {
                lemma_comparable(j, k, c.base());
            }
            assert(look(e, j) == look(d, j));
        }
    }
}

proof fn lemma_tidy_make_folder(m: Moment, o: Outcome<Seq<char>>, n: Moment, d0: Disk)
    requires
        follows(m, Event::Answer { outcome: o }, n),
        is_tidy(m),
        is_open(m.job, d0, m.disk),
        m.job.stage is MakeFolder,
    ensures
        is_tidy(n),
{
    let (v, w, d, e) = (m.job, n.job, m.disk, n.disk);
    let (c, b) = (ledger(v), ledger(w));
    let at = v.stage->MakeFolder_at;
    assert(w == v.after_make_folder(at, o));
    if o is Failed {
        assert(b == c);
    } else {
        let folder = v.work.destination.prefix(at as int);
        let k = c.key(folder);
        assert(b == c.with_folder(folder));
        let last = c.created_directories.len() as int;
        if c.base().within(k) {
            assert(look(d, c.base()) is Some && look(d, k) is None);
        }
        if k.within(c.base()) {
            lemma_prefix_key(v.work.destination, at as int, c.base(), v.fold_case);
        }
        assert(!k.within(c.base()));
        assert(is_folder(e, c.base())) by {
            assert(c.base().parts.take(c.base().parts.len() as int) =~= c.base().parts);
            assert(c.base() != k);
            assert(look(e, c.base()) == look(d, c.base()));
        }
        assert forall|i: int| 0 <= i < b.created_directories.len() implies !b.base().within(
            b.key(#[trigger] b.created_directories[i]),
        ) by {
            if i < last {
                assert(b.created_directories[i] == c.created_directories[i]);
            }
        }
        assert forall|p: int, q: int|
            0 <= p < q < b.created_directories.len() && b.key(#[trigger] b.created_directories[p])
                != b.key(#[trigger] b.created_directories[q]) && b.key(
                b.created_directories[p],
            ).within(b.key(b.created_directories[q])) && is_folder(
                e,
                b.key(b.created_directories[p]),
            ) implies is_repeated(b, p, q) by {
            let inner = b.key(b.created_directories[p]);
            assert(b.created_directories[p] == c.created_directories[p]);
            if q < last {
                assert(b.created_directories[q] == c.created_directories[q]);
                if inner == k {
                    assert(b.key(b.created_directories[last]) == inner);
                } else {
                    assert(look(e, inner) == look(d, inner));
                    assert(is_repeated(c, p, q));
                    let i = choose|i: int|
                        q < i < c.created_directories.len() && c.key(
                            #[trigger] c.created_directories[i],
                        ) == inner;
                    assert(b.created_directories[i] == c.created_directories[i]);
                }
            } else {
                assert(look(e, inner) == look(d, inner));
                assert(look(d, inner) is Some && look(d, k) is None);
            }
        }
    }
}

proof fn lemma_tidy_folders(m: Moment, o: Outcome<Seq<char>>, n: Moment, d0: Disk)
    requires
        follows(m, Event::Answer { outcome: o }, n),
        is_tidy(m),
        is_open(m.job, d0, m.disk),
        m.job.stage is Folders,
    ensures
        is_tidy(n),
{
    let (v, w, d, e) = (m.job, n.job, m.disk, n.disk);
    let c = ledger(v);
    let left = v.stage->Folders_left;
    assert(w == v.after_folders(left, o));
    assert(ledger(w) == c);
    if left > 0 {
        let k = c.key(c.created_directories[left - 1]);
        assert(c.outside(c.created_directories[left - 1]));
        assert(c.base().parts.take(c.base().parts.len() as int) =~= c.base().parts);
        assert(k != c.base());
        if o is Failed {
            if w.errors.len() == 0 {
                assert(is_used(d, k));
                assert(folders_gone(c, d, left - 1)) by {
                    assert(folders_gone(c, d, left as int));
                }
            }
        } else {
            assert(look(e, c.base()) == look(d, c.base()));
            assert forall|j: PathView| is_folder(e, j) implies is_folder(d, j) && j != k by {
                if j != k {
                    assert(look(e, j) == look(d, j));
                }
            }
            assert(folders_nest(c, e));
            if w.errors.len() == 0 {
                assert(folders_gone(c, d, left as int));
                assert forall|i: int| left - 1 <= i < c.created_directories.len() implies is_used(
                    e,
                    c.key(#[trigger] c.created_directories[i]),
                ) by {
                    let p = c.key(c.created_directories[i]);
                    if is_folder(e, p) {
                        assert(is_folder(d, p) && p != k);
                        assert(i >= left);
                        let j = choose|j: PathView|
                            j != p && j.within(p) && !(#[trigger] look(d, j) is None);
                        if j == k {
                            assert(c.created_directories[left - 1] == c.created_directories[left
                                - 1]);
                            assert(is_repeated(c, left - 1, i));
                            let q = choose|q: int|
                                i < q < c.created_directories.len() && c.key(
                                    #[trigger] c.created_directories[q],
                                ) == k;
                            assert(is_used(d, c.key(c.created_directories[q])));
                            assert(false);
                        }
                        assert(look(e, j) == look(d, j));
                    }
                }
                assert(folders_gone(c, e, left - 1));
            }
        }
    }
}

proof fn lemma_tidy_cleanup(m: Moment, o: Outcome<Seq<char>>, n: Moment, d0: Disk)
    requires
        follows(m, Event::Answer { outcome: o }, n),
        is_tidy(m),
        is_open(m.job, d0, m.disk),
        m.job.names_are_known(),
        n.job.names_are_known(),
        m.job.stage is Temporaries || m.job.stage is Mapping,
    ensures
        is_tidy(n),
{
    let (v, w, d, e) = (m.job, n.job, m.disk, n.disk);
    let c = ledger(v);
    lemma_cleanup_inside(v, o, d0, d, e);
    lemma_same_folders(v, o, d0, d, e);
    lemma_same_created(c, d, e);
    assert(is_folder(e, c.base()) == is_folder(d, c.base()));
    match v.stage {
        Stage::Temporaries { at } => assert(w == v.after_temporaries(at, o)),
        _ => assert(w == v.after_mapping(o)),
    }
    assert(ledger(w) == c);
    if w.errors.len() == 0 {
        lemma_still_used(c, d, e, 0);
    }
}

proof fn lemma_tidy_workspace(m: Moment, o: Outcome<Seq<char>>, n: Moment, d0: Disk)
    requires
        follows(m, Event::Answer { outcome: o }, n),
        is_tidy(m),
        is_open(m.job, d0, m.disk),
        m.job.stage is Workspace,
    ensures
        is_tidy(n),
{
    let (v, w, d, e) = (m.job, n.job, m.disk, n.disk);
    let c = ledger(v);
    assert(w == v.after_workspace(o));
    assert(ledger(w) == c);
    assert(c.base().parts.take(c.base().parts.len() as int) =~= c.base().parts);
    assert forall|k: PathView| !k.within(c.base()) implies #[trigger] look(e, k) == look(d, k) by {}
    lemma_same_created(c, d, e);
    if v.errors.len() == 0 {
        lemma_still_used(c, d, e, 0);
    }
}

proof fn lemma_tidy_other(m: Moment, o: Outcome<Seq<char>>, n: Moment, d0: Disk)
    requires
        follows(m, Event::Answer { outcome: o }, n),
        is_tidy(m),
        is_open(m.job, d0, m.disk),
        m.job.names_are_known(),
        n.job.names_are_known(),
        !(m.job.stage is MakeFolder),
        !(m.job.stage is Folders),
        !(m.job.stage is Temporaries),
        !(m.job.stage is Mapping),
        !(m.job.stage is Workspace),
    ensures
        is_tidy(n),
{
    let (v, d, e) = (m.job, m.disk, n.disk);
    let c = ledger(v);
    lemma_settings_stay(v, o);
    lemma_same_folders(v, o, d0, d, e);
    lemma_same_list(v, o);
    let b = ledger(n.job);
    assert(is_folder(e, c.base()) == is_folder(d, c.base()));
    assert forall|i: int| 0 <= i < c.created_directories.len() implies is_folder(
        e,
        c.key(#[trigger] c.created_directories[i]),
    ) == is_folder(d, c.key(c.created_directories[i])) by {
        assert(c.outside(c.created_directories[i]));
    }
    lemma_nest(c, b, d, e);
    assert(b.base() == c.base());
    assert forall|i: int| 0 <= i < b.created_directories.len() implies !b.base().within(
        b.key(#[trigger] b.created_directories[i]),
    ) by {
        assert(c.key(c.created_directories[i]) == b.key(b.created_directories[i]));
    }
}

proof fn lemma_tidy_begin(m: Moment, event: Event, n: Moment)
    requires
        follows(m, event, n),
        !(event is Answer),
        is_tidy(m),
    ensures
        is_tidy(n),
{
    let c = ledger(m.job);
    let b = ledger(n.job);
    assert(b.created_directories == c.created_directories);
    assert(b.base() == c.base() && b.fold_case == c.fold_case);
    if !m.job.committed {
        lemma_nest(c, b, m.disk, n.disk);
        assert forall|i: int| 0 <= i < b.created_directories.len() implies !b.base().within(
            b.key(#[trigger] b.created_directories[i]),
        ) by {
            assert(c.key(c.created_directories[i]) == b.key(b.created_directories[i]));
        }
        if m.job.finished && m.job.errors.len() == 0 {
            assert(folders_gone(c, m.disk, 0));
            assert forall|i: int| 0 <= i < b.created_directories.len() implies is_used(
                n.disk,
                b.key(#[trigger] b.created_directories[i]),
            ) by {
                assert(is_used(m.disk, c.key(c.created_directories[i])));
            }
            assert(folders_gone(b, n.disk, 0));
        }
    }
}

proof fn lemma_tidy(m: Moment, event: Event, n: Moment, d0: Disk)
    requires
        follows(m, event, n),
        is_tidy(m),
        is_swept(m),
        is_reversible(m.job, d0, m.disk),
        m.job.names_are_known(),
        n.job.names_are_known(),
    ensures
        is_tidy(n),
{
    match event {
        Event::Answer { outcome } => {
            if m.job.committed {
                lemma_committed_stays(m.job, outcome);
            } else {
                assert(is_open(m.job, d0, m.disk));
                match m.job.stage {
                    Stage::MakeFolder { .. } => lemma_tidy_make_folder(m, outcome, n, d0),
                    Stage::Folders { .. } => lemma_tidy_folders(m, outcome, n, d0),
                    Stage::Temporaries { .. } | Stage::Mapping => {
                        lemma_tidy_cleanup(m, outcome, n, d0)
                    },
                    Stage::Workspace => lemma_tidy_workspace(m, outcome, n, d0),
                    _ => lemma_tidy_other(m, outcome, n, d0),
                }
            }
        },
        _ => lemma_tidy_begin(m, event, n),
    }
}

/// A committed job stays committed.
proof fn lemma_committed_stays(v: Journal, o: Outcome<Seq<char>>)
    requires
        v.committed,
    ensures
        v.step(o).committed,
{
    match v.stage {
        Stage::Target => assert(v.after_target(o).committed),
        Stage::Publish => assert(v.after_publish(o).committed),
        Stage::Restore => assert(v.after_restore(o).committed),
        Stage::Purge { at } => assert(v.after_purge(at, o).committed),
        _ => {},
    }
}

/// The list of created folders changes in one step only.
proof fn lemma_same_list(v: Journal, o: Outcome<Seq<char>>)
    requires
        !(v.stage is MakeFolder),
        !(v.stage is Folders),
        !(v.stage is Temporaries),
        !(v.stage is Mapping),
        !(v.stage is Workspace),
        v.stage != Stage::Idle,
    ensures
        v.step(o).created_directories == v.created_directories,
        !v.step(o).finished || v.step(o).committed || v.finished,
        match v.step(o).stage {
            Stage::Folders { left } => v.committed || left == v.created_directories.len() as usize,
            Stage::Temporaries { .. } => v.stage is PurgeSource,
            Stage::Mapping | Stage::Workspace => false,
            _ => true,
        },
{
    match v.stage {
        Stage::Target => assert(v.after_target(o).created_directories == v.created_directories),
        Stage::CheckChain { depth, at } => {
            assert(v.after_check_chain(depth, at, o).created_directories == v.created_directories)
        },
        Stage::Publish => assert(v.after_publish(o).created_directories == v.created_directories),
        Stage::Restore => assert(v.after_restore(o).created_directories == v.created_directories),
        Stage::Check { at } => {
            assert(v.after_check(at, o).created_directories == v.created_directories)
        },
        Stage::Source { at } => {
            assert(v.after_source(at).created_directories == v.created_directories)
        },
        Stage::Purge { at } => {
            assert(v.after_purge(at, o).created_directories == v.created_directories)
        },
        Stage::Withdraw { left } => {
            assert(v.after_withdraw(left, o).created_directories == v.created_directories)
        },
        _ => {},
    }
}

/// The same folders nest in the same way.
proof fn lemma_nest(c: Ledger, b: Ledger, d: Disk, e: Disk)
    requires
        folders_nest(c, d),
        b.created_directories == c.created_directories,
        b.fold_case == c.fold_case,
        forall|i: int|
            0 <= i < c.created_directories.len() ==> is_folder(
                e,
                c.key(#[trigger] c.created_directories[i]),
            ) == is_folder(d, c.key(c.created_directories[i])),
    ensures
        folders_nest(b, e),
{
    assert forall|p: int, q: int|
        0 <= p < q < b.created_directories.len() && b.key(#[trigger] b.created_directories[p])
            != b.key(#[trigger] b.created_directories[q]) && b.key(
            b.created_directories[p],
        ).within(b.key(b.created_directories[q])) && is_folder(
            e,
            b.key(b.created_directories[p]),
        ) implies is_repeated(b, p, q) by {
        assert(c.key(c.created_directories[p]) == b.key(b.created_directories[p]));
        assert(c.key(c.created_directories[q]) == b.key(b.created_directories[q]));
        assert(is_repeated(c, p, q));
        let i = choose|i: int|
            q < i < c.created_directories.len() && c.key(#[trigger] c.created_directories[i])
                == c.key(c.created_directories[p]);
        assert(b.key(b.created_directories[i]) == b.key(b.created_directories[p]));
    }
}

proof fn lemma_same_created(c: Ledger, d: Disk, e: Disk)
    requires
        c.layout(),
        folders_nest(c, d),
        forall|k: PathView| !k.within(c.base()) ==> #[trigger] look(e, k) == look(d, k),
    ensures
        folders_nest(c, e),
{
    assert forall|i: int| 0 <= i < c.created_directories.len() implies is_folder(
        e,
        c.key(#[trigger] c.created_directories[i]),
    ) == is_folder(d, c.key(c.created_directories[i])) by {
        assert(c.outside(c.created_directories[i]));
        assert(look(e, c.key(c.created_directories[i])) == look(
            d,
            c.key(c.created_directories[i]),
        ));
    }
    lemma_nest(c, c, d, e);
}

/// Cleaning up touches the workspace alone.
proof fn lemma_cleanup_inside(v: Journal, o: Outcome<Seq<char>>, d0: Disk, d: Disk, e: Disk)
    requires
        is_open(v, d0, d),
        happens(v.fold_case, v.action(), o, d, e),
        v.stage is Temporaries || v.stage is Mapping,
    ensures
        forall|k: PathView|
            !k.within(ledger(v).base()) ==> #[trigger] look(e, k) == look(d, k),
{
    let c = ledger(v);
    match v.stage {
        Stage::Temporaries { at } => {
            if at < v.temporary_files.len() {
                let k = c.key(c.temporary_files[at as int]);
                assert(is_temporary(c, k));
                lemma_temporary_place(c, k);
            }
        },
        _ => {
            lemma_notes(c);
        },
    }
}

/// The moments of a job but for the last are the moments of a job.
/// What holds of a job up to the moment before the last.
pub proof fn lemma_earlier(moments: Seq<Moment>, events: Seq<Event>)
    requires
        is_history(moments, events),
        events.len() > 0,
    ensures
        is_history(moments.drop_last(), events.drop_last()),
        moments.drop_last()[0] == moments[0],
        moments.drop_last().last() == moments[events.len() - 1],
        moments.last() == moments[events.len() as int],
        follows(moments[events.len() - 1], events.last(), moments.last()),
        names_are_known(moments) ==> {
            &&& names_are_known(moments.drop_last())
            &&& moments[events.len() - 1].job.names_are_known()
            &&& moments.last().job.names_are_known()
        },
{
    let (front, earlier) = (moments.drop_last(), events.drop_last());
    assert forall|i: int| 0 <= i < earlier.len() implies follows(
        front[i],
        #[trigger] earlier[i],
        front[i + 1],
    ) by {
        assert(follows(moments[i], events[i], moments[i + 1]));
    }
    let last = events.len() - 1;
    assert(follows(moments[last], events[last], moments[last + 1]));
    if names_are_known(moments) {
        assert forall|i: int| 0 <= i < front.len() implies (
        #[trigger] front[i]).job.names_are_known() by {
            assert(moments[i].job.names_are_known());
        }
    }
}

proof fn lemma_clean_end(moments: Seq<Moment>, events: Seq<Event>, d0: Disk)
    requires
        is_history(moments, events),
        is_start(moments[0], d0),
        names_are_known(moments),
    ensures
        is_reversible(moments.last().job, d0, moments.last().disk),
        moments.last().job.fold_case == moments[0].job.fold_case,
        moments.last().job.workspace == moments[0].job.workspace,
        is_swept(moments.last()),
        is_tidy(moments.last()),
    decreases events.len(),
{
    jobs_stay_reversible(moments, events, d0);
    if events.len() > 0 {
        lemma_earlier(moments, events);
        lemma_clean_end(moments.drop_last(), events.drop_last(), d0);
        let m = moments[events.len() - 1];
        lemma_swept(m, events.last(), moments.last());
        lemma_tidy(m, events.last(), moments.last(), d0);
    }
}

/// A folder that the job created and left would hold another one, and that one another.
proof fn lemma_no_folder_left(c: Ledger, d0: Disk, d: Disk, k: PathView, depth: nat)
    requires
        is_tree(d0),
        c.layout(),
        folders_gone(c, d, 0),
        forall|i: int|
            0 <= i < c.created_directories.len() ==> !c.base().within(
                c.key(#[trigger] c.created_directories[i]),
            ),
        forall|j: PathView| !j.within(c.base()) ==> c.floor(d, j) == #[trigger] look(d0, j),
        forall|i: int|
            0 <= i < c.created_directories.len() ==> (
            #[trigger] c.created_directories[i]).parts.len() <= depth,
        !k.within(c.base()),
    ensures
        look(d, k) == look(d0, k),
    decreases depth + 1 - k.parts.len(),
{
    if look(d, k) != look(d0, k) {
        assert(c.has_folder(k) && is_folder(d, k));
        let i = choose|i: int|
            0 <= i < c.created_directories.len() && c.key(#[trigger] c.created_directories[i]) == k;
        assert(is_used(d, c.key(c.created_directories[i])));
        assert(c.created_directories[i].parts.len() == k.parts.len());
        let j = choose|j: PathView| j != k && j.within(k) && !(#[trigger] look(d, j) is None);
        if j.within(c.base()) {
            lemma_comparable(j, k, c.base());
        }
        assert(j.parts.len() > k.parts.len()) by {
            if j.parts.len() == k.parts.len() {
                assert(j.parts.take(k.parts.len() as int) =~= j.parts);
                assert(j =~= k);
            }
        }
        lemma_no_folder_left(c, d0, d, j, depth);
        assert(look(d0, k) is None && look(d0, j) is Some);
    }
}

/// No list of paths is endlessly deep.
proof fn lemma_depth(all: Seq<PathView>) -> (depth: nat)
    ensures
        forall|i: int| 0 <= i < all.len() ==> (#[trigger] all[i]).parts.len() <= depth,
    decreases all.len(),
{
    if all.len() == 0 {
        0
    } else {
        let front = all.drop_last();
        let n = lemma_depth(front);
        let m = all.last().parts.len();
        assert forall|i: int| 0 <= i < all.len() implies (#[trigger] all[i]).parts.len() <= (if m
            > n {
            m
        } else {
            n
        }) by {
            if i < front.len() {
                assert(all[i] == front[i]);
            }
        }
        if m > n {
            m
        } else {
            n
        }
    }
}

/// A job that was rolled back without an error leaves the disk as it found it: results are gone,
/// with the folders that were made for them and the workspace; overwritten files and moved sources
/// are back.
pub proof fn a_rolled_back_job_leaves_no_trace(moments: Seq<Moment>, events: Seq<Event>, d0: Disk)
    requires
        is_history(moments, events),
        is_start(moments[0], d0),
        names_are_known(moments),
        moments.last().job.finished,
        !moments.last().job.committed,
    ensures
        forall|k: PathView| #[trigger] look(moments.last().disk, k) == look(d0, k),
{
    lemma_clean_end(moments, events, d0);
    let v = moments.last().job;
    let d = moments.last().disk;
    let c = ledger(v);
    assert forall|k: PathView| !k.within(c.base()) implies c.floor(d, k) == #[trigger] look(
        d0,
        k,
    ) by {
        assert(!c.has_source(k));
        if c.has_entry(k) {
            let i = choose|i: int|
                0 <= i < c.outputs.len() && c.key((#[trigger] c.outputs[i]).destination) == k;
            assert(is_clean(v.outputs[i]));
            assert(c.before(d, c.outputs[i]) == look(d0, k));
        }
    }
    let depth = lemma_depth(c.created_directories);
    assert forall|k: PathView| #[trigger] look(d, k) == look(d0, k) by {
        if k.within(c.base()) {
            assert(look(d, c.base()) is None && look(d0, c.base()) is None);
        } else {
            lemma_no_folder_left(c, d0, d, k, depth);
        }
    }
}

// ---------------------------------------------------------------------------
// A committed job
// ---------------------------------------------------------------------------

/// A source was to be removed at some moment before the job was committed.
pub open spec fn was_deferred(moments: Seq<Moment>, p: PathView) -> bool {
    exists|i: int|
        0 <= i < moments.len() && !(#[trigger] moments[i]).job.committed
            && moments[i].job.deferred_sources.contains(p)
}

/// Sources that are to be removed are noted until the job is committed; from then on each of them
/// is the place of a result or was moved away.
pub open spec fn sources_are_settled(moments: Seq<Moment>) -> bool {
    let v = moments.last().job;
    forall|p: PathView| #[trigger]
        was_deferred(moments, p) ==> if v.committed {
            v.stays(p)
        } else {
            v.deferred_sources.contains(p)
        }
}

/// Outside the workspace, nothing but results, moved sources and created folders differs from what
/// the job found.
pub open spec fn rest_is_kept(m: Moment, d0: Disk) -> bool {
    let c = ledger(m.job);
    forall|k: PathView|
        !k.within(c.base()) && !c.has_entry(k) && !c.has_source(k) ==> c.floor(m.disk, k)
            == #[trigger] look(d0, k)
}

proof fn lemma_stays(v: Journal, w: Journal, p: PathView)
    requires
        v.stays(p),
        w.fold_case == v.fold_case,
        w.removed_sources == v.removed_sources,
        w.outputs.len() == v.outputs.len(),
        forall|i: int|
            0 <= i < v.outputs.len() ==> (#[trigger] w.outputs[i]).destination
                == v.outputs[i].destination && w.outputs[i].published == v.outputs[i].published,
    ensures
        w.stays(p),
{
    if exists|i: int|
        0 <= i < v.outputs.len() && (#[trigger] v.outputs[i]).published
            && v.outputs[i].destination.key(v.fold_case) == p.key(v.fold_case) {
        let i = choose|i: int|
            0 <= i < v.outputs.len() && (#[trigger] v.outputs[i]).published
                && v.outputs[i].destination.key(v.fold_case) == p.key(v.fold_case);
        assert(w.outputs[i].published);
    }
}

/// Cleaning up behind a committed job changes neither its results nor what it has moved away.
proof fn lemma_cleaning(v: Journal, o: Outcome<Seq<char>>)
    requires
        v.committed,
        match v.stage {
            Stage::Idle
            | Stage::Purge { .. }
            | Stage::PurgeSource { .. }
            | Stage::Temporaries { .. }
            | Stage::Mapping
            | Stage::Workspace => true,
            _ => false,
        },
    ensures
        ({
            let w = v.step(o);
            &&& w.committed
            &&& w.fold_case == v.fold_case
            &&& w.workspace == v.workspace
            &&& w.removed_sources == v.removed_sources
            &&& w.created_directories == v.created_directories
            &&& w.deferred_sources == v.deferred_sources
            &&& w.outputs.len() == v.outputs.len()
            &&& forall|i: int|
                0 <= i < v.outputs.len() ==> (#[trigger] w.outputs[i]).destination
                    == v.outputs[i].destination && w.outputs[i].published == v.outputs[i].published
        }),
{
    if let Stage::Purge { at } = v.stage {
        let w = v.after_purge(at, o);
        assert(v.step(o) == w);
        assert(w.outputs.len() == v.outputs.len());
    }
}

proof fn lemma_deferred_grow(m: Moment, event: Event, n: Moment, p: PathView)
    requires
        follows(m, event, n),
        !n.job.committed,
        !m.job.committed,
        m.job.deferred_sources.contains(p),
    ensures
        n.job.deferred_sources.contains(p),
{
    let (v, w) = (m.job, n.job);
    match event {
        Event::Answer { outcome } => lemma_deferred_same(v, outcome),
        Event::Defer { input } => {
            let i = choose|i: int| 0 <= i < v.deferred_sources.len() && v.deferred_sources[i] == p;
            assert(w.deferred_sources[i] == p);
        },
        _ => {},
    }
}

proof fn lemma_deferred_same(v: Journal, o: Outcome<Seq<char>>)
    ensures
        v.step(o).deferred_sources == v.deferred_sources,
        v.step(o).committed && !v.committed ==> {
            &&& v.stage matches Stage::Source { at }
            &&& at >= v.deferred_sources.len()
            &&& v.step(o) == v.after_source(at)
        },
{
    match v.stage {
        Stage::Target => {
            let w = v.after_target(o);
            assert(w.deferred_sources == v.deferred_sources && w.committed == v.committed);
        },
        Stage::CheckChain { depth, at } => {
            let w = v.after_check_chain(depth, at, o);
            assert(w.deferred_sources == v.deferred_sources && w.committed == v.committed);
        },
        Stage::Publish => {
            let w = v.after_publish(o);
            assert(w.deferred_sources == v.deferred_sources && w.committed == v.committed);
        },
        Stage::Restore => {
            let w = v.after_restore(o);
            assert(w.deferred_sources == v.deferred_sources && w.committed == v.committed);
        },
        Stage::Check { at } => {
            let w = v.after_check(at, o);
            assert(w.deferred_sources == v.deferred_sources && w.committed == v.committed);
        },
        Stage::Purge { at } => {
            let w = v.after_purge(at, o);
            assert(w.deferred_sources == v.deferred_sources && w.committed == v.committed);
        },
        Stage::Withdraw { left } => {
            let w = v.after_withdraw(left, o);
            assert(w.deferred_sources == v.deferred_sources && w.committed == v.committed);
        },
        _ => {},
    }
}

proof fn lemma_settled(m: Moment, event: Event, n: Moment, d0: Disk)
    requires
        follows(m, event, n),
        is_swept(m),
        is_reversible(m.job, d0, m.disk),
        m.job.names_are_known(),
        n.job.names_are_known(),
        m.job.committed ==> rest_is_kept(m, d0),
    ensures
        n.job.committed ==> rest_is_kept(n, d0),
        n.job.committed ==> forall|p: PathView|
            (if m.job.committed {
                #[trigger] m.job.stays(p)
            } else {
                m.job.deferred_sources.contains(p)
            }) ==> n.job.stays(p),
{
    let (v, w, d, e) = (m.job, n.job, m.disk, n.disk);
    let (c, b) = (ledger(v), ledger(w));
    match event {
        Event::Answer { outcome } => {
            lemma_deferred_same(v, outcome);
            if v.committed {
                lemma_cleaning(v, outcome);
                a_committed_job_leaves_all_else_alone(v, outcome, d, e);
                lemma_same_entries(c, b);
                assert forall|k: PathView|
                    !k.within(b.base()) && !b.has_entry(k) && !b.has_source(k) implies b.floor(e, k)
                    == #[trigger] look(d0, k) by {
                    assert(look(e, k) == look(d, k));
                    assert(c.floor(d, k) == look(d0, k));
                }
                assert forall|p: PathView| #[trigger] v.stays(p) implies w.stays(p) by {
                    lemma_stays(v, w, p);
                }
            } else if w.committed {
                let at = v.stage->Source_at;
                assert(is_open(v, d0, d));
                assert(e == d);
                lemma_same_entries(c, b);
                assert forall|k: PathView|
                    !k.within(b.base()) && !b.has_entry(k) && !b.has_source(k) implies b.floor(e, k)
                    == #[trigger] look(d0, k) by {
                    assert(c.floor(d, k) == look(d0, k));
                }
                assert forall|p: PathView| v.deferred_sources.contains(p) implies #[trigger] w.stays(
                    p,
                ) by {
                    let i = choose|i: int|
                        0 <= i < v.deferred_sources.len() && v.deferred_sources[i] == p;
                    assert(v.stays(v.deferred_sources[i]));
                    lemma_stays(v, w, p);
                }
            }
        },
        _ => {
            if v.committed {
                lemma_same_entries(c, b);
                assert forall|k: PathView|
                    !k.within(b.base()) && !b.has_entry(k) && !b.has_source(k) implies b.floor(e, k)
                    == #[trigger] look(d0, k) by {
                    assert(c.floor(d, k) == look(d0, k));
                }
                assert forall|p: PathView| #[trigger] v.stays(p) implies w.stays(p) by {
                    lemma_stays(v, w, p);
                }
            }
        },
    }
}

/// The same places are noted.
proof fn lemma_same_entries(c: Ledger, b: Ledger)
    requires
        b.fold_case == c.fold_case,
        b.workspace == c.workspace,
        b.removed_sources == c.removed_sources,
        b.created_directories == c.created_directories,
        b.outputs.len() == c.outputs.len(),
        forall|i: int|
            0 <= i < c.outputs.len() ==> (#[trigger] b.outputs[i]).destination
                == c.outputs[i].destination,
    ensures
        b.base() == c.base(),
        forall|k: PathView| #[trigger] b.has_entry(k) == c.has_entry(k),
        forall|k: PathView| #[trigger] b.has_source(k) == c.has_source(k),
        forall|k: PathView| #[trigger] b.has_folder(k) == c.has_folder(k),
        forall|d: Disk, k: PathView| #[trigger] b.floor(d, k) == c.floor(d, k),
{
    assert forall|k: PathView| #[trigger] b.has_entry(k) == c.has_entry(k) by {
        if c.has_entry(k) {
            let i = choose|i: int|
                0 <= i < c.outputs.len() && c.key((#[trigger] c.outputs[i]).destination) == k;
            assert(b.key(b.outputs[i].destination) == k);
        }
        if b.has_entry(k) {
            let i = choose|i: int|
                0 <= i < b.outputs.len() && b.key((#[trigger] b.outputs[i]).destination) == k;
            assert(c.key(c.outputs[i].destination) == k);
        }
    }
}

proof fn lemma_settled_history(moments: Seq<Moment>, events: Seq<Event>, d0: Disk)
    requires
        is_history(moments, events),
        is_start(moments[0], d0),
        names_are_known(moments),
    ensures
        sources_are_settled(moments),
        moments.last().job.committed ==> rest_is_kept(moments.last(), d0),
    decreases events.len(),
{
    if events.len() == 0 {
        assert forall|p: PathView| #[trigger] was_deferred(moments, p) implies false by {
            let i = choose|i: int|
                0 <= i < moments.len() && !(#[trigger] moments[i]).job.committed
                    && moments[i].job.deferred_sources.contains(p);
            assert(moments[i] == moments[0]);
        }
    } else {
        lemma_earlier(moments, events);
        let front = moments.drop_last();
        let (m, n) = (moments[events.len() - 1], moments.last());
        lemma_settled_history(front, events.drop_last(), d0);
        lemma_clean_end(front, events.drop_last(), d0);
        lemma_settled(m, events.last(), n, d0);
        assert forall|p: PathView| #[trigger] was_deferred(moments, p) implies if n.job.committed {
            n.job.stays(p)
        } else {
            n.job.deferred_sources.contains(p)
        } by {
            let i = choose|i: int|
                0 <= i < moments.len() && !(#[trigger] moments[i]).job.committed
                    && moments[i].job.deferred_sources.contains(p);
            if i < front.len() {
                assert(front[i] == moments[i]);
                assert(was_deferred(front, p));
                if !n.job.committed {
                    if m.job.committed {
                        match events.last() {
                            Event::Answer { outcome } => lemma_committed_stays(m.job, outcome),
                            _ => {},
                        }
                    }
                    lemma_deferred_grow(m, events.last(), n, p);
                } else if m.job.committed {
                    assert(m.job.stays(p));
                }
            }
        }
    }
}

/// A job that was committed without an error at its end has its results and nothing else: they
/// stand; the sources that were to be removed are gone, but for those whose place a result has
/// taken; no file that was kept is left, nor the workspace; and everything else outside is as it
/// was, but for the folders that were made.
pub proof fn a_committed_job_leaves_its_results(moments: Seq<Moment>, events: Seq<Event>, d0: Disk)
    requires
        is_history(moments, events),
        is_start(moments[0], d0),
        names_are_known(moments),
        moments.last().job.committed,
        moments.last().job.stage == Stage::Idle,
        moments.last().job.errors.len() == 0,
    ensures
        ({
            let (v, d) = (moments.last().job, moments.last().disk);
            let c = ledger(v);
            &&& forall|i: int|
                0 <= i < v.outputs.len() ==> is_file(
                    look(d, c.key((#[trigger] v.outputs[i]).destination)),
                )
            &&& forall|p: PathView| #[trigger]
                was_deferred(moments, p) ==> c.has_entry(c.key(p)) || !is_file(look(d, c.key(p)))
            &&& forall|k: PathView| k.within(c.base()) ==> #[trigger] look(d, k) is None
            &&& rest_is_kept(moments.last(), d0)
        }),
{
    lemma_clean_end(moments, events, d0);
    lemma_settled_history(moments, events, d0);
    let (v, d) = (moments.last().job, moments.last().disk);
    let c = ledger(v);
    assert forall|k: PathView| k.within(c.base()) implies #[trigger] look(d, k) is None by {
        assert(look(d, c.base()) is None);
    }
    assert forall|p: PathView| #[trigger] was_deferred(moments, p) implies c.has_entry(c.key(p))
        || !is_file(look(d, c.key(p))) by {
        assert(v.stays(p));
        if exists|i: int|
            0 <= i < v.outputs.len() && (#[trigger] v.outputs[i]).published
                && v.outputs[i].destination.key(v.fold_case) == p.key(v.fold_case) {
            let i = choose|i: int|
                0 <= i < v.outputs.len() && (#[trigger] v.outputs[i]).published
                    && v.outputs[i].destination.key(v.fold_case) == p.key(v.fold_case);
            assert(c.key(c.outputs[i].destination) == c.key(p));
        } else {
            let j = choose|j: int|
                0 <= j < v.removed_sources.len() && (
                #[trigger] v.removed_sources[j]).source.key(v.fold_case) == p.key(v.fold_case);
            assert(c.key(c.removed_sources[j].source) == c.key(p));
        }
    }
}

/// A commit that ends without an error has noted none.
pub proof fn a_commit_reports_its_errors(v: Journal, o: Outcome<Seq<char>>)
    requires
        v.committed,
        v.stage is Temporaries || v.stage is Mapping || v.stage is Workspace,
        v.step(o).stage == Stage::Idle,
    ensures
        v.step(o).last is None <==> v.step(o).errors.len() == 0,
{
}

// ---------------------------------------------------------------------------
// A rollback that met an obstacle
// ---------------------------------------------------------------------------

/// Something is kept that is not back where it belongs.
pub open spec fn keeps_something(v: Journal) -> bool {
    ||| exists|i: int| 0 <= i < v.outputs.len() && #[trigger] v.outputs[i].original is Some
    ||| v.removed_sources.len() > 0
}

/// As long as something is kept, the notes are there that say where it belongs.
pub open spec fn is_noted(m: Moment) -> bool {
    let v = m.job;
    !v.committed && (keeps_something(v) || v.stage is KeepOriginal || v.stage is MoveSource)
        ==> is_file(look(m.disk, v.notes().key(v.fold_case)))
}

/// The notes are touched only where they are written or removed.
proof fn lemma_notes_untouched(v: Journal, o: Outcome<Seq<char>>, d0: Disk, d: Disk, e: Disk)
    requires
        is_open(v, d0, d),
        happens(v.fold_case, v.action(), o, d, e),
        !(v.stage is MapOriginal),
        !(v.stage is MapSource),
        !(v.stage is Mapping),
    ensures
        look(e, v.notes().key(v.fold_case)) == look(d, v.notes().key(v.fold_case)),
{
    let c = ledger(v);
    let k = v.notes().key(v.fold_case);
    lemma_notes(c);
    lemma_notes_apart(c);
    match v.stage {
        Stage::Converting => lemma_temporary_place(c, v.work.staged.key(v.fold_case)),
        Stage::MakeFolder { at } => {
            let folder = v.work.destination.prefix(at as int);
            if folder.key(v.fold_case).within(c.base()) {
                lemma_prefix_key(v.work.destination, at as int, c.base(), v.fold_case);
            }
        },
        Stage::SetAside => lemma_temporary_place(c, v.work.aside.key(v.fold_case)),
        Stage::KeepOriginal => lemma_held(c, v.work.aside),
        Stage::Publish => lemma_temporary_place(c, v.work.staged.key(v.fold_case)),
        Stage::Restore => {
            let entry = v.outputs[v.work.index as int];
            assert(c.outside(entry.destination));
            if v.work.fresh {
                assert(entry.original is Some);
                assert(c.outputs[v.work.index as int].original is Some);
                lemma_held(c, entry.original->0);
            } else {
                lemma_temporary_place(c, v.work.aside.key(v.fold_case));
            }
        },
        Stage::Discard => lemma_temporary_place(c, v.work.aside.key(v.fold_case)),
        Stage::MoveSource { at } => {
            assert(c.outside(c.deferred_sources[at as int]));
            lemma_held(c, v.work.aside);
        },
        Stage::Withdraw { left } => {
            if left > 0 {
                assert(c.outside(c.outputs[left - 1].destination));
            }
        },
        Stage::PutBack { left } => {
            assert(c.outside(c.outputs[left - 1].destination));
            assert(c.outputs[left - 1].original is Some);
            lemma_held(c, c.outputs[left - 1].original->0);
        },
        Stage::Return { at } => {
            assert(c.outside(c.removed_sources[at as int].source));
            lemma_held(c, c.removed_sources[at as int].backup);
        },
        Stage::Folders { left } => {
            if left > 0 {
                assert(c.outside(c.created_directories[left - 1]));
            }
        },
        Stage::Temporaries { at } => {
            if at < v.temporary_files.len() {
                let t = c.key(c.temporary_files[at as int]);
                assert(is_temporary(c, t));
                lemma_temporary_place(c, t);
            }
        },
        _ => {},
    }
}

/// Something comes to be kept only by the two moves that the notes announce.
proof fn lemma_kept_by(v: Journal, o: Outcome<Seq<char>>)
    requires
        v.wf(),
        countable(v),
        !(v.stage is KeepOriginal),
        !(v.stage is MoveSource),
        keeps_something(v.step(o)),
    ensures
        keeps_something(v),
{
    let w = v.step(o);
    match v.stage {
        Stage::Target => {
            assert(w == v.after_target(o));
            assert(w.outputs == v.outputs && w.removed_sources == v.removed_sources);
        },
        Stage::CheckChain { depth, at } => {
            assert(w == v.after_check_chain(depth, at, o));
            assert(w.outputs == v.outputs && w.removed_sources == v.removed_sources);
        },
        Stage::MakeFolder { at } => {
            assert(w == v.after_make_folder(at, o));
            assert(w.outputs == v.outputs && w.removed_sources == v.removed_sources);
        },
        Stage::ProbeTarget => {
            assert(w == v.after_probe_target(o));
            lemma_fewer_kept(v, w);
        },
        Stage::Publish => {
            assert(w == v.after_publish(o));
            lemma_fewer_kept(v, w);
        },
        Stage::Restore => {
            assert(w == v.after_restore(o));
            lemma_fewer_kept(v, w);
        },
        Stage::Check { at } => {
            assert(w == v.after_check(at, o));
            assert(w.outputs == v.outputs && w.removed_sources == v.removed_sources);
        },
        Stage::Source { at } => {
            assert(w == v.after_source(at));
            assert(w.outputs == v.outputs && w.removed_sources == v.removed_sources);
        },
        Stage::Purge { at } => {
            assert(w == v.after_purge(at, o));
            lemma_fewer_kept(v, w);
        },
        Stage::Withdraw { left } => {
            assert(w == v.after_withdraw(left, o));
            lemma_fewer_kept(v, w);
        },
        Stage::PutBack { left } => {
            assert(w == v.after_put_back(left, o));
            lemma_fewer_kept(v, w);
        },
        Stage::SetAside => {
            assert(w == v.after_set_aside(o));
            lemma_fewer_kept(v, w);
        },
        _ => {
            assert(w.outputs == v.outputs);
            assert(w.removed_sources.len() <= v.removed_sources.len());
        },
    }
}

proof fn lemma_fewer_kept(v: Journal, w: Journal)
    requires
        keeps_something(w),
        w.removed_sources.len() <= v.removed_sources.len(),
        forall|i: int|
            0 <= i < w.outputs.len() && #[trigger] w.outputs[i].original is Some ==> exists|j: int|
                0 <= j < v.outputs.len() && #[trigger] v.outputs[j].original is Some,
    ensures
        keeps_something(v),
{
}

proof fn lemma_noted(m: Moment, event: Event, n: Moment, d0: Disk)
    requires
        follows(m, event, n),
        is_noted(m),
        is_swept(m),
        is_tidy(m),
        is_reversible(m.job, d0, m.disk),
        m.job.names_are_known(),
        n.job.names_are_known(),
    ensures
        is_noted(n),
{
    let (v, w, d, e) = (m.job, n.job, m.disk, n.disk);
    match event {
        Event::Answer { outcome } => {
            lemma_settings_stay(v, outcome);
            if v.committed {
                lemma_committed_stays(v, outcome);
            } else {
                assert(is_open(v, d0, d));
                match v.stage {
                    Stage::MapOriginal => assert(w == v.after_map_original(outcome)),
                    Stage::MapSource { at } => assert(w == v.after_map_source(at, outcome)),
                    Stage::Mapping => {
                        lemma_mapping_noted(m, outcome, n, d0);
                    },
                    Stage::KeepOriginal | Stage::MoveSource { .. } => {
                        lemma_notes_untouched(v, outcome, d0, d, e);
                    },
                    _ => {
                        lemma_notes_untouched(v, outcome, d0, d, e);
                        if keeps_something(w) {
                            lemma_kept_by(v, outcome);
                        }
                        lemma_announced(v, outcome);
                    },
                }
            }
        },
        _ => {
            assert(w.outputs == v.outputs && w.removed_sources == v.removed_sources);
            assert(keeps_something(w) == keeps_something(v));
        },
    }
}

proof fn lemma_mapping_noted(m: Moment, o: Outcome<Seq<char>>, n: Moment, d0: Disk)
    requires
        follows(m, Event::Answer { outcome: o }, n),
        is_noted(m),
        is_open(m.job, d0, m.disk),
        m.job.stage is Mapping,
        m.job.errors.len() == 0,
    ensures
        is_noted(n),
{
    let w = n.job;
    assert(w == m.job.after_mapping(o));
    assert(all_clean(m.job));
    assert(w.outputs == m.job.outputs && w.removed_sources == m.job.removed_sources);
    assert forall|i: int| 0 <= i < w.outputs.len() implies #[trigger] w.outputs[i].original
        is None by {
        assert(is_clean(m.job.outputs[i]));
    }
}

/// The two moves come behind their notes.
proof fn lemma_announced(v: Journal, o: Outcome<Seq<char>>)
    requires
        v.wf(),
        countable(v),
        !(v.stage is MapOriginal),
        !(v.stage is MapSource),
        !(v.stage is KeepOriginal),
        !(v.stage is MoveSource),
    ensures
        !(v.step(o).stage is KeepOriginal),
        !(v.step(o).stage is MoveSource),
{
    if v.stage != Stage::Idle && (v.step(o).stage is KeepOriginal || v.step(o).stage
        is MoveSource) {
        what_is_kept_is_noted_first(v, o);
    }
}

proof fn lemma_noted_history(moments: Seq<Moment>, events: Seq<Event>, d0: Disk)
    requires
        is_history(moments, events),
        is_start(moments[0], d0),
        names_are_known(moments),
    ensures
        is_noted(moments.last()),
    decreases events.len(),
{
    if events.len() > 0 {
        lemma_earlier(moments, events);
        lemma_noted_history(moments.drop_last(), events.drop_last(), d0);
        lemma_clean_end(moments.drop_last(), events.drop_last(), d0);
        lemma_noted(moments[events.len() - 1], events.last(), moments.last(), d0);
    }
}

/// Whatever happens before a job is committed, what it has not put back is not lost: an overwritten
/// file is kept with what it held, so is a source that was moved away, and the notes say where they
/// belong.
pub proof fn what_is_not_put_back_is_kept(moments: Seq<Moment>, events: Seq<Event>, d0: Disk)
    requires
        is_history(moments, events),
        is_start(moments[0], d0),
        names_are_known(moments),
        !moments.last().job.committed,
    ensures
        ({
            let (v, d) = (moments.last().job, moments.last().disk);
            let c = ledger(v);
            &&& forall|i: int|
                0 <= i < v.outputs.len() && #[trigger] v.outputs[i].original is Some ==> {
                    let kept = look(d, c.key(v.outputs[i].original->0));
                    &&& kept is Some
                    &&& kept == look(d0, c.key(v.outputs[i].destination))
                }
            &&& forall|j: int|
                0 <= j < v.removed_sources.len() ==> {
                    let kept = look(d, c.key((#[trigger] v.removed_sources[j]).backup));
                    &&& kept is Some
                    &&& kept == look(d0, c.key(v.removed_sources[j].source))
                }
            &&& keeps_something(v) ==> is_file(look(d, c.key(v.notes())))
        }),
{
    jobs_stay_reversible(moments, events, d0);
    lemma_noted_history(moments, events, d0);
    let (v, d) = (moments.last().job, moments.last().disk);
    let c = ledger(v);
    assert forall|i: int|
        0 <= i < v.outputs.len() && #[trigger] v.outputs[i].original is Some implies {
        let kept = look(d, c.key(v.outputs[i].original->0));
        &&& kept is Some
        &&& kept == look(d0, c.key(v.outputs[i].destination))
    } by {
        assert(c.outputs[i].original is Some);
        assert(!c.has_source(c.key(c.outputs[i].destination))) by {
            assert forall|j: int| 0 <= j < c.removed_sources.len() implies c.key(
                (#[trigger] c.removed_sources[j]).source,
            ) != c.key(c.outputs[i].destination) by {}
        }
        assert(c.before(d, c.outputs[i]) == look(d0, c.key(c.outputs[i].destination)));
    }
}

/// From a moment on, the job is rolled back and nothing else.
pub open spec fn is_rollback(moments: Seq<Moment>, events: Seq<Event>, from: int) -> bool {
    &&& is_history(moments, events)
    &&& 0 <= from < events.len()
    &&& events[from] == Event::Rollback
    &&& !moments[from].job.finished
    &&& forall|t: int| from < t < events.len() ==> (#[trigger] events[t]) is Answer
}

/// The disk stood in the way at this moment.
pub open spec fn is_hindered(moments: Seq<Moment>, events: Seq<Event>, t: int) -> bool {
    events[t] matches Event::Answer { outcome } && is_obstacle(moments[t].job, outcome)
}

/// This result is being taken back.
pub open spec fn is_under_way(v: Journal, i: int) -> bool {
    match v.stage {
        Stage::Withdraw { left } | Stage::Reinstate { left } | Stage::PutBack { left } => left == i
            + 1,
        _ => false,
    }
}

/// The disk stood in the way while this result was taken back.
pub open spec fn is_obstructed(
    moments: Seq<Moment>,
    events: Seq<Event>,
    from: int,
    i: int,
) -> bool {
    exists|t: int|
        from < t < events.len() && is_under_way((#[trigger] moments[t]).job, i) && is_hindered(
            moments,
            events,
            t,
        )
}

/// How far the results are taken back.
pub open spec fn results_left(v: Journal) -> int {
    match v.stage {
        Stage::Withdraw { left } | Stage::Reinstate { left } | Stage::PutBack { left } => {
            left as int
        },
        _ => 0,
    }
}

/// A rollback is under way or over.
pub open spec fn is_rolling(v: Journal) -> bool {
    !v.committed && distance(v).0 <= 6
}

proof fn lemma_rolling(v: Journal, o: Outcome<Seq<char>>)
    requires
        v.wf(),
        countable(v),
        is_rolling(v),
        v.stage != Stage::Idle,
    ensures
        is_rolling(v.step(o)),
        v.step(o).outputs.len() == v.outputs.len(),
        v.step(o).stage == Stage::Idle ==> v.step(o).finished == (v.step(o).errors.len() == 0)
            || v.finished,
        v.step(o).stage == Stage::Idle && v.step(o).errors.len() > 0 ==> v.step(o)
            == v.step(o).conclude(),
        forall|i: int|
            0 <= i < v.outputs.len() && !is_under_way(v, i) ==> v.step(o).outputs[i]
                == #[trigger] v.outputs[i],
{
    operations_end(v, o);
    let w = v.step(o);
    match v.stage {
        Stage::Withdraw { left } => assert(w == v.after_withdraw(left, o)),
        Stage::Reinstate { left } => assert(w == v.after_reinstate(left, o)),
        Stage::PutBack { left } => assert(w == v.after_put_back(left, o)),
        Stage::Return { at } => assert(w == v.after_return(at, o)),
        Stage::Folders { left } => assert(w == v.after_folders(left, o)),
        Stage::Temporaries { at } => assert(w == v.after_temporaries(at, o)),
        Stage::Mapping => assert(w == v.after_mapping(o)),
        Stage::Workspace => assert(w == v.after_workspace(o)),
        _ => {},
    }
}

proof fn lemma_rollback_run(moments: Seq<Moment>, events: Seq<Event>, from: int, d0: Disk)
    requires
        is_rollback(moments, events, from),
        is_start(moments[0], d0),
        names_are_known(moments),
    ensures
        ({
            let v = moments.last().job;
            &&& is_rolling(v)
            &&& v.outputs.len() == moments[from].job.outputs.len()
            &&& v.stage == Stage::Idle ==> v.finished == (v.errors.len() == 0)
            &&& v.stage == Stage::Idle && v.errors.len() > 0 ==> v == v.conclude()
            &&& forall|i: int|
                results_left(v) <= i < v.outputs.len() ==> is_clean(#[trigger] v.outputs[i])
                    || is_obstructed(moments, events, from, i)
            &&& (forall|t: int| from < t < events.len() ==> !#[trigger] is_hindered(
                moments,
                events,
                t,
            )) ==> {
                &&& v.errors.len() == 0
                &&& v.stage == Stage::Idle ==> v.finished && v.last is None
            }
        }),
    decreases events.len(),
{
    lemma_earlier(moments, events);
    jobs_stay_reversible(moments.drop_last(), events.drop_last(), d0);
    let last = events.len() - 1;
    let (m, n) = (moments[last], moments.last());
    let (v, w) = (m.job, n.job);
    if last == from {
        assert(events.last() == Event::Rollback);
        assert(w == v.rollback());
        assert(is_open(v, d0, m.disk));
    } else {
        let (front, earlier) = (moments.drop_last(), events.drop_last());
        assert(is_rollback(front, earlier, from)) by {
            assert(earlier[from] == events[from] && front[from] == moments[from]);
            assert forall|t: int| from < t < earlier.len() implies (#[trigger] earlier[t])
                is Answer by {
                assert(events[t] is Answer);
            }
        }
        lemma_rollback_run(front, earlier, from, d0);
        assert(events[last] is Answer);
        let o = events[last]->outcome;
        assert(is_open(v, d0, m.disk));
        lemma_rolling(v, o);
        assert forall|i: int| results_left(w) <= i < w.outputs.len() implies is_clean(
            #[trigger] w.outputs[i],
        ) || is_obstructed(moments, events, from, i) by {
            if results_left(v) <= i {
                assert(w.outputs[i] == v.outputs[i]);
                if !is_clean(v.outputs[i]) {
                    assert(is_obstructed(front, earlier, from, i));
                    let t = choose|t: int|
                        from < t < earlier.len() && is_under_way((#[trigger] front[t]).job, i)
                            && is_hindered(front, earlier, t);
                    assert(front[t] == moments[t] && earlier[t] == events[t]);
                    assert(is_hindered(moments, events, t));
                }
            } else {
                lemma_taken_back(v, o, d0, m.disk);
                assert(i == results_left(v) - 1);
                if !is_clean(w.outputs[i]) {
                    assert(is_under_way(moments[last].job, i));
                    assert(is_hindered(moments, events, last));
                }
            }
        }
        if forall|t: int| from < t < events.len() ==> !#[trigger] is_hindered(moments, events, t) {
            assert forall|t: int| from < t < earlier.len() implies !#[trigger] is_hindered(
                front,
                earlier,
                t,
            ) by {
                assert(front[t] == moments[t] && earlier[t] == events[t]);
                assert(!is_hindered(moments, events, t));
            }
            assert(!is_hindered(moments, events, last));
            an_unhindered_rollback_succeeds(v, o);
        }
    }
}

/// A result is taken back unless the disk stands in the way.
proof fn lemma_taken_back(v: Journal, o: Outcome<Seq<char>>, d0: Disk, d: Disk)
    requires
        is_open(v, d0, d),
        countable(v),
        is_rolling(v),
        v.stage != Stage::Idle,
        results_left(v) > 0,
    ensures
        results_left(v.step(o)) == results_left(v) || results_left(v.step(o)) == results_left(v)
            - 1,
        results_left(v.step(o)) < results_left(v) ==> is_clean(
            v.step(o).outputs[results_left(v) - 1],
        ) || is_obstacle(v, o),
{
    let w = v.step(o);
    match v.stage {
        Stage::Withdraw { left } => assert(w == v.after_withdraw(left, o)),
        Stage::Reinstate { left } => assert(w == v.after_reinstate(left, o)),
        Stage::PutBack { left } => assert(w == v.after_put_back(left, o)),
        _ => {},
    }
}

/// A rollback that met an obstacle says where things are kept, and has still taken back every
/// result in whose way nothing stood. The job stays open: it can be rolled back again.
pub proof fn a_hindered_rollback_goes_on(
    moments: Seq<Moment>,
    events: Seq<Event>,
    from: int,
    d0: Disk,
)
    requires
        is_rollback(moments, events, from),
        is_start(moments[0], d0),
        names_are_known(moments),
        moments.last().job.stage == Stage::Idle,
        moments.last().job.errors.len() > 0,
    ensures
        ({
            let (v, d) = (moments.last().job, moments.last().disk);
            &&& is_open(v, d0, d)
            &&& v.last matches Some(failure)
            &&& !failure.cancelled
            &&& failure.text == "취소 후 일부 파일 복원 또는 정리에 실패했습니다"@ + ". 복구 폴더: "@ + v.show(
                v.workspace,
            ) + "\n"@ + joined(v.errors, "\n"@)
            &&& forall|i: int|
                0 <= i < v.outputs.len() ==> is_clean(#[trigger] v.outputs[i]) || is_obstructed(
                    moments,
                    events,
                    from,
                    i,
                )
        }),
{
    lemma_rollback_run(moments, events, from, d0);
    jobs_stay_reversible(moments, events, d0);
    let v = moments.last().job;
    assert(v == v.conclude());
}

/// A rollback in whose way nothing stands succeeds, also where an earlier one did not: the disk is
/// as the job found it.
pub proof fn a_later_rollback_restores_the_disk(
    moments: Seq<Moment>,
    events: Seq<Event>,
    from: int,
    d0: Disk,
)
    requires
        is_rollback(moments, events, from),
        is_start(moments[0], d0),
        names_are_known(moments),
        moments.last().job.stage == Stage::Idle,
        forall|t: int| from < t < events.len() ==> !#[trigger] is_hindered(moments, events, t),
    ensures
        moments.last().job.finished,
        !moments.last().job.committed,
        moments.last().job.last is None,
        forall|k: PathView| #[trigger] look(moments.last().disk, k) == look(d0, k),
{
    lemma_rollback_run(moments, events, from, d0);
    a_rolled_back_job_leaves_no_trace(moments, events, d0);
}

/// Only what the job has noted is ever removed: a result, a temporary file, the notes, a folder
/// that the job created, or the workspace. Before the job is committed no kept file is.
pub proof fn only_what_is_noted_is_removed(v: Journal, d0: Disk, d: Disk)
    requires
        is_open(v, d0, d),
    ensures
        match v.action() {
            Action::RemoveFile(p) => {
                let k = p.key(v.fold_case);
                ||| is_temporary(ledger(v), k)
                ||| p == v.notes()
                ||| exists|i: int|
                    0 <= i < v.outputs.len() && (#[trigger] v.outputs[i]).published
                        && v.outputs[i].destination == p
            },
            Action::RemoveFolder(p) => v.created_directories.contains(p) || p == v.workspace,
            _ => true,
        },
{
    let c = ledger(v);
    match v.stage {
        Stage::Temporaries { at } => {
            if at < v.temporary_files.len() {
                assert(c.key(c.temporary_files[at as int]) == v.temporary_files[at as int].key(
                    v.fold_case,
                ));
            }
        },
        Stage::Withdraw { left } => {
            if left > 0 && v.outputs[left - 1].published {
                assert(v.outputs[left - 1].published);
            }
        },
        _ => {},
    }
}

} // verus!
