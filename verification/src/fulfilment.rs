//! What the operations of a job come to where nothing stands in their way, and what they say where
//! something does.
use crate::convert::OutputFormat;
use crate::disk::{
    to_append, to_convert, to_create_folder, to_create_unique, to_inspect, to_move, to_probe,
    to_remove_file, Failure, Fault, Kind, Outcome,
};
use crate::journal::{
    entry_for, lemma_entry_for, Entry, Journal, OpeningStage, OpeningView, Removed, Stage,
};
use crate::path::PathView;
use crate::text::{decimal, joined};
use vstd::prelude::*;

verus! {

// ---------------------------------------------------------------------------
// Conversions
// ---------------------------------------------------------------------------

/// A conversion of a sound into a place below the output folder is taken up: the sound is to be
/// converted into the workspace, under a name of its own that is noted to be temporary. Nothing
/// else of what the job has noted changes.
pub proof fn conversions_are_taken_up(
    v: Journal,
    input: PathView,
    destination: PathView,
    format: OutputFormat,
)
    requires
        !v.finished,
        destination.root == v.root.root,
        destination.parts.len() > v.root.parts.len(),
        destination.parts.take(v.root.parts.len() as int) == v.root.parts,
    ensures
        ({
            let w = v.convert(Some(input), Some(destination), format);
            let staged = v.workspace.child(
                "converted"@ + "-"@ + decimal(v.sequence + 1) + ("."@ + "wav"@),
            );
            &&& w.action() == to_convert(v.source_for(input), staged, format)
            &&& w.work.destination == destination
            &&& w == (Journal {
                sequence: v.sequence + 1,
                temporary_files: v.temporary_files.push(staged),
                stage: Stage::Converting,
                work: w.work,
                ..v
            })
        }),
        (forall|i: int|
            0 <= i < v.outputs.len() ==> (#[trigger] v.outputs[i]).destination.key(v.fold_case)
                != input.key(v.fold_case)) ==> v.source_for(input) == input,
{
    if forall|i: int|
        0 <= i < v.outputs.len() ==> (#[trigger] v.outputs[i]).destination.key(v.fold_case)
            != input.key(v.fold_case) {
        lemma_nothing_retained(v.outputs, input, v.fold_case);
    }
}

proof fn lemma_nothing_retained(outputs: Seq<Entry>, p: PathView, fold_case: bool)
    requires
        forall|i: int|
            0 <= i < outputs.len() ==> (#[trigger] outputs[i]).destination.key(fold_case) != p.key(
                fold_case,
            ),
    ensures
        crate::journal::retained(outputs, p, fold_case) is None,
    decreases outputs.len(),
{
    if outputs.len() > 0 {
        let front = outputs.drop_last();
        assert forall|i: int| 0 <= i < front.len() implies (#[trigger] front[i]).destination.key(
            fold_case,
        ) != p.key(fold_case) by {
            assert(front[i] == outputs[i]);
        }
        lemma_nothing_retained(front, p, fold_case);
        assert(outputs[outputs.len() - 1].destination.key(fold_case) != p.key(fold_case));
    }
}

/// A conversion is refused where the job has ended, where there is no path, and where the result
/// would not lie below the output folder. It says why, and notes nothing.
pub proof fn other_conversions_are_refused(
    v: Journal,
    input: Option<PathView>,
    destination: PathView,
    format: OutputFormat,
)
    ensures
        v.finished ==> v.convert(input, Some(destination), format) == told(
            v,
            "이미 종료된 변환 작업입니다"@,
        ),
        !v.finished ==> v.convert(input, None, format) == told(v, "잘못된 파일 경로입니다"@),
        !v.finished && (destination.root != v.root.root || destination.parts.len()
            <= v.root.parts.len() || destination.parts.take(v.root.parts.len() as int)
            != v.root.parts) ==> v.convert(input, Some(destination), format) == told(
            v,
            "출력 파일이 선택한 출력 폴더 밖에 있습니다"@,
        ),
        !v.finished && input is None ==> v.convert(input, Some(destination), format).stage
            == Stage::Idle && v.convert(input, Some(destination), format).last is Some,
{
    if destination.parts.len() == v.root.parts.len() {
        assert(destination.parts.take(v.root.parts.len() as int) =~= destination.parts);
    }
}

/// The operation has ended with an error, and nothing else has changed.
pub open spec fn told(v: Journal, text: Seq<char>) -> Journal {
    Journal { stage: Stage::Idle, last: Some(Failure { cancelled: false, text }), ..v }
}

/// A conversion that was cancelled or has failed ends the operation. It says which of the two it
/// was, and nothing has reached the output.
pub proof fn failed_conversions_change_nothing(v: Journal, fault: Fault, message: Seq<char>)
    requires
        v.stage == Stage::Converting,
    ensures
        v.step(Outcome::Failed(fault, message)) == told(v, message),
        forall|o: Outcome<Seq<char>>|
            o is Cancelled || o == (Outcome::<Seq<char>>::Converted { cancelled: true })
                ==> #[trigger] v.step(o) == (Journal {
                stage: Stage::Idle,
                last: Some(Failure { cancelled: true, text: "변환이 취소되었습니다"@ }),
                ..v
            }),
{
}

/// The folders above a result are looked at from below: the search ends at the first that is there.
/// It and all above it must be folders.
pub proof fn folders_are_looked_for_from_below(v: Journal, depth: usize, at: usize)
    requires
        at <= depth < v.work.destination.parts.len(),
    ensures
        v.stage == Stage::Converting && v.work.destination.parts.len() <= usize::MAX ==> v.step(
            Outcome::Converted { cancelled: false },
        ).action() == to_probe(
            v.work.destination.prefix(v.work.destination.parts.len() - 1),
        ),
        v.stage == (Stage::FindParent { depth }) ==> {
            &&& v.action() == to_probe(v.work.destination.prefix(depth as int))
            &&& v.step(Outcome::Exists(true)).action() == to_inspect(
                v.work.destination.prefix(depth as int),
            )
            &&& depth > 0 ==> v.step(Outcome::Exists(false)).action() == to_probe(
                v.work.destination.prefix(depth - 1),
            )
            &&& depth == 0 ==> v.step(Outcome::Exists(false)) == told(v, "출력 상위 폴더가 없습니다"@)
        },
        v.stage == (Stage::CheckChain { depth, at }) ==> {
            &&& v.action() == to_inspect(v.work.destination.prefix(at as int))
            &&& at > 0 ==> v.step(Outcome::Found(Kind::Folder)).action() == to_inspect(
                v.work.destination.prefix(at - 1),
            )
            &&& forall|kind: Kind|
                kind != Kind::Folder ==> #[trigger] v.step(Outcome::Found(kind)) == told(
                    v,
                    "출력 경로가 일반 폴더가 아닙니다: "@ + v.work.destination.prefix(at as int).shown(
                        v.separator,
                    ),
                )
        },
{
}

/// Every missing folder above a result is created, from the top, and noted; then the place of the
/// result itself is looked at.
pub proof fn missing_folders_are_created(v: Journal, depth: usize, at: usize)
    requires
        depth < at < v.work.destination.parts.len() <= usize::MAX,
    ensures
        v.stage == (Stage::CheckChain { depth, at: 0 }) ==> v.step(
            Outcome::Found(Kind::Folder),
        ).action() == to_create_folder(v.work.destination.prefix(depth + 1)),
        v.stage == (Stage::MakeFolder { at }) ==> {
            let w = v.step(Outcome::Done);
            &&& v.action() == to_create_folder(v.work.destination.prefix(at as int))
            &&& w == (Journal {
                created_directories: v.created_directories.push(
                    v.work.destination.prefix(at as int),
                ),
                stage: w.stage,
                ..v
            })
            &&& at + 1 < v.work.destination.parts.len() ==> w.action() == to_create_folder(
                v.work.destination.prefix(at + 1),
            )
            &&& at + 1 == v.work.destination.parts.len() ==> w.action() == to_inspect(
                v.work.destination,
            )
        },
{
}

/// Where the folder of a result is there already, its place is looked at next.
pub proof fn existing_folders_are_not_created(v: Journal)
    requires
        0 < v.work.destination.parts.len() <= usize::MAX,
        v.stage == (Stage::CheckChain {
            depth: (v.work.destination.parts.len() - 1) as usize,
            at: 0,
        }),
    ensures
        v.step(Outcome::Found(Kind::Folder)).action() == to_inspect(v.work.destination),
        v.step(Outcome::Found(Kind::Folder)).created_directories == v.created_directories,
{
}

/// The entry with this number is for this place.
pub open spec fn is_entry(v: Journal, i: int, destination: PathView) -> bool {
    &&& 0 <= i < v.outputs.len()
    &&& v.outputs[i].destination.key(v.fold_case) == destination.key(v.fold_case)
}

/// A result for this place is stored.
pub open spec fn is_stored(v: Journal, destination: PathView) -> bool {
    exists|i: int| #[trigger] is_entry(v, i, destination) && v.outputs[i].published
}

/// A conversion is under way, and nothing has gone wrong so far.
pub open spec fn is_storing(v: Journal) -> bool {
    match v.stage {
        Stage::Converting
        | Stage::FindParent { .. }
        | Stage::CheckChain { .. }
        | Stage::MakeFolder { .. }
        | Stage::Target
        | Stage::ProbeTarget
        | Stage::MapOriginal
        | Stage::KeepOriginal => true,
        Stage::SetAside | Stage::Publish => is_entry(v, v.work.index as int, v.work.destination),
        Stage::Discard => is_entry(v, v.work.index as int, v.work.destination)
            && v.outputs[v.work.index as int].published,
        _ => false,
    }
}

/// The disk has done what it was asked for: the sound is converted, some folder above the result is
/// there, all above are folders, and nothing but a file stands in the place of the result.
pub open spec fn lets_store(v: Journal, o: Outcome<Seq<char>>) -> bool {
    match v.stage {
        Stage::Converting => o == (Outcome::<Seq<char>>::Converted { cancelled: false }),
        Stage::FindParent { depth } => o == Outcome::<Seq<char>>::Exists(true) || o == Outcome::<
            Seq<char>,
        >::Exists(false) && depth > 0,
        Stage::CheckChain { .. } => o == Outcome::<Seq<char>>::Found(Kind::Folder),
        Stage::Target => o == Outcome::<Seq<char>>::Found(Kind::File) || o is Failed,
        Stage::ProbeTarget => o is Exists,
        _ => o == Outcome::<Seq<char>>::Done,
    }
}

/// A conversion in whose way nothing stands goes on until its result is stored, and ends there,
/// with success.
pub proof fn an_unhindered_conversion_is_stored(v: Journal, o: Outcome<Seq<char>>)
    requires
        v.wf(),
        is_storing(v),
        lets_store(v, o),
        v.outputs.len() < usize::MAX,
        forall|i: int|
            #[trigger] is_entry(v, i, v.work.destination) && v.stage == Stage::Target
                ==> v.outputs[i].published,
    ensures
        ({
            let w = v.step(o);
            &&& w.work.destination == v.work.destination
            &&& w.work.staged == v.work.staged
            &&& is_storing(w) || w.stage == Stage::Idle && w.last is None && is_stored(
                w,
                w.work.destination,
            )
        }),
{
    let w = v.step(o);
    let i = v.work.index as int;
    match v.stage {
        Stage::Target => {
            lemma_entry_for(v.outputs, v.work.destination, v.fold_case);
            match entry_for(v.outputs, v.work.destination, v.fold_case) {
                Some(k) => {
                    assert(is_entry(v, k, v.work.destination));
                },
                None => {},
            }
        },
        Stage::SetAside => {
            assert(w.outputs[i].destination == v.outputs[i].destination);
        },
        Stage::ProbeTarget | Stage::KeepOriginal => {
            if w.stage == Stage::Publish {
                assert(is_entry(w, w.work.index as int, w.work.destination));
            }
        },
        Stage::Publish => {
            assert(w.outputs[i].destination == v.outputs[i].destination);
            assert(w.outputs[i].published);
            assert(is_entry(w, i, w.work.destination));
        },
        Stage::Discard => {
            assert(is_entry(w, i, w.work.destination));
        },
        _ => {},
    }
}

/// Where a result is stored, what was converted is moved to its destination.
pub proof fn results_are_moved_to_their_places(v: Journal)
    requires
        v.stage == Stage::Publish,
        0 <= v.work.index < v.outputs.len(),
    ensures
        v.action() == to_move(v.work.staged, v.work.destination),
        v.step(Outcome::Done).outputs == v.outputs.update(
            v.work.index as int,
            Entry { published: true, ..v.outputs[v.work.index as int] },
        ),
{
}

/// A result that cannot be moved to its place leaves that place as it was: what stood there is
/// moved back, and the conversion ends with an error that says why.
pub proof fn what_stood_there_is_put_back(
    v: Journal,
    kept: PathView,
    fault: Fault,
    message: Seq<char>,
)
    requires
        v.stage == Stage::Publish,
        0 <= v.work.index < v.outputs.len(),
    ensures
        v.work.fresh && v.outputs[v.work.index as int].original == Some(kept) || !v.work.fresh
            && v.work.aside == kept ==> {
            let w = v.step(Outcome::Failed(fault, message));
            let end = w.step(Outcome::Done);
            &&& w.action() == to_move(kept, v.work.destination)
            &&& end.stage == Stage::Idle
            &&& end.last == Some(
                Failure { cancelled: false, text: "변환 결과 저장 실패"@ + ": "@ + message },
            )
            &&& v.work.fresh ==> end.outputs == v.outputs.remove(v.work.index as int)
            &&& !v.work.fresh ==> end.outputs == v.outputs.update(
                v.work.index as int,
                Entry { published: true, ..v.outputs[v.work.index as int] },
            )
        },
        v.work.fresh && v.outputs[v.work.index as int].original is None ==> v.step(
            Outcome::Failed(fault, message),
        ) == told(
            Journal { outputs: v.outputs.remove(v.work.index as int), ..v },
            "변환 결과 저장 실패"@ + ": "@ + message,
        ),
{
}

/// The notes say, on a line of its own, where a file that has to make room is kept, and where it
/// belongs; only then it is moved to just that place.
pub proof fn the_notes_say_where_files_belong(v: Journal, at: usize)
    requires
        v.stage == Stage::MapOriginal || v.stage == (Stage::MapSource { at }) && at
            < v.deferred_sources.len(),
    ensures
        ({
            let belongs = if v.stage == Stage::MapOriginal {
                v.work.destination
            } else {
                v.deferred_sources[at as int]
            };
            &&& v.action() == to_append(
                v.workspace.child("recovery.txt"@),
                v.work.aside.shown(v.separator) + " -> "@ + belongs.shown(v.separator),
            )
            &&& v.step(Outcome::Done).action() == to_move(belongs, v.work.aside)
        }),
{
}

/// A file that stands in the place of a result is kept in the workspace under a name of its own: it
/// has the extension of the file, and a number that no other name there has.
pub proof fn files_are_kept_under_new_names(v: Journal, name: Seq<char>)
    requires
        v.stage == Stage::ProbeTarget,
    ensures
        ({
            let w = v.step(Outcome::Exists(true));
            &&& w.stage == Stage::MapOriginal
            &&& w.sequence == v.sequence + 1
            &&& crate::journal::path_extension(v.work.destination) is None ==> w.work.aside
                == v.workspace.child("original"@ + "-"@ + decimal(v.sequence + 1))
            &&& crate::journal::path_extension(v.work.destination) == Some(name) ==> w.work.aside
                == v.workspace.child("original"@ + "-"@ + decimal(v.sequence + 1) + ("."@ + name))
        }),
        v.step(Outcome::Exists(false)).action() == to_move(v.work.staged, v.work.destination),
        v.step(Outcome::Exists(false)).outputs == v.outputs.push(
            Entry { destination: v.work.destination, original: None, published: false },
        ),
{
    let base = "original"@ + "-"@ + decimal(v.sequence + 1);
    assert(base + Seq::<char>::empty() =~= base);
}

// ---------------------------------------------------------------------------
// Commits
// ---------------------------------------------------------------------------

/// A source that is to be removed is noted, once, behind those before it.
pub proof fn sources_are_noted_once(v: Journal, p: PathView)
    ensures
        v.defer(None) == v,
        (forall|i: int|
            0 <= i < v.deferred_sources.len() ==> (#[trigger] v.deferred_sources[i]).key(
                v.fold_case,
            ) != p.key(v.fold_case)) ==> v.defer(Some(p)) == (Journal {
            deferred_sources: v.deferred_sources.push(p),
            ..v
        }),
        v.defer(Some(p)).defer(Some(p)) == v.defer(Some(p)),
        exists|i: int|
            0 <= i < v.defer(Some(p)).deferred_sources.len() && (
            #[trigger] v.defer(Some(p)).deferred_sources[i]).key(v.fold_case) == p.key(v.fold_case),
{
    let w = v.defer(Some(p));
    if !crate::journal::listed(v.deferred_sources, p, v.fold_case) {
        assert(w.deferred_sources[v.deferred_sources.len() as int] == p);
    } else {
        let i = choose|i: int|
            0 <= i < v.deferred_sources.len() && (#[trigger] v.deferred_sources[i]).key(v.fold_case)
                == p.key(v.fold_case);
        assert(w.deferred_sources[i] == v.deferred_sources[i]);
    }
}

/// A commit is under way, and nothing has gone wrong so far.
pub open spec fn is_committing(v: Journal) -> bool {
    match v.stage {
        Stage::Check { .. } | Stage::Source { .. } | Stage::MapSource { .. } | Stage::MoveSource {
            ..
        } => !v.finished,
        Stage::Purge { .. }
        | Stage::PurgeSource { .. }
        | Stage::Temporaries { .. }
        | Stage::Mapping
        | Stage::Workspace => v.finished && v.committed && v.errors.len() == 0,
        _ => false,
    }
}

/// The disk finds the results to be files, and does what it was asked for.
pub open spec fn lets_commit(v: Journal, o: Outcome<Seq<char>>) -> bool {
    match v.stage {
        Stage::Check { .. } => o == Outcome::<Seq<char>>::Found(Kind::File),
        _ => o == Outcome::<Seq<char>>::Done,
    }
}

/// A commit of stored results in whose way nothing stands goes on until its end, and ends with
/// success: the job is committed.
pub proof fn an_unhindered_commit_succeeds(v: Journal, o: Outcome<Seq<char>>)
    requires
        forall|i: int| 0 <= i < v.outputs.len() ==> (#[trigger] v.outputs[i]).published,
    ensures
        !v.finished ==> is_committing(v.commit()),
        v.finished ==> v.commit().stage == Stage::Idle && v.commit().last is None,
        v.wf() && is_committing(v) && lets_commit(v, o) ==> {
            let w = v.step(o);
            ||| is_committing(w)
            ||| w.stage == Stage::Idle && w.last is None && w.finished && w.committed
        },
{
    if v.wf() && is_committing(v) && lets_commit(v, o) {
        lemma_commit_goes_on(v, o);
    }
}

proof fn lemma_commit_goes_on(v: Journal, o: Outcome<Seq<char>>)
    requires
        forall|i: int| 0 <= i < v.outputs.len() ==> (#[trigger] v.outputs[i]).published,
        v.wf() && is_committing(v) && lets_commit(v, o),
    ensures
        is_committing(v.step(o)) || v.step(o).stage == Stage::Idle && v.step(o).last is None
            && v.step(o).finished && v.step(o).committed,
{
}

/// Before anything is moved every result is looked at, from the first to the last, where it stands.
pub proof fn every_result_is_looked_at(v: Journal, at: usize)
    requires
        forall|i: int| 0 <= i < v.outputs.len() ==> (#[trigger] v.outputs[i]).published,
        v.outputs.len() <= usize::MAX,
    ensures
        !v.finished && v.outputs.len() > 0 ==> v.commit().action() == to_inspect(
            v.outputs[0].destination,
        ),
        v.stage == (Stage::Check { at }) && at + 1 < v.outputs.len() ==> v.step(
            Outcome::Found(Kind::File),
        ).action() == to_inspect(v.outputs[at + 1].destination),
        v.stage == (Stage::Check { at }) && at + 1 == v.outputs.len() ==> v.step(
            Outcome::Found(Kind::File),
        ).stage == (Stage::Source { at: 0 }),
{
}

/// Then every source that was noted is moved away, one after the other, unless a result has taken
/// its place or it was moved away already.
pub proof fn every_noted_source_is_moved_away(v: Journal, at: usize)
    requires
        at < v.deferred_sources.len() <= usize::MAX,
    ensures
        v.stage == (Stage::Source { at }) ==> {
            let source = v.deferred_sources[at as int];
            let w = v.step(Outcome::Done);
            if (exists|i: int| is_entry(v, i, source) && #[trigger] v.outputs[i].published) || (
            exists|i: int|
                0 <= i < v.removed_sources.len() && (
                #[trigger] v.removed_sources[i]).source.key(v.fold_case) == source.key(
                    v.fold_case,
                )) {
                w == (Journal { stage: Stage::Source { at: (at + 1) as usize }, ..v })
            } else {
                w.stage == (Stage::MapSource { at })
            }
        },
        v.stage == (Stage::MoveSource { at }) ==> {
            &&& v.action() == to_move(v.deferred_sources[at as int], v.work.aside)
            &&& v.step(Outcome::Done) == (Journal {
                removed_sources: v.removed_sources.push(
                    Removed { source: v.deferred_sources[at as int], backup: v.work.aside },
                ),
                stage: Stage::Source { at: (at + 1) as usize },
                ..v
            })
        },
{
}

/// A place at which an earlier result of the job could not be stored is not written to again, before
/// that is mended. An earlier result that stands there makes room: it is moved into the workspace
/// under a new name, which is noted to be temporary.
pub proof fn earlier_results_make_room(v: Journal, i: int, o: Outcome<Seq<char>>)
    requires
        v.stage == Stage::Target,
        is_entry(v, i, v.work.destination),
        forall|k: int| 0 <= k < i ==> !#[trigger] is_entry(v, k, v.work.destination),
        o == Outcome::<Seq<char>>::Found(Kind::File) || o is Failed,
        v.outputs.len() <= usize::MAX,
    ensures
        !v.outputs[i].published ==> v.step(o) == told(
            v,
            "이 출력의 이전 저장 실패를 먼저 복구해야 합니다. 복구 폴더: "@ + v.workspace.shown(
                v.separator,
            ),
        ),
        v.outputs[i].published ==> {
            let w = v.step(o);
            &&& w.stage == Stage::SetAside
            &&& w.action() == to_move(v.work.destination, w.work.aside)
            &&& w.work.index == i && !w.work.fresh
            &&& w.work.aside.root == v.workspace.root
            &&& w.work.aside.parts.drop_last() == v.workspace.parts
            &&& w.temporary_files == v.temporary_files.push(w.work.aside)
            &&& w.sequence == v.sequence + 1
            &&& w.outputs == v.outputs
        },
{
    assert forall|k: int| 0 <= k < i implies (#[trigger] v.outputs[k]).destination.key(v.fold_case)
        != v.work.destination.key(v.fold_case) by {
        assert(!is_entry(v, k, v.work.destination));
    }
    lemma_first_entry(v.outputs, v.work.destination, v.fold_case, i);
    assert(v.step(o) == v.after_target(o));
    let drawn = v.draw("previous"@, v.work.destination);
    assert(drawn.work.aside.parts.drop_last() =~= v.workspace.parts);
}

/// Then the new result is moved to its place, and the earlier one is removed: the conversion has
/// succeeded, even if that cannot be done.
pub proof fn earlier_results_are_replaced(v: Journal, o: Outcome<Seq<char>>)
    requires
        !v.work.fresh,
        0 <= v.work.index < v.outputs.len(),
    ensures
        v.stage == Stage::SetAside ==> {
            let w = v.step(Outcome::Done);
            &&& w.action() == to_move(v.work.staged, v.work.destination)
            &&& w.outputs == v.outputs.update(
                v.work.index as int,
                Entry { published: false, ..v.outputs[v.work.index as int] },
            )
        },
        v.stage == Stage::Publish ==> v.step(Outcome::Done).action() == to_remove_file(
            v.work.aside,
        ),
        v.stage == Stage::Discard ==> v.step(o) == (Journal {
            stage: Stage::Idle,
            last: None,
            ..v
        }),
{
}

proof fn lemma_first_entry(outputs: Seq<Entry>, p: PathView, fold_case: bool, i: int)
    requires
        0 <= i < outputs.len(),
        outputs[i].destination.key(fold_case) == p.key(fold_case),
        forall|k: int|
            0 <= k < i ==> (#[trigger] outputs[k]).destination.key(fold_case) != p.key(fold_case),
    ensures
        entry_for(outputs, p, fold_case) == Some(i),
    decreases outputs.len(),
{
    let front = outputs.drop_last();
    if i < outputs.len() - 1 {
        assert(front[i] == outputs[i]);
        assert forall|k: int| 0 <= k < i implies (#[trigger] front[k]).destination.key(fold_case)
            != p.key(fold_case) by {
            assert(front[k] == outputs[k]);
        }
        lemma_first_entry(front, p, fold_case, i);
    } else {
        lemma_entry_for(front, p, fold_case);
        match entry_for(front, p, fold_case) {
            Some(k) => {
                assert(front[k] == outputs[k]);
            },
            None => {},
        }
    }
}

/// A folder that the job created and that is in use by now, or gone, is left alone without an error;
/// any other refusal is noted. The next folder further up follows.
pub proof fn folders_in_use_are_left_alone(v: Journal, left: usize, message: Seq<char>)
    requires
        v.stage == (Stage::Folders { left }),
        0 < left <= v.created_directories.len(),
    ensures
        v.action() == crate::disk::to_remove_folder(v.created_directories[left - 1]),
        v.step(Outcome::Done) == v.at(Stage::Folders { left: (left - 1) as usize }),
        v.step(Outcome::Failed(Fault::NotEmpty, message)) == v.step(Outcome::Done),
        v.step(Outcome::Failed(Fault::NotFound, message)) == v.step(Outcome::Done),
        v.step(Outcome::Failed(Fault::Other, message)) == (Journal {
            errors: v.errors.push(
                v.created_directories[left - 1].shown(v.separator) + ": "@ + message,
            ),
            ..v.step(Outcome::Done)
        }),
{
}

/// What a conversion that is refused by the disk says: at what it was, for which path, and why.
pub proof fn failed_conversions_say_why(v: Journal, at: usize, fault: Fault, message: Seq<char>)
    ensures
        v.stage == (Stage::MakeFolder { at }) ==> v.step(Outcome::Failed(fault, message)) == told(
            v,
            "출력 폴더 생성 실패: "@ + v.work.destination.prefix(at as int).shown(v.separator) + ": "@
                + message,
        ),
        v.stage == Stage::SetAside ==> v.step(Outcome::Failed(fault, message)) == told(
            v,
            "이전 변환 결과 임시 보관 실패"@ + ": "@ + message,
        ),
        v.stage == Stage::MapOriginal ==> v.step(Outcome::Failed(fault, message)) == told(
            v,
            message,
        ),
        v.stage == Stage::KeepOriginal ==> v.step(Outcome::Failed(fault, message)) == told(
            v,
            "기존 출력 보관 실패: "@ + v.work.destination.shown(v.separator) + ": "@ + message,
        ),
        v.stage == Stage::Restore ==> v.step(Outcome::Failed(fault, message)) == told(
            v,
            "출력 저장 및 기존 파일 복원 실패 ("@ + message + "). 복구 파일: "@ + v.workspace.shown(
                v.separator,
            ) + ": "@ + v.work.error,
        ),
        v.stage == Stage::Target ==> v.step(Outcome::Found(Kind::Folder)) == told(
            v,
            "기존 출력이 일반 파일이 아닙니다: "@ + v.work.destination.shown(v.separator),
        ),
        v.stage == Stage::Target ==> v.step(Outcome::Found(Kind::Other)) == told(
            v,
            "기존 출력이 일반 파일이 아닙니다: "@ + v.work.destination.shown(v.separator),
        ),
{
}

/// What a commit that is refused by the disk says.
pub proof fn failed_commits_say_why(v: Journal, at: usize, fault: Fault, message: Seq<char>)
    ensures
        v.stage == (Stage::Check { at }) ==> v.step(Outcome::Failed(fault, message)) == told(
            v,
            "완료할 출력 파일 확인 실패: "@ + (v.outputs[at as int].destination.shown(v.separator)
                + ". 복구 폴더: "@ + v.workspace.shown(v.separator)) + ": "@ + message,
        ),
        v.stage == (Stage::MapSource { at }) ==> v.step(Outcome::Failed(fault, message)) == told(
            v,
            message,
        ),
        v.stage == (Stage::MoveSource { at }) ==> v.step(Outcome::Failed(fault, message)) == told(
            v,
            "변환 원본 정리 실패: "@ + v.deferred_sources[at as int].shown(v.separator)
                + ". 복구 폴더: "@ + v.workspace.shown(v.separator) + ": "@ + message,
        ),
{
}

/// What cannot be cleaned up once the results are final is noted, path by path, and does not keep
/// the rest from being cleaned up. A file that is gone already is no error.
pub proof fn cleaning_up_goes_on(v: Journal, at: usize, message: Seq<char>)
    ensures
        v.stage == (Stage::PurgeSource { at }) && at < v.removed_sources.len() ==> {
            let w = v.step(Outcome::Failed(Fault::Other, message));
            &&& w.stage == (Stage::PurgeSource { at: (at + 1) as usize })
            &&& w.errors == v.errors.push(
                v.removed_sources[at as int].backup.shown(v.separator) + ": "@ + message,
            )
            &&& v.step(Outcome::Failed(Fault::NotFound, message)).errors == v.errors
        },
        v.stage == (Stage::Temporaries { at }) && at < v.temporary_files.len() ==> {
            let w = v.step(Outcome::Failed(Fault::Other, message));
            &&& w.stage == (Stage::Temporaries { at: (at + 1) as usize })
            &&& w.errors == v.errors.push(
                v.temporary_files[at as int].shown(v.separator) + ": "@ + message,
            )
            &&& v.step(Outcome::Failed(Fault::NotFound, message)).errors == v.errors
        },
{
}

/// A commit or a rollback that could not do all it should ends with an error that lists what is
/// left, line by line; with nothing left it succeeds.
pub proof fn what_is_left_is_listed(v: Journal)
    requires
        v.stage == Stage::Workspace,
    ensures
        v.errors.len() > 0 ==> v.step(Outcome::Done).last == Some(
            Failure {
                cancelled: false,
                text: (if v.committed {
                    "변환은 완료됐지만 복구용 임시 파일 정리에 실패했습니다"@
                } else {
                    "취소 후 일부 파일 복원 또는 정리에 실패했습니다"@
                }) + ". 복구 폴더: "@ + v.workspace.shown(v.separator) + "\n"@ + joined(
                    v.errors,
                    "\n"@,
                ),
            },
        ),
        v.errors.len() == 0 ==> v.step(Outcome::Done).last is None && v.step(Outcome::Done).finished,
{
}

// ---------------------------------------------------------------------------
// Openings
// ---------------------------------------------------------------------------

/// The workspace of a job is created in the nearest folder above the output folder that is there,
/// once it and all above it were found to be folders. A volume root is its own.
pub proof fn the_workspace_is_created_nearby(
    v: OpeningView,
    depth: usize,
    at: usize,
    name: Seq<char>,
)
    requires
        at <= depth,
    ensures
        v.stage == (OpeningStage::Seek { depth }) ==> {
            &&& v.action() == to_probe(v.root.prefix(depth as int))
            &&& v.step(Outcome::Exists(true)).action() == to_inspect(v.root.prefix(depth as int))
            &&& depth > 0 ==> v.step(Outcome::Exists(false)) == (OpeningView {
                stage: OpeningStage::Seek { depth: (depth - 1) as usize },
                ..v
            })
        },
        v.stage == (OpeningStage::Chain { depth, at }) ==> {
            let w = v.step(Outcome::Found(Kind::Folder));
            &&& v.action() == to_inspect(v.root.prefix(at as int))
            &&& at > 0 ==> w.action() == to_inspect(v.root.prefix(at - 1))
            &&& at == 0 ==> w.action() == to_create_unique(
                v.root.prefix(depth as int),
                ".wav-converter-job-"@,
            )
        },
        v.stage == (OpeningStage::Create { depth }) ==> {
            let w = v.step(Outcome::Created(name));
            &&& w.stage == OpeningStage::Over
            &&& w.workspace == Some(v.root.prefix(depth as int).child(name))
        },
{
}

/// The search begins with the folder above the output folder, or with a volume root itself.
pub proof fn openings_begin_above_the_output(root: PathView, fold_case: bool, separator: Seq<char>)
    requires
        root.parts.len() <= usize::MAX,
    ensures
        root.parts.len() > 0 ==> OpeningView::start(root, fold_case, separator).action()
            == to_probe(root.prefix(root.parts.len() - 1)),
        root.parts.len() == 0 ==> OpeningView::start(root, fold_case, separator).action()
            == to_probe(root),
{
    if root.parts.len() == 0 {
        assert(root.prefix(0).parts =~= root.parts);
    }
}

/// An opening that fails says why, and gives no workspace.
pub proof fn failed_openings_say_why(v: OpeningView, depth: usize, fault: Fault, message: Seq<char>)
    requires
        v.workspace is None,
    ensures
        v.stage == (OpeningStage::Seek { depth: 0 }) ==> {
            let w = v.step(Outcome::Exists(false));
            w.stage == OpeningStage::Over && w.workspace is None && w.error
                == "출력 폴더의 상위 경로가 없습니다"@
        },
        v.stage is Chain ==> {
            let w = v.step(Outcome::Failed(fault, message));
            w.stage == OpeningStage::Over && w.workspace is None && w.error == message
        },
        v.stage == (OpeningStage::Create { depth }) ==> {
            let w = v.step(Outcome::Failed(fault, message));
            w.stage == OpeningStage::Over && w.workspace is None && w.error
                == "취소 복구용 임시 폴더 생성 실패"@ + ": "@ + message
        },
{
}

} // verus!
