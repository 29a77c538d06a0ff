//! The course of a job that can be taken back until it is committed, step by step.
//!
//! Backups live in a workspace beside the output folder, where putting the output in order cannot
//! move them. Cleaning up removes only files that were noted one by one and folders that are
//! empty.
use crate::convert::OutputFormat;
use crate::disk::{refusal, removal_refusal, Action, Failure, Kind, Outcome};
use crate::path::{extension, file_name, PathView};
use crate::text::{decimal, joined, lowercase, lowers_ascii};
use vstd::prelude::*;

verus! {

/// Where an operation stands: what is asked of the disk next.
#[derive(Debug, Clone, Copy, PartialEq, Eq, Structural)]
pub enum Stage {
    /// No operation is under way.
    Idle,
    // -- converting one file
    /// The source is converted into the workspace.
    Converting,
    /// Looking for the nearest folder above the destination that is there.
    FindParent { depth: usize },
    /// Making sure that this folder and all above it are folders.
    CheckChain { depth: usize, at: usize },
    /// Creating the missing folders, from the top.
    MakeFolder { at: usize },
    /// Looking at what stands at the destination.
    Target,
    /// Moving an earlier result of this job out of the way.
    SetAside,
    /// Asking whether there is a file to keep at the destination.
    ProbeTarget,
    /// Noting where that file will be kept.
    MapOriginal,
    /// Moving that file to where it is kept.
    KeepOriginal,
    /// Moving the result to its destination.
    Publish,
    /// Putting back what stood there after the result could not be moved.
    Restore,
    /// Removing the earlier result.
    Discard,
    // -- committing
    /// Making sure that a result is still there.
    Check { at: usize },
    /// Deciding whether a source is to be removed.
    Source { at: usize },
    /// Noting where a source will be kept.
    MapSource { at: usize },
    /// Moving a source to where it is kept.
    MoveSource { at: usize },
    /// Removing a kept file that is no longer needed.
    Purge { at: usize },
    /// Removing a kept source.
    PurgeSource { at: usize },
    // -- rolling back
    /// Removing a result.
    Withdraw { left: usize },
    /// Making sure that nothing stands where a kept file belongs.
    Reinstate { left: usize },
    /// Moving a kept file back.
    PutBack { left: usize },
    /// Making sure that nothing stands where a source belongs.
    Sources { at: usize },
    /// Moving a source back.
    Return { at: usize },
    /// Removing a folder that this job created.
    Folders { left: usize },
    // -- cleaning up the workspace
    /// Removing a temporary file.
    Temporaries { at: usize },
    /// Removing the notes.
    Mapping,
    /// Removing the workspace.
    Workspace,
}

/// A result and what stood at its place.
#[verifier::ext_equal]
pub struct Entry {
    pub destination: PathView,
    /// Where the file that stood there is kept.
    pub original: Option<PathView>,
    /// The result stands at its destination.
    pub published: bool,
}

/// A source that was moved away.
#[verifier::ext_equal]
pub struct Removed {
    pub source: PathView,
    pub backup: PathView,
}

/// The conversion under way.
#[verifier::ext_equal]
pub struct Work {
    pub source: PathView,
    pub destination: PathView,
    /// Where the result is written first.
    pub staged: PathView,
    /// The format of the result, once a conversion has begun.
    pub format: Option<OutputFormat>,
    /// Where what stands at the destination, or a source, goes.
    pub aside: PathView,
    /// The entry of the result.
    pub index: usize,
    /// The entry was made by this conversion.
    pub fresh: bool,
    /// Why the result could not be moved to its destination.
    pub error: Seq<char>,
}

/// All that a job has noted.
#[verifier::ext_equal]
pub struct Journal {
    pub root: PathView,
    pub workspace: PathView,
    pub outputs: Seq<Entry>,
    pub temporary_files: Seq<PathView>,
    pub created_directories: Seq<PathView>,
    pub deferred_sources: Seq<PathView>,
    pub removed_sources: Seq<Removed>,
    /// How many names were given out in the workspace.
    pub sequence: nat,
    pub finished: bool,
    pub committed: bool,
    pub fold_case: bool,
    pub separator: Seq<char>,
    pub stage: Stage,
    pub work: Work,
    pub errors: Seq<Seq<char>>,
    /// How the last operation failed, if it did.
    pub last: Option<Failure<Seq<char>>>,
}

/// A message and its cause.
pub open spec fn because(message: Seq<char>, cause: Seq<char>) -> Seq<char> {
    message + ": "@ + cause
}

/// A name in the workspace: a label, a number, and the extension of what it stands for.
pub open spec fn ticket_name(label: Seq<char>, n: nat, ext: Option<Seq<char>>) -> Seq<char> {
    label + "-"@ + decimal(n) + (match ext {
        Some(e) => "."@ + e,
        None => Seq::empty(),
    })
}

/// The extension of a path's name.
pub open spec fn path_extension(p: PathView) -> Option<Seq<char>> {
    match file_name(p) {
        Some(name) => extension(name),
        None => None,
    }
}

/// The first entry for a destination.
pub open spec fn entry_for(outputs: Seq<Entry>, p: PathView, fold_case: bool) -> Option<int>
    decreases outputs.len(),
{
    if outputs.len() == 0 {
        None
    } else {
        match entry_for(outputs.drop_last(), p, fold_case) {
            Some(i) => Some(i),
            None => if outputs.last().destination.key(fold_case) == p.key(fold_case) {
                Some(outputs.len() - 1)
            } else {
                None
            },
        }
    }
}

/// Where the file that stood at a destination is kept.
pub open spec fn retained(outputs: Seq<Entry>, p: PathView, fold_case: bool) -> Option<PathView>
    decreases outputs.len(),
{
    if outputs.len() == 0 {
        None
    } else {
        match retained(outputs.drop_last(), p, fold_case) {
            Some(kept) => Some(kept),
            None => if outputs.last().destination.key(fold_case) == p.key(fold_case) {
                outputs.last().original
            } else {
                None
            },
        }
    }
}

/// A path is one of a list.
pub open spec fn listed(all: Seq<PathView>, p: PathView, fold_case: bool) -> bool {
    exists|i: int| 0 <= i < all.len() && (#[trigger] all[i]).key(fold_case) == p.key(fold_case)
}

/// Where names are told apart by their lowercase forms, it is known how the ASCII characters at the
/// front of a name turn out.
#[verifier::opaque]
pub open spec fn is_known(name: Seq<char>, fold_case: bool) -> bool {
    fold_case ==> lowers_ascii(name, lowercase(name))
}

/// The name of a path is known.
#[verifier::opaque]
pub open spec fn is_known_path(p: PathView, fold_case: bool) -> bool {
    is_known(p.parts.last(), fold_case)
}

impl Journal {
    /// The names in the workspace that are in use are known: that of the notes, and those that were
    /// drawn last.
    #[verifier::opaque]
    pub open spec fn names_are_known(self) -> bool {
        &&& is_known("recovery.txt"@, self.fold_case)
        &&& is_known_path(self.work.staged, self.fold_case)
        &&& is_known_path(self.work.aside, self.fold_case)
    }

    /// A job that has not begun.
    pub open spec fn fresh(
        root: PathView,
        workspace: PathView,
        fold_case: bool,
        separator: Seq<char>,
    ) -> Journal {
        Journal {
            root,
            workspace,
            outputs: Seq::empty(),
            temporary_files: Seq::empty(),
            created_directories: Seq::empty(),
            deferred_sources: Seq::empty(),
            removed_sources: Seq::empty(),
            sequence: 0,
            finished: false,
            committed: false,
            fold_case,
            separator,
            stage: Stage::Idle,
            work: Work {
                source: root,
                destination: root,
                staged: workspace.child("recovery.txt"@),
                format: None,
                aside: workspace.child("recovery.txt"@),
                index: 0,
                fresh: false,
                error: Seq::empty(),
            },
            errors: Seq::empty(),
            last: None,
        }
    }

    /// The indices of the stage lie within the lists they speak of.
    pub open spec fn wf(self) -> bool {
        let below = self.work.destination.parts.len() as int;
        match self.stage {
            Stage::FindParent { depth } => depth < below,
            Stage::CheckChain { depth, at } => at <= depth < below,
            Stage::MakeFolder { at } => at < below,
            Stage::SetAside | Stage::Publish => self.work.index < self.outputs.len(),
            Stage::Restore => self.work.index < self.outputs.len() && self.displaced() is Some,
            Stage::Check { at } => at < self.outputs.len(),
            Stage::Source { at } => at <= self.deferred_sources.len(),
            Stage::MapSource { at } | Stage::MoveSource { at } => at < self.deferred_sources.len(),
            Stage::Purge { at } => at <= self.outputs.len(),
            Stage::PurgeSource { at } => at <= self.removed_sources.len(),
            Stage::Withdraw { left } => left <= self.outputs.len(),
            Stage::Reinstate { left } => 0 < left <= self.outputs.len(),
            Stage::PutBack { left } => 0 < left <= self.outputs.len() && self.outputs[left
                - 1].original is Some,
            Stage::Sources { at } => at <= self.removed_sources.len(),
            Stage::Return { at } => at < self.removed_sources.len(),
            Stage::Folders { left } => left <= self.created_directories.len(),
            Stage::Temporaries { at } => at <= self.temporary_files.len(),
            Stage::Converting => below > 0 && self.work.format is Some,
            _ => true,
        }
    }

    // -- small changes

    pub open spec fn at(self, stage: Stage) -> Journal {
        Journal { stage, ..self }
    }

    /// The operation ends with an error.
    pub open spec fn fail(self, text: Seq<char>) -> Journal {
        Journal {
            stage: Stage::Idle,
            last: Some(Failure { cancelled: false, text }),
            ..self
        }
    }

    /// The operation ends because the user cancelled.
    pub open spec fn cancel(self) -> Journal {
        Journal {
            stage: Stage::Idle,
            last: Some(Failure { cancelled: true, text: "변환이 취소되었습니다"@ }),
            ..self
        }
    }

    /// The operation ends with success.
    pub open spec fn succeed(self) -> Journal {
        Journal { stage: Stage::Idle, last: None, ..self }
    }

    pub open spec fn note_error(self, text: Seq<char>) -> Journal {
        Journal { errors: self.errors.push(text), ..self }
    }

    pub open spec fn set_entry(self, i: int, original: Option<PathView>, published: bool) -> Journal {
        Journal {
            outputs: self.outputs.update(i, Entry { original, published, ..self.outputs[i] }),
            ..self
        }
    }

    pub open spec fn set_published(self, i: int, published: bool) -> Journal {
        self.set_entry(i, self.outputs[i].original, published)
    }

    pub open spec fn forget_original(self, i: int) -> Journal {
        self.set_entry(i, None, self.outputs[i].published)
    }

    /// A new entry for the destination of the conversion under way.
    pub open spec fn add_entry(self, original: Option<PathView>) -> Journal {
        Journal {
            outputs: self.outputs.push(
                Entry { destination: self.work.destination, original, published: false },
            ),
            work: Work { index: self.outputs.len() as usize, fresh: true, ..self.work },
            ..self
        }
    }

    pub open spec fn drop_entry(self) -> Journal {
        Journal { outputs: self.outputs.remove(self.work.index as int), ..self }
    }

    /// The next name in the workspace.
    pub open spec fn ticket(self, label: Seq<char>, ext: Option<Seq<char>>) -> PathView {
        self.workspace.child(ticket_name(label, self.sequence + 1, ext))
    }

    /// The next name is given out for what moves aside.
    pub open spec fn draw(self, label: Seq<char>, like: PathView) -> Journal {
        Journal {
            sequence: self.sequence + 1,
            work: Work { aside: self.ticket(label, path_extension(like)), ..self.work },
            ..self
        }
    }

    /// The file that notes where things are kept.
    pub open spec fn notes(self) -> PathView {
        self.workspace.child("recovery.txt"@)
    }

    pub open spec fn show(self, p: PathView) -> Seq<char> {
        p.shown(self.separator)
    }

    pub open spec fn mapping_line(self, backup: PathView, original: PathView) -> Seq<char> {
        self.show(backup) + " -> "@ + self.show(original)
    }

    // -- converting

    /// The file to decode for an input. Another result may stand at the name of a later input;
    /// then the file that stood there is decoded.
    pub open spec fn source_for(self, input: PathView) -> PathView {
        match retained(self.outputs, input, self.fold_case) {
            Some(kept) => kept,
            None => input,
        }
    }

    /// A conversion begins.
    pub open spec fn convert(
        self,
        input: Option<PathView>,
        destination: Option<PathView>,
        format: OutputFormat,
    ) -> Journal {
        if self.finished {
            self.fail("이미 종료된 변환 작업입니다"@)
        } else {
            match destination {
                None => self.fail("잘못된 파일 경로입니다"@),
                Some(destination) => if !destination.within(self.root) || destination == self.root {
                    self.fail("출력 파일이 선택한 출력 폴더 밖에 있습니다"@)
                } else {
                    match input {
                        None => self.fail("잘못된 파일 경로입니다"@),
                        Some(input) => {
                            let staged = self.ticket("converted"@, Some("wav"@));
                            Journal {
                                sequence: self.sequence + 1,
                                temporary_files: self.temporary_files.push(staged),
                                work: Work {
                                    source: self.source_for(input),
                                    destination,
                                    staged,
                                    format: Some(format),
                                    ..self.work
                                },
                                stage: Stage::Converting,
                                ..self
                            }
                        },
                    }
                },
            }
        }
    }

    pub open spec fn after_converting(self, o: Outcome<Seq<char>>) -> Journal {
        match o {
            Outcome::Failed(_, message) => self.fail(message),
            Outcome::Cancelled | Outcome::Converted { cancelled: true } => self.cancel(),
            _ => self.at(
                Stage::FindParent { depth: (self.work.destination.parts.len() - 1) as usize },
            ),
        }
    }

    pub open spec fn after_find_parent(self, depth: usize, o: Outcome<Seq<char>>) -> Journal {
        if o == Outcome::<Seq<char>>::Exists(true) {
            self.at(Stage::CheckChain { depth, at: depth })
        } else if depth == 0 {
            self.fail("출력 상위 폴더가 없습니다"@)
        } else {
            self.at(Stage::FindParent { depth: (depth - 1) as usize })
        }
    }

    pub open spec fn after_check_chain(
        self,
        depth: usize,
        at: usize,
        o: Outcome<Seq<char>>,
    ) -> Journal {
        match o {
            Outcome::Found(Kind::Folder) => if at == 0 {
                self.make_folders(depth + 1)
            } else {
                self.at(Stage::CheckChain { depth, at: (at - 1) as usize })
            },
            Outcome::Failed(_, message) => self.fail(message),
            _ => self.fail(
                "출력 경로가 일반 폴더가 아닙니다: "@ + self.show(
                    self.work.destination.prefix(at as int),
                ),
            ),
        }
    }

    /// The folders above the destination are created from this depth on.
    pub open spec fn make_folders(self, at: int) -> Journal {
        if at < self.work.destination.parts.len() {
            self.at(Stage::MakeFolder { at: at as usize })
        } else {
            self.at(Stage::Target)
        }
    }

    pub open spec fn after_make_folder(self, at: usize, o: Outcome<Seq<char>>) -> Journal {
        let folder = self.work.destination.prefix(at as int);
        match refusal(o) {
            Some(message) => self.fail(because("출력 폴더 생성 실패: "@ + self.show(folder), message)),
            None => Journal {
                created_directories: self.created_directories.push(folder),
                ..self
            }.make_folders(at + 1),
        }
    }

    pub open spec fn after_target(self, o: Outcome<Seq<char>>) -> Journal {
        let destination = self.work.destination;
        match o {
            Outcome::Found(kind) if kind != Kind::File => self.fail(
                "기존 출력이 일반 파일이 아닙니다: "@ + self.show(destination),
            ),
            _ => match entry_for(self.outputs, destination, self.fold_case) {
                Some(i) => if self.outputs[i].published {
                    let drawn = self.draw("previous"@, destination);
                    Journal {
                        temporary_files: self.temporary_files.push(drawn.work.aside),
                        work: Work { index: i as usize, fresh: false, ..drawn.work },
                        stage: Stage::SetAside,
                        ..drawn
                    }
                } else {
                    self.fail(
                        "이 출력의 이전 저장 실패를 먼저 복구해야 합니다. 복구 폴더: "@ + self.show(
                            self.workspace,
                        ),
                    )
                },
                None => self.at(Stage::ProbeTarget),
            },
        }
    }

    pub open spec fn after_set_aside(self, o: Outcome<Seq<char>>) -> Journal {
        match refusal(o) {
            Some(message) => self.fail(because("이전 변환 결과 임시 보관 실패"@, message)),
            None => self.set_published(self.work.index as int, false).at(Stage::Publish),
        }
    }

    pub open spec fn after_probe_target(self, o: Outcome<Seq<char>>) -> Journal {
        if o == Outcome::<Seq<char>>::Exists(true) {
            self.draw("original"@, self.work.destination).at(Stage::MapOriginal)
        } else {
            self.add_entry(None).at(Stage::Publish)
        }
    }

    pub open spec fn after_map_original(self, o: Outcome<Seq<char>>) -> Journal {
        match refusal(o) {
            Some(message) => self.fail(message),
            None => self.at(Stage::KeepOriginal),
        }
    }

    pub open spec fn after_keep_original(self, o: Outcome<Seq<char>>) -> Journal {
        match refusal(o) {
            Some(message) => self.fail(
                because("기존 출력 보관 실패: "@ + self.show(self.work.destination), message),
            ),
            None => self.add_entry(Some(self.work.aside)).at(Stage::Publish),
        }
    }

    /// What stood at the destination of the conversion under way.
    pub open spec fn displaced(self) -> Option<PathView> {
        if self.work.fresh {
            self.outputs[self.work.index as int].original
        } else {
            Some(self.work.aside)
        }
    }

    pub open spec fn after_publish(self, o: Outcome<Seq<char>>) -> Journal {
        match refusal(o) {
            Some(message) => match self.displaced() {
                Some(_) => Journal {
                    work: Work { error: message, ..self.work },
                    stage: Stage::Restore,
                    ..self
                },
                None => self.drop_entry().fail(because("변환 결과 저장 실패"@, message)),
            },
            None => {
                let next = self.set_published(self.work.index as int, true);
                if self.work.fresh {
                    next.succeed()
                } else {
                    next.at(Stage::Discard)
                }
            },
        }
    }

    pub open spec fn after_restore(self, o: Outcome<Seq<char>>) -> Journal {
        match refusal(o) {
            Some(message) => self.fail(
                because(
                    "출력 저장 및 기존 파일 복원 실패 ("@ + message + "). 복구 파일: "@ + self.show(
                        self.workspace,
                    ),
                    self.work.error,
                ),
            ),
            None => (if self.work.fresh {
                self.drop_entry()
            } else {
                self.set_published(self.work.index as int, true)
            }).fail(because("변환 결과 저장 실패"@, self.work.error)),
        }
    }

    // -- committing

    /// A source is to be removed once the job is committed.
    pub open spec fn defer(self, input: Option<PathView>) -> Journal {
        match input {
            Some(p) if !listed(self.deferred_sources, p, self.fold_case) => Journal {
                deferred_sources: self.deferred_sources.push(p),
                ..self
            },
            _ => self,
        }
    }

    pub open spec fn commit(self) -> Journal {
        if self.finished {
            self.succeed()
        } else {
            self.check_from(0)
        }
    }

    /// The results are looked at from this one on; only then anything is moved or removed.
    pub open spec fn check_from(self, at: int) -> Journal {
        if at >= self.outputs.len() {
            self.at(Stage::Source { at: 0 })
        } else if self.outputs[at].published {
            self.at(Stage::Check { at: at as usize })
        } else {
            self.fail(
                "저장에 실패한 출력을 먼저 복구해야 합니다: "@ + self.show(
                    self.outputs[at].destination,
                ) + ". 복구 폴더: "@ + self.show(self.workspace),
            )
        }
    }

    pub open spec fn after_check(self, at: usize, o: Outcome<Seq<char>>) -> Journal {
        let place = self.show(self.outputs[at as int].destination) + ". 복구 폴더: "@ + self.show(
            self.workspace,
        );
        match o {
            Outcome::Found(Kind::File) => self.check_from(at + 1),
            Outcome::Failed(_, message) => self.fail(
                because("완료할 출력 파일 확인 실패: "@ + place, message),
            ),
            _ => self.fail("완료할 출력이 일반 파일이 아닙니다: "@ + place),
        }
    }

    /// A source stays where it is the destination of a result, and is moved away only once.
    pub open spec fn stays(self, source: PathView) -> bool {
        ||| exists|i: int|
            0 <= i < self.outputs.len() && (#[trigger] self.outputs[i]).published
                && self.outputs[i].destination.key(self.fold_case) == source.key(self.fold_case)
        ||| exists|i: int|
            0 <= i < self.removed_sources.len() && (
            #[trigger] self.removed_sources[i]).source.key(self.fold_case) == source.key(
                self.fold_case,
            )
    }

    pub open spec fn after_source(self, at: usize) -> Journal {
        if at >= self.deferred_sources.len() {
            // From here on there is no way back: the results stay, even if cleaning up fails.
            Journal {
                finished: true,
                committed: true,
                errors: Seq::empty(),
                stage: Stage::Purge { at: 0 },
                ..self
            }
        } else if self.stays(self.deferred_sources[at as int]) {
            self.at(Stage::Source { at: (at + 1) as usize })
        } else {
            self.draw("source"@, self.deferred_sources[at as int]).at(Stage::MapSource { at })
        }
    }

    pub open spec fn after_map_source(self, at: usize, o: Outcome<Seq<char>>) -> Journal {
        match refusal(o) {
            Some(message) => self.fail(message),
            None => self.at(Stage::MoveSource { at }),
        }
    }

    pub open spec fn after_move_source(self, at: usize, o: Outcome<Seq<char>>) -> Journal {
        let source = self.deferred_sources[at as int];
        match refusal(o) {
            Some(message) => self.fail(
                because(
                    "변환 원본 정리 실패: "@ + self.show(source) + ". 복구 폴더: "@ + self.show(
                        self.workspace,
                    ),
                    message,
                ),
            ),
            None => Journal {
                removed_sources: self.removed_sources.push(
                    Removed { source, backup: self.work.aside },
                ),
                stage: Stage::Source { at: (at + 1) as usize },
                ..self
            },
        }
    }

    pub open spec fn after_purge(self, at: usize, o: Outcome<Seq<char>>) -> Journal {
        if at >= self.outputs.len() {
            self.at(Stage::PurgeSource { at: 0 })
        } else {
            let next = match self.outputs[at as int].original {
                None => self,
                Some(backup) => match removal_refusal(o) {
                    Some(message) => self.note_error(because(self.show(backup), message)),
                    None => self.forget_original(at as int),
                },
            };
            next.at(Stage::Purge { at: (at + 1) as usize })
        }
    }

    pub open spec fn after_purge_source(self, at: usize, o: Outcome<Seq<char>>) -> Journal {
        if at >= self.removed_sources.len() {
            self.at(Stage::Temporaries { at: 0 })
        } else {
            let backup = self.removed_sources[at as int].backup;
            let next = match removal_refusal(o) {
                Some(message) => self.note_error(because(self.show(backup), message)),
                None => self,
            };
            next.at(Stage::PurgeSource { at: (at + 1) as usize })
        }
    }

    // -- rolling back

    pub open spec fn rollback(self) -> Journal {
        if self.finished {
            self.succeed()
        } else {
            Journal {
                errors: Seq::empty(),
                stage: Stage::Withdraw { left: self.outputs.len() as usize },
                ..self
            }
        }
    }

    pub open spec fn after_withdraw(self, left: usize, o: Outcome<Seq<char>>) -> Journal {
        if left == 0 {
            self.at(Stage::Sources { at: 0 })
        } else {
            let entry = self.outputs[left - 1];
            if !entry.published {
                self.at(Stage::Reinstate { left })
            } else {
                match removal_refusal(o) {
                    Some(message) => self.note_error(
                        because(self.show(entry.destination), message),
                    ).at(Stage::Withdraw { left: (left - 1) as usize }),
                    None => self.set_published(left - 1, false).at(Stage::Reinstate { left }),
                }
            }
        }
    }

    pub open spec fn after_reinstate(self, left: usize, o: Outcome<Seq<char>>) -> Journal {
        let entry = self.outputs[left - 1];
        if entry.original is None {
            self.at(Stage::Withdraw { left: (left - 1) as usize })
        } else if o == Outcome::<Seq<char>>::Exists(true) {
            self.note_error("복원 경로에 파일이 있습니다: "@ + self.show(entry.destination)).at(
                Stage::Withdraw { left: (left - 1) as usize },
            )
        } else {
            self.at(Stage::PutBack { left })
        }
    }

    pub open spec fn after_put_back(self, left: usize, o: Outcome<Seq<char>>) -> Journal {
        let entry = self.outputs[left - 1];
        let next = match refusal(o) {
            Some(message) => self.note_error(because(self.show(entry.destination), message)),
            None => self.forget_original(left - 1),
        };
        next.at(Stage::Withdraw { left: (left - 1) as usize })
    }

    pub open spec fn after_sources(self, at: usize, o: Outcome<Seq<char>>) -> Journal {
        if at >= self.removed_sources.len() {
            self.at(Stage::Folders { left: self.created_directories.len() as usize })
        } else if o == Outcome::<Seq<char>>::Exists(true) {
            self.note_error(
                "원본 복원 경로에 파일이 있습니다: "@ + self.show(
                    self.removed_sources[at as int].source,
                ),
            ).at(Stage::Sources { at: (at + 1) as usize })
        } else {
            self.at(Stage::Return { at })
        }
    }

    pub open spec fn after_return(self, at: usize, o: Outcome<Seq<char>>) -> Journal {
        match refusal(o) {
            Some(message) => self.note_error(
                because(self.show(self.removed_sources[at as int].source), message),
            ).at(Stage::Sources { at: (at + 1) as usize }),
            None => Journal {
                removed_sources: self.removed_sources.remove(at as int),
                stage: Stage::Sources { at },
                ..self
            },
        }
    }

    pub open spec fn after_folders(self, left: usize, o: Outcome<Seq<char>>) -> Journal {
        if left == 0 {
            self.at(Stage::Temporaries { at: 0 })
        } else {
            // Something else may have been put into the folder meanwhile: it is left alone.
            let next = match o {
                Outcome::Failed(crate::disk::Fault::Other, message) => self.note_error(
                    because(self.show(self.created_directories[left - 1]), message),
                ),
                _ => self,
            };
            next.at(Stage::Folders { left: (left - 1) as usize })
        }
    }

    // -- cleaning up

    pub open spec fn after_temporaries(self, at: usize, o: Outcome<Seq<char>>) -> Journal {
        if at >= self.temporary_files.len() {
            // The notes stay as long as anything is left to recover.
            if self.errors.len() == 0 {
                self.at(Stage::Mapping)
            } else {
                self.conclude()
            }
        } else {
            let next = match removal_refusal(o) {
                Some(message) => self.note_error(
                    because(self.show(self.temporary_files[at as int]), message),
                ),
                None => self,
            };
            next.at(Stage::Temporaries { at: (at + 1) as usize })
        }
    }

    pub open spec fn after_mapping(self, o: Outcome<Seq<char>>) -> Journal {
        match removal_refusal(o) {
            Some(message) => self.note_error(message).conclude(),
            None => self.at(Stage::Workspace),
        }
    }

    pub open spec fn after_workspace(self, o: Outcome<Seq<char>>) -> Journal {
        match removal_refusal(o) {
            Some(message) => self.note_error(message).conclude(),
            None => self.conclude(),
        }
    }

    /// The end of a commit or of a rollback. A rollback that met an error can be tried again.
    pub open spec fn conclude(self) -> Journal {
        let heading = if self.committed {
            "변환은 완료됐지만 복구용 임시 파일 정리에 실패했습니다"@
        } else {
            "취소 후 일부 파일 복원 또는 정리에 실패했습니다"@
        };
        if self.errors.len() == 0 {
            Journal { finished: true, ..self }.succeed()
        } else {
            self.fail(
                heading + ". 복구 폴더: "@ + self.show(self.workspace) + "\n"@ + joined(
                    self.errors,
                    "\n"@,
                ),
            )
        }
    }

    // -- all steps

    /// What is asked of the disk.
    pub open spec fn action(self) -> Action<PathView, Seq<char>> {
        let work = self.work;
        match self.stage {
            Stage::Idle => Action::Continue,
            Stage::Converting => Action::Convert {
                source: work.source,
                staged: work.staged,
                format: work.format->0,
            },
            Stage::FindParent { depth } => Action::Probe(work.destination.prefix(depth as int)),
            Stage::CheckChain { depth, at } => Action::Inspect(work.destination.prefix(at as int)),
            Stage::MakeFolder { at } => Action::CreateFolder(work.destination.prefix(at as int)),
            Stage::Target => Action::Inspect(work.destination),
            Stage::SetAside | Stage::KeepOriginal => Action::Rename {
                from: work.destination,
                to: work.aside,
            },
            Stage::ProbeTarget => Action::Probe(work.destination),
            Stage::MapOriginal => Action::AppendLine {
                file: self.notes(),
                line: self.mapping_line(work.aside, work.destination),
            },
            Stage::Publish => Action::Rename { from: work.staged, to: work.destination },
            Stage::Restore => match self.displaced() {
                Some(kept) => Action::Rename { from: kept, to: work.destination },
                None => Action::Continue,
            },
            Stage::Discard => Action::RemoveFile(work.aside),
            Stage::Check { at } => Action::Inspect(self.outputs[at as int].destination),
            Stage::Source { .. } => Action::Continue,
            Stage::MapSource { at } => Action::AppendLine {
                file: self.notes(),
                line: self.mapping_line(work.aside, self.deferred_sources[at as int]),
            },
            Stage::MoveSource { at } => Action::Rename {
                from: self.deferred_sources[at as int],
                to: work.aside,
            },
            Stage::Purge { at } => if at < self.outputs.len() {
                match self.outputs[at as int].original {
                    Some(backup) => Action::RemoveFile(backup),
                    None => Action::Continue,
                }
            } else {
                Action::Continue
            },
            Stage::PurgeSource { at } => if at < self.removed_sources.len() {
                Action::RemoveFile(self.removed_sources[at as int].backup)
            } else {
                Action::Continue
            },
            Stage::Withdraw { left } => if left > 0 && self.outputs[left - 1].published {
                Action::RemoveFile(self.outputs[left - 1].destination)
            } else {
                Action::Continue
            },
            Stage::Reinstate { left } => match self.outputs[left - 1].original {
                Some(_) => Action::Probe(self.outputs[left - 1].destination),
                None => Action::Continue,
            },
            Stage::PutBack { left } => match self.outputs[left - 1].original {
                Some(backup) => Action::Rename {
                    from: backup,
                    to: self.outputs[left - 1].destination,
                },
                None => Action::Continue,
            },
            Stage::Sources { at } => if at < self.removed_sources.len() {
                Action::Probe(self.removed_sources[at as int].source)
            } else {
                Action::Continue
            },
            Stage::Return { at } => Action::Rename {
                from: self.removed_sources[at as int].backup,
                to: self.removed_sources[at as int].source,
            },
            Stage::Folders { left } => if left > 0 {
                Action::RemoveFolder(self.created_directories[left - 1])
            } else {
                Action::Continue
            },
            Stage::Temporaries { at } => if at < self.temporary_files.len() {
                Action::RemoveFile(self.temporary_files[at as int])
            } else {
                Action::Continue
            },
            Stage::Mapping => Action::RemoveFile(self.notes()),
            Stage::Workspace => Action::RemoveFolder(self.workspace),
        }
    }

    /// The job once the disk has answered.
    pub open spec fn step(self, o: Outcome<Seq<char>>) -> Journal {
        match self.stage {
            Stage::Idle => self,
            Stage::Converting => self.after_converting(o),
            Stage::FindParent { depth } => self.after_find_parent(depth, o),
            Stage::CheckChain { depth, at } => self.after_check_chain(depth, at, o),
            Stage::MakeFolder { at } => self.after_make_folder(at, o),
            Stage::Target => self.after_target(o),
            Stage::SetAside => self.after_set_aside(o),
            Stage::ProbeTarget => self.after_probe_target(o),
            Stage::MapOriginal => self.after_map_original(o),
            Stage::KeepOriginal => self.after_keep_original(o),
            Stage::Publish => self.after_publish(o),
            Stage::Restore => self.after_restore(o),
            Stage::Discard => self.succeed(),
            Stage::Check { at } => self.after_check(at, o),
            Stage::Source { at } => self.after_source(at),
            Stage::MapSource { at } => self.after_map_source(at, o),
            Stage::MoveSource { at } => self.after_move_source(at, o),
            Stage::Purge { at } => self.after_purge(at, o),
            Stage::PurgeSource { at } => self.after_purge_source(at, o),
            Stage::Withdraw { left } => self.after_withdraw(left, o),
            Stage::Reinstate { left } => self.after_reinstate(left, o),
            Stage::PutBack { left } => self.after_put_back(left, o),
            Stage::Sources { at } => self.after_sources(at, o),
            Stage::Return { at } => self.after_return(at, o),
            Stage::Folders { left } => self.after_folders(left, o),
            Stage::Temporaries { at } => self.after_temporaries(at, o),
            Stage::Mapping => self.after_mapping(o),
            Stage::Workspace => self.after_workspace(o),
        }
    }
}

/// Where the opening of a job stands.
#[derive(Debug, Clone, Copy, PartialEq, Eq, Structural)]
pub enum OpeningStage {
    /// Looking for the nearest folder above the output folder that is there.
    Seek { depth: usize },
    /// Making sure that this folder and all above it are folders.
    Chain { depth: usize, at: usize },
    /// Creating the workspace in it.
    Create { depth: usize },
    Over,
}

/// The opening of a job: a place for the workspace is found beside the output folder.
#[verifier::ext_equal]
pub struct OpeningView {
    pub root: PathView,
    pub fold_case: bool,
    pub separator: Seq<char>,
    pub stage: OpeningStage,
    pub workspace: Option<PathView>,
    /// Why there is no workspace, once the opening is over without one.
    pub error: Seq<char>,
}

impl OpeningView {
    /// The search begins above the output folder. A volume root has no folder above it; its
    /// workspace lies in it.
    pub open spec fn start(root: PathView, fold_case: bool, separator: Seq<char>) -> OpeningView {
        OpeningView {
            root,
            fold_case,
            separator,
            stage: OpeningStage::Seek {
                depth: (if root.parts.len() > 0 {
                    root.parts.len() - 1
                } else {
                    0
                }) as usize,
            },
            workspace: None,
            error: Seq::empty(),
        }
    }

    pub open spec fn wf(self) -> bool {
        match self.stage {
            OpeningStage::Seek { depth } => depth <= self.root.parts.len(),
            OpeningStage::Chain { depth, at } => at <= depth <= self.root.parts.len(),
            OpeningStage::Create { depth } => depth <= self.root.parts.len(),
            OpeningStage::Over => true,
        }
    }

    pub open spec fn fail(self, error: Seq<char>) -> OpeningView {
        OpeningView { stage: OpeningStage::Over, error, ..self }
    }

    pub open spec fn action(self) -> Action<PathView, Seq<char>> {
        match self.stage {
            OpeningStage::Seek { depth } => Action::Probe(self.root.prefix(depth as int)),
            OpeningStage::Chain { depth, at } => Action::Inspect(self.root.prefix(at as int)),
            OpeningStage::Create { depth } => Action::CreateUnique {
                parent: self.root.prefix(depth as int),
                prefix: ".wav-converter-job-"@,
            },
            OpeningStage::Over => Action::Continue,
        }
    }

    pub open spec fn step(self, o: Outcome<Seq<char>>) -> OpeningView {
        match self.stage {
            OpeningStage::Seek { depth } => if o == Outcome::<Seq<char>>::Exists(true) {
                OpeningView { stage: OpeningStage::Chain { depth, at: depth }, ..self }
            } else if depth == 0 {
                self.fail("출력 폴더의 상위 경로가 없습니다"@)
            } else {
                OpeningView { stage: OpeningStage::Seek { depth: (depth - 1) as usize }, ..self }
            },
            OpeningStage::Chain { depth, at } => match o {
                Outcome::Found(Kind::Folder) => if at == 0 {
                    OpeningView { stage: OpeningStage::Create { depth }, ..self }
                } else {
                    OpeningView {
                        stage: OpeningStage::Chain { depth, at: (at - 1) as usize },
                        ..self
                    }
                },
                Outcome::Failed(_, message) => self.fail(message),
                _ => self.fail(
                    "출력 경로가 일반 폴더가 아닙니다: "@ + self.root.prefix(at as int).shown(
                        self.separator,
                    ),
                ),
            },
            OpeningStage::Create { depth } => match o {
                Outcome::Created(name) => OpeningView {
                    stage: OpeningStage::Over,
                    workspace: Some(self.root.prefix(depth as int).child(name)),
                    ..self
                },
                Outcome::Failed(_, message) => self.fail(
                    because("취소 복구용 임시 폴더 생성 실패"@, message),
                ),
                _ => self.fail("취소 복구용 임시 폴더 생성 실패"@),
            },
            OpeningStage::Over => self,
        }
    }
}

/// The search for a place goes up from the folder above the output folder.
pub open spec fn looks_above(v: OpeningView) -> bool {
    v.root.parts.len() > 0 ==> match v.stage {
        OpeningStage::Seek { depth }
        | OpeningStage::Chain { depth, .. }
        | OpeningStage::Create { depth } => depth < v.root.parts.len(),
        OpeningStage::Over => true,
    }
}

/// The workspace lies beside the output folder or further up, never in it, so that putting the
/// output into order cannot move what is kept there. Only a volume root has its workspace in it.
pub proof fn the_workspace_lies_beside_the_output(v: OpeningView, o: Outcome<Seq<char>>)
    requires
        v.wf(),
        looks_above(v),
    ensures
        looks_above(v.step(o)),
        v.stage matches OpeningStage::Create { depth } ==> (o matches Outcome::Created(name) ==> {
            &&& v.step(o).workspace == Some(v.root.prefix(depth as int).child(name))
            &&& v.root.parts.len() > 0 && name != v.root.parts[depth as int]
                ==> !v.step(o).workspace->0.within(v.root)
        }),
{
    if let OpeningStage::Create { depth } = v.stage {
        if let Outcome::Created(name) = o {
            let workspace = v.root.prefix(depth as int).child(name);
            if v.root.parts.len() > 0 && workspace.within(v.root) {
                let n = v.root.parts.len() as int;
                assert(workspace.parts.len() == depth + 1);
                assert(workspace.parts.take(n)[depth as int] == name);
            }
        }
    }
}

/// The lists of a journal are no longer than a machine can count.
pub open spec fn countable(v: Journal) -> bool {
    &&& v.outputs.len() <= usize::MAX
    &&& v.temporary_files.len() <= usize::MAX
    &&& v.created_directories.len() <= usize::MAX
    &&& v.deferred_sources.len() <= usize::MAX
    &&& v.removed_sources.len() <= usize::MAX
    &&& v.work.destination.parts.len() <= usize::MAX
}

/// The entry that is found for a destination is an entry for it, and there is one unless none is
/// found.
pub proof fn lemma_entry_for(outputs: Seq<Entry>, p: PathView, fold_case: bool)
    ensures
        match entry_for(outputs, p, fold_case) {
            Some(i) => 0 <= i < outputs.len() && outputs[i].destination.key(fold_case) == p.key(
                fold_case,
            ),
            None => forall|i: int|
                0 <= i < outputs.len() ==> (#[trigger] outputs[i]).destination.key(fold_case)
                    != p.key(fold_case),
        },
    decreases outputs.len(),
{
    if outputs.len() > 0 {
        lemma_entry_for(outputs.drop_last(), p, fold_case);
        assert forall|i: int|
            0 <= i < outputs.len() && entry_for(outputs, p, fold_case) is None implies (
        #[trigger] outputs[i]).destination.key(fold_case) != p.key(fold_case) by {
            if i < outputs.len() - 1 {
                assert(outputs[i] == outputs.drop_last()[i]);
            }
        }
    }
}

/// Whatever the disk answers, the next stage speaks of entries that are there.
pub proof fn steps_stay_within_bounds(v: Journal, o: Outcome<Seq<char>>)
    requires
        v.wf(),
        countable(v),
    ensures
        v.step(o).wf(),
{
    match v.stage {
        Stage::Target => {
            lemma_entry_for(v.outputs, v.work.destination, v.fold_case);
            assert(v.after_target(o).wf());
        },
        Stage::Converting => assert(v.after_converting(o).wf()),
        Stage::FindParent { depth } => assert(v.after_find_parent(depth, o).wf()),
        Stage::CheckChain { depth, at } => assert(v.after_check_chain(depth, at, o).wf()),
        Stage::MakeFolder { at } => assert(v.after_make_folder(at, o).wf()),
        Stage::SetAside => assert(v.after_set_aside(o).wf()),
        Stage::ProbeTarget => assert(v.after_probe_target(o).wf()),
        Stage::MapOriginal => assert(v.after_map_original(o).wf()),
        Stage::KeepOriginal => assert(v.after_keep_original(o).wf()),
        Stage::Publish => assert(v.after_publish(o).wf()),
        Stage::Restore => assert(v.after_restore(o).wf()),
        Stage::Check { at } => assert(v.after_check(at, o).wf()),
        Stage::Source { at } => assert(v.after_source(at).wf()),
        Stage::MapSource { at } => assert(v.after_map_source(at, o).wf()),
        Stage::MoveSource { at } => assert(v.after_move_source(at, o).wf()),
        Stage::Purge { at } => assert(v.after_purge(at, o).wf()),
        Stage::PurgeSource { at } => assert(v.after_purge_source(at, o).wf()),
        Stage::Withdraw { left } => assert(v.after_withdraw(left, o).wf()),
        Stage::Reinstate { left } => assert(v.after_reinstate(left, o).wf()),
        Stage::PutBack { left } => assert(v.after_put_back(left, o).wf()),
        Stage::Sources { at } => assert(v.after_sources(at, o).wf()),
        Stage::Return { at } => assert(v.after_return(at, o).wf()),
        Stage::Folders { left } => assert(v.after_folders(left, o).wf()),
        Stage::Temporaries { at } => assert(v.after_temporaries(at, o).wf()),
        _ => {},
    }
}

/// Names that are known stay known as long as no other is drawn.
pub proof fn names_stay_known(v: Journal, o: Outcome<Seq<char>>)
    requires
        v.names_are_known(),
        !(v.stage is Target) && !(v.stage is ProbeTarget) && !(v.stage is Source),
    ensures
        v.step(o).names_are_known(),
{
    reveal(Journal::names_are_known);
    let w = v.step(o);
    match v.stage {
        Stage::Publish => {
            assert(w == v.after_publish(o));
        },
        Stage::Restore => {
            assert(w == v.after_restore(o));
        },
        Stage::Withdraw { left } => {
            assert(w == v.after_withdraw(left, o));
        },
        _ => {},
    }
    assert(w.fold_case == v.fold_case && w.work.staged == v.work.staged && w.work.aside
        == v.work.aside);
}

/// How far an operation is from its end: the part of it that is under way, and how much of that
/// part is left.
pub open spec fn distance(v: Journal) -> (int, int) {
    match v.stage {
        Stage::Idle => (0, 0),
        Stage::Workspace => (1, 0),
        Stage::Mapping => (2, 0),
        Stage::Temporaries { at } => (3, v.temporary_files.len() - at),
        Stage::Folders { left } => (4, left as int),
        Stage::Return { at } => (5, 2 * (v.removed_sources.len() - at)),
        Stage::Sources { at } => (5, 2 * (v.removed_sources.len() - at) + 1),
        Stage::PutBack { left } => (6, 3 * left as int),
        Stage::Reinstate { left } => (6, 3 * left + 1),
        Stage::Withdraw { left } => (6, 3 * left + 2),
        Stage::PurgeSource { at } => (7, v.removed_sources.len() - at),
        Stage::Purge { at } => (8, v.outputs.len() - at),
        Stage::MoveSource { at } => (9, 3 * (v.deferred_sources.len() - at)),
        Stage::MapSource { at } => (9, 3 * (v.deferred_sources.len() - at) + 1),
        Stage::Source { at } => (9, 3 * (v.deferred_sources.len() - at) + 2),
        Stage::Check { at } => (10, v.outputs.len() - at),
        Stage::Discard | Stage::Restore => (11, 0),
        Stage::Publish => (12, 0),
        Stage::KeepOriginal => (13, 0),
        Stage::MapOriginal => (14, 0),
        Stage::SetAside | Stage::ProbeTarget => (15, 0),
        Stage::Target => (16, 0),
        Stage::MakeFolder { at } => (17, v.work.destination.parts.len() - at),
        Stage::CheckChain { at, .. } => (18, at as int),
        Stage::FindParent { depth } => (19, depth as int),
        Stage::Converting => (20, 0),
    }
}

/// One moment of an operation is nearer to its end than another.
pub open spec fn is_nearer(w: Journal, v: Journal) -> bool {
    distance(w).0 < distance(v).0 || distance(w).0 == distance(v).0 && distance(w).1 < distance(
        v,
    ).1
}

proof fn lemma_convert_ends(v: Journal, o: Outcome<Seq<char>>)
    requires
        v.wf(),
        countable(v),
        distance(v).0 > 10,
    ensures
        is_nearer(v.step(o), v),
{
    match v.stage {
        Stage::Converting => assert(is_nearer(v.after_converting(o), v)),
        Stage::FindParent { depth } => assert(is_nearer(v.after_find_parent(depth, o), v)),
        Stage::CheckChain { depth, at } => assert(is_nearer(v.after_check_chain(depth, at, o), v)),
        Stage::MakeFolder { at } => assert(is_nearer(v.after_make_folder(at, o), v)),
        Stage::Target => assert(is_nearer(v.after_target(o), v)),
        Stage::SetAside => assert(is_nearer(v.after_set_aside(o), v)),
        Stage::ProbeTarget => assert(is_nearer(v.after_probe_target(o), v)),
        Stage::MapOriginal => assert(is_nearer(v.after_map_original(o), v)),
        Stage::KeepOriginal => assert(is_nearer(v.after_keep_original(o), v)),
        Stage::Publish => assert(is_nearer(v.after_publish(o), v)),
        Stage::Restore => assert(is_nearer(v.after_restore(o), v)),
        _ => {},
    }
}

proof fn lemma_commit_ends(v: Journal, o: Outcome<Seq<char>>)
    requires
        v.wf(),
        countable(v),
        6 < distance(v).0 <= 10,
    ensures
        is_nearer(v.step(o), v),
{
    match v.stage {
        Stage::Check { at } => assert(is_nearer(v.after_check(at, o), v)),
        Stage::Source { at } => assert(is_nearer(v.after_source(at), v)),
        Stage::MapSource { at } => assert(is_nearer(v.after_map_source(at, o), v)),
        Stage::MoveSource { at } => assert(is_nearer(v.after_move_source(at, o), v)),
        Stage::Purge { at } => assert(is_nearer(v.after_purge(at, o), v)),
        Stage::PurgeSource { at } => assert(is_nearer(v.after_purge_source(at, o), v)),
        _ => {},
    }
}

proof fn lemma_rollback_ends(v: Journal, o: Outcome<Seq<char>>)
    requires
        v.wf(),
        countable(v),
        0 < distance(v).0 <= 6,
    ensures
        is_nearer(v.step(o), v),
{
    match v.stage {
        Stage::Withdraw { left } => assert(is_nearer(v.after_withdraw(left, o), v)),
        Stage::Reinstate { left } => assert(is_nearer(v.after_reinstate(left, o), v)),
        Stage::PutBack { left } => assert(is_nearer(v.after_put_back(left, o), v)),
        Stage::Sources { at } => assert(is_nearer(v.after_sources(at, o), v)),
        Stage::Return { at } => assert(is_nearer(v.after_return(at, o), v)),
        Stage::Folders { left } => assert(is_nearer(v.after_folders(left, o), v)),
        Stage::Temporaries { at } => assert(is_nearer(v.after_temporaries(at, o), v)),
        Stage::Mapping => assert(is_nearer(v.after_mapping(o), v)),
        Stage::Workspace => assert(is_nearer(v.after_workspace(o), v)),
        _ => {},
    }
}

/// Every operation ends, whatever the disk answers: each answer brings it nearer to its end.
pub proof fn operations_end(v: Journal, o: Outcome<Seq<char>>)
    requires
        v.wf(),
        countable(v),
        v.stage != Stage::Idle,
    ensures
        distance(v).0 > 0,
        distance(v).1 >= 0,
        is_nearer(v.step(o), v),
{
    if distance(v).0 > 10 {
        lemma_convert_ends(v, o);
    } else if distance(v).0 > 6 {
        lemma_commit_ends(v, o);
    } else {
        lemma_rollback_ends(v, o);
    }
}

} // verus!
