//! A job that can be taken back until it is committed.
use crate::convert::OutputFormat;
use crate::disk::{refused, removal_refused, report, Action, Failure, Fault, Kind, Outcome};
use crate::journal::{
    because, entry_for, is_known, is_known_path, listed, names_stay_known, path_extension, retained,
    steps_stay_within_bounds, ticket_name, Entry, Journal, OpeningStage, OpeningView, Removed,
    Stage, Work,
};
use crate::path::{absolute, extension_of, paths, same_path, FilePath, PathView, RawPath};
use crate::text::{append, count_text, glue, glue3, glue4, join, texts, to_lowercase};
use vstd::prelude::*;

verus! {

/// A result and what stood at its place.
#[derive(Debug)]
pub struct Output {
    pub destination: FilePath,
    /// Where the file that stood there is kept.
    pub original: Option<FilePath>,
    /// The result stands at its destination.
    pub published: bool,
}

/// A source that was moved away, and where it is kept.
#[derive(Debug)]
pub struct RemovedSource {
    pub source: FilePath,
    pub backup: FilePath,
}

/// The conversion under way.
#[derive(Debug)]
pub struct Task {
    pub source: FilePath,
    pub destination: FilePath,
    pub staged: FilePath,
    pub format: Option<OutputFormat>,
    pub aside: FilePath,
    pub index: usize,
    pub fresh: bool,
    pub error: String,
}

/// A job that can be taken back until it is committed. It asks for one thing at a time: perform
/// what `pending` returns and hand the outcome to `resume`, until nothing is pending.
#[derive(Debug)]
pub struct OutputTransaction {
    root: FilePath,
    workspace: FilePath,
    /// The results so far. Callers may read them, and note results of their own.
    pub outputs: Vec<Output>,
    temporary_files: Vec<FilePath>,
    created_directories: Vec<FilePath>,
    deferred_sources: Vec<FilePath>,
    removed_sources: Vec<RemovedSource>,
    sequence: usize,
    finished: bool,
    committed: bool,
    /// Names that differ in case alone lead to the same file.
    fold_case: bool,
    /// What stands between the names of a path in messages.
    separator: String,
    stage: Stage,
    task: Task,
    errors: Vec<String>,
    last: Option<Failure<String>>,
}

impl View for Output {
    type V = Entry;

    open spec fn view(&self) -> Entry {
        Entry {
            destination: self.destination@,
            original: match self.original {
                Some(kept) => Some(kept@),
                None => None,
            },
            published: self.published,
        }
    }
}

impl View for RemovedSource {
    type V = Removed;

    open spec fn view(&self) -> Removed {
        Removed { source: self.source@, backup: self.backup@ }
    }
}

impl View for Task {
    type V = Work;

    open spec fn view(&self) -> Work {
        Work {
            source: self.source@,
            destination: self.destination@,
            staged: self.staged@,
            format: self.format,
            aside: self.aside@,
            index: self.index,
            fresh: self.fresh,
            error: self.error@,
        }
    }
}

/// What a list of results says.
pub open spec fn entries(v: Seq<Output>) -> Seq<Entry> {
    Seq::new(v.len(), |i: int| v[i]@)
}

/// What a list of removed sources says.
pub open spec fn removals(v: Seq<RemovedSource>) -> Seq<Removed> {
    Seq::new(v.len(), |i: int| v[i]@)
}

impl View for OutputTransaction {
    type V = Journal;

    closed spec fn view(&self) -> Journal {
        Journal {
            root: self.root@,
            workspace: self.workspace@,
            outputs: entries(self.outputs@),
            temporary_files: paths(self.temporary_files@),
            created_directories: paths(self.created_directories@),
            deferred_sources: paths(self.deferred_sources@),
            removed_sources: removals(self.removed_sources@),
            sequence: self.sequence as nat,
            finished: self.finished,
            committed: self.committed,
            fold_case: self.fold_case,
            separator: self.separator@,
            stage: self.stage,
            work: self.task@,
            errors: texts(self.errors@),
            last: report(self.last),
        }
    }
}

/// The opening of a job. It asks for one thing at a time, as the job itself does.
#[derive(Debug)]
pub struct Opening {
    root: FilePath,
    fold_case: bool,
    separator: String,
    stage: OpeningStage,
    workspace: Option<FilePath>,
    error: String,
}

impl View for Opening {
    type V = OpeningView;

    closed spec fn view(&self) -> OpeningView {
        OpeningView {
            root: self.root@,
            fold_case: self.fold_case,
            separator: self.separator@,
            stage: self.stage,
            workspace: match self.workspace {
                Some(p) => Some(p@),
                None => None,
            },
            error: self.error@,
        }
    }
}

impl Opening {
    /// What is to be done on the disk, or nothing once the opening is over.
    pub fn pending(&self) -> (r: Option<Action<FilePath, String>>)
        requires
            self@.wf(),
        ensures
            match r {
                Some(action) => self@.stage != OpeningStage::Over && action@ == self@.action(),
                None => self@.stage == OpeningStage::Over,
            },
    {
        match self.stage {
            OpeningStage::Seek { depth } => Some(Action::Probe(self.root.prefix(depth))),
            OpeningStage::Chain { depth, at } => Some(Action::Inspect(self.root.prefix(at))),
            OpeningStage::Create { depth } => Some(
                Action::CreateUnique {
                    parent: self.root.prefix(depth),
                    prefix: ".wav-converter-job-".to_owned(),
                },
            ),
            OpeningStage::Over => None,
        }
    }

    fn fail(&mut self, error: String)
        ensures
            final(self)@ == old(self)@.fail(error@),
    {
        self.stage = OpeningStage::Over;
        self.error = error;
    }

    /// Takes the next step, once the disk has answered.
    pub fn resume(&mut self, o: &Outcome<String>)
        requires
            old(self)@.wf(),
        ensures
            final(self)@ == old(self)@.step(o@),
            final(self)@.wf(),
    {
        match self.stage {
            OpeningStage::Seek { depth } => {
                let found = matches!(o, Outcome::Exists(true));
                if found {
                    self.stage = OpeningStage::Chain { depth, at: depth };
                } else if depth == 0 {
                    self.fail("출력 폴더의 상위 경로가 없습니다".to_owned());
                } else {
                    self.stage = OpeningStage::Seek { depth: depth - 1 };
                }
            },
            OpeningStage::Chain { depth, at } => match o {
                Outcome::Found(Kind::Folder) => if at == 0 {
                    self.stage = OpeningStage::Create { depth };
                } else {
                    self.stage = OpeningStage::Chain { depth, at: at - 1 };
                },
                Outcome::Failed(_, message) => self.fail(message.clone()),
                _ => {
                    let place = self.root.prefix(at).show(self.separator.as_str());
                    self.fail(glue("출력 경로가 일반 폴더가 아닙니다: ", place.as_str()));
                },
            },
            OpeningStage::Create { depth } => match o {
                Outcome::Created(name) => {
                    self.workspace = Some(self.root.prefix(depth).child(name.as_str()));
                    self.stage = OpeningStage::Over;
                },
                Outcome::Failed(_, message) => self.fail(
                    with_cause("취소 복구용 임시 폴더 생성 실패", message.as_str()),
                ),
                _ => self.fail("취소 복구용 임시 폴더 생성 실패".to_owned()),
            },
            OpeningStage::Over => {},
        }
    }

    /// The job, once the opening is over, or why there is none.
    pub fn finish(self) -> (r: Result<OutputTransaction, String>)
        requires
            self@.stage == OpeningStage::Over,
        ensures
            match r {
                Ok(job) => self@.workspace matches Some(workspace) && job@ == Journal::fresh(
                    self@.root,
                    workspace,
                    self@.fold_case,
                    self@.separator,
                ) && job@.names_are_known(),
                Err(error) => self@.workspace is None && error@ == self@.error,
            },
    {
        match self.workspace {
            None => Err(self.error),
            Some(workspace) => {
                let root = self.root;
                let task = Task {
                    source: root.copy(),
                    destination: root.copy(),
                    staged: workspace.child("recovery.txt"),
                    format: None,
                    aside: workspace.child("recovery.txt"),
                    index: 0,
                    fresh: false,
                    error: String::new(),
                };
                let job = OutputTransaction {
                    root,
                    workspace,
                    outputs: Vec::new(),
                    temporary_files: Vec::new(),
                    created_directories: Vec::new(),
                    deferred_sources: Vec::new(),
                    removed_sources: Vec::new(),
                    sequence: 0,
                    finished: false,
                    committed: false,
                    fold_case: self.fold_case,
                    separator: self.separator,
                    stage: Stage::Idle,
                    task,
                    errors: Vec::new(),
                    last: None,
                };
                assert(job@ =~= Journal::fresh(root@, workspace@, self.fold_case, self.separator@));
                learn_name("recovery.txt", self.fold_case);
                proof {
                    reveal(is_known_path);
                    reveal(Journal::names_are_known);
                    assert(job@.work.staged.parts.last() == "recovery.txt"@);
                }
                Ok(job)
            },
        }
    }
}

/// A message and its cause.
pub fn with_cause(message: &str, cause: &str) -> (r: String)
    ensures
        r@ == because(message@, cause@),
{
    glue3(message, ": ", cause)
}

/// Finds out how a name turns out where names are told apart by their lowercase forms.
pub fn learn_name(name: &str, fold_case: bool)
    ensures
        is_known(name@, fold_case),
{
    if fold_case {
        let _ = to_lowercase(name);
    }
    proof {
        reveal(is_known);
    }
}

/// The extension of a path's name.
fn extension_like(path: &FilePath) -> (r: Option<String>)
    ensures
        match (r, path_extension(path@)) {
            (Some(text), Some(expected)) => text@ == expected,
            (None, None) => true,
            _ => false,
        },
{
    if !path.has_name() {
        return None;
    }
    assert(path@.parts.last() == path.parts@.last()@);
    extension_of(path.parts[path.parts.len() - 1].as_str())
}

impl OutputTransaction {
    /// Begins to open a job for an output folder.
    pub fn new(root: &RawPath, fold_case: bool, separator: &str) -> (r: Result<Opening, String>)
        ensures
            match r {
                Ok(opening) => root.target() matches Some(target) && opening@ == OpeningView::start(
                    target,
                    fold_case,
                    separator@,
                ) && opening@.wf(),
                Err(error) => root.target() is None && error@ == "잘못된 파일 경로입니다"@,
            },
    {
        match absolute(root) {
            None => Err("잘못된 파일 경로입니다".to_owned()),
            Some(root) => {
                let n = root.parts.len();
                assert(n == root@.parts.len());
                let depth = if n > 0 {
                    n - 1
                } else {
                    0
                };
                Ok(
                    Opening {
                        root,
                        fold_case,
                        separator: separator.to_owned(),
                        stage: OpeningStage::Seek { depth },
                        workspace: None,
                        error: String::new(),
                    },
                )
            },
        }
    }

    // -- small changes

    fn go(&mut self, stage: Stage)
        ensures
            final(self)@ == old(self)@.at(stage),
    {
        self.stage = stage;
    }

    fn fail(&mut self, text: String)
        ensures
            final(self)@ == old(self)@.fail(text@),
    {
        self.stage = Stage::Idle;
        self.last = Some(Failure { cancelled: false, text });
    }

    fn cancel(&mut self)
        ensures
            final(self)@ == old(self)@.cancel(),
    {
        self.stage = Stage::Idle;
        self.last = Some(Failure { cancelled: true, text: "변환이 취소되었습니다".to_owned() });
    }

    fn succeed(&mut self)
        ensures
            final(self)@ == old(self)@.succeed(),
    {
        self.stage = Stage::Idle;
        self.last = None;
    }

    fn note_error(&mut self, text: String)
        ensures
            final(self)@ == old(self)@.note_error(text@),
    {
        self.errors.push(text);
        assert(self@.errors =~= old(self)@.errors.push(text@));
    }

    fn set_published(&mut self, i: usize, published: bool)
        requires
            i < old(self)@.outputs.len(),
        ensures
            final(self)@ == old(self)@.set_published(i as int, published),
    {
        self.outputs[i].published = published;
        assert(self@.outputs =~= old(self)@.set_published(i as int, published).outputs);
    }

    fn forget_original(&mut self, i: usize)
        requires
            i < old(self)@.outputs.len(),
        ensures
            final(self)@ == old(self)@.forget_original(i as int),
    {
        self.outputs[i].original = None;
        assert(self@.outputs =~= old(self)@.forget_original(i as int).outputs);
    }

    fn add_entry(&mut self, original: Option<FilePath>)
        ensures
            final(self)@ == old(self)@.add_entry(
                match original {
                    Some(kept) => Some(kept@),
                    None => None,
                },
            ),
    {
        self.task.index = self.outputs.len();
        self.task.fresh = true;
        let destination = self.task.destination.copy();
        self.outputs.push(Output { destination, original, published: false });
        assert(self@.outputs =~= old(self)@.add_entry(
            match original {
                Some(kept) => Some(kept@),
                None => None,
            },
        ).outputs);
    }

    fn drop_entry(&mut self)
        requires
            old(self)@.work.index < old(self)@.outputs.len(),
        ensures
            final(self)@ == old(self)@.drop_entry(),
    {
        let _ = self.outputs.remove(self.task.index);
        assert(self@.outputs =~= old(self)@.drop_entry().outputs);
    }

    /// The next name in the workspace: a label, a number, and the extension of what it stands for.
    pub fn next_path(&mut self, label: &str, ext: Option<String>) -> (r: FilePath)
        requires
            old(self)@.sequence < usize::MAX,
        ensures
            r@ == old(self)@.ticket(
                label@,
                match ext {
                    Some(e) => Some(e@),
                    None => None,
                },
            ),
            final(self)@ == (Journal { sequence: old(self)@.sequence + 1, ..old(self)@ }),
            is_known_path(r@, old(self)@.fold_case),
    {
        self.sequence = self.sequence + 1;
        let mut name = glue3(label, "-", count_text(self.sequence).as_str());
        let ghost front = name@;
        match &ext {
            Some(e) => {
                append(&mut name, ".");
                append(&mut name, e.as_str());
            },
            None => {},
        }
        assert(name@ =~= ticket_name(
            label@,
            self.sequence as nat,
            match ext {
                Some(e) => Some(e@),
                None => None,
            },
        ));
        learn_name(name.as_str(), self.fold_case);
        let path = self.workspace.child(name.as_str());
        proof {
            reveal(is_known_path);
            assert(path@.parts.last() == name@);
        }
        path
    }

    fn show(&self, p: &FilePath) -> (r: String)
        ensures
            r@ == self@.show(p@),
    {
        p.show(self.separator.as_str())
    }

    fn notes(&self) -> (r: FilePath)
        ensures
            r@ == self@.notes(),
    {
        self.workspace.child("recovery.txt")
    }

    fn mapping_line(&self, backup: &FilePath, original: &FilePath) -> (r: String)
        ensures
            r@ == self@.mapping_line(backup@, original@),
    {
        glue3(self.show(backup).as_str(), " -> ", self.show(original).as_str())
    }
}


impl OutputTransaction {
    // -- converting

    /// The file that stood at a destination, where it is kept.
    fn source_for(&self, input: FilePath) -> (r: FilePath)
        ensures
            r@ == self@.source_for(input@),
    {
        let mut i: usize = 0;
        let ghost all = self@.outputs;
        while i < self.outputs.len()
            invariant
                i <= self.outputs@.len(),
                all == self@.outputs,
                retained(all.take(i as int), input@, self.fold_case) is None,
            decreases self.outputs@.len() - i,
        {
            let entry = &self.outputs[i];
            let same = same_path(&entry.destination, &input, self.fold_case);
            assert(all.take(i + 1).drop_last() =~= all.take(i as int));
            assert(all.take(i + 1).last() == entry@);
            if same {
                if let Some(kept) = &entry.original {
                    let r = kept.copy();
                    proof {
                        lemma_retained_stays(all, input@, self.fold_case, i + 1);
                        assert(all.take(all.len() as int) =~= all);
                    }
                    return r;
                }
            }
            i = i + 1;
        }
        assert(all.take(i as int) =~= all);
        input
    }

    /// The entry for the destination of the conversion under way.
    fn entry_for(&self) -> (r: Option<usize>)
        ensures
            match (r, entry_for(self@.outputs, self@.work.destination, self.fold_case)) {
                (Some(i), Some(k)) => i == k && 0 <= k < self@.outputs.len(),
                (None, None) => true,
                _ => false,
            },
    {
        let mut i: usize = 0;
        let ghost all = self@.outputs;
        while i < self.outputs.len()
            invariant
                i <= self.outputs@.len(),
                all == self@.outputs,
                entry_for(all.take(i as int), self@.work.destination, self.fold_case) is None,
            decreases self.outputs@.len() - i,
        {
            let entry = &self.outputs[i];
            let same = same_path(&entry.destination, &self.task.destination, self.fold_case);
            assert(all.take(i + 1).drop_last() =~= all.take(i as int));
            assert(all.take(i + 1).last() == entry@);
            if same {
                proof {
                    lemma_entry_stays(all, self@.work.destination, self.fold_case, i + 1);
                    assert(all.take(all.len() as int) =~= all);
                }
                return Some(i);
            }
            i = i + 1;
        }
        assert(all.take(i as int) =~= all);
        None
    }

    /// Begins to convert one file. The result will stand at `destination` once nothing is pending
    /// and `result` is a success.
    pub fn convert(&mut self, input: &RawPath, destination: &RawPath, format: OutputFormat)
        requires
            old(self)@.stage == Stage::Idle,
            old(self)@.sequence < usize::MAX,
        ensures
            final(self)@ == old(self)@.convert(input.target(), destination.target(), format),
            old(self)@.names_are_known() ==> final(self)@.names_are_known(),
            final(self)@.wf(),
    {
        proof {
            reveal(Journal::names_are_known);
        }
        if self.finished {
            self.fail("이미 종료된 변환 작업입니다".to_owned());
            return;
        }
        let destination = match absolute(destination) {
            None => {
                self.fail("잘못된 파일 경로입니다".to_owned());
                return;
            },
            Some(p) => p,
        };
        if !destination.is_within(&self.root) || destination.equals(&self.root) {
            self.fail("출력 파일이 선택한 출력 폴더 밖에 있습니다".to_owned());
            return;
        }
        let input = match absolute(input) {
            None => {
                self.fail("잘못된 파일 경로입니다".to_owned());
                return;
            },
            Some(p) => p,
        };
        proof {
            if destination@.parts.len() == 0 {
                assert(self@.root.parts =~= destination@.parts);
                assert(destination@ == self@.root);
            }
        }
        let source = self.source_for(input);
        let staged = self.next_path("converted", Some("wav".to_owned()));
        self.temporary_files.push(staged.copy());
        self.task.source = source;
        self.task.destination = destination;
        self.task.staged = staged;
        self.task.format = Some(format);
        self.stage = Stage::Converting;
        assert(self@.temporary_files =~= old(self)@.temporary_files.push(staged@));
        assert(self@ =~= old(self)@.convert(Some(input@), Some(destination@), format));
    }

    fn after_converting(&mut self, o: &Outcome<String>)
        requires
            old(self)@.wf(),
            old(self)@.stage == Stage::Converting,
        ensures
            final(self)@ == old(self)@.after_converting(o@),
    {
        match o {
            Outcome::Failed(_, message) => self.fail(message.clone()),
            Outcome::Cancelled => self.cancel(),
            Outcome::Converted { cancelled } => if *cancelled {
                self.cancel();
            } else {
                let depth = self.task.destination.parts.len() - 1;
                self.go(Stage::FindParent { depth });
            },
            _ => {
                let depth = self.task.destination.parts.len() - 1;
                self.go(Stage::FindParent { depth });
            },
        }
    }

    fn after_find_parent(&mut self, depth: usize, o: &Outcome<String>)
        ensures
            final(self)@ == old(self)@.after_find_parent(depth, o@),
    {
        let found = matches!(o, Outcome::Exists(true));
        if found {
            self.go(Stage::CheckChain { depth, at: depth });
        } else if depth == 0 {
            self.fail("출력 상위 폴더가 없습니다".to_owned());
        } else {
            self.go(Stage::FindParent { depth: depth - 1 });
        }
    }

    fn make_folders(&mut self, at: usize)
        ensures
            final(self)@ == old(self)@.make_folders(at as int),
    {
        if at < self.task.destination.parts.len() {
            self.go(Stage::MakeFolder { at });
        } else {
            self.go(Stage::Target);
        }
    }

    fn after_check_chain(&mut self, depth: usize, at: usize, o: &Outcome<String>)
        requires
            old(self)@.wf(),
            old(self)@.stage == (Stage::CheckChain { depth, at }),
        ensures
            final(self)@ == old(self)@.after_check_chain(depth, at, o@),
    {
        match o {
            Outcome::Found(Kind::Folder) => if at == 0 {
                assert(depth < self.task.destination.parts.len());
                self.make_folders(depth + 1);
            } else {
                self.go(Stage::CheckChain { depth, at: at - 1 });
            },
            Outcome::Failed(_, message) => self.fail(message.clone()),
            _ => {
                let folder = self.task.destination.prefix(at);
                let text = glue("출력 경로가 일반 폴더가 아닙니다: ", self.show(&folder).as_str());
                self.fail(text);
            },
        }
    }

    fn after_make_folder(&mut self, at: usize, o: &Outcome<String>)
        requires
            old(self)@.wf(),
            old(self)@.stage == (Stage::MakeFolder { at }),
        ensures
            final(self)@ == old(self)@.after_make_folder(at, o@),
    {
        let folder = self.task.destination.prefix(at);
        match refused(o) {
            Some(message) => {
                let text = glue("출력 폴더 생성 실패: ", self.show(&folder).as_str());
                self.fail(with_cause(text.as_str(), message.as_str()));
            },
            None => {
                self.created_directories.push(folder);
                assert(self@.created_directories =~= old(self)@.created_directories.push(folder@));
                assert(at < self.task.destination.parts.len());
                self.make_folders(at + 1);
            },
        }
    }

    fn draw(&mut self, label: &str, like: &FilePath)
        requires
            old(self)@.sequence < usize::MAX,
        ensures
            final(self)@ == old(self)@.draw(label@, like@),
            old(self)@.names_are_known() ==> final(self)@.names_are_known(),
    {
        let ext = extension_like(like);
        let aside = self.next_path(label, ext);
        self.task.aside = aside;
        proof {
            reveal(Journal::names_are_known);
        }
    }

    fn after_target(&mut self, o: &Outcome<String>)
        requires
            old(self)@.sequence < usize::MAX,
        ensures
            final(self)@ == old(self)@.after_target(o@),
            old(self)@.names_are_known() ==> final(self)@.names_are_known(),
    {
        proof {
            reveal(Journal::names_are_known);
        }
        let clear = match o {
            Outcome::Found(kind) => *kind == Kind::File,
            _ => true,
        };
        if !clear {
            let text = glue(
                "기존 출력이 일반 파일이 아닙니다: ",
                self.show(&self.task.destination).as_str(),
            );
            self.fail(text);
            return;
        }
        match self.entry_for() {
            Some(i) => {
                if self.outputs[i].published {
                    let destination = self.task.destination.copy();
                    self.draw("previous", &destination);
                    self.temporary_files.push(self.task.aside.copy());
                    self.task.index = i;
                    self.task.fresh = false;
                    self.stage = Stage::SetAside;
                    assert(self@.temporary_files =~= old(self)@.temporary_files.push(
                        self@.work.aside,
                    ));
                } else {
                    let text = glue(
                        "이 출력의 이전 저장 실패를 먼저 복구해야 합니다. 복구 폴더: ",
                        self.show(&self.workspace).as_str(),
                    );
                    self.fail(text);
                }
            },
            None => self.go(Stage::ProbeTarget),
        }
    }

    fn after_set_aside(&mut self, o: &Outcome<String>)
        requires
            old(self)@.wf(),
            old(self)@.stage == Stage::SetAside,
        ensures
            final(self)@ == old(self)@.after_set_aside(o@),
    {
        match refused(o) {
            Some(message) => self.fail(with_cause("이전 변환 결과 임시 보관 실패", message.as_str())),
            None => {
                self.set_published(self.task.index, false);
                self.go(Stage::Publish);
            },
        }
    }

    fn after_probe_target(&mut self, o: &Outcome<String>)
        requires
            old(self)@.sequence < usize::MAX,
        ensures
            final(self)@ == old(self)@.after_probe_target(o@),
            old(self)@.names_are_known() ==> final(self)@.names_are_known(),
    {
        proof {
            reveal(Journal::names_are_known);
        }
        let found = matches!(o, Outcome::Exists(true));
        if found {
            let destination = self.task.destination.copy();
            self.draw("original", &destination);
            self.go(Stage::MapOriginal);
        } else {
            self.add_entry(None);
            self.go(Stage::Publish);
        }
    }

    fn after_map_original(&mut self, o: &Outcome<String>)
        ensures
            final(self)@ == old(self)@.after_map_original(o@),
    {
        match refused(o) {
            Some(message) => self.fail(message),
            None => self.go(Stage::KeepOriginal),
        }
    }

    fn after_keep_original(&mut self, o: &Outcome<String>)
        ensures
            final(self)@ == old(self)@.after_keep_original(o@),
    {
        match refused(o) {
            Some(message) => {
                let text = glue("기존 출력 보관 실패: ", self.show(&self.task.destination).as_str());
                self.fail(with_cause(text.as_str(), message.as_str()));
            },
            None => {
                let kept = self.task.aside.copy();
                self.add_entry(Some(kept));
                self.go(Stage::Publish);
            },
        }
    }

    fn displaced(&self) -> (r: Option<FilePath>)
        requires
            self@.work.index < self@.outputs.len(),
        ensures
            match (r, self@.displaced()) {
                (Some(p), Some(kept)) => p@ == kept,
                (None, None) => true,
                _ => false,
            },
    {
        if self.task.fresh {
            match &self.outputs[self.task.index].original {
                Some(kept) => Some(kept.copy()),
                None => None,
            }
        } else {
            Some(self.task.aside.copy())
        }
    }

    fn after_publish(&mut self, o: &Outcome<String>)
        requires
            old(self)@.wf(),
            old(self)@.stage == Stage::Publish,
        ensures
            final(self)@ == old(self)@.after_publish(o@),
    {
        match refused(o) {
            Some(message) => match self.displaced() {
                Some(_) => {
                    self.task.error = message;
                    self.stage = Stage::Restore;
                },
                None => {
                    self.drop_entry();
                    self.fail(with_cause("변환 결과 저장 실패", message.as_str()));
                },
            },
            None => {
                self.set_published(self.task.index, true);
                if self.task.fresh {
                    self.succeed();
                } else {
                    self.go(Stage::Discard);
                }
            },
        }
    }

    fn after_restore(&mut self, o: &Outcome<String>)
        requires
            old(self)@.wf(),
            old(self)@.stage == Stage::Restore,
        ensures
            final(self)@ == old(self)@.after_restore(o@),
    {
        match refused(o) {
            Some(message) => {
                let text = glue4(
                    "출력 저장 및 기존 파일 복원 실패 (",
                    message.as_str(),
                    "). 복구 파일: ",
                    self.show(&self.workspace).as_str(),
                );
                self.fail(with_cause(text.as_str(), self.task.error.as_str()));
            },
            None => {
                let text = with_cause("변환 결과 저장 실패", self.task.error.as_str());
                if self.task.fresh {
                    self.drop_entry();
                } else {
                    self.set_published(self.task.index, true);
                }
                self.fail(text);
            },
        }
    }
}

/// A kept file that was found stays found, whatever entries follow.
proof fn lemma_retained_stays(outputs: Seq<Entry>, p: PathView, fold_case: bool, n: int)
    requires
        0 <= n <= outputs.len(),
        retained(outputs.take(n), p, fold_case) is Some,
    ensures
        retained(outputs.take(outputs.len() as int), p, fold_case) == retained(
            outputs.take(n),
            p,
            fold_case,
        ),
    decreases outputs.len() - n,
{
    if n < outputs.len() {
        assert(outputs.take(n + 1).drop_last() =~= outputs.take(n));
        lemma_retained_stays(outputs, p, fold_case, n + 1);
    }
}

/// An entry that was found stays found, whatever entries follow.
proof fn lemma_entry_stays(outputs: Seq<Entry>, p: PathView, fold_case: bool, n: int)
    requires
        0 <= n <= outputs.len(),
        entry_for(outputs.take(n), p, fold_case) is Some,
    ensures
        entry_for(outputs.take(outputs.len() as int), p, fold_case) == entry_for(
            outputs.take(n),
            p,
            fold_case,
        ),
    decreases outputs.len() - n,
{
    if n < outputs.len() {
        assert(outputs.take(n + 1).drop_last() =~= outputs.take(n));
        lemma_entry_stays(outputs, p, fold_case, n + 1);
    }
}


impl OutputTransaction {
    // -- committing

    /// Notes a source that is to be removed once the job is committed. Until then every source
    /// stays where it is, also those that were converted.
    pub fn defer_source_removal(&mut self, input: &RawPath)
        ensures
            final(self)@ == old(self)@.defer(input.target()),
            old(self)@.names_are_known() ==> final(self)@.names_are_known(),
    {
        proof {
            reveal(Journal::names_are_known);
        }
        if let Some(p) = absolute(input) {
            let mut i: usize = 0;
            while i < self.deferred_sources.len()
                invariant
                    i <= self.deferred_sources@.len(),
                    self@ == old(self)@,
                    input.target() == Some(p@),
                    forall|k: int|
                        0 <= k < i ==> (#[trigger] self@.deferred_sources[k]).key(self.fold_case)
                            != p@.key(self.fold_case),
                decreases self.deferred_sources@.len() - i,
            {
                if same_path(&self.deferred_sources[i], &p, self.fold_case) {
                    assert(self@.deferred_sources[i as int].key(self.fold_case) == p@.key(
                        self.fold_case,
                    ));
                    return;
                }
                i = i + 1;
            }
            assert(!listed(self@.deferred_sources, p@, self.fold_case));
            self.deferred_sources.push(p);
            assert(self@.deferred_sources =~= old(self)@.deferred_sources.push(p@));
        }
    }

    /// Begins to make the results final. Every result is looked at before anything else happens;
    /// then the sources that were noted are removed, and what was kept is no longer needed.
    pub fn commit(&mut self)
        requires
            old(self)@.stage == Stage::Idle,
        ensures
            final(self)@ == old(self)@.commit(),
            old(self)@.names_are_known() ==> final(self)@.names_are_known(),
            final(self)@.wf(),
    {
        proof {
            reveal(Journal::names_are_known);
        }
        if self.finished {
            self.succeed();
        } else {
            self.check_from(0);
        }
    }

    fn check_from(&mut self, at: usize)
        ensures
            final(self)@ == old(self)@.check_from(at as int),
    {
        if at >= self.outputs.len() {
            self.go(Stage::Source { at: 0 });
        } else if self.outputs[at].published {
            self.go(Stage::Check { at });
        } else {
            let text = glue4(
                "저장에 실패한 출력을 먼저 복구해야 합니다: ",
                self.show(&self.outputs[at].destination).as_str(),
                ". 복구 폴더: ",
                self.show(&self.workspace).as_str(),
            );
            self.fail(text);
        }
    }

    fn after_check(&mut self, at: usize, o: &Outcome<String>)
        requires
            old(self)@.wf(),
            old(self)@.stage == (Stage::Check { at }),
        ensures
            final(self)@ == old(self)@.after_check(at, o@),
    {
        let place = glue3(
            self.show(&self.outputs[at].destination).as_str(),
            ". 복구 폴더: ",
            self.show(&self.workspace).as_str(),
        );
        match o {
            Outcome::Found(Kind::File) => {
                assert(at < self.outputs.len());
                self.check_from(at + 1);
            },
            Outcome::Failed(_, message) => {
                let text = glue("완료할 출력 파일 확인 실패: ", place.as_str());
                self.fail(with_cause(text.as_str(), message.as_str()));
            },
            _ => self.fail(glue("완료할 출력이 일반 파일이 아닙니다: ", place.as_str())),
        }
    }

    /// Whether a source stays where it is.
    fn stays(&self, source: &FilePath) -> (r: bool)
        ensures
            r == self@.stays(source@),
    {
        let mut i: usize = 0;
        while i < self.outputs.len()
            invariant
                i <= self.outputs@.len(),
                forall|k: int|
                    0 <= k < i ==> !((#[trigger] self@.outputs[k]).published
                        && self@.outputs[k].destination.key(self.fold_case) == source@.key(
                        self.fold_case,
                    )),
            decreases self.outputs@.len() - i,
        {
            if self.outputs[i].published && same_path(
                &self.outputs[i].destination,
                source,
                self.fold_case,
            ) {
                assert(self@.outputs[i as int].published);
                return true;
            }
            i = i + 1;
        }
        let mut j: usize = 0;
        while j < self.removed_sources.len()
            invariant
                j <= self.removed_sources@.len(),
                forall|k: int|
                    0 <= k < j ==> (#[trigger] self@.removed_sources[k]).source.key(self.fold_case)
                        != source@.key(self.fold_case),
            decreases self.removed_sources@.len() - j,
        {
            if same_path(&self.removed_sources[j].source, source, self.fold_case) {
                assert(self@.removed_sources[j as int].source.key(self.fold_case) == source@.key(
                    self.fold_case,
                ));
                return true;
            }
            j = j + 1;
        }
        false
    }

    fn after_source(&mut self, at: usize)
        requires
            old(self)@.wf(),
            old(self)@.stage == (Stage::Source { at }),
            old(self)@.sequence < usize::MAX,
        ensures
            final(self)@ == old(self)@.after_source(at),
            old(self)@.names_are_known() ==> final(self)@.names_are_known(),
    {
        proof {
            reveal(Journal::names_are_known);
        }
        if at >= self.deferred_sources.len() {
            self.finished = true;
            self.committed = true;
            self.errors = Vec::new();
            self.stage = Stage::Purge { at: 0 };
            assert(self@.errors =~= Seq::<Seq<char>>::empty());
        } else {
            let source = self.deferred_sources[at].copy();
            if self.stays(&source) {
                self.go(Stage::Source { at: at + 1 });
            } else {
                self.draw("source", &source);
                self.go(Stage::MapSource { at });
            }
        }
    }

    fn after_map_source(&mut self, at: usize, o: &Outcome<String>)
        ensures
            final(self)@ == old(self)@.after_map_source(at, o@),
    {
        match refused(o) {
            Some(message) => self.fail(message),
            None => self.go(Stage::MoveSource { at }),
        }
    }

    fn after_move_source(&mut self, at: usize, o: &Outcome<String>)
        requires
            old(self)@.wf(),
            old(self)@.stage == (Stage::MoveSource { at }),
        ensures
            final(self)@ == old(self)@.after_move_source(at, o@),
    {
        let source = self.deferred_sources[at].copy();
        match refused(o) {
            Some(message) => {
                let text = glue4(
                    "변환 원본 정리 실패: ",
                    self.show(&source).as_str(),
                    ". 복구 폴더: ",
                    self.show(&self.workspace).as_str(),
                );
                self.fail(with_cause(text.as_str(), message.as_str()));
            },
            None => {
                assert(at < self.deferred_sources.len());
                let backup = self.task.aside.copy();
                self.removed_sources.push(RemovedSource { source, backup });
                self.stage = Stage::Source { at: at + 1 };
                assert(self@.removed_sources =~= old(self)@.removed_sources.push(
                    Removed { source: source@, backup: backup@ },
                ));
            },
        }
    }

    fn after_purge(&mut self, at: usize, o: &Outcome<String>)
        requires
            old(self)@.wf(),
            old(self)@.stage == (Stage::Purge { at }),
        ensures
            final(self)@ == old(self)@.after_purge(at, o@),
    {
        if at >= self.outputs.len() {
            self.go(Stage::PurgeSource { at: 0 });
            return;
        }
        let shown = match &self.outputs[at].original {
            None => None,
            Some(backup) => Some(self.show(backup)),
        };
        match shown {
            None => {},
            Some(place) => match removal_refused(o) {
                Some(message) => self.note_error(with_cause(place.as_str(), message.as_str())),
                None => self.forget_original(at),
            },
        }
        self.go(Stage::Purge { at: at + 1 });
    }

    fn after_purge_source(&mut self, at: usize, o: &Outcome<String>)
        requires
            old(self)@.wf(),
            old(self)@.stage == (Stage::PurgeSource { at }),
        ensures
            final(self)@ == old(self)@.after_purge_source(at, o@),
    {
        if at >= self.removed_sources.len() {
            self.go(Stage::Temporaries { at: 0 });
            return;
        }
        if let Some(message) = removal_refused(o) {
            let place = self.show(&self.removed_sources[at].backup);
            self.note_error(with_cause(place.as_str(), message.as_str()));
        }
        self.go(Stage::PurgeSource { at: at + 1 });
    }

    /// True after the results became final, even if cleaning up met an error.
    pub fn is_committed(&self) -> (r: bool)
        ensures
            r == self@.committed,
    {
        self.committed
    }

    // -- rolling back

    /// Begins to take the job back: results are removed, kept files and sources are put back.
    pub fn rollback(&mut self)
        requires
            old(self)@.stage == Stage::Idle,
        ensures
            final(self)@ == old(self)@.rollback(),
            old(self)@.names_are_known() ==> final(self)@.names_are_known(),
            final(self)@.wf(),
    {
        proof {
            reveal(Journal::names_are_known);
        }
        if self.finished {
            self.succeed();
        } else {
            self.errors = Vec::new();
            self.stage = Stage::Withdraw { left: self.outputs.len() };
            assert(self@.errors =~= Seq::<Seq<char>>::empty());
        }
    }

    fn after_withdraw(&mut self, left: usize, o: &Outcome<String>)
        requires
            old(self)@.wf(),
            old(self)@.stage == (Stage::Withdraw { left }),
        ensures
            final(self)@ == old(self)@.after_withdraw(left, o@),
    {
        if left == 0 {
            self.go(Stage::Sources { at: 0 });
        } else if !self.outputs[left - 1].published {
            self.go(Stage::Reinstate { left });
        } else {
            match removal_refused(o) {
                Some(message) => {
                    let place = self.show(&self.outputs[left - 1].destination);
                    self.note_error(with_cause(place.as_str(), message.as_str()));
                    self.go(Stage::Withdraw { left: left - 1 });
                },
                None => {
                    self.set_published(left - 1, false);
                    self.go(Stage::Reinstate { left });
                },
            }
        }
    }

    fn after_reinstate(&mut self, left: usize, o: &Outcome<String>)
        requires
            old(self)@.wf(),
            old(self)@.stage == (Stage::Reinstate { left }),
        ensures
            final(self)@ == old(self)@.after_reinstate(left, o@),
    {
        let found = matches!(o, Outcome::Exists(true));
        if self.outputs[left - 1].original.is_none() {
            self.go(Stage::Withdraw { left: left - 1 });
        } else if found {
            let place = self.show(&self.outputs[left - 1].destination);
            self.note_error(glue("복원 경로에 파일이 있습니다: ", place.as_str()));
            self.go(Stage::Withdraw { left: left - 1 });
        } else {
            self.go(Stage::PutBack { left });
        }
    }

    fn after_put_back(&mut self, left: usize, o: &Outcome<String>)
        requires
            old(self)@.wf(),
            old(self)@.stage == (Stage::PutBack { left }),
        ensures
            final(self)@ == old(self)@.after_put_back(left, o@),
    {
        match refused(o) {
            Some(message) => {
                let place = self.show(&self.outputs[left - 1].destination);
                self.note_error(with_cause(place.as_str(), message.as_str()));
            },
            None => self.forget_original(left - 1),
        }
        self.go(Stage::Withdraw { left: left - 1 });
    }

    fn after_sources(&mut self, at: usize, o: &Outcome<String>)
        requires
            old(self)@.wf(),
            old(self)@.stage == (Stage::Sources { at }),
        ensures
            final(self)@ == old(self)@.after_sources(at, o@),
    {
        let found = matches!(o, Outcome::Exists(true));
        if at >= self.removed_sources.len() {
            let left = self.created_directories.len();
            self.go(Stage::Folders { left });
        } else if found {
            let place = self.show(&self.removed_sources[at].source);
            self.note_error(glue("원본 복원 경로에 파일이 있습니다: ", place.as_str()));
            self.go(Stage::Sources { at: at + 1 });
        } else {
            self.go(Stage::Return { at });
        }
    }

    fn after_return(&mut self, at: usize, o: &Outcome<String>)
        requires
            old(self)@.wf(),
            old(self)@.stage == (Stage::Return { at }),
        ensures
            final(self)@ == old(self)@.after_return(at, o@),
    {
        match refused(o) {
            Some(message) => {
                assert(at < self.removed_sources.len());
                let place = self.show(&self.removed_sources[at].source);
                self.note_error(with_cause(place.as_str(), message.as_str()));
                self.go(Stage::Sources { at: at + 1 });
            },
            None => {
                let _ = self.removed_sources.remove(at);
                self.stage = Stage::Sources { at };
                assert(self@.removed_sources =~= old(self)@.removed_sources.remove(at as int));
            },
        }
    }

    fn after_folders(&mut self, left: usize, o: &Outcome<String>)
        requires
            old(self)@.wf(),
            old(self)@.stage == (Stage::Folders { left }),
        ensures
            final(self)@ == old(self)@.after_folders(left, o@),
    {
        if left == 0 {
            self.go(Stage::Temporaries { at: 0 });
            return;
        }
        match o {
            Outcome::Failed(Fault::Other, message) => {
                let place = self.show(&self.created_directories[left - 1]);
                self.note_error(with_cause(place.as_str(), message.as_str()));
            },
            _ => {},
        }
        self.go(Stage::Folders { left: left - 1 });
    }

    // -- cleaning up

    fn after_temporaries(&mut self, at: usize, o: &Outcome<String>)
        requires
            old(self)@.wf(),
            old(self)@.stage == (Stage::Temporaries { at }),
        ensures
            final(self)@ == old(self)@.after_temporaries(at, o@),
    {
        if at >= self.temporary_files.len() {
            if self.errors.len() == 0 {
                self.go(Stage::Mapping);
            } else {
                self.conclude();
            }
            return;
        }
        if let Some(message) = removal_refused(o) {
            let place = self.show(&self.temporary_files[at]);
            self.note_error(with_cause(place.as_str(), message.as_str()));
        }
        self.go(Stage::Temporaries { at: at + 1 });
    }

    fn after_mapping(&mut self, o: &Outcome<String>)
        ensures
            final(self)@ == old(self)@.after_mapping(o@),
    {
        match removal_refused(o) {
            Some(message) => {
                self.note_error(message);
                self.conclude();
            },
            None => self.go(Stage::Workspace),
        }
    }

    fn after_workspace(&mut self, o: &Outcome<String>)
        ensures
            final(self)@ == old(self)@.after_workspace(o@),
    {
        if let Some(message) = removal_refused(o) {
            self.note_error(message);
        }
        self.conclude();
    }

    fn conclude(&mut self)
        ensures
            final(self)@ == old(self)@.conclude(),
    {
        if self.errors.len() == 0 {
            self.finished = true;
            self.succeed();
        } else {
            let heading = if self.committed {
                "변환은 완료됐지만 복구용 임시 파일 정리에 실패했습니다"
            } else {
                "취소 후 일부 파일 복원 또는 정리에 실패했습니다"
            };
            let mut text = glue4(
                heading,
                ". 복구 폴더: ",
                self.show(&self.workspace).as_str(),
                "\n",
            );
            append(&mut text, join(&self.errors, self.errors.len(), "\n").as_str());
            assert(texts(self.errors@).take(self.errors@.len() as int) =~= texts(self.errors@));
            self.fail(text);
        }
    }
}


impl OutputTransaction {
    // -- all steps

    /// What is to be done on the disk, or nothing where no operation is under way.
    pub fn pending(&self) -> (r: Option<Action<FilePath, String>>)
        requires
            self@.wf(),
        ensures
            match r {
                Some(action) => self@.stage != Stage::Idle && action@ == self@.action(),
                None => self@.stage == Stage::Idle,
            },
    {
        let work = &self.task;
        Some(
            match self.stage {
                Stage::Idle => {
                    return None;
                },
                Stage::Converting => Action::Convert {
                    source: work.source.copy(),
                    staged: work.staged.copy(),
                    format: match work.format {
                        Some(format) => format,
                        None => OutputFormat::Preserve,
                    },
                },
                Stage::FindParent { depth } => Action::Probe(work.destination.prefix(depth)),
                Stage::CheckChain { depth, at } => Action::Inspect(work.destination.prefix(at)),
                Stage::MakeFolder { at } => Action::CreateFolder(work.destination.prefix(at)),
                Stage::Target => Action::Inspect(work.destination.copy()),
                Stage::SetAside | Stage::KeepOriginal => Action::Rename {
                    from: work.destination.copy(),
                    to: work.aside.copy(),
                },
                Stage::ProbeTarget => Action::Probe(work.destination.copy()),
                Stage::MapOriginal => Action::AppendLine {
                    file: self.notes(),
                    line: self.mapping_line(&work.aside, &work.destination),
                },
                Stage::Publish => Action::Rename {
                    from: work.staged.copy(),
                    to: work.destination.copy(),
                },
                Stage::Restore => match self.displaced() {
                    Some(from) => Action::Rename { from, to: work.destination.copy() },
                    None => Action::Continue,
                },
                Stage::Discard => Action::RemoveFile(work.aside.copy()),
                Stage::Check { at } => Action::Inspect(self.outputs[at].destination.copy()),
                Stage::Source { .. } => Action::Continue,
                Stage::MapSource { at } => Action::AppendLine {
                    file: self.notes(),
                    line: self.mapping_line(&work.aside, &self.deferred_sources[at]),
                },
                Stage::MoveSource { at } => Action::Rename {
                    from: self.deferred_sources[at].copy(),
                    to: work.aside.copy(),
                },
                Stage::Purge { at } => if at < self.outputs.len() {
                    match &self.outputs[at].original {
                        Some(backup) => Action::RemoveFile(backup.copy()),
                        None => Action::Continue,
                    }
                } else {
                    Action::Continue
                },
                Stage::PurgeSource { at } => if at < self.removed_sources.len() {
                    Action::RemoveFile(self.removed_sources[at].backup.copy())
                } else {
                    Action::Continue
                },
                Stage::Withdraw { left } => if left > 0 && self.outputs[left - 1].published {
                    Action::RemoveFile(self.outputs[left - 1].destination.copy())
                } else {
                    Action::Continue
                },
                Stage::Reinstate { left } => match &self.outputs[left - 1].original {
                    Some(_) => Action::Probe(self.outputs[left - 1].destination.copy()),
                    None => Action::Continue,
                },
                Stage::PutBack { left } => match &self.outputs[left - 1].original {
                    Some(backup) => Action::Rename {
                        from: backup.copy(),
                        to: self.outputs[left - 1].destination.copy(),
                    },
                    None => Action::Continue,
                },
                Stage::Sources { at } => if at < self.removed_sources.len() {
                    Action::Probe(self.removed_sources[at].source.copy())
                } else {
                    Action::Continue
                },
                Stage::Return { at } => Action::Rename {
                    from: self.removed_sources[at].backup.copy(),
                    to: self.removed_sources[at].source.copy(),
                },
                Stage::Folders { left } => if left > 0 {
                    Action::RemoveFolder(self.created_directories[left - 1].copy())
                } else {
                    Action::Continue
                },
                Stage::Temporaries { at } => if at < self.temporary_files.len() {
                    Action::RemoveFile(self.temporary_files[at].copy())
                } else {
                    Action::Continue
                },
                Stage::Mapping => Action::RemoveFile(self.notes()),
                Stage::Workspace => Action::RemoveFolder(self.workspace.copy()),
            },
        )
    }

    /// Takes the next step, once the disk has answered.
    pub fn resume(&mut self, o: &Outcome<String>)
        requires
            old(self)@.wf(),
            old(self)@.sequence < usize::MAX,
        ensures
            final(self)@ == old(self)@.step(o@),
            old(self)@.names_are_known() ==> final(self)@.names_are_known(),
            final(self)@.wf(),
    {
        proof {
            let v = self@;
            assert(v.outputs.len() == self.outputs.len());
            assert(v.deferred_sources.len() == self.deferred_sources.len());
            assert(v.removed_sources.len() == self.removed_sources.len());
            assert(v.created_directories.len() == self.created_directories.len());
            assert(v.temporary_files.len() == self.temporary_files.len());
            assert(v.work.destination.parts.len() == self.task.destination.parts.len());
            steps_stay_within_bounds(v, o@);
            if v.names_are_known() && !(v.stage is Target) && !(v.stage is ProbeTarget) && !(
            v.stage is Source) {
                names_stay_known(v, o@);
            }
        }
        match self.stage {
            Stage::Idle => {},
            Stage::Converting => self.after_converting(o),
            Stage::FindParent { depth } => self.after_find_parent(depth, o),
            Stage::CheckChain { depth, at } => self.after_check_chain(depth, at, o),
            Stage::MakeFolder { at } => self.after_make_folder(at, o),
            Stage::Target => self.after_target(o),
            Stage::SetAside => self.after_set_aside(o),
            Stage::ProbeTarget => self.after_probe_target(o),
            Stage::MapOriginal => self.after_map_original(o),
            Stage::KeepOriginal => self.after_keep_original(o),
            Stage::Publish => self.after_publish(o),
            Stage::Restore => self.after_restore(o),
            Stage::Discard => self.succeed(),
            Stage::Check { at } => self.after_check(at, o),
            Stage::Source { at } => self.after_source(at),
            Stage::MapSource { at } => self.after_map_source(at, o),
            Stage::MoveSource { at } => self.after_move_source(at, o),
            Stage::Purge { at } => self.after_purge(at, o),
            Stage::PurgeSource { at } => self.after_purge_source(at, o),
            Stage::Withdraw { left } => self.after_withdraw(left, o),
            Stage::Reinstate { left } => self.after_reinstate(left, o),
            Stage::PutBack { left } => self.after_put_back(left, o),
            Stage::Sources { at } => self.after_sources(at, o),
            Stage::Return { at } => self.after_return(at, o),
            Stage::Folders { left } => self.after_folders(left, o),
            Stage::Temporaries { at } => self.after_temporaries(at, o),
            Stage::Mapping => self.after_mapping(o),
            Stage::Workspace => self.after_workspace(o),
        }
    }

    /// How the last operation ended.
    pub fn result(&self) -> (r: Result<(), Failure<String>>)
        ensures
            match r {
                Ok(_) => self@.last is None,
                Err(failure) => self@.last == Some(failure@),
            },
    {
        match &self.last {
            None => Ok(()),
            Some(failure) => Err(
                Failure { cancelled: failure.cancelled, text: failure.text.clone() },
            ),
        }
    }

    /// Where backups are kept.
    pub fn workspace(&self) -> (r: &FilePath)
        ensures
            r@ == self@.workspace,
    {
        &self.workspace
    }

    /// Whether no operation is under way.
    pub fn is_idle(&self) -> (r: bool)
        ensures
            r == (self@.stage == Stage::Idle),
    {
        matches!(self.stage, Stage::Idle)
    }

    /// Whether there are names left to give out.
    pub fn has_names(&self) -> (r: bool)
        ensures
            r == (self@.sequence < usize::MAX),
    {
        self.sequence < usize::MAX
    }

    /// Whether there is nothing left to commit or to roll back.
    pub fn is_finished(&self) -> (r: bool)
        ensures
            r == self@.finished,
    {
        self.finished
    }
}

} // verus!
