//! What the program asks of the disk, and what it may hear.
use crate::convert::OutputFormat;
use crate::path::{FilePath, PathView};
use vstd::prelude::*;

verus! {

/// What stands at a path. Links and devices are of no further interest.
#[derive(Debug, Clone, Copy, PartialEq, Eq, Structural)]
pub enum Kind {
    File,
    Folder,
    Other,
}

/// Why the disk refused.
#[derive(Debug, Clone, Copy, PartialEq, Eq, Structural)]
pub enum Fault {
    NotFound,
    NotEmpty,
    Other,
}

/// One thing to do on the disk.
#[derive(Debug)]
pub enum Action<P, S> {
    /// Nothing: the next step can be taken at once.
    Continue,
    /// Convert a source into a new file, in this format.
    Convert { source: P, staged: P, format: OutputFormat },
    /// Tell whether something stands at a path, through links.
    Probe(P),
    /// Tell what stands at a path, links not followed.
    Inspect(P),
    CreateFolder(P),
    /// Create a folder of a new name that begins with `prefix`.
    CreateUnique { parent: P, prefix: S },
    RemoveFile(P),
    /// Remove a folder that is empty.
    RemoveFolder(P),
    Rename { from: P, to: P },
    /// Add a line to a file, which is created where it is missing.
    AppendLine { file: P, line: S },
    /// List what a folder holds, in the order in which the disk gives it.
    List(P),
}

/// What came of it.
#[derive(Debug)]
pub enum Outcome<S> {
    Done,
    /// The conversion wrote its file; the user may have cancelled by then.
    Converted { cancelled: bool },
    /// The conversion stopped because the user cancelled.
    Cancelled,
    Exists(bool),
    Found(Kind),
    /// The name of the folder that was created.
    Created(S),
    Failed(Fault, S),
}

impl View for Action<FilePath, String> {
    type V = Action<PathView, Seq<char>>;

    open spec fn view(&self) -> Action<PathView, Seq<char>> {
        match self {
            Action::Continue => Action::Continue,
            Action::Convert { source, staged, format } => Action::Convert {
                source: source@,
                staged: staged@,
                format: *format,
            },
            Action::Probe(p) => Action::Probe(p@),
            Action::Inspect(p) => Action::Inspect(p@),
            Action::CreateFolder(p) => Action::CreateFolder(p@),
            Action::CreateUnique { parent, prefix } => Action::CreateUnique {
                parent: parent@,
                prefix: prefix@,
            },
            Action::RemoveFile(p) => Action::RemoveFile(p@),
            Action::RemoveFolder(p) => Action::RemoveFolder(p@),
            Action::Rename { from, to } => Action::Rename { from: from@, to: to@ },
            Action::AppendLine { file, line } => Action::AppendLine { file: file@, line: line@ },
            Action::List(p) => Action::List(p@),
        }
    }
}

impl View for Outcome<String> {
    type V = Outcome<Seq<char>>;

    open spec fn view(&self) -> Outcome<Seq<char>> {
        match self {
            Outcome::Done => Outcome::Done,
            Outcome::Converted { cancelled } => Outcome::Converted { cancelled: *cancelled },
            Outcome::Cancelled => Outcome::Cancelled,
            Outcome::Exists(b) => Outcome::Exists(*b),
            Outcome::Found(kind) => Outcome::Found(*kind),
            Outcome::Created(name) => Outcome::Created(name@),
            Outcome::Failed(fault, message) => Outcome::Failed(*fault, message@),
        }
    }
}

/// What the disk said when it refused.
pub open spec fn refusal(o: Outcome<Seq<char>>) -> Option<Seq<char>> {
    match o {
        Outcome::Failed(_, message) => Some(message),
        _ => None,
    }
}

/// What the disk said when a file could not be removed. A file that is gone already needs no
/// removing.
pub open spec fn removal_refusal(o: Outcome<Seq<char>>) -> Option<Seq<char>> {
    match o {
        Outcome::Failed(fault, message) if fault != Fault::NotFound => Some(message),
        _ => None,
    }
}

/// What the disk said when it refused.
pub fn refused(o: &Outcome<String>) -> (r: Option<String>)
    ensures
        match (r, refusal(o@)) {
            (Some(text), Some(message)) => text@ == message,
            (None, None) => true,
            _ => false,
        },
{
    match o {
        Outcome::Failed(_, message) => Some(message.clone()),
        _ => None,
    }
}

/// What the disk said when a file could not be removed.
pub fn removal_refused(o: &Outcome<String>) -> (r: Option<String>)
    ensures
        match (r, removal_refusal(o@)) {
            (Some(text), Some(message)) => text@ == message,
            (None, None) => true,
            _ => false,
        },
{
    match o {
        Outcome::Failed(fault, message) => if *fault == Fault::NotFound {
            None
        } else {
            Some(message.clone())
        },
        _ => None,
    }
}

/// Why an operation ended without success.
#[derive(Debug)]
pub struct Failure<S> {
    /// The user cancelled; nothing went wrong.
    pub cancelled: bool,
    pub text: S,
}

impl View for Failure<String> {
    type V = Failure<Seq<char>>;

    open spec fn view(&self) -> Failure<Seq<char>> {
        Failure { cancelled: self.cancelled, text: self.text@ }
    }
}

/// What a report of a failure says.
pub open spec fn report(last: Option<Failure<String>>) -> Option<Failure<Seq<char>>> {
    match last {
        Some(failure) => Some(failure@),
        None => None,
    }
}

// ---------------------------------------------------------------------------
// A disk
// ---------------------------------------------------------------------------

/// What stands at a path.
pub enum Node {
    File(Seq<u8>),
    Folder,
    Other,
}

/// All that stands on a disk, by what tells files apart.
pub type Disk = Map<PathView, Node>;

/// What stands at a place.
pub open spec fn look(d: Disk, k: PathView) -> Option<Node> {
    if d.dom().contains(k) {
        Some(d[k])
    } else {
        None
    }
}

/// A file stands there.
pub open spec fn is_file(found: Option<Node>) -> bool {
    match found {
        Some(Node::File(_)) => true,
        _ => false,
    }
}

/// Nothing differs but at one place.
pub open spec fn same_but(d: Disk, e: Disk, k: PathView) -> bool {
    forall|j: PathView| j != k ==> #[trigger] look(e, j) == look(d, j)
}

/// A file moved, over whatever file stood in its way.
pub open spec fn moved(d: Disk, e: Disk, from: PathView, to: PathView) -> bool {
    &&& look(d, from) is Some
    &&& look(d, from) != Some(Node::Folder)
    &&& look(d, to) != Some(Node::Folder)
    &&& look(e, to) == look(d, from)
    &&& from != to ==> look(e, from) is None
    &&& forall|j: PathView| j != from && j != to ==> #[trigger] look(e, j) == look(d, j)
}

/// Nothing stands below a place.
pub open spec fn is_empty(d: Disk, k: PathView) -> bool {
    forall|j: PathView| j != k && j.within(k) ==> #[trigger] look(d, j) is None
}

/// Nothing stands below a place where nothing stands.
pub open spec fn is_tree(d: Disk) -> bool {
    forall|j: PathView, k: PathView|
        #![trigger look(d, j), look(d, k)]
        j.within(k) && look(d, j) is Some ==> look(d, k) is Some
}

/// A file that was there is still there, with at least what it held.
pub open spec fn is_grown(before: Option<Node>, after: Option<Node>) -> bool {
    before matches Some(Node::File(old)) ==> (after matches Some(Node::File(new))
        && crate::text::begins_with(new, old))
}

/// A disk on which nobody else is at work answers truthfully, and what it refuses to do it leaves
/// undone.
pub open spec fn happens(
    fold_case: bool,
    action: Action<PathView, Seq<char>>,
    o: Outcome<Seq<char>>,
    d: Disk,
    e: Disk,
) -> bool {
    match action {
        Action::Continue => e == d,
        Action::Convert { staged, .. } => {
            let k = staged.key(fold_case);
            &&& same_but(d, e, k)
            &&& o is Failed || o is Cancelled || (o is Converted && is_file(look(e, k)))
        },
        Action::Probe(p) => {
            let found = look(d, p.key(fold_case));
            &&& e == d
            &&& o == Outcome::<Seq<char>>::Exists(true) && found is Some || o == Outcome::<
                Seq<char>,
            >::Exists(false) && (found is None || found == Some(Node::Other))
        },
        Action::Inspect(p) => {
            &&& e == d
            &&& match look(d, p.key(fold_case)) {
                Some(Node::File(_)) => o == Outcome::<Seq<char>>::Found(Kind::File),
                Some(Node::Folder) => o == Outcome::<Seq<char>>::Found(Kind::Folder),
                Some(Node::Other) => o == Outcome::<Seq<char>>::Found(Kind::Other),
                None => o is Failed,
            }
        },
        Action::CreateFolder(p) => {
            let k = p.key(fold_case);
            if o is Failed {
                e == d
            } else {
                o is Done && look(d, k) is None && look(e, k) == Some(Node::Folder) && same_but(
                    d,
                    e,
                    k,
                )
            }
        },
        Action::CreateUnique { parent, prefix } => match o {
            Outcome::Failed(..) => e == d,
            Outcome::Created(name) => {
                let k = parent.child(name).key(fold_case);
                &&& crate::text::begins_with(name, prefix)
                &&& look(d, k) is None
                &&& look(e, k) == Some(Node::Folder)
                &&& same_but(d, e, k)
            },
            _ => false,
        },
        Action::RemoveFile(p) => {
            let k = p.key(fold_case);
            match o {
                Outcome::Failed(fault, _) => e == d && (fault == Fault::NotFound <==> look(d, k)
                    is None),
                _ => o is Done && look(d, k) is Some && look(d, k) != Some(Node::Folder) && look(
                    e,
                    k,
                ) is None && same_but(d, e, k),
            }
        },
        Action::RemoveFolder(p) => {
            let k = p.key(fold_case);
            match o {
                Outcome::Failed(fault, _) => {
                    &&& e == d
                    &&& fault == Fault::NotFound ==> look(d, k) is None
                    &&& fault == Fault::NotEmpty ==> !is_empty(d, k)
                },
                _ => o is Done && look(d, k) == Some(Node::Folder) && is_empty(d, k) && look(e, k)
                    is None && same_but(d, e, k),
            }
        },
        Action::Rename { from, to } => if o is Failed {
            e == d
        } else {
            o is Done && moved(d, e, from.key(fold_case), to.key(fold_case))
        },
        Action::AppendLine { file, .. } => {
            let k = file.key(fold_case);
            &&& o is Done || o is Failed
            &&& same_but(d, e, k)
            &&& is_grown(look(d, k), look(e, k))
            &&& o is Done ==> is_file(look(e, k))
        },
        Action::List(_) => e == d,
    }
}

/// The disk is asked to move what stands at one place to another.
pub open spec fn to_move(from: PathView, to: PathView) -> Action<PathView, Seq<char>> {
    Action::Rename { from, to }
}

/// The disk is asked whether anything stands at a place.
pub open spec fn to_probe(p: PathView) -> Action<PathView, Seq<char>> {
    Action::Probe(p)
}

/// The disk is asked to remove a file.
pub open spec fn to_remove_file(p: PathView) -> Action<PathView, Seq<char>> {
    Action::RemoveFile(p)
}

/// The disk is asked to remove an empty folder.
pub open spec fn to_remove_folder(p: PathView) -> Action<PathView, Seq<char>> {
    Action::RemoveFolder(p)
}

/// The disk is asked to create a folder.
pub open spec fn to_create_folder(p: PathView) -> Action<PathView, Seq<char>> {
    Action::CreateFolder(p)
}

/// The disk is asked to create a folder of a new name.
pub open spec fn to_create_unique(parent: PathView, prefix: Seq<char>) -> Action<PathView, Seq<char>> {
    Action::CreateUnique { parent, prefix }
}

/// The disk is asked what stands at a place.
pub open spec fn to_inspect(p: PathView) -> Action<PathView, Seq<char>> {
    Action::Inspect(p)
}

/// The disk is asked to add a line to a file.
pub open spec fn to_append(file: PathView, line: Seq<char>) -> Action<PathView, Seq<char>> {
    Action::AppendLine { file, line }
}

/// A sound is to be converted into the workspace.
pub open spec fn to_convert(source: PathView, staged: PathView, format: OutputFormat) -> Action<
    PathView,
    Seq<char>,
> {
    Action::Convert { source, staged, format }
}

/// The disk is asked to list a folder.
pub open spec fn to_list(p: PathView) -> Action<PathView, Seq<char>> {
    Action::List(p)
}

} // verus!
