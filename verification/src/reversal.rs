//! A job that is rolled back leaves the disk as it was.
use crate::convert::OutputFormat;
use crate::disk::{
    happens, is_file, is_tree, look, moved, same_but, Action, Disk, Fault, Kind, Node, Outcome,
};
use crate::journal::{
    countable, distance, entry_for, is_known, is_known_path, lemma_entry_for, retained,
    steps_stay_within_bounds, ticket_name, Entry, Journal, Removed, Stage,
};
use crate::path::PathView;
use crate::text::{
    ascii_lowered, begins_with, decimal, is_ascii_front, is_digit, lemma_decimal_digits,
    lemma_decimal_injective, lowercase, lowers_ascii,
};
use vstd::prelude::*;

verus! {

// ---------------------------------------------------------------------------
// Names in the workspace
// ---------------------------------------------------------------------------

/// The labels of the names in the workspace.
pub open spec fn is_label(label: Seq<char>) -> bool {
    ||| label == "converted"@
    ||| label == "previous"@
    ||| label == "original"@
    ||| label == "source"@
}

/// A path in the workspace that was given out under a number.
pub open spec fn is_ticket(workspace: PathView, p: PathView, n: nat) -> bool {
    exists|label: Seq<char>, ext: Option<Seq<char>>|
        is_label(label) && p == workspace.child(#[trigger] ticket_name(label, n, ext))
}

/// What tells names apart.
pub open spec fn name_key(name: Seq<char>, fold_case: bool) -> Seq<char> {
    if fold_case {
        lowercase(name)
    } else {
        name
    }
}

proof fn lemma_labels(label: Seq<char>)
    requires
        is_label(label),
    ensures
        label.len() > 0,
        forall|i: int| 0 <= i < label.len() ==> 'a' <= #[trigger] label[i] <= 'z',
        label == "converted"@ <==> label[0] == 'c',
        label == "previous"@ <==> label[0] == 'p',
        label == "original"@ <==> label[0] == 'o',
        label == "source"@ <==> label[0] == 's',
        label[0] != 'r',
{
    reveal_strlit("converted");
    reveal_strlit("previous");
    reveal_strlit("original");
    reveal_strlit("source");
}

/// A text that is lowercase ASCII up to some point keeps its front.
proof fn lemma_front_kept(s: Seq<char>, a: int, fold_case: bool)
    requires
        0 <= a <= s.len(),
        forall|i: int| 0 <= i < a ==> (#[trigger] s[i]) as int <= 0x7f && !('A' <= s[i] <= 'Z'),
        is_known(s, fold_case),
    ensures
        a <= name_key(s, fold_case).len(),
        name_key(s, fold_case).take(a) == s.take(a),
        a == s.len() ==> name_key(s, fold_case).len() == a,
{
    reveal(is_known);
    if fold_case {
        let low = lowercase(s);
        assert(lowers_ascii(s, low));
        assert(is_ascii_front(s, a));
        assert(low.take(a) == ascii_lowered(s.take(a)));
        assert(ascii_lowered(s.take(a)) =~= s.take(a));
    }
}

/// What stands before the extension of a name in the workspace.
spec fn ticket_front(label: Seq<char>, n: nat) -> Seq<char> {
    label + "-"@ + decimal(n)
}

proof fn lemma_ticket_front(label: Seq<char>, n: nat, ext: Option<Seq<char>>, fold_case: bool)
    requires
        is_label(label),
        is_known(ticket_name(label, n, ext), fold_case),
    ensures
        ({
            let front = ticket_front(label, n);
            let key = name_key(ticket_name(label, n, ext), fold_case);
            &&& begins_with(key, front)
            &&& key.len() == front.len() || key[front.len() as int] == '.'
            &&& front.len() == label.len() + 1 + decimal(n).len()
            &&& forall|i: int| 0 <= i < label.len() ==> #[trigger] front[i] == label[i]
            &&& front[label.len() as int] == '-'
            &&& forall|i: int|
                0 <= i < decimal(n).len() ==> front[#[trigger] (label.len() + 1 + i)] == decimal(
                    n,
                )[i]
        }),
{
    lemma_labels(label);
    lemma_decimal_digits(n);
    reveal_strlit("-");
    reveal_strlit(".");
    let front = ticket_front(label, n);
    let name = ticket_name(label, n, ext);
    assert forall|i: int| 0 <= i < front.len() implies (#[trigger] front[i]) as int <= 0x7f && !(
    'A' <= front[i] <= 'Z') by {
        if i < label.len() {
            assert(front[i] == label[i]);
        } else if i == label.len() {
            assert(front[i] == "-"@[0]);
        } else {
            assert(front[i] == decimal(n)[i - label.len() - 1]);
        }
    }
    match ext {
        None => {
            assert(name =~= front);
            lemma_front_kept(name, front.len() as int, fold_case);
            assert(name.take(front.len() as int) =~= front);
        },
        Some(e) => {
            assert(name =~= front + ("."@ + e));
            assert(name[front.len() as int] == "."@[0]);
            let a = front.len() as int + 1;
            assert forall|i: int| 0 <= i < a implies (#[trigger] name[i]) as int <= 0x7f && !('A'
                <= name[i] <= 'Z') by {
                if i < front.len() {
                    assert(name[i] == front[i]);
                }
            }
            lemma_front_kept(name, a, fold_case);
            let key = name_key(name, fold_case);
            assert(key.take(a)[front.len() as int] == name.take(a)[front.len() as int]);
            assert(key.take(front.len() as int) =~= key.take(a).take(front.len() as int));
            assert(name.take(a).take(front.len() as int) =~= front);
        },
    }
}

/// Names in the workspace that were given out under different numbers are different, and none is
/// the name of the notes.
proof fn lemma_ticket_names(
    l1: Seq<char>,
    n: nat,
    e1: Option<Seq<char>>,
    l2: Seq<char>,
    m: nat,
    e2: Option<Seq<char>>,
    fold_case: bool,
)
    requires
        is_label(l1),
        is_label(l2),
        is_known(ticket_name(l1, n, e1), fold_case),
        is_known(ticket_name(l2, m, e2), fold_case),
        name_key(ticket_name(l1, n, e1), fold_case) == name_key(ticket_name(l2, m, e2), fold_case),
    ensures
        n == m,
{
    lemma_labels(l1);
    lemma_labels(l2);
    lemma_decimal_digits(n);
    lemma_decimal_digits(m);
    lemma_ticket_front(l1, n, e1, fold_case);
    lemma_ticket_front(l2, m, e2, fold_case);
    let key = name_key(ticket_name(l1, n, e1), fold_case);
    let (f1, f2) = (ticket_front(l1, n), ticket_front(l2, m));
    assert(key.take(f1.len() as int)[0] == f1[0] && key.take(f2.len() as int)[0] == f2[0]);
    assert(l1[0] == l2[0]);
    assert(l1 == l2);
    let c = l1.len() as int;
    if f1.len() < f2.len() {
        assert(key.take(f2.len() as int)[f1.len() as int] == f2[f1.len() as int]);
        assert(f2[c + 1 + (f1.len() - c - 1)] == decimal(m)[f1.len() - c - 1]);
        assert(is_digit(decimal(m)[f1.len() - c - 1]));
    } else if f2.len() < f1.len() {
        assert(key.take(f1.len() as int)[f2.len() as int] == f1[f2.len() as int]);
        assert(f1[c + 1 + (f2.len() - c - 1)] == decimal(n)[f2.len() - c - 1]);
        assert(is_digit(decimal(n)[f2.len() - c - 1]));
    } else {
        assert(f1 == f2);
        assert forall|i: int| 0 <= i < decimal(n).len() implies decimal(n)[i] == decimal(m)[i] by {
            assert(f1[c + 1 + i] == decimal(n)[i]);
            assert(f2[c + 1 + i] == decimal(m)[i]);
        }
        assert(decimal(n) =~= decimal(m));
        lemma_decimal_injective(n, m);
    }
}

/// The key of a child is a child of the key.
proof fn lemma_child_key(p: PathView, name: Seq<char>, fold_case: bool)
    ensures
        p.child(name).key(fold_case) == p.key(fold_case).child(name_key(name, fold_case)),
        p.child(name).key(fold_case).within(p.key(fold_case)),
        p.child(name).key(fold_case) != p.key(fold_case),
{
    let (k, c) = (p.key(fold_case), p.child(name).key(fold_case));
    assert(c.parts =~= k.child(name_key(name, fold_case)).parts);
    assert(c.parts.take(k.parts.len() as int) =~= k.parts);
    assert(c.parts.len() == k.parts.len() + 1);
}

/// The key of a folder above a path stands above the key of the path.
pub proof fn lemma_prefix_key(p: PathView, n: int, w: PathView, fold_case: bool)
    requires
        0 <= n <= p.parts.len(),
        p.prefix(n).key(fold_case).within(w),
    ensures
        p.key(fold_case).within(w),
{
    let (k, c) = (p.key(fold_case), p.prefix(n).key(fold_case));
    assert(c.parts =~= k.parts.take(n));
    assert(k.parts.take(w.parts.len() as int) =~= c.parts.take(w.parts.len() as int));
}

/// Two paths in the workspace that were given out under different numbers lead to different files:
/// no backup ever stands in the way of another.
pub proof fn names_in_the_workspace_never_repeat(
    workspace: PathView,
    p: PathView,
    n: nat,
    q: PathView,
    m: nat,
    fold_case: bool,
)
    requires
        is_ticket(workspace, p, n),
        is_ticket(workspace, q, m),
        is_known_path(p, fold_case),
        is_known_path(q, fold_case),
        p.key(fold_case) == q.key(fold_case),
    ensures
        n == m,
{
    let (l1, e1) = choose|label: Seq<char>, ext: Option<Seq<char>>|
        is_label(label) && p == workspace.child(#[trigger] ticket_name(label, n, ext));
    let (l2, e2) = choose|label: Seq<char>, ext: Option<Seq<char>>|
        is_label(label) && q == workspace.child(#[trigger] ticket_name(label, m, ext));
    lemma_child_key(workspace, ticket_name(l1, n, e1), fold_case);
    lemma_child_key(workspace, ticket_name(l2, m, e2), fold_case);
    reveal(is_known_path);
    assert(p.parts.last() == ticket_name(l1, n, e1) && q.parts.last() == ticket_name(l2, m, e2));
    let w = workspace.key(fold_case);
    let (a, b) = (
        name_key(ticket_name(l1, n, e1), fold_case),
        name_key(ticket_name(l2, m, e2), fold_case),
    );
    assert(w.child(a).parts.last() == a && w.child(b).parts.last() == b);
    lemma_ticket_names(l1, n, e1, l2, m, e2, fold_case);
}

/// A path that was given out lies in the workspace and is neither the workspace itself nor the
/// notes.
proof fn lemma_ticket_place(workspace: PathView, p: PathView, n: nat, fold_case: bool)
    requires
        is_ticket(workspace, p, n),
        is_known_path(p, fold_case),
        is_known("recovery.txt"@, fold_case),
    ensures
        p.key(fold_case).within(workspace.key(fold_case)),
        p.key(fold_case) != workspace.key(fold_case),
        p.key(fold_case) != workspace.child("recovery.txt"@).key(fold_case),
{
    let (label, ext) = choose|label: Seq<char>, ext: Option<Seq<char>>|
        is_label(label) && p == workspace.child(#[trigger] ticket_name(label, n, ext));
    let name = ticket_name(label, n, ext);
    reveal(is_known_path);
    assert(p.parts.last() == name);
    lemma_child_key(workspace, name, fold_case);
    lemma_child_key(workspace, "recovery.txt"@, fold_case);
    lemma_labels(label);
    lemma_ticket_front(label, n, ext, fold_case);
    reveal_strlit("recovery.txt");
    let notes = "recovery.txt"@;
    lemma_front_kept(notes, 1, fold_case);
    let (a, b) = (name_key(name, fold_case), name_key(notes, fold_case));
    let front = ticket_front(label, n);
    assert(a.take(front.len() as int)[0] == front[0]);
    assert(b.take(1)[0] == notes.take(1)[0]);
    assert(a[0] == label[0] && b[0] == 'r');
    let w = workspace.key(fold_case);
    assert(w.child(a).parts.last() == a && w.child(b).parts.last() == b);
}


// ---------------------------------------------------------------------------
// What a job owes to the disk it found
// ---------------------------------------------------------------------------

/// What a journal says of the disk.
#[verifier::ext_equal]
pub struct Ledger {
    pub workspace: PathView,
    pub fold_case: bool,
    pub outputs: Seq<Entry>,
    pub temporary_files: Seq<PathView>,
    pub created_directories: Seq<PathView>,
    pub deferred_sources: Seq<PathView>,
    pub removed_sources: Seq<Removed>,
    pub sequence: nat,
}

/// The part of a journal that speaks of the disk.
pub open spec fn ledger(v: Journal) -> Ledger {
    Ledger {
        workspace: v.workspace,
        fold_case: v.fold_case,
        outputs: v.outputs,
        temporary_files: v.temporary_files,
        created_directories: v.created_directories,
        deferred_sources: v.deferred_sources,
        removed_sources: v.removed_sources,
        sequence: v.sequence,
    }
}

impl Ledger {
    pub open spec fn key(self, p: PathView) -> PathView {
        p.key(self.fold_case)
    }

    /// The workspace.
    pub open spec fn base(self) -> PathView {
        self.workspace.key(self.fold_case)
    }

    /// A path does not lie in the workspace.
    pub open spec fn outside(self, p: PathView) -> bool {
        !p.key(self.fold_case).within(self.base())
    }

    /// A path was given out in the workspace.
    pub open spec fn held(self, p: PathView) -> bool {
        &&& is_known_path(p, self.fold_case)
        &&& exists|n: nat| n <= self.sequence && #[trigger] is_ticket(self.workspace, p, n)
    }

    /// A file that stood in the way of a result is kept at this place.
    pub open spec fn has_original(self, k: PathView) -> bool {
        exists|i: int|
            0 <= i < self.outputs.len() && #[trigger] self.outputs[i].original is Some && self.key(
                self.outputs[i].original->0,
            ) == k
    }

    /// A source is kept at this place.
    pub open spec fn has_backup(self, k: PathView) -> bool {
        exists|j: int|
            0 <= j < self.removed_sources.len() && self.key(
                (#[trigger] self.removed_sources[j]).backup,
            ) == k
    }

    /// Something is kept at this place.
    pub open spec fn is_kept(self, k: PathView) -> bool {
        self.has_original(k) || self.has_backup(k)
    }

    /// A result has this place.
    pub open spec fn has_entry(self, k: PathView) -> bool {
        exists|i: int|
            0 <= i < self.outputs.len() && self.key((#[trigger] self.outputs[i]).destination) == k
    }

    /// A source was moved away from this place.
    pub open spec fn has_source(self, k: PathView) -> bool {
        exists|j: int|
            0 <= j < self.removed_sources.len() && self.key(
                (#[trigger] self.removed_sources[j]).source,
            ) == k
    }

    /// The job created a folder at this place.
    pub open spec fn has_folder(self, k: PathView) -> bool {
        exists|j: int|
            0 <= j < self.created_directories.len() && self.key(
                #[trigger] self.created_directories[j],
            ) == k
    }

    /// What stands at a place but for folders that the job created.
    pub open spec fn floor(self, d: Disk, k: PathView) -> Option<Node> {
        if self.has_folder(k) && look(d, k) == Some(Node::Folder) {
            None
        } else {
            look(d, k)
        }
    }

    /// What stood at the place of a result.
    pub open spec fn before(self, d: Disk, entry: Entry) -> Option<Node> {
        match entry.original {
            Some(kept) => look(d, self.key(kept)),
            None => if entry.published {
                None
            } else {
                self.floor(d, self.key(entry.destination))
            },
        }
    }

    /// Places are noted once, outside the workspace; what is kept lies in it, each at a place of
    /// its own and apart from the temporary files.
    pub open spec fn layout(self) -> bool {
        &&& is_known("recovery.txt"@, self.fold_case)
        &&& forall|i: int|
            0 <= i < self.outputs.len() ==> self.outside((#[trigger] self.outputs[i]).destination)
        &&& forall|i: int, j: int|
            0 <= i < j < self.outputs.len() ==> self.key((#[trigger] self.outputs[i]).destination)
                != self.key((#[trigger] self.outputs[j]).destination)
        &&& forall|i: int|
            0 <= i < self.outputs.len() && #[trigger] self.outputs[i].original is Some
                ==> self.held(self.outputs[i].original->0)
        &&& forall|i: int, j: int|
            0 <= i < j < self.outputs.len() && #[trigger] self.outputs[i].original is Some
                && #[trigger] self.outputs[j].original is Some ==> self.key(
                self.outputs[i].original->0,
            ) != self.key(self.outputs[j].original->0)
        &&& forall|i: int|
            0 <= i < self.removed_sources.len() ==> self.outside(
                (#[trigger] self.removed_sources[i]).source,
            ) && self.held(self.removed_sources[i].backup)
        &&& forall|i: int, j: int|
            0 <= i < j < self.removed_sources.len() ==> self.key(
                (#[trigger] self.removed_sources[i]).source,
            ) != self.key((#[trigger] self.removed_sources[j]).source) && self.key(
                self.removed_sources[i].backup,
            ) != self.key(self.removed_sources[j].backup)
        &&& forall|i: int, j: int|
            0 <= i < self.outputs.len() && 0 <= j < self.removed_sources.len()
                && #[trigger] self.outputs[i].original is Some ==> self.key(
                self.outputs[i].original->0,
            ) != self.key((#[trigger] self.removed_sources[j]).backup) && self.key(
                self.outputs[i].destination,
            ) != self.key(self.removed_sources[j].source)
        &&& forall|i: int|
            0 <= i < self.temporary_files.len() ==> self.held(#[trigger] self.temporary_files[i])
                && !self.is_kept(self.key(self.temporary_files[i]))
        &&& forall|i: int|
            0 <= i < self.created_directories.len() ==> self.outside(
                #[trigger] self.created_directories[i],
            )
        &&& forall|i: int|
            0 <= i < self.deferred_sources.len() ==> self.outside(
                #[trigger] self.deferred_sources[i],
            )
    }

    /// What is kept is there, results stand where they are noted, and from what is kept the disk
    /// can be put back as it was.
    pub open spec fn contents(self, d0: Disk, d: Disk) -> bool {
        &&& forall|i: int|
            0 <= i < self.outputs.len() && #[trigger] self.outputs[i].original is Some ==> look(
                d,
                self.key(self.outputs[i].original->0),
            ) is Some
        &&& forall|j: int|
            0 <= j < self.removed_sources.len() ==> look(
                d,
                self.key((#[trigger] self.removed_sources[j]).backup),
            ) is Some
        &&& forall|i: int|
            0 <= i < self.outputs.len() && (#[trigger] self.outputs[i]).published ==> is_file(
                look(d, self.key(self.outputs[i].destination)),
            )
        &&& forall|j: int|
            0 <= j < self.removed_sources.len() ==> look(
                d,
                self.key((#[trigger] self.removed_sources[j]).backup),
            ) == look(d0, self.key(self.removed_sources[j].source))
        &&& forall|i: int|
            0 <= i < self.outputs.len() && !self.has_source(
                self.key((#[trigger] self.outputs[i]).destination),
            ) ==> self.before(d, self.outputs[i]) == look(
                d0,
                self.key(self.outputs[i].destination),
            )
        &&& forall|k: PathView|
            !k.within(self.base()) && !self.has_source(k) && !self.has_entry(k) ==> self.floor(d, k)
                == #[trigger] look(d0, k)
        &&& forall|j: int|
            0 <= j < self.removed_sources.len() && !self.has_entry(
                self.key((#[trigger] self.removed_sources[j]).source),
            ) ==> !is_file(look(d, self.key(self.removed_sources[j].source)))
    }

    pub open spec fn sound(self, d0: Disk, d: Disk) -> bool {
        self.layout() && self.contents(d0, d)
    }

    // -- how it grows

    pub open spec fn counted(self, n: nat) -> Ledger {
        Ledger { sequence: n, ..self }
    }

    pub open spec fn with_temporary(self, p: PathView) -> Ledger {
        Ledger { temporary_files: self.temporary_files.push(p), ..self }
    }

    pub open spec fn with_deferred(self, p: PathView) -> Ledger {
        Ledger { deferred_sources: self.deferred_sources.push(p), ..self }
    }

    pub open spec fn with_folder(self, p: PathView) -> Ledger {
        Ledger { created_directories: self.created_directories.push(p), ..self }
    }

    pub open spec fn with_entry(self, destination: PathView, original: Option<PathView>) -> Ledger {
        Ledger {
            outputs: self.outputs.push(Entry { destination, original, published: false }),
            ..self
        }
    }

    pub open spec fn set_entry(self, i: int, original: Option<PathView>, published: bool) -> Ledger {
        Ledger {
            outputs: self.outputs.update(i, Entry { original, published, ..self.outputs[i] }),
            ..self
        }
    }

    pub open spec fn without_entry(self, i: int) -> Ledger {
        Ledger { outputs: self.outputs.remove(i), ..self }
    }

    pub open spec fn with_removed(self, source: PathView, backup: PathView) -> Ledger {
        Ledger { removed_sources: self.removed_sources.push(Removed { source, backup }), ..self }
    }

    pub open spec fn without_removed(self, j: int) -> Ledger {
        Ledger { removed_sources: self.removed_sources.remove(j), ..self }
    }
}

/// What is kept lies in the workspace.
pub proof fn lemma_held(c: Ledger, p: PathView)
    requires
        c.held(p),
        is_known("recovery.txt"@, c.fold_case),
    ensures
        c.key(p).within(c.base()),
        c.key(p) != c.base(),
        c.key(p) != c.key(c.workspace.child("recovery.txt"@)),
{
    let n = choose|n: nat| n <= c.sequence && #[trigger] is_ticket(c.workspace, p, n);
    lemma_ticket_place(c.workspace, p, n, c.fold_case);
}

/// A kept place lies in the workspace, and is neither the workspace itself nor the notes.
pub proof fn lemma_kept(c: Ledger, k: PathView)
    requires
        c.layout(),
        c.is_kept(k),
    ensures
        k.within(c.base()),
        k != c.base(),
        k != c.key(c.workspace.child("recovery.txt"@)),
{
    if c.has_original(k) {
        let i = choose|i: int|
            0 <= i < c.outputs.len() && #[trigger] c.outputs[i].original is Some && c.key(
                c.outputs[i].original->0,
            ) == k;
        lemma_held(c, c.outputs[i].original->0);
    } else {
        let j = choose|j: int|
            0 <= j < c.removed_sources.len() && c.key((#[trigger] c.removed_sources[j]).backup)
                == k;
        lemma_held(c, c.removed_sources[j].backup);
    }
}

/// A file in the workspace that is not kept may come, go or change.
proof fn lemma_inside(c: Ledger, d0: Disk, d: Disk, e: Disk, k: PathView)
    requires
        c.sound(d0, d),
        same_but(d, e, k),
        k.within(c.base()),
        !c.is_kept(k),
    ensures
        c.sound(d0, e),
{
    assert forall|i: int| 0 <= i < c.outputs.len() implies c.before(d, c.outputs[i]) == c.before(
        e,
        c.outputs[i],
    ) by {
        assert(c.outside(c.outputs[i].destination));
    }
    assert forall|j: int| 0 <= j < c.removed_sources.len() implies look(
        e,
        c.key((#[trigger] c.removed_sources[j]).source),
    ) == look(d, c.key(c.removed_sources[j].source)) by {
        assert(c.outside(c.removed_sources[j].source));
    }
}

/// A new name in the workspace is none of those that were given out before.
proof fn lemma_new_ticket(c: Ledger, p: PathView)
    requires
        c.layout(),
        is_ticket(c.workspace, p, c.sequence + 1),
        is_known_path(p, c.fold_case),
    ensures
        !c.is_kept(c.key(p)),
        forall|q: PathView| #[trigger] c.held(q) ==> c.key(q) != c.key(p),
{
    assert forall|q: PathView| #[trigger] c.held(q) implies c.key(q) != c.key(p) by {
        let n = choose|n: nat| n <= c.sequence && #[trigger] is_ticket(c.workspace, q, n);
        if c.key(q) == c.key(p) {
            names_in_the_workspace_never_repeat(c.workspace, q, n, p, c.sequence + 1, c.fold_case);
        }
    }
    assert forall|i: int|
        0 <= i < c.outputs.len() && #[trigger] c.outputs[i].original is Some implies c.key(
        c.outputs[i].original->0,
    ) != c.key(p) by {
        assert(c.held(c.outputs[i].original->0));
    }
    assert forall|j: int| 0 <= j < c.removed_sources.len() implies c.key(
        (#[trigger] c.removed_sources[j]).backup,
    ) != c.key(p) by {
        assert(c.held(c.removed_sources[j].backup));
    }
}

/// More names may be given out.
proof fn lemma_count(c: Ledger, n: nat, d0: Disk, d: Disk)
    requires
        c.sound(d0, d),
        c.sequence <= n,
    ensures
        c.counted(n).sound(d0, d),
        forall|p: PathView| #[trigger] c.held(p) ==> c.counted(n).held(p),
{
    let b = c.counted(n);
    lemma_still_held(c, b);
    lemma_same_places(c, b);
    lemma_same_folders(c, b);
    assert(b.layout());
    assert(b.contents(d0, d));
}

/// Ledgers that agree on results and sources agree on what is where.
proof fn lemma_same_places(a: Ledger, b: Ledger)
    requires
        a.fold_case == b.fold_case,
        a.outputs == b.outputs,
        a.removed_sources == b.removed_sources,
    ensures
        forall|k: PathView| #[trigger] b.is_kept(k) == a.is_kept(k),
        forall|k: PathView| #[trigger] b.has_entry(k) == a.has_entry(k),
        forall|k: PathView| #[trigger] b.has_source(k) == a.has_source(k),
{
}

/// Ledgers that agree on folders agree on what stood where.
proof fn lemma_same_folders(a: Ledger, b: Ledger)
    requires
        a.fold_case == b.fold_case,
        a.created_directories == b.created_directories,
    ensures
        forall|k: PathView| #[trigger] b.has_folder(k) == a.has_folder(k),
        forall|d: Disk, k: PathView| #[trigger] b.floor(d, k) == a.floor(d, k),
        forall|d: Disk, entry: Entry| #[trigger] b.before(d, entry) == a.before(d, entry),
{
}

/// What was given out stays given out.
proof fn lemma_still_held(a: Ledger, b: Ledger)
    requires
        a.workspace == b.workspace,
        a.fold_case == b.fold_case,
        a.sequence <= b.sequence,
    ensures
        forall|p: PathView| #[trigger] a.held(p) ==> b.held(p),
{
    assert forall|p: PathView| #[trigger] a.held(p) implies b.held(p) by {
        let n = choose|n: nat| n <= a.sequence && #[trigger] is_ticket(a.workspace, p, n);
        assert(n <= b.sequence && is_ticket(b.workspace, p, n));
    }
}

/// A new temporary file.
proof fn lemma_temporary(c: Ledger, p: PathView, d0: Disk, d: Disk)
    requires
        c.sound(d0, d),
        is_ticket(c.workspace, p, c.sequence + 1),
        is_known_path(p, c.fold_case),
    ensures
        c.counted(c.sequence + 1).with_temporary(p).sound(d0, d),
{
    let a = c.counted(c.sequence + 1);
    let b = a.with_temporary(p);
    lemma_count(c, c.sequence + 1, d0, d);
    lemma_new_ticket(c, p);
    lemma_same_places(c, b);
    lemma_same_folders(c, b);
    lemma_still_held(a, b);
    assert(is_ticket(b.workspace, p, b.sequence));
    assert(b.held(p));
    assert forall|i: int| 0 <= i < b.temporary_files.len() implies b.held(
        #[trigger] b.temporary_files[i],
    ) && !b.is_kept(b.key(b.temporary_files[i])) by {
        if i < c.temporary_files.len() {
            assert(a.held(a.temporary_files[i]));
        }
    }
    assert(b.layout());
    assert(b.contents(d0, d));
}

/// One more source to remove later.
proof fn lemma_deferred(c: Ledger, p: PathView)
    requires
        c.layout(),
        c.outside(p),
    ensures
        c.with_deferred(p).layout(),
        forall|k: PathView| #[trigger] c.with_deferred(p).has_entry(k) == c.has_entry(k),
        forall|d0: Disk, d: Disk| #[trigger]
            c.contents(d0, d) ==> c.with_deferred(p).contents(d0, d),
{
    let b = c.with_deferred(p);
    lemma_same_places(c, b);
    lemma_same_folders(c, b);
    lemma_still_held(c, b);
    assert(b.layout());
}

/// A folder was created.
proof fn lemma_folder(c: Ledger, p: PathView, d0: Disk, d: Disk, e: Disk)
    requires
        c.sound(d0, d),
        c.outside(p),
        look(d, c.key(p)) is None,
        look(e, c.key(p)) == Some(Node::Folder),
        same_but(d, e, c.key(p)),
    ensures
        c.with_folder(p).sound(d0, e),
{
    let b = c.with_folder(p);
    let k = c.key(p);
    lemma_same_places(c, b);
    lemma_still_held(c, b);
    assert forall|q: PathView| #[trigger] c.held(q) implies c.key(q) != k by {
        lemma_held(c, q);
    }
    assert forall|q: PathView| #[trigger] b.has_folder(q) == (c.has_folder(q) || q == k) by {
        if c.has_folder(q) {
            let j = choose|j: int|
                0 <= j < c.created_directories.len() && c.key(#[trigger] c.created_directories[j])
                    == q;
            assert(b.created_directories[j] == c.created_directories[j]);
        }
        if q == k {
            assert(b.created_directories[c.created_directories.len() as int] == p);
        }
    }
    assert forall|q: PathView| #[trigger] b.floor(e, q) == c.floor(d, q) by {}
    assert forall|i: int| 0 <= i < c.outputs.len() implies b.before(e, #[trigger] c.outputs[i])
        == c.before(d, c.outputs[i]) by {}
    assert(b.layout());
    assert(b.contents(d0, e));
}

/// A folder that the job created was removed.
proof fn lemma_folder_removed(c: Ledger, k: PathView, d0: Disk, d: Disk, e: Disk)
    requires
        c.sound(d0, d),
        c.has_folder(k),
        !k.within(c.base()),
        look(d, k) == Some(Node::Folder),
        look(e, k) is None,
        same_but(d, e, k),
    ensures
        c.sound(d0, e),
{
    assert forall|q: PathView| #[trigger] c.held(q) implies c.key(q) != k by {
        lemma_held(c, q);
    }
    assert forall|q: PathView| #[trigger] c.floor(e, q) == c.floor(d, q) by {}
    assert forall|i: int| 0 <= i < c.outputs.len() implies c.before(e, #[trigger] c.outputs[i])
        == c.before(d, c.outputs[i]) by {}
    assert(c.contents(d0, e));
}

/// Whether a result is published does not change what is where.
proof fn lemma_mark_places(c: Ledger, i: int, published: bool)
    requires
        0 <= i < c.outputs.len(),
    ensures
        ({
            let b = c.set_entry(i, c.outputs[i].original, published);
            &&& forall|k: PathView| #[trigger] b.is_kept(k) == c.is_kept(k)
            &&& forall|k: PathView| #[trigger] b.has_entry(k) == c.has_entry(k)
            &&& forall|k: PathView| #[trigger] b.has_source(k) == c.has_source(k)
        }),
{
    let b = c.set_entry(i, c.outputs[i].original, published);
    assert forall|k: PathView| #[trigger] b.is_kept(k) == c.is_kept(k) by {
        assert(b.removed_sources == c.removed_sources && b.fold_case == c.fold_case);
        assert(b.has_backup(k) == c.has_backup(k));
        if b.has_original(k) {
            let n = choose|n: int|
                0 <= n < b.outputs.len() && #[trigger] b.outputs[n].original is Some && b.key(
                    b.outputs[n].original->0,
                ) == k;
            assert(c.outputs[n].original is Some);
        }
        if c.has_original(k) {
            let n = choose|n: int|
                0 <= n < c.outputs.len() && #[trigger] c.outputs[n].original is Some && c.key(
                    c.outputs[n].original->0,
                ) == k;
            assert(b.outputs[n].original is Some);
        }
    }
    lemma_entry_places(c, b);
}

/// Ledgers whose results have the same places.
proof fn lemma_entry_places(c: Ledger, b: Ledger)
    requires
        c.fold_case == b.fold_case,
        c.outputs.len() == b.outputs.len(),
        c.removed_sources == b.removed_sources,
        forall|i: int|
            0 <= i < c.outputs.len() ==> (#[trigger] b.outputs[i]).destination
                == c.outputs[i].destination,
    ensures
        forall|k: PathView| #[trigger] b.has_entry(k) == c.has_entry(k),
        forall|k: PathView| #[trigger] b.has_source(k) == c.has_source(k),
{
    assert forall|k: PathView| #[trigger] b.has_entry(k) == c.has_entry(k) by {
        if c.has_entry(k) {
            let i = choose|i: int|
                0 <= i < c.outputs.len() && c.key((#[trigger] c.outputs[i]).destination) == k;
            assert(b.outputs[i].destination == c.outputs[i].destination);
        }
    }
}

/// A published result is gone from its place.
proof fn lemma_vanish(c: Ledger, i: int, x: PathView, d0: Disk, d: Disk, e: Disk)
    requires
        c.sound(d0, d),
        0 <= i < c.outputs.len(),
        c.outputs[i].published,
        look(e, c.key(c.outputs[i].destination)) is None,
        forall|k: PathView|
            k != c.key(c.outputs[i].destination) && k != x ==> #[trigger] look(e, k) == look(d, k),
        x.within(c.base()),
        !c.is_kept(x),
    ensures
        c.set_entry(i, c.outputs[i].original, false).sound(d0, e),
{
    let b = c.set_entry(i, c.outputs[i].original, false);
    let k = c.key(c.outputs[i].destination);
    lemma_mark_places(c, i, false);
    lemma_same_folders(c, b);
    lemma_still_held(c, b);
    assert forall|q: PathView| #[trigger] c.held(q) implies c.key(q) != k by {
        lemma_held(c, q);
        assert(c.outside(c.outputs[i].destination));
    }
    assert forall|n: int| 0 <= n < c.outputs.len() implies c.key(
        (#[trigger] c.outputs[n]).destination,
    ) != x by {
        assert(c.outside(c.outputs[n].destination));
    }
    assert forall|n: int| 0 <= n < b.outputs.len() implies b.before(e, #[trigger] b.outputs[n])
        == c.before(d, c.outputs[n]) by {
        assert(c.outside(c.outputs[n].destination));
    }
    assert(b.layout());
    assert(b.contents(d0, e));
}

/// A result came to its place.
proof fn lemma_appear(c: Ledger, i: int, x: PathView, d0: Disk, d: Disk, e: Disk)
    requires
        c.sound(d0, d),
        0 <= i < c.outputs.len(),
        !c.outputs[i].published,
        c.outputs[i].original is None ==> c.floor(d, c.key(c.outputs[i].destination)) is None,
        is_file(look(e, c.key(c.outputs[i].destination))),
        forall|k: PathView|
            k != c.key(c.outputs[i].destination) && k != x ==> #[trigger] look(e, k) == look(d, k),
        x.within(c.base()),
        !c.is_kept(x),
    ensures
        c.set_entry(i, c.outputs[i].original, true).sound(d0, e),
{
    let b = c.set_entry(i, c.outputs[i].original, true);
    let k = c.key(c.outputs[i].destination);
    lemma_mark_places(c, i, true);
    lemma_same_folders(c, b);
    lemma_still_held(c, b);
    assert forall|q: PathView| #[trigger] c.held(q) implies c.key(q) != k by {
        lemma_held(c, q);
        assert(c.outside(c.outputs[i].destination));
    }
    assert forall|n: int| 0 <= n < b.outputs.len() implies b.before(e, #[trigger] b.outputs[n])
        == c.before(d, c.outputs[n]) by {
        assert(c.outside(c.outputs[n].destination));
    }
    assert(b.has_entry(k)) by {
        assert(b.outputs[i].destination == c.outputs[i].destination);
    }
    assert(b.layout());
    assert(b.contents(d0, e));
}

/// A result is noted at a place of its own.
proof fn lemma_entry_added(c: Ledger, p: PathView, original: Option<PathView>)
    ensures
        ({
            let b = c.with_entry(p, original);
            &&& forall|k: PathView| #[trigger] b.has_entry(k) == (c.has_entry(k) || k == c.key(p))
            &&& forall|k: PathView| #[trigger] b.has_source(k) == c.has_source(k)
            &&& forall|k: PathView| #[trigger]
                b.is_kept(k) == (c.is_kept(k) || original is Some && k == c.key(original->0))
        }),
{
    let b = c.with_entry(p, original);
    let last = c.outputs.len() as int;
    assert(b.outputs[last] == (Entry { destination: p, original, published: false }));
    assert forall|k: PathView| #[trigger] b.has_entry(k) == (c.has_entry(k) || k == c.key(p)) by {
        if c.has_entry(k) {
            let i = choose|i: int|
                0 <= i < c.outputs.len() && c.key((#[trigger] c.outputs[i]).destination) == k;
            assert(b.outputs[i] == c.outputs[i]);
        }
    }
    assert forall|k: PathView| #[trigger]
        b.is_kept(k) == (c.is_kept(k) || original is Some && k == c.key(original->0)) by {
        assert(b.removed_sources == c.removed_sources && b.fold_case == c.fold_case);
        assert(b.has_backup(k) == c.has_backup(k));
        if c.has_original(k) {
            let n = choose|n: int|
                0 <= n < c.outputs.len() && #[trigger] c.outputs[n].original is Some && c.key(
                    c.outputs[n].original->0,
                ) == k;
            assert(b.outputs[n].original is Some);
        }
        if original is Some && k == c.key(original->0) {
            assert(b.outputs[last].original is Some);
        }
    }
}

proof fn lemma_new_entry(c: Ledger, p: PathView, d0: Disk, d: Disk)
    requires
        c.sound(d0, d),
        c.outside(p),
        !c.has_entry(c.key(p)),
    ensures
        c.with_entry(p, None).sound(d0, d),
{
    let b = c.with_entry(p, None);
    lemma_entry_added(c, p, None);
    lemma_same_folders(c, b);
    lemma_still_held(c, b);
    assert(b.layout());
    assert forall|n: int|
        0 <= n < b.outputs.len() && !b.has_source(
            b.key((#[trigger] b.outputs[n]).destination),
        ) implies b.before(d, b.outputs[n]) == look(d0, b.key(b.outputs[n].destination)) by {
        if n < c.outputs.len() {
            assert(b.outputs[n] == c.outputs[n]);
        } else {
            assert(c.floor(d, c.key(p)) == look(d0, c.key(p)));
        }
    }
    assert(b.contents(d0, d));
}

/// The file at a place is kept, and a result is noted for the place.
proof fn lemma_keep(c: Ledger, p: PathView, kept: PathView, d0: Disk, d: Disk, e: Disk)
    requires
        c.sound(d0, d),
        c.outside(p),
        !c.has_entry(c.key(p)),
        is_file(look(d, c.key(p))),
        c.held(kept),
        !c.is_kept(c.key(kept)),
        forall|t: int|
            0 <= t < c.temporary_files.len() ==> c.key(#[trigger] c.temporary_files[t]) != c.key(
                kept,
            ),
        moved(d, e, c.key(p), c.key(kept)),
    ensures
        c.with_entry(p, Some(kept)).sound(d0, e),
{
    let b = c.with_entry(p, Some(kept));
    let (k, x) = (c.key(p), c.key(kept));
    lemma_entry_added(c, p, Some(kept));
    lemma_same_folders(c, b);
    lemma_still_held(c, b);
    lemma_held(c, kept);
    assert(!c.has_source(k));
    assert forall|q: PathView| #[trigger] c.held(q) implies c.key(q) != k by {
        lemma_held(c, q);
    }
    assert(b.layout()) by {
        assert forall|i: int|
            0 <= i < c.outputs.len() && #[trigger] c.outputs[i].original is Some implies c.key(
            c.outputs[i].original->0,
        ) != x by {
            assert(c.is_kept(c.key(c.outputs[i].original->0)));
        }
        assert forall|j: int| 0 <= j < c.removed_sources.len() implies c.key(
            (#[trigger] c.removed_sources[j]).backup,
        ) != x by {
            assert(c.is_kept(c.key(c.removed_sources[j].backup)));
        }
        assert forall|j: int| 0 <= j < c.removed_sources.len() implies c.key(
            (#[trigger] c.removed_sources[j]).source,
        ) != k by {
            assert(c.has_source(c.key(c.removed_sources[j].source)));
        }
        assert forall|i: int| 0 <= i < c.outputs.len() implies c.key(
            (#[trigger] c.outputs[i]).destination,
        ) != k by {
            assert(c.has_entry(c.key(c.outputs[i].destination)));
        }
    }
    assert forall|n: int| 0 <= n < c.outputs.len() implies b.before(e, #[trigger] b.outputs[n])
        == c.before(d, c.outputs[n]) by {
        assert(c.outside(c.outputs[n].destination));
        assert(c.has_entry(c.key(c.outputs[n].destination)));
        if c.outputs[n].original is Some {
            assert(c.is_kept(c.key(c.outputs[n].original->0)));
        }
    }
    assert(c.floor(d, k) == look(d0, k));
    assert forall|j: int| 0 <= j < c.removed_sources.len() implies look(
        e,
        c.key((#[trigger] c.removed_sources[j]).backup),
    ) == look(d, c.key(c.removed_sources[j].backup)) && look(
        e,
        c.key(c.removed_sources[j].source),
    ) == look(d, c.key(c.removed_sources[j].source)) by {
        assert(c.is_kept(c.key(c.removed_sources[j].backup)));
        assert(c.has_source(c.key(c.removed_sources[j].source)));
        assert(c.outside(c.removed_sources[j].source));
    }
    assert(b.contents(d0, e));
}

/// A note of a result is taken back.
proof fn lemma_entry_removed(c: Ledger, i: int)
    requires
        c.layout(),
        0 <= i < c.outputs.len(),
    ensures
        ({
            let b = c.without_entry(i);
            &&& b.layout()
            &&& forall|k: PathView| #[trigger]
                b.has_entry(k) == (c.has_entry(k) && k != c.key(c.outputs[i].destination))
            &&& forall|k: PathView| #[trigger] b.has_source(k) == c.has_source(k)
            &&& forall|n: int|
                0 <= n < b.outputs.len() ==> #[trigger] b.outputs[n] == (if n < i {
                    c.outputs[n]
                } else {
                    c.outputs[n + 1]
                })
        }),
{
    let b = c.without_entry(i);
    let gone = c.key(c.outputs[i].destination);
    assert(b.removed_sources == c.removed_sources && b.fold_case == c.fold_case);
    assert forall|n: int| 0 <= n < b.outputs.len() implies #[trigger] b.outputs[n] == (if n < i {
        c.outputs[n]
    } else {
        c.outputs[n + 1]
    }) by {}
    assert forall|k: PathView| #[trigger]
        b.has_entry(k) == (c.has_entry(k) && k != gone) by {
        if b.has_entry(k) {
            let n = choose|n: int|
                0 <= n < b.outputs.len() && b.key((#[trigger] b.outputs[n]).destination) == k;
            let m = if n < i {
                n
            } else {
                n + 1
            };
            assert(c.key(c.outputs[m].destination) == k);
        }
        if c.has_entry(k) && k != gone {
            let m = choose|m: int|
                0 <= m < c.outputs.len() && c.key((#[trigger] c.outputs[m]).destination) == k;
            let n = if m < i {
                m
            } else {
                m - 1
            };
            assert(b.outputs[n] == c.outputs[m]);
        }
    }
    assert forall|k: PathView| #[trigger] b.is_kept(k) implies c.is_kept(k) by {
        if b.has_original(k) {
            let n = choose|n: int|
                0 <= n < b.outputs.len() && #[trigger] b.outputs[n].original is Some && b.key(
                    b.outputs[n].original->0,
                ) == k;
            let m = if n < i {
                n
            } else {
                n + 1
            };
            assert(c.outputs[m].original is Some);
        }
    }
    lemma_still_held(c, b);
    assert(b.layout());
}

/// A result that never came, at a place where nothing stood, is forgotten.
proof fn lemma_drop_empty(c: Ledger, i: int, d0: Disk, d: Disk)
    requires
        c.sound(d0, d),
        0 <= i < c.outputs.len(),
        c.outputs[i].original is None,
        !c.outputs[i].published,
        look(d, c.key(c.outputs[i].destination)) is None,
    ensures
        c.without_entry(i).sound(d0, d),
{
    let b = c.without_entry(i);
    lemma_entry_removed(c, i);
    lemma_same_folders(c, b);
    assert(b.contents(d0, d));
}

/// A result that never came is forgotten once the file that stood at its place is back.
proof fn lemma_drop_restored(c: Ledger, i: int, d0: Disk, d: Disk, e: Disk)
    requires
        c.sound(d0, d),
        0 <= i < c.outputs.len(),
        c.outputs[i].original is Some,
        moved(d, e, c.key(c.outputs[i].original->0), c.key(c.outputs[i].destination)),
    ensures
        c.without_entry(i).sound(d0, e),
{
    let b = c.without_entry(i);
    let (x, k) = (c.key(c.outputs[i].original->0), c.key(c.outputs[i].destination));
    lemma_entry_removed(c, i);
    lemma_same_folders(c, b);
    lemma_moved_back(c, i, d0, d, e);
    assert forall|n: int| 0 <= n < b.outputs.len() implies b.before(e, #[trigger] b.outputs[n])
        == c.before(d, b.outputs[n]) by {
        let m = if n < i {
            n
        } else {
            n + 1
        };
        assert(b.outputs[n] == c.outputs[m]);
    }
    assert forall|q: PathView|
        !q.within(b.base()) && !b.has_source(q) && !b.has_entry(q) implies b.floor(e, q)
        == #[trigger] look(d0, q) by {
        if q == k {
            assert(c.before(d, c.outputs[i]) == look(d0, k));
        } else {
            assert(c.floor(d, q) == look(d0, q));
        }
    }
    assert(b.contents(d0, e));
}

/// A kept file moved back to its place: nothing else changed that matters.
proof fn lemma_moved_back(c: Ledger, i: int, d0: Disk, d: Disk, e: Disk)
    requires
        c.sound(d0, d),
        0 <= i < c.outputs.len(),
        c.outputs[i].original is Some,
        moved(d, e, c.key(c.outputs[i].original->0), c.key(c.outputs[i].destination)),
    ensures
        c.key(c.outputs[i].original->0).within(c.base()),
        c.key(c.outputs[i].original->0) != c.key(c.outputs[i].destination),
        !c.has_source(c.key(c.outputs[i].destination)),
        forall|n: int|
            0 <= n < c.outputs.len() && n != i ==> {
                &&& c.before(e, #[trigger] c.outputs[n]) == c.before(d, c.outputs[n])
                &&& look(e, c.key(c.outputs[n].destination)) == look(
                    d,
                    c.key(c.outputs[n].destination),
                )
                &&& c.outputs[n].original is Some ==> look(e, c.key(c.outputs[n].original->0))
                    == look(d, c.key(c.outputs[n].original->0))
            },
        forall|j: int|
            0 <= j < c.removed_sources.len() ==> {
                &&& look(e, c.key((#[trigger] c.removed_sources[j]).backup)) == look(
                    d,
                    c.key(c.removed_sources[j].backup),
                )
                &&& look(e, c.key(c.removed_sources[j].source)) == look(
                    d,
                    c.key(c.removed_sources[j].source),
                )
            },
        forall|q: PathView|
            !q.within(c.base()) && q != c.key(c.outputs[i].destination) ==> #[trigger] look(e, q)
                == look(d, q),
{
    let (x, k) = (c.key(c.outputs[i].original->0), c.key(c.outputs[i].destination));
    lemma_held(c, c.outputs[i].original->0);
    assert(c.outside(c.outputs[i].destination));
    assert forall|j: int| 0 <= j < c.removed_sources.len() implies c.key(
        (#[trigger] c.removed_sources[j]).source,
    ) != k && c.key(c.removed_sources[j].source) != x && c.key(c.removed_sources[j].backup) != x
        && c.key(c.removed_sources[j].backup) != k by {
        assert(c.outside(c.removed_sources[j].source));
        lemma_held(c, c.removed_sources[j].backup);
        assert(c.outputs[i].original is Some);
    }
    assert(!c.has_source(k));
    assert forall|n: int| 0 <= n < c.outputs.len() && n != i implies {
        &&& c.before(e, #[trigger] c.outputs[n]) == c.before(d, c.outputs[n])
        &&& look(e, c.key(c.outputs[n].destination)) == look(d, c.key(c.outputs[n].destination))
        &&& c.outputs[n].original is Some ==> look(e, c.key(c.outputs[n].original->0)) == look(
            d,
            c.key(c.outputs[n].original->0),
        )
    } by {
        assert(c.outside(c.outputs[n].destination));
        assert(c.key(c.outputs[n].destination) != k) by {
            if n < i {
                assert(c.key(c.outputs[n].destination) != c.key(c.outputs[i].destination));
            } else {
                assert(c.key(c.outputs[i].destination) != c.key(c.outputs[n].destination));
            }
        }
        if c.outputs[n].original is Some {
            lemma_held(c, c.outputs[n].original->0);
            assert(c.outputs[i].original is Some);
        }
    }
}

/// A kept file moved back, and the result is noted as withdrawn.
proof fn lemma_put_back(c: Ledger, i: int, d0: Disk, d: Disk, e: Disk)
    requires
        c.sound(d0, d),
        0 <= i < c.outputs.len(),
        c.outputs[i].original is Some,
        !c.outputs[i].published,
        moved(d, e, c.key(c.outputs[i].original->0), c.key(c.outputs[i].destination)),
    ensures
        c.set_entry(i, None, false).sound(d0, e),
{
    let b = c.set_entry(i, None, false);
    let k = c.key(c.outputs[i].destination);
    lemma_moved_back(c, i, d0, d, e);
    lemma_entry_places(c, b);
    lemma_same_folders(c, b);
    lemma_still_held(c, b);
    assert(b.removed_sources == c.removed_sources && b.fold_case == c.fold_case);
    assert forall|q: PathView| #[trigger] b.is_kept(q) implies c.is_kept(q) by {
        if b.has_original(q) {
            let n = choose|n: int|
                0 <= n < b.outputs.len() && #[trigger] b.outputs[n].original is Some && b.key(
                    b.outputs[n].original->0,
                ) == q;
            assert(c.outputs[n].original is Some);
        }
    }
    assert(b.layout());
    assert forall|n: int|
        0 <= n < b.outputs.len() && !b.has_source(
            b.key((#[trigger] b.outputs[n]).destination),
        ) implies b.before(e, b.outputs[n]) == look(d0, b.key(b.outputs[n].destination)) by {
        if n == i {
            assert(c.before(d, c.outputs[i]) == look(d0, k));
        } else {
            assert(b.outputs[n] == c.outputs[n]);
        }
    }
    assert(c.has_entry(k)) by {
        assert(c.key(c.outputs[i].destination) == k);
    }
    assert(b.contents(d0, e));
}

/// A source was moved to where it is kept.
proof fn lemma_source_moved(
    c: Ledger,
    source: PathView,
    kept: PathView,
    d0: Disk,
    d: Disk,
    e: Disk,
)
    requires
        c.sound(d0, d),
        c.outside(source),
        !c.has_entry(c.key(source)),
        !c.has_source(c.key(source)),
        c.held(kept),
        !c.is_kept(c.key(kept)),
        forall|t: int|
            0 <= t < c.temporary_files.len() ==> c.key(#[trigger] c.temporary_files[t]) != c.key(
                kept,
            ),
        moved(d, e, c.key(source), c.key(kept)),
    ensures
        c.with_removed(source, kept).sound(d0, e),
{
    let b = c.with_removed(source, kept);
    let (k, x) = (c.key(source), c.key(kept));
    let last = c.removed_sources.len() as int;
    lemma_held(c, kept);
    lemma_same_folders(c, b);
    lemma_still_held(c, b);
    assert(b.removed_sources[last] == (Removed { source, backup: kept }));
    assert(b.outputs == c.outputs && b.fold_case == c.fold_case);
    assert forall|q: PathView| #[trigger] b.has_source(q) == (c.has_source(q) || q == k) by {
        if c.has_source(q) {
            let j = choose|j: int|
                0 <= j < c.removed_sources.len() && c.key((#[trigger] c.removed_sources[j]).source)
                    == q;
            assert(b.removed_sources[j] == c.removed_sources[j]);
        }
    }
    assert forall|q: PathView| #[trigger] b.is_kept(q) implies c.is_kept(q) || q == x by {
        if b.has_backup(q) && q != x {
            let j = choose|j: int|
                0 <= j < b.removed_sources.len() && b.key((#[trigger] b.removed_sources[j]).backup)
                    == q;
            assert(c.removed_sources[j] == b.removed_sources[j]);
        }
    }
    assert forall|q: PathView| #[trigger] b.has_entry(q) == c.has_entry(q) by {}
    assert forall|n: int| 0 <= n < c.outputs.len() implies {
        &&& c.before(e, #[trigger] c.outputs[n]) == c.before(d, c.outputs[n])
        &&& c.key(c.outputs[n].destination) != k
        &&& look(e, c.key(c.outputs[n].destination)) == look(d, c.key(c.outputs[n].destination))
        &&& c.outputs[n].original is Some ==> look(e, c.key(c.outputs[n].original->0)) == look(
            d,
            c.key(c.outputs[n].original->0),
        ) && c.key(c.outputs[n].original->0) != x
    } by {
        assert(c.outside(c.outputs[n].destination));
        assert(c.has_entry(c.key(c.outputs[n].destination)));
        if c.outputs[n].original is Some {
            lemma_held(c, c.outputs[n].original->0);
            assert(c.has_original(c.key(c.outputs[n].original->0)));
        }
    }
    assert forall|j: int| 0 <= j < c.removed_sources.len() implies {
        &&& look(e, c.key((#[trigger] c.removed_sources[j]).backup)) == look(
            d,
            c.key(c.removed_sources[j].backup),
        )
        &&& look(e, c.key(c.removed_sources[j].source)) == look(
            d,
            c.key(c.removed_sources[j].source),
        )
        &&& c.key(c.removed_sources[j].backup) != x
        &&& c.key(c.removed_sources[j].source) != k
    } by {
        assert(c.outside(c.removed_sources[j].source));
        lemma_held(c, c.removed_sources[j].backup);
        assert(c.has_backup(c.key(c.removed_sources[j].backup)));
        assert(c.has_source(c.key(c.removed_sources[j].source)));
    }
    assert(b.layout());
    assert(c.floor(d, k) == look(d0, k));
    assert(b.contents(d0, e));
}

/// A source was moved back.
proof fn lemma_source_returned(c: Ledger, j: int, d0: Disk, d: Disk, e: Disk)
    requires
        c.sound(d0, d),
        0 <= j < c.removed_sources.len(),
        !is_file(look(d, c.key(c.removed_sources[j].source))),
        moved(d, e, c.key(c.removed_sources[j].backup), c.key(c.removed_sources[j].source)),
    ensures
        c.without_removed(j).sound(d0, e),
{
    let b = c.without_removed(j);
    let (x, k) = (c.key(c.removed_sources[j].backup), c.key(c.removed_sources[j].source));
    lemma_held(c, c.removed_sources[j].backup);
    assert(c.outside(c.removed_sources[j].source));
    lemma_same_folders(c, b);
    lemma_still_held(c, b);
    assert(b.outputs == c.outputs && b.fold_case == c.fold_case);
    assert forall|n: int| 0 <= n < b.removed_sources.len() implies #[trigger] b.removed_sources[n]
        == (if n < j {
        c.removed_sources[n]
    } else {
        c.removed_sources[n + 1]
    }) by {}
    assert forall|q: PathView| #[trigger] b.has_source(q) == (c.has_source(q) && q != k) by {
        if b.has_source(q) {
            let n = choose|n: int|
                0 <= n < b.removed_sources.len() && b.key((#[trigger] b.removed_sources[n]).source)
                    == q;
            let m = if n < j {
                n
            } else {
                n + 1
            };
            assert(c.key(c.removed_sources[m].source) == q);
        }
        if c.has_source(q) && q != k {
            let m = choose|m: int|
                0 <= m < c.removed_sources.len() && c.key((#[trigger] c.removed_sources[m]).source)
                    == q;
            let n = if m < j {
                m
            } else {
                m - 1
            };
            assert(b.removed_sources[n] == c.removed_sources[m]);
        }
    }
    assert forall|q: PathView| #[trigger] b.is_kept(q) implies c.is_kept(q) by {
        if b.has_backup(q) {
            let n = choose|n: int|
                0 <= n < b.removed_sources.len() && b.key((#[trigger] b.removed_sources[n]).backup)
                    == q;
            let m = if n < j {
                n
            } else {
                n + 1
            };
            assert(c.key(c.removed_sources[m].backup) == q);
        }
    }
    assert forall|q: PathView| #[trigger] b.has_entry(q) == c.has_entry(q) by {}
    assert forall|m: int| 0 <= m < c.removed_sources.len() && m != j implies {
        &&& look(e, c.key((#[trigger] c.removed_sources[m]).backup)) == look(
            d,
            c.key(c.removed_sources[m].backup),
        )
        &&& look(e, c.key(c.removed_sources[m].source)) == look(
            d,
            c.key(c.removed_sources[m].source),
        )
    } by {
        assert(c.outside(c.removed_sources[m].source));
        lemma_held(c, c.removed_sources[m].backup);
        assert(c.key(c.removed_sources[m].source) != k && c.key(c.removed_sources[m].backup) != x)
            by {
            if m < j {
                assert(c.key(c.removed_sources[m].source) != c.key(c.removed_sources[j].source));
            } else {
                assert(c.key(c.removed_sources[j].source) != c.key(c.removed_sources[m].source));
            }
        }
    }
    assert(b.layout());
    assert forall|n: int| 0 <= n < c.outputs.len() implies {
        &&& c.outputs[n].original is Some ==> look(e, c.key(c.outputs[n].original->0)) == look(
            d,
            c.key(c.outputs[n].original->0),
        )
        &&& c.key((#[trigger] c.outputs[n]).destination) != k ==> c.before(e, c.outputs[n])
            == c.before(d, c.outputs[n]) && look(e, c.key(c.outputs[n].destination)) == look(
            d,
            c.key(c.outputs[n].destination),
        )
    } by {
        assert(c.outside(c.outputs[n].destination));
        if c.outputs[n].original is Some {
            lemma_held(c, c.outputs[n].original->0);
            assert(c.key(c.outputs[n].original->0) != c.key(c.removed_sources[j].backup));
        }
    }
    assert forall|n: int|
        0 <= n < b.outputs.len() && !b.has_source(
            b.key((#[trigger] b.outputs[n]).destination),
        ) implies b.before(e, b.outputs[n]) == look(d0, b.key(b.outputs[n].destination)) by {
        if c.key(c.outputs[n].destination) == k {
            assert(c.outputs[n].original is None);
            assert(!c.outputs[n].published);
        } else {
            assert(!c.has_source(c.key(c.outputs[n].destination)));
        }
    }
    assert(b.contents(d0, e));
}

// ---------------------------------------------------------------------------
// Every step keeps a job reversible
// ---------------------------------------------------------------------------

/// A temporary file has this place.
pub open spec fn is_temporary(c: Ledger, k: PathView) -> bool {
    exists|t: int|
        0 <= t < c.temporary_files.len() && c.key(#[trigger] c.temporary_files[t]) == k
}

/// A name was given out for something that is to be kept.
pub open spec fn is_spare(c: Ledger, p: PathView) -> bool {
    c.held(p) && !c.is_kept(c.key(p)) && !is_temporary(c, c.key(p))
}

/// Nothing is left to take back.
pub open spec fn is_clean(entry: Entry) -> bool {
    !entry.published && entry.original is None
}

pub open spec fn all_clean(v: Journal) -> bool {
    &&& forall|i: int| 0 <= i < v.outputs.len() ==> is_clean(#[trigger] v.outputs[i])
    &&& v.removed_sources.len() == 0
}

pub open spec fn all_published(v: Journal) -> bool {
    forall|i: int| 0 <= i < v.outputs.len() ==> (#[trigger] v.outputs[i]).published
}

/// The first sources that were noted are dealt with.
pub open spec fn all_stay(v: Journal, n: int) -> bool {
    forall|s: int| 0 <= s < n ==> v.stays(#[trigger] v.deferred_sources[s])
}

/// The result lies ready in the workspace.
pub open spec fn is_staged(v: Journal, d: Disk) -> bool {
    &&& ledger(v).outside(v.work.destination)
    &&& is_temporary(ledger(v), v.work.staged.key(v.fold_case))
    &&& is_file(look(d, v.work.staged.key(v.fold_case)))
}

/// The earlier result lies apart from the new one.
pub open spec fn is_set_apart(v: Journal) -> bool {
    &&& is_temporary(ledger(v), v.work.aside.key(v.fold_case))
    &&& v.work.aside.key(v.fold_case) != v.work.staged.key(v.fold_case)
}

/// The place of the result is empty.
pub open spec fn is_cleared(v: Journal, d: Disk) -> bool {
    let entry = v.outputs[v.work.index as int];
    let place = v.work.destination.key(v.fold_case);
    &&& v.work.index < v.outputs.len()
    &&& entry.destination.key(v.fold_case) == place
    &&& !entry.published
    &&& look(d, place) is None
    &&& !v.work.fresh ==> is_set_apart(v) && is_file(look(d, v.work.aside.key(v.fold_case)))
}

/// What the steps so far have made sure of.
pub open spec fn is_prepared(v: Journal, d: Disk) -> bool {
    let c = ledger(v);
    let place = v.work.destination.key(v.fold_case);
    match v.stage {
        Stage::Converting => c.outside(v.work.destination) && is_temporary(
            c,
            v.work.staged.key(v.fold_case),
        ),
        Stage::FindParent { .. }
        | Stage::CheckChain { .. }
        | Stage::MakeFolder { .. }
        | Stage::Target => is_staged(v, d),
        Stage::ProbeTarget => is_staged(v, d) && !c.has_entry(place) && (look(d, place) is None
            || is_file(look(d, place))),
        Stage::MapOriginal | Stage::KeepOriginal => is_staged(v, d) && !c.has_entry(place)
            && is_file(look(d, place)) && is_spare(c, v.work.aside),
        Stage::SetAside => is_staged(v, d) && is_set_apart(v) && v.work.index < v.outputs.len()
            && v.outputs[v.work.index as int].published && v.outputs[v.work.index as int].destination.key(
            v.fold_case,
        ) == place && !v.work.fresh,
        Stage::Publish => is_staged(v, d) && is_cleared(v, d),
        Stage::Restore => is_cleared(v, d),
        Stage::Discard => is_temporary(c, v.work.aside.key(v.fold_case)),
        Stage::Check { at } => forall|i: int|
            0 <= i <= at ==> (#[trigger] v.outputs[i]).published,
        Stage::Source { at } => all_published(v) && all_stay(v, at as int),
        Stage::MapSource { at } | Stage::MoveSource { at } => all_published(v) && all_stay(
            v,
            at as int,
        ) && !v.stays(v.deferred_sources[at as int]) && is_spare(c, v.work.aside),
        Stage::Purge { .. } | Stage::PurgeSource { .. } => false,
        Stage::Reinstate { left } | Stage::PutBack { left } => !v.outputs[left - 1].published,
        Stage::Return { at } => !is_file(
            look(d, v.removed_sources[at as int].source.key(v.fold_case)),
        ),
        _ => true,
    }
}

/// How far a rollback without errors has come.
pub open spec fn is_withdrawn(v: Journal) -> bool {
    v.errors.len() == 0 ==> match v.stage {
        Stage::Withdraw { left } | Stage::Reinstate { left } | Stage::PutBack { left } => forall|
            i: int,
        |
            left <= i < v.outputs.len() ==> is_clean(#[trigger] v.outputs[i]),
        Stage::Sources { at } | Stage::Return { at } => at == 0 && forall|i: int|
            0 <= i < v.outputs.len() ==> is_clean(#[trigger] v.outputs[i]),
        Stage::Folders { .. }
        | Stage::Temporaries { .. }
        | Stage::Mapping
        | Stage::Workspace => all_clean(v),
        _ => true,
    }
}

/// A job that is under way can be taken back.
pub open spec fn is_open(v: Journal, d0: Disk, d: Disk) -> bool {
    &&& !v.committed
    &&& !v.finished
    &&& v.wf()
    &&& ledger(v).sound(d0, d)
    &&& is_prepared(v, d)
    &&& is_withdrawn(v)
}

/// A job is committed: its results stand, the sources that were moved away are gone, and all that
/// is left to do is to clean up the workspace.
pub open spec fn is_sealed(v: Journal, d: Disk) -> bool {
    let c = ledger(v);
    &&& v.committed
    &&& v.finished
    &&& v.wf()
    &&& match v.stage {
        Stage::Idle
        | Stage::Purge { .. }
        | Stage::PurgeSource { .. }
        | Stage::Temporaries { .. }
        | Stage::Mapping
        | Stage::Workspace => true,
        _ => false,
    }
    &&& c.layout()
    &&& all_published(v)
    &&& forall|i: int|
        0 <= i < v.outputs.len() ==> is_file(look(d, c.key((#[trigger] v.outputs[i]).destination)))
    &&& forall|j: int|
        0 <= j < v.removed_sources.len() && !c.has_entry(
            c.key((#[trigger] v.removed_sources[j]).source),
        ) ==> !is_file(look(d, c.key(v.removed_sources[j].source)))
}

/// A job can be taken back, or has been, or is committed.
pub open spec fn is_reversible(v: Journal, d0: Disk, d: Disk) -> bool {
    ||| is_sealed(v, d)
    ||| is_open(v, d0, d)
    ||| !v.committed && v.finished && v.stage == Stage::Idle && ledger(v).sound(d0, d)
        && all_clean(v)
}

/// The names of a job that are known.
proof fn lemma_names(v: Journal)
    requires
        v.names_are_known(),
    ensures
        is_known("recovery.txt"@, v.fold_case),
        is_known_path(v.work.staged, v.fold_case),
        is_known_path(v.work.aside, v.fold_case),
{
    reveal(Journal::names_are_known);
}

/// A name that is drawn is a new one.
proof fn lemma_drawn(v: Journal, label: Seq<char>, ext: Option<Seq<char>>, d0: Disk, d: Disk)
    requires
        ledger(v).sound(d0, d),
        is_label(label),
        is_known_path(v.ticket(label, ext), v.fold_case),
    ensures
        is_ticket(v.workspace, v.ticket(label, ext), v.sequence + 1),
        ledger(v).counted(v.sequence + 1).sound(d0, d),
        is_spare(ledger(v).counted(v.sequence + 1), v.ticket(label, ext)),
{
    let c = ledger(v);
    let b = c.counted(v.sequence + 1);
    let p = v.ticket(label, ext);
    assert(p == v.workspace.child(ticket_name(label, v.sequence + 1, ext)));
    assert(is_ticket(c.workspace, p, c.sequence + 1));
    lemma_new_ticket(c, p);
    lemma_count(c, v.sequence + 1, d0, d);
    lemma_same_places(c, b);
    assert(b.held(p)) by {
        assert(is_ticket(b.workspace, p, b.sequence));
    }
    assert(!is_temporary(b, b.key(p))) by {
        assert forall|t: int| 0 <= t < b.temporary_files.len() implies b.key(
            #[trigger] b.temporary_files[t],
        ) != b.key(p) by {
            assert(c.held(c.temporary_files[t]));
        }
    }
}

/// A temporary file is not kept, and lies in the workspace.
pub proof fn lemma_temporary_place(c: Ledger, k: PathView)
    requires
        c.layout(),
        is_temporary(c, k),
    ensures
        k.within(c.base()),
        !c.is_kept(k),
        k != c.key(c.workspace.child("recovery.txt"@)),
{
    let t = choose|t: int|
        0 <= t < c.temporary_files.len() && c.key(#[trigger] c.temporary_files[t]) == k;
    lemma_held(c, c.temporary_files[t]);
}

/// The notes lie in the workspace, and nothing is kept there.
pub proof fn lemma_notes(c: Ledger)
    requires
        c.layout(),
    ensures
        c.key(c.workspace.child("recovery.txt"@)).within(c.base()),
        !c.is_kept(c.key(c.workspace.child("recovery.txt"@))),
{
    lemma_child_key(c.workspace, "recovery.txt"@, c.fold_case);
    if c.is_kept(c.key(c.workspace.child("recovery.txt"@))) {
        lemma_kept(c, c.key(c.workspace.child("recovery.txt"@)));
    }
}

/// What is assumed of a step: the disk answers truthfully, and machine limits are not reached.
pub open spec fn is_answered(v: Journal, o: Outcome<Seq<char>>, d: Disk, e: Disk) -> bool {
    &&& happens(v.fold_case, v.action(), o, d, e)
    &&& countable(v)
    &&& v.step(o).names_are_known()
}

proof fn lemma_step_convert(v: Journal, o: Outcome<Seq<char>>, d0: Disk, d: Disk, e: Disk)
    requires
        is_open(v, d0, d),
        is_answered(v, o, d, e),
        v.stage is Converting || v.stage is FindParent || v.stage is CheckChain,
    ensures
        is_reversible(v.step(o), d0, e),
{
    let c = ledger(v);
    steps_stay_within_bounds(v, o);
    if v.stage is Converting {
        let k = v.work.staged.key(v.fold_case);
        lemma_temporary_place(c, k);
        lemma_inside(c, d0, d, e, k);
        assert(ledger(v.after_converting(o)) == c);
        assert(is_open(v.after_converting(o), d0, e));
    } else {
        assert(ledger(v.step(o)) == c);
        assert(is_open(v.step(o), d0, e));
    }
}

proof fn lemma_step_make_folder(v: Journal, o: Outcome<Seq<char>>, d0: Disk, d: Disk, e: Disk)
    requires
        is_open(v, d0, d),
        is_answered(v, o, d, e),
        v.stage is MakeFolder,
    ensures
        is_reversible(v.step(o), d0, e),
{
    let c = ledger(v);
    let at = v.stage->MakeFolder_at;
    let folder = v.work.destination.prefix(at as int);
    steps_stay_within_bounds(v, o);
    let w = v.after_make_folder(at, o);
    if o is Failed {
        assert(ledger(w) == c);
    } else {
        if folder.key(v.fold_case).within(c.base()) {
            lemma_prefix_key(v.work.destination, at as int, c.base(), v.fold_case);
        }
        lemma_folder(c, folder, d0, d, e);
        assert(ledger(w) == c.with_folder(folder));
        let k = v.work.staged.key(v.fold_case);
        lemma_temporary_place(c, k);
        assert(c.outside(folder));
        assert(is_temporary(c.with_folder(folder), k)) by {
            let t = choose|t: int|
                0 <= t < c.temporary_files.len() && c.key(#[trigger] c.temporary_files[t]) == k;
            assert(c.with_folder(folder).temporary_files[t] == c.temporary_files[t]);
        }
    }
    assert(is_open(w, d0, e));
}

proof fn lemma_step_target(v: Journal, o: Outcome<Seq<char>>, d0: Disk, d: Disk, e: Disk)
    requires
        is_open(v, d0, d),
        is_answered(v, o, d, e),
        v.stage is Target,
    ensures
        is_reversible(v.step(o), d0, e),
{
    let c = ledger(v);
    let p = v.work.destination;
    let place = p.key(v.fold_case);
    let staged = v.work.staged.key(v.fold_case);
    let w = v.after_target(o);
    steps_stay_within_bounds(v, o);
    lemma_entry_for(v.outputs, p, v.fold_case);
    match entry_for(v.outputs, p, v.fold_case) {
        Some(i) if v.outputs[i].published && w.stage is SetAside => {
            let ext = crate::journal::path_extension(p);
            let aside = v.ticket("previous"@, ext);
            lemma_names(w);
            lemma_drawn(v, "previous"@, ext, d0, d);
            lemma_temporary(c, aside, d0, d);
            let b = c.counted(c.sequence + 1).with_temporary(aside);
            assert(ledger(w) =~= b);
            assert(is_temporary(b, staged)) by {
                let t = choose|t: int|
                    0 <= t < c.temporary_files.len() && c.key(#[trigger] c.temporary_files[t])
                        == staged;
                assert(b.temporary_files[t] == c.temporary_files[t]);
            }
            assert(is_temporary(b, b.key(aside))) by {
                assert(b.temporary_files[c.temporary_files.len() as int] == aside);
            }
            assert(aside.key(v.fold_case) != staged) by {
                let a = c.counted(c.sequence + 1);
                assert(!is_temporary(a, a.key(aside)));
                let t = choose|t: int|
                    0 <= t < c.temporary_files.len() && c.key(#[trigger] c.temporary_files[t])
                        == staged;
                assert(a.key(a.temporary_files[t]) == staged);
            }
            assert(is_open(w, d0, e));
        },
        _ => {
            assert(ledger(w) == c);
            if w.stage is ProbeTarget {
                assert(!c.has_entry(place));
            }
            assert(is_open(w, d0, e));
        },
    }
}

proof fn lemma_step_set_aside(v: Journal, o: Outcome<Seq<char>>, d0: Disk, d: Disk, e: Disk)
    requires
        is_open(v, d0, d),
        is_answered(v, o, d, e),
        v.stage is SetAside,
    ensures
        is_reversible(v.step(o), d0, e),
{
    let c = ledger(v);
    let i = v.work.index as int;
    let w = v.after_set_aside(o);
    steps_stay_within_bounds(v, o);
    if o is Failed {
        assert(ledger(w) == c);
    } else {
        let aside = v.work.aside.key(v.fold_case);
        let staged = v.work.staged.key(v.fold_case);
        lemma_temporary_place(c, aside);
        lemma_temporary_place(c, staged);
        assert(c.outside(v.work.destination));
        assert(is_file(look(d, c.key(v.outputs[i].destination))));
        lemma_vanish(c, i, aside, d0, d, e);
        let b = c.set_entry(i, c.outputs[i].original, false);
        assert(ledger(w) =~= b);
        lemma_same_temporaries(c, b);
    }
    assert(is_open(w, d0, e));
}

/// Ledgers with the same temporary files.
proof fn lemma_same_temporaries(a: Ledger, b: Ledger)
    requires
        a.temporary_files == b.temporary_files,
        a.fold_case == b.fold_case,
    ensures
        forall|k: PathView| #[trigger] is_temporary(b, k) == is_temporary(a, k),
{
}

proof fn lemma_step_probe_target(v: Journal, o: Outcome<Seq<char>>, d0: Disk, d: Disk, e: Disk)
    requires
        is_open(v, d0, d),
        is_answered(v, o, d, e),
        v.stage is ProbeTarget,
    ensures
        is_reversible(v.step(o), d0, e),
{
    let c = ledger(v);
    let p = v.work.destination;
    let w = v.after_probe_target(o);
    steps_stay_within_bounds(v, o);
    if o == Outcome::<Seq<char>>::Exists(true) {
        let ext = crate::journal::path_extension(p);
        lemma_names(w);
        lemma_drawn(v, "original"@, ext, d0, d);
        let b = c.counted(c.sequence + 1);
        assert(ledger(w) =~= b);
        lemma_same_temporaries(c, b);
        lemma_same_places(c, b);
        assert(is_open(w, d0, e));
    } else {
        lemma_new_entry(c, p, d0, d);
        let b = c.with_entry(p, None);
        assert(ledger(w) =~= b);
        lemma_same_temporaries(c, b);
        assert(w.outputs[w.work.index as int] == (Entry {
            destination: p,
            original: None,
            published: false,
        }));
        assert(is_open(w, d0, e));
    }
}

proof fn lemma_step_keep_original(v: Journal, o: Outcome<Seq<char>>, d0: Disk, d: Disk, e: Disk)
    requires
        is_open(v, d0, d),
        is_answered(v, o, d, e),
        v.stage is MapOriginal || v.stage is KeepOriginal,
    ensures
        is_reversible(v.step(o), d0, e),
{
    let c = ledger(v);
    let p = v.work.destination;
    let w = v.step(o);
    let staged = v.work.staged.key(v.fold_case);
    steps_stay_within_bounds(v, o);
    lemma_temporary_place(c, staged);
    if v.stage is MapOriginal {
        lemma_notes(c);
        lemma_inside(c, d0, d, e, c.key(v.notes()));
        assert(ledger(w) == c);
        assert(c.outside(p));
        assert(is_open(w, d0, e));
    } else if o is Failed {
        assert(ledger(w) == c);
        assert(is_open(w, d0, e));
    } else {
        let aside = v.work.aside;
        lemma_held(c, aside);
        assert forall|t: int| 0 <= t < c.temporary_files.len() implies c.key(
            #[trigger] c.temporary_files[t],
        ) != c.key(aside) by {
            assert(is_temporary(c, c.key(c.temporary_files[t])));
        }
        lemma_keep(c, p, aside, d0, d, e);
        let b = c.with_entry(p, Some(aside));
        assert(ledger(w) =~= b);
        lemma_same_temporaries(c, b);
        assert(w.outputs[w.work.index as int] == (Entry {
            destination: p,
            original: Some(aside),
            published: false,
        }));
        assert(is_open(w, d0, e));
    }
}

proof fn lemma_step_publish(v: Journal, o: Outcome<Seq<char>>, d0: Disk, d: Disk, e: Disk)
    requires
        is_open(v, d0, d),
        is_answered(v, o, d, e),
        v.stage is Publish,
    ensures
        is_reversible(v.step(o), d0, e),
{
    let c = ledger(v);
    let i = v.work.index as int;
    let w = v.after_publish(o);
    let staged = v.work.staged.key(v.fold_case);
    steps_stay_within_bounds(v, o);
    lemma_temporary_place(c, staged);
    if o is Failed {
        if v.displaced() is Some {
            assert(ledger(w) == c);
        } else {
            lemma_drop_empty(c, i, d0, d);
            assert(ledger(w) =~= c.without_entry(i));
        }
    } else {
        assert(c.outside(v.work.destination));
        lemma_appear(c, i, staged, d0, d, e);
        let b = c.set_entry(i, c.outputs[i].original, true);
        assert(ledger(w) =~= b);
        lemma_same_temporaries(c, b);
    }
    assert(is_open(w, d0, e));
}

proof fn lemma_step_restore(v: Journal, o: Outcome<Seq<char>>, d0: Disk, d: Disk, e: Disk)
    requires
        is_open(v, d0, d),
        is_answered(v, o, d, e),
        v.stage is Restore || v.stage is Discard,
    ensures
        is_reversible(v.step(o), d0, e),
{
    let c = ledger(v);
    let i = v.work.index as int;
    let w = v.step(o);
    steps_stay_within_bounds(v, o);
    if v.stage is Discard {
        let aside = v.work.aside.key(v.fold_case);
        lemma_temporary_place(c, aside);
        lemma_inside(c, d0, d, e, aside);
        assert(ledger(w) == c);
    } else if o is Failed {
        assert(ledger(w) == c);
    } else if v.work.fresh {
        lemma_drop_restored(c, i, d0, d, e);
        assert(ledger(w) =~= c.without_entry(i));
    } else {
        let aside = v.work.aside.key(v.fold_case);
        lemma_temporary_place(c, aside);
        assert(c.outside(v.outputs[i].destination));
        lemma_appear(c, i, aside, d0, d, e);
        assert(ledger(w) =~= c.set_entry(i, c.outputs[i].original, true));
    }
    assert(is_open(w, d0, e));
}

proof fn lemma_step_check(v: Journal, o: Outcome<Seq<char>>, d0: Disk, d: Disk, e: Disk)
    requires
        is_open(v, d0, d),
        is_answered(v, o, d, e),
        v.stage is Check,
    ensures
        is_reversible(v.step(o), d0, e),
{
    let at = v.stage->Check_at;
    let w = v.after_check(at, o);
    steps_stay_within_bounds(v, o);
    assert(ledger(w) == ledger(v));
    assert(is_open(w, d0, e));
}

proof fn lemma_step_source(v: Journal, o: Outcome<Seq<char>>, d0: Disk, d: Disk, e: Disk)
    requires
        is_open(v, d0, d),
        is_answered(v, o, d, e),
        v.stage is Source,
    ensures
        is_reversible(v.step(o), d0, e),
{
    let c = ledger(v);
    let at = v.stage->Source_at;
    let w = v.after_source(at);
    steps_stay_within_bounds(v, o);
    if at >= v.deferred_sources.len() {
        assert(ledger(w) == c);
        assert(is_sealed(w, e));
    } else {
        let source = v.deferred_sources[at as int];
        lemma_still_stay(v, w);
        if v.stays(source) {
            assert(ledger(w) == c);
        } else {
            let ext = crate::journal::path_extension(source);
            lemma_names(w);
            lemma_drawn(v, "source"@, ext, d0, d);
            assert(ledger(w) =~= c.counted(c.sequence + 1));
        }
        assert(is_open(w, d0, e));
    }
}

proof fn lemma_step_map_source(v: Journal, o: Outcome<Seq<char>>, d0: Disk, d: Disk, e: Disk)
    requires
        is_open(v, d0, d),
        is_answered(v, o, d, e),
        v.stage is MapSource,
    ensures
        is_reversible(v.step(o), d0, e),
{
    let c = ledger(v);
    let at = v.stage->MapSource_at;
    let w = v.after_map_source(at, o);
    steps_stay_within_bounds(v, o);
    lemma_notes(c);
    lemma_inside(c, d0, d, e, c.key(v.notes()));
    lemma_still_stay(v, w);
    assert(ledger(w) == c);
    assert(is_open(w, d0, e));
}

proof fn lemma_step_move_source(v: Journal, o: Outcome<Seq<char>>, d0: Disk, d: Disk, e: Disk)
    requires
        is_open(v, d0, d),
        is_answered(v, o, d, e),
        v.stage is MoveSource,
    ensures
        is_reversible(v.step(o), d0, e),
{
    let c = ledger(v);
    let at = v.stage->MoveSource_at;
    let w = v.after_move_source(at, o);
    steps_stay_within_bounds(v, o);
    if o is Failed {
        assert(ledger(w) == c);
    } else {
        let source = v.deferred_sources[at as int];
        let aside = v.work.aside;
        assert(c.outside(source)) by {
            assert(c.deferred_sources[at as int] == source);
        }
        assert(!c.has_entry(c.key(source))) by {
            if c.has_entry(c.key(source)) {
                let i = choose|i: int|
                    0 <= i < c.outputs.len() && c.key((#[trigger] c.outputs[i]).destination)
                        == c.key(source);
                assert(v.outputs[i].published);
            }
        }
        assert(!c.has_source(c.key(source))) by {
            if c.has_source(c.key(source)) {
                let j = choose|j: int|
                    0 <= j < c.removed_sources.len() && c.key(
                        (#[trigger] c.removed_sources[j]).source,
                    ) == c.key(source);
                assert(v.removed_sources[j].source.key(v.fold_case) == source.key(v.fold_case));
            }
        }
        assert forall|t: int| 0 <= t < c.temporary_files.len() implies c.key(
            #[trigger] c.temporary_files[t],
        ) != c.key(aside) by {
            assert(is_temporary(c, c.key(c.temporary_files[t])));
        }
        lemma_source_moved(c, source, aside, d0, d, e);
        assert(ledger(w) =~= c.with_removed(source, aside));
        assert(w.removed_sources.drop_last() =~= v.removed_sources);
        assert forall|s: int| 0 <= s <= at implies w.stays(#[trigger] w.deferred_sources[s]) by {
            lemma_stays_grows(v, w, s);
        }
    }
    assert(is_open(w, d0, e));
}

/// Sources that stay, stay as long as results and removed sources are the same.
proof fn lemma_still_stay(v: Journal, w: Journal)
    requires
        v.outputs == w.outputs,
        v.removed_sources == w.removed_sources,
        v.fold_case == w.fold_case,
    ensures
        forall|p: PathView| #[trigger] w.stays(p) == v.stays(p),
{
}

/// A source that was dealt with stays so when another one is moved away.
proof fn lemma_stays_grows(v: Journal, w: Journal, s: int)
    requires
        w.outputs == v.outputs,
        w.fold_case == v.fold_case,
        w.deferred_sources == v.deferred_sources,
        v.removed_sources.len() + 1 == w.removed_sources.len(),
        v.removed_sources == w.removed_sources.drop_last(),
        v.stays(v.deferred_sources[s]) || w.removed_sources.last().source
            == v.deferred_sources[s],
    ensures
        w.stays(w.deferred_sources[s]),
{
    let p = v.deferred_sources[s];
    if v.stays(p) {
        if exists|i: int|
            0 <= i < v.outputs.len() && (#[trigger] v.outputs[i]).published
                && v.outputs[i].destination.key(v.fold_case) == p.key(v.fold_case) {
        } else {
            let j = choose|j: int|
                0 <= j < v.removed_sources.len() && (#[trigger] v.removed_sources[j]).source.key(
                    v.fold_case,
                ) == p.key(v.fold_case);
            assert(w.removed_sources[j] == v.removed_sources[j]);
        }
    } else {
        assert(w.removed_sources[v.removed_sources.len() as int].source == p);
    }
}

proof fn lemma_step_withdraw(v: Journal, o: Outcome<Seq<char>>, d0: Disk, d: Disk, e: Disk)
    requires
        is_open(v, d0, d),
        is_answered(v, o, d, e),
        v.stage is Withdraw || v.stage is Reinstate || v.stage is PutBack,
    ensures
        is_reversible(v.step(o), d0, e),
{
    let c = ledger(v);
    let w = v.step(o);
    steps_stay_within_bounds(v, o);
    match v.stage {
        Stage::Withdraw { left } => {
            if left == 0 || !v.outputs[left - 1].published || crate::disk::removal_refusal(o)
                is Some {
                assert(ledger(w) == c);
            } else {
                let i = left - 1;
                let k = c.key(c.outputs[i].destination);
                assert(look(e, k) is None);
                lemma_notes(c);
                lemma_vanish(c, i, c.key(v.notes()), d0, d, e);
                assert(ledger(w) =~= c.set_entry(i, c.outputs[i].original, false));
            }
        },
        Stage::Reinstate { left } => {
            assert(ledger(w) == c);
        },
        Stage::PutBack { left } => {
            if o is Failed {
                assert(ledger(w) == c);
            } else {
                lemma_put_back(c, left - 1, d0, d, e);
                assert(ledger(w) =~= c.set_entry(left - 1, None, false));
            }
        },
        _ => {},
    }
    assert(is_open(w, d0, e));
}

proof fn lemma_step_sources(v: Journal, o: Outcome<Seq<char>>, d0: Disk, d: Disk, e: Disk)
    requires
        is_open(v, d0, d),
        is_answered(v, o, d, e),
        v.stage is Sources || v.stage is Return || v.stage is Folders,
    ensures
        is_reversible(v.step(o), d0, e),
{
    let c = ledger(v);
    let w = v.step(o);
    steps_stay_within_bounds(v, o);
    match v.stage {
        Stage::Sources { at } => {
            assert(ledger(w) == c);
        },
        Stage::Return { at } => {
            if o is Failed {
                assert(ledger(w) == c);
            } else {
                lemma_source_returned(c, at as int, d0, d, e);
                assert(ledger(w) =~= c.without_removed(at as int));
            }
        },
        Stage::Folders { left } => {
            assert(ledger(w) == c);
            if left > 0 && !(o is Failed) {
                let k = c.key(c.created_directories[left - 1]);
                assert(c.has_folder(k));
                assert(c.outside(c.created_directories[left - 1]));
                lemma_folder_removed(c, k, d0, d, e);
            }
        },
        _ => {},
    }
    assert(is_open(w, d0, e));
}

proof fn lemma_step_cleanup(v: Journal, o: Outcome<Seq<char>>, d0: Disk, d: Disk, e: Disk)
    requires
        is_open(v, d0, d),
        is_answered(v, o, d, e),
        v.stage is Temporaries || v.stage is Mapping || v.stage is Workspace,
    ensures
        is_reversible(v.step(o), d0, e),
{
    let c = ledger(v);
    let w = v.step(o);
    steps_stay_within_bounds(v, o);
    assert(ledger(w) == c);
    match v.stage {
        Stage::Temporaries { at } => {
            if at < v.temporary_files.len() {
                let k = c.key(c.temporary_files[at as int]);
                assert(is_temporary(c, k));
                lemma_temporary_place(c, k);
                if !(o is Failed) {
                    lemma_inside(c, d0, d, e, k);
                }
            }
        },
        Stage::Mapping => {
            lemma_notes(c);
            if !(o is Failed) {
                lemma_inside(c, d0, d, e, c.key(v.notes()));
            }
        },
        Stage::Workspace => {
            let k = c.base();
            assert(k.parts.take(k.parts.len() as int) =~= k.parts);
            if c.is_kept(k) {
                lemma_kept(c, k);
            }
            if !(o is Failed) {
                lemma_inside(c, d0, d, e, k);
            }
        },
        _ => {},
    }
}

/// Whatever the disk answers, a job that could be taken back can still be taken back, until it is
/// committed.
pub proof fn steps_keep_a_job_reversible(
    v: Journal,
    o: Outcome<Seq<char>>,
    d0: Disk,
    d: Disk,
    e: Disk,
)
    requires
        is_reversible(v, d0, d),
        v.stage != Stage::Idle,
        is_answered(v, o, d, e),
    ensures
        is_reversible(v.step(o), d0, e),
{
    if v.committed {
        a_committed_job_leaves_all_else_alone(v, o, d, e);
    } else {
        match v.stage {
            Stage::Converting | Stage::FindParent { .. } | Stage::CheckChain { .. } => {
                lemma_step_convert(v, o, d0, d, e)
            },
            Stage::MakeFolder { .. } => lemma_step_make_folder(v, o, d0, d, e),
            Stage::Target => lemma_step_target(v, o, d0, d, e),
            Stage::SetAside => lemma_step_set_aside(v, o, d0, d, e),
            Stage::ProbeTarget => lemma_step_probe_target(v, o, d0, d, e),
            Stage::MapOriginal | Stage::KeepOriginal => {
                lemma_step_keep_original(v, o, d0, d, e)
            },
            Stage::Publish => lemma_step_publish(v, o, d0, d, e),
            Stage::Restore | Stage::Discard => lemma_step_restore(v, o, d0, d, e),
            Stage::Check { .. } => lemma_step_check(v, o, d0, d, e),
            Stage::Source { .. } => lemma_step_source(v, o, d0, d, e),
            Stage::MapSource { .. } => lemma_step_map_source(v, o, d0, d, e),
            Stage::MoveSource { .. } => lemma_step_move_source(v, o, d0, d, e),
            Stage::Withdraw { .. } | Stage::Reinstate { .. } | Stage::PutBack { .. } => {
                lemma_step_withdraw(v, o, d0, d, e)
            },
            Stage::Sources { .. } | Stage::Return { .. } | Stage::Folders { .. } => {
                lemma_step_sources(v, o, d0, d, e)
            },
            Stage::Temporaries { .. } | Stage::Mapping | Stage::Workspace => {
                lemma_step_cleanup(v, o, d0, d, e)
            },
            _ => {},
        }
    }
}

/// A kept file is no longer needed.
proof fn lemma_forget(c: Ledger, i: int, published: bool)
    requires
        c.layout(),
        0 <= i < c.outputs.len(),
    ensures
        c.set_entry(i, None, published).layout(),
        forall|k: PathView| #[trigger]
            c.set_entry(i, None, published).has_entry(k) == c.has_entry(k),
{
    let b = c.set_entry(i, None, published);
    lemma_entry_places(c, b);
    lemma_still_held(c, b);
    assert(b.removed_sources == c.removed_sources && b.fold_case == c.fold_case);
    assert forall|q: PathView| #[trigger] b.is_kept(q) implies c.is_kept(q) by {
        if b.has_original(q) {
            let n = choose|n: int|
                0 <= n < b.outputs.len() && #[trigger] b.outputs[n].original is Some && b.key(
                    b.outputs[n].original->0,
                ) == q;
            assert(c.outputs[n].original is Some);
        }
    }
    assert(b.layout());
}

/// Once a job is committed it touches nothing outside its workspace, whatever the disk answers:
/// its results stand.
pub proof fn a_committed_job_leaves_all_else_alone(
    v: Journal,
    o: Outcome<Seq<char>>,
    d: Disk,
    e: Disk,
)
    requires
        is_sealed(v, d),
        v.stage != Stage::Idle,
        is_answered(v, o, d, e),
    ensures
        is_sealed(v.step(o), e),
        forall|k: PathView|
            !k.within(ledger(v).base()) ==> #[trigger] look(e, k) == look(d, k),
{
    let c = ledger(v);
    let w = v.step(o);
    steps_stay_within_bounds(v, o);
    match v.stage {
        Stage::Purge { at } => {
            if at < v.outputs.len() && v.outputs[at as int].original is Some {
                lemma_held(c, v.outputs[at as int].original->0);
                lemma_forget(c, at as int, true);
                assert(v.outputs[at as int].published);
                if crate::disk::removal_refusal(o) is None {
                    assert(ledger(w) =~= c.set_entry(at as int, None, true));
                } else {
                    assert(ledger(w) == c);
                }
            } else {
                assert(ledger(w) == c);
            }
        },
        Stage::PurgeSource { at } => {
            assert(ledger(w) == c);
            if at < v.removed_sources.len() {
                assert(c.held(c.removed_sources[at as int].backup));
                lemma_held(c, v.removed_sources[at as int].backup);
            }
        },
        Stage::Temporaries { at } => {
            assert(ledger(w) == c);
            if at < v.temporary_files.len() {
                assert(c.held(c.temporary_files[at as int]));
                lemma_held(c, v.temporary_files[at as int]);
            }
        },
        Stage::Mapping => {
            assert(ledger(w) == c);
            lemma_notes(c);
        },
        Stage::Workspace => {
            assert(ledger(w) == c);
            assert(c.base().parts.take(c.base().parts.len() as int) =~= c.base().parts);
        },
        _ => {},
    }
    assert forall|i: int| 0 <= i < w.outputs.len() implies is_file(
        look(e, c.key((#[trigger] w.outputs[i]).destination)),
    ) by {
        assert(c.outside(v.outputs[i].destination));
    }
    assert forall|j: int| 0 <= j < w.removed_sources.len() implies look(
        e,
        c.key((#[trigger] w.removed_sources[j]).source),
    ) == look(d, c.key(w.removed_sources[j].source)) by {
        assert(c.outside(c.removed_sources[j].source));
    }
}

// ---------------------------------------------------------------------------
// Whole jobs
// ---------------------------------------------------------------------------

/// What can happen to a job: an operation begins, or the disk answers.
pub enum Event {
    Convert { input: Option<PathView>, destination: Option<PathView>, format: OutputFormat },
    Defer { input: Option<PathView> },
    Commit,
    Rollback,
    Answer { outcome: Outcome<Seq<char>> },
}

/// A job and the disk at one moment.
pub struct Moment {
    pub job: Journal,
    pub disk: Disk,
}

/// A path that a job is given does not lie in its workspace.
pub open spec fn is_foreign(v: Journal, p: Option<PathView>) -> bool {
    p matches Some(q) ==> ledger(v).outside(q)
}

/// One moment follows another. Operations begin one at a time, on a disk on which nobody else is
/// at work. Folders may be put into order between two operations: where that went well, everything
/// stands where it stood, and the moment is the same.
pub open spec fn follows(m: Moment, event: Event, n: Moment) -> bool {
    &&& countable(m.job)
    &&& is_tree(n.disk)
    &&& match event {
        Event::Answer { outcome } => {
            &&& m.job.stage != Stage::Idle
            &&& n.job == m.job.step(outcome)
            &&& happens(m.job.fold_case, m.job.action(), outcome, m.disk, n.disk)
        },
        Event::Convert { input, destination, format } => {
            &&& m.job.stage == Stage::Idle
            &&& is_foreign(m.job, destination)
            &&& n.job == m.job.convert(input, destination, format)
            &&& n.disk == m.disk
        },
        Event::Defer { input } => {
            &&& m.job.stage == Stage::Idle
            &&& is_foreign(m.job, input)
            &&& n.job == m.job.defer(input)
            &&& n.disk == m.disk
        },
        Event::Commit => {
            &&& m.job.stage == Stage::Idle
            &&& n.job == m.job.commit()
            &&& n.disk == m.disk
        },
        Event::Rollback => {
            &&& m.job.stage == Stage::Idle
            &&& n.job == m.job.rollback()
            &&& n.disk == m.disk
        },
    }
}

/// The moments of a job, from the first.
pub open spec fn is_history(moments: Seq<Moment>, events: Seq<Event>) -> bool {
    &&& moments.len() == events.len() + 1
    &&& forall|i: int|
        0 <= i < events.len() ==> follows(
            moments[i],
            #[trigger] events[i],
            moments[i + 1],
        )
}

/// The names that the job draws are known at every moment. A job that runs sees to that whenever it
/// draws one.
pub open spec fn names_are_known(moments: Seq<Moment>) -> bool {
    forall|i: int| 0 <= i < moments.len() ==> (#[trigger] moments[i]).job.names_are_known()
}

/// A new job, once its workspace was created on a disk.
pub open spec fn is_start(m: Moment, d0: Disk) -> bool {
    &&& m.job == Journal::fresh(m.job.root, m.job.workspace, m.job.fold_case, m.job.separator)
    &&& is_tree(d0)
    &&& is_tree(m.disk)
    &&& look(d0, ledger(m.job).base()) is None
    &&& look(m.disk, ledger(m.job).base()) == Some(Node::Folder)
    &&& forall|k: PathView|
        !k.within(ledger(m.job).base()) ==> #[trigger] look(m.disk, k) == look(d0, k)
}

/// A new job can be taken back.
pub proof fn a_new_job_is_reversible(m: Moment, d0: Disk)
    requires
        is_start(m, d0),
        m.job.names_are_known(),
    ensures
        is_reversible(m.job, d0, m.disk),
{
    lemma_names(m.job);
    let c = ledger(m.job);
    assert(forall|k: PathView| !c.has_entry(k) && !c.has_source(k) && !#[trigger] c.has_folder(k));
    assert(c.layout());
    assert(c.contents(d0, m.disk));
    assert(is_open(m.job, d0, m.disk));
}

/// Beginning an operation does not change whether a job can be taken back.
pub proof fn operations_begin_reversibly(m: Moment, event: Event, n: Moment, d0: Disk)
    requires
        is_reversible(m.job, d0, m.disk),
        follows(m, event, n),
        !(event is Answer),
        n.job.names_are_known(),
    ensures
        is_reversible(n.job, d0, n.disk),
{
    let (v, w, d) = (m.job, n.job, m.disk);
    let c = ledger(v);
    match event {
        Event::Convert { input, destination, format } => {
            if w.stage is Converting {
                let p = destination->0;
                let staged = v.ticket("converted"@, Some("wav"@));
                lemma_names(w);
                lemma_drawn(v, "converted"@, Some("wav"@), d0, d);
                lemma_temporary(c, staged, d0, d);
                let b = c.counted(c.sequence + 1).with_temporary(staged);
                assert(ledger(w) =~= b);
                assert(is_temporary(b, b.key(staged))) by {
                    assert(b.temporary_files[c.temporary_files.len() as int] == staged);
                }
                assert(p.parts.len() > 0) by {
                    if p.parts.len() == 0 {
                        assert(v.root.parts =~= p.parts);
                        assert(p =~= v.root);
                    }
                }
                assert(is_open(w, d0, d));
            } else {
                assert(ledger(w) == c);
            }
        },
        Event::Defer { input } => {
            if ledger(w) != c {
                lemma_deferred(c, input->0);
                assert(ledger(w) =~= c.with_deferred(input->0));
            }
        },
        Event::Commit => {
            assert(ledger(w) == c);
        },
        Event::Rollback => {
            assert(ledger(w) == c);
        },
        _ => {},
    }
}

/// At every moment of a job, until it is committed, it can be taken back.
pub proof fn jobs_stay_reversible(moments: Seq<Moment>, events: Seq<Event>, d0: Disk)
    requires
        is_history(moments, events),
        is_start(moments[0], d0),
        names_are_known(moments),
    ensures
        is_reversible(moments.last().job, d0, moments.last().disk),
        moments.last().job.fold_case == moments[0].job.fold_case,
        moments.last().job.workspace == moments[0].job.workspace,
    decreases events.len(),
{
    if events.len() == 0 {
        a_new_job_is_reversible(moments[0], d0);
    } else {
        let (front, earlier) = (moments.drop_last(), events.drop_last());
        assert forall|i: int| 0 <= i < earlier.len() implies follows(
            front[i],
            #[trigger] earlier[i],
            front[i + 1],
        ) by {
            assert(follows(moments[i], events[i], moments[i + 1]));
        }
        assert(names_are_known(front)) by {
            assert forall|i: int| 0 <= i < front.len() implies (
            #[trigger] front[i]).job.names_are_known() by {
                assert(moments[i].job.names_are_known());
            }
        }
        jobs_stay_reversible(front, earlier, d0);
        let last = events.len() - 1;
        let (m, n) = (moments[last], moments[last + 1]);
        assert(front.last() == m);
        assert(follows(moments[last], events[last], moments[last + 1]));
        match events[last] {
            Event::Answer { outcome } => {
                lemma_settings_stay(m.job, outcome);
                steps_keep_a_job_reversible(m.job, outcome, d0, m.disk, n.disk);
            },
            _ => operations_begin_reversibly(m, events[last], n, d0),
        }
    }
}

/// A job keeps its workspace and its way to tell files apart.
pub proof fn lemma_settings_stay(v: Journal, o: Outcome<Seq<char>>)
    ensures
        v.step(o).fold_case == v.fold_case,
        v.step(o).workspace == v.workspace,
{
    match v.stage {
        Stage::Target => assert(v.after_target(o).workspace == v.workspace && v.after_target(
            o,
        ).fold_case == v.fold_case),
        Stage::Publish => assert(v.after_publish(o).workspace == v.workspace && v.after_publish(
            o,
        ).fold_case == v.fold_case),
        Stage::Restore => assert(v.after_restore(o).workspace == v.workspace && v.after_restore(
            o,
        ).fold_case == v.fold_case),
        _ => {},
    }
}

// ---------------------------------------------------------------------------
// Further laws of a job
// ---------------------------------------------------------------------------

/// The kept file of a result is found, where no other result has its place.
proof fn lemma_retained(outputs: Seq<Entry>, i: int, p: PathView, fold_case: bool)
    requires
        0 <= i < outputs.len(),
        outputs[i].destination.key(fold_case) == p.key(fold_case),
        outputs[i].original is Some,
        forall|j: int|
            0 <= j < outputs.len() && j != i ==> (#[trigger] outputs[j]).destination.key(fold_case)
                != p.key(fold_case),
    ensures
        retained(outputs, p, fold_case) == outputs[i].original,
    decreases outputs.len(),
{
    let front = outputs.drop_last();
    if i < outputs.len() - 1 {
        lemma_retained(front, i, p, fold_case);
    } else {
        lemma_none_retained(front, p, fold_case);
    }
}

proof fn lemma_none_retained(outputs: Seq<Entry>, p: PathView, fold_case: bool)
    requires
        forall|j: int|
            0 <= j < outputs.len() ==> (#[trigger] outputs[j]).destination.key(fold_case) != p.key(
                fold_case,
            ),
    ensures
        retained(outputs, p, fold_case) is None,
    decreases outputs.len(),
{
    if outputs.len() > 0 {
        lemma_none_retained(outputs.drop_last(), p, fold_case);
    }
}

/// An input that this job has overwritten is decoded from what stood there before the job.
pub proof fn an_overwritten_input_is_decoded_from_its_original(
    v: Journal,
    d0: Disk,
    d: Disk,
    input: PathView,
    i: int,
)
    requires
        is_open(v, d0, d),
        0 <= i < v.outputs.len(),
        v.outputs[i].destination.key(v.fold_case) == input.key(v.fold_case),
        v.outputs[i].original is Some,
    ensures
        look(d, v.source_for(input).key(v.fold_case)) == look(d0, input.key(v.fold_case)),
{
    let c = ledger(v);
    assert forall|j: int| 0 <= j < v.outputs.len() && j != i implies (
    #[trigger] v.outputs[j]).destination.key(v.fold_case) != input.key(v.fold_case) by {
        if i < j {
            assert(c.key(c.outputs[i].destination) != c.key(c.outputs[j].destination));
        } else {
            assert(c.key(c.outputs[j].destination) != c.key(c.outputs[i].destination));
        }
    }
    lemma_retained(v.outputs, i, input, v.fold_case);
    assert(!c.has_source(c.key(v.outputs[i].destination))) by {
        assert forall|j: int| 0 <= j < c.removed_sources.len() implies c.key(
            (#[trigger] c.removed_sources[j]).source,
        ) != c.key(c.outputs[i].destination) by {
            assert(c.outputs[i].original is Some);
        }
    }
    assert(c.before(d, c.outputs[i]) == look(d0, c.key(c.outputs[i].destination)));
}

/// A file that stood on the disk before the job is decoded as it stood there, whatever results the
/// job has put in its place since, unless it was moved away as a source.
pub proof fn inputs_are_decoded_as_they_were(v: Journal, d0: Disk, d: Disk, input: PathView)
    requires
        is_open(v, d0, d),
        is_file(look(d0, input.key(v.fold_case))),
        ledger(v).outside(input),
        !ledger(v).has_source(input.key(v.fold_case)),
    ensures
        look(d, v.source_for(input).key(v.fold_case)) == look(d0, input.key(v.fold_case)),
{
    let c = ledger(v);
    let k = input.key(v.fold_case);
    if c.has_entry(k) {
        let i = choose|i: int|
            0 <= i < c.outputs.len() && c.key((#[trigger] c.outputs[i]).destination) == k;
        if v.outputs[i].original is Some {
            an_overwritten_input_is_decoded_from_its_original(v, d0, d, input, i);
        } else {
            assert(c.before(d, c.outputs[i]) == look(d0, k));
            lemma_nothing_retained(v, i, input);
        }
    } else {
        assert forall|j: int| 0 <= j < v.outputs.len() implies (
        #[trigger] v.outputs[j]).destination.key(v.fold_case) != k by {
            assert(c.outputs[j] == v.outputs[j]);
        }
        lemma_none_retained(v.outputs, input, v.fold_case);
        assert(c.floor(d, k) == look(d0, k));
    }
}

/// Where nothing stood at the place of a result, nothing is kept for it.
proof fn lemma_nothing_retained(v: Journal, i: int, input: PathView)
    requires
        ledger(v).layout(),
        0 <= i < v.outputs.len(),
        v.outputs[i].destination.key(v.fold_case) == input.key(v.fold_case),
        v.outputs[i].original is None,
    ensures
        retained(v.outputs, input, v.fold_case) is None,
{
    let c = ledger(v);
    assert forall|j: int| 0 <= j < v.outputs.len() && j != i implies (
    #[trigger] v.outputs[j]).destination.key(v.fold_case) != input.key(v.fold_case) by {
        if i < j {
            assert(c.key(c.outputs[i].destination) != c.key(c.outputs[j].destination));
        } else {
            assert(c.key(c.outputs[j].destination) != c.key(c.outputs[i].destination));
        }
    }
    lemma_without_original(v.outputs, i, input, v.fold_case);
}

proof fn lemma_without_original(outputs: Seq<Entry>, i: int, p: PathView, fold_case: bool)
    requires
        0 <= i < outputs.len(),
        outputs[i].original is None,
        forall|j: int|
            0 <= j < outputs.len() && j != i ==> (#[trigger] outputs[j]).destination.key(fold_case)
                != p.key(fold_case),
    ensures
        retained(outputs, p, fold_case) is None,
    decreases outputs.len(),
{
    let front = outputs.drop_last();
    if i < outputs.len() - 1 {
        lemma_without_original(front, i, p, fold_case);
    } else {
        lemma_none_retained(front, p, fold_case);
    }
}

/// Before a source is moved away, every result has been found to stand at its place.
pub proof fn sources_move_only_once_all_results_stand(v: Journal, d0: Disk, d: Disk)
    requires
        is_open(v, d0, d),
        v.stage is MapSource || v.stage is MoveSource,
    ensures
        forall|i: int|
            0 <= i < v.outputs.len() ==> (#[trigger] v.outputs[i]).published && is_file(
                look(d, v.outputs[i].destination.key(v.fold_case)),
            ),
{
}

/// A commit that finds a result missing, or something else than a file in its place, ends with an
/// error and changes nothing.
pub proof fn a_commit_refuses_what_is_not_there(v: Journal, o: Outcome<Seq<char>>)
    requires
        v.stage is Check,
        o != Outcome::<Seq<char>>::Found(Kind::File),
    ensures
        v.step(o) == (Journal { stage: Stage::Idle, last: v.step(o).last, ..v }),
        v.step(o).last is Some,
{
    let at = v.stage->Check_at;
    assert(v.step(o) == v.after_check(at, o));
}

/// A job is committed only with all its results: one of them missing, or not stored, keeps it
/// from being committed.
pub proof fn a_committed_job_has_all_its_results(v: Journal, d0: Disk, d: Disk)
    requires
        is_reversible(v, d0, d),
        v.committed,
    ensures
        forall|i: int|
            0 <= i < v.outputs.len() ==> (#[trigger] v.outputs[i]).published && is_file(
                look(d, v.outputs[i].destination.key(v.fold_case)),
            ),
{
}

/// A finished job does nothing more: a conversion is refused, and there is nothing to commit or
/// to roll back.
pub proof fn a_finished_job_is_over(
    v: Journal,
    input: Option<PathView>,
    destination: Option<PathView>,
    format: OutputFormat,
)
    requires
        v.finished,
    ensures
        v.convert(input, destination, format) == v.fail("이미 종료된 변환 작업입니다"@),
        v.commit() == v.succeed(),
        v.rollback() == v.succeed(),
{
}

/// The disk stands in the way of a rollback: it refuses to remove or to move a file, or something
/// stands where a file belongs. A file that is gone already, and a folder into which something else
/// was put, are no obstacles.
pub open spec fn is_obstacle(v: Journal, o: Outcome<Seq<char>>) -> bool {
    match v.stage {
        Stage::Reinstate { .. } | Stage::Sources { .. } => o == Outcome::<Seq<char>>::Exists(true),
        Stage::PutBack { .. } | Stage::Return { .. } => o is Failed,
        Stage::Folders { .. } => o matches Outcome::Failed(fault, _) && fault == Fault::Other,
        _ => o matches Outcome::Failed(fault, _) && fault != Fault::NotFound,
    }
}

/// A rollback that meets no obstacle succeeds: it notes no error on its way, and its end is the end
/// of the job.
pub proof fn an_unhindered_rollback_succeeds(v: Journal, o: Outcome<Seq<char>>)
    requires
        v.wf(),
        0 < distance(v).0 <= 6,
        v.errors.len() == 0,
        !is_obstacle(v, o),
    ensures
        v.step(o).errors.len() == 0,
        v.step(o).stage == Stage::Idle ==> v.step(o).finished && v.step(o).last is None,
{
    match v.stage {
        Stage::Withdraw { left } => assert(v.after_withdraw(left, o).errors.len() == 0),
        Stage::PutBack { left } => assert(v.after_put_back(left, o).errors.len() == 0),
        Stage::Return { at } => assert(v.after_return(at, o).errors.len() == 0),
        Stage::Folders { left } => assert(v.after_folders(left, o).errors.len() == 0),
        Stage::Temporaries { at } => assert(v.after_temporaries(at, o).errors.len() == 0),
        _ => {},
    }
}

/// Nothing is moved into keeping before the notes say where it will be.
pub proof fn what_is_kept_is_noted_first(v: Journal, o: Outcome<Seq<char>>)
    requires
        v.wf(),
        countable(v),
        v.step(o).stage is KeepOriginal || v.step(o).stage is MoveSource,
        v.stage != v.step(o).stage,
    ensures
        !(o is Failed),
        v.step(o).action() matches Action::Rename { from, to } && v.action() == (
        Action::AppendLine { file: v.notes(), line: v.mapping_line(to, from) }),
{
    match v.stage {
        Stage::Target => assert(!(v.after_target(o).stage is KeepOriginal) && !(v.after_target(
            o,
        ).stage is MoveSource)),
        Stage::CheckChain { depth, at } => assert(!(v.after_check_chain(depth, at, o).stage
            is KeepOriginal)),
        Stage::MakeFolder { at } => assert(!(v.after_make_folder(at, o).stage is KeepOriginal)),
        Stage::Publish => assert(!(v.after_publish(o).stage is KeepOriginal)),
        Stage::Restore => assert(!(v.after_restore(o).stage is KeepOriginal)),
        Stage::Source { at } => assert(!(v.after_source(at).stage is MoveSource)),
        Stage::Check { at } => assert(!(v.after_check(at, o).stage is MoveSource)),
        Stage::MapSource { at } => assert(v.step(o) == v.after_map_source(at, o)),
        Stage::MapOriginal => assert(v.step(o) == v.after_map_original(o)),
        Stage::Temporaries { at } => assert(!(v.after_temporaries(at, o).stage is MoveSource)),
        Stage::Withdraw { left } => assert(!(v.after_withdraw(left, o).stage is MoveSource)),
        Stage::Purge { at } => assert(!(v.after_purge(at, o).stage is MoveSource)),
        _ => {},
    }
}

} // verus!
