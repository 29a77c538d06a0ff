//! Puts the entries of one folder into playback order, without rewriting any audio.
use crate::disk::{
    refusal, refused, to_list, to_move, to_probe, to_remove_folder, Action, Outcome,
};
use crate::journal::because;
use crate::naming::{folded_order, name_order, names_are_totally_ordered};
use crate::path::{FilePath, PathView};
use crate::text::{
    begins_with, glue, glue4, lemma_lex_equal, lemma_lex_flip, lemma_lex_transitive, lex, lex_order,
    same_text, starts_with, texts, Order,
};
use crate::transaction::with_cause;
use vstd::prelude::*;
use vstd::relations::{sorted_by, total_ordering};
use vstd::seq_lib::{group_to_multiset_ensures, lemma_sorted_unique};

verus! {

// ---------------------------------------------------------------------------
// The order of entries
// ---------------------------------------------------------------------------

/// The order of two entries: the natural order of their names, and by their characters where names
/// differ in case alone.
pub open spec fn entry_order(a: Seq<char>, b: Seq<char>) -> Order {
    if folded_order(a, b) == Order::Equal {
        lex(a, b)
    } else {
        folded_order(a, b)
    }
}

/// One entry does not stand behind the other.
pub open spec fn in_order() -> spec_fn(Seq<char>, Seq<char>) -> bool {
    |a: Seq<char>, b: Seq<char>| entry_order(a, b) != Order::Greater
}

/// The entries of a folder in playback order.
pub open spec fn arranged(names: Seq<Seq<char>>) -> Seq<Seq<char>> {
    names.sort_by(in_order())
}

proof fn lemma_entry_order(a: Seq<char>, b: Seq<char>, c: Seq<char>)
    ensures
        entry_order(b, a) == entry_order(a, b).flip(),
        entry_order(a, b) == Order::Equal <==> a == b,
        entry_order(a, b) != Order::Greater && entry_order(b, c) != Order::Greater ==> entry_order(
            a,
            c,
        ) != Order::Greater,
{
    names_are_totally_ordered(a, b, c);
    names_are_totally_ordered(b, a, c);
    names_are_totally_ordered(b, c, a);
    names_are_totally_ordered(c, b, a);
    names_are_totally_ordered(a, c, b);
    names_are_totally_ordered(c, a, b);
    lemma_lex_flip(a, b);
    lemma_lex_equal(a, b);
    lemma_lex_equal(b, c);
    lemma_lex_equal(a, c);
    if lex(a, b) == Order::Less && lex(b, c) == Order::Less {
        lemma_lex_transitive(a, b, c);
    }
}

/// Entries have one playback order: any two of them are in order one way or the other, and only
/// an entry itself is in order with itself both ways.
pub proof fn entries_are_totally_ordered()
    ensures
        total_ordering(in_order()),
{
    let leq = in_order();
    assert forall|x: Seq<char>| #[trigger] leq(x, x) by {
        lemma_entry_order(x, x, x);
    }
    assert forall|x: Seq<char>, y: Seq<char>| #[trigger] leq(x, y) && #[trigger] leq(y, x) implies x
        == y by {
        lemma_entry_order(x, y, x);
    }
    assert forall|x: Seq<char>, y: Seq<char>, z: Seq<char>| #[trigger]
        leq(x, y) && #[trigger] leq(y, z) implies leq(x, z) by {
        lemma_entry_order(x, y, z);
    }
    assert forall|x: Seq<char>, y: Seq<char>| #[trigger] leq(x, y) || #[trigger] leq(y, x) by {
        lemma_entry_order(x, y, x);
    }
}

/// Putting entries into order loses none and adds none.
pub proof fn arranging_keeps_every_entry(names: Seq<Seq<char>>)
    ensures
        arranged(names).to_multiset() == names.to_multiset(),
        sorted_by(arranged(names), in_order()),
{
    entries_are_totally_ordered();
    names.lemma_sort_by_ensures(in_order());
}

/// Compares two entries.
fn compare_entries(a: &str, b: &str) -> (r: Order)
    ensures
        r == entry_order(a@, b@),
{
    match name_order(a, b) {
        Order::Equal => lex_order(a, b),
        Order::Less => Order::Less,
        Order::Greater => Order::Greater,
    }
}

/// Puts one more name at its place in a sorted list.
fn insert_entry(names: &mut Vec<String>, name: &String)
    requires
        sorted_by(texts(old(names)@), in_order()),
    ensures
        sorted_by(texts(final(names)@), in_order()),
        texts(final(names)@).to_multiset() == texts(old(names)@).to_multiset().insert(name@),
{
    let ghost before = texts(names@);
    let mut i: usize = names.len();
    while i > 0 && compare_entries(names[i - 1].as_str(), name.as_str()) == Order::Greater
        invariant
            i <= names@.len(),
            names@ == old(names)@,
            before == texts(names@),
            forall|k: int|
                i <= k < before.len() ==> entry_order(#[trigger] before[k], name@)
                    == Order::Greater,
        decreases i,
    {
        i = i - 1;
    }
    names.insert(i, name.clone());
    proof {
        let after = texts(names@);
        let leq = in_order();
        assert(after =~= before.insert(i as int, name@));
        entries_are_totally_ordered();
        assert forall|j: int, k: int| 0 <= j < k < after.len() implies #[trigger] leq(
            after[j],
            after[k],
        ) by {
            if j < i && k < i {
                assert(leq(before[j], before[k]));
            } else if j < i && k == i {
                assert(leq(before[i - 1], name@));
                if j < i - 1 {
                    assert(leq(before[j], before[i - 1]));
                }
            } else if j < i {
                assert(leq(before[j], before[k - 1]));
            } else if j == i {
                lemma_entry_order(before[k - 1], name@, name@);
            } else {
                assert(leq(before[j - 1], before[k - 1]));
            }
        }
        broadcast use group_to_multiset_ensures;

    }
}

/// The entries of a folder in playback order.
pub fn arrange_names(names: &Vec<String>) -> (r: Vec<String>)
    ensures
        texts(r@) == arranged(texts(names@)),
{
    let mut r: Vec<String> = Vec::new();
    let mut i: usize = 0;
    let ghost all = texts(names@);
    proof {
        assert(texts(r@) =~= Seq::<Seq<char>>::empty());
        assert(all.take(0) =~= Seq::<Seq<char>>::empty());
    }
    while i < names.len()
        invariant
            i <= names@.len(),
            all == texts(names@),
            sorted_by(texts(r@), in_order()),
            texts(r@).to_multiset() == all.take(i as int).to_multiset(),
        decreases names@.len() - i,
    {
        insert_entry(&mut r, &names[i]);
        proof {
            broadcast use group_to_multiset_ensures;

            assert(all.take(i + 1) =~= all.take(i as int).push(all[i as int]));
        }
        i = i + 1;
    }
    proof {
        assert(all.take(i as int) =~= all);
        entries_are_totally_ordered();
        all.lemma_sort_by_ensures(in_order());
        lemma_sorted_unique(texts(r@), arranged(all), in_order());
    }
    r
}

// ---------------------------------------------------------------------------
// One folder
// ---------------------------------------------------------------------------

/// An entry of a folder, with its attributes where the system has any.
#[derive(Debug)]
pub struct DirEntry {
    pub name: String,
    pub attributes: u32,
}

/// What an entry says.
#[verifier::ext_equal]
pub struct Listed {
    pub name: Seq<char>,
    pub attributes: u32,
}

impl View for DirEntry {
    type V = Listed;

    open spec fn view(&self) -> Listed {
        Listed { name: self.name@, attributes: self.attributes }
    }
}

/// What a listing says.
pub open spec fn listing(v: Seq<DirEntry>) -> Seq<Listed> {
    Seq::new(v.len(), |i: int| v[i]@)
}

/// The name is that of a folder in which entries are held while they are put into order.
pub open spec fn is_holder(name: Seq<char>) -> bool {
    begins_with(name, ".wav-converter-order-"@)
}

/// Hidden entries and those of the system are left alone.
pub open spec fn is_visible(entry: Listed) -> bool {
    entry.attributes & 6 == 0
}

/// The first entry that an earlier run has left behind.
pub open spec fn leftover(entries: Seq<Listed>) -> Option<Seq<char>>
    decreases entries.len(),
{
    if entries.len() == 0 {
        None
    } else {
        match leftover(entries.drop_last()) {
            Some(name) => Some(name),
            None => if is_holder(entries.last().name) {
                Some(entries.last().name)
            } else {
                None
            },
        }
    }
}

/// The names of the visible entries.
pub open spec fn visible_names(entries: Seq<Listed>) -> Seq<Seq<char>>
    decreases entries.len(),
{
    if entries.len() == 0 {
        Seq::empty()
    } else {
        let front = visible_names(entries.drop_last());
        if is_visible(entries.last()) {
            front.push(entries.last().name)
        } else {
            front
        }
    }
}

/// The names of a listing that are among the given ones.
pub open spec fn names_among(entries: Seq<Listed>, names: Seq<Seq<char>>) -> Seq<Seq<char>>
    decreases entries.len(),
{
    if entries.len() == 0 {
        Seq::empty()
    } else {
        let front = names_among(entries.drop_last(), names);
        if names.contains(entries.last().name) {
            front.push(entries.last().name)
        } else {
            front
        }
    }
}

/// Where the arranging of one folder stands.
#[derive(Debug, Clone, Copy, PartialEq, Eq, Structural)]
pub enum SortStage {
    /// Listing the folder.
    List,
    /// Creating the folder in which its entries are held.
    Create,
    /// Moving an entry there.
    MoveOut { at: usize },
    /// Making sure that nothing took the place of an entry.
    ProbeBack { at: usize },
    /// Moving an entry back, in order.
    MoveBack { at: usize },
    /// After an error: asking whether an entry is still held.
    Undo { at: usize },
    /// Asking whether its place is free.
    UndoProbe { at: usize },
    /// Moving it back.
    UndoMove { at: usize },
    /// Removing the holding folder, which succeeds only where nothing is left in it.
    UndoRemove,
    /// Removing the holding folder.
    Remove,
    /// Listing the folder again.
    Verify,
    Over,
}

/// How the arranging of one folder ended.
#[derive(Debug)]
pub enum Verdict<S> {
    Pending,
    /// There was nothing to put into order.
    Unneeded,
    /// The disk lists the entries in order.
    Checked,
    Failed(S),
}

/// The arranging of one folder.
#[verifier::ext_equal]
pub struct SortingView {
    pub folder: PathView,
    /// How the name of the holding folder begins.
    pub prefix: Seq<char>,
    pub separator: Seq<char>,
    pub stage: SortStage,
    pub entries: Seq<Seq<char>>,
    pub holder: PathView,
    pub error: Seq<char>,
    pub verdict: Verdict<Seq<char>>,
}

impl SortingView {
    pub open spec fn start(folder: PathView, prefix: Seq<char>, separator: Seq<char>) -> SortingView {
        SortingView {
            folder,
            prefix,
            separator,
            stage: SortStage::List,
            entries: Seq::empty(),
            holder: folder,
            error: Seq::empty(),
            verdict: Verdict::Pending,
        }
    }

    pub open spec fn wf(self) -> bool {
        match self.stage {
            SortStage::MoveOut { at }
            | SortStage::ProbeBack { at }
            | SortStage::MoveBack { at }
            | SortStage::UndoProbe { at }
            | SortStage::UndoMove { at } => at < self.entries.len(),
            SortStage::Undo { at } => at <= self.entries.len(),
            SortStage::Create => self.entries.len() > 1,
            _ => true,
        }
    }

    pub open spec fn at(self, stage: SortStage) -> SortingView {
        SortingView { stage, ..self }
    }

    pub open spec fn end(self, verdict: Verdict<Seq<char>>) -> SortingView {
        SortingView { stage: SortStage::Over, verdict, ..self }
    }

    pub open spec fn fail(self, text: Seq<char>) -> SortingView {
        self.end(Verdict::Failed(text))
    }

    pub open spec fn show(self, p: PathView) -> Seq<char> {
        p.shown(self.separator)
    }

    /// The place of an entry in the folder.
    pub open spec fn place(self, at: int) -> PathView {
        self.folder.child(self.entries[at])
    }

    /// The place of an entry while it is held.
    pub open spec fn held(self, at: int) -> PathView {
        self.holder.child(self.entries[at])
    }

    /// Something went wrong: what can be put back is put back.
    pub open spec fn undo(self, error: Seq<char>) -> SortingView {
        SortingView { error, stage: SortStage::Undo { at: 0 }, ..self }
    }

    /// The folder was listed.
    pub open spec fn listed(self, entries: Seq<Listed>) -> SortingView {
        match self.stage {
            SortStage::List => match leftover(entries) {
                Some(name) => self.fail(
                    "이전 순서 정리의 복구 폴더가 있습니다: "@ + self.show(self.folder.child(name)),
                ),
                None => if visible_names(entries).len() < 2 {
                    self.end(Verdict::Unneeded)
                } else {
                    SortingView {
                        entries: arranged(visible_names(entries)),
                        stage: SortStage::Create,
                        ..self
                    }
                },
            },
            SortStage::Verify => if names_among(entries, self.entries) == self.entries {
                self.end(Verdict::Checked)
            } else {
                self.fail(
                    "파일은 보존했지만 파일시스템에서 요청한 기록 순서를 확인할 수 없습니다: "@ + self.show(
                        self.folder,
                    ),
                )
            },
            _ => self,
        }
    }

    pub open spec fn after_move_out(self, at: usize, o: Outcome<Seq<char>>) -> SortingView {
        match refusal(o) {
            Some(message) => self.undo(message),
            None => if at + 1 < self.entries.len() {
                self.at(SortStage::MoveOut { at: (at + 1) as usize })
            } else {
                self.at(SortStage::ProbeBack { at: 0 })
            },
        }
    }

    pub open spec fn after_probe_back(self, at: usize, o: Outcome<Seq<char>>) -> SortingView {
        if o == Outcome::<Seq<char>>::Exists(true) {
            self.undo("정리 중 새 파일이 생겼습니다: "@ + self.show(self.place(at as int)))
        } else {
            self.at(SortStage::MoveBack { at })
        }
    }

    pub open spec fn after_move_back(self, at: usize, o: Outcome<Seq<char>>) -> SortingView {
        match refusal(o) {
            Some(message) => self.undo(message),
            None => if at + 1 < self.entries.len() {
                self.at(SortStage::ProbeBack { at: (at + 1) as usize })
            } else {
                self.at(SortStage::Remove)
            },
        }
    }

    pub open spec fn after_undo(self, at: usize, o: Outcome<Seq<char>>) -> SortingView {
        if at >= self.entries.len() {
            self.at(SortStage::UndoRemove)
        } else if o == Outcome::<Seq<char>>::Exists(true) {
            self.at(SortStage::UndoProbe { at })
        } else {
            self.at(SortStage::Undo { at: (at + 1) as usize })
        }
    }

    /// A place that was taken meanwhile is never overwritten.
    pub open spec fn after_undo_probe(self, at: usize, o: Outcome<Seq<char>>) -> SortingView {
        if o == Outcome::<Seq<char>>::Exists(true) {
            self.at(SortStage::Undo { at: (at + 1) as usize })
        } else {
            self.at(SortStage::UndoMove { at })
        }
    }

    pub open spec fn failure(self) -> Seq<char> {
        because(
            "순서 정리 실패: "@ + self.show(self.folder) + ". 남은 파일은 복구 폴더 "@ + self.show(
                self.holder,
            ) + "에서 확인하세요"@,
            self.error,
        )
    }

    /// What is asked of the disk.
    pub open spec fn action(self) -> Action<PathView, Seq<char>> {
        match self.stage {
            SortStage::List | SortStage::Verify => Action::List(self.folder),
            SortStage::Create => Action::CreateUnique {
                parent: self.folder,
                prefix: self.prefix,
            },
            SortStage::MoveOut { at } => Action::Rename {
                from: self.place(at as int),
                to: self.held(at as int),
            },
            SortStage::ProbeBack { at } | SortStage::UndoProbe { at } => Action::Probe(
                self.place(at as int),
            ),
            SortStage::MoveBack { at } | SortStage::UndoMove { at } => Action::Rename {
                from: self.held(at as int),
                to: self.place(at as int),
            },
            SortStage::Undo { at } => if at < self.entries.len() {
                Action::Probe(self.held(at as int))
            } else {
                Action::Continue
            },
            SortStage::UndoRemove | SortStage::Remove => Action::RemoveFolder(self.holder),
            SortStage::Over => Action::Continue,
        }
    }

    /// The arranging once the disk has answered, or has refused to list the folder.
    pub open spec fn step(self, o: Outcome<Seq<char>>) -> SortingView {
        match self.stage {
            SortStage::List | SortStage::Verify => match refusal(o) {
                Some(message) => self.fail(message),
                None => self,
            },
            SortStage::Create => match o {
                Outcome::Created(name) => SortingView {
                    holder: self.folder.child(name),
                    stage: SortStage::MoveOut { at: 0 },
                    ..self
                },
                Outcome::Failed(_, message) => self.fail(message),
                _ => self,
            },
            SortStage::MoveOut { at } => self.after_move_out(at, o),
            SortStage::ProbeBack { at } => self.after_probe_back(at, o),
            SortStage::MoveBack { at } => self.after_move_back(at, o),
            SortStage::Undo { at } => self.after_undo(at, o),
            SortStage::UndoProbe { at } => self.after_undo_probe(at, o),
            SortStage::UndoMove { at } => self.at(SortStage::Undo { at: (at + 1) as usize }),
            SortStage::UndoRemove => self.fail(self.failure()),
            SortStage::Remove => match refusal(o) {
                Some(message) => self.fail(message),
                None => self.at(SortStage::Verify),
            },
            SortStage::Over => self,
        }
    }
}

/// What a verdict says.
pub open spec fn verdict(v: Verdict<String>) -> Verdict<Seq<char>> {
    match v {
        Verdict::Pending => Verdict::Pending,
        Verdict::Unneeded => Verdict::Unneeded,
        Verdict::Checked => Verdict::Checked,
        Verdict::Failed(text) => Verdict::Failed(text@),
    }
}

/// The arranging of one folder. Entries are moved into a holding folder and back in order, so that
/// the disk lists them in that order.
#[derive(Debug)]
pub struct Sorting {
    folder: FilePath,
    prefix: String,
    separator: String,
    stage: SortStage,
    entries: Vec<String>,
    holder: FilePath,
    error: String,
    verdict: Verdict<String>,
}

impl View for Sorting {
    type V = SortingView;

    closed spec fn view(&self) -> SortingView {
        SortingView {
            folder: self.folder@,
            prefix: self.prefix@,
            separator: self.separator@,
            stage: self.stage,
            entries: texts(self.entries@),
            holder: self.holder@,
            error: self.error@,
            verdict: verdict(self.verdict),
        }
    }
}

/// The first entry that an earlier run has left behind.
fn find_leftover(entries: &Vec<DirEntry>) -> (r: Option<String>)
    ensures
        match (r, leftover(listing(entries@))) {
            (Some(text), Some(name)) => text@ == name,
            (None, None) => true,
            _ => false,
        },
{
    let ghost all = listing(entries@);
    let mut i: usize = 0;
    while i < entries.len()
        invariant
            i <= entries@.len(),
            all == listing(entries@),
            leftover(all.take(i as int)) is None,
        decreases entries@.len() - i,
    {
        assert(all.take(i + 1).drop_last() =~= all.take(i as int));
        assert(all.take(i + 1).last() == entries@[i as int]@);
        if starts_with(entries[i].name.as_str(), ".wav-converter-order-") {
            proof {
                lemma_leftover_stays(all, i + 1);
                assert(all.take(all.len() as int) =~= all);
            }
            return Some(entries[i].name.clone());
        }
        i = i + 1;
    }
    assert(all.take(i as int) =~= all);
    None
}

proof fn lemma_leftover_stays(entries: Seq<Listed>, n: int)
    requires
        0 <= n <= entries.len(),
        leftover(entries.take(n)) is Some,
    ensures
        leftover(entries.take(entries.len() as int)) == leftover(entries.take(n)),
    decreases entries.len() - n,
{
    if n < entries.len() {
        assert(entries.take(n + 1).drop_last() =~= entries.take(n));
        lemma_leftover_stays(entries, n + 1);
    }
}

/// The names of the visible entries.
fn collect_visible(entries: &Vec<DirEntry>) -> (r: Vec<String>)
    ensures
        texts(r@) == visible_names(listing(entries@)),
{
    let ghost all = listing(entries@);
    let mut r: Vec<String> = Vec::new();
    let mut i: usize = 0;
    assert(texts(r@) =~= Seq::<Seq<char>>::empty());
    while i < entries.len()
        invariant
            i <= entries@.len(),
            all == listing(entries@),
            texts(r@) == visible_names(all.take(i as int)),
        decreases entries@.len() - i,
    {
        let ghost before = r@;
        assert(all.take(i + 1).drop_last() =~= all.take(i as int));
        assert(all.take(i + 1).last() == entries@[i as int]@);
        if entries[i].attributes & 6 == 0 {
            r.push(entries[i].name.clone());
            assert(texts(r@) =~= texts(before).push(all[i as int].name));
        }
        i = i + 1;
    }
    assert(all.take(i as int) =~= all);
    r
}

/// Whether a text is one of a list.
pub fn is_one_of(names: &Vec<String>, name: &str) -> (r: bool)
    ensures
        r == texts(names@).contains(name@),
{
    let mut i: usize = 0;
    while i < names.len()
        invariant
            i <= names@.len(),
            forall|k: int| 0 <= k < i ==> #[trigger] texts(names@)[k] != name@,
        decreases names@.len() - i,
    {
        if same_text(names[i].as_str(), name) {
            assert(texts(names@)[i as int] == name@);
            return true;
        }
        i = i + 1;
    }
    false
}

/// Whether two lists of texts are the same.
pub fn same_texts(a: &Vec<String>, b: &Vec<String>) -> (r: bool)
    ensures
        r == (texts(a@) == texts(b@)),
{
    if a.len() != b.len() {
        assert(texts(a@).len() != texts(b@).len());
        return false;
    }
    let mut i: usize = 0;
    while i < a.len()
        invariant
            i <= a@.len(),
            a@.len() == b@.len(),
            forall|k: int| 0 <= k < i ==> #[trigger] texts(a@)[k] == texts(b@)[k],
        decreases a@.len() - i,
    {
        if !same_text(a[i].as_str(), b[i].as_str()) {
            assert(texts(a@)[i as int] != texts(b@)[i as int]);
            return false;
        }
        i = i + 1;
    }
    assert(texts(a@) =~= texts(b@));
    true
}

/// The names of a listing that are among the given ones.
fn collect_among(entries: &Vec<DirEntry>, names: &Vec<String>) -> (r: Vec<String>)
    ensures
        texts(r@) == names_among(listing(entries@), texts(names@)),
{
    let ghost all = listing(entries@);
    let mut r: Vec<String> = Vec::new();
    let mut i: usize = 0;
    assert(texts(r@) =~= Seq::<Seq<char>>::empty());
    while i < entries.len()
        invariant
            i <= entries@.len(),
            all == listing(entries@),
            texts(r@) == names_among(all.take(i as int), texts(names@)),
        decreases entries@.len() - i,
    {
        let ghost before = r@;
        assert(all.take(i + 1).drop_last() =~= all.take(i as int));
        assert(all.take(i + 1).last() == entries@[i as int]@);
        if is_one_of(names, entries[i].name.as_str()) {
            r.push(entries[i].name.clone());
            assert(texts(r@) =~= texts(before).push(all[i as int].name));
        }
        i = i + 1;
    }
    assert(all.take(i as int) =~= all);
    r
}

impl Sorting {
    /// Whether the arranging is over.
    pub fn is_over(&self) -> (r: bool)
        ensures
            r == (self@.stage == SortStage::Over),
    {
        matches!(self.stage, SortStage::Over)
    }

    /// How the arranging ended, or that it has not.
    pub fn verdict(&self) -> (r: &Verdict<String>)
        ensures
            verdict(*r) == self@.verdict,
    {
        &self.verdict
    }

    /// The folder that is arranged.
    pub fn folder(&self) -> (r: &FilePath)
        ensures
            r@ == self@.folder,
    {
        &self.folder
    }

    /// The entries of the folder, in playback order.
    pub fn entries(&self) -> (r: &Vec<String>)
        ensures
            texts(r@) == self@.entries,
    {
        &self.entries
    }
}

impl Sorting {
    /// Begins to arrange one folder.
    pub fn new(folder: FilePath, prefix: String, separator: &str) -> (r: Sorting)
        ensures
            r@ == SortingView::start(folder@, prefix@, separator@),
            r@.wf(),
    {
        let holder = folder.copy();
        let r = Sorting {
            folder,
            prefix,
            separator: separator.to_owned(),
            stage: SortStage::List,
            entries: Vec::new(),
            holder,
            error: String::new(),
            verdict: Verdict::Pending,
        };
        assert(r@ =~= SortingView::start(folder@, prefix@, separator@));
        r
    }

    fn go(&mut self, stage: SortStage)
        ensures
            final(self)@ == old(self)@.at(stage),
    {
        self.stage = stage;
    }

    fn end(&mut self, v: Verdict<String>)
        ensures
            final(self)@ == old(self)@.end(verdict(v)),
    {
        self.stage = SortStage::Over;
        self.verdict = v;
    }

    fn undo(&mut self, error: String)
        ensures
            final(self)@ == old(self)@.undo(error@),
    {
        self.error = error;
        self.stage = SortStage::Undo { at: 0 };
    }

    fn show(&self, p: &FilePath) -> (r: String)
        ensures
            r@ == self@.show(p@),
    {
        p.show(self.separator.as_str())
    }

    fn place(&self, at: usize) -> (r: FilePath)
        requires
            at < self@.entries.len(),
        ensures
            r@ == self@.place(at as int),
    {
        self.folder.child(self.entries[at].as_str())
    }

    fn held(&self, at: usize) -> (r: FilePath)
        requires
            at < self@.entries.len(),
        ensures
            r@ == self@.held(at as int),
    {
        self.holder.child(self.entries[at].as_str())
    }

    /// Takes the next step, once the folder has been listed.
    pub fn resume_listed(&mut self, entries: &Vec<DirEntry>)
        requires
            old(self)@.wf(),
        ensures
            final(self)@ == old(self)@.listed(listing(entries@)),
            final(self)@.wf(),
    {
        match self.stage {
            SortStage::List => match find_leftover(entries) {
                Some(name) => {
                    let place = self.show(&self.folder.child(name.as_str()));
                    self.end(
                        Verdict::Failed(
                            glue("이전 순서 정리의 복구 폴더가 있습니다: ", place.as_str()),
                        ),
                    );
                },
                None => {
                    let names = collect_visible(entries);
                    assert(texts(names@).len() == names.len());
                    if names.len() < 2 {
                        self.end(Verdict::Unneeded);
                    } else {
                        self.entries = arrange_names(&names);
                        self.stage = SortStage::Create;
                        proof {
                            broadcast use group_to_multiset_ensures;

                            let all = texts(names@);
                            arranging_keeps_every_entry(all);
                            assert(arranged(all).to_multiset().len() == all.to_multiset().len());
                        }
                    }
                },
            },
            SortStage::Verify => {
                let actual = collect_among(entries, &self.entries);
                if same_texts(&actual, &self.entries) {
                    self.end(Verdict::Checked);
                } else {
                    let place = self.show(&self.folder);
                    self.end(
                        Verdict::Failed(
                            glue(
                                "파일은 보존했지만 파일시스템에서 요청한 기록 순서를 확인할 수 없습니다: ",
                                place.as_str(),
                            ),
                        ),
                    );
                }
            },
            _ => {},
        }
    }

    /// What is to be done on the disk, or nothing once the arranging is over.
    pub fn pending(&self) -> (r: Option<Action<FilePath, String>>)
        requires
            self@.wf(),
        ensures
            match r {
                Some(action) => self@.stage != SortStage::Over && action@ == self@.action(),
                None => self@.stage == SortStage::Over,
            },
    {
        match self.stage {
            SortStage::List | SortStage::Verify => Some(Action::List(self.folder.copy())),
            SortStage::Create => Some(
                Action::CreateUnique { parent: self.folder.copy(), prefix: self.prefix.clone() },
            ),
            SortStage::MoveOut { at } => Some(
                Action::Rename { from: self.place(at), to: self.held(at) },
            ),
            SortStage::ProbeBack { at } | SortStage::UndoProbe { at } => Some(
                Action::Probe(self.place(at)),
            ),
            SortStage::MoveBack { at } | SortStage::UndoMove { at } => Some(
                Action::Rename { from: self.held(at), to: self.place(at) },
            ),
            SortStage::Undo { at } => if at < self.entries.len() {
                Some(Action::Probe(self.held(at)))
            } else {
                Some(Action::Continue)
            },
            SortStage::UndoRemove | SortStage::Remove => Some(
                Action::RemoveFolder(self.holder.copy()),
            ),
            SortStage::Over => None,
        }
    }

    /// Takes the next step, once the disk has answered, or has refused to list the folder.
    pub fn resume(&mut self, o: &Outcome<String>)
        requires
            old(self)@.wf(),
        ensures
            final(self)@ == old(self)@.step(o@),
            final(self)@.wf(),
    {
        let n = self.entries.len();
        assert(n == self@.entries.len());
        match self.stage {
            SortStage::List | SortStage::Verify => {
                if let Some(message) = refused(o) {
                    self.end(Verdict::Failed(message));
                }
            },
            SortStage::Create => match o {
                Outcome::Created(name) => {
                    self.holder = self.folder.child(name.as_str());
                    self.stage = SortStage::MoveOut { at: 0 };
                },
                Outcome::Failed(_, message) => self.end(Verdict::Failed(message.clone())),
                _ => {},
            },
            SortStage::MoveOut { at } => match refused(o) {
                Some(message) => self.undo(message),
                None => if at + 1 < n {
                    self.go(SortStage::MoveOut { at: at + 1 });
                } else {
                    self.go(SortStage::ProbeBack { at: 0 });
                },
            },
            SortStage::ProbeBack { at } => {
                let found = matches!(o, Outcome::Exists(true));
                if found {
                    let place = self.show(&self.place(at));
                    self.undo(glue("정리 중 새 파일이 생겼습니다: ", place.as_str()));
                } else {
                    self.go(SortStage::MoveBack { at });
                }
            },
            SortStage::MoveBack { at } => match refused(o) {
                Some(message) => self.undo(message),
                None => if at + 1 < n {
                    self.go(SortStage::ProbeBack { at: at + 1 });
                } else {
                    self.go(SortStage::Remove);
                },
            },
            SortStage::Undo { at } => {
                let found = matches!(o, Outcome::Exists(true));
                if at >= n {
                    self.go(SortStage::UndoRemove);
                } else if found {
                    self.go(SortStage::UndoProbe { at });
                } else {
                    self.go(SortStage::Undo { at: at + 1 });
                }
            },
            SortStage::UndoProbe { at } => {
                let found = matches!(o, Outcome::Exists(true));
                if found {
                    self.go(SortStage::Undo { at: at + 1 });
                } else {
                    self.go(SortStage::UndoMove { at });
                }
            },
            SortStage::UndoMove { at } => self.go(SortStage::Undo { at: at + 1 }),
            SortStage::UndoRemove => {
                let text = glue4(
                    "순서 정리 실패: ",
                    self.show(&self.folder).as_str(),
                    ". 남은 파일은 복구 폴더 ",
                    self.show(&self.holder).as_str(),
                );
                let text = glue(text.as_str(), "에서 확인하세요");
                self.end(Verdict::Failed(with_cause(text.as_str(), self.error.as_str())));
            },
            SortStage::Remove => match refused(o) {
                Some(message) => self.end(Verdict::Failed(message)),
                None => self.go(SortStage::Verify),
            },
            SortStage::Over => {},
        }
    }
}

// ---------------------------------------------------------------------------
// What arranging does to the entries
// ---------------------------------------------------------------------------

/// Where an entry can be while its folder is arranged.
pub enum Spot {
    Folder(Seq<char>),
    Holder(Seq<char>),
}

/// What stands where: whole files, and folders with all they hold.
pub type Shelf = Map<Spot, int>;

/// What stands at a spot.
pub open spec fn item(s: Shelf, spot: Spot) -> Option<int> {
    if s.dom().contains(spot) {
        Some(s[spot])
    } else {
        None
    }
}

/// An item moved to a spot, and nothing else changed.
pub open spec fn shifted(s: Shelf, t: Shelf, from: Spot, to: Spot) -> bool {
    &&& item(s, from) is Some
    &&& item(t, to) == item(s, from)
    &&& item(t, from) is None
    &&& forall|spot: Spot| spot != from && spot != to ==> #[trigger] item(t, spot) == item(s, spot)
}

/// How a disk answers on which nobody else is at work in the folder: truthfully, and what it
/// refuses to do it leaves undone. The holding folder is new, so nothing stands in it at first.
pub open spec fn shelf_answers(v: SortingView, o: Outcome<Seq<char>>, s: Shelf, t: Shelf) -> bool {
    match v.stage {
        SortStage::Create => t == s && forall|name: Seq<char>| #[trigger]
            item(s, Spot::Holder(name)) is None,
        SortStage::MoveOut { at } => {
            let name = v.entries[at as int];
            if o is Failed {
                t == s
            } else {
                shifted(s, t, Spot::Folder(name), Spot::Holder(name))
            }
        },
        SortStage::MoveBack { at } | SortStage::UndoMove { at } => {
            let name = v.entries[at as int];
            if o is Failed {
                t == s
            } else {
                shifted(s, t, Spot::Holder(name), Spot::Folder(name))
            }
        },
        SortStage::ProbeBack { at } | SortStage::UndoProbe { at } => t == s && (o == Outcome::<
            Seq<char>,
        >::Exists(true) <==> item(s, Spot::Folder(v.entries[at as int])) is Some),
        SortStage::Undo { at } => t == s && (at < v.entries.len() ==> (o == Outcome::<
            Seq<char>,
        >::Exists(true) <==> item(s, Spot::Holder(v.entries[at as int])) is Some)),
        _ => t == s,
    }
}

/// Where every entry is: in its folder or in the holding folder, with what it held at first, and
/// everything else as it was.
pub open spec fn nothing_is_lost(v: SortingView, s0: Shelf, s: Shelf) -> bool {
    &&& forall|name: Seq<char>|
        v.entries.contains(name) ==> {
            let (here, there) = (item(s, Spot::Folder(name)), item(s, Spot::Holder(name)));
            ||| there is None && here == #[trigger] item(s0, Spot::Folder(name))
            ||| here is None && there == item(s0, Spot::Folder(name))
        }
    &&& forall|name: Seq<char>|
        !v.entries.contains(name) ==> #[trigger] item(s, Spot::Folder(name)) == item(
            s0,
            Spot::Folder(name),
        ) && item(s, Spot::Holder(name)) is None
    &&& forall|i: int|
        0 <= i < v.entries.len() ==> item(s0, Spot::Folder(#[trigger] v.entries[i])) is Some
    &&& forall|i: int, j: int| 0 <= i < j < v.entries.len() ==> v.entries[i] != v.entries[j]
}

/// How far the moving has come.
pub open spec fn is_on_the_way(v: SortingView, s: Shelf) -> bool {
    match v.stage {
        SortStage::MoveOut { at } => forall|i: int|
            0 <= i < v.entries.len() ==> (item(s, Spot::Holder(#[trigger] v.entries[i])) is Some
                <==> i < at),
        SortStage::ProbeBack { at } | SortStage::MoveBack { at } => forall|i: int|
            0 <= i < v.entries.len() ==> (item(s, Spot::Holder(#[trigger] v.entries[i])) is Some
                <==> at <= i),
        SortStage::UndoMove { at } => item(s, Spot::Folder(v.entries[at as int])) is None,
        SortStage::Remove | SortStage::Verify => forall|i: int|
            0 <= i < v.entries.len() ==> item(s, Spot::Holder(#[trigger] v.entries[i])) is None,
        _ => true,
    }
}

/// An arranging that is under way has lost nothing.
pub open spec fn is_safe(v: SortingView, s0: Shelf, s: Shelf) -> bool {
    v.wf() && nothing_is_lost(v, s0, s) && is_on_the_way(v, s)
}

/// An arranging that found the entries in order has put every one of them back.
pub proof fn checked_folders_are_complete(v: SortingView, entries: Seq<Listed>, s0: Shelf, s: Shelf)
    requires
        is_safe(v, s0, s),
        v.stage is Verify,
        v.listed(entries).verdict is Checked,
    ensures
        forall|name: Seq<char>| #[trigger]
            item(s, Spot::Folder(name)) == item(s0, Spot::Folder(name)),
{
    assert forall|name: Seq<char>| #[trigger]
        item(s, Spot::Folder(name)) == item(s0, Spot::Folder(name)) by {
        if v.entries.contains(name) {
            let i = choose|i: int| 0 <= i < v.entries.len() && v.entries[i] == name;
            assert(item(s, Spot::Holder(v.entries[i])) is None);
            assert(item(s0, Spot::Folder(v.entries[i])) is Some);
        }
    }
}

/// Whatever the disk answers, arranging loses no entry and overwrites none: each is in its folder
/// or in the holding folder, with what it held before.
pub proof fn arranging_loses_nothing(
    v: SortingView,
    o: Outcome<Seq<char>>,
    s0: Shelf,
    s: Shelf,
    t: Shelf,
)
    requires
        is_safe(v, s0, s),
        v.entries.len() < usize::MAX,
        shelf_answers(v, o, s, t),
        !(v.stage is List),
    ensures
        is_safe(v.step(o), s0, t),
{
    let w = v.step(o);
    match v.stage {
        SortStage::MoveOut { at } | SortStage::MoveBack { at } | SortStage::UndoMove { at } => {
            let name = v.entries[at as int];
            assert(v.entries.contains(name));
            if !(o is Failed) {
                assert forall|i: int|
                    0 <= i < v.entries.len() && i != at implies v.entries[i] != name by {
                    if i < at {
                        assert(v.entries[i] != v.entries[at as int]);
                    } else {
                        assert(v.entries[at as int] != v.entries[i]);
                    }
                }
                assert forall|n: Seq<char>| v.entries.contains(n) && n != name implies item(
                    t,
                    Spot::Folder(n),
                ) == item(s, Spot::Folder(n)) && item(t, Spot::Holder(n)) == #[trigger] item(
                    s,
                    Spot::Holder(n),
                ) by {}
            }
            assert(nothing_is_lost(w, s0, t));
            assert forall|i: int| 0 <= i < v.entries.len() implies item(
                s0,
                Spot::Folder(#[trigger] v.entries[i]),
            ) is Some && v.entries.contains(v.entries[i]) by {}
            assert(is_on_the_way(w, t));
        },
        _ => {
            assert forall|i: int| 0 <= i < v.entries.len() implies item(
                s0,
                Spot::Folder(#[trigger] v.entries[i]),
            ) is Some && v.entries.contains(v.entries[i]) by {}
            assert(nothing_is_lost(w, s0, t));
            assert(is_on_the_way(w, t));
        },
    }
}

/// Arranging begins with a listing: it is of entries that are there, each of them once.
pub proof fn listings_are_safe(v: SortingView, entries: Seq<Listed>, s0: Shelf)
    requires
        v.stage is List,
        v.entries.len() == 0,
        forall|i: int|
            0 <= i < entries.len() ==> item(s0, Spot::Folder((#[trigger] entries[i]).name))
                is Some,
        forall|i: int, j: int|
            0 <= i < j < entries.len() ==> (#[trigger] entries[i]).name != (
            #[trigger] entries[j]).name,
        forall|name: Seq<char>| #[trigger] item(s0, Spot::Holder(name)) is None,
    ensures
        is_safe(v.listed(entries), s0, s0),
{
    let names = visible_names(entries);
    lemma_visible(entries);
    lemma_arranged_members(names);
    broadcast use group_to_multiset_ensures;

    arranging_keeps_every_entry(names);
    assert(arranged(names).to_multiset().len() == names.to_multiset().len());
    let w = v.listed(entries);
    if w.stage is Create {
        assert forall|i: int| 0 <= i < w.entries.len() implies item(
            s0,
            Spot::Folder(#[trigger] w.entries[i]),
        ) is Some by {
            assert(arranged(names).contains(w.entries[i]));
            let k = choose|k: int| 0 <= k < names.len() && names[k] == w.entries[i];
            assert(entries_hold(entries, names[k]));
        }
    }
}

/// A listing holds a name.
pub open spec fn entries_hold(entries: Seq<Listed>, name: Seq<char>) -> bool {
    exists|i: int| 0 <= i < entries.len() && (#[trigger] entries[i]).name == name
}

/// The visible names are those of entries, each once.
proof fn lemma_visible(entries: Seq<Listed>)
    requires
        forall|i: int, j: int|
            0 <= i < j < entries.len() ==> (#[trigger] entries[i]).name != (
            #[trigger] entries[j]).name,
    ensures
        forall|k: int|
            0 <= k < visible_names(entries).len() ==> entries_hold(
                entries,
                #[trigger] visible_names(entries)[k],
            ),
        visible_names(entries).no_duplicates(),
    decreases entries.len(),
{
    if entries.len() > 0 {
        let front = entries.drop_last();
        lemma_visible(front);
        let names = visible_names(entries);
        let before = visible_names(front);
        let last = entries.last().name;
        assert forall|k: int| 0 <= k < before.len() implies entries_hold(
            entries,
            #[trigger] before[k],
        ) && before[k] != last by {
            assert(entries_hold(front, before[k]));
            let i = choose|i: int| 0 <= i < front.len() && (#[trigger] front[i]).name == before[k];
            assert(entries[i].name == before[k]);
            assert(entries[i].name != entries[entries.len() - 1].name);
        }
        assert(entries_hold(entries, last)) by {
            assert(entries[entries.len() - 1].name == last);
        }
        assert forall|k: int| 0 <= k < names.len() implies entries_hold(
            entries,
            #[trigger] names[k],
        ) by {
            if k < before.len() {
                assert(names[k] == before[k]);
            }
        }
    }
}

/// Putting names into order keeps which there are, each once.
proof fn lemma_arranged_members(names: Seq<Seq<char>>)
    requires
        names.no_duplicates(),
    ensures
        forall|name: Seq<char>| #[trigger] arranged(names).contains(name) <==> names.contains(name),
        arranged(names).no_duplicates(),
{
    broadcast use group_to_multiset_ensures;

    arranging_keeps_every_entry(names);
    let sorted = arranged(names);
    names.lemma_multiset_has_no_duplicates();
    sorted.lemma_multiset_has_no_duplicates_conv();
    assert forall|name: Seq<char>| #[trigger] sorted.contains(name) <==> names.contains(name) by {
        assert(sorted.to_multiset().count(name) == names.to_multiset().count(name));
    }
}

/// How far the arranging of a folder is from its end: the part of it that is under way, and how
/// much of that part is left.
pub open spec fn distance(v: SortingView) -> (int, int) {
    let n = v.entries.len() as int;
    match v.stage {
        SortStage::Over => (0, 0),
        SortStage::Verify => (1, 0),
        SortStage::Remove => (2, 0),
        SortStage::UndoRemove => (3, 0),
        SortStage::UndoMove { at } => (4, 3 * (n - at)),
        SortStage::UndoProbe { at } => (4, 3 * (n - at) + 1),
        SortStage::Undo { at } => (4, 3 * (n - at) + 2),
        SortStage::MoveBack { at } => (5, 2 * (n - at)),
        SortStage::ProbeBack { at } => (5, 2 * (n - at) + 1),
        SortStage::MoveOut { at } => (6, n - at),
        SortStage::Create => (7, 0),
        SortStage::List => (8, 0),
    }
}

/// The disk answers what it was asked: a folder that was to be created has a name, and a folder
/// that was to be listed was listed, unless the disk refused.
pub open spec fn answers(v: SortingView, o: Outcome<Seq<char>>) -> bool {
    match v.stage {
        SortStage::Create => o is Created || o is Failed,
        SortStage::List | SortStage::Verify => o is Failed,
        _ => true,
    }
}

/// The arranging of a folder ends: each answer, and each listing, brings it nearer to its end.
pub proof fn arranging_ends(v: SortingView, o: Outcome<Seq<char>>, entries: Seq<Listed>)
    requires
        v.wf(),
        v.stage != SortStage::Over,
        v.entries.len() <= usize::MAX,
    ensures
        distance(v).0 > 0,
        distance(v).1 >= 0,
        answers(v, o) ==> distance(v.step(o)).0 < distance(v).0 || distance(v.step(o)).0
            == distance(v).0 && distance(v.step(o)).1 < distance(v).1,
        v.stage is List || v.stage is Verify ==> distance(v.listed(entries)).0 < distance(v).0,
{
}

/// Entries go by the natural order of their names, whatever their case, and by their characters
/// only where that tells them not apart.
pub proof fn entries_go_by_their_names(a: Seq<char>, b: Seq<char>)
    ensures
        folded_order(a, b) == Order::Less ==> in_order()(a, b) && !in_order()(b, a),
        folded_order(a, b) == Order::Equal && lex(a, b) == Order::Less ==> in_order()(a, b)
            && !in_order()(b, a),
{
    lemma_entry_order(a, b, a);
}

/// An entry with the mark of a hidden one, or with that of the system, is left alone; every other
/// mark is of no account.
pub proof fn hidden_entries_are_left_alone(name: Seq<char>, attributes: u32)
    ensures
        is_visible(Listed { name, attributes }) <==> attributes & 0x2 == 0 && attributes & 0x4 == 0,
{
    assert(attributes & 6 == 0 <==> attributes & 0x2 == 0 && attributes & 0x4 == 0) by (bit_vector);
}

/// What is put into order are the visible entries of the listing, each once, in playback order;
/// with fewer than two of them there is nothing to do.
pub proof fn visible_entries_are_put_into_order(v: SortingView, entries: Seq<Listed>)
    requires
        v.stage == SortStage::List,
        forall|i: int|
            0 <= i < entries.len() ==> !begins_with(
                (#[trigger] entries[i]).name,
                ".wav-converter-order-"@,
            ),
    ensures
        visible_names(entries).len() < 2 ==> v.listed(entries) == (SortingView {
            stage: SortStage::Over,
            verdict: Verdict::Unneeded,
            ..v
        }),
        visible_names(entries).len() >= 2 ==> {
            let w = v.listed(entries);
            &&& w == (SortingView { stage: SortStage::Create, entries: w.entries, ..v })
            &&& sorted_by(w.entries, in_order())
            &&& w.entries.to_multiset() == visible_names(entries).to_multiset()
        },
{
    lemma_no_leftover(entries);
    arranging_keeps_every_entry(visible_names(entries));
}

proof fn lemma_no_leftover(entries: Seq<Listed>)
    requires
        forall|i: int| 0 <= i < entries.len() ==> !is_holder((#[trigger] entries[i]).name),
    ensures
        leftover(entries) is None,
    decreases entries.len(),
{
    if entries.len() > 0 {
        let front = entries.drop_last();
        assert forall|i: int| 0 <= i < front.len() implies !is_holder((#[trigger] front[i]).name) by {
            assert(front[i] == entries[i]);
        }
        lemma_no_leftover(front);
        assert(!is_holder(entries[entries.len() - 1].name));
    }
}

proof fn lemma_found_leftover(entries: Seq<Listed>, i: int)
    requires
        0 <= i < entries.len(),
        is_holder(entries[i].name),
    ensures
        leftover(entries) is Some,
    decreases entries.len(),
{
    if i < entries.len() - 1 {
        assert(entries.drop_last()[i] == entries[i]);
        lemma_found_leftover(entries.drop_last(), i);
    }
}

/// The visible entries of a listing are taken one by one: a visible one is added behind those
/// before it, and a hidden one is passed over.
pub proof fn visible_entries_are_taken_one_by_one(front: Seq<Listed>, entry: Listed)
    ensures
        visible_names(Seq::<Listed>::empty()).len() == 0,
        is_visible(entry) ==> visible_names(front.push(entry)) == visible_names(front).push(
            entry.name,
        ),
        !is_visible(entry) ==> visible_names(front.push(entry)) == visible_names(front),
{
    assert(front.push(entry).drop_last() =~= front);
}

/// Where an earlier run has left something behind, nothing is moved: the arranging ends with an
/// error that says what was found.
pub proof fn what_was_left_behind_is_not_touched(v: SortingView, entries: Seq<Listed>, i: int)
    requires
        v.stage == SortStage::List,
        0 <= i < entries.len(),
        begins_with(entries[i].name, ".wav-converter-order-"@),
    ensures
        v.listed(entries).stage == SortStage::Over,
        exists|name: Seq<char>|
            begins_with(name, ".wav-converter-order-"@) && v.listed(entries).verdict
                == Verdict::Failed(
                "이전 순서 정리의 복구 폴더가 있습니다: "@ + (#[trigger] v.folder.child(name)).shown(
                    v.separator,
                ),
            ),
{
    lemma_found_leftover(entries, i);
    lemma_leftover_is_holder(entries);
    let name = leftover(entries)->0;
    assert(v.folder.child(name) == v.folder.child(name));
}

proof fn lemma_leftover_is_holder(entries: Seq<Listed>)
    ensures
        leftover(entries) matches Some(name) ==> is_holder(name),
    decreases entries.len(),
{
    if entries.len() > 0 {
        lemma_leftover_is_holder(entries.drop_last());
    }
}

/// What a disk answers in whose way nothing stands: a place that is asked about is free, and all
/// else is done.
pub open spec fn smooth(v: SortingView) -> Outcome<Seq<char>> {
    match v.action() {
        Action::Probe(_) => Outcome::Exists(false),
        _ => Outcome::Done,
    }
}

/// The arranging some answers further on.
pub open spec fn after_smooth(v: SortingView, n: nat) -> SortingView
    decreases n,
{
    if n == 0 {
        v
    } else {
        after_smooth(v, (n - 1) as nat).step(smooth(after_smooth(v, (n - 1) as nat)))
    }
}

/// Every entry is moved out first, one after the other, from its place into the holding folder.
pub proof fn entries_are_moved_out_one_by_one(v: SortingView, n: nat)
    requires
        v.wf(),
        v.stage == (SortStage::MoveOut { at: 0 }),
        n <= v.entries.len() <= usize::MAX,
    ensures
        n < v.entries.len() ==> after_smooth(v, n).action() == to_move(
            v.folder.child(v.entries[n as int]),
            v.holder.child(v.entries[n as int]),
        ),
        n < v.entries.len() ==> after_smooth(v, n) == v.at(SortStage::MoveOut { at: n as usize }),
        n == v.entries.len() ==> after_smooth(v, n) == v.at(SortStage::ProbeBack { at: 0 }),
    decreases n,
{
    if n > 0 {
        entries_are_moved_out_one_by_one(v, (n - 1) as nat);
    }
}

/// Then every entry is moved back, one after the other and in order, each once its place was found
/// to be free.
pub proof fn entries_are_moved_back_in_order(v: SortingView, n: nat)
    requires
        v.wf(),
        v.stage == (SortStage::ProbeBack { at: 0 }),
        n <= v.entries.len() <= usize::MAX,
    ensures
        n < v.entries.len() ==> after_smooth(v, 2 * n).action() == to_probe(v.folder.child(v.entries[n as int])),
        n < v.entries.len() ==> after_smooth(v, 2 * n + 1).action() == to_move(
            v.holder.child(v.entries[n as int]),
            v.folder.child(v.entries[n as int]),
        ),
        n < v.entries.len() ==> after_smooth(v, 2 * n) == v.at(
            SortStage::ProbeBack { at: n as usize },
        ),
        n == v.entries.len() ==> after_smooth(v, 2 * n) == v.at(SortStage::Remove),
        n == v.entries.len() ==> after_smooth(v, 2 * n).action() == to_remove_folder(v.holder),
        n == v.entries.len() ==> after_smooth(v, 2 * n + 1) == v.at(SortStage::Verify),
        n == v.entries.len() ==> after_smooth(v, 2 * n + 1).action() == to_list(v.folder),
    decreases n,
{
    if n > 0 {
        let m = (n - 1) as nat;
        entries_are_moved_back_in_order(v, m);
        let a = after_smooth(v, 2 * m);
        let b = after_smooth(v, 2 * m + 1);
        assert(b == a.step(smooth(a)));
        assert(b == v.at(SortStage::MoveBack { at: m as usize }));
        assert(2 * n == 2 * m + 2);
        assert(after_smooth(v, 2 * n) == b.step(smooth(b)));
    }
    let c = after_smooth(v, 2 * n);
    assert(after_smooth(v, 2 * n + 1) == c.step(smooth(c)));
}

/// An arranging that is interrupted goes through all entries once more: one that is still held, and
/// whose place is free, is moved back there; one whose place is taken stays where it is held. Then
/// it ends with an error that says where to look.
pub proof fn interrupted_arrangings_put_back_what_they_hold(v: SortingView, at: usize, error: Seq<char>)
    requires
        v.wf(),
        at < v.entries.len() <= usize::MAX,
    ensures
        ({
            let held = v.at(SortStage::Undo { at });
            let probed = held.step(Outcome::Exists(true));
            let free = probed.step(Outcome::Exists(false));
            let next = v.at(SortStage::Undo { at: (at + 1) as usize });
            &&& held.action() == to_probe(
                v.holder.child(v.entries[at as int]),
            )
            &&& held.step(Outcome::Exists(false)) == next
            &&& probed.action() == to_probe(
                v.folder.child(v.entries[at as int]),
            )
            &&& probed.step(Outcome::Exists(true)) == next
            &&& free.action() == to_move(
            v.holder.child(v.entries[at as int]),
            v.folder.child(v.entries[at as int]),
        )
            &&& free.step(Outcome::Done) == next
        }),
        ({
            let end = (SortingView { error, ..v }).at(
                SortStage::Undo { at: v.entries.len() as usize },
            );
            let last = end.step(Outcome::Done);
            &&& last.action() == to_remove_folder(v.holder)
            &&& last.step(Outcome::Done).stage == SortStage::Over
            &&& last.step(Outcome::Done).verdict == Verdict::Failed(
                "순서 정리 실패: "@ + v.folder.shown(v.separator) + ". 남은 파일은 복구 폴더 "@
                    + v.holder.shown(v.separator) + "에서 확인하세요"@ + ": "@ + error,
            )
        }),
{
}

/// An error on the way, and a place that is taken meanwhile, interrupt the arranging: it begins to
/// put everything back, and says why.
pub proof fn arrangings_stop_at_the_first_error(
    v: SortingView,
    at: usize,
    fault: crate::disk::Fault,
    message: Seq<char>,
)
    ensures
        v.at(SortStage::MoveOut { at }).step(Outcome::Failed(fault, message)) == (SortingView {
            error: message,
            stage: SortStage::Undo { at: 0 },
            ..v
        }),
        v.at(SortStage::MoveBack { at }).step(Outcome::Failed(fault, message)) == (SortingView {
            error: message,
            stage: SortStage::Undo { at: 0 },
            ..v
        }),
        v.at(SortStage::ProbeBack { at }).step(Outcome::Exists(true)) == (SortingView {
            error: "정리 중 새 파일이 생겼습니다: "@ + v.folder.child(v.entries[at as int]).shown(
                v.separator,
            ),
            stage: SortStage::Undo { at: 0 },
            ..v
        }),
        v.at(SortStage::Create).step(Outcome::Failed(fault, message)) == (SortingView {
            stage: SortStage::Over,
            verdict: Verdict::Failed(message),
            ..v
        }),
        v.at(SortStage::Remove).step(Outcome::Failed(fault, message)) == (SortingView {
            stage: SortStage::Over,
            verdict: Verdict::Failed(message),
            ..v
        }),
{
}

} // verus!
