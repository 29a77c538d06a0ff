//! Puts the output folders into playback order, without rewriting any audio.
use crate::disk::{Action, Kind, Outcome};
use crate::journal::because;
use crate::path::{parts_order, paths, FilePath, PathView};
use crate::sorting::{listing, DirEntry, Listed, SortStage, Sorting, SortingView, Verdict};
use crate::text::{
    copy_texts, decimal, decimal_text, glue, glue3, lemma_lex_equal, lemma_lex_flip,
    lemma_lex_transitive, lex, same_text, texts, Order,
};
use crate::transaction::with_cause;
use vstd::prelude::*;

verus! {

// ---------------------------------------------------------------------------
// The output folder
// ---------------------------------------------------------------------------

/// Where results are saved: a volume root gets a folder of its own where results are to be put
/// into order, so that its other entries are left alone.
pub open spec fn effective_folder(selected: PathView, ordering: bool) -> PathView {
    if ordering && selected.parts.len() == 0 {
        selected.child("WAV"@)
    } else {
        selected
    }
}

/// Where results are saved for the folder that the user selected.
pub fn effective_output_dir(selected: &FilePath, ordering: bool) -> (r: FilePath)
    ensures
        r@ == effective_folder(selected@, ordering),
{
    if ordering && selected.parts.len() == 0 {
        selected.child("WAV")
    } else {
        selected.copy()
    }
}

/// With ordering on, results are never saved directly in a volume root.
pub proof fn results_stay_out_of_volume_roots(selected: PathView)
    ensures
        effective_folder(selected, true).parts.len() > 0,
        effective_folder(selected, true).within(selected),
        effective_folder(selected, false) == selected,
{
    assert(selected.child("WAV"@).parts.take(selected.parts.len() as int) =~= selected.parts);
    assert(selected.parts.take(selected.parts.len() as int) =~= selected.parts);
}

/// How many names the uppermost folder has that is arranged for an output: those of the output
/// folder, or none where the output stands in the place of the output folder itself. The empty
/// path is no folder.
pub open spec fn lowest(root: PathView, output: PathView) -> int {
    let low = if output.parts.len() > root.parts.len() {
        root.parts.len() as int
    } else {
        0
    };
    if low == 0 && output.root.len() == 0 {
        1
    } else {
        low
    }
}

/// A folder that holds an output, up to the output folder. An output in the place of the output
/// folder lies in no folder of it: then every folder above counts.
pub open spec fn is_folder_of(root: PathView, output: PathView, p: PathView) -> bool {
    exists|n: int|
        lowest(root, output) <= n < output.parts.len() && #[trigger] output.prefix(n) == p
}

/// A folder that holds one of the outputs.
pub open spec fn holds_output(root: PathView, outputs: Seq<PathView>, p: PathView) -> bool {
    exists|i: int| 0 <= i < outputs.len() && is_folder_of(root, #[trigger] outputs[i], p)
}

/// The order in which folders are arranged: inner folders before outer ones, and by name among
/// those of the same depth.
pub open spec fn folder_order(a: PathView, b: PathView) -> Order {
    if a.parts.len() > b.parts.len() {
        Order::Less
    } else if a.parts.len() < b.parts.len() {
        Order::Greater
    } else {
        parts_order(a.parts, b.parts)
    }
}

/// The folders that are arranged: each that holds an output, once, in order.
pub open spec fn is_folder_list(
    folders: Seq<PathView>,
    root: PathView,
    outputs: Seq<PathView>,
) -> bool {
    &&& forall|i: int, j: int|
        0 <= i < j < folders.len() ==> folder_order(#[trigger] folders[i], #[trigger] folders[j])
            == Order::Less
    &&& forall|p: PathView| #[trigger] folders.contains(p) <==> holds_output(root, outputs, p)
}

/// A folder is arranged before the folder that it lies in, whose entries then move.
pub proof fn inner_folders_come_first(
    folders: Seq<PathView>,
    root: PathView,
    outputs: Seq<PathView>,
    i: int,
    j: int,
)
    requires
        is_folder_list(folders, root, outputs),
        0 <= i < folders.len(),
        0 <= j < folders.len(),
        folders[j].within(folders[i]),
        i != j,
        folders[j] != folders[i],
    ensures
        j < i,
{
    let (a, b) = (folders[i], folders[j]);
    if i < j {
        assert(folder_order(folders[i], folders[j]) == Order::Less);
        assert(b.parts.take(a.parts.len() as int) == a.parts);
        if a.parts.len() == b.parts.len() {
            assert(b.parts.take(a.parts.len() as int) =~= b.parts);
            assert(b =~= a);
        }
    }
}

proof fn lemma_parts_flip(a: Seq<Seq<char>>, b: Seq<Seq<char>>)
    ensures
        parts_order(b, a) == parts_order(a, b).flip(),
    decreases a.len(),
{
    if a.len() > 0 && b.len() > 0 {
        lemma_lex_flip(a[0], b[0]);
        lemma_lex_equal(a[0], b[0]);
        if a[0] == b[0] {
            lemma_parts_flip(a.skip(1), b.skip(1));
        }
    }
}

/// Only equal lists of names are equal in order.
pub proof fn lemma_parts_equal(a: Seq<Seq<char>>, b: Seq<Seq<char>>)
    ensures
        parts_order(a, b) == Order::Equal <==> a == b,
    decreases a.len(),
{
    if a.len() > 0 && b.len() > 0 {
        lemma_lex_equal(a[0], b[0]);
        lemma_parts_equal(a.skip(1), b.skip(1));
        if a[0] == b[0] && a.skip(1) == b.skip(1) {
            assert(a =~= seq![a[0]] + a.skip(1));
            assert(b =~= seq![b[0]] + b.skip(1));
        }
    } else if a.len() == 0 && b.len() == 0 {
        assert(a =~= b);
    }
}

proof fn lemma_parts_transitive(a: Seq<Seq<char>>, b: Seq<Seq<char>>, c: Seq<Seq<char>>)
    requires
        parts_order(a, b) == Order::Less,
        parts_order(b, c) == Order::Less,
    ensures
        parts_order(a, c) == Order::Less,
    decreases a.len(),
{
    if a.len() > 0 && b.len() > 0 && c.len() > 0 {
        lemma_lex_equal(a[0], b[0]);
        lemma_lex_equal(b[0], c[0]);
        lemma_lex_equal(a[0], c[0]);
        if a[0] == b[0] && b[0] == c[0] {
            lemma_parts_transitive(a.skip(1), b.skip(1), c.skip(1));
        } else if a[0] != b[0] && b[0] != c[0] {
            lemma_lex_transitive(a[0], b[0], c[0]);
        }
    }
}

/// Puts a folder at its place in a sorted list, unless it is there already.
fn add_folder(folders: &mut Vec<FilePath>, folder: FilePath)
    requires
        forall|i: int, j: int|
            0 <= i < j < old(folders)@.len() ==> folder_order(
                #[trigger] paths(old(folders)@)[i],
                #[trigger] paths(old(folders)@)[j],
            ) == Order::Less,
        forall|i: int|
            0 <= i < old(folders)@.len() ==> (#[trigger] paths(old(folders)@)[i]).root
                == folder@.root,
    ensures
        forall|i: int, j: int|
            0 <= i < j < final(folders)@.len() ==> folder_order(
                #[trigger] paths(final(folders)@)[i],
                #[trigger] paths(final(folders)@)[j],
            ) == Order::Less,
        forall|i: int|
            0 <= i < final(folders)@.len() ==> (#[trigger] paths(final(folders)@)[i]).root
                == folder@.root,
        forall|p: PathView| #[trigger]
            paths(final(folders)@).contains(p) <==> paths(old(folders)@).contains(p) || p
                == folder@,
{
    let ghost before = paths(folders@);
    let i = folder_place(folders, &folder);
    if i < folders.len() && folders[i].equals(&folder) {
        assert(before[i as int] == folder@);
        return;
    }
    folders.insert(i, folder);
    proof {
        let after = paths(folders@);
        assert(after =~= before.insert(i as int, folder@));
        if i < before.len() {
            lemma_parts_equal(before[i as int].parts, folder@.parts);
            lemma_parts_flip(before[i as int].parts, folder@.parts);
            assert(before[i as int].root == folder@.root);
            assert(folder_order(folder@, before[i as int]) == Order::Less) by {
                if before[i as int].parts == folder@.parts {
                    assert(before[i as int] =~= folder@);
                }
            }
            assert forall|k: int| i <= k < before.len() implies folder_order(
                folder@,
                #[trigger] before[k],
            ) == Order::Less by {
                if k > i {
                    lemma_folder_order_transitive(folder@, before[i as int], before[k]);
                }
            }
        }
        assert forall|p: PathView| #[trigger] after.contains(p) <==> before.contains(p) || p
            == folder@ by {
            if after.contains(p) {
                let k = choose|k: int| 0 <= k < after.len() && after[k] == p;
                if k < i {
                    assert(before[k] == p);
                } else if k > i {
                    assert(before[k - 1] == p);
                }
            }
            if before.contains(p) {
                let k = choose|k: int| 0 <= k < before.len() && before[k] == p;
                if k < i {
                    assert(after[k] == p);
                } else {
                    assert(after[k + 1] == p);
                }
            }
            assert(after[i as int] == folder@);
        }
    }
}

proof fn lemma_folder_order_transitive(a: PathView, b: PathView, c: PathView)
    requires
        folder_order(a, b) == Order::Less,
        folder_order(b, c) == Order::Less,
    ensures
        folder_order(a, c) == Order::Less,
{
    if a.parts.len() == b.parts.len() && b.parts.len() == c.parts.len() {
        lemma_parts_transitive(a.parts, b.parts, c.parts);
    }
}

/// Compares two folders.
fn compare_folders(a: &FilePath, b: &FilePath) -> (r: Order)
    ensures
        r == folder_order(a@, b@),
{
    let (m, n) = (a.parts.len(), b.parts.len());
    assert(m == a@.parts.len() && n == b@.parts.len());
    if m > n {
        Order::Less
    } else if m < n {
        Order::Greater
    } else {
        a.order(b)
    }
}

/// Where a folder stands, or would stand, in a sorted list.
fn folder_place(folders: &Vec<FilePath>, folder: &FilePath) -> (r: usize)
    ensures
        r <= folders@.len(),
        forall|k: int|
            0 <= k < r ==> folder_order(#[trigger] paths(folders@)[k], folder@) == Order::Less,
        r < folders@.len() ==> folder_order(paths(folders@)[r as int], folder@) != Order::Less,
{
    let mut i: usize = 0;
    while i < folders.len()
        invariant
            i <= folders@.len(),
            forall|k: int|
                0 <= k < i ==> folder_order(#[trigger] paths(folders@)[k], folder@) == Order::Less,
        decreases folders@.len() - i,
    {
        if compare_folders(&folders[i], folder) != Order::Less {
            return i;
        }
        i = i + 1;
    }
    i
}

/// The folders that hold outputs, in the order in which they are arranged.
fn collect_folders(root: &FilePath, outputs: &[FilePath]) -> (r: Vec<FilePath>)
    requires
        forall|i: int|
            0 <= i < outputs@.len() ==> (#[trigger] paths(outputs@)[i]).root == root@.root,
    ensures
        is_folder_list(paths(r@), root@, paths(outputs@)),
{
    let mut folders: Vec<FilePath> = Vec::new();
    let mut i: usize = 0;
    let ghost all = paths(outputs@);
    while i < outputs.len()
        invariant
            i <= outputs@.len(),
            all == paths(outputs@),
            forall|k: int| 0 <= k < outputs@.len() ==> (#[trigger] all[k]).root == root@.root,
            forall|j: int, k: int|
                0 <= j < k < folders@.len() ==> folder_order(
                    #[trigger] paths(folders@)[j],
                    #[trigger] paths(folders@)[k],
                ) == Order::Less,
            forall|k: int|
                0 <= k < folders@.len() ==> (#[trigger] paths(folders@)[k]).root == root@.root,
            forall|p: PathView| #[trigger]
                paths(folders@).contains(p) <==> holds_output(root@, all.take(i as int), p),
        decreases outputs@.len() - i,
    {
        let output = &outputs[i];
        let ghost o = all[i as int];
        assert(o == output@);
        let (m, depth) = (root.parts.len(), output.parts.len());
        assert(m == root@.parts.len() && depth == o.parts.len());
        let above: usize = if depth > m {
            m
        } else {
            0
        };
        proof {
            reveal_strlit("");
        }
        let low: usize = if above == 0 && same_text(output.root.as_str(), "") {
            1
        } else {
            above
        };
        assert(o.root == output.root@);
        assert(o.root.len() == 0 ==> o.root =~= ""@);
        assert(low == lowest(root@, o));
        let mut n: usize = low;
        let ghost before = paths(folders@);
        while n < depth
            invariant
                low <= n,
                n <= depth || n == low,
                depth == o.parts.len(),
                o == output@,
                o.root == root@.root,
                forall|j: int, k: int|
                    0 <= j < k < folders@.len() ==> folder_order(
                        #[trigger] paths(folders@)[j],
                        #[trigger] paths(folders@)[k],
                    ) == Order::Less,
                forall|k: int|
                    0 <= k < folders@.len() ==> (#[trigger] paths(folders@)[k]).root == root@.root,
                forall|p: PathView| #[trigger]
                    paths(folders@).contains(p) <==> before.contains(p) || exists|q: int|
                        low <= q < n && #[trigger] o.prefix(q) == p,
            decreases depth - n,
        {
            let folder = output.prefix(n);
            let ghost inner = paths(folders@);
            add_folder(&mut folders, folder);
            proof {
                assert forall|p: PathView| #[trigger]
                    paths(folders@).contains(p) <==> before.contains(p) || exists|q: int|
                        low <= q < n + 1 && #[trigger] o.prefix(q) == p by {
                    assert(inner.contains(p) <==> before.contains(p) || exists|q: int|
                        low <= q < n && #[trigger] o.prefix(q) == p);
                    assert(o.prefix(n as int) == folder@);
                }
            }
            n = n + 1;
        }
        proof {
            let (s, t) = (all.take(i as int), all.take(i + 1));
            assert forall|p: PathView| #[trigger]
                paths(folders@).contains(p) <==> holds_output(root@, t, p) by {
                assert(before.contains(p) <==> holds_output(root@, s, p));
                if holds_output(root@, s, p) {
                    let k = choose|k: int|
                        0 <= k < s.len() && is_folder_of(root@, #[trigger] s[k], p);
                    assert(t[k] == s[k]);
                }
                if holds_output(root@, t, p) {
                    let k = choose|k: int|
                        0 <= k < t.len() && is_folder_of(root@, #[trigger] t[k], p);
                    if k < i {
                        assert(s[k] == t[k]);
                    } else {
                        assert(t[k] == o);
                    }
                }
                if exists|q: int| low <= q < depth && #[trigger] o.prefix(q) == p {
                    assert(is_folder_of(root@, t[i as int], p));
                }
            }
        }
        i = i + 1;
    }
    assert(all.take(i as int) =~= all);
    folders
}

/// Where the arranging of the output stands.
#[derive(Debug, Clone, Copy, PartialEq, Eq, Structural)]
pub enum ArrangeStage {
    /// Making sure that an output is there.
    Check { at: usize },
    /// Arranging a folder.
    Folder { at: usize },
    Over,
}

/// The arranging of all folders that hold outputs.
#[verifier::ext_equal]
pub struct ArrangementView {
    pub outputs: Seq<PathView>,
    pub folders: Seq<PathView>,
    pub prefix: Seq<char>,
    pub separator: Seq<char>,
    pub stage: ArrangeStage,
    pub sorting: SortingView,
    /// The folders that the disk was seen to list in order, with their entries.
    pub checked: Seq<(PathView, Seq<Seq<char>>)>,
    pub error: Option<Seq<char>>,
}

impl ArrangementView {
    pub open spec fn wf(self) -> bool {
        match self.stage {
            ArrangeStage::Check { at } => at < self.outputs.len(),
            ArrangeStage::Folder { at } => at < self.folders.len() && self.sorting.wf()
                && self.sorting.stage != SortStage::Over,
            ArrangeStage::Over => true,
        }
    }

    pub open spec fn fail(self, text: Seq<char>) -> ArrangementView {
        ArrangementView { stage: ArrangeStage::Over, error: Some(text), ..self }
    }

    /// The folders are arranged from this one on.
    pub open spec fn arrange_from(self, at: int) -> ArrangementView {
        if at < self.folders.len() {
            ArrangementView {
                stage: ArrangeStage::Folder { at: at as usize },
                sorting: SortingView::start(self.folders[at], self.prefix, self.separator),
                ..self
            }
        } else {
            ArrangementView { stage: ArrangeStage::Over, ..self }
        }
    }

    /// All outputs are looked at before any folder is touched.
    pub open spec fn after_check(self, at: usize, o: Outcome<Seq<char>>) -> ArrangementView {
        let place = self.outputs[at as int].shown(self.separator);
        match o {
            Outcome::Found(Kind::File) => if at + 1 < self.outputs.len() {
                ArrangementView { stage: ArrangeStage::Check { at: (at + 1) as usize }, ..self }
            } else {
                self.arrange_from(0)
            },
            Outcome::Failed(_, message) => self.fail(
                because("정리할 출력 파일 확인 실패: "@ + place, message),
            ),
            _ => self.fail("정리할 출력이 일반 파일이 아닙니다: "@ + place),
        }
    }

    /// The folder under way has come so far.
    pub open spec fn with_sorting(self, at: usize, sorting: SortingView) -> ArrangementView {
        match sorting.verdict {
            _ if sorting.stage != SortStage::Over => ArrangementView { sorting, ..self },
            Verdict::Failed(text) => ArrangementView { sorting, ..self }.fail(text),
            Verdict::Checked => ArrangementView {
                checked: self.checked.push((sorting.folder, sorting.entries)),
                sorting,
                ..self
            }.arrange_from(at + 1),
            _ => ArrangementView { sorting, ..self }.arrange_from(at + 1),
        }
    }

    pub open spec fn action(self) -> Action<PathView, Seq<char>> {
        match self.stage {
            ArrangeStage::Check { at } => Action::Inspect(self.outputs[at as int]),
            ArrangeStage::Folder { .. } => self.sorting.action(),
            ArrangeStage::Over => Action::Continue,
        }
    }

    pub open spec fn step(self, o: Outcome<Seq<char>>) -> ArrangementView {
        match self.stage {
            ArrangeStage::Check { at } => self.after_check(at, o),
            ArrangeStage::Folder { at } => self.with_sorting(at, self.sorting.step(o)),
            ArrangeStage::Over => self,
        }
    }

    pub open spec fn listed(self, entries: Seq<Listed>) -> ArrangementView {
        match self.stage {
            ArrangeStage::Folder { at } => self.with_sorting(at, self.sorting.listed(entries)),
            _ => self,
        }
    }
}

/// What was seen of the folders that were arranged.
#[derive(Debug)]
pub struct OrderReport {
    /// The disk was seen to list the entries of a folder in order.
    pub physical_order_verified: bool,
    pub checked_directories: Vec<(FilePath, Vec<String>)>,
}

/// What a list of folders and their entries says.
pub open spec fn folder_names(v: Seq<(FilePath, Vec<String>)>) -> Seq<(PathView, Seq<Seq<char>>)> {
    Seq::new(v.len(), |i: int| (v[i].0@, texts(v[i].1@)))
}

/// The arranging of all folders that hold outputs. It asks for one thing at a time.
#[derive(Debug)]
pub struct Arrangement {
    outputs: Vec<FilePath>,
    folders: Vec<FilePath>,
    prefix: String,
    separator: String,
    stage: ArrangeStage,
    sorting: Sorting,
    checked: Vec<(FilePath, Vec<String>)>,
    error: Option<String>,
}

impl View for Arrangement {
    type V = ArrangementView;

    closed spec fn view(&self) -> ArrangementView {
        ArrangementView {
            outputs: paths(self.outputs@),
            folders: paths(self.folders@),
            prefix: self.prefix@,
            separator: self.separator@,
            stage: self.stage,
            sorting: self.sorting@,
            checked: folder_names(self.checked@),
            error: match self.error {
                Some(text) => Some(text@),
                None => None,
            },
        }
    }
}

/// How the name of a holding folder begins: with the number of the process.
pub open spec fn holder_prefix(process: nat) -> Seq<char> {
    ".wav-converter-order-"@ + decimal(process) + "-"@
}

/// A list of paths, copied.
pub fn copy_paths(all: &[FilePath]) -> (r: Vec<FilePath>)
    ensures
        paths(r@) == paths(all@),
{
    let mut r: Vec<FilePath> = Vec::new();
    let mut i: usize = 0;
    while i < all.len()
        invariant
            i <= all@.len(),
            r@.len() == i,
            forall|k: int| 0 <= k < i ==> (#[trigger] r@[k])@ == all@[k]@,
        decreases all@.len() - i,
    {
        r.push(all[i].copy());
        i = i + 1;
    }
    assert(paths(r@) =~= paths(all@));
    r
}

/// Begins to put the folders that hold outputs into playback order. Every output is looked at
/// first; a job without outputs touches nothing.
pub fn arrange_output(
    root: &FilePath,
    outputs: &[FilePath],
    process: u32,
    separator: &str,
) -> (r: Arrangement)
    ensures
        ({
            let all = paths(outputs@);
            let inside = forall|i: int| 0 <= i < all.len() ==> (#[trigger] all[i]).within(root@);
            &&& r@.wf()
            &&& r@.outputs == all
            &&& r@.separator == separator@
            &&& r@.prefix == holder_prefix(process as nat)
            &&& r@.checked.len() == 0
            &&& !inside ==> r@.stage == ArrangeStage::Over && r@.error == Some(
                "출력 경로가 선택한 폴더 밖에 있습니다"@,
            )
            &&& inside ==> r@.error is None && is_folder_list(r@.folders, root@, all)
            &&& inside && all.len() == 0 ==> r@.stage == ArrangeStage::Over
            &&& inside && all.len() > 0 ==> r@.stage == (ArrangeStage::Check { at: 0 })
        }),
{
    let prefix = glue3(".wav-converter-order-", decimal_text(process as u128).as_str(), "-");
    let mut r = Arrangement {
        outputs: copy_paths(outputs),
        folders: Vec::new(),
        prefix: prefix.clone(),
        separator: separator.to_owned(),
        stage: ArrangeStage::Over,
        sorting: Sorting::new(root.copy(), prefix, separator),
        checked: Vec::new(),
        error: None,
    };
    let ghost all = paths(outputs@);
    let mut i: usize = 0;
    while i < outputs.len()
        invariant
            i <= outputs@.len(),
            all == paths(outputs@),
            forall|k: int| 0 <= k < i ==> (#[trigger] all[k]).within(root@),
            r@.outputs == all,
            r@.separator == separator@,
            r@.prefix == holder_prefix(process as nat),
            r@.checked.len() == 0,
            r@.stage == ArrangeStage::Over,
            r@.error is None,
        decreases outputs@.len() - i,
    {
        if !outputs[i].is_within(root) {
            assert(!all[i as int].within(root@));
            r.error = Some("출력 경로가 선택한 폴더 밖에 있습니다".to_owned());
            return r;
        }
        i = i + 1;
    }
    r.folders = collect_folders(root, outputs);
    if outputs.len() > 0 {
        r.stage = ArrangeStage::Check { at: 0 };
    }
    r
}

impl Arrangement {
    fn fail(&mut self, text: String)
        ensures
            final(self)@ == old(self)@.fail(text@),
    {
        self.stage = ArrangeStage::Over;
        self.error = Some(text);
    }

    fn arrange_from(&mut self, at: usize)
        ensures
            final(self)@ == old(self)@.arrange_from(at as int),
            final(self)@.wf(),
    {
        if at < self.folders.len() {
            self.sorting =
            Sorting::new(
                self.folders[at].copy(),
                self.prefix.clone(),
                self.separator.as_str(),
            );
            self.stage = ArrangeStage::Folder { at };
        } else {
            self.stage = ArrangeStage::Over;
        }
    }

    fn after_check(&mut self, at: usize, o: &Outcome<String>)
        requires
            old(self)@.wf(),
            old(self)@.stage == (ArrangeStage::Check { at }),
        ensures
            final(self)@ == old(self)@.after_check(at, o@),
            final(self)@.wf(),
    {
        let place = self.outputs[at].show(self.separator.as_str());
        match o {
            Outcome::Found(Kind::File) => {
                assert(at < self.outputs.len());
                if at + 1 < self.outputs.len() {
                    self.stage = ArrangeStage::Check { at: at + 1 };
                } else {
                    self.arrange_from(0);
                }
            },
            Outcome::Failed(_, message) => {
                let text = glue("정리할 출력 파일 확인 실패: ", place.as_str());
                self.fail(with_cause(text.as_str(), message.as_str()));
            },
            _ => self.fail(glue("정리할 출력이 일반 파일이 아닙니다: ", place.as_str())),
        }
    }

    /// Moves on where the folder under way is done.
    fn settle(&mut self, at: usize)
        requires
            at < old(self)@.folders.len(),
            old(self)@.sorting.wf(),
            old(self)@.stage == (ArrangeStage::Folder { at }),
        ensures
            final(self)@ == old(self)@.with_sorting(at, old(self)@.sorting),
            final(self)@.wf(),
    {
        if !self.sorting.is_over() {
            return;
        }
        assert(at < self.folders.len());
        match self.sorting.verdict() {
            Verdict::Failed(text) => {
                let text = text.clone();
                self.fail(text);
            },
            Verdict::Checked => {
                let folder = self.sorting.folder().copy();
                let names = copy_texts(self.sorting.entries());
                self.checked.push((folder, names));
                assert(self@.checked =~= old(self)@.checked.push((folder@, texts(names@))));
                self.arrange_from(at + 1);
            },
            _ => self.arrange_from(at + 1),
        }
    }

    /// What is to be done on the disk, or nothing once the arranging is over.
    pub fn pending(&self) -> (r: Option<Action<FilePath, String>>)
        requires
            self@.wf(),
        ensures
            match r {
                Some(action) => self@.stage != ArrangeStage::Over && action@ == self@.action(),
                None => self@.stage == ArrangeStage::Over,
            },
    {
        match self.stage {
            ArrangeStage::Check { at } => Some(Action::Inspect(self.outputs[at].copy())),
            ArrangeStage::Folder { .. } => self.sorting.pending(),
            ArrangeStage::Over => None,
        }
    }

    /// Takes the next step, once the disk has answered, or has refused to list a folder.
    pub fn resume(&mut self, o: &Outcome<String>)
        requires
            old(self)@.wf(),
        ensures
            final(self)@ == old(self)@.step(o@),
            final(self)@.wf(),
    {
        match self.stage {
            ArrangeStage::Check { at } => self.after_check(at, o),
            ArrangeStage::Folder { at } => {
                self.sorting.resume(o);
                self.settle(at);
            },
            ArrangeStage::Over => {},
        }
    }

    /// Takes the next step, once a folder has been listed.
    pub fn resume_listed(&mut self, entries: &Vec<DirEntry>)
        requires
            old(self)@.wf(),
        ensures
            final(self)@ == old(self)@.listed(listing(entries@)),
            final(self)@.wf(),
    {
        if let ArrangeStage::Folder { at } = self.stage {
            self.sorting.resume_listed(entries);
            self.settle(at);
        }
    }

    /// What was seen, once the arranging is over, or why it failed.
    pub fn report(self) -> (r: Result<OrderReport, String>)
        ensures
            match r {
                Ok(report) => {
                    &&& self@.error is None
                    &&& folder_names(report.checked_directories@) == self@.checked
                    &&& report.physical_order_verified == (self@.checked.len() > 0)
                },
                Err(text) => self@.error == Some(text@),
            },
    {
        match self.error {
            Some(text) => Err(text),
            None => Ok(
                OrderReport {
                    physical_order_verified: self.checked.len() > 0,
                    checked_directories: self.checked,
                },
            ),
        }
    }
}

/// An output that is missing, or something else than a file in its place, ends the arranging before
/// any folder is touched.
pub proof fn missing_outputs_stop_everything(v: ArrangementView, o: Outcome<Seq<char>>)
    requires
        v.stage is Check,
        o != Outcome::<Seq<char>>::Found(Kind::File),
    ensures
        v.step(o).stage == ArrangeStage::Over,
        v.step(o).error is Some,
        v.action() is Inspect,
{
}

/// Every folder on the way from an output up to the output folder is arranged, the output folder
/// itself included. For an output in the place of the output folder that is every folder above.
pub proof fn every_folder_above_an_output_is_arranged(
    folders: Seq<PathView>,
    root: PathView,
    outputs: Seq<PathView>,
    k: int,
    n: int,
)
    requires
        is_folder_list(folders, root, outputs),
        0 <= k < outputs.len(),
        0 <= n < outputs[k].parts.len(),
        root.parts.len() <= n || outputs[k].parts.len() <= root.parts.len(),
        n > 0 || outputs[k].root.len() > 0,
    ensures
        folders.contains(PathView { root: outputs[k].root, parts: outputs[k].parts.take(n) }),
{
    let folder = PathView { root: outputs[k].root, parts: outputs[k].parts.take(n) };
    assert(outputs[k].prefix(n) == folder);
    assert(is_folder_of(root, outputs[k], folder));
    assert(holds_output(root, outputs, folder));
}

/// No other folder is: each that is arranged lies above an output, and no higher than the output
/// folder.
pub proof fn only_folders_above_outputs_are_arranged(
    folders: Seq<PathView>,
    root: PathView,
    outputs: Seq<PathView>,
    i: int,
)
    requires
        is_folder_list(folders, root, outputs),
        0 <= i < folders.len(),
    ensures
        exists|k: int, n: int|
            0 <= k < outputs.len() && 0 <= n < outputs[k].parts.len() && (root.parts.len() <= n
                || outputs[k].parts.len() <= root.parts.len()) && folders[i] == (PathView {
                root: outputs[k].root,
                parts: #[trigger] outputs[k].parts.take(n),
            }),
{
    assert(folders.contains(folders[i]));
    let k = choose|k: int|
        0 <= k < outputs.len() && is_folder_of(root, #[trigger] outputs[k], folders[i]);
    let n = choose|n: int|
        lowest(root, outputs[k]) <= n < outputs[k].parts.len() && #[trigger] outputs[k].prefix(n)
            == folders[i];
    assert(folders[i].parts == outputs[k].parts.take(n));
}

/// Each folder is arranged once, deeper folders first, and folders of the same depth by their
/// names: where two of them first differ, the smaller name comes first.
pub proof fn folders_come_in_order(
    folders: Seq<PathView>,
    root: PathView,
    outputs: Seq<PathView>,
    i: int,
    j: int,
)
    requires
        is_folder_list(folders, root, outputs),
        0 <= i < j < folders.len(),
    ensures
        folders[i].parts.len() >= folders[j].parts.len(),
        folders[i].parts != folders[j].parts,
        folders[i].parts.len() == folders[j].parts.len() ==> exists|k: int|
            0 <= k < folders[i].parts.len() && #[trigger] folders[i].parts[k] != folders[j].parts[k]
                && folders[i].parts.take(k) == folders[j].parts.take(k) && lex(
                folders[i].parts[k],
                folders[j].parts[k],
            ) == Order::Less,
{
    let (a, b) = (folders[i].parts, folders[j].parts);
    assert(folder_order(folders[i], folders[j]) == Order::Less);
    if a.len() == b.len() {
        let k = lemma_first_difference(a, b);
        assert(a[k] != b[k]);
    }
}

/// Where two lists of names first differ.
proof fn lemma_first_difference(a: Seq<Seq<char>>, b: Seq<Seq<char>>) -> (k: int)
    requires
        a.len() == b.len(),
        parts_order(a, b) == Order::Less,
    ensures
        0 <= k < a.len(),
        a[k] != b[k],
        a.take(k) == b.take(k),
        lex(a[k], b[k]) == Order::Less,
    decreases a.len(),
{
    lemma_lex_equal(a[0], b[0]);
    if a[0] != b[0] {
        assert(a.take(0) =~= b.take(0));
        0
    } else {
        let k = lemma_first_difference(a.skip(1), b.skip(1));
        assert(a.take(k + 1) =~= seq![a[0]] + a.skip(1).take(k));
        assert(b.take(k + 1) =~= seq![b[0]] + b.skip(1).take(k));
        k + 1
    }
}

/// Texts go by the first characters in which they differ, a text before its extensions.
pub proof fn texts_go_by_their_first_difference(
    front: Seq<char>,
    c: char,
    d: char,
    p: Seq<char>,
    q: Seq<char>,
)
    requires
        c < d,
    ensures
        lex(front + seq![c] + p, front + seq![d] + q) == Order::Less,
        lex(front, front + seq![c] + p) == Order::Less,
    decreases front.len(),
{
    let (a, b) = (front + seq![c] + p, front + seq![d] + q);
    if front.len() > 0 {
        assert(a[0] == front[0] && b[0] == front[0]);
        assert(a.skip(1) =~= front.skip(1) + seq![c] + p);
        assert(b.skip(1) =~= front.skip(1) + seq![d] + q);
        texts_go_by_their_first_difference(front.skip(1), c, d, p, q);
    } else {
        assert(a[0] == c && b[0] == d);
    }
}

/// Every output is looked at, one after the other, and has to be a file; only then the first folder
/// is listed.
pub proof fn outputs_are_looked_at_first(v: ArrangementView, o: Outcome<Seq<char>>)
    requires
        v.wf(),
        v.stage is Check,
        v.outputs.len() <= usize::MAX,
    ensures
        ({
            let at = v.stage->Check_at as int;
            &&& v.action() == Action::<PathView, Seq<char>>::Inspect(v.outputs[at])
            &&& o != Outcome::<Seq<char>>::Found(Kind::File) ==> v.step(o).stage is Over
                && v.step(o).error is Some
            &&& o == Outcome::<Seq<char>>::Found(Kind::File) && at + 1 < v.outputs.len()
                ==> v.step(o).action() == Action::<PathView, Seq<char>>::Inspect(v.outputs[at + 1])
            &&& o == Outcome::<Seq<char>>::Found(Kind::File) && at + 1 == v.outputs.len()
                && v.folders.len() > 0 ==> v.step(o).action() == Action::<PathView, Seq<char>>::List(
                v.folders[0],
            )
        }),
{
}

/// Only a volume root is given a folder of its own, and only where results are put into order.
pub proof fn volume_roots_get_a_folder(selected: PathView, ordering: bool)
    ensures
        ordering && selected.parts.len() == 0 ==> effective_folder(selected, ordering) == (PathView {
            root: selected.root,
            parts: seq!["WAV"@],
        }),
        !ordering || selected.parts.len() > 0 ==> effective_folder(selected, ordering) == selected,
{
    assert(selected.parts.len() == 0 ==> selected.parts.push("WAV"@) =~= seq!["WAV"@]);
}

/// A holding folder is known as such by its name, also when it is left behind.
pub proof fn holding_folders_are_known_as_such(process: nat, rest: Seq<char>)
    ensures
        holder_prefix(process) == ".wav-converter-order-"@ + decimal(process) + "-"@,
        crate::sorting::is_holder(holder_prefix(process) + rest),
{
    let name = holder_prefix(process) + rest;
    let front = ".wav-converter-order-"@;
    assert(name.take(front.len() as int) =~= front);
}

/// Folders are arranged one after the other. One that was found in order is noted with its entries,
/// in that order; one with nothing to put into order is passed over; at an error nothing more is
/// done.
pub proof fn folders_are_arranged_one_after_the_other(
    v: ArrangementView,
    at: usize,
    entries: Seq<Listed>,
)
    requires
        v.stage == (ArrangeStage::Folder { at }),
        at < v.folders.len() <= usize::MAX,
        v.error is None,
    ensures
        ({
            let s = v.sorting.listed(entries);
            let w = v.listed(entries);
            let over = s.stage == SortStage::Over;
            &&& !over ==> w == (ArrangementView { sorting: s, ..v })
            &&& over && s.verdict is Checked ==> w.checked == v.checked.push((s.folder, s.entries))
            &&& over && !(s.verdict is Checked) ==> w.checked == v.checked
            &&& over ==> (s.verdict matches Verdict::Failed(text) ==> w.stage == ArrangeStage::Over
                && w.error == Some(text))
            &&& over && !(s.verdict is Failed) ==> w.error is None
            &&& over && !(s.verdict is Failed) && at + 1 < v.folders.len() ==> w.action()
                == crate::disk::to_list(v.folders[at + 1]) && w.sorting.prefix == v.prefix
            &&& over && !(s.verdict is Failed) && at + 1 == v.folders.len() ==> w.stage
                == ArrangeStage::Over
        }),
{
}

/// An output that is missing is named, with the reason; so is what stands in its place.
pub proof fn missing_outputs_are_named(
    v: ArrangementView,
    at: usize,
    kind: Kind,
    fault: crate::disk::Fault,
    message: Seq<char>,
)
    requires
        v.stage == (ArrangeStage::Check { at }),
        at < v.outputs.len(),
        kind != Kind::File,
    ensures
        v.step(Outcome::Failed(fault, message)).error == Some(
            "정리할 출력 파일 확인 실패: "@ + v.outputs[at as int].shown(v.separator) + ": "@ + message,
        ),
        v.step(Outcome::Found(kind)).error == Some(
            "정리할 출력이 일반 파일이 아닙니다: "@ + v.outputs[at as int].shown(v.separator),
        ),
{
}

} // verus!
