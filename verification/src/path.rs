//! Paths as a root and the names below it.
use crate::text::{
    append, begins_with, chars_of, copy_texts, join, joined, lex, lex_order, lowercase, same_text,
    text_of, texts, to_lowercase, Order,
};
use vstd::prelude::*;

verus! {

/// A path: the root it starts from (empty for a relative path) and the names below it.
#[derive(Debug)]
pub struct FilePath {
    pub root: String,
    pub parts: Vec<String>,
}

/// What a path says.
#[verifier::ext_equal]
pub struct PathView {
    pub root: Seq<char>,
    pub parts: Seq<Seq<char>>,
}

impl View for FilePath {
    type V = PathView;

    open spec fn view(&self) -> PathView {
        PathView { root: self.root@, parts: texts(self.parts@) }
    }
}

/// What a list of paths says.
pub open spec fn paths(v: Seq<FilePath>) -> Seq<PathView> {
    Seq::new(v.len(), |i: int| v[i]@)
}

impl PathView {
    /// The path of the first `n` names.
    pub open spec fn prefix(self, n: int) -> PathView {
        PathView { root: self.root, parts: self.parts.take(n) }
    }

    /// The path with one more name.
    pub open spec fn child(self, name: Seq<char>) -> PathView {
        PathView { root: self.root, parts: self.parts.push(name) }
    }

    /// The path with the names of a relative path behind its own.
    pub open spec fn below(self, relative: Seq<Seq<char>>) -> PathView {
        PathView { root: self.root, parts: self.parts + relative }
    }

    /// Whether the path is `base` or lies below it.
    pub open spec fn within(self, base: PathView) -> bool {
        self.root == base.root && begins_with(self.parts, base.parts)
    }

    /// The path as one text.
    pub open spec fn shown(self, separator: Seq<char>) -> Seq<char> {
        self.root + joined(self.parts, separator)
    }

    /// What tells files apart: the path itself, or its lowercase form where case does not count.
    pub open spec fn key(self, fold_case: bool) -> PathView {
        if fold_case {
            PathView { root: lowercase(self.root), parts: lowered(self.parts) }
        } else {
            self
        }
    }
}

/// The lowercase forms of a list of texts.
pub open spec fn lowered(parts: Seq<Seq<char>>) -> Seq<Seq<char>> {
    Seq::new(parts.len(), |i: int| lowercase(parts[i]))
}

/// The order of two lists of names by their first differing names, a list before its extensions.
pub open spec fn parts_order(a: Seq<Seq<char>>, b: Seq<Seq<char>>) -> Order
    decreases a.len(),
{
    if a.len() == 0 || b.len() == 0 {
        crate::text::number_order(a.len() as int, b.len() as int)
    } else if lex(a[0], b[0]) != Order::Equal {
        lex(a[0], b[0])
    } else {
        parts_order(a.skip(1), b.skip(1))
    }
}

impl FilePath {
    /// A path of the given root and names.
    pub fn new(root: String, parts: Vec<String>) -> (r: FilePath)
        ensures
            r@ == (PathView { root: root@, parts: texts(parts@) }),
    {
        FilePath { root, parts }
    }

    /// A copy of the path.
    pub fn copy(&self) -> (r: FilePath)
        ensures
            r@ == self@,
    {
        FilePath { root: self.root.clone(), parts: copy_texts(&self.parts) }
    }

    /// The path of the first `n` names.
    pub fn prefix(&self, n: usize) -> (r: FilePath)
        requires
            n <= self@.parts.len(),
        ensures
            r@ == self@.prefix(n as int),
    {
        let mut parts: Vec<String> = Vec::new();
        let mut i: usize = 0;
        while i < n
            invariant
                i <= n <= self.parts@.len(),
                parts@.len() == i,
                forall|k: int| 0 <= k < i ==> (#[trigger] parts@[k])@ == self.parts@[k]@,
            decreases n - i,
        {
            parts.push(self.parts[i].clone());
            i = i + 1;
        }
        let r = FilePath { root: self.root.clone(), parts };
        assert(r@.parts =~= self@.prefix(n as int).parts);
        r
    }

    /// The path with one more name.
    pub fn child(&self, name: &str) -> (r: FilePath)
        ensures
            r@ == self@.child(name@),
    {
        let mut r = self.copy();
        let ghost before = r.parts@;
        r.parts.push(name.to_owned());
        assert(r@.parts =~= self@.child(name@).parts) by {
            assert forall|i: int| 0 <= i < r@.parts.len() implies r@.parts[i] == self@.child(
                name@,
            ).parts[i] by {
                if i < before.len() {
                    assert(texts(before)[i] == texts(self.parts@)[i]);
                }
            }
        }
        r
    }

    /// The path with the names of a relative path behind its own.
    pub fn below(&self, relative: &FilePath) -> (r: FilePath)
        ensures
            r@ == self@.below(relative@.parts),
    {
        let mut r = self.copy();
        let ghost before = r.parts@;
        let mut i: usize = 0;
        assert(r@.parts =~= self@.parts + relative@.parts.take(0));
        while i < relative.parts.len()
            invariant
                i <= relative.parts@.len(),
                r.root@ == self.root@,
                r@.parts == self@.parts + relative@.parts.take(i as int),
            decreases relative.parts@.len() - i,
        {
            let ghost old_parts = r.parts@;
            r.parts.push(relative.parts[i].clone());
            assert(r@.parts =~= texts(old_parts).push(relative@.parts[i as int]));
            i = i + 1;
            assert(r@.parts =~= self@.parts + relative@.parts.take(i as int));
        }
        assert(relative@.parts.take(i as int) =~= relative@.parts);
        r
    }

    /// Whether two paths say the same.
    pub fn equals(&self, other: &FilePath) -> (r: bool)
        ensures
            r == (self@ == other@),
    {
        if self.parts.len() != other.parts.len() || !same_text(
            self.root.as_str(),
            other.root.as_str(),
        ) {
            return false;
        }
        let r = self.begins_with_parts(other);
        assert(other@.parts.take(other@.parts.len() as int) =~= other@.parts);
        assert(self@.parts.take(other@.parts.len() as int) =~= self@.parts);
        assert(r ==> self@ =~= other@);
        r
    }

    /// Whether the names of the path begin with those of another.
    fn begins_with_parts(&self, base: &FilePath) -> (r: bool)
        ensures
            r == begins_with(self@.parts, base@.parts),
    {
        if self.parts.len() < base.parts.len() {
            return false;
        }
        let mut i: usize = 0;
        while i < base.parts.len()
            invariant
                i <= base.parts@.len() <= self.parts@.len(),
                forall|k: int| 0 <= k < i ==> (#[trigger] self@.parts[k]) == base@.parts[k],
            decreases base.parts@.len() - i,
        {
            if !same_text(self.parts[i].as_str(), base.parts[i].as_str()) {
                proof {
                    if begins_with(self@.parts, base@.parts) {
                        assert(self@.parts.take(base@.parts.len() as int)[i as int]
                            == self.parts@[i as int]@);
                        assert(base@.parts[i as int] == base.parts@[i as int]@);
                    }
                }
                return false;
            }
            i = i + 1;
        }
        assert(self@.parts.take(base@.parts.len() as int) =~= base@.parts);
        true
    }

    /// Whether the path is `base` or lies below it.
    pub fn is_within(&self, base: &FilePath) -> (r: bool)
        ensures
            r == self@.within(base@),
    {
        same_text(self.root.as_str(), base.root.as_str()) && self.begins_with_parts(base)
    }

    /// The path as one text.
    pub fn show(&self, separator: &str) -> (r: String)
        ensures
            r@ == self@.shown(separator@),
    {
        let mut r = self.root.clone();
        let names = join(&self.parts, self.parts.len(), separator);
        append(&mut r, names.as_str());
        assert(texts(self.parts@).take(self.parts@.len() as int) =~= self@.parts);
        r
    }

    /// The lowercase form of the path.
    fn lowered(&self) -> (r: FilePath)
        ensures
            r@ == self@.key(true),
    {
        let mut parts: Vec<String> = Vec::new();
        let mut i: usize = 0;
        while i < self.parts.len()
            invariant
                i <= self.parts@.len(),
                parts@.len() == i,
                forall|k: int|
                    0 <= k < i ==> (#[trigger] parts@[k])@ == lowercase(self.parts@[k]@),
            decreases self.parts@.len() - i,
        {
            parts.push(to_lowercase(self.parts[i].as_str()));
            i = i + 1;
        }
        let r = FilePath { root: to_lowercase(self.root.as_str()), parts };
        assert(r@.parts =~= lowered(self@.parts));
        r
    }

    /// The order of the names of two paths.
    pub fn order(&self, other: &FilePath) -> (r: Order)
        ensures
            r == parts_order(self@.parts, other@.parts),
    {
        let mut i: usize = 0;
        assert(self@.parts.skip(0) =~= self@.parts);
        assert(other@.parts.skip(0) =~= other@.parts);
        while i < self.parts.len() && i < other.parts.len()
            invariant
                i <= self.parts@.len(),
                i <= other.parts@.len(),
                parts_order(self@.parts.skip(i as int), other@.parts.skip(i as int)) == parts_order(
                    self@.parts,
                    other@.parts,
                ),
            decreases self.parts@.len() - i,
        {
            let ghost (a, b) = (self@.parts.skip(i as int), other@.parts.skip(i as int));
            let o = lex_order(self.parts[i].as_str(), other.parts[i].as_str());
            assert(a[0] == self.parts@[i as int]@ && b[0] == other.parts@[i as int]@);
            if o != Order::Equal {
                return o;
            }
            assert(a.skip(1) =~= self@.parts.skip(i + 1));
            assert(b.skip(1) =~= other@.parts.skip(i + 1));
            i = i + 1;
        }
        if i < self.parts.len() {
            Order::Greater
        } else if i < other.parts.len() {
            Order::Less
        } else {
            Order::Equal
        }
    }
}

/// Whether two paths lead to the same file. On systems where case does not count they are
/// compared by their lowercase forms.
pub fn same_path(a: &FilePath, b: &FilePath, fold_case: bool) -> (r: bool)
    ensures
        r == (a@.key(fold_case) == b@.key(fold_case)),
{
    if fold_case {
        a.lowered().equals(&b.lowered())
    } else {
        a.equals(b)
    }
}

// ---------------------------------------------------------------------------
// Names
// ---------------------------------------------------------------------------

/// A stem ends at the last dot of a name, unless that dot is its first character.
pub open spec fn dot_splits(name: Seq<char>, at: int) -> bool {
    &&& 0 < at < name.len()
    &&& name[at] == '.'
    &&& forall|j: int| at < j < name.len() ==> name[j] != '.'
    &&& name != seq!['.', '.']
}

/// The length of a name's stem.
pub open spec fn stem_len(name: Seq<char>) -> int {
    if exists|at: int| dot_splits(name, at) {
        choose|at: int| dot_splits(name, at)
    } else {
        name.len() as int
    }
}

/// A name without its extension.
pub open spec fn stem(name: Seq<char>) -> Seq<char> {
    name.take(stem_len(name))
}

/// The extension of a name: what stands behind the dot where the stem ends.
pub open spec fn extension(name: Seq<char>) -> Option<Seq<char>> {
    if stem_len(name) < name.len() {
        Some(name.skip(stem_len(name) + 1))
    } else {
        None
    }
}

/// The length of the stem lies within the name, and there is only one dot where it can end.
pub proof fn lemma_stem(name: Seq<char>)
    ensures
        0 <= stem_len(name) <= name.len(),
        forall|at: int| #[trigger] dot_splits(name, at) ==> stem_len(name) == at,
        stem_len(name) < name.len() ==> dot_splits(name, stem_len(name)),
{
    assert forall|at: int| #[trigger] dot_splits(name, at) implies stem_len(name) == at by {
        let k = choose|k: int| dot_splits(name, k);
        assert(dot_splits(name, k));
        if at < k {
            assert(name[k] != '.');
        } else if k < at {
            assert(name[at] != '.');
        }
    }
}

/// Where a name's stem ends.
pub fn stem_end(name: &Vec<char>) -> (n: usize)
    ensures
        n == stem_len(name@),
        n <= name@.len(),
{
    proof {
        lemma_stem(name@);
    }
    let mut i: usize = name.len();
    while i > 0 && name[i - 1] != '.'
        invariant
            i <= name@.len(),
            forall|j: int| i <= j < name@.len() ==> name@[j] != '.',
        decreases i,
    {
        i = i - 1;
    }
    if i <= 1 {
        assert(forall|at: int| !dot_splits(name@, at));
        return name.len();
    }
    if name.len() == 2 && name[0] == '.' {
        assert(name@ =~= seq!['.', '.']);
        return name.len();
    }
    proof {
        if name@ == seq!['.', '.'] {
            assert(name@.len() == 2 && name@[0] == '.');
        }
        assert(dot_splits(name@, i - 1));
    }
    i - 1
}

/// The extension of a name.
pub fn extension_of(name: &str) -> (r: Option<String>)
    ensures
        match (r, extension(name@)) {
            (Some(text), Some(expected)) => text@ == expected,
            (None, None) => true,
            _ => false,
        },
{
    let chars = chars_of(name);
    let n = stem_end(&chars);
    if n < chars.len() {
        let r = text_of(&chars, n + 1, chars.len());
        assert(chars@.subrange(n + 1, chars@.len() as int) =~= name@.skip(n + 1));
        Some(r)
    } else {
        None
    }
}

/// A part of a path is a name, unless it is empty or leads to the current or the upper folder.
pub open spec fn is_name(part: Seq<char>) -> bool {
    &&& part.len() > 0
    &&& part != seq!['.']
    &&& part != seq!['.', '.']
}

/// The name at the end of a path. A path may end without one, as `/` and `..` do.
pub open spec fn file_name(p: PathView) -> Option<Seq<char>> {
    if p.parts.len() > 0 && is_name(p.parts.last()) {
        Some(p.parts.last())
    } else {
        None
    }
}

/// The path with another last name.
pub open spec fn renamed(p: PathView, name: Seq<char>) -> PathView {
    PathView { root: p.root, parts: p.parts.drop_last().push(name) }
}

impl FilePath {
    /// Whether a name stands at the end of the path.
    pub fn has_name(&self) -> (r: bool)
        ensures
            r == (file_name(self@) is Some),
    {
        if self.parts.len() == 0 {
            return false;
        }
        let part = chars_of(self.parts[self.parts.len() - 1].as_str());
        assert(self@.parts.last() == part@);
        if part.len() == 0 {
            return false;
        }
        if part.len() <= 2 && part[0] == '.' && part[part.len() - 1] == '.' {
            assert(part@ =~= seq!['.'] || part@ =~= seq!['.', '.']);
            return false;
        }
        proof {
            if part@ == seq!['.'] {
                assert(part@.len() == 1 && part@[0] == '.');
            }
            if part@ == seq!['.', '.'] {
                assert(part@.len() == 2 && part@[0] == '.' && part@[1] == '.');
            }
        }
        true
    }

    /// The path with another last name.
    pub fn with_name(&self, name: &str) -> (r: FilePath)
        requires
            self@.parts.len() > 0,
        ensures
            r@ == renamed(self@, name@),
    {
        let r = self.prefix(self.parts.len() - 1).child(name);
        assert(r@.parts =~= renamed(self@, name@).parts);
        r
    }
}

// ---------------------------------------------------------------------------
// Resolving
// ---------------------------------------------------------------------------

/// A step of a path as it was written.
#[derive(Debug)]
pub enum Component {
    Current,
    Parent,
    Name(String),
}

/// What a step says: nothing for the current folder, or one level up, or a name.
pub enum Move {
    Stay,
    Up,
    Down(Seq<char>),
}

impl View for Component {
    type V = Move;

    open spec fn view(&self) -> Move {
        match self {
            Component::Current => Move::Stay,
            Component::Parent => Move::Up,
            Component::Name(name) => Move::Down(name@),
        }
    }
}

/// What a list of steps says.
pub open spec fn moves(v: Seq<Component>) -> Seq<Move> {
    Seq::new(v.len(), |i: int| v[i]@)
}

/// An absolute path as it was written: its root and its steps.
#[derive(Debug)]
pub struct RawPath {
    pub root: String,
    pub steps: Vec<Component>,
}

impl RawPath {
    /// The path that is left once every step is taken, or nothing where a step leads above the
    /// root.
    pub open spec fn target(&self) -> Option<PathView> {
        match resolved(moves(self.steps@)) {
            Some(parts) => Some(PathView { root: self.root@, parts }),
            None => None,
        }
    }
}

/// The names that are left once every step is taken, or nothing where a step leads above the root.
pub open spec fn resolved(steps: Seq<Move>) -> Option<Seq<Seq<char>>>
    decreases steps.len(),
{
    if steps.len() == 0 {
        Some(Seq::empty())
    } else {
        match resolved(steps.drop_last()) {
            None => None,
            Some(names) => match steps.last() {
                Move::Stay => Some(names),
                Move::Up => if names.len() == 0 {
                    None
                } else {
                    Some(names.drop_last())
                },
                Move::Down(name) => Some(names.push(name)),
            },
        }
    }
}

/// Resolves the steps of a path. There is no such path where a step leads above the root.
pub fn absolute(path: &RawPath) -> (r: Option<FilePath>)
    ensures
        match (r, path.target()) {
            (Some(p), Some(target)) => p@ == target,
            (None, None) => true,
            _ => false,
        },
{
    let steps = &path.steps;
    let mut parts: Vec<String> = Vec::new();
    let mut i: usize = 0;
    let ghost all = moves(steps@);
    assert(texts(parts@) =~= Seq::<Seq<char>>::empty());
    while i < steps.len()
        invariant
            i <= steps@.len(),
            steps@ == path.steps@,
            all == moves(steps@),
            resolved(all.take(i as int)) == Some(texts(parts@)),
        decreases steps@.len() - i,
    {
        let ghost before = parts@;
        assert(all.take(i + 1).drop_last() =~= all.take(i as int));
        assert(all.take(i + 1).last() == steps@[i as int]@);
        match &steps[i] {
            Component::Current => {},
            Component::Parent => {
                if parts.len() == 0 {
                    proof {
                        lemma_lost_stays_lost(all, i + 1);
                        assert(all.take(all.len() as int) =~= all);
                    }
                    return None;
                }
                let _ = parts.pop();
                assert(texts(parts@) =~= texts(before).drop_last());
            },
            Component::Name(name) => {
                parts.push(name.clone());
                assert(texts(parts@) =~= texts(before).push(name@));
            },
        }
        i = i + 1;
    }
    assert(all.take(i as int) =~= all);
    Some(FilePath { root: path.root.clone(), parts })
}

/// Steps that led above the root are not mended by further steps.
proof fn lemma_lost_stays_lost(steps: Seq<Move>, n: int)
    requires
        0 <= n <= steps.len(),
        resolved(steps.take(n)) is None,
    ensures
        resolved(steps.take(steps.len() as int)) is None,
    decreases steps.len() - n,
{
    if n < steps.len() {
        assert(steps.take(n + 1).drop_last() =~= steps.take(n));
        lemma_lost_stays_lost(steps, n + 1);
    }
}

/// A path that is written with names alone is resolved to those names.
pub proof fn plain_steps_resolve_to_themselves(names: Seq<Seq<char>>)
    ensures
        resolved(Seq::new(names.len(), |i: int| Move::Down(names[i]))) == Some(names),
    decreases names.len(),
{
    let steps = Seq::new(names.len(), |i: int| Move::Down(names[i]));
    if names.len() == 0 {
        assert(names =~= Seq::<Seq<char>>::empty());
    } else {
        let front = names.drop_last();
        plain_steps_resolve_to_themselves(front);
        assert(steps.drop_last() =~= Seq::new(front.len(), |i: int| Move::Down(front[i])));
        assert(front.push(names.last()) =~= names);
    }
}

/// Where steps lead depends on those in front only by where these lead.
proof fn lemma_resolved_on(a: Seq<Move>, b: Seq<Move>, rest: Seq<Move>)
    requires
        resolved(a) == resolved(b),
    ensures
        resolved(a + rest) == resolved(b + rest),
    decreases rest.len(),
{
    if rest.len() == 0 {
        assert(a + rest =~= a);
        assert(b + rest =~= b);
    } else {
        lemma_resolved_on(a, b, rest.drop_last());
        assert((a + rest).drop_last() =~= a + rest.drop_last());
        assert((b + rest).drop_last() =~= b + rest.drop_last());
        assert((a + rest).last() == rest.last() && (b + rest).last() == rest.last());
    }
}

/// A step that stays changes nothing, and a step down is undone by the step up behind it, wherever
/// they stand.
pub proof fn detours_change_nothing(front: Seq<Move>, name: Seq<char>, rest: Seq<Move>)
    ensures
        resolved(front + seq![Move::Stay] + rest) == resolved(front + rest),
        resolved(front + seq![Move::Down(name), Move::Up] + rest) == resolved(front + rest),
{
    let (stay, detour) = (front + seq![Move::Stay], front + seq![Move::Down(name), Move::Up]);
    assert(stay.drop_last() =~= front);
    lemma_resolved_on(stay, front, rest);
    let down = front + seq![Move::Down(name)];
    assert(detour.drop_last() =~= down);
    assert(down.drop_last() =~= front);
    assert(detour.last() is Up && down.last() == Move::Down(name));
    if resolved(front) is Some {
        let names = resolved(front)->0;
        assert(resolved(down) == Some(names.push(name)));
        assert(names.push(name).drop_last() =~= names);
        assert(resolved(detour) == resolved(front));
    } else {
        assert(resolved(down) is None);
    }
    lemma_resolved_on(detour, front, rest);
}

/// There is nothing above the root: a step up from there leads nowhere, whatever follows.
pub proof fn nothing_is_above_the_root(front: Seq<Move>, rest: Seq<Move>)
    requires
        resolved(front) == Some(Seq::<Seq<char>>::empty()),
    ensures
        resolved(front + seq![Move::Up] + rest) is None,
{
    let up = front + seq![Move::Up];
    assert(up.drop_last() =~= front);
    assert(resolved(up) is None);
    assert((up + rest).take(up.len() as int) =~= up);
    lemma_lost_stays_lost(up + rest, up.len() as int);
    assert((up + rest).take((up + rest).len() as int) =~= up + rest);
}

/// A path lies within another exactly where it goes on from it.
pub proof fn paths_within_go_on(p: PathView, base: PathView)
    ensures
        p.within(base) <==> p.root == base.root && exists|rest: Seq<Seq<char>>|
            p.parts == #[trigger] (base.parts + rest),
        p.within(p),
{
    if p.within(base) {
        let rest = p.parts.skip(base.parts.len() as int);
        assert(p.parts =~= base.parts + rest);
    }
    if exists|rest: Seq<Seq<char>>| p.parts == #[trigger] (base.parts + rest) {
        let rest = choose|rest: Seq<Seq<char>>| p.parts == #[trigger] (base.parts + rest);
        assert(p.parts.take(base.parts.len() as int) =~= base.parts);
    }
    assert(p.parts.take(p.parts.len() as int) =~= p.parts);
}

/// A path is shown as its root and its names, with the separator between each two of them.
pub proof fn paths_are_shown_name_by_name(p: PathView, name: Seq<char>, separator: Seq<char>)
    ensures
        (PathView { root: p.root, parts: Seq::empty() }).shown(separator) == p.root,
        (PathView { root: p.root, parts: seq![name] }).shown(separator) == p.root + name,
        p.parts.len() > 0 ==> (PathView { root: p.root, parts: p.parts.push(name) }).shown(separator)
            == p.shown(separator) + separator + name,
{
    assert(p.root + Seq::<char>::empty() =~= p.root);
    let longer = p.parts.push(name);
    assert(longer.drop_last() =~= p.parts);
    assert(p.root + (joined(p.parts, separator) + separator + name) =~= p.root + joined(
        p.parts,
        separator,
    ) + separator + name);
}

/// Where case counts, paths lead to the same file where they are the same; where it does not, they
/// do where their roots and their names have the same lowercase forms, one by one.
pub proof fn case_tells_files_apart(p: PathView, q: PathView)
    ensures
        p.key(false) == q.key(false) <==> p == q,
        p.key(true) == q.key(true) <==> lowercase(p.root) == lowercase(q.root) && p.parts.len()
            == q.parts.len() && forall|i: int|
            0 <= i < p.parts.len() ==> lowercase(#[trigger] p.parts[i]) == lowercase(q.parts[i]),
{
    let (a, b) = (p.key(true), q.key(true));
    if a == b {
        assert(a.parts.len() == p.parts.len() && b.parts.len() == q.parts.len());
        assert forall|i: int| 0 <= i < p.parts.len() implies lowercase(#[trigger] p.parts[i])
            == lowercase(q.parts[i]) by {
            assert(a.parts[i] == lowercase(p.parts[i]));
            assert(b.parts[i] == lowercase(q.parts[i]));
        }
    } else if lowercase(p.root) == lowercase(q.root) && p.parts.len() == q.parts.len() && forall|
        i: int,
    |
        0 <= i < p.parts.len() ==> lowercase(#[trigger] p.parts[i]) == lowercase(q.parts[i]) {
        assert(a.parts =~= b.parts);
    }
}

/// A path has a name where its last part is one: not where that is empty, a dot or two dots, and
/// not where there is none.
pub proof fn paths_end_with_their_names(p: PathView, name: Seq<char>)
    ensures
        name.len() > 0 && name != seq!['.'] && name != seq!['.', '.'] ==> file_name(p.child(name))
            == Some(name),
        name.len() == 0 || name == seq!['.'] || name == seq!['.', '.'] ==> file_name(p.child(name))
            is None,
        p.parts.len() == 0 ==> file_name(p) is None,
{
}

/// Going down and up again leads back, a name takes the place of the last one alone, and what lies
/// below a folder lies within it.
pub proof fn folders_and_names_fit_together(
    p: PathView,
    name: Seq<char>,
    other: Seq<char>,
    rest: Seq<Seq<char>>,
)
    ensures
        p.child(name).prefix(p.parts.len() as int) == p,
        p.child(name).root == p.root && p.child(name).parts == p.parts.push(name),
        renamed(p.child(name), other) == p.child(other),
        p.below(rest).within(p),
        p.below(rest).prefix(p.parts.len() as int) == p,
        p.below(rest).parts.skip(p.parts.len() as int) == rest,
        p.below(rest).child(name) == p.below(rest.push(name)),
{
    assert(p.child(name).prefix(p.parts.len() as int).parts =~= p.parts);
    assert(p.child(name).parts.drop_last() =~= p.parts);
    assert(p.below(rest).parts.take(p.parts.len() as int) =~= p.parts);
    assert(p.below(rest).parts.skip(p.parts.len() as int) =~= rest);
    assert((p.parts + rest).push(name) =~= p.parts + rest.push(name));
}

/// The path that is left keeps the root that was written, and is there exactly where the steps do
/// not lead above it.
pub proof fn written_paths_keep_their_root(path: RawPath)
    ensures
        match path.target() {
            Some(p) => p.root == path.root@ && resolved(moves(path.steps@)) == Some(p.parts),
            None => resolved(moves(path.steps@)) is None,
        },
{
}

} // verus!
