//! A whole output in playback order: what arranging all its folders comes to.
use crate::disk::{Action, Outcome};
use crate::output_order::{
    every_folder_above_an_output_is_arranged, folder_order, holds_output, is_folder_list,
    is_folder_of, lemma_parts_equal, lowest, ArrangeStage, ArrangementView,
};
use crate::path::PathView;
use crate::sorting::{
    answers, arranged, arranging_keeps_every_entry, arranging_loses_nothing,
    checked_folders_are_complete, entries_are_totally_ordered, in_order, is_safe, is_visible, item,
    listings_are_safe, names_among, shelf_answers, visible_names, Listed, Shelf, SortStage,
    SortingView, Spot,
};
use crate::text::Order;
use vstd::prelude::*;
use vstd::relations::sorted_by;
use vstd::seq_lib::lemma_sorted_unique;

verus! {

/// What stands in each folder.
pub type Rooms = Map<PathView, Shelf>;

/// What an arranging hears: what came of what it asked for, or how a folder is listed.
pub enum Reply {
    Answer { outcome: Outcome<Seq<char>> },
    Listing { entries: Seq<Listed> },
}

/// The attributes of each entry of each folder. They stay with an entry that moves away and back.
pub type Attributes = spec_fn(PathView, Seq<char>) -> u32;

/// An arranging and the folders at one moment.
pub struct Scene {
    pub view: ArrangementView,
    pub rooms: Rooms,
    pub attributes: Attributes,
}

/// A listing names what stands in a folder, each entry once.
pub open spec fn is_listing(entries: Seq<Listed>, folder: PathView, scene: Scene) -> bool {
    let s = scene.rooms[folder];
    &&& forall|i: int|
        0 <= i < entries.len() ==> {
            let entry = #[trigger] entries[i];
            item(s, Spot::Folder(entry.name)) is Some && entry.attributes == (scene.attributes)(
                folder,
                entry.name,
            )
        }
    &&& forall|i: int, j: int|
        0 <= i < j < entries.len() ==> (#[trigger] entries[i]).name != (#[trigger] entries[j]).name
    &&& forall|name: Seq<char>| #[trigger]
        item(s, Spot::Folder(name)) is Some ==> is_named(entries, name)
}

/// A listing holds an entry of this name.
pub open spec fn is_named(entries: Seq<Listed>, name: Seq<char>) -> bool {
    exists|i: int| 0 <= i < entries.len() && (#[trigger] entries[i]).name == name
}

/// One scene follows another, on a disk on which nobody else is at work. Folders that are not being
/// arranged stay as they are.
pub open spec fn comes_next(a: Scene, reply: Reply, b: Scene) -> bool {
    let v = a.view;
    &&& v.stage != ArrangeStage::Over
    &&& v.outputs.len() <= usize::MAX
    &&& v.folders.len() <= usize::MAX
    &&& v.sorting.entries.len() < usize::MAX
    &&& b.attributes == a.attributes
    &&& match v.stage {
        ArrangeStage::Folder { at } => {
            let folder = v.folders[at as int];
            &&& forall|g: PathView| g != folder ==> #[trigger] b.rooms[g] == a.rooms[g]
            &&& match reply {
                Reply::Answer { outcome } => {
                    &&& b.view == v.step(outcome)
                    &&& answers(v.sorting, outcome)
                    &&& shelf_answers(v.sorting, outcome, a.rooms[folder], b.rooms[folder])
                },
                Reply::Listing { entries } => {
                    &&& v.sorting.stage is List || v.sorting.stage is Verify
                    &&& b.view == v.listed(entries)
                    &&& b.rooms[folder] == a.rooms[folder]
                    &&& is_listing(entries, folder, a)
                },
            }
        },
        _ => {
            &&& forall|g: PathView| #[trigger] b.rooms[g] == a.rooms[g]
            &&& reply matches Reply::Answer { outcome } && b.view == v.step(outcome)
        },
    }
}

/// The scenes of an arranging, from the first.
pub open spec fn is_arranging(scenes: Seq<Scene>, replies: Seq<Reply>) -> bool {
    &&& scenes.len() == replies.len() + 1
    &&& forall|i: int|
        0 <= i < replies.len() ==> comes_next(scenes[i], #[trigger] replies[i], scenes[i + 1])
}

/// An arranging begins, as `arrange_output` begins it for outputs in the output folder; no folder
/// has a holding folder yet.
pub open spec fn begins(scene: Scene, root: PathView) -> bool {
    let v = scene.view;
    &&& v.wf()
    &&& v.error is None
    &&& is_folder_list(v.folders, root, v.outputs)
    &&& v.outputs.len() > 0 ==> v.stage == (ArrangeStage::Check { at: 0 })
    &&& v.outputs.len() == 0 ==> v.stage == ArrangeStage::Over
    &&& forall|g: PathView, name: Seq<char>| #[trigger]
        item(scene.rooms[g], Spot::Holder(name)) is None
}

/// A folder was listed at this moment, before or after it was arranged.
pub open spec fn was_listed(
    scenes: Seq<Scene>,
    replies: Seq<Reply>,
    t: int,
    i: int,
    stage: SortStage,
    entries: Seq<Listed>,
) -> bool {
    &&& 0 <= t < replies.len()
    &&& scenes[t].view.stage == (ArrangeStage::Folder { at: i as usize })
    &&& scenes[t].view.sorting.stage == stage
    &&& replies[t] == (Reply::Listing { entries })
}

/// A folder had fewer than two entries to put into order.
pub open spec fn had_too_few(scenes: Seq<Scene>, replies: Seq<Reply>, i: int) -> bool {
    exists|t: int, entries: Seq<Listed>| #[trigger]
        was_listed(scenes, replies, t, i, SortStage::List, entries) && visible_names(entries).len()
            < 2
}

/// The second listing shows the visible entries of the first, and shows them in playback order.
pub open spec fn shows_order(first: Seq<Listed>, second: Seq<Listed>) -> bool {
    &&& visible_names(second) == arranged(visible_names(first))
    &&& sorted_by(visible_names(second), in_order())
}

/// A folder was found to be listed in playback order, after it was arranged.
pub open spec fn was_in_order(scenes: Seq<Scene>, replies: Seq<Reply>, i: int) -> bool {
    exists|t: int, u: int, first: Seq<Listed>, second: Seq<Listed>|
        t < u && #[trigger] was_listed(scenes, replies, t, i, SortStage::List, first)
            && #[trigger] was_listed(scenes, replies, u, i, SortStage::Verify, second)
            && shows_order(first, second)
}

/// What stands in a folder is what stood there.
pub open spec fn is_unchanged(s0: Shelf, s: Shelf) -> bool {
    forall|name: Seq<char>| #[trigger]
        item(s, Spot::Folder(name)) == item(s0, Spot::Folder(name))
}

/// A folder is done.
pub open spec fn is_done(scenes: Seq<Scene>, replies: Seq<Reply>, i: int) -> bool {
    let folder = scenes[0].view.folders[i];
    &&& is_unchanged(scenes[0].rooms[folder], scenes.last().rooms[folder])
    &&& had_too_few(scenes, replies, i) || was_in_order(scenes, replies, i)
}

/// The folder that is being arranged is on its way.
pub open spec fn is_on_track(scenes: Seq<Scene>, replies: Seq<Reply>, at: int) -> bool {
    let v = scenes.last().view;
    let folder = v.folders[at];
    let (s0, s) = (scenes[0].rooms[folder], scenes.last().rooms[folder]);
    &&& v.sorting.stage != SortStage::Over
    &&& v.sorting.stage is List ==> s == s0 && v.sorting.entries.len() == 0
    &&& !(v.sorting.stage is List) ==> {
        &&& is_safe(v.sorting, s0, s)
        &&& exists|t: int, first: Seq<Listed>| #[trigger]
            was_listed(scenes, replies, t, at, SortStage::List, first) && v.sorting.entries
                == arranged(visible_names(first)) && is_listing(first, folder, scenes[0])
    }
}

/// How far an arranging without an error has come.
pub open spec fn is_under_control(scenes: Seq<Scene>, replies: Seq<Reply>) -> bool {
    let v = scenes.last().view;
    &&& v.wf()
    &&& v.folders == scenes[0].view.folders
    &&& v.outputs == scenes[0].view.outputs
    &&& v.error is Some ==> v.stage is Over
    &&& scenes.last().attributes == scenes[0].attributes
    &&& v.error is None ==> {
        let n = match v.stage {
            ArrangeStage::Check { .. } => 0,
            ArrangeStage::Folder { at } => at as int,
            ArrangeStage::Over => v.folders.len() as int,
        };
        &&& forall|i: int| 0 <= i < n ==> #[trigger] is_done(scenes, replies, i)
        &&& forall|g: PathView|
            (forall|i: int| 0 <= i < n ==> g != #[trigger] v.folders[i]) && (v.stage is Folder
                ==> g != v.folders[n]) ==> #[trigger] scenes.last().rooms[g] == scenes[0].rooms[g]
        &&& v.stage matches ArrangeStage::Folder { at } ==> is_on_track(scenes, replies, at as int)
    }
}

/// The folders of a list are all different.
proof fn lemma_distinct(
    folders: Seq<PathView>,
    root: PathView,
    outputs: Seq<PathView>,
    i: int,
    j: int,
)
    requires
        is_folder_list(folders, root, outputs),
        0 <= i < folders.len(),
        0 <= j < folders.len(),
        i != j,
    ensures
        folders[i] != folders[j],
{
    if folders[i] == folders[j] {
        lemma_parts_equal(folders[i].parts, folders[j].parts);
        if i < j {
            assert(folder_order(folders[i], folders[j]) == Order::Less);
        } else {
            assert(folder_order(folders[j], folders[i]) == Order::Less);
        }
    }
}

/// What was listed stays listed.
proof fn lemma_still_listed(
    scenes: Seq<Scene>,
    replies: Seq<Reply>,
    t: int,
    i: int,
    stage: SortStage,
    entries: Seq<Listed>,
)
    requires
        replies.len() > 0,
        scenes.len() == replies.len() + 1,
        was_listed(scenes.drop_last(), replies.drop_last(), t, i, stage, entries),
    ensures
        was_listed(scenes, replies, t, i, stage, entries),
{
    assert(scenes.drop_last()[t] == scenes[t]);
    assert(replies.drop_last()[t] == replies[t]);
}

/// A folder that is done and that nobody touches stays done.
proof fn lemma_still_done(scenes: Seq<Scene>, replies: Seq<Reply>, i: int)
    requires
        replies.len() > 0,
        scenes.len() == replies.len() + 1,
        is_done(scenes.drop_last(), replies.drop_last(), i),
        scenes.last().rooms[scenes[0].view.folders[i]] == scenes[replies.len()
            - 1].rooms[scenes[0].view.folders[i]],
    ensures
        is_done(scenes, replies, i),
{
    let (front, earlier) = (scenes.drop_last(), replies.drop_last());
    assert(front[0] == scenes[0]);
    assert(front.last() == scenes[replies.len() - 1]);
    if had_too_few(front, earlier, i) {
        let (t, entries) = choose|t: int, entries: Seq<Listed>| #[trigger]
            was_listed(front, earlier, t, i, SortStage::List, entries) && visible_names(
                entries,
            ).len() < 2;
        lemma_still_listed(scenes, replies, t, i, SortStage::List, entries);
        assert(had_too_few(scenes, replies, i));
    } else {
        let (t, u, first, second) = choose|
            t: int,
            u: int,
            first: Seq<Listed>,
            second: Seq<Listed>,
        |
            t < u && #[trigger] was_listed(front, earlier, t, i, SortStage::List, first)
                && #[trigger] was_listed(front, earlier, u, i, SortStage::Verify, second)
                && shows_order(first, second);
        lemma_still_listed(scenes, replies, t, i, SortStage::List, first);
        lemma_still_listed(scenes, replies, u, i, SortStage::Verify, second);
        assert(was_in_order(scenes, replies, i));
    }
}

/// What the visible entries of a listing are called.
proof fn lemma_visible_names(entries: Seq<Listed>)
    ensures
        forall|name: Seq<char>| #[trigger]
            visible_names(entries).contains(name) <==> exists|i: int|
                0 <= i < entries.len() && (#[trigger] entries[i]).name == name && is_visible(
                    entries[i],
                ),
        (forall|i: int, j: int|
            0 <= i < j < entries.len() ==> (#[trigger] entries[i]).name != (
            #[trigger] entries[j]).name) ==> visible_names(entries).no_duplicates(),
    decreases entries.len(),
{
    if entries.len() > 0 {
        let (front, last) = (entries.drop_last(), entries.last());
        let names = visible_names(front);
        lemma_visible_names(front);
        assert forall|name: Seq<char>| #[trigger]
            visible_names(entries).contains(name) <==> exists|i: int|
                0 <= i < entries.len() && (#[trigger] entries[i]).name == name && is_visible(
                    entries[i],
                ) by {
            if visible_names(entries).contains(name) {
                if names.contains(name) {
                    let i = choose|i: int|
                        0 <= i < front.len() && (#[trigger] front[i]).name == name && is_visible(
                            front[i],
                        );
                    assert(entries[i] == front[i]);
                } else {
                    assert(entries[entries.len() - 1] == last);
                }
            }
            if exists|i: int|
                0 <= i < entries.len() && (#[trigger] entries[i]).name == name && is_visible(
                    entries[i],
                ) {
                let i = choose|i: int|
                    0 <= i < entries.len() && (#[trigger] entries[i]).name == name && is_visible(
                        entries[i],
                    );
                if i < front.len() {
                    assert(front[i] == entries[i]);
                    assert(names.contains(name));
                    let k = choose|k: int| 0 <= k < names.len() && names[k] == name;
                    assert(visible_names(entries)[k] == name);
                } else {
                    assert(visible_names(entries)[names.len() as int] == name);
                }
            }
        }
        if forall|i: int, j: int|
            0 <= i < j < entries.len() ==> (#[trigger] entries[i]).name != (
            #[trigger] entries[j]).name {
            assert forall|i: int, j: int| 0 <= i < j < front.len() implies (
            #[trigger] front[i]).name != (#[trigger] front[j]).name by {
                assert(entries[i].name != entries[j].name);
            }
            if names.contains(last.name) {
                let i = choose|i: int|
                    0 <= i < front.len() && (#[trigger] front[i]).name == last.name && is_visible(
                        front[i],
                    );
                assert(entries[i].name != entries[entries.len() - 1].name);
            }
        }
    }
}

/// Two lists without repetition that hold the same names hold them equally often.
proof fn lemma_same_names(x: Seq<Seq<char>>, y: Seq<Seq<char>>)
    requires
        x.no_duplicates(),
        y.no_duplicates(),
        forall|name: Seq<char>| #[trigger] x.contains(name) <==> y.contains(name),
    ensures
        x.to_multiset() == y.to_multiset(),
{
    broadcast use vstd::seq_lib::group_to_multiset_ensures;

    x.lemma_multiset_has_no_duplicates();
    y.lemma_multiset_has_no_duplicates();
    assert forall|name: Seq<char>| #[trigger]
        x.to_multiset().count(name) == y.to_multiset().count(name) by {
        assert(x.contains(name) <==> x.to_multiset().count(name) > 0);
        assert(y.contains(name) <==> y.to_multiset().count(name) > 0);
        if x.contains(name) {
            assert(x.to_multiset().contains(name) && y.to_multiset().contains(name));
        }
    }
    assert(x.to_multiset() =~= y.to_multiset());
}

/// Two listings of a folder in which the same entries stand show the same visible entries.
proof fn lemma_same_entries(
    x: Seq<Listed>,
    y: Seq<Listed>,
    folder: PathView,
    a: Scene,
    b: Scene,
)
    requires
        is_listing(x, folder, a),
        is_listing(y, folder, b),
        a.attributes == b.attributes,
        is_unchanged(a.rooms[folder], b.rooms[folder]),
    ensures
        visible_names(x).to_multiset() == visible_names(y).to_multiset(),
{
    lemma_visible_names(x);
    lemma_visible_names(y);
    assert forall|name: Seq<char>| #[trigger]
        visible_names(x).contains(name) <==> visible_names(y).contains(name) by {
        if visible_names(x).contains(name) {
            let i = choose|i: int|
                0 <= i < x.len() && (#[trigger] x[i]).name == name && is_visible(x[i]);
            assert(item(b.rooms[folder], Spot::Folder(name)) is Some);
            assert(is_named(y, name));
            let j = choose|j: int| 0 <= j < y.len() && (#[trigger] y[j]).name == name;
            assert(is_visible(y[j]));
        }
        if visible_names(y).contains(name) {
            let j = choose|j: int|
                0 <= j < y.len() && (#[trigger] y[j]).name == name && is_visible(y[j]);
            assert(item(b.rooms[folder], Spot::Folder(name)) is Some);
            assert(item(a.rooms[folder], Spot::Folder(name)) is Some);
            assert(is_named(x, name));
            let i = choose|i: int| 0 <= i < x.len() && (#[trigger] x[i]).name == name;
            assert(is_visible(x[i]));
        }
    }
    lemma_same_names(visible_names(x), visible_names(y));
}

/// Where the given names are those of the visible entries, picking them picks the visible entries.
proof fn lemma_picks_visible(entries: Seq<Listed>, names: Seq<Seq<char>>)
    requires
        forall|i: int|
            0 <= i < entries.len() ==> (names.contains((#[trigger] entries[i]).name) <==> is_visible(
                entries[i],
            )),
    ensures
        names_among(entries, names) == visible_names(entries),
    decreases entries.len(),
{
    if entries.len() > 0 {
        let front = entries.drop_last();
        assert forall|i: int| 0 <= i < front.len() implies (names.contains(
            (#[trigger] front[i]).name,
        ) <==> is_visible(front[i])) by {
            assert(front[i] == entries[i]);
        }
        lemma_picks_visible(front, names);
        assert(entries[entries.len() - 1] == entries.last());
    }
}

/// A folder that was checked shows its visible entries in order.
proof fn lemma_in_order(
    first: Seq<Listed>,
    second: Seq<Listed>,
    folder: PathView,
    a: Scene,
    b: Scene,
)
    requires
        is_listing(first, folder, a),
        is_listing(second, folder, b),
        a.attributes == b.attributes,
        is_unchanged(a.rooms[folder], b.rooms[folder]),
        names_among(second, arranged(visible_names(first))) == arranged(visible_names(first)),
    ensures
        shows_order(first, second),
{
    broadcast use vstd::seq_lib::group_to_multiset_ensures;

    let names = arranged(visible_names(first));
    arranging_keeps_every_entry(visible_names(first));
    lemma_same_entries(first, second, folder, a, b);
    lemma_visible_names(second);
    assert forall|i: int| 0 <= i < second.len() implies (names.contains(
        (#[trigger] second[i]).name,
    ) <==> is_visible(second[i])) by {
        let name = second[i].name;
        assert(names.contains(name) <==> names.to_multiset().count(name) > 0);
        assert(visible_names(second).contains(name) <==> visible_names(
            second,
        ).to_multiset().count(name) > 0);
        if visible_names(second).contains(name) {
            let j = choose|j: int|
                0 <= j < second.len() && (#[trigger] second[j]).name == name && is_visible(
                    second[j],
                );
            assert(i == j) by {
                if i < j {
                    assert(second[i].name != second[j].name);
                } else if j < i {
                    assert(second[j].name != second[i].name);
                }
            }
        }
    }
    lemma_picks_visible(second, names);
}

/// The folder under way, once the disk has replied: it is on its way still, or done, or there was
/// an error.
proof fn lemma_folder_next(scenes: Seq<Scene>, replies: Seq<Reply>, at: usize)
    requires
        replies.len() > 0,
        scenes.len() == replies.len() + 1,
        ({
            let a = scenes[replies.len() - 1];
            &&& comes_next(a, replies.last(), scenes.last())
            &&& a.view.stage == (ArrangeStage::Folder { at })
            &&& a.view.wf()
            &&& a.view.folders == scenes[0].view.folders
            &&& a.attributes == scenes[0].attributes
            &&& is_on_track(scenes.drop_last(), replies.drop_last(), at as int)
            &&& forall|name: Seq<char>| #[trigger]
                item(scenes[0].rooms[a.view.folders[at as int]], Spot::Holder(name)) is None
        }),
    ensures
        ({
            let a = scenes[replies.len() - 1].view;
            let sorting = match replies.last() {
                Reply::Answer { outcome } => a.sorting.step(outcome),
                Reply::Listing { entries } => a.sorting.listed(entries),
            };
            &&& scenes.last().view == a.with_sorting(at, sorting)
            &&& sorting.stage != SortStage::Over ==> sorting.wf() && is_on_track(
                scenes,
                replies,
                at as int,
            )
            &&& sorting.stage == SortStage::Over && !(sorting.verdict is Failed) ==> is_done(
                scenes,
                replies,
                at as int,
            )
        }),
{
    let (front, earlier) = (scenes.drop_last(), replies.drop_last());
    let last = replies.len() - 1;
    let a = scenes[last];
    let v = a.view;
    let folder = v.folders[at as int];
    let (s0, s, t) = (scenes[0].rooms[folder], a.rooms[folder], scenes.last().rooms[folder]);
    assert(front[0] == scenes[0] && front.last() == a);
    match replies.last() {
        Reply::Answer { outcome } => {
            let sorting = v.sorting.step(outcome);
            if !(v.sorting.stage is List) {
                arranging_loses_nothing(v.sorting, outcome, s0, s, t);
                lemma_kind_of_step(v.sorting, outcome);
                let (u, first) = choose|u: int, first: Seq<Listed>| #[trigger]
                    was_listed(front, earlier, u, at as int, SortStage::List, first)
                        && v.sorting.entries == arranged(visible_names(first)) && is_listing(
                        first,
                        folder,
                        scenes[0],
                    );
                lemma_still_listed(scenes, replies, u, at as int, SortStage::List, first);
            }
        },
        Reply::Listing { entries } => {
            let sorting = v.sorting.listed(entries);
            if v.sorting.stage is List {
                listings_are_safe(v.sorting, entries, s0);
                assert(is_listing(entries, folder, scenes[0]));
                assert(was_listed(scenes, replies, last, at as int, SortStage::List, entries));
                if sorting.stage == SortStage::Over && !(sorting.verdict is Failed) {
                    assert(visible_names(entries).len() < 2);
                    assert(had_too_few(scenes, replies, at as int));
                }
            } else {
                let (u, first) = choose|u: int, first: Seq<Listed>| #[trigger]
                    was_listed(front, earlier, u, at as int, SortStage::List, first)
                        && v.sorting.entries == arranged(visible_names(first)) && is_listing(
                        first,
                        folder,
                        scenes[0],
                    );
                lemma_still_listed(scenes, replies, u, at as int, SortStage::List, first);
                assert(was_listed(scenes, replies, last, at as int, SortStage::Verify, entries));
                if sorting.verdict is Checked {
                    checked_folders_are_complete(v.sorting, entries, s0, s);
                    lemma_in_order(first, entries, folder, scenes[0], a);
                    assert(shows_order(first, entries));
                    assert(was_in_order(scenes, replies, at as int));
                }
            }
        },
    }
}

/// An answer ends the arranging of a folder only with an error, and does not change its entries.
proof fn lemma_kind_of_step(v: SortingView, o: Outcome<Seq<char>>)
    requires
        v.wf(),
        !(v.stage is List),
        v.stage != SortStage::Over,
        answers(v, o),
    ensures
        v.step(o).entries == v.entries,
        v.step(o).stage == SortStage::Over ==> v.step(o).verdict is Failed,
        !(v.step(o).stage is List),
{
}

proof fn lemma_begins(scenes: Seq<Scene>, replies: Seq<Reply>, root: PathView)
    requires
        scenes.len() == 1,
        begins(scenes[0], root),
    ensures
        is_under_control(scenes, replies),
{
    let v = scenes[0].view;
    if v.outputs.len() == 0 && v.folders.len() > 0 {
        assert(v.folders.contains(v.folders[0]));
        assert(holds_output(root, v.outputs, v.folders[0]));
    }
}

proof fn lemma_control(scenes: Seq<Scene>, replies: Seq<Reply>, root: PathView)
    requires
        is_arranging(scenes, replies),
        begins(scenes[0], root),
    ensures
        is_under_control(scenes, replies),
    decreases replies.len(),
{
    if replies.len() > 0 {
        let (front, earlier) = (scenes.drop_last(), replies.drop_last());
        assert forall|i: int| 0 <= i < earlier.len() implies comes_next(
            front[i],
            #[trigger] earlier[i],
            front[i + 1],
        ) by {
            assert(comes_next(scenes[i], replies[i], scenes[i + 1]));
        }
        assert(front[0] == scenes[0]);
        lemma_control(front, earlier, root);
        let last = replies.len() - 1;
        assert(comes_next(scenes[last], replies[last], scenes[last + 1]));
        assert(front.last() == scenes[last]);
        match scenes[last].view.stage {
            ArrangeStage::Check { at } => lemma_check_next(scenes, replies, at),
            ArrangeStage::Folder { at } => lemma_control_folder(scenes, replies, root, at),
            ArrangeStage::Over => {},
        }
    } else {
        lemma_begins(scenes, replies, root);
    }
}

proof fn lemma_check_next(scenes: Seq<Scene>, replies: Seq<Reply>, at: usize)
    requires
        replies.len() > 0,
        scenes.len() == replies.len() + 1,
        comes_next(scenes[replies.len() - 1], replies.last(), scenes.last()),
        scenes[replies.len() - 1].view.stage == (ArrangeStage::Check { at }),
        is_under_control(scenes.drop_last(), replies.drop_last()),
    ensures
        is_under_control(scenes, replies),
{
    let v = scenes[replies.len() - 1].view;
    let w = scenes.last().view;
    assert(scenes.drop_last().last() == scenes[replies.len() - 1]);
    assert(scenes.drop_last()[0] == scenes[0]);
    let o = replies.last()->outcome;
    assert(w == v.after_check(at, o));
    if v.error is None && w.stage is Folder {
        assert(w.sorting == SortingView::start(w.folders[0], w.prefix, w.separator));
        assert(is_on_track(scenes, replies, 0));
    }
    assert(w.wf());
}

proof fn lemma_control_folder(scenes: Seq<Scene>, replies: Seq<Reply>, root: PathView, at: usize)
    requires
        replies.len() > 0,
        scenes.len() == replies.len() + 1,
        begins(scenes[0], root),
        comes_next(scenes[replies.len() - 1], replies.last(), scenes.last()),
        scenes[replies.len() - 1].view.stage == (ArrangeStage::Folder { at }),
        is_under_control(scenes.drop_last(), replies.drop_last()),
        scenes[replies.len() - 1].view.error is None,
    ensures
        is_under_control(scenes, replies),
{
    let (front, earlier) = (scenes.drop_last(), replies.drop_last());
    let a = scenes[replies.len() - 1];
    let b = scenes.last();
    let (v, w) = (a.view, b.view);
    assert(front.last() == a && front[0] == scenes[0]);
    lemma_folder_next(scenes, replies, at);
    let sorting = match replies.last() {
        Reply::Answer { outcome } => v.sorting.step(outcome),
        Reply::Listing { entries } => v.sorting.listed(entries),
    };
    assert(w == v.with_sorting(at, sorting));
    assert(w.folders == v.folders && w.outputs == v.outputs);
    assert forall|i: int| 0 <= i < at implies #[trigger] is_done(scenes, replies, i) by {
        assert(is_done(front, earlier, i));
        lemma_distinct(v.folders, root, v.outputs, i, at as int);
        assert(b.rooms[v.folders[i]] == a.rooms[v.folders[i]]);
        lemma_still_done(scenes, replies, i);
    }
    if sorting.stage != SortStage::Over {
        assert(w == (ArrangementView { sorting, ..v }));
        assert forall|g: PathView|
            (forall|i: int| 0 <= i < at ==> g != #[trigger] w.folders[i]) && g
                != w.folders[at as int] implies #[trigger] b.rooms[g] == scenes[0].rooms[g] by {
            assert(a.rooms[g] == scenes[0].rooms[g]);
        }
    } else if !(sorting.verdict is Failed) && !(sorting.verdict is Pending) {
        let n = at + 1;
        assert forall|i: int| 0 <= i < n implies #[trigger] is_done(scenes, replies, i) by {}
        assert forall|g: PathView|
            (forall|i: int| 0 <= i < n ==> g != #[trigger] w.folders[i]) implies #[trigger] b.rooms[g]
            == scenes[0].rooms[g] by {
            assert(g != w.folders[at as int]);
            assert forall|i: int| 0 <= i < at implies g != #[trigger] v.folders[i] by {
                assert(g != w.folders[i]);
            }
            assert(a.rooms[g] == scenes[0].rooms[g]);
        }
        if n < w.folders.len() {
            let next = w.folders[n];
            assert(w.stage == (ArrangeStage::Folder { at: n as usize }));
            assert(w.sorting == SortingView::start(next, w.prefix, w.separator));
            assert forall|i: int| 0 <= i < n implies next != #[trigger] w.folders[i] by {
                lemma_distinct(v.folders, root, v.outputs, i, n);
            }
            assert(b.rooms[next] == scenes[0].rooms[next]);
            assert(is_on_track(scenes, replies, n));
        }
    }
}

/// An arranging that ended without an error has put the whole output into order and lost nothing:
/// every folder that holds an output was found to be listed in playback order after it was
/// arranged, or had fewer than two entries; in each of them stands what stood there before, also
/// what is no output; and no other folder was touched.
pub proof fn an_arranged_output_is_in_order(
    scenes: Seq<Scene>,
    replies: Seq<Reply>,
    root: PathView,
)
    requires
        is_arranging(scenes, replies),
        begins(scenes[0], root),
        scenes.last().view.stage == ArrangeStage::Over,
        scenes.last().view.error is None,
    ensures
        ({
            let (first, last) = (scenes[0], scenes.last());
            &&& forall|folder: PathView| #[trigger]
                holds_output(root, first.view.outputs, folder) ==> exists|i: int|
                    0 <= i < first.view.folders.len() && #[trigger] first.view.folders[i] == folder
                        && (was_in_order(scenes, replies, i) || had_too_few(scenes, replies, i))
            &&& forall|g: PathView| is_unchanged(first.rooms[g], #[trigger] last.rooms[g])
            &&& forall|g: PathView|
                !holds_output(root, first.view.outputs, g) ==> #[trigger] last.rooms[g]
                    == first.rooms[g]
        }),
{
    lemma_control(scenes, replies, root);
    let (first, last) = (scenes[0], scenes.last());
    let folders = first.view.folders;
    assert forall|folder: PathView| #[trigger]
        holds_output(root, first.view.outputs, folder) implies exists|i: int|
        0 <= i < folders.len() && #[trigger] folders[i] == folder && (was_in_order(
            scenes,
            replies,
            i,
        ) || had_too_few(scenes, replies, i)) by {
        assert(folders.contains(folder));
        let i = choose|i: int| 0 <= i < folders.len() && folders[i] == folder;
        assert(is_done(scenes, replies, i));
    }
    assert forall|g: PathView| is_unchanged(first.rooms[g], #[trigger] last.rooms[g]) by {
        if folders.contains(g) {
            let i = choose|i: int| 0 <= i < folders.len() && folders[i] == g;
            assert(is_done(scenes, replies, i));
        } else {
            assert(last.rooms[g] == first.rooms[g]);
        }
    }
    assert forall|g: PathView|
        !holds_output(root, first.view.outputs, g) implies #[trigger] last.rooms[g]
        == first.rooms[g] by {
        assert(!folders.contains(g));
    }
}

/// A folder is listed first as it stood at the beginning.
proof fn lemma_first_listing(
    scenes: Seq<Scene>,
    replies: Seq<Reply>,
    root: PathView,
    t: int,
    i: int,
    entries: Seq<Listed>,
)
    requires
        is_arranging(scenes, replies),
        begins(scenes[0], root),
        0 <= i < scenes[0].view.folders.len() <= usize::MAX,
        was_listed(scenes, replies, t, i, SortStage::List, entries),
    ensures
        is_listing(entries, scenes[0].view.folders[i], scenes[0]),
{
    let (front, earlier) = (scenes.take(t + 1), replies.take(t));
    assert forall|k: int| 0 <= k < earlier.len() implies comes_next(
        front[k],
        #[trigger] earlier[k],
        front[k + 1],
    ) by {
        assert(comes_next(scenes[k], replies[k], scenes[k + 1]));
    }
    assert(front[0] == scenes[0] && front.last() == scenes[t]);
    lemma_control(front, earlier, root);
    lemma_attributes(front, earlier);
    assert(comes_next(scenes[t], replies[t], scenes[t + 1]));
    assert(is_on_track(front, earlier, i));
}

proof fn lemma_attributes(scenes: Seq<Scene>, replies: Seq<Reply>)
    requires
        is_arranging(scenes, replies),
    ensures
        scenes.last().attributes == scenes[0].attributes,
    decreases replies.len(),
{
    if replies.len() > 0 {
        let (front, earlier) = (scenes.drop_last(), replies.drop_last());
        assert forall|k: int| 0 <= k < earlier.len() implies comes_next(
            front[k],
            #[trigger] earlier[k],
            front[k + 1],
        ) by {
            assert(comes_next(scenes[k], replies[k], scenes[k + 1]));
        }
        lemma_attributes(front, earlier);
        let last = replies.len() - 1;
        assert(comes_next(scenes[last], replies[last], scenes[last + 1]));
    }
}

/// The last listing of a folder shows its visible entries, in this order.
pub open spec fn shows_last(
    scenes: Seq<Scene>,
    replies: Seq<Reply>,
    i: int,
    names: Seq<Seq<char>>,
) -> bool {
    ||| exists|t: int, entries: Seq<Listed>| #[trigger]
        was_listed(scenes, replies, t, i, SortStage::List, entries) && visible_names(entries)
            == names && names.len() < 2
    ||| exists|t: int, u: int, first: Seq<Listed>, second: Seq<Listed>|
        t < u && #[trigger] was_listed(scenes, replies, t, i, SortStage::List, first)
            && #[trigger] was_listed(scenes, replies, u, i, SortStage::Verify, second) 
            && shows_order(first, second) && visible_names(second) == names
}

/// The order of entries depends on the entries alone, not on how they were listed.
proof fn lemma_one_order(x: Seq<Seq<char>>, y: Seq<Seq<char>>)
    requires
        x.to_multiset() == y.to_multiset(),
    ensures
        arranged(x) == arranged(y),
        x.len() < 2 ==> arranged(x) == x,
{
    entries_are_totally_ordered();
    arranging_keeps_every_entry(x);
    arranging_keeps_every_entry(y);
    lemma_sorted_unique(arranged(x), arranged(y), in_order());
    if x.len() < 2 {
        assert(sorted_by(x, in_order()));
        lemma_sorted_unique(arranged(x), x, in_order());
    }
}

/// The last listing of a folder that is done is in the order of any listing of the same entries.
proof fn lemma_shows_last(
    scenes: Seq<Scene>,
    replies: Seq<Reply>,
    root: PathView,
    i: int,
) -> (names: Seq<Seq<char>>)
    requires
        is_arranging(scenes, replies),
        begins(scenes[0], root),
        0 <= i < scenes[0].view.folders.len() <= usize::MAX,
        was_in_order(scenes, replies, i) || had_too_few(scenes, replies, i),
    ensures
        shows_last(scenes, replies, i, names),
        exists|first: Seq<Listed>| #[trigger]
            is_listing(first, scenes[0].view.folders[i], scenes[0]) && names == arranged(
                visible_names(first),
            ),
{
    if had_too_few(scenes, replies, i) {
        let (t, entries) = choose|t: int, entries: Seq<Listed>| #[trigger]
            was_listed(scenes, replies, t, i, SortStage::List, entries) && visible_names(
                entries,
            ).len() < 2;
        lemma_first_listing(scenes, replies, root, t, i, entries);
        lemma_one_order(visible_names(entries), visible_names(entries));
        visible_names(entries)
    } else {
        let (t, u, first, second) = choose|
            t: int,
            u: int,
            first: Seq<Listed>,
            second: Seq<Listed>,
        |
            t < u && #[trigger] was_listed(scenes, replies, t, i, SortStage::List, first)
                && #[trigger] was_listed(scenes, replies, u, i, SortStage::Verify, second)
                && shows_order(first, second);
        lemma_first_listing(scenes, replies, root, t, i, first);
        arranged(visible_names(first))
    }
}

/// Arranging again changes nothing: where two arrangings of the same outputs end without an error,
/// and the second begins with what the first has left, every folder stands as it did, and the last
/// listings of it show its visible entries in one and the same order.
pub proof fn arranging_again_changes_nothing(
    scenes: Seq<Scene>,
    replies: Seq<Reply>,
    later: Seq<Scene>,
    answers: Seq<Reply>,
    root: PathView,
)
    requires
        is_arranging(scenes, replies),
        begins(scenes[0], root),
        scenes.last().view.stage == ArrangeStage::Over,
        scenes.last().view.error is None,
        is_arranging(later, answers),
        begins(later[0], root),
        later.last().view.stage == ArrangeStage::Over,
        later.last().view.error is None,
        later[0].view.outputs == scenes[0].view.outputs,
        later[0].view.folders.len() <= usize::MAX,
        scenes[0].view.folders.len() <= usize::MAX,
        later[0].attributes == scenes[0].attributes,
        forall|g: PathView| is_unchanged(scenes.last().rooms[g], #[trigger] later[0].rooms[g]),
    ensures
        forall|g: PathView| is_unchanged(scenes.last().rooms[g], #[trigger] later.last().rooms[g]),
        forall|folder: PathView| #[trigger]
            holds_output(root, scenes[0].view.outputs, folder) ==> exists|
                i: int,
                j: int,
                names: Seq<Seq<char>>,
            |
                0 <= i < scenes[0].view.folders.len() && 0 <= j < later[0].view.folders.len()
                    && scenes[0].view.folders[i] == folder && later[0].view.folders[j] == folder
                    && #[trigger] shows_last(scenes, replies, i, names) && #[trigger] shows_last(
                    later,
                    answers,
                    j,
                    names,
                ),
{
    an_arranged_output_is_in_order(scenes, replies, root);
    an_arranged_output_is_in_order(later, answers, root);
    assert forall|g: PathView| is_unchanged(
        scenes.last().rooms[g],
        #[trigger] later.last().rooms[g],
    ) by {
        assert(is_unchanged(scenes.last().rooms[g], later[0].rooms[g]));
        assert(is_unchanged(later[0].rooms[g], later.last().rooms[g]));
    }
    assert forall|folder: PathView| #[trigger]
        holds_output(root, scenes[0].view.outputs, folder) implies exists|
        i: int,
        j: int,
        names: Seq<Seq<char>>,
    |
        0 <= i < scenes[0].view.folders.len() && 0 <= j < later[0].view.folders.len()
            && scenes[0].view.folders[i] == folder && later[0].view.folders[j] == folder
            && #[trigger] shows_last(scenes, replies, i, names) && #[trigger] shows_last(
            later,
            answers,
            j,
            names,
        ) by {
        let i = choose|i: int|
            0 <= i < scenes[0].view.folders.len() && #[trigger] scenes[0].view.folders[i] == folder
                && (was_in_order(scenes, replies, i) || had_too_few(scenes, replies, i));
        let j = choose|j: int|
            0 <= j < later[0].view.folders.len() && #[trigger] later[0].view.folders[j] == folder
                && (was_in_order(later, answers, j) || had_too_few(later, answers, j));
        let names = lemma_shows_last(scenes, replies, root, i);
        let more = lemma_shows_last(later, answers, root, j);
        let x = choose|x: Seq<Listed>| #[trigger]
            is_listing(x, folder, scenes[0]) && names == arranged(visible_names(x));
        let y = choose|y: Seq<Listed>| #[trigger]
            is_listing(y, folder, later[0]) && more == arranged(visible_names(y));
        assert(is_unchanged(scenes[0].rooms[folder], scenes.last().rooms[folder]));
        assert(is_unchanged(scenes.last().rooms[folder], later[0].rooms[folder]));
        lemma_same_entries(x, y, folder, scenes[0], later[0]);
        lemma_one_order(visible_names(x), visible_names(y));
        assert(shows_last(later, answers, j, names));
    }
}

/// The places that an action is about.
pub open spec fn stays_within(action: Action<PathView, Seq<char>>, root: PathView) -> bool {
    match action {
        Action::Continue => true,
        Action::Convert { source, staged, .. } => source.within(root) && staged.within(root),
        Action::Probe(p)
        | Action::Inspect(p)
        | Action::CreateFolder(p)
        | Action::RemoveFile(p)
        | Action::RemoveFolder(p)
        | Action::List(p) => p.within(root),
        Action::CreateUnique { parent, .. } => parent.within(root),
        Action::Rename { from, to } => from.within(root) && to.within(root),
        Action::AppendLine { file, .. } => file.within(root),
    }
}

/// An arranging is about the output folder alone.
pub open spec fn is_confined(v: ArrangementView, root: PathView) -> bool {
    &&& forall|i: int| 0 <= i < v.outputs.len() ==> (#[trigger] v.outputs[i]).within(root)
    &&& forall|i: int| 0 <= i < v.folders.len() ==> (#[trigger] v.folders[i]).within(root)
    &&& v.stage is Folder ==> v.sorting.folder.within(root) && v.sorting.holder.within(root)
}

proof fn lemma_child_within(p: PathView, name: Seq<char>, root: PathView)
    requires
        p.within(root),
    ensures
        p.child(name).within(root),
{
    let n = root.parts.len() as int;
    assert(p.child(name).parts.take(n) =~= p.parts.take(n));
}

proof fn lemma_stays_confined(v: ArrangementView, o: Outcome<Seq<char>>, root: PathView)
    requires
        v.wf(),
        is_confined(v, root),
        v.outputs.len() <= usize::MAX,
        v.folders.len() <= usize::MAX,
    ensures
        stays_within(v.action(), root),
        is_confined(v.step(o), root),
        forall|entries: Seq<Listed>| is_confined(#[trigger] v.listed(entries), root),
{
    let s = v.sorting;
    match v.stage {
        ArrangeStage::Folder { at } => {
            match s.stage {
                SortStage::MoveOut { at }
                | SortStage::ProbeBack { at }
                | SortStage::MoveBack { at }
                | SortStage::UndoProbe { at }
                | SortStage::UndoMove { at }
                | SortStage::Undo { at } => {
                    lemma_child_within(s.folder, s.entries[at as int], root);
                    lemma_child_within(s.holder, s.entries[at as int], root);
                },
                SortStage::Create => {
                    if let Outcome::Created(name) = o {
                        lemma_child_within(s.folder, name, root);
                    }
                },
                _ => {},
            }
            let t = s.step(o);
            assert(t.folder.within(root) && t.holder.within(root));
            lemma_confined(v, at, t, root);
            assert forall|entries: Seq<Listed>| is_confined(#[trigger] v.listed(entries), root) by {
                let u = s.listed(entries);
                assert(u.folder.within(root) && u.holder.within(root));
                lemma_confined(v, at, u, root);
            }
        },
        ArrangeStage::Check { at } => {
            let w = v.after_check(at, o);
            assert(is_confined(w, root));
        },
        _ => {},
    }
}

proof fn lemma_confined(v: ArrangementView, at: usize, sorting: SortingView, root: PathView)
    requires
        is_confined(v, root),
        sorting.folder.within(root),
        sorting.holder.within(root),
        v.stage == (ArrangeStage::Folder { at }),
    ensures
        is_confined(v.with_sorting(at, sorting), root),
{
}

/// The folders that are arranged lie in the output folder.
proof fn lemma_folders_within(folders: Seq<PathView>, root: PathView, outputs: Seq<PathView>)
    requires
        is_folder_list(folders, root, outputs),
        forall|i: int|
            0 <= i < outputs.len() ==> (#[trigger] outputs[i]).within(root) && outputs[i] != root,
    ensures
        forall|i: int| 0 <= i < folders.len() ==> (#[trigger] folders[i]).within(root),
{
    assert forall|i: int| 0 <= i < folders.len() implies (#[trigger] folders[i]).within(root) by {
        assert(folders.contains(folders[i]));
        let k = choose|k: int|
            0 <= k < outputs.len() && is_folder_of(root, #[trigger] outputs[k], folders[i]);
        if outputs[k].parts.len() == root.parts.len() {
            assert(outputs[k].parts.take(root.parts.len() as int) =~= outputs[k].parts);
        }
        let n = choose|n: int|
            lowest(root, outputs[k]) <= n < outputs[k].parts.len() && #[trigger] outputs[k].prefix(n)
                == folders[i];
        assert(folders[i].parts.take(root.parts.len() as int) =~= outputs[k].parts.take(
            root.parts.len() as int,
        ));
    }
}

/// An arranging of outputs that lie in the output folder, below it, never asks for anything
/// outside it.
pub proof fn arranging_stays_in_the_output(
    scenes: Seq<Scene>,
    replies: Seq<Reply>,
    root: PathView,
    t: int,
)
    requires
        is_arranging(scenes, replies),
        begins(scenes[0], root),
        forall|i: int|
            0 <= i < scenes[0].view.outputs.len() ==> (
            #[trigger] scenes[0].view.outputs[i]).within(root) && scenes[0].view.outputs[i] != root,
        0 <= t < scenes.len(),
        scenes[0].view.outputs.len() <= usize::MAX,
        scenes[0].view.folders.len() <= usize::MAX,
    ensures
        stays_within(scenes[t].view.action(), root),
        is_confined(scenes[t].view, root),
    decreases t,
{
    let (front, earlier) = (scenes.take(t + 1), replies.take(t));
    assert forall|k: int| 0 <= k < earlier.len() implies comes_next(
        front[k],
        #[trigger] earlier[k],
        front[k + 1],
    ) by {
        assert(comes_next(scenes[k], replies[k], scenes[k + 1]));
    }
    assert(front[0] == scenes[0] && front.last() == scenes[t]);
    lemma_control(front, earlier, root);
    let nothing = Outcome::<Seq<char>>::Done;
    if t == 0 {
        let v = scenes[0].view;
        lemma_folders_within(v.folders, root, v.outputs);
    } else {
        arranging_stays_in_the_output(scenes, replies, root, t - 1);
        assert(comes_next(scenes[t - 1], replies[t - 1], scenes[t - 1 + 1]));
        let before = (scenes.take(t), replies.take(t - 1));
        assert forall|k: int| 0 <= k < before.1.len() implies comes_next(
            before.0[k],
            #[trigger] before.1[k],
            before.0[k + 1],
        ) by {
            assert(comes_next(scenes[k], replies[k], scenes[k + 1]));
        }
        assert(before.0[0] == scenes[0] && before.0.last() == scenes[t - 1]);
        lemma_control(before.0, before.1, root);
        match replies[t - 1] {
            Reply::Answer { outcome } => lemma_stays_confined(scenes[t - 1].view, outcome, root),
            Reply::Listing { .. } => lemma_stays_confined(scenes[t - 1].view, nothing, root),
        }
    }
    lemma_stays_confined(scenes[t].view, nothing, root);
}

/// Once an arranging has ended without an error, every folder from that of a result up to the
/// output folder, both included, was found in order, or had fewer than two entries to put into
/// order.
pub proof fn every_folder_above_a_result_is_in_order(
    scenes: Seq<Scene>,
    replies: Seq<Reply>,
    root: PathView,
    k: int,
    n: int,
)
    requires
        is_arranging(scenes, replies),
        begins(scenes[0], root),
        scenes.last().view.stage == ArrangeStage::Over,
        scenes.last().view.error is None,
        0 <= k < scenes[0].view.outputs.len(),
        root.parts.len() <= n < scenes[0].view.outputs[k].parts.len(),
        n > 0 || scenes[0].view.outputs[k].root.len() > 0,
    ensures
        exists|i: int|
            0 <= i < scenes[0].view.folders.len() && #[trigger] scenes[0].view.folders[i] == (
            PathView {
                root: scenes[0].view.outputs[k].root,
                parts: scenes[0].view.outputs[k].parts.take(n),
            }) && (was_in_order(scenes, replies, i) || had_too_few(scenes, replies, i)),
{
    let v = scenes[0].view;
    let folder = PathView { root: v.outputs[k].root, parts: v.outputs[k].parts.take(n) };
    every_folder_above_an_output_is_arranged(v.folders, root, v.outputs, k, n);
    assert(v.folders.contains(folder));
    an_arranged_output_is_in_order(scenes, replies, root);
    assert(holds_output(root, v.outputs, folder));
}

} // verus!
