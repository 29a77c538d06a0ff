//! Which files a job converts, what the results are called, and in which order they are made.
use crate::convert::{is_audio_extension, is_known_extension};
use crate::naming::{
    folded_order, is_blank, is_tight, lemma_trimmed, name_order, names_are_totally_ordered,
};
use crate::path::{extension, extension_of, FilePath, PathView};
use crate::text::{
    append, ascii_lowered, at_most, chars_of, count_text, decimal, digits_from, drop_spaces, glue,
    is_space, join, joined, skip_spaces, text_of, texts, trimmed, Order,
};
use vstd::prelude::*;
use vstd::seq_lib::group_to_multiset_ensures;

verus! {

// ---------------------------------------------------------------------------
// Music beside the output
// ---------------------------------------------------------------------------

/// An entry of the folder that the user selected.
#[derive(Debug)]
pub struct Neighbour {
    pub name: String,
    pub is_file: bool,
}

/// An entry is a file that a job would try to convert.
pub open spec fn is_music(name: Seq<char>, is_file: bool) -> bool {
    is_file && match extension(name) {
        Some(ext) => is_known_extension(ascii_lowered(ext)),
        None => false,
    }
}

/// The names of the music files of a folder.
pub open spec fn music_names(v: Seq<Neighbour>) -> Seq<Seq<char>>
    decreases v.len(),
{
    if v.len() == 0 {
        Seq::empty()
    } else {
        let front = music_names(v.drop_last());
        if is_music(v.last().name@, v.last().is_file) {
            front.push(v.last().name@)
        } else {
            front
        }
    }
}

/// The warning that music in the selected folder is not put into order with the results.
pub open spec fn outside_warning(
    selected: Seq<char>,
    effective: Seq<char>,
    names: Seq<Seq<char>>,
) -> Seq<char> {
    "선택한 위치 "@ + selected + "에 기존 음원 "@ + decimal(names.len())
        + "개가 있습니다.\n이번 결과는 "@ + effective
        + "에 저장하며, 이 폴더 밖의 기존 음원은 정리 대상에 포함되지 않습니다.\nDAP에서 WAV 폴더를 열어 결과를 확인하세요.\n\n기존 목록: "@
        + joined(names.take(at_most(names.len() as int, 9)), " → "@)
}

/// A warning where results are saved elsewhere than in the selected folder and the selected
/// folder holds music.
pub fn outside_output_warning(
    selected: &FilePath,
    effective: &FilePath,
    entries: &Vec<Neighbour>,
    separator: &str,
) -> (r: Option<String>)
    ensures
        match r {
            Some(text) => {
                &&& selected@ != effective@
                &&& music_names(entries@).len() > 0
                &&& text@ == outside_warning(
                    selected@.shown(separator@),
                    effective@.shown(separator@),
                    music_names(entries@),
                )
            },
            None => selected@ == effective@ || music_names(entries@).len() == 0,
        },
{
    if selected.equals(effective) {
        return None;
    }
    let mut names: Vec<String> = Vec::new();
    let mut i: usize = 0;
    assert(texts(names@) =~= Seq::<Seq<char>>::empty());
    while i < entries.len()
        invariant
            i <= entries@.len(),
            texts(names@) == music_names(entries@.take(i as int)),
        decreases entries@.len() - i,
    {
        let ghost before = names@;
        assert(entries@.take(i + 1).drop_last() =~= entries@.take(i as int));
        assert(entries@.take(i + 1).last() == entries@[i as int]);
        let music = entries[i].is_file && match extension_of(entries[i].name.as_str()) {
            Some(ext) => is_audio_extension(ext.as_str()),
            None => false,
        };
        if music {
            names.push(entries[i].name.clone());
            assert(texts(names@) =~= texts(before).push(entries@[i as int].name@));
        }
        i = i + 1;
    }
    assert(entries@.take(i as int) =~= entries@);
    assert(texts(names@).len() == names@.len());
    if names.len() == 0 {
        return None;
    }
    let shown = if names.len() > 9 {
        9
    } else {
        names.len()
    };
    let mut text = glue("선택한 위치 ", selected.show(separator).as_str());
    append(&mut text, "에 기존 음원 ");
    append(&mut text, count_text(names.len()).as_str());
    append(&mut text, "개가 있습니다.\n이번 결과는 ");
    append(&mut text, effective.show(separator).as_str());
    append(
        &mut text,
        "에 저장하며, 이 폴더 밖의 기존 음원은 정리 대상에 포함되지 않습니다.\nDAP에서 WAV 폴더를 열어 결과를 확인하세요.\n\n기존 목록: ",
    );
    append(&mut text, join(&names, shown, " → ").as_str());
    Some(text)
}

// ---------------------------------------------------------------------------
// Track numbers
// ---------------------------------------------------------------------------

/// The value of a run of digits, where it fits.
pub open spec fn number_of(digits: Seq<char>) -> Option<u32> {
    let n = crate::natural::value(digits);
    if digits.len() > 0 && n <= u32::MAX {
        Some(n as u32)
    } else {
        None
    }
}

/// Where the number of a tag such as `03/28` ends.
pub open spec fn slash_at(text: Seq<char>) -> int {
    if exists|i: int| 0 <= i < text.len() && text[i] == '/' {
        choose|i: int|
            0 <= i < text.len() && text[i] == '/' && forall|j: int| 0 <= j < i ==> text[j] != '/'
    } else {
        text.len() as int
    }
}

/// The track number that a tag gives: what stands before a slash, if these are digits.
pub open spec fn track_of(text: Seq<char>) -> Option<u32> {
    let front = trimmed(text.take(slash_at(text)));
    if crate::text::digit_run(front) == front.len() {
        number_of(front)
    } else {
        None
    }
}

/// The first track number that the tags of a file give.
pub open spec fn first_track(values: Seq<Seq<char>>) -> Option<u32>
    decreases values.len(),
{
    if values.len() == 0 {
        None
    } else {
        match track_of(values[0]) {
            Some(n) => Some(n),
            None => first_track(values.skip(1)),
        }
    }
}

proof fn lemma_slash(text: Seq<char>, i: int)
    requires
        0 <= i <= text.len(),
        forall|j: int| 0 <= j < i ==> text[j] != '/',
        i == text.len() || text[i] == '/',
    ensures
        slash_at(text) == i,
{
    if i < text.len() {
        assert(text[i] == '/');
        let k = choose|k: int|
            0 <= k < text.len() && text[k] == '/' && forall|j: int| 0 <= j < k ==> text[j] != '/';
        assert(exists|k: int|
            0 <= k < text.len() && text[k] == '/' && forall|j: int| 0 <= j < k ==> text[j] != '/');
        if k < i {
            assert(text[k] != '/');
        } else if i < k {
            assert(text[i] != '/');
        }
    }
}

/// The track number that a tag gives.
fn track_in(text: &str) -> (r: Option<u32>)
    ensures
        r == track_of(text@),
{
    let chars = chars_of(text);
    let mut at: usize = 0;
    while at < chars.len() && chars[at] != '/'
        invariant
            at <= chars@.len(),
            forall|j: int| 0 <= j < at ==> chars@[j] != '/',
        decreases chars@.len() - at,
    {
        at = at + 1;
    }
    proof {
        lemma_slash(chars@, at as int);
    }
    let from = skip_spaces(&chars, 0, at);
    let to = drop_spaces(&chars, from, at);
    let front = chars_of(text_of(&chars, from, to).as_str());
    let ghost f = trimmed(text@.take(slash_at(text@)));
    proof {
        assert(chars@.subrange(0, at as int) =~= text@.take(at as int));
        assert(front@ == f);
        assert(front@.skip(0) =~= front@);
    }
    if digits_from(&front, 0) < front.len() || front.len() == 0 {
        return None;
    }
    let mut n: u32 = 0;
    let mut k: usize = 0;
    assert(front@.take(0) =~= Seq::<char>::empty());
    while k < front.len()
        invariant
            k <= front@.len(),
            n == crate::natural::value(front@.take(k as int)),
            front@ == trimmed(text@.take(slash_at(text@))),
            crate::text::digit_run(front@) == front@.len(),
        decreases front@.len() - k,
    {
        proof {
            crate::text::lemma_digit_run(front@);
            assert(front@.take(k + 1).drop_last() =~= front@.take(k as int));
            assert(crate::text::is_digit(front@[k as int]));
        }
        let digit: u32 = (front[k] as u32) - 48;
        if n > (u32::MAX - digit) / 10 {
            proof {
                assert(10 * n + digit > u32::MAX);
                lemma_value_grows(front@, k + 1);
                assert(front@.take(front@.len() as int) =~= front@);
            }
            return None;
        }
        n = n * 10 + digit;
        k = k + 1;
    }
    assert(front@.take(k as int) =~= front@);
    Some(n)
}

/// More digits make no smaller number.
proof fn lemma_value_grows(digits: Seq<char>, n: int)
    requires
        0 <= n <= digits.len(),
    ensures
        crate::natural::value(digits.take(n)) <= crate::natural::value(
            digits.take(digits.len() as int),
        ),
    decreases digits.len() - n,
{
    if n < digits.len() {
        assert(digits.take(n + 1).drop_last() =~= digits.take(n));
        lemma_value_grows(digits, n + 1);
    }
}

/// The first track number that the tags of a file give.
pub fn read_track_number(values: &Vec<String>) -> (r: Option<u32>)
    ensures
        r == first_track(texts(values@)),
{
    let ghost all = texts(values@);
    let mut i: usize = 0;
    assert(all.skip(0) =~= all);
    while i < values.len()
        invariant
            i <= values@.len(),
            all == texts(values@),
            first_track(all) == first_track(all.skip(i as int)),
        decreases values@.len() - i,
    {
        assert(all.skip(i as int)[0] == values@[i as int]@);
        assert(all.skip(i as int).skip(1) =~= all.skip(i + 1));
        if let Some(n) = track_in(values[i].as_str()) {
            return Some(n);
        }
        i = i + 1;
    }
    None
}

// ---------------------------------------------------------------------------
// Plans
// ---------------------------------------------------------------------------

/// A file to convert and the path of its result, both below their folders.
#[derive(Debug)]
pub struct Plan {
    pub file: FilePath,
    pub result: FilePath,
}

#[verifier::ext_equal]
pub struct PlanView {
    pub file: PathView,
    pub result: PathView,
}

impl View for Plan {
    type V = PlanView;

    open spec fn view(&self) -> PlanView {
        PlanView { file: self.file@, result: self.result@ }
    }
}

/// What a list of plans says.
pub open spec fn plans(v: Seq<Plan>) -> Seq<PlanView> {
    Seq::new(v.len(), |i: int| v[i]@)
}

/// The order of two plans: the natural order of the paths of their results.
pub open spec fn plan_order(a: PlanView, b: PlanView, separator: Seq<char>) -> Order {
    folded_order(a.result.shown(separator), b.result.shown(separator))
}

/// A list of plans with one more, behind all that do not stand behind it.
pub open spec fn insert_plan(
    sorted: Seq<PlanView>,
    p: PlanView,
    separator: Seq<char>,
) -> Seq<PlanView>
    decreases sorted.len(),
{
    if sorted.len() == 0 {
        seq![p]
    } else if plan_order(sorted.last(), p, separator) == Order::Greater {
        insert_plan(sorted.drop_last(), p, separator).push(sorted.last())
    } else {
        sorted.push(p)
    }
}

/// Plans in order. Those of the same rank keep the order in which they were found.
pub open spec fn sorted_plans(all: Seq<PlanView>, separator: Seq<char>) -> Seq<PlanView>
    decreases all.len(),
{
    if all.len() == 0 {
        Seq::empty()
    } else {
        insert_plan(sorted_plans(all.drop_last(), separator), all.last(), separator)
    }
}

/// Plans stand in order.
pub open spec fn plans_in_order(sorted: Seq<PlanView>, separator: Seq<char>) -> bool {
    forall|i: int, j: int|
        0 <= i < j < sorted.len() ==> plan_order(
            #[trigger] sorted[i],
            #[trigger] sorted[j],
            separator,
        ) != Order::Greater
}

proof fn lemma_insert_plan(sorted: Seq<PlanView>, p: PlanView, separator: Seq<char>)
    requires
        plans_in_order(sorted, separator),
    ensures
        plans_in_order(insert_plan(sorted, p, separator), separator),
        insert_plan(sorted, p, separator).to_multiset() == sorted.to_multiset().insert(p),
        forall|i: int|
            0 <= i < insert_plan(sorted, p, separator).len() ==> #[trigger] insert_plan(
                sorted,
                p,
                separator,
            )[i] == p || sorted.contains(insert_plan(sorted, p, separator)[i]),
    decreases sorted.len(),
{
    broadcast use group_to_multiset_ensures;

    let r = insert_plan(sorted, p, separator);
    if sorted.len() == 0 {
        assert(r =~= sorted.push(p));
    } else {
        let (front, last) = (sorted.drop_last(), sorted.last());
        assert(sorted =~= front.push(last));
        if plan_order(last, p, separator) == Order::Greater {
            lemma_insert_plan(front, p, separator);
            let inner = insert_plan(front, p, separator);
            assert forall|i: int| 0 <= i < inner.len() implies plan_order(
                #[trigger] inner[i],
                last,
                separator,
            ) != Order::Greater by {
                if inner[i] == p {
                    names_are_totally_ordered(
                        last.result.shown(separator),
                        p.result.shown(separator),
                        p.result.shown(separator),
                    );
                } else {
                    let k = choose|k: int| 0 <= k < front.len() && front[k] == inner[i];
                    assert(plan_order(sorted[k], sorted[sorted.len() - 1], separator)
                        != Order::Greater);
                }
            }
            assert forall|i: int| 0 <= i < r.len() implies #[trigger] r[i] == p || sorted.contains(
                r[i],
            ) by {
                if i < inner.len() {
                    assert(r[i] == inner[i]);
                    if inner[i] != p {
                        let k = choose|k: int| 0 <= k < front.len() && front[k] == inner[i];
                        assert(sorted[k] == r[i]);
                    }
                } else {
                    assert(sorted[sorted.len() - 1] == r[i]);
                }
            }
            assert(r.to_multiset() =~= sorted.to_multiset().insert(p));
        } else {
            assert forall|i: int| 0 <= i < sorted.len() implies plan_order(
                #[trigger] sorted[i],
                p,
                separator,
            ) != Order::Greater by {
                if i < sorted.len() - 1 {
                    assert(plan_order(sorted[i], sorted[sorted.len() - 1], separator)
                        != Order::Greater);
                    lemma_rank_carries(
                        sorted[i].result.shown(separator),
                        last.result.shown(separator),
                        p.result.shown(separator),
                    );
                }
            }
            assert forall|i: int| 0 <= i < r.len() implies #[trigger] r[i] == p || sorted.contains(
                r[i],
            ) by {
                if i < sorted.len() {
                    assert(r[i] == sorted[i]);
                }
            }
        }
    }
}

proof fn lemma_rank_carries(a: Seq<char>, b: Seq<char>, c: Seq<char>)
    requires
        folded_order(a, b) != Order::Greater,
        folded_order(b, c) != Order::Greater,
    ensures
        folded_order(a, c) != Order::Greater,
{
    names_are_totally_ordered(a, b, c);
    names_are_totally_ordered(b, c, a);
    names_are_totally_ordered(a, c, b);
}

/// Every plan is kept, once, and results are made in natural order.
pub proof fn plans_are_kept_and_ordered(all: Seq<PlanView>, separator: Seq<char>)
    ensures
        sorted_plans(all, separator).to_multiset() == all.to_multiset(),
        plans_in_order(sorted_plans(all, separator), separator),
    decreases all.len(),
{
    broadcast use group_to_multiset_ensures;

    if all.len() == 0 {
        assert(sorted_plans(all, separator) =~= all);
    } else {
        plans_are_kept_and_ordered(all.drop_last(), separator);
        lemma_insert_plan(sorted_plans(all.drop_last(), separator), all.last(), separator);
        assert(all =~= all.drop_last().push(all.last()));
    }
}

/// Where a plan is inserted.
proof fn lemma_insert_at(sorted: Seq<PlanView>, p: PlanView, separator: Seq<char>, i: int)
    requires
        0 <= i <= sorted.len(),
        forall|k: int|
            i <= k < sorted.len() ==> plan_order(#[trigger] sorted[k], p, separator)
                == Order::Greater,
        i > 0 ==> plan_order(sorted[i - 1], p, separator) != Order::Greater,
    ensures
        insert_plan(sorted, p, separator) == sorted.insert(i, p),
    decreases sorted.len(),
{
    if sorted.len() == 0 {
        assert(sorted.insert(i, p) =~= seq![p]);
    } else if i < sorted.len() {
        let front = sorted.drop_last();
        lemma_insert_at(front, p, separator, i);
        assert(sorted.insert(i, p) =~= front.insert(i, p).push(sorted.last()));
    } else {
        assert(sorted.insert(i, p) =~= sorted.push(p));
    }
}

/// Puts plans into order.
pub fn sort_plans(all: Vec<Plan>, separator: &str) -> (r: Vec<Plan>)
    ensures
        plans(r@) == sorted_plans(plans(all@), separator@),
{
    let mut rest = all;
    let mut r: Vec<Plan> = Vec::new();
    let ghost whole = plans(all@);
    assert(plans(r@) =~= Seq::<PlanView>::empty());
    assert(whole.skip(0) =~= whole);
    assert(whole.take(0) =~= Seq::<PlanView>::empty());
    let ghost mut n: int = 0;
    while rest.len() > 0
        invariant
            0 <= n <= whole.len(),
            plans(rest@) == whole.skip(n),
            plans(r@) == sorted_plans(whole.take(n), separator@),
        decreases rest@.len(),
    {
        let ghost was = rest@;
        let plan = rest.remove(0);
        proof {
            assert(plans(was).len() == was.len());
            assert(plan@ == plans(was)[0]);
            assert forall|k: int| 0 <= k < rest@.len() implies (#[trigger] rest@[k])@
                == whole.skip(n + 1)[k] by {
                assert(rest@[k]@ == plans(was)[k + 1]);
            }
            assert(plans(rest@) =~= whole.skip(n + 1));
            assert(whole.take(n + 1).drop_last() =~= whole.take(n));
            n = n + 1;
        }
        place_plan(&mut r, plan, separator);
    }
    assert(whole.take(n) =~= whole);
    r
}

fn place_plan(sorted: &mut Vec<Plan>, plan: Plan, separator: &str)
    ensures
        plans(final(sorted)@) == insert_plan(plans(old(sorted)@), plan@, separator@),
{
    let ghost before = plans(sorted@);
    let text = plan.result.show(separator);
    let mut i: usize = sorted.len();
    while i > 0 && name_order(
        sorted[i - 1].result.show(separator).as_str(),
        text.as_str(),
    ) == Order::Greater
        invariant
            i <= sorted@.len(),
            sorted@ == old(sorted)@,
            before == plans(sorted@),
            text@ == plan@.result.shown(separator@),
            forall|k: int|
                i <= k < before.len() ==> plan_order(#[trigger] before[k], plan@, separator@)
                    == Order::Greater,
        decreases i,
    {
        i = i - 1;
    }
    proof {
        lemma_insert_at(before, plan@, separator@, i as int);
    }
    sorted.insert(i, plan);
    assert(plans(sorted@) =~= before.insert(i as int, plan@));
}

// ---------------------------------------------------------------------------
// What tags, neighbours and plans come to
// ---------------------------------------------------------------------------

/// A tag gives the number at its front, with or without whitespace around, and with or without a
/// slash and a total behind it: `03/28` gives three.
pub proof fn tags_give_the_number_at_their_front(
    lead: Seq<char>,
    digits: Seq<char>,
    trail: Seq<char>,
    total: Seq<char>,
)
    requires
        is_blank(lead),
        is_blank(trail),
        digits.len() > 0,
        forall|i: int| 0 <= i < digits.len() ==> '0' <= #[trigger] digits[i] <= '9',
        total.len() > 0 ==> total[0] == '/',
    ensures
        track_of(lead + digits + trail + total) == if crate::natural::value(digits) <= u32::MAX {
            Some(crate::natural::value(digits) as u32)
        } else {
            None
        },
{
    let front = lead + digits + trail;
    let text = front + total;
    let n = front.len() as int;
    assert forall|j: int| 0 <= j < n implies text[j] != '/' by {
        if j < lead.len() {
            assert(text[j] == lead[j]);
            assert(is_space(lead[j]));
        } else if j < lead.len() + digits.len() {
            assert(text[j] == digits[j - lead.len()]);
        } else {
            assert(text[j] == trail[j - lead.len() - digits.len()]);
            assert(is_space(trail[j - lead.len() - digits.len()]));
        }
    }
    if total.len() > 0 {
        assert(text[n] == total[0]);
    }
    lemma_slash(text, n);
    assert(text.take(n) =~= front);
    assert(is_tight(digits)) by {
        assert('0' <= digits[0] <= '9');
        assert('0' <= digits[digits.len() - 1] <= '9');
    }
    lemma_trimmed(lead, digits, trail);
    crate::text::lemma_digit_run_unique(digits, digits.len());
}

/// A tag in which anything but digits stands in front of the slash gives no number.
pub proof fn other_tags_give_none(front: Seq<char>, total: Seq<char>, i: int)
    requires
        forall|j: int| 0 <= j < front.len() ==> #[trigger] front[j] != '/',
        total.len() > 0 ==> total[0] == '/',
        is_tight(front),
        0 <= i < front.len(),
        !('0' <= front[i] <= '9'),
    ensures
        track_of(front + total) is None,
{
    let text = front + total;
    let n = front.len() as int;
    assert forall|j: int| 0 <= j < n implies text[j] != '/' by {
        assert(text[j] == front[j]);
    }
    if total.len() > 0 {
        assert(text[n] == total[0]);
    }
    lemma_slash(text, n);
    assert(text.take(n) =~= front);
    let none = Seq::<char>::empty();
    lemma_trimmed(none, front, none);
    assert(none + front + none =~= front);
    crate::text::lemma_digit_run(front);
}

/// The first tag that gives a number decides, whatever tags stand behind it.
pub proof fn the_first_number_decides(
    before: Seq<Seq<char>>,
    tag: Seq<char>,
    behind: Seq<Seq<char>>,
)
    requires
        forall|i: int| 0 <= i < before.len() ==> track_of(#[trigger] before[i]) is None,
        track_of(tag) is Some,
    ensures
        first_track(before + seq![tag] + behind) == track_of(tag),
        first_track(before) is None,
    decreases before.len(),
{
    let all = before + seq![tag] + behind;
    if before.len() == 0 {
        assert(all[0] == tag);
    } else {
        assert(all[0] == before[0]);
        assert(all.skip(1) =~= before.skip(1) + seq![tag] + behind);
        the_first_number_decides(before.skip(1), tag, behind);
    }
}

/// Every music file beside the output is named, in the order in which the folder lists them, and
/// nothing else is: files by their names, folders never.
pub proof fn every_music_file_is_named(front: Seq<Neighbour>, entry: Neighbour)
    ensures
        music_names(Seq::<Neighbour>::empty()).len() == 0,
        entry.is_file && is_music(entry.name@, true) ==> music_names(front.push(entry))
            == music_names(front).push(entry.name@),
        !entry.is_file || !is_music(entry.name@, true) ==> music_names(front.push(entry))
            == music_names(front),
{
    assert(front.push(entry).drop_last() =~= front);
}

/// The warning tells how many music files there are and names them, up to nine of them.
pub proof fn the_warning_names_the_music(
    selected: Seq<char>,
    effective: Seq<char>,
    names: Seq<Seq<char>>,
)
    ensures
        outside_warning(selected, effective, names) == "선택한 위치 "@ + selected + "에 기존 음원 "@
            + decimal(names.len()) + "개가 있습니다.\n이번 결과는 "@ + effective
            + "에 저장하며, 이 폴더 밖의 기존 음원은 정리 대상에 포함되지 않습니다.\nDAP에서 WAV 폴더를 열어 결과를 확인하세요.\n\n기존 목록: "@
            + joined(
            if names.len() > 9 {
                names.take(9)
            } else {
                names
            },
            " → "@,
        ),
{
    assert(names.take(names.len() as int) =~= names);
}

/// Plans that stand in order already stay as they are: those of the same rank keep their order.
pub proof fn plans_in_order_stay_as_they_are(all: Seq<PlanView>, separator: Seq<char>)
    requires
        forall|i: int, j: int|
            0 <= i < j < all.len() ==> folded_order(
                (#[trigger] all[i]).result.shown(separator),
                (#[trigger] all[j]).result.shown(separator),
            ) != Order::Greater,
    ensures
        sorted_plans(all, separator) == all,
    decreases all.len(),
{
    if all.len() > 0 {
        let front = all.drop_last();
        assert forall|i: int, j: int| 0 <= i < j < front.len() implies folded_order(
            (#[trigger] front[i]).result.shown(separator),
            (#[trigger] front[j]).result.shown(separator),
        ) != Order::Greater by {
            assert(front[i] == all[i] && front[j] == all[j]);
        }
        plans_in_order_stay_as_they_are(front, separator);
        if front.len() > 0 {
            let n = front.len() - 1;
            assert(folded_order(
                all[n].result.shown(separator),
                all[n + 1].result.shown(separator),
            ) != Order::Greater);
            assert(front.last() == all[n]);
        }
        assert(front.push(all.last()) =~= all);
        assert(seq![all.last()] =~= all || front.len() > 0);
    } else {
        assert(sorted_plans(all, separator) =~= all);
    }
}

/// Music is known by its extension, like the files that a job would convert.
pub proof fn music_is_known_by_its_extension(p: PathView, name: Seq<char>)
    requires
        name.len() > 0,
        name != seq!['.'],
        name != seq!['.', '.'],
    ensures
        is_music(name, true) <==> crate::convert::is_audio(p.child(name)),
        !is_music(name, false),
{
}

} // verus!
