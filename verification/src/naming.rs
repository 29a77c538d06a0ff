//! Names of the results: WAV paths, warnings about names, and the order of names.
use crate::natural::{
    natural, natural_order, natural_order_tells_texts_apart, numbers_go_by_value,
    the_first_differing_character_decides, value,
};
use crate::path::{
    extension, file_name, lemma_stem, renamed, stem, stem_end, stem_len, FilePath, PathView,
};
pub use crate::plan::read_track_number;
use crate::text::{
    append, ascii_lower, ascii_lowered, at_most, chars_of, count_text, decimal, decimal_text,
    digit_run, digits_from, drop_spaces, find_dash, is_ascii_front, is_digit, is_space,
    is_whitespace, join, joined, lemma_digit_run, lemma_digit_run_unique, lemma_lex_equal,
    lemma_lex_flip, lemma_lex_transitive, lemma_split_at_first, lex, lex_order, lowercase,
    lowers_ascii, same_text, skip_spaces, split_at_first, text_of, texts, to_lowercase, trimmed,
    trimmed_start, Order,
};
use std::cmp::Ordering;
use vstd::prelude::*;
use vstd::utf8::is_ascii_chars;

verus! {

// ---------------------------------------------------------------------------
// Names beyond ASCII
// ---------------------------------------------------------------------------

/// Each name stands before the next, so none occurs twice.
pub open spec fn strictly_sorted(names: Seq<Seq<char>>) -> bool {
    forall|i: int, j: int|
        0 <= i < j < names.len() ==> lex(#[trigger] names[i], #[trigger] names[j]) == Order::Less
}

/// `names` holds exactly the texts among `all` that are not ASCII.
pub open spec fn lists_non_ascii(names: Seq<Seq<char>>, all: Seq<Seq<char>>) -> bool {
    forall|t: Seq<char>| #[trigger]
        names.contains(t) <==> all.contains(t) && !is_ascii_chars(t)
}

/// The warning about the given names: how many there are, and the first ten of them.
pub open spec fn name_warning(names: Seq<Seq<char>>) -> Seq<char> {
    "변환 결과 "@ + decimal(names.len())
        + "개에 영문(ASCII) 범위를 벗어난 문자가 포함되어 있습니다.\nDAP에서 파일이나 폴더를 인식하지 못할 수 있습니다.\n\n"@
        + joined(names.take(at_most(names.len() as int, 10)), "\n"@) + (if names.len() > 10 {
        "\n외 "@ + decimal((names.len() - 10) as nat) + "개 (전체 목록은 로그 참고)"@
    } else {
        Seq::empty()
    }) + "\n\n파일은 정상적으로 저장되었습니다. 파일명·하위 폴더명을 확인해 주세요."@
}

/// Two sorted lists without repetition that hold the same names are the same list, so a warning
/// depends only on which names there are.
pub proof fn sorted_names_are_unique(a: Seq<Seq<char>>, b: Seq<Seq<char>>)
    requires
        strictly_sorted(a),
        strictly_sorted(b),
        forall|t: Seq<char>| #[trigger] a.contains(t) <==> b.contains(t),
    ensures
        a == b,
    decreases a.len(),
{
    if a.len() == 0 {
        if b.len() > 0 {
            assert(b.contains(b[0]));
            assert(!a.contains(b[0]));
        }
        assert(a =~= b);
    } else {
        assert(a.contains(a.last()));
        assert(b.len() > 0);
        assert(b.contains(b.last()));
        assert(a.contains(b.last()));
        let i = choose|i: int| 0 <= i < b.len() && b[i] == a.last();
        let j = choose|j: int| 0 <= j < a.len() && a[j] == b.last();
        lemma_lex_flip(a.last(), b.last());
        lemma_lex_equal(a.last(), b.last());
        assert(a.last() == b.last());
        let (c, d) = (a.drop_last(), b.drop_last());
        assert forall|t: Seq<char>| #[trigger] c.contains(t) <==> d.contains(t) by {
            lemma_front_of_sorted(a, t);
            lemma_front_of_sorted(b, t);
            assert(a.contains(t) <==> b.contains(t));
        }
        sorted_names_are_unique(c, d);
        assert(a =~= c.push(a.last()));
        assert(b =~= d.push(b.last()));
    }
}

proof fn lemma_front_of_sorted(a: Seq<Seq<char>>, t: Seq<char>)
    requires
        strictly_sorted(a),
        a.len() > 0,
    ensures
        a.drop_last().contains(t) <==> a.contains(t) && t != a.last(),
{
    let c = a.drop_last();
    if c.contains(t) {
        let k = choose|k: int| 0 <= k < c.len() && c[k] == t;
        assert(a[k] == t);
        assert(lex(a[k], a[a.len() - 1]) == Order::Less);
        lemma_lex_equal(a[k], a.last());
    }
    if a.contains(t) && t != a.last() {
        let k = choose|k: int| 0 <= k < a.len() && a[k] == t;
        assert(c[k] == t);
    }
}

/// Where a name stands, or would stand, in a sorted list.
fn place_of(names: &Vec<String>, name: &str) -> (r: usize)
    ensures
        r <= names@.len(),
        forall|k: int| 0 <= k < r ==> lex(#[trigger] texts(names@)[k], name@) == Order::Less,
        r < names@.len() ==> lex(texts(names@)[r as int], name@) != Order::Less,
{
    let mut i: usize = 0;
    while i < names.len()
        invariant
            i <= names@.len(),
            forall|k: int| 0 <= k < i ==> lex(#[trigger] texts(names@)[k], name@) == Order::Less,
        decreases names@.len() - i,
    {
        if lex_order(names[i].as_str(), name) != Order::Less {
            return i;
        }
        i = i + 1;
    }
    i
}

/// The texts that are not ASCII, each once, in order.
pub open spec fn non_ascii_names(all: Seq<Seq<char>>) -> Seq<Seq<char>> {
    choose|names: Seq<Seq<char>>| strictly_sorted(names) && lists_non_ascii(names, all)
}

/// The warning about a list of paths, if one is due.
pub open spec fn warning_about(all: Seq<Seq<char>>) -> Option<Seq<char>> {
    if forall|i: int| 0 <= i < all.len() ==> is_ascii_chars(#[trigger] all[i]) {
        None
    } else {
        Some(name_warning(non_ascii_names(all)))
    }
}

/// Puts a name at its place in a sorted list, unless it is there already.
fn add_name(names: &mut Vec<String>, name: &String)
    requires
        strictly_sorted(texts(old(names)@)),
    ensures
        strictly_sorted(texts(final(names)@)),
        forall|t: Seq<char>| #[trigger]
            texts(final(names)@).contains(t) <==> texts(old(names)@).contains(t) || t == name@,
{
    let ghost before = texts(names@);
    let i = place_of(names, name.as_str());
    if i < names.len() && same_text(names[i].as_str(), name.as_str()) {
        assert(before[i as int] == name@);
        return;
    }
    names.insert(i, name.clone());
    proof {
        let after = texts(names@);
        assert(after =~= before.insert(i as int, name@));
        if i < before.len() {
            lemma_lex_equal(before[i as int], name@);
            lemma_lex_flip(before[i as int], name@);
            assert forall|k: int| i <= k < before.len() implies lex(name@, #[trigger] before[k])
                == Order::Less by {
                if k > i {
                    assert(lex(before[i as int], before[k]) == Order::Less);
                    lemma_lex_transitive(name@, before[i as int], before[k]);
                }
            }
        }
        assert forall|t: Seq<char>| #[trigger] after.contains(t) <==> before.contains(t) || t
            == name@ by {
            if after.contains(t) {
                let k = choose|k: int| 0 <= k < after.len() && after[k] == t;
                if k < i {
                    assert(before[k] == t);
                } else if k > i {
                    assert(before[k - 1] == t);
                }
            }
            if before.contains(t) {
                let k = choose|k: int| 0 <= k < before.len() && before[k] == t;
                if k < i {
                    assert(after[k] == t);
                } else {
                    assert(after[k + 1] == t);
                }
            }
            assert(after[i as int] == name@);
        }
    }
}

/// A warning where a path holds characters beyond ASCII, which some players cannot read. It names
/// each such path once, in order, and shows the first ten.
pub fn filename_warning(paths: &[String]) -> (r: Option<String>)
    ensures
        match (r, warning_about(texts(paths@))) {
            (Some(text), Some(warning)) => text@ == warning,
            (None, None) => true,
            _ => false,
        },
        r is Some ==> strictly_sorted(non_ascii_names(texts(paths@))) && lists_non_ascii(
            non_ascii_names(texts(paths@)),
            texts(paths@),
        ),
{
    let mut names: Vec<String> = Vec::new();
    let mut i: usize = 0;
    let ghost all = texts(paths@);
    while i < paths.len()
        invariant
            i <= paths@.len(),
            all == texts(paths@),
            strictly_sorted(texts(names@)),
            forall|t: Seq<char>| #[trigger]
                texts(names@).contains(t) <==> all.take(i as int).contains(t) && !is_ascii_chars(t),
        decreases paths@.len() - i,
    {
        let ghost before = texts(names@);
        let ascii = paths[i].as_str().is_ascii();
        if !ascii {
            add_name(&mut names, &paths[i]);
        }
        proof {
            let (s, t) = (all.take(i as int), all.take(i + 1));
            assert(t =~= s.push(all[i as int]));
            assert(all[i as int] == paths@[i as int]@);
            assert forall|x: Seq<char>| #[trigger]
                texts(names@).contains(x) <==> t.contains(x) && !is_ascii_chars(x) by {
                if s.contains(x) {
                    let k = choose|k: int| 0 <= k < s.len() && s[k] == x;
                    assert(t[k] == x);
                }
                if t.contains(x) && x != all[i as int] {
                    let k = choose|k: int| 0 <= k < t.len() && t[k] == x;
                    assert(s[k] == x);
                }
                assert(t[i as int] == all[i as int]);
                assert(before.contains(x) <==> s.contains(x) && !is_ascii_chars(x));
            }
        }
        i = i + 1;
    }
    assert(all.take(i as int) =~= all);
    if names.len() == 0 {
        assert forall|k: int| 0 <= k < paths@.len() implies is_ascii_chars(#[trigger] all[k]) by {
            assert(all.contains(all[k]));
            assert(!texts(names@).contains(all[k]));
        }
        return None;
    }
    proof {
        let t = texts(names@)[0];
        assert(texts(names@).contains(t));
        let k = choose|k: int| 0 <= k < all.len() && all[k] == t;
        assert(!is_ascii_chars(all[k]));
    }
    let total = names.len();
    let shown = if total > 10 {
        10
    } else {
        total
    };
    let mut message = "변환 결과 ".to_owned();
    append(&mut message, count_text(total).as_str());
    append(
        &mut message,
        "개에 영문(ASCII) 범위를 벗어난 문자가 포함되어 있습니다.\nDAP에서 파일이나 폴더를 인식하지 못할 수 있습니다.\n\n",
    );
    append(&mut message, join(&names, shown, "\n").as_str());
    let mut more = String::new();
    if total > 10 {
        append(&mut more, "\n외 ");
        append(&mut more, count_text(total - 10).as_str());
        append(&mut more, "개 (전체 목록은 로그 참고)");
    }
    append(&mut message, more.as_str());
    append(
        &mut message,
        "\n\n파일은 정상적으로 저장되었습니다. 파일명·하위 폴더명을 확인해 주세요.",
    );
    proof {
        let found = texts(names@);
        let named = non_ascii_names(all);
        assert(strictly_sorted(found) && lists_non_ascii(found, all));
        assert(strictly_sorted(named) && lists_non_ascii(named, all));
        sorted_names_are_unique(found, named);
        assert(message@ =~= name_warning(found));
    }
    Some(message)
}

// ---------------------------------------------------------------------------
// WAV names
// ---------------------------------------------------------------------------

/// What is left of a stem that reads `number artist - title` once the artist is gone: the number
/// and the title. Other stems are not of this form.
pub open spec fn without_artist(stem: Seq<char>) -> Option<Seq<char>> {
    let n = digit_run(stem) as int;
    let behind = stem.skip(n);
    let rest = if behind.len() > 0 && behind[0] == '.' {
        behind.skip(1)
    } else {
        behind
    };
    if n == 0 || rest.len() == 0 || !is_space(rest[0]) {
        None
    } else {
        match split_at_first(trimmed_start(rest), seq![' ', '-', ' ']) {
            None => None,
            Some((artist, title)) => if trimmed(artist).len() == 0 || trimmed(title).len() == 0 {
                None
            } else {
                Some(stem.take(n) + " "@ + trimmed(title))
            },
        }
    }
}

/// The name of the WAV file made from a file of the given name.
pub open spec fn wav_name(name: Seq<char>, remove_artist: bool) -> Seq<char> {
    match without_artist(stem(name)) {
        Some(short) if remove_artist => short + ".wav"@,
        _ => stem(name) + ".wav"@,
    }
}

/// The path of the WAV file made from the file at the given path.
pub open spec fn wav_path_of(p: PathView, remove_artist: bool) -> PathView {
    match file_name(p) {
        Some(name) => renamed(p, wav_name(name, remove_artist)),
        None => p,
    }
}

/// The number and the title of a stem that reads `number artist - title`.
fn strip_artist(chars: &Vec<char>, end: usize) -> (r: Option<String>)
    requires
        end <= chars@.len(),
    ensures
        match (r, without_artist(chars@.take(end as int))) {
            (Some(text), Some(expected)) => text@ == expected,
            (None, None) => true,
            _ => false,
        },
{
    let mut stem: Vec<char> = Vec::new();
    let mut k: usize = 0;
    while k < end
        invariant
            k <= end <= chars@.len(),
            stem@ == chars@.take(k as int),
        decreases end - k,
    {
        stem.push(chars[k]);
        k = k + 1;
        assert(stem@ =~= chars@.take(k as int));
    }
    let n = digits_from(&stem, 0);
    assert(stem@.skip(0) =~= stem@);
    if n == 0 {
        return None;
    }
    let ghost behind = stem@.skip(n as int);
    let at = if n < stem.len() && stem[n] == '.' {
        n + 1
    } else {
        n
    };
    let ghost rest = stem@.skip(at as int);
    proof {
        if n < stem@.len() {
            assert(behind[0] == stem@[n as int]);
            assert(behind.skip(1) =~= stem@.skip(n + 1));
        }
        if at < stem@.len() {
            assert(rest[0] == stem@[at as int]);
        }
    }
    if at >= stem.len() || !is_whitespace(stem[at]) {
        return None;
    }
    assert(rest =~= stem@.subrange(at as int, stem@.len() as int));
    let from = skip_spaces(&stem, at, stem.len());
    match find_dash(&stem, from, stem.len()) {
        None => None,
        Some(dash) => {
            let a = skip_spaces(&stem, from, dash);
            let b = drop_spaces(&stem, a, dash);
            let c = skip_spaces(&stem, dash + 3, stem.len());
            let d = drop_spaces(&stem, c, stem.len());
            assert(stem@.subrange(a as int, b as int).len() == b - a);
            assert(stem@.subrange(c as int, d as int).len() == d - c);
            if a == b || c == d {
                return None;
            }
            let mut short = text_of(&stem, 0, n);
            append(&mut short, " ");
            append(&mut short, text_of(&stem, c, d).as_str());
            assert(stem@.subrange(0, n as int) =~= stem@.take(n as int));
            Some(short)
        },
    }
}

/// The path of the WAV file made from the file at `path`. Only a numbered `artist - title` name
/// loses its artist; other names are preserved. A path without a name is left as it is.
pub fn wav_path(path: &FilePath, remove_artist: bool) -> (r: FilePath)
    ensures
        r@ == wav_path_of(path@, remove_artist),
{
    if !path.has_name() {
        return path.copy();
    }
    let name = chars_of(path.parts[path.parts.len() - 1].as_str());
    assert(path@.parts.last() == name@);
    let n = stem_end(&name);
    if remove_artist {
        if let Some(mut short) = strip_artist(&name, n) {
            append(&mut short, ".wav");
            return path.with_name(short.as_str());
        }
    }
    let mut full = text_of(&name, 0, n);
    assert(name@.subrange(0, n as int) =~= stem(name@));
    append(&mut full, ".wav");
    path.with_name(full.as_str())
}

/// A file's name carries a track number where it begins with a digit.
pub open spec fn is_numbered(p: PathView) -> bool {
    match file_name(p) {
        Some(name) => digit_run(stem(name)) > 0,
        None => false,
    }
}

/// Whether a file's name already begins with a number.
pub fn has_track_prefix(path: &FilePath) -> (r: bool)
    ensures
        r == is_numbered(path@),
{
    if !path.has_name() {
        return false;
    }
    let name = chars_of(path.parts[path.parts.len() - 1].as_str());
    assert(path@.parts.last() == name@);
    let n = stem_end(&name);
    let stem = chars_of(text_of(&name, 0, n).as_str());
    assert(stem@ =~= crate::path::stem(name@));
    assert(stem@.skip(0) =~= stem@);
    digits_from(&stem, 0) > 0
}

/// The WAV path with a track number in front of the name.
pub open spec fn numbered_path_of(p: PathView, remove_artist: bool, track: Option<u32>) -> PathView {
    let plain = wav_path_of(p, remove_artist);
    match (track, file_name(plain)) {
        (Some(n), Some(name)) => renamed(plain, decimal(n as nat) + ". "@ + name),
        _ => plain,
    }
}

/// The path of the WAV file, with the track number in front of its name where one is given.
pub fn numbered_wav_path(path: &FilePath, remove_artist: bool, track: Option<u32>) -> (r: FilePath)
    ensures
        r@ == numbered_path_of(path@, remove_artist, track),
{
    let plain = wav_path(path, remove_artist);
    if !plain.has_name() {
        return plain;
    }
    match track {
        None => plain,
        Some(n) => {
            let mut name = decimal_text(n as u128);
            append(&mut name, ". ");
            append(&mut name, plain.parts[plain.parts.len() - 1].as_str());
            plain.with_name(name.as_str())
        },
    }
}

/// A result stays in its source's folder and is a WAV file by its extension.
pub proof fn results_stay_in_their_folder(p: PathView, remove_artist: bool, track: Option<u32>)
    requires
        file_name(p) is Some,
    ensures
        ({
            let q = numbered_path_of(p, remove_artist, track);
            &&& q.root == p.root
            &&& q.parts.len() == p.parts.len()
            &&& q.parts.drop_last() == p.parts.drop_last()
            &&& extension(q.parts.last()) == Some("wav"@)
        }),
{
    let name = p.parts.last();
    let plain = wav_path_of(p, remove_artist);
    let q = numbered_path_of(p, remove_artist, track);
    assert(plain.parts.drop_last() =~= p.parts.drop_last());
    assert(q.parts.drop_last() =~= p.parts.drop_last());
    reveal_strlit(".wav");
    reveal_strlit("wav");
    reveal_strlit(". ");
    reveal_strlit(" ");
    lemma_stem(name);
    crate::text::lemma_decimal_digits(track.unwrap_or(0) as nat);
    let last = q.parts.last();
    let at = last.len() - 4;
    assert(last.skip(at) =~= ".wav"@);
    assert(last[at] == ".wav"@[0] && last[at + 1] == ".wav"@[1] && last[at + 2] == ".wav"@[2]
        && last[at + 3] == ".wav"@[3]);
    assert(at > 0) by {
        match without_artist(stem(name)) {
            Some(short) if remove_artist => {},
            _ => {
                assert(stem_len(name) > 0);
            },
        }
    }
    assert(crate::path::dot_splits(last, at));
    lemma_stem(last);
    assert(last.skip(at + 1) =~= "wav"@);
}

/// Converting a result again without removing the artist leaves its path as it is.
pub proof fn wav_names_are_kept(p: PathView)
    requires
        file_name(p) is Some,
    ensures
        wav_path_of(wav_path_of(p, false), false) == wav_path_of(p, false),
{
    let q = wav_path_of(p, false);
    let name = p.parts.last();
    let last = q.parts.last();
    results_stay_in_their_folder(p, false, None);
    assert(q == numbered_path_of(p, false, None));
    reveal_strlit(".wav");
    lemma_stem(name);
    lemma_stem(last);
    let at = last.len() - 4;
    assert(last == stem(name) + ".wav"@);
    assert(last[at] == ".wav"@[0] && last[at + 1] == ".wav"@[1] && last[at + 2] == ".wav"@[2]
        && last[at + 3] == ".wav"@[3]);
    assert(crate::path::dot_splits(last, at));
    assert(stem(last) =~= stem(name));
    assert(renamed(q, last) =~= q);
}

// ---------------------------------------------------------------------------
// The order of names
// ---------------------------------------------------------------------------

/// The natural order of two names whatever their case.
pub open spec fn folded_order(a: Seq<char>, b: Seq<char>) -> Order {
    natural(lowercase(a), lowercase(b))
}

/// The natural order of two names whatever their case.
pub fn name_order(a: &str, b: &str) -> (r: Order)
    ensures
        r == folded_order(a@, b@),
        lowers_ascii(a@, lowercase(a@)),
        lowers_ascii(b@, lowercase(b@)),
{
    natural_order(to_lowercase(a).as_str(), to_lowercase(b).as_str())
}

/// How an order is written among the standard types.
pub open spec fn ordering(o: Order) -> Ordering {
    match o {
        Order::Less => Ordering::Less,
        Order::Equal => Ordering::Equal,
        Order::Greater => Ordering::Greater,
    }
}

/// Compares two names by their lowercase forms, with runs of digits by their values, so that
/// `CD 2` stands before `CD 10`.
pub fn natural_cmp(a: &str, b: &str) -> (r: Ordering)
    ensures
        r == ordering(folded_order(a@, b@)),
        lowers_ascii(a@, lowercase(a@)),
        lowers_ascii(b@, lowercase(b@)),
{
    match name_order(a, b) {
        Order::Less => Ordering::Less,
        Order::Equal => Ordering::Equal,
        Order::Greater => Ordering::Greater,
    }
}

/// The lowercase form of a name keeps a number in it where the characters up to behind the number
/// are ASCII.
proof fn lemma_number_kept(front: Seq<char>, m: Seq<char>, p: Seq<char>) -> (rest: Seq<char>)
    requires
        is_ascii_front(front, front.len() as int),
        forall|i: int| 0 <= i < m.len() ==> is_digit(#[trigger] m[i]),
        p.len() > 0 ==> p[0] as int <= 0x7f && !is_digit(p[0]),
        lowers_ascii(front + m + p, lowercase(front + m + p)),
    ensures
        lowercase(front + m + p) == ascii_lowered(front) + m + rest,
        rest.len() > 0 ==> !is_digit(rest[0]),
{
    let name = front + m + p;
    let low = lowercase(name);
    let k = (front.len() + m.len()) as int;
    assert forall|i: int| 0 <= i < k implies (#[trigger] name[i]) as int <= 0x7f by {
        if i < front.len() {
            assert(name[i] == front[i]);
        } else {
            assert(name[i] == m[i - front.len()]);
        }
    }
    assert(is_ascii_front(name, k));
    assert(low.take(k) == ascii_lowered(name.take(k)));
    assert(name.take(k) =~= front + m);
    let rest = low.skip(k);
    assert(low =~= low.take(k) + rest);
    assert(ascii_lowered(front + m) =~= ascii_lowered(front) + m) by {
        assert forall|i: int| 0 <= i < m.len() implies ascii_lower(#[trigger] m[i]) == m[i] by {}
    }
    if p.len() > 0 {
        assert(name[k] == p[0]);
        assert(is_ascii_front(name, k + 1));
        assert(low.take(k + 1) == ascii_lowered(name.take(k + 1)));
        assert(low.take(k + 1)[k] == ascii_lower(p[0]));
        assert(rest[0] == ascii_lower(p[0]));
    } else {
        assert(low.len() == k);
    }
    rest
}

/// In names, too, numbers go by their values: `CD 2` stands before `CD 10`, whatever the case of
/// the letters. What stands in front of the numbers, and the first character behind them, is
/// ASCII, so that the lowercase forms are known; `natural_cmp` tells of any name that they are.
pub proof fn numbers_in_names_go_by_value(
    front: Seq<char>,
    again: Seq<char>,
    m: Seq<char>,
    n: Seq<char>,
    p: Seq<char>,
    q: Seq<char>,
)
    requires
        m.len() > 0,
        n.len() > 0,
        forall|i: int| 0 <= i < m.len() ==> is_digit(#[trigger] m[i]),
        forall|i: int| 0 <= i < n.len() ==> is_digit(#[trigger] n[i]),
        is_ascii_front(front, front.len() as int),
        is_ascii_front(again, again.len() as int),
        ascii_lowered(front) == ascii_lowered(again),
        front.len() > 0 ==> !is_digit(front.last()),
        p.len() > 0 ==> p[0] as int <= 0x7f && !is_digit(p[0]),
        q.len() > 0 ==> q[0] as int <= 0x7f && !is_digit(q[0]),
        value(m) < value(n),
        lowers_ascii(front + m + p, lowercase(front + m + p)),
        lowers_ascii(again + n + q, lowercase(again + n + q)),
    ensures
        folded_order(front + m + p, again + n + q) == Order::Less,
{
    let x = lemma_number_kept(front, m, p);
    let y = lemma_number_kept(again, n, q);
    let low = ascii_lowered(front);
    if front.len() > 0 {
        assert(low.last() == ascii_lower(front.last()));
    }
    numbers_go_by_value(low, m, n, x, y);
}

/// Names are compared as a total order: swapping them flips the result, the order carries over
/// from one name to the next, and only names that differ in case alone count as equal.
pub proof fn names_are_totally_ordered(a: Seq<char>, b: Seq<char>, c: Seq<char>)
    ensures
        folded_order(b, a) == folded_order(a, b).flip(),
        folded_order(a, b) == Order::Equal <==> lowercase(a) == lowercase(b),
        folded_order(a, b) == Order::Less && folded_order(b, c) == Order::Less ==> folded_order(
            a,
            c,
        ) == Order::Less,
{
    let (x, y, z) = (lowercase(a), lowercase(b), lowercase(c));
    crate::natural::natural_order_is_antisymmetric(x, y);
    crate::natural::natural_order_tells_texts_apart(x, y);
    if natural(x, y) == Order::Less && natural(y, z) == Order::Less {
        crate::natural::natural_order_is_transitive(x, y, z);
    }
}

/// Where the lowercase forms of two names first differ in characters of which neither is a digit,
/// the name with the smaller character comes first.
pub proof fn names_go_by_their_first_difference(
    a: Seq<char>,
    b: Seq<char>,
    front: Seq<char>,
    c: char,
    d: char,
    p: Seq<char>,
    q: Seq<char>,
)
    requires
        lowercase(a) == front + seq![c] + p,
        lowercase(b) == front + seq![d] + q,
        !('0' <= c <= '9'),
        !('0' <= d <= '9'),
        c < d,
    ensures
        ordering(folded_order(a, b)) == Ordering::Less,
        ordering(folded_order(b, a)) == Ordering::Greater,
{
    the_first_differing_character_decides(front, c, d, p, q);
}

/// Names whose lowercase forms are the same are equal in order, and only those.
pub proof fn case_does_not_count(a: Seq<char>, b: Seq<char>)
    ensures
        ordering(folded_order(a, b)) == Ordering::Equal <==> lowercase(a) == lowercase(b),
{
    natural_order_tells_texts_apart(lowercase(a), lowercase(b));
}

// ---------------------------------------------------------------------------
// What results are called
// ---------------------------------------------------------------------------

/// A text without a dot.
pub open spec fn is_dotless(s: Seq<char>) -> bool {
    forall|i: int| 0 <= i < s.len() ==> #[trigger] s[i] != '.'
}

/// A text of whitespace alone.
pub open spec fn is_blank(s: Seq<char>) -> bool {
    forall|i: int| 0 <= i < s.len() ==> is_space(#[trigger] s[i])
}

/// A text that is not empty and begins and ends without whitespace.
pub open spec fn is_tight(s: Seq<char>) -> bool {
    s.len() > 0 && !is_space(s[0]) && !is_space(s.last())
}

/// A text in which no dash stands between spaces, nor would with a space behind.
pub open spec fn is_dashless(s: Seq<char>) -> bool {
    forall|i: int|
        0 <= i < s.len() - 1 && #[trigger] s[i] == ' ' && s[i + 1] == '-' ==> i + 2 < s.len()
            && s[i + 2] != ' '
}

/// The stem of a name ends at its last dot.
pub proof fn lemma_stem_of(s: Seq<char>, ext: Seq<char>)
    requires
        s.len() > 0,
        is_dotless(ext),
        s != seq!['.'] || ext.len() > 0,
    ensures
        stem(s + seq!['.'] + ext) == s,
        extension(s + seq!['.'] + ext) == Some(ext),
{
    let name = s + seq!['.'] + ext;
    let at = s.len() as int;
    assert(name[at] == '.');
    assert forall|j: int| at < j < name.len() implies name[j] != '.' by {
        assert(name[j] == ext[j - at - 1]);
    }
    if name == seq!['.', '.'] {
        assert(name.len() == 2);
        assert(s =~= seq!['.']);
    }
    assert(crate::path::dot_splits(name, at));
    lemma_stem(name);
    assert(name.take(at) =~= s);
    assert(name.skip(at + 1) =~= ext);
}

/// A name without a dot behind its first character is its own stem.
pub proof fn lemma_whole_stem(name: Seq<char>)
    requires
        forall|i: int| 0 < i < name.len() ==> #[trigger] name[i] != '.',
    ensures
        stem(name) == name,
        extension(name) is None,
{
    lemma_stem(name);
    if stem_len(name) < name.len() {
        assert(name[stem_len(name)] == '.');
    }
    assert(name.take(name.len() as int) =~= name);
}

/// A result is called as its source, but for the extension: what stands behind the last dot gives
/// way to `wav`, and a name without an extension gets one.
pub proof fn results_are_called_as_their_sources(s: Seq<char>, ext: Seq<char>)
    requires
        s.len() > 0,
        is_dotless(ext),
        s != seq!['.'] || ext.len() > 0,
    ensures
        wav_name(s + seq!['.'] + ext, false) == s + seq!['.', 'w', 'a', 'v'],
        is_dotless(s) ==> wav_name(s, false) == s + seq!['.', 'w', 'a', 'v'],
        is_dotless(s) ==> wav_name(seq!['.'] + s, false) == seq!['.'] + s + seq!['.', 'w', 'a', 'v'],
{
    reveal_strlit(".wav");
    assert(".wav"@ =~= seq!['.', 'w', 'a', 'v']);
    lemma_stem_of(s, ext);
    if is_dotless(s) {
        lemma_whole_stem(s);
        let hidden = seq!['.'] + s;
        assert forall|i: int| 0 < i < hidden.len() implies #[trigger] hidden[i] != '.' by {
            assert(hidden[i] == s[i - 1]);
        }
        lemma_whole_stem(hidden);
    }
}

/// Only the name of a path changes, and a path without a name does not change at all.
pub proof fn only_the_name_changes(p: PathView, remove_artist: bool, track: Option<u32>)
    ensures
        ({
            let q = wav_path_of(p, remove_artist);
            let n = p.parts.len() as int;
            if n > 0 && p.parts[n - 1].len() > 0 && p.parts[n - 1] != seq!['.'] && p.parts[n - 1]
                != seq!['.', '.'] {
                &&& q.root == p.root
                &&& q.parts == p.parts.update(n - 1, wav_name(p.parts[n - 1], remove_artist))
            } else {
                q == p && numbered_path_of(p, remove_artist, track) == p
            }
        }),
{
    if file_name(p) is Some {
        let n = p.parts.len() as int;
        let q = wav_path_of(p, remove_artist);
        assert(q.parts =~= p.parts.update(n - 1, wav_name(p.parts[n - 1], remove_artist)));
    }
}

/// The track number stands in front of the name, with a dot and a space behind it; without one the
/// name is that of the WAV path.
pub proof fn track_numbers_stand_in_front(p: PathView, remove_artist: bool, n: u32)
    requires
        file_name(p) is Some,
    ensures
        ({
            let (plain, q) = (
                wav_path_of(p, remove_artist),
                numbered_path_of(p, remove_artist, Some(n)),
            );
            &&& numbered_path_of(p, remove_artist, None) == plain
            &&& q.root == plain.root
            &&& q.parts == plain.parts.update(
                plain.parts.len() - 1,
                decimal(n as nat) + seq!['.', ' '] + plain.parts[plain.parts.len() - 1],
            )
        }),
{
    results_stay_in_their_folder(p, remove_artist, None);
    let plain = wav_path_of(p, remove_artist);
    assert(plain == numbered_path_of(p, remove_artist, None));
    let last = plain.parts.last();
    assert(is_wav_name(last));
    reveal_strlit(". ");
    assert(". "@ =~= seq!['.', ' ']);
    let q = numbered_path_of(p, remove_artist, Some(n));
    lemma_wav_is_name(last);
    assert(q.parts =~= plain.parts.update(
        plain.parts.len() - 1,
        decimal(n as nat) + seq!['.', ' '] + last,
    ));
}

/// A name with the extension of a WAV file.
spec fn is_wav_name(name: Seq<char>) -> bool {
    extension(name) == Some("wav"@)
}

proof fn lemma_wav_is_name(name: Seq<char>)
    requires
        is_wav_name(name),
    ensures
        crate::path::is_name(name),
{
    reveal_strlit("wav");
    lemma_stem(name);
    assert(extension(name)->0.len() == 3);
}

/// A name is numbered exactly where its first character is a digit.
pub proof fn numbered_names_begin_with_a_digit(p: PathView)
    requires
        file_name(p) is Some,
    ensures
        is_numbered(p) <==> '0' <= p.parts[p.parts.len() - 1][0] <= '9',
{
    let name = p.parts.last();
    lemma_stem(name);
    lemma_digit_run(stem(name));
    assert(stem_len(name) > 0);
    assert(stem(name)[0] == name[0]);
}

/// Whitespace around a text is all that trimming takes away.
pub proof fn lemma_trimmed(w: Seq<char>, s: Seq<char>, x: Seq<char>)
    requires
        is_blank(w),
        is_blank(x),
        is_tight(s),
    ensures
        trimmed(w + s + x) == s,
{
    lemma_trimmed_start(w, s + x);
    assert(w + s + x =~= w + (s + x));
    assert((s + x)[0] == s[0]);
    lemma_trimmed_end(s, x);
}

proof fn lemma_trimmed_start(w: Seq<char>, s: Seq<char>)
    requires
        is_blank(w),
        s.len() > 0 ==> !is_space(s[0]),
    ensures
        trimmed_start(w + s) == s,
    decreases w.len(),
{
    if w.len() > 0 {
        assert((w + s)[0] == w[0]);
        assert((w + s).skip(1) =~= w.skip(1) + s);
        lemma_trimmed_start(w.skip(1), s);
    } else {
        assert(w + s =~= s);
    }
}

proof fn lemma_trimmed_end(s: Seq<char>, x: Seq<char>)
    requires
        is_blank(x),
        s.len() > 0 ==> !is_space(s.last()),
    ensures
        crate::text::trimmed_end(s + x) == s,
    decreases x.len(),
{
    if x.len() > 0 {
        assert((s + x).last() == x.last());
        assert((s + x).drop_last() =~= s + x.drop_last());
        lemma_trimmed_end(s, x.drop_last());
    } else {
        assert(s + x =~= s);
    }
}

/// The parts of a stem that reads `number artist - title`.
pub open spec fn titled_stem(
    digits: Seq<char>,
    dotted: bool,
    gap: Seq<char>,
    artist: Seq<char>,
    title: Seq<char>,
) -> Seq<char> {
    digits + (if dotted {
        seq!['.']
    } else {
        Seq::empty()
    }) + gap + artist + seq![' ', '-', ' '] + title
}

/// Where the first dash between spaces stands.
proof fn lemma_first_dash(artist: Seq<char>, rest: Seq<char>)
    requires
        is_dashless(artist),
        artist.len() > 0 ==> !is_space(artist.last()),
    ensures
        split_at_first(artist + seq![' ', '-', ' '] + rest, seq![' ', '-', ' ']) == Some(
            (artist, rest),
        ),
{
    let dash = seq![' ', '-', ' '];
    let s = artist + dash + rest;
    let n = artist.len() as int;
    assert(s.subrange(n, n + 3) =~= dash);
    assert forall|j: int| 0 <= j < n implies !crate::text::occurs_at(s, dash, j) by {
        if crate::text::occurs_at(s, dash, j) {
            let t = s.subrange(j, j + 3);
            assert(t[0] == s[j] && t[1] == s[j + 1] && t[2] == s[j + 2]);
            assert(s[j] == artist[j]);
            if j + 1 < n {
                assert(s[j + 1] == artist[j + 1]);
                if j + 2 < n {
                    assert(s[j + 2] == artist[j + 2]);
                }
            } else {
                assert(artist.last() == artist[j]);
            }
        }
    }
    assert(crate::text::first_occurrence(s, dash, n));
    lemma_split_at_first(s, dash, n);
    assert(s.take(n) =~= artist);
    assert(s.skip(n + 3) =~= rest);
}

/// What is left of a stem that reads `number artist - title`, with the parts named.
proof fn lemma_titled(
    digits: Seq<char>,
    dotted: bool,
    gap: Seq<char>,
    artist: Seq<char>,
    rest: Seq<char>,
)
    requires
        digits.len() > 0,
        forall|i: int| 0 <= i < digits.len() ==> '0' <= #[trigger] digits[i] <= '9',
        gap.len() > 0,
        is_blank(gap),
        is_tight(artist),
        is_dashless(artist),
    ensures
        ({
            let s = titled_stem(digits, dotted, gap, artist, rest);
            without_artist(s) == if trimmed(rest).len() == 0 {
                None
            } else {
                Some(digits + " "@ + trimmed(rest))
            }
        }),
{
    let s = titled_stem(digits, dotted, gap, artist, rest);
    let n = digits.len() as int;
    let dot = if dotted {
        seq!['.']
    } else {
        Seq::empty()
    };
    let tail = artist + seq![' ', '-', ' '] + rest;
    assert(s =~= digits + (dot + (gap + tail)));
    let behind = dot + (gap + tail);
    assert forall|i: int| 0 <= i < n implies is_digit(#[trigger] s[i]) by {
        assert(s[i] == digits[i]);
    }
    assert(s[n] == behind[0]);
    assert(is_space(gap[0]));
    assert(!is_digit(behind[0])) by {
        if dotted {
            assert(behind[0] == '.');
        } else {
            assert(behind[0] == gap[0]);
        }
    }
    lemma_digit_run_unique(s, n as nat);
    assert(s.skip(n) =~= behind);
    assert(s.take(n) =~= digits);
    if dotted {
        assert(behind.skip(1) =~= gap + tail);
    } else {
        assert(behind =~= gap + tail);
        assert(behind[0] == gap[0]);
    }
    assert((gap + tail)[0] == gap[0]);
    assert(tail[0] == artist[0]);
    lemma_trimmed_start(gap, tail);
    lemma_first_dash(artist, rest);
    let blank = Seq::<char>::empty();
    lemma_trimmed(blank, artist, blank);
    assert(blank + artist + blank =~= artist);
}

/// Where artists are removed, `number artist - title` becomes `number title`: whatever the artist
/// is called, however many words that takes, with a dot behind the number or without, whatever
/// whitespace stands in between, and also where the title has dashes of its own.
pub proof fn artists_are_removed(
    digits: Seq<char>,
    dotted: bool,
    gap: Seq<char>,
    artist: Seq<char>,
    lead: Seq<char>,
    title: Seq<char>,
    trail: Seq<char>,
    ext: Seq<char>,
)
    requires
        digits.len() > 0,
        forall|i: int| 0 <= i < digits.len() ==> '0' <= #[trigger] digits[i] <= '9',
        gap.len() > 0,
        is_blank(gap),
        is_tight(artist),
        is_dashless(artist),
        is_blank(lead),
        is_tight(title),
        is_blank(trail),
        is_dotless(ext),
    ensures
        ({
            let s = titled_stem(digits, dotted, gap, artist, lead + title + trail);
            &&& wav_name(s + seq!['.'] + ext, true) == digits + seq![' '] + title + seq![
                '.',
                'w',
                'a',
                'v',
            ]
            &&& is_dotless(s) ==> wav_name(s, true) == digits + seq![' '] + title + seq![
                '.',
                'w',
                'a',
                'v',
            ]
        }),
{
    let s = titled_stem(digits, dotted, gap, artist, lead + title + trail);
    reveal_strlit(".wav");
    reveal_strlit(" ");
    assert(".wav"@ =~= seq!['.', 'w', 'a', 'v']);
    assert(" "@ =~= seq![' ']);
    lemma_titled(digits, dotted, gap, artist, lead + title + trail);
    lemma_trimmed(lead, title, trail);
    assert(s.len() > 1);
    lemma_stem_of(s, ext);
    if is_dotless(s) {
        lemma_whole_stem(s);
    }
}

/// A name of any other form keeps all it has, also where artists are removed: one that does not
/// begin with a digit, one without whitespace behind its number or behind the dot there, and one
/// without a dash between spaces.
pub proof fn other_names_keep_all_they_have(s: Seq<char>, ext: Seq<char>)
    requires
        s.len() > 0,
        is_dotless(ext),
        s != seq!['.'] || ext.len() > 0,
        ({
            ||| !('0' <= s[0] <= '9')
            ||| exists|k: int|
                0 <= k < s.len() && !('0' <= #[trigger] s[k] <= '9') && s[k] != '.' && !is_space(
                    s[k],
                ) && forall|i: int| 0 <= i < k ==> '0' <= #[trigger] s[i] <= '9'
            ||| exists|k: int|
                0 <= k < s.len() && #[trigger] s[k] == '.' && (k + 1 == s.len() || !is_space(
                    s[k + 1],
                )) && forall|i: int| 0 <= i < k ==> '0' <= #[trigger] s[i] <= '9'
            ||| forall|i: int|
                0 <= i < s.len() - 2 ==> !(#[trigger] s[i] == ' ' && s[i + 1] == '-' && s[i + 2]
                    == ' ')
        }),
    ensures
        wav_name(s + seq!['.'] + ext, true) == s + seq!['.', 'w', 'a', 'v'],
{
    reveal_strlit(".wav");
    assert(".wav"@ =~= seq!['.', 'w', 'a', 'v']);
    lemma_stem_of(s, ext);
    lemma_digit_run(s);
    let n = digit_run(s) as int;
    let behind = s.skip(n);
    let rest = if behind.len() > 0 && behind[0] == '.' {
        behind.skip(1)
    } else {
        behind
    };
    if without_artist(s) is Some {
        assert(n > 0);
        assert(is_digit(s[0]));
        assert(is_space(rest[0]));
        assert(behind[0] == s[n]);
        if exists|k: int|
            0 <= k < s.len() && !('0' <= #[trigger] s[k] <= '9') && s[k] != '.' && !is_space(s[k])
                && forall|i: int| 0 <= i < k ==> '0' <= #[trigger] s[i] <= '9' {
            let k = choose|k: int|
                0 <= k < s.len() && !('0' <= #[trigger] s[k] <= '9') && s[k] != '.' && !is_space(
                    s[k],
                ) && forall|i: int| 0 <= i < k ==> '0' <= #[trigger] s[i] <= '9';
            lemma_digit_run_unique(s, k as nat);
        } else if exists|k: int|
            0 <= k < s.len() && #[trigger] s[k] == '.' && (k + 1 == s.len() || !is_space(
                s[k + 1],
            )) && forall|i: int| 0 <= i < k ==> '0' <= #[trigger] s[i] <= '9' {
            let k = choose|k: int|
                0 <= k < s.len() && #[trigger] s[k] == '.' && (k + 1 == s.len() || !is_space(
                    s[k + 1],
                )) && forall|i: int| 0 <= i < k ==> '0' <= #[trigger] s[i] <= '9';
            lemma_digit_run_unique(s, k as nat);
            if k + 1 < s.len() {
                assert(behind.skip(1)[0] == s[k + 1]);
            }
        } else {
            let dash = seq![' ', '-', ' '];
            let t = trimmed_start(rest);
            let i = choose|i: int| crate::text::occurs_at(t, dash, i);
            let m = lemma_trimmed_start_is_behind(rest);
            let base = (s.len() - t.len()) as int;
            assert(t.subrange(i, i + 3) == dash);
            assert(t.subrange(i, i + 3)[0] == t[i] && t.subrange(i, i + 3)[1] == t[i + 1]
                && t.subrange(i, i + 3)[2] == t[i + 2]);
            assert(t[i] == s[base + i] && t[i + 1] == s[base + i + 1] && t[i + 2] == s[base + i
                + 2]);
        }
    }
}

/// Trimming takes from the front alone.
proof fn lemma_trimmed_start_is_behind(s: Seq<char>) -> (m: int)
    ensures
        0 <= m <= s.len(),
        trimmed_start(s) == s.skip(m),
    decreases s.len(),
{
    if s.len() > 0 && is_space(s[0]) {
        let m = lemma_trimmed_start_is_behind(s.skip(1));
        assert(s.skip(1).skip(m) =~= s.skip(m + 1));
        m + 1
    } else {
        assert(s.skip(0) =~= s);
        0
    }
}

/// A title that is missing or blank leaves the artist where it is.
pub proof fn without_a_title_the_artist_stays(
    digits: Seq<char>,
    dotted: bool,
    gap: Seq<char>,
    artist: Seq<char>,
    blank: Seq<char>,
    ext: Seq<char>,
)
    requires
        digits.len() > 0,
        forall|i: int| 0 <= i < digits.len() ==> '0' <= #[trigger] digits[i] <= '9',
        gap.len() > 0,
        is_blank(gap),
        is_tight(artist),
        is_dashless(artist),
        is_blank(blank),
        is_dotless(ext),
    ensures
        ({
            let s = titled_stem(digits, dotted, gap, artist, blank);
            wav_name(s + seq!['.'] + ext, true) == s + seq!['.', 'w', 'a', 'v']
        }),
{
    let s = titled_stem(digits, dotted, gap, artist, blank);
    reveal_strlit(".wav");
    assert(".wav"@ =~= seq!['.', 'w', 'a', 'v']);
    lemma_titled(digits, dotted, gap, artist, blank);
    assert(blank + Seq::<char>::empty() =~= blank);
    lemma_trimmed_start(blank, Seq::empty());
    assert(s.len() > 1);
    lemma_stem_of(s, ext);
}

/// A warning counts the names that go beyond ASCII, each once, and shows the first ten of them in
/// order. Where there are more, it says how many. Where there is none, there is no warning.
pub proof fn names_beyond_ascii_are_counted(all: Seq<Seq<char>>, names: Seq<Seq<char>>)
    requires
        forall|i: int, j: int|
            0 <= i < j < names.len() ==> lex(#[trigger] names[i], #[trigger] names[j])
                == Order::Less,
        forall|t: Seq<char>| #[trigger]
            names.contains(t) <==> all.contains(t) && exists|k: int|
                0 <= k < t.len() && #[trigger] t[k] as int > 0x7f,
    ensures
        ({
            let count = "변환 결과 "@ + decimal(names.len())
                + "개에 영문(ASCII) 범위를 벗어난 문자가 포함되어 있습니다.\nDAP에서 파일이나 폴더를 인식하지 못할 수 있습니다.\n\n"@;
            let end = "\n\n파일은 정상적으로 저장되었습니다. 파일명·하위 폴더명을 확인해 주세요."@;
            &&& warning_about(all) is None <==> names.len() == 0
            &&& 0 < names.len() <= 10 ==> warning_about(all) == Some(
                count + joined(names, "\n"@) + end,
            )
            &&& names.len() > 10 ==> warning_about(all) == Some(
                count + joined(names.take(10), "\n"@) + "\n외 "@ + decimal(
                    (names.len() - 10) as nat,
                ) + "개 (전체 목록은 로그 참고)"@ + end,
            )
        }),
{
    assert forall|t: Seq<char>| #[trigger] names.contains(t) <==> all.contains(t)
        && !is_ascii_chars(t) by {
        lemma_beyond_ascii(t);
    }
    assert(strictly_sorted(names) && lists_non_ascii(names, all));
    let chosen = non_ascii_names(all);
    assert(strictly_sorted(chosen) && lists_non_ascii(chosen, all));
    assert forall|t: Seq<char>| #[trigger] chosen.contains(t) <==> names.contains(t) by {}
    sorted_names_are_unique(chosen, names);
    if names.len() == 0 {
        assert forall|i: int| 0 <= i < all.len() implies is_ascii_chars(#[trigger] all[i]) by {
            assert(all.contains(all[i]));
            assert(!names.contains(all[i]));
        }
    } else {
        assert(names.contains(names[0]));
        let i = choose|i: int| 0 <= i < all.len() && all[i] == names[0];
        assert(!is_ascii_chars(all[i]));
    }
    assert(names.take(names.len() as int) =~= names);
    let count = "변환 결과 "@ + decimal(names.len())
        + "개에 영문(ASCII) 범위를 벗어난 문자가 포함되어 있습니다.\nDAP에서 파일이나 폴더를 인식하지 못할 수 있습니다.\n\n"@;
    let end = "\n\n파일은 정상적으로 저장되었습니다. 파일명·하위 폴더명을 확인해 주세요."@;
    if names.len() <= 10 {
        assert(count + joined(names, "\n"@) + Seq::<char>::empty() + end =~= count + joined(
            names,
            "\n"@,
        ) + end);
    } else {
        let more = "\n외 "@ + decimal((names.len() - 10) as nat) + "개 (전체 목록은 로그 참고)"@;
        assert(count + joined(names.take(10), "\n"@) + more + end =~= count + joined(
            names.take(10),
            "\n"@,
        ) + "\n외 "@ + decimal((names.len() - 10) as nat) + "개 (전체 목록은 로그 참고)"@ + end);
    }
}

proof fn lemma_lowest(c: char)
    ensures
        '\0' <= c,
{
}

proof fn lemma_beyond_ascii(t: Seq<char>)
    ensures
        !is_ascii_chars(t) <==> exists|k: int| 0 <= k < t.len() && #[trigger] t[k] as int > 0x7f,
{
    if exists|k: int| 0 <= k < t.len() && #[trigger] t[k] as int > 0x7f {
        let k = choose|k: int| 0 <= k < t.len() && #[trigger] t[k] as int > 0x7f;
        assert(!is_ascii_chars(t));
    } else {
        assert forall|k: int| 0 <= k < t.len() implies '\0' <= #[trigger] t[k] <= '\u{7f}' by {
            lemma_lowest(t[k]);
        }
    }
}

} // verus!
