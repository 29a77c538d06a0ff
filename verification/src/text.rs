//! Text as sequences of characters: trimming, searching, decimal numbers and order.
use vstd::prelude::*;

verus! {

/// `String::push` appends the given character to the end of the string.
pub assume_specification[ String::push ](s: &mut String, c: char)
    ensures
        final(s)@ == old(s)@.push(c),
;

/// The smaller of two counts.
pub open spec fn at_most(n: int, limit: int) -> int {
    if n <= limit {
        n
    } else {
        limit
    }
}

/// The characters of a string.
pub fn chars_of(s: &str) -> (r: Vec<char>)
    ensures
        r@ == s@,
{
    let mut r: Vec<char> = Vec::new();
    for c in it: s.chars()
        invariant
            r@ == it.seq().take(it.index() as int),
            it.seq() == s@,
    {
        r.push(c);
    }
    assert(s@.take(s@.len() as int) =~= s@);
    r
}

/// The string made of the characters from `from` up to `to`.
pub fn text_of(chars: &Vec<char>, from: usize, to: usize) -> (r: String)
    requires
        from <= to <= chars@.len(),
    ensures
        r@ == chars@.subrange(from as int, to as int),
{
    let mut r = String::new();
    let mut i: usize = from;
    while i < to
        invariant
            from <= i <= to <= chars@.len(),
            r@ == chars@.subrange(from as int, i as int),
        decreases to - i,
    {
        r.push(chars[i]);
        i = i + 1;
        assert(chars@.subrange(from as int, i as int) =~= chars@.subrange(from as int, i - 1).push(
            chars@[i - 1],
        ));
    }
    r
}

/// Appends the whole of another string.
pub fn append(s: &mut String, other: &str)
    ensures
        final(s)@ == old(s)@ + other@,
{
    for c in it: other.chars()
        invariant
            s@ == old(s)@ + it.seq().take(it.index() as int),
            it.seq() == other@,
    {
        s.push(c);
        assert(it.seq().take(it.index() + 1) =~= it.seq().take(it.index() as int).push(c));
    }
    assert(other@.take(other@.len() as int) =~= other@);
}

/// Two texts, one behind the other.
pub fn glue(a: &str, b: &str) -> (r: String)
    ensures
        r@ == a@ + b@,
{
    let mut r = a.to_owned();
    append(&mut r, b);
    r
}

/// Three texts, one behind the other.
pub fn glue3(a: &str, b: &str, c: &str) -> (r: String)
    ensures
        r@ == a@ + b@ + c@,
{
    let mut r = glue(a, b);
    append(&mut r, c);
    r
}

/// Four texts, one behind the other.
pub fn glue4(a: &str, b: &str, c: &str, d: &str) -> (r: String)
    ensures
        r@ == a@ + b@ + c@ + d@,
{
    let mut r = glue3(a, b, c);
    append(&mut r, d);
    r
}

/// Whether two strings hold the same characters.
pub fn same_text(a: &str, b: &str) -> (r: bool)
    ensures
        r == (a@ == b@),
{
    same_chars(&chars_of(a), &chars_of(b))
}

/// Whether two runs of characters are the same.
pub fn same_chars(a: &Vec<char>, b: &Vec<char>) -> (r: bool)
    ensures
        r == (a@ == b@),
{
    if a.len() != b.len() {
        return false;
    }
    let mut i: usize = 0;
    while i < a.len()
        invariant
            i <= a@.len() == b@.len(),
            a@.take(i as int) == b@.take(i as int),
        decreases a@.len() - i,
    {
        if a[i] != b[i] {
            return false;
        }
        i = i + 1;
        assert(a@.take(i as int) =~= a@.take(i - 1).push(a@[i - 1]));
        assert(b@.take(i as int) =~= b@.take(i - 1).push(b@[i - 1]));
    }
    assert(a@.take(i as int) =~= a@);
    assert(b@.take(i as int) =~= b@);
    true
}

// ---------------------------------------------------------------------------
// Prefixes
// ---------------------------------------------------------------------------

/// `s` begins with `prefix`.
pub open spec fn begins_with<A>(s: Seq<A>, prefix: Seq<A>) -> bool {
    prefix.len() <= s.len() && s.take(prefix.len() as int) == prefix
}

/// Whether a string begins with the given prefix.
pub fn starts_with(s: &str, prefix: &str) -> (r: bool)
    ensures
        r == begins_with(s@, prefix@),
{
    let a = chars_of(s);
    let b = chars_of(prefix);
    if a.len() < b.len() {
        return false;
    }
    let mut i: usize = 0;
    while i < b.len()
        invariant
            i <= b@.len() <= a@.len(),
            a@.take(i as int) == b@.take(i as int),
            a@ == s@,
            b@ == prefix@,
        decreases b@.len() - i,
    {
        if a[i] != b[i] {
            proof {
                if begins_with(s@, prefix@) {
                    assert(s@.take(prefix@.len() as int)[i as int] == a@[i as int]);
                }
            }
            return false;
        }
        i = i + 1;
        assert(a@.take(i as int) =~= a@.take(i - 1).push(a@[i - 1]));
        assert(b@.take(i as int) =~= b@.take(i - 1).push(b@[i - 1]));
    }
    assert(b@.take(i as int) =~= b@);
    true
}

// ---------------------------------------------------------------------------
// Decimal numbers
// ---------------------------------------------------------------------------

/// An ASCII decimal digit.
pub open spec fn is_digit(c: char) -> bool {
    '0' <= c <= '9'
}

/// The digit that stands for `n`, where `n` is below ten.
pub open spec fn digit(n: nat) -> char {
    (n + 48) as char
}

/// The number written in decimal, without leading zeros.
pub open spec fn decimal(n: nat) -> Seq<char>
    decreases n,
{
    if n < 10 {
        seq![digit(n)]
    } else {
        decimal(n / 10).push(digit(n % 10))
    }
}

/// The decimal text of a number.
pub fn decimal_text(n: u128) -> (r: String)
    ensures
        r@ == decimal(n as nat),
    decreases n,
{
    let mut r = if n < 10 {
        String::new()
    } else {
        decimal_text(n / 10)
    };
    let d: u8 = (n % 10) as u8;
    r.push((d + 48) as char);
    assert(r@ =~= decimal(n as nat));
    r
}

/// The decimal text of a count.
pub fn count_text(n: usize) -> (r: String)
    ensures
        r@ == decimal(n as nat),
{
    decimal_text(n as u128)
}

/// The length of the run of digits at the front.
pub open spec fn digit_run(s: Seq<char>) -> nat
    decreases s.len(),
{
    if s.len() > 0 && is_digit(s[0]) {
        1 + digit_run(s.skip(1))
    } else {
        0
    }
}

/// Every character up to the end of the run is a digit, and the one behind it is not.
pub proof fn lemma_digit_run(s: Seq<char>)
    ensures
        digit_run(s) <= s.len(),
        forall|i: int| 0 <= i < digit_run(s) ==> is_digit(#[trigger] s[i]),
        digit_run(s) < s.len() ==> !is_digit(s[digit_run(s) as int]),
    decreases s.len(),
{
    if s.len() > 0 && is_digit(s[0]) {
        lemma_digit_run(s.skip(1));
        assert forall|i: int| 0 <= i < digit_run(s) implies is_digit(#[trigger] s[i]) by {
            if i > 0 {
                assert(s[i] == s.skip(1)[i - 1]);
            }
        }
        if digit_run(s) < s.len() {
            assert(s[digit_run(s) as int] == s.skip(1)[digit_run(s) - 1]);
        }
    }
}

/// The run of digits is the only stretch of digits that ends at a character of another kind.
pub proof fn lemma_digit_run_unique(s: Seq<char>, n: nat)
    requires
        n <= s.len(),
        forall|i: int| 0 <= i < n ==> is_digit(#[trigger] s[i]),
        n < s.len() ==> !is_digit(s[n as int]),
    ensures
        digit_run(s) == n,
{
    lemma_digit_run(s);
    let m = digit_run(s);
    if m < n {
        assert(is_digit(s[m as int]));
    } else if n < m {
        assert(is_digit(s[n as int]));
    }
}

/// The length of the run of digits that begins at `from`.
pub fn digits_from(s: &Vec<char>, from: usize) -> (n: usize)
    requires
        from <= s@.len(),
    ensures
        n == digit_run(s@.skip(from as int)),
        from + n <= s@.len(),
{
    let mut i: usize = from;
    while i < s.len() && '0' <= s[i] && s[i] <= '9'
        invariant
            from <= i <= s@.len(),
            forall|k: int| from <= k < i ==> is_digit(#[trigger] s@[k]),
        decreases s@.len() - i,
    {
        i = i + 1;
    }
    proof {
        let t = s@.skip(from as int);
        assert forall|k: int| 0 <= k < i - from implies is_digit(#[trigger] t[k]) by {
            assert(t[k] == s@[from + k]);
        }
        lemma_digit_run_unique(t, (i - from) as nat);
    }
    i - from
}

/// A number's decimal text is a run of digits.
pub proof fn lemma_decimal_digits(n: nat)
    ensures
        decimal(n).len() > 0,
        forall|i: int| 0 <= i < decimal(n).len() ==> is_digit(#[trigger] decimal(n)[i]),
    decreases n,
{
    if n >= 10 {
        lemma_decimal_digits(n / 10);
    }
}

/// Two numbers with the same decimal text are the same.
pub proof fn lemma_decimal_injective(m: nat, n: nat)
    requires
        decimal(m) == decimal(n),
    ensures
        m == n,
    decreases m,
{
    lemma_decimal_digits(m / 10);
    lemma_decimal_digits(n / 10);
    let a = decimal(m);
    let b = decimal(n);
    if m < 10 && n < 10 {
        assert(a[0] == digit(m) && b[0] == digit(n));
    } else if m < 10 {
        assert(b.len() > 1);
    } else if n < 10 {
        assert(a.len() > 1);
    } else {
        assert(a.drop_last() =~= decimal(m / 10));
        assert(b.drop_last() =~= decimal(n / 10));
        lemma_decimal_injective(m / 10, n / 10);
        assert(a.last() == digit(m % 10) && b.last() == digit(n % 10));
    }
}

// ---------------------------------------------------------------------------
// Whitespace
// ---------------------------------------------------------------------------

/// A character with the Unicode `White_Space` property.
pub open spec fn is_space(c: char) -> bool {
    let u = c as int;
    ||| 0x9 <= u <= 0xd
    ||| u == 0x20
    ||| u == 0x85
    ||| u == 0xa0
    ||| u == 0x1680
    ||| 0x2000 <= u <= 0x200a
    ||| u == 0x2028
    ||| u == 0x2029
    ||| u == 0x202f
    ||| u == 0x205f
    ||| u == 0x3000
}

/// Whether a character has the Unicode `White_Space` property.
pub fn is_whitespace(c: char) -> (r: bool)
    ensures
        r == is_space(c),
{
    let u: u32 = c as u32;
    (0x9 <= u && u <= 0xd) || u == 0x20 || u == 0x85 || u == 0xa0 || u == 0x1680 || (0x2000 <= u
        && u <= 0x200a) || u == 0x2028 || u == 0x2029 || u == 0x202f || u == 0x205f || u == 0x3000
}

/// The text without the whitespace at its front.
pub open spec fn trimmed_start(s: Seq<char>) -> Seq<char>
    decreases s.len(),
{
    if s.len() > 0 && is_space(s[0]) {
        trimmed_start(s.skip(1))
    } else {
        s
    }
}

/// The text without the whitespace at its end.
pub open spec fn trimmed_end(s: Seq<char>) -> Seq<char>
    decreases s.len(),
{
    if s.len() > 0 && is_space(s.last()) {
        trimmed_end(s.drop_last())
    } else {
        s
    }
}

/// The text without the whitespace at either end.
pub open spec fn trimmed(s: Seq<char>) -> Seq<char> {
    trimmed_end(trimmed_start(s))
}

/// Where the text from `from` up to `to` begins once the whitespace at its front is gone.
pub fn skip_spaces(s: &Vec<char>, from: usize, to: usize) -> (at: usize)
    requires
        from <= to <= s@.len(),
    ensures
        from <= at <= to,
        s@.subrange(at as int, to as int) == trimmed_start(s@.subrange(from as int, to as int)),
{
    let mut i: usize = from;
    while i < to && is_whitespace(s[i])
        invariant
            from <= i <= to <= s@.len(),
            trimmed_start(s@.subrange(i as int, to as int)) == trimmed_start(
                s@.subrange(from as int, to as int),
            ),
        decreases to - i,
    {
        assert(s@.subrange(i as int, to as int).skip(1) =~= s@.subrange(i + 1, to as int));
        assert(s@.subrange(i as int, to as int)[0] == s@[i as int]);
        i = i + 1;
    }
    if i < to {
        assert(s@.subrange(i as int, to as int)[0] == s@[i as int]);
    }
    i
}

/// Where the text from `from` up to `to` ends once the whitespace at its end is gone.
pub fn drop_spaces(s: &Vec<char>, from: usize, to: usize) -> (at: usize)
    requires
        from <= to <= s@.len(),
    ensures
        from <= at <= to,
        s@.subrange(from as int, at as int) == trimmed_end(s@.subrange(from as int, to as int)),
{
    let mut i: usize = to;
    while from < i && is_whitespace(s[i - 1])
        invariant
            from <= i <= to <= s@.len(),
            trimmed_end(s@.subrange(from as int, i as int)) == trimmed_end(
                s@.subrange(from as int, to as int),
            ),
        decreases i - from,
    {
        assert(s@.subrange(from as int, i as int).drop_last() =~= s@.subrange(from as int, i - 1));
        assert(s@.subrange(from as int, i as int).last() == s@[i - 1]);
        i = i - 1;
    }
    if from < i {
        assert(s@.subrange(from as int, i as int).last() == s@[i - 1]);
    }
    i
}

// ---------------------------------------------------------------------------
// Searching
// ---------------------------------------------------------------------------

/// `pattern` occurs in `s` at `i`.
pub open spec fn occurs_at(s: Seq<char>, pattern: Seq<char>, i: int) -> bool {
    0 <= i && i + pattern.len() <= s.len() && s.subrange(i, i + pattern.len()) == pattern
}

/// Where `pattern` first occurs in `s`.
pub open spec fn first_occurrence(s: Seq<char>, pattern: Seq<char>, i: int) -> bool {
    &&& occurs_at(s, pattern, i)
    &&& forall|j: int| 0 <= j < i ==> !occurs_at(s, pattern, j)
}

/// The text before and behind the first occurrence of `pattern`.
pub open spec fn split_at_first(s: Seq<char>, pattern: Seq<char>) -> Option<(Seq<char>, Seq<char>)> {
    if exists|i: int| occurs_at(s, pattern, i) {
        let i = choose|i: int| first_occurrence(s, pattern, i);
        Some((s.take(i), s.skip(i + pattern.len())))
    } else {
        None
    }
}

/// There is only one first occurrence.
pub proof fn lemma_split_at_first(s: Seq<char>, pattern: Seq<char>, i: int)
    requires
        first_occurrence(s, pattern, i),
    ensures
        split_at_first(s, pattern) == Some((s.take(i), s.skip(i + pattern.len()))),
{
    assert(occurs_at(s, pattern, i));
    let j = choose|j: int| first_occurrence(s, pattern, j);
    assert(first_occurrence(s, pattern, j));
    if j < i {
        assert(!occurs_at(s, pattern, j));
    } else if i < j {
        assert(!occurs_at(s, pattern, i));
    }
}

/// Where the three characters `" - "` first occur between `from` and `to`.
pub fn find_dash(s: &Vec<char>, from: usize, to: usize) -> (r: Option<usize>)
    requires
        from <= to <= s@.len(),
    ensures
        ({
            let t = s@.subrange(from as int, to as int);
            match r {
                Some(at) => {
                    &&& from <= at && at + 3 <= to
                    &&& split_at_first(t, seq![' ', '-', ' ']) == Some(
                        (s@.subrange(from as int, at as int), s@.subrange(at + 3, to as int)),
                    )
                },
                None => split_at_first(t, seq![' ', '-', ' ']) is None,
            }
        }),
{
    let ghost t = s@.subrange(from as int, to as int);
    let ghost dash = seq![' ', '-', ' '];
    let mut i: usize = from;
    while to - i >= 3
        invariant
            from <= i <= to <= s@.len(),
            t == s@.subrange(from as int, to as int),
            dash == seq![' ', '-', ' '],
            forall|j: int| 0 <= j < i - from ==> !occurs_at(t, dash, j),
        decreases to - i,
    {
        assert(t.subrange(i - from, i - from + 3) =~= seq![s@[i as int], s@[i + 1], s@[i + 2]]);
        if s[i] == ' ' && s[i + 1] == '-' && s[i + 2] == ' ' {
            proof {
                assert(occurs_at(t, dash, i - from));
                lemma_split_at_first(t, dash, i - from);
                assert(t.take(i - from) =~= s@.subrange(from as int, i as int));
                assert(t.skip(i - from + 3) =~= s@.subrange(i + 3, to as int));
            }
            return Some(i);
        }
        assert(!occurs_at(t, dash, i - from)) by {
            if occurs_at(t, dash, i - from) {
                assert(seq![s@[i as int], s@[i + 1], s@[i + 2]] == dash);
                assert(dash[0] == s@[i as int] && dash[1] == s@[i + 1] && dash[2] == s@[i + 2]);
            }
        }
        i = i + 1;
    }
    assert(forall|j: int| !occurs_at(t, dash, j));
    None
}

// ---------------------------------------------------------------------------
// Joining
// ---------------------------------------------------------------------------

/// The texts one behind the other, with `separator` between each two.
pub open spec fn joined(texts: Seq<Seq<char>>, separator: Seq<char>) -> Seq<char>
    decreases texts.len(),
{
    if texts.len() == 0 {
        Seq::empty()
    } else if texts.len() == 1 {
        texts[0]
    } else {
        joined(texts.drop_last(), separator) + separator + texts.last()
    }
}

/// What a list of strings says.
pub open spec fn texts(v: Seq<String>) -> Seq<Seq<char>> {
    Seq::new(v.len(), |i: int| v[i]@)
}

/// The first `n` of the strings, with `separator` between each two.
pub fn join(v: &Vec<String>, n: usize, separator: &str) -> (r: String)
    requires
        n <= v@.len(),
    ensures
        r@ == joined(texts(v@).take(n as int), separator@),
{
    let mut r = String::new();
    let mut i: usize = 0;
    while i < n
        invariant
            i <= n <= v@.len(),
            r@ == joined(texts(v@).take(i as int), separator@),
        decreases n - i,
    {
        if i > 0 {
            append(&mut r, separator);
        }
        append(&mut r, v[i].as_str());
        proof {
            let t = texts(v@).take(i + 1);
            assert(t.drop_last() =~= texts(v@).take(i as int));
            assert(t.last() == v@[i as int]@);
            if i == 0 {
                assert(r@ =~= t[0]);
            }
        }
        i = i + 1;
    }
    r
}

/// A copy of a list of strings.
pub fn copy_texts(v: &Vec<String>) -> (r: Vec<String>)
    ensures
        texts(r@) == texts(v@),
{
    let mut r: Vec<String> = Vec::new();
    let mut i: usize = 0;
    while i < v.len()
        invariant
            i <= v@.len(),
            r@.len() == i,
            forall|k: int| 0 <= k < i ==> (#[trigger] r@[k])@ == v@[k]@,
        decreases v@.len() - i,
    {
        r.push(v[i].clone());
        i = i + 1;
    }
    assert(texts(r@) =~= texts(v@));
    r
}

// ---------------------------------------------------------------------------
// Order
// ---------------------------------------------------------------------------

/// How the first of two values stands to the second.
#[derive(Clone, Copy, PartialEq, Eq, Structural, Debug)]
pub enum Order {
    Less,
    Equal,
    Greater,
}

impl Order {
    /// How the second of the two values stands to the first.
    pub open spec fn flip(self) -> Order {
        match self {
            Order::Less => Order::Greater,
            Order::Equal => Order::Equal,
            Order::Greater => Order::Less,
        }
    }
}

/// The order of two numbers.
pub open spec fn number_order(a: int, b: int) -> Order {
    if a < b {
        Order::Less
    } else if a == b {
        Order::Equal
    } else {
        Order::Greater
    }
}

/// The order of two texts by their first differing characters, a text before its extensions.
pub open spec fn lex(a: Seq<char>, b: Seq<char>) -> Order
    decreases a.len(),
{
    if a.len() == 0 || b.len() == 0 {
        number_order(a.len() as int, b.len() as int)
    } else if a[0] != b[0] {
        number_order(a[0] as int, b[0] as int)
    } else {
        lex(a.skip(1), b.skip(1))
    }
}

/// Swapping the texts flips the order.
pub proof fn lemma_lex_flip(a: Seq<char>, b: Seq<char>)
    ensures
        lex(b, a) == lex(a, b).flip(),
    decreases a.len(),
{
    if a.len() > 0 && b.len() > 0 && a[0] == b[0] {
        lemma_lex_flip(a.skip(1), b.skip(1));
    }
}

/// Only equal texts are equal in order.
pub proof fn lemma_lex_equal(a: Seq<char>, b: Seq<char>)
    ensures
        (lex(a, b) == Order::Equal) == (a == b),
    decreases a.len(),
{
    if a.len() > 0 && b.len() > 0 && a[0] == b[0] {
        lemma_lex_equal(a.skip(1), b.skip(1));
        if a.skip(1) == b.skip(1) {
            assert(a =~= seq![a[0]] + a.skip(1));
            assert(b =~= seq![b[0]] + b.skip(1));
        }
    } else if a.len() == 0 && b.len() == 0 {
        assert(a =~= b);
    }
}

/// A text before a second, and that one before a third, stands before the third.
pub proof fn lemma_lex_transitive(a: Seq<char>, b: Seq<char>, c: Seq<char>)
    requires
        lex(a, b) == Order::Less,
        lex(b, c) == Order::Less,
    ensures
        lex(a, c) == Order::Less,
    decreases a.len(),
{
    if a.len() > 0 && b.len() > 0 && c.len() > 0 && a[0] == b[0] && b[0] == c[0] {
        lemma_lex_transitive(a.skip(1), b.skip(1), c.skip(1));
    }
}

/// The order of two texts from the given places on.
pub fn lex_from(a: &Vec<char>, from: usize, to: usize, b: &Vec<char>, start: usize, end: usize) -> (r:
    Order)
    requires
        from <= to <= a@.len(),
        start <= end <= b@.len(),
    ensures
        r == lex(a@.subrange(from as int, to as int), b@.subrange(start as int, end as int)),
{
    let mut i: usize = from;
    let mut j: usize = start;
    while i < to && j < end
        invariant
            from <= i <= to <= a@.len(),
            start <= j <= end <= b@.len(),
            lex(a@.subrange(i as int, to as int), b@.subrange(j as int, end as int)) == lex(
                a@.subrange(from as int, to as int),
                b@.subrange(start as int, end as int),
            ),
        decreases to - i,
    {
        let ghost s = a@.subrange(i as int, to as int);
        let ghost t = b@.subrange(j as int, end as int);
        assert(s[0] == a@[i as int] && t[0] == b@[j as int]);
        if a[i] < b[j] {
            return Order::Less;
        }
        if b[j] < a[i] {
            return Order::Greater;
        }
        assert(s.skip(1) =~= a@.subrange(i + 1, to as int));
        assert(t.skip(1) =~= b@.subrange(j + 1, end as int));
        i = i + 1;
        j = j + 1;
    }
    if i < to {
        Order::Greater
    } else if j < end {
        Order::Less
    } else {
        Order::Equal
    }
}

/// The order of two strings, character by character.
pub fn lex_order(a: &str, b: &str) -> (r: Order)
    ensures
        r == lex(a@, b@),
{
    let x = chars_of(a);
    let y = chars_of(b);
    assert(x@.subrange(0, x@.len() as int) =~= a@);
    assert(y@.subrange(0, y@.len() as int) =~= b@);
    lex_from(&x, 0, x.len(), &y, 0, y.len())
}

// ---------------------------------------------------------------------------
// Case
// ---------------------------------------------------------------------------

/// The lowercase form of a text, as `str::to_lowercase` gives it.
pub uninterp spec fn lowercase(s: Seq<char>) -> Seq<char>;

/// An ASCII letter in lowercase; every other character as it is.
pub open spec fn ascii_lower(c: char) -> char {
    if 'A' <= c <= 'Z' {
        (c as int + 32) as char
    } else {
        c
    }
}

/// A text with its ASCII letters in lowercase.
pub open spec fn ascii_lowered(s: Seq<char>) -> Seq<char> {
    s.map_values(|c: char| ascii_lower(c))
}

/// `low` maps the ASCII characters at the front of `s` letter by letter, and nothing else comes
/// behind them where `s` is ASCII throughout.
pub open spec fn lowers_ascii(s: Seq<char>, low: Seq<char>) -> bool {
    forall|k: int|
        0 <= k <= s.len() && is_ascii_front(s, k) ==> {
            &&& k <= low.len()
            &&& #[trigger] low.take(k) == ascii_lowered(s.take(k))
            &&& k == s.len() ==> low.len() == k
        }
}

/// The first `k` characters are ASCII.
pub open spec fn is_ascii_front(s: Seq<char>, k: int) -> bool {
    forall|i: int| 0 <= i < k ==> (#[trigger] s[i]) as int <= 0x7f
}

/// `str::to_lowercase` gives the lowercase equivalent of a string by the Unicode tables. The
/// result depends on the string alone, and the ASCII characters before the first character of
/// another kind are lowered one for one. Which characters the others turn into is not stated.
#[verifier::external_body]
pub(crate) fn to_lowercase(s: &str) -> (r: String)
    ensures
        r@ == lowercase(s@),
        lowers_ascii(s@, r@),
{
    s.to_lowercase()
}

/// A string with its ASCII letters in lowercase.
pub fn ascii_lowercase(s: &str) -> (r: String)
    ensures
        r@ == ascii_lowered(s@),
{
    let mut r = String::new();
    for c in it: s.chars()
        invariant
            r@ == ascii_lowered(it.seq().take(it.index() as int)),
            it.seq() == s@,
    {
        let lower: char = if 'A' <= c && c <= 'Z' {
            ((c as u8) + 32) as char
        } else {
            c
        };
        r.push(lower);
        assert(r@ =~= ascii_lowered(it.seq().take(it.index() + 1)));
    }
    assert(s@.take(s@.len() as int) =~= s@);
    r
}

/// Whitespace is what Unicode takes for it, and nothing else.
pub proof fn whitespace_is_what_unicode_says(c: char)
    ensures
        is_space(c) <==> c == '\t' || c == '\n' || c == '\u{b}' || c == '\u{c}' || c == '\r' || c
            == ' ' || c == '\u{85}' || c == '\u{a0}' || c == '\u{1680}' || '\u{2000}' <= c
            <= '\u{200a}' || c == '\u{2028}' || c == '\u{2029}' || c == '\u{202f}' || c
            == '\u{205f}' || c == '\u{3000}',
{
}

/// A list is joined text by text: the separator stands between each two, and nowhere else.
pub proof fn lists_are_joined_text_by_text(
    front: Seq<Seq<char>>,
    text: Seq<char>,
    separator: Seq<char>,
)
    ensures
        joined(Seq::<Seq<char>>::empty(), separator).len() == 0,
        joined(seq![text], separator) == text,
        front.len() > 0 ==> joined(front.push(text), separator) == joined(front, separator)
            + separator + text,
{
    assert(front.push(text).drop_last() =~= front);
}

} // verus!
