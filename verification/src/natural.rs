//! The order in which people number their folders and tracks: runs of digits go by their value.
use crate::text::{
    chars_of, decimal, digit_run, digits_from, is_digit, lemma_decimal_digits, lemma_digit_run, lemma_digit_run_unique,
    lemma_lex_equal, lemma_lex_flip, lemma_lex_transitive, lex, lex_from, number_order, Order,
};
use vstd::prelude::*;

verus! {

/// What a text is compared by: its numbers by value, every other character by its code.
pub enum Token {
    Number(nat),
    Symbol(int),
}

/// The value of a run of digits.
pub open spec fn value(digits: Seq<char>) -> nat
    decreases digits.len(),
{
    if digits.len() == 0 {
        0
    } else {
        10 * value(digits.drop_last()) + (digits.last() as int - 48) as nat
    }
}

/// The tokens of a text.
pub open spec fn tokens(s: Seq<char>) -> Seq<Token>
    decreases s.len(),
{
    if s.len() == 0 {
        Seq::empty()
    } else if is_digit(s[0]) {
        proof {
            lemma_digit_run(s);
        }
        let n = digit_run(s) as int;
        seq![Token::Number(value(s.take(n)))] + tokens(s.skip(n))
    } else {
        seq![Token::Symbol(s[0] as int)] + tokens(s.skip(1))
    }
}

/// The order of two tokens. A number stands where the digits stand among the characters.
pub open spec fn token_order(x: Token, y: Token) -> Order {
    match (x, y) {
        (Token::Number(a), Token::Number(b)) => number_order(a as int, b as int),
        (Token::Symbol(a), Token::Symbol(b)) => number_order(a, b),
        (Token::Number(_), Token::Symbol(c)) => if c > '9' as int {
            Order::Less
        } else {
            Order::Greater
        },
        (Token::Symbol(c), Token::Number(_)) => if c > '9' as int {
            Order::Greater
        } else {
            Order::Less
        },
    }
}

/// The order of two token sequences by their first differing tokens, a sequence before its
/// extensions.
pub open spec fn tokens_order(a: Seq<Token>, b: Seq<Token>) -> Order
    decreases a.len(),
{
    if a.len() == 0 || b.len() == 0 {
        number_order(a.len() as int, b.len() as int)
    } else if token_order(a[0], b[0]) != Order::Equal {
        token_order(a[0], b[0])
    } else {
        tokens_order(a.skip(1), b.skip(1))
    }
}

/// The natural order of two texts. Texts that differ only in leading zeros go by their characters.
pub open spec fn natural(a: Seq<char>, b: Seq<char>) -> Order {
    match tokens_order(tokens(a), tokens(b)) {
        Order::Equal => lex(a, b),
        other => other,
    }
}

// ---------------------------------------------------------------------------
// The natural order is a total order
// ---------------------------------------------------------------------------

proof fn lemma_tokens_flip(a: Seq<Token>, b: Seq<Token>)
    ensures
        tokens_order(b, a) == tokens_order(a, b).flip(),
    decreases a.len(),
{
    if a.len() > 0 && b.len() > 0 && token_order(a[0], b[0]) == Order::Equal {
        lemma_tokens_flip(a.skip(1), b.skip(1));
    }
}

proof fn lemma_tokens_equal(a: Seq<Token>, b: Seq<Token>)
    ensures
        (tokens_order(a, b) == Order::Equal) == (a == b),
    decreases a.len(),
{
    if a.len() > 0 && b.len() > 0 && token_order(a[0], b[0]) == Order::Equal {
        assert(a[0] == b[0]);
        lemma_tokens_equal(a.skip(1), b.skip(1));
        if a.skip(1) == b.skip(1) {
            assert(a =~= seq![a[0]] + a.skip(1));
            assert(b =~= seq![b[0]] + b.skip(1));
        }
    } else if a.len() == 0 && b.len() == 0 {
        assert(a =~= b);
    }
}

proof fn lemma_tokens_transitive(a: Seq<Token>, b: Seq<Token>, c: Seq<Token>)
    requires
        tokens_order(a, b) == Order::Less,
        tokens_order(b, c) == Order::Less,
    ensures
        tokens_order(a, c) == Order::Less,
    decreases a.len(),
{
    if a.len() > 0 && b.len() > 0 && c.len() > 0 && token_order(a[0], b[0]) == Order::Equal
        && token_order(b[0], c[0]) == Order::Equal {
        lemma_tokens_transitive(a.skip(1), b.skip(1), c.skip(1));
    }
}

/// Swapping two texts flips their natural order.
pub proof fn natural_order_is_antisymmetric(a: Seq<char>, b: Seq<char>)
    ensures
        natural(b, a) == natural(a, b).flip(),
{
    lemma_tokens_flip(tokens(a), tokens(b));
    lemma_lex_flip(a, b);
}

/// Two texts are equal in natural order only where they are the same text.
pub proof fn natural_order_tells_texts_apart(a: Seq<char>, b: Seq<char>)
    ensures
        natural(a, b) == Order::Equal <==> a == b,
{
    lemma_tokens_equal(tokens(a), tokens(b));
    lemma_lex_equal(a, b);
}

/// A text before a second in natural order, and that one before a third, is before the third.
pub proof fn natural_order_is_transitive(a: Seq<char>, b: Seq<char>, c: Seq<char>)
    requires
        natural(a, b) == Order::Less,
        natural(b, c) == Order::Less,
    ensures
        natural(a, c) == Order::Less,
{
    let (x, y, z) = (tokens(a), tokens(b), tokens(c));
    lemma_tokens_equal(x, y);
    lemma_tokens_equal(y, z);
    lemma_tokens_equal(x, z);
    if tokens_order(x, y) == Order::Less && tokens_order(y, z) == Order::Less {
        lemma_tokens_transitive(x, y, z);
    } else if tokens_order(x, y) == Order::Equal && tokens_order(y, z) == Order::Equal {
        lemma_lex_transitive(a, b, c);
    }
}

/// Two numbers behind a common beginning decide how their tokens are ordered.
proof fn lemma_numbers(front: Seq<char>, m: Seq<char>, n: Seq<char>, p: Seq<char>, q: Seq<char>)
    requires
        m.len() > 0,
        n.len() > 0,
        forall|i: int| 0 <= i < m.len() ==> is_digit(#[trigger] m[i]),
        forall|i: int| 0 <= i < n.len() ==> is_digit(#[trigger] n[i]),
        front.len() > 0 ==> !is_digit(front.last()),
        p.len() > 0 ==> !is_digit(p[0]),
        q.len() > 0 ==> !is_digit(q[0]),
        value(m) < value(n),
    ensures
        tokens_order(tokens(front + m + p), tokens(front + n + q)) == Order::Less,
    decreases front.len(),
{
    let (a, b) = (front + m + p, front + n + q);
    if front.len() == 0 {
        assert(a =~= m + p);
        assert(b =~= n + q);
        lemma_digit_run_unique(a, m.len());
        lemma_digit_run_unique(b, n.len());
        assert(a.take(m.len() as int) =~= m);
        assert(b.take(n.len() as int) =~= n);
        assert(a[0] == m[0] && b[0] == n[0]);
        assert(tokens(a)[0] == Token::Number(value(m)));
        assert(tokens(b)[0] == Token::Number(value(n)));
    } else {
        lemma_digit_run(a);
        lemma_digit_run(b);
        let k = digit_run(a) as int;
        let j = digit_run(b) as int;
        let last = front.len() - 1;
        assert(a[last] == front.last() && b[last] == front.last());
        assert(k < front.len());
        assert(j < front.len());
        if k < j {
            assert(b[k] == a[k]);
        } else if j < k {
            assert(a[j] == b[j]);
        }
        let step = if k > 0 { k } else { 1 };
        let rest = front.skip(step);
        assert(a.skip(step) =~= rest + m + p);
        assert(b.skip(step) =~= rest + n + q);
        assert(a.take(k) =~= b.take(k));
        if rest.len() > 0 {
            assert(rest.last() == front.last());
        }
        lemma_numbers(rest, m, n, p, q);
        assert(a[0] == b[0]);
        let (x, y) = (tokens(a), tokens(b));
        assert(x[0] == y[0]);
        assert(x.skip(1) =~= tokens(rest + m + p));
        assert(y.skip(1) =~= tokens(rest + n + q));
    }
}

/// Behind a common beginning without digits at its end, two numbers go by their values, whatever
/// their leading zeros, however many digits they have, and whatever stands behind them.
pub proof fn numbers_go_by_value(
    front: Seq<char>,
    m: Seq<char>,
    n: Seq<char>,
    p: Seq<char>,
    q: Seq<char>,
)
    requires
        m.len() > 0,
        n.len() > 0,
        forall|i: int| 0 <= i < m.len() ==> is_digit(#[trigger] m[i]),
        forall|i: int| 0 <= i < n.len() ==> is_digit(#[trigger] n[i]),
        front.len() > 0 ==> !is_digit(front.last()),
        p.len() > 0 ==> !is_digit(p[0]),
        q.len() > 0 ==> !is_digit(q[0]),
        value(m) < value(n),
    ensures
        natural(front + m + p, front + n + q) == Order::Less,
{
    lemma_numbers(front, m, n, p, q);
}

// ---------------------------------------------------------------------------
// Runs of digits by value
// ---------------------------------------------------------------------------

/// Ten to the power of `n`.
pub open spec fn ten_to(n: nat) -> nat
    decreases n,
{
    if n == 0 {
        1
    } else {
        10 * ten_to((n - 1) as nat)
    }
}

proof fn lemma_value_below(s: Seq<char>)
    requires
        forall|i: int| 0 <= i < s.len() ==> is_digit(#[trigger] s[i]),
    ensures
        value(s) < ten_to(s.len()),
    decreases s.len(),
{
    if s.len() > 0 {
        lemma_value_below(s.drop_last());
        assert(is_digit(s[s.len() - 1]));
    }
}

/// The value of a run is that of its first digit at its place plus that of the rest.
proof fn lemma_value_front(s: Seq<char>)
    requires
        s.len() > 0,
        forall|i: int| 0 <= i < s.len() ==> is_digit(#[trigger] s[i]),
    ensures
        value(s) == (s[0] as int - 48) * ten_to((s.len() - 1) as nat) + value(s.skip(1)),
    decreases s.len(),
{
    if s.len() == 1 {
        assert(s.drop_last() =~= Seq::<char>::empty());
        assert(s.skip(1) =~= Seq::<char>::empty());
        assert(is_digit(s[0]));
        assert(value(s.drop_last()) == 0);
        assert(ten_to(0) == 1);
        assert((s[0] as int - 48) * 1 == s[0] as int - 48);
    } else {
        let t = s.drop_last();
        lemma_value_front(t);
        assert(t.skip(1) =~= s.skip(1).drop_last());
        assert(s.skip(1).last() == s.last());
        let d = s[0] as int - 48;
        let p = ten_to((s.len() - 2) as nat);
        assert(10 * (d * p) == d * (10 * p)) by (nonlinear_arith);
        assert(ten_to((s.len() - 1) as nat) == 10 * p);
        assert(t[0] == s[0]);
        assert(is_digit(s[s.len() - 1]));
        assert(value(s) == 10 * value(t) + (s.last() as int - 48));
        assert(value(s.skip(1)) == 10 * value(t.skip(1)) + (s.last() as int - 48));
    }
}

proof fn lemma_zeros_do_not_count(s: Seq<char>)
    requires
        s.len() > 0,
        s[0] == '0',
        forall|i: int| 0 <= i < s.len() ==> is_digit(#[trigger] s[i]),
    ensures
        value(s.skip(1)) == value(s),
{
    lemma_value_front(s);
    assert(0 * ten_to((s.len() - 1) as nat) == 0) by (nonlinear_arith);
}

/// Without leading zeros the longer of two runs is the greater number.
proof fn lemma_longer_is_greater(s: Seq<char>, t: Seq<char>)
    requires
        s.len() < t.len(),
        t[0] != '0',
        forall|i: int| 0 <= i < s.len() ==> is_digit(#[trigger] s[i]),
        forall|i: int| 0 <= i < t.len() ==> is_digit(#[trigger] t[i]),
    ensures
        value(s) < value(t),
{
    lemma_value_below(s);
    lemma_value_front(t);
    let p = ten_to((t.len() - 1) as nat);
    let d = t[0] as int - 48;
    assert(is_digit(t[0]));
    assert(d * p >= p) by (nonlinear_arith)
        requires
            d >= 1,
            p >= 0,
    ;
    lemma_ten_grows(s.len(), (t.len() - 1) as nat);
}

proof fn lemma_ten_grows(m: nat, n: nat)
    requires
        m <= n,
    ensures
        ten_to(m) <= ten_to(n),
    decreases n,
{
    if m < n {
        lemma_ten_grows(m, (n - 1) as nat);
    }
}

/// Two runs of one length go by value as they go by their characters.
proof fn lemma_same_length(s: Seq<char>, t: Seq<char>)
    requires
        s.len() == t.len(),
        forall|i: int| 0 <= i < s.len() ==> is_digit(#[trigger] s[i]),
        forall|i: int| 0 <= i < t.len() ==> is_digit(#[trigger] t[i]),
    ensures
        lex(s, t) == number_order(value(s) as int, value(t) as int),
    decreases s.len(),
{
    if s.len() > 0 {
        lemma_value_front(s);
        lemma_value_front(t);
        assert forall|i: int| 0 <= i < s.skip(1).len() implies is_digit(#[trigger] s.skip(1)[i]) by {
            assert(s.skip(1)[i] == s[i + 1]);
        }
        assert forall|i: int| 0 <= i < t.skip(1).len() implies is_digit(#[trigger] t.skip(1)[i]) by {
            assert(t.skip(1)[i] == t[i + 1]);
        }
        lemma_value_below(s.skip(1));
        lemma_value_below(t.skip(1));
        lemma_same_length(s.skip(1), t.skip(1));
        let p = ten_to((s.len() - 1) as nat);
        let (d, e) = (s[0] as int - 48, t[0] as int - 48);
        if d < e {
            assert(d * p + p <= e * p) by (nonlinear_arith)
                requires
                    d < e,
                    p >= 0,
            ;
        } else if e < d {
            assert(e * p + p <= d * p) by (nonlinear_arith)
                requires
                    e < d,
                    p >= 0,
            ;
        }
    }
}

/// Where the digits from `from` up to `to` begin once the zeros at their front are gone.
fn skip_zeros(s: &Vec<char>, from: usize, to: usize) -> (at: usize)
    requires
        from <= to <= s@.len(),
        forall|i: int| from <= i < to ==> is_digit(#[trigger] s@[i]),
    ensures
        from <= at <= to,
        at < to ==> s@[at as int] != '0',
        value(s@.subrange(at as int, to as int)) == value(s@.subrange(from as int, to as int)),
{
    let mut i: usize = from;
    while i < to && s[i] == '0'
        invariant
            from <= i <= to <= s@.len(),
            forall|i: int| from <= i < to ==> is_digit(#[trigger] s@[i]),
            value(s@.subrange(i as int, to as int)) == value(s@.subrange(from as int, to as int)),
        decreases to - i,
    {
        proof {
            let t = s@.subrange(i as int, to as int);
            assert forall|k: int| 0 <= k < t.len() implies is_digit(#[trigger] t[k]) by {
                assert(t[k] == s@[i + k]);
            }
            lemma_zeros_do_not_count(t);
            assert(t.skip(1) =~= s@.subrange(i + 1, to as int));
        }
        i = i + 1;
    }
    i
}

/// The order of two runs of digits by value.
fn run_order(a: &Vec<char>, from: usize, to: usize, b: &Vec<char>, start: usize, end: usize) -> (r:
    Order)
    requires
        from <= to <= a@.len(),
        start <= end <= b@.len(),
        forall|i: int| from <= i < to ==> is_digit(#[trigger] a@[i]),
        forall|i: int| start <= i < end ==> is_digit(#[trigger] b@[i]),
    ensures
        r == number_order(
            value(a@.subrange(from as int, to as int)) as int,
            value(b@.subrange(start as int, end as int)) as int,
        ),
{
    let i = skip_zeros(a, from, to);
    let j = skip_zeros(b, start, end);
    proof {
        let s = a@.subrange(i as int, to as int);
        let t = b@.subrange(j as int, end as int);
        assert forall|k: int| 0 <= k < s.len() implies is_digit(#[trigger] s[k]) by {
            assert(s[k] == a@[i + k]);
        }
        assert forall|k: int| 0 <= k < t.len() implies is_digit(#[trigger] t[k]) by {
            assert(t[k] == b@[j + k]);
        }
        if s.len() < t.len() {
            lemma_longer_is_greater(s, t);
        } else if t.len() < s.len() {
            lemma_longer_is_greater(t, s);
        } else {
            lemma_same_length(s, t);
        }
    }
    if to - i < end - j {
        Order::Less
    } else if end - j < to - i {
        Order::Greater
    } else {
        lex_from(a, i, to, b, j, end)
    }
}

/// The natural order of two texts.
pub fn natural_order(a: &str, b: &str) -> (r: Order)
    ensures
        r == natural(a@, b@),
{
    let x = chars_of(a);
    let y = chars_of(b);
    let mut i: usize = 0;
    let mut j: usize = 0;
    assert(x@.skip(0) =~= x@);
    assert(y@.skip(0) =~= y@);
    while i < x.len() && j < y.len()
        invariant
            x@ == a@,
            y@ == b@,
            i <= x@.len(),
            j <= y@.len(),
            tokens_order(tokens(x@.skip(i as int)), tokens(y@.skip(j as int))) == tokens_order(
                tokens(x@),
                tokens(y@),
            ),
        decreases x@.len() - i,
    {
        let m = digits_from(&x, i);
        let n = digits_from(&y, j);
        let ghost s = x@.skip(i as int);
        let ghost t = y@.skip(j as int);
        proof {
            lemma_digit_run(s);
            lemma_digit_run(t);
            assert(s[0] == x@[i as int] && t[0] == y@[j as int]);
        }
        let order = if m > 0 && n > 0 {
            proof {
                assert forall|k: int| i <= k < i + m implies is_digit(#[trigger] x@[k]) by {
                    assert(x@[k] == s[k - i]);
                }
                assert forall|k: int| j <= k < j + n implies is_digit(#[trigger] y@[k]) by {
                    assert(y@[k] == t[k - j]);
                }
                assert(s.take(m as int) =~= x@.subrange(i as int, i + m));
                assert(t.take(n as int) =~= y@.subrange(j as int, j + n));
                assert(s.skip(m as int) =~= x@.skip(i + m));
                assert(t.skip(n as int) =~= y@.skip(j + n));
                assert(tokens(s).skip(1) =~= tokens(s.skip(m as int)));
                assert(tokens(t).skip(1) =~= tokens(t.skip(n as int)));
            }
            let r = run_order(&x, i, i + m, &y, j, j + n);
            i = i + m;
            j = j + n;
            r
        } else {
            let (c, d) = (x[i], y[j]);
            proof {
                assert(m > 0 <==> is_digit(c));
                assert(n > 0 <==> is_digit(d));
                if m == 0 && n == 0 {
                    assert(s.skip(1) =~= x@.skip(i + 1));
                    assert(t.skip(1) =~= y@.skip(j + 1));
                    assert(tokens(s).skip(1) =~= tokens(s.skip(1)));
                    assert(tokens(t).skip(1) =~= tokens(t.skip(1)));
                }
            }
            i = i + 1;
            j = j + 1;
            if c < d {
                Order::Less
            } else if d < c {
                Order::Greater
            } else {
                Order::Equal
            }
        };
        assert(order == token_order(tokens(s)[0], tokens(t)[0]));
        if order != Order::Equal {
            return order;
        }
    }
    proof {
        assert(tokens(x@.skip(i as int)).len() == 0 <==> i == x@.len());
        assert(tokens(y@.skip(j as int)).len() == 0 <==> j == y@.len());
        assert(x@.subrange(0, x@.len() as int) =~= x@);
        assert(y@.subrange(0, y@.len() as int) =~= y@);
    }
    if i < x.len() {
        Order::Greater
    } else if j < y.len() {
        Order::Less
    } else {
        lex_from(&x, 0, x.len(), &y, 0, y.len())
    }
}

// ---------------------------------------------------------------------------
// What decides
// ---------------------------------------------------------------------------

/// A text is taken apart in two steps where the cut does not go through a run of digits.
proof fn lemma_tokens_split(front: Seq<char>, rest: Seq<char>)
    requires
        front.len() == 0 || rest.len() == 0 || !is_digit(front.last()) || !is_digit(rest[0]),
    ensures
        tokens(front + rest) == tokens(front) + tokens(rest),
    decreases front.len(),
{
    let s = front + rest;
    if front.len() == 0 {
        assert(s =~= rest);
        assert(tokens(front) + tokens(rest) =~= tokens(rest));
    } else if is_digit(front[0]) {
        lemma_digit_run(front);
        let k = digit_run(front) as int;
        assert(k > 0) by {
            assert(front.len() > 0 && is_digit(front[0]));
        }
        assert forall|i: int| 0 <= i < k implies is_digit(#[trigger] s[i]) by {
            assert(s[i] == front[i]);
        }
        if k < front.len() {
            assert(s[k] == front[k]);
        } else {
            assert(front.last() == front[k - 1]);
            if rest.len() > 0 {
                assert(s[k] == rest[0]);
            }
        }
        lemma_digit_run_unique(s, k as nat);
        assert(s[0] == front[0]);
        let behind = front.skip(k);
        if behind.len() > 0 {
            assert(behind.last() == front.last());
        }
        lemma_tokens_split(behind, rest);
        assert(s.skip(k) =~= behind + rest);
        assert(s.take(k) =~= front.take(k));
        assert(tokens(s) =~= tokens(front) + tokens(rest));
    } else {
        let behind = front.skip(1);
        if behind.len() > 0 {
            assert(behind.last() == front.last());
        }
        lemma_tokens_split(behind, rest);
        assert(s[0] == front[0]);
        assert(s.skip(1) =~= behind + rest);
        assert(tokens(s) =~= tokens(front) + tokens(rest));
    }
}

/// What is the same at the front decides nothing.
proof fn lemma_common_tokens(x: Seq<Token>, y: Seq<Token>, z: Seq<Token>)
    ensures
        tokens_order(x + y, x + z) == tokens_order(y, z),
    decreases x.len(),
{
    if x.len() == 0 {
        assert(x + y =~= y);
        assert(x + z =~= z);
    } else {
        lemma_tokens_equal(seq![x[0]], seq![x[0]]);
        assert(token_order(x[0], x[0]) == Order::Equal);
        assert((x + y).skip(1) =~= x.skip(1) + y);
        assert((x + z).skip(1) =~= x.skip(1) + z);
        lemma_common_tokens(x.skip(1), y, z);
    }
}

/// Where two texts first differ in characters of which neither is a digit, the text with the
/// smaller character comes first, whatever stands in front and behind.
pub proof fn the_first_differing_character_decides(
    front: Seq<char>,
    c: char,
    d: char,
    p: Seq<char>,
    q: Seq<char>,
)
    requires
        !('0' <= c <= '9'),
        !('0' <= d <= '9'),
        c < d,
    ensures
        natural(front + seq![c] + p, front + seq![d] + q) == Order::Less,
        natural(front + seq![d] + q, front + seq![c] + p) == Order::Greater,
{
    let (x, y) = (seq![c] + p, seq![d] + q);
    lemma_tokens_split(front, x);
    lemma_tokens_split(front, y);
    assert(front + seq![c] + p =~= front + x);
    assert(front + seq![d] + q =~= front + y);
    lemma_common_tokens(tokens(front), tokens(x), tokens(y));
    assert(tokens(x)[0] == Token::Symbol(c as int));
    assert(tokens(y)[0] == Token::Symbol(d as int));
    natural_order_is_antisymmetric(front + x, front + y);
}

/// Where a number stands in one text and another character in the other, the number stands where
/// digits stand among the characters.
pub proof fn digits_stand_among_the_characters(
    front: Seq<char>,
    c: char,
    d: char,
    p: Seq<char>,
    q: Seq<char>,
)
    requires
        '0' <= c <= '9',
        !('0' <= d <= '9'),
        front.len() > 0 ==> !('0' <= front.last() <= '9'),
    ensures
        c < d ==> natural(front + seq![c] + p, front + seq![d] + q) == Order::Less,
        d < c ==> natural(front + seq![c] + p, front + seq![d] + q) == Order::Greater,
{
    let (x, y) = (seq![c] + p, seq![d] + q);
    lemma_tokens_split(front, x);
    lemma_tokens_split(front, y);
    assert(front + seq![c] + p =~= front + x);
    assert(front + seq![d] + q =~= front + y);
    lemma_common_tokens(tokens(front), tokens(x), tokens(y));
    assert(x[0] == c && y[0] == d);
    assert(tokens(x)[0] is Number);
    assert(tokens(y)[0] == Token::Symbol(d as int));
}

/// Digits make a number of their values, the first counting most.
pub proof fn a_number_is_its_decimal_text(n: nat)
    ensures
        value(decimal(n)) == n,
    decreases n,
{
    lemma_decimal_digits(n);
    if n < 10 {
        let s = decimal(n);
        assert(s.drop_last() =~= Seq::<char>::empty());
        assert(s.last() == ((n + 48) as char));
        assert(value(s.drop_last()) == 0);
    } else {
        a_number_is_its_decimal_text(n / 10);
        assert(decimal(n).drop_last() =~= decimal(n / 10));
        assert(decimal(n).last() == ((n % 10 + 48) as char));
    }
}

/// Zeros in front do not change a number.
pub proof fn zeros_in_front_do_not_count(zeros: Seq<char>, digits: Seq<char>)
    requires
        forall|i: int| 0 <= i < zeros.len() ==> #[trigger] zeros[i] == '0',
    ensures
        value(zeros + digits) == value(digits),
    decreases digits.len(), zeros.len(),
{
    let s = zeros + digits;
    if digits.len() > 0 {
        assert(s.last() == digits.last());
        assert(s.drop_last() =~= zeros + digits.drop_last());
        zeros_in_front_do_not_count(zeros, digits.drop_last());
    } else if zeros.len() > 0 {
        assert(s =~= zeros);
        assert(s.last() == '0');
        assert(s.drop_last() =~= zeros.drop_last() + digits);
        zeros_in_front_do_not_count(zeros.drop_last(), digits);
    } else {
        assert(s =~= digits);
    }
}

/// Numbers are ordered as they are, however many zeros stand in front of them: `2` and `002` come
/// before `10`.
pub proof fn written_numbers_go_by_value(
    front: Seq<char>,
    zeros: Seq<char>,
    m: nat,
    others: Seq<char>,
    n: nat,
    p: Seq<char>,
    q: Seq<char>,
)
    requires
        m < n,
        forall|i: int| 0 <= i < zeros.len() ==> #[trigger] zeros[i] == '0',
        forall|i: int| 0 <= i < others.len() ==> #[trigger] others[i] == '0',
        front.len() > 0 ==> !('0' <= front.last() <= '9'),
        p.len() > 0 ==> !('0' <= p[0] <= '9'),
        q.len() > 0 ==> !('0' <= q[0] <= '9'),
    ensures
        natural(front + (zeros + decimal(m)) + p, front + (others + decimal(n)) + q) == Order::Less,
{
    lemma_decimal_digits(m);
    lemma_decimal_digits(n);
    a_number_is_its_decimal_text(m);
    a_number_is_its_decimal_text(n);
    zeros_in_front_do_not_count(zeros, decimal(m));
    zeros_in_front_do_not_count(others, decimal(n));
    numbers_go_by_value(front, zeros + decimal(m), others + decimal(n), p, q);
}

/// Where two texts hold the same number, written with more or fewer zeros, what stands behind the
/// number decides first.
pub proof fn what_follows_equal_numbers_decides(
    front: Seq<char>,
    m: Seq<char>,
    n: Seq<char>,
    c: char,
    d: char,
    p: Seq<char>,
    q: Seq<char>,
)
    requires
        m.len() > 0,
        n.len() > 0,
        forall|i: int| 0 <= i < m.len() ==> '0' <= #[trigger] m[i] <= '9',
        forall|i: int| 0 <= i < n.len() ==> '0' <= #[trigger] n[i] <= '9',
        front.len() > 0 ==> !('0' <= front.last() <= '9'),
        value(m) == value(n),
        !('0' <= c <= '9'),
        !('0' <= d <= '9'),
        c < d,
    ensures
        natural(front + (m + (seq![c] + p)), front + (n + (seq![d] + q))) == Order::Less,
{
    let (x, y) = (seq![c] + p, seq![d] + q);
    lemma_tokens_split(front, m + x);
    lemma_tokens_split(front, n + y);
    lemma_common_tokens(tokens(front), tokens(m + x), tokens(n + y));
    assert(x[0] == c && y[0] == d);
    lemma_tokens_split(m, x);
    lemma_tokens_split(n, y);
    lemma_number_token(m);
    lemma_number_token(n);
    lemma_common_tokens(tokens(m), tokens(x), tokens(y));
    assert(tokens(x)[0] == Token::Symbol(c as int));
    assert(tokens(y)[0] == Token::Symbol(d as int));
}

/// A run of digits is one token.
proof fn lemma_number_token(m: Seq<char>)
    requires
        m.len() > 0,
        forall|i: int| 0 <= i < m.len() ==> is_digit(#[trigger] m[i]),
    ensures
        tokens(m) == seq![Token::Number(value(m))],
{
    lemma_digit_run_unique(m, m.len());
    assert(is_digit(m[0]));
    assert(m.take(m.len() as int) =~= m);
    assert(m.skip(m.len() as int) =~= Seq::<char>::empty());
    assert(tokens(m.skip(m.len() as int)).len() == 0);
    assert(tokens(m) =~= seq![Token::Number(value(m))] + tokens(m.skip(m.len() as int)));
    assert(tokens(m) =~= seq![Token::Number(value(m))]);
}

/// A text comes before every text that goes on behind it.
pub proof fn a_text_comes_before_its_extensions(a: Seq<char>, b: Seq<char>)
    requires
        b.len() > 0,
        a.len() > 0 ==> !('0' <= a.last() <= '9') || !('0' <= b[0] <= '9'),
    ensures
        natural(a, a + b) == Order::Less,
{
    lemma_tokens_split(a, b);
    lemma_common_tokens(tokens(a), Seq::empty(), tokens(b));
    assert(tokens(a) + Seq::<Token>::empty() =~= tokens(a));
    assert(tokens(b).len() > 0) by {
        if is_digit(b[0]) {
            lemma_digit_run(b);
        }
    }
}

} // verus!
