//! Natural order: runs of digits compare by their numeric value, so "img2"
//! comes before "img10". Everything else compares character by character.

use crate::text::{digit_value, is_digit, leading_zeros_keep_number, number, to_chars, zeros};
use core::cmp::Ordering;
use vstd::prelude::*;

verus! {

/// How one text stands to another.
#[derive(Clone, Copy, PartialEq, Eq, Structural, Debug)]
pub enum Rank {
    Before,
    Same,
    After,
}

/// The number of digits at the start of `s`.
pub open spec fn run_len(s: Seq<char>) -> nat
    decreases s.len(),
{
    if s.len() > 0 && is_digit(s[0]) {
        1 + run_len(s.skip(1))
    } else {
        0
    }
}

/// How many characters the first token of `s` takes: a maximal run of digits is
/// one token, and so is any other character.
pub open spec fn token_len(s: Seq<char>) -> nat {
    if is_digit(s[0]) {
        run_len(s)
    } else {
        1
    }
}

/// `s` cut into tokens.
pub open spec fn tokens(s: Seq<char>) -> Seq<Seq<char>>
    decreases s.len(),
{
    if s.len() == 0 {
        Seq::empty()
    } else {
        proof {
            run_of_digits(s);
        }
        seq![s.take(token_len(s) as int)] + tokens(s.skip(token_len(s) as int))
    }
}

pub open spec fn rank_int(a: int, b: int) -> Rank {
    if a < b {
        Rank::Before
    } else if a > b {
        Rank::After
    } else {
        Rank::Same
    }
}

/// Digit runs compare by value, and among equal values the one with fewer
/// leading zeros comes first. Otherwise the first characters decide.
pub open spec fn token_rank(a: Seq<char>, b: Seq<char>) -> Rank {
    if is_digit(a[0]) && is_digit(b[0]) {
        if number(a) == number(b) {
            rank_int(a.len() as int, b.len() as int)
        } else {
            rank_int(number(a) as int, number(b) as int)
        }
    } else {
        rank_int(a[0] as int, b[0] as int)
    }
}

/// Lexicographic order of token sequences.
pub open spec fn rank_tokens(a: Seq<Seq<char>>, b: Seq<Seq<char>>) -> Rank
    decreases a.len(),
{
    if a.len() == 0 && b.len() == 0 {
        Rank::Same
    } else if a.len() == 0 {
        Rank::Before
    } else if b.len() == 0 {
        Rank::After
    } else if token_rank(a[0], b[0]) == Rank::Same {
        rank_tokens(a.skip(1), b.skip(1))
    } else {
        token_rank(a[0], b[0])
    }
}

/// Natural order of two texts.
pub open spec fn natural_rank(a: Seq<char>, b: Seq<char>) -> Rank {
    rank_tokens(tokens(a), tokens(b))
}

/// The same relation seen from the other side.
pub open spec fn flip(r: Rank) -> Rank {
    match r {
        Rank::Before => Rank::After,
        Rank::Same => Rank::Same,
        Rank::After => Rank::Before,
    }
}

pub open spec fn all_digits(s: Seq<char>) -> bool {
    forall|i: int| 0 <= i < s.len() ==> is_digit(#[trigger] s[i])
}

/// What every token of a text satisfies.
pub open spec fn token_ok(t: Seq<char>) -> bool {
    t.len() > 0 && (all_digits(t) || (t.len() == 1 && !is_digit(t[0])))
}

pub open spec fn tokens_ok(s: Seq<Seq<char>>) -> bool {
    forall|i: int| 0 <= i < s.len() ==> token_ok(#[trigger] s[i])
}

/// The run at the start of `s` is made of digits and ends where they end.
pub proof fn run_of_digits(s: Seq<char>)
    ensures
        run_len(s) <= s.len(),
        all_digits(s.take(run_len(s) as int)),
        run_len(s) < s.len() ==> !is_digit(s[run_len(s) as int]),
        s.len() > 0 && is_digit(s[0]) ==> run_len(s) > 0,
    decreases s.len(),
{
    if s.len() > 0 && is_digit(s[0]) {
        let t = s.skip(1);
        run_of_digits(t);
        let n = run_len(s) as int;
        assert forall|i: int| 0 <= i < n implies is_digit(#[trigger] s.take(n)[i]) by {
            if i > 0 {
                assert(s.take(n)[i] == t.take(n - 1)[i - 1]);
            }
        }
        if n < s.len() {
            assert(s[n] == t[n - 1]);
        }
    }
}

/// The run length is the only cut that run_of_digits describes.
proof fn run_len_is(s: Seq<char>, n: int)
    requires
        0 <= n <= s.len(),
        forall|i: int| 0 <= i < n ==> is_digit(#[trigger] s[i]),
        n < s.len() ==> !is_digit(s[n]),
    ensures
        run_len(s) == n,
{
    run_of_digits(s);
    let m = run_len(s) as int;
    if m < n {
        assert(is_digit(s[m]));
    } else if n < m {
        assert(is_digit(s.take(m)[n]));
    }
}

proof fn tokens_are_ok(s: Seq<char>)
    ensures
        tokens_ok(tokens(s)),
        tokens(s).len() == 0 <==> s.len() == 0,
    decreases s.len(),
{
    if s.len() > 0 {
        run_of_digits(s);
        let k = token_len(s) as int;
        let rest = tokens(s.skip(k));
        tokens_are_ok(s.skip(k));
        assert forall|i: int| 0 <= i < tokens(s).len() implies token_ok(#[trigger] tokens(s)[i]) by {
            if i > 0 {
                assert(tokens(s)[i] == rest[i - 1]);
            }
        }
    }
}

/// Digit runs of the same length and value are the same run.
proof fn number_is_injective(x: Seq<char>, y: Seq<char>)
    requires
        all_digits(x),
        all_digits(y),
        x.len() == y.len(),
        number(x) == number(y),
    ensures
        x == y,
    decreases x.len(),
{
    if x.len() > 0 {
        let (p, q) = (x.drop_last(), y.drop_last());
        assert(is_digit(x.last()) && is_digit(y.last()));
        assert(number(p) == number(q) && digit_value(x.last()) == digit_value(y.last()));
        assert forall|i: int| 0 <= i < p.len() implies is_digit(#[trigger] p[i]) by {
            assert(p[i] == x[i]);
        }
        assert forall|i: int| 0 <= i < q.len() implies is_digit(#[trigger] q[i]) by {
            assert(q[i] == y[i]);
        }
        number_is_injective(p, q);
        assert(x =~= p.push(x.last()));
        assert(y =~= q.push(y.last()));
    } else {
        assert(x =~= y);
    }
}

proof fn token_same(a: Seq<char>, b: Seq<char>)
    requires
        token_ok(a),
        token_ok(b),
    ensures
        token_rank(a, b) == Rank::Same <==> a == b,
        token_rank(b, a) == flip(token_rank(a, b)),
{
    if is_digit(a[0]) && is_digit(b[0]) && number(a) == number(b) && a.len() == b.len() {
        number_is_injective(a, b);
    }
    if a.len() == 1 && b.len() == 1 && a[0] == b[0] {
        assert(a =~= b);
    }
}

proof fn token_chain(a: Seq<char>, b: Seq<char>, c: Seq<char>)
    requires
        token_ok(a),
        token_ok(b),
        token_ok(c),
        token_rank(a, b) == Rank::Before,
        token_rank(b, c) == Rank::Before,
    ensures
        token_rank(a, c) == Rank::Before,
{
}

proof fn rank_tokens_flips(a: Seq<Seq<char>>, b: Seq<Seq<char>>)
    requires
        tokens_ok(a),
        tokens_ok(b),
    ensures
        rank_tokens(a, b) == Rank::Same <==> a == b,
        rank_tokens(b, a) == flip(rank_tokens(a, b)),
    decreases a.len(),
{
    if a.len() > 0 && b.len() > 0 {
        token_same(a[0], b[0]);
        if a[0] == b[0] {
            assert(tokens_ok(a.skip(1))) by {
                assert forall|i: int| 0 <= i < a.skip(1).len() implies token_ok(
                    #[trigger] a.skip(1)[i],
                ) by {
                    assert(a.skip(1)[i] == a[i + 1]);
                }
            }
            assert(tokens_ok(b.skip(1))) by {
                assert forall|i: int| 0 <= i < b.skip(1).len() implies token_ok(
                    #[trigger] b.skip(1)[i],
                ) by {
                    assert(b.skip(1)[i] == b[i + 1]);
                }
            }
            rank_tokens_flips(a.skip(1), b.skip(1));
            assert(a =~= seq![a[0]] + a.skip(1));
            assert(b =~= seq![b[0]] + b.skip(1));
        }
    } else {
        assert(a.len() == b.len() ==> a =~= b);
    }
}

proof fn rank_tokens_chains(a: Seq<Seq<char>>, b: Seq<Seq<char>>, c: Seq<Seq<char>>)
    requires
        tokens_ok(a),
        tokens_ok(b),
        tokens_ok(c),
        rank_tokens(a, b) == Rank::Before,
        rank_tokens(b, c) == Rank::Before,
    ensures
        rank_tokens(a, c) == Rank::Before,
    decreases a.len(),
{
    if a.len() > 0 && b.len() > 0 && c.len() > 0 {
        token_same(a[0], b[0]);
        token_same(b[0], c[0]);
        token_same(a[0], c[0]);
        if a[0] == b[0] && b[0] == c[0] {
            assert(tokens_ok(a.skip(1)) && tokens_ok(b.skip(1)) && tokens_ok(c.skip(1))) by {
                assert forall|i: int| 0 <= i < a.skip(1).len() implies token_ok(
                    #[trigger] a.skip(1)[i],
                ) by {
                    assert(a.skip(1)[i] == a[i + 1]);
                }
                assert forall|i: int| 0 <= i < b.skip(1).len() implies token_ok(
                    #[trigger] b.skip(1)[i],
                ) by {
                    assert(b.skip(1)[i] == b[i + 1]);
                }
                assert forall|i: int| 0 <= i < c.skip(1).len() implies token_ok(
                    #[trigger] c.skip(1)[i],
                ) by {
                    assert(c.skip(1)[i] == c[i + 1]);
                }
            }
            rank_tokens_chains(a.skip(1), b.skip(1), c.skip(1));
        } else if a[0] != b[0] && b[0] != c[0] {
            token_chain(a[0], b[0], c[0]);
        }
    }
}

/// The text that a token sequence spells.
pub open spec fn spelled(t: Seq<Seq<char>>) -> Seq<char>
    decreases t.len(),
{
    if t.len() == 0 {
        Seq::empty()
    } else {
        t[0] + spelled(t.skip(1))
    }
}

proof fn tokens_spell(s: Seq<char>)
    ensures
        spelled(tokens(s)) == s,
    decreases s.len(),
{
    if s.len() > 0 {
        run_of_digits(s);
        let k = token_len(s) as int;
        tokens_spell(s.skip(k));
        assert(tokens(s).skip(1) =~= tokens(s.skip(k)));
        assert(s =~= s.take(k) + s.skip(k));
    }
    assert(spelled(tokens(s)) =~= s);
}

/// Two texts rank the same only if they are the same text, and swapping them
/// flips the rank.
pub proof fn natural_order_is_antisymmetric(a: Seq<char>, b: Seq<char>)
    ensures
        natural_rank(a, b) == Rank::Same <==> a == b,
        natural_rank(b, a) == flip(natural_rank(a, b)),
{
    tokens_are_ok(a);
    tokens_are_ok(b);
    rank_tokens_flips(tokens(a), tokens(b));
    tokens_spell(a);
    tokens_spell(b);
}

/// Natural order is transitive.
pub proof fn natural_order_is_transitive(a: Seq<char>, b: Seq<char>, c: Seq<char>)
    requires
        natural_rank(a, b) != Rank::After,
        natural_rank(b, c) != Rank::After,
    ensures
        natural_rank(a, c) != Rank::After,
        natural_rank(a, b) == Rank::Before || natural_rank(b, c) == Rank::Before ==> natural_rank(
            a,
            c,
        ) == Rank::Before,
{
    natural_order_is_antisymmetric(a, b);
    natural_order_is_antisymmetric(b, c);
    natural_order_is_antisymmetric(a, c);
    tokens_are_ok(a);
    tokens_are_ok(b);
    tokens_are_ok(c);
    if natural_rank(a, b) == Rank::Before && natural_rank(b, c) == Rank::Before {
        rank_tokens_chains(tokens(a), tokens(b), tokens(c));
    }
}

/// Cutting next to a character that is no digit cuts between two tokens.
proof fn tokens_split(p: Seq<char>, s: Seq<char>)
    requires
        p.len() == 0 || s.len() == 0 || !is_digit(p.last()) || !is_digit(s[0]),
    ensures
        tokens(p + s) == tokens(p) + tokens(s),
    decreases p.len(),
{
    if p.len() == 0 {
        assert(p + s =~= s);
        assert(tokens(p) + tokens(s) =~= tokens(s));
    } else {
        let u = p + s;
        run_of_digits(p);
        let k = token_len(p) as int;
        assert(u[0] == p[0]);
        if is_digit(p[0]) {
            assert forall|i: int| 0 <= i < k implies is_digit(#[trigger] u[i]) by {
                assert(u[i] == p.take(k)[i]);
            }
            if k == p.len() {
                assert(p.take(k)[k - 1] == p.last());
                if s.len() > 0 {
                    assert(u[k] == s[0]);
                }
            } else {
                assert(u[k] == p[k]);
            }
            run_len_is(u, k);
        }
        assert(u.take(k) =~= p.take(k));
        assert(u.skip(k) =~= p.skip(k) + s);
        assert(p.skip(k).len() > 0 ==> p.skip(k).last() == p.last());
        tokens_split(p.skip(k), s);
        assert(tokens(u) =~= tokens(p) + tokens(s));
    }
}

/// A text comes right before its own continuations, unless they continue its
/// last number.
pub proof fn continuation_comes_after(p: Seq<char>, s: Seq<char>)
    requires
        s.len() > 0,
        p.len() == 0 || !is_digit(p.last()) || !is_digit(s[0]),
    ensures
        natural_rank(p, p + s) == Rank::Before,
{
    tokens_split(p, s);
    tokens_are_ok(s);
    let none = Seq::<Seq<char>>::empty();
    rank_skips_common_tokens(tokens(p), none, tokens(s));
    assert(tokens(p) + none =~= tokens(p));
}

proof fn rank_skips_common_tokens(a: Seq<Seq<char>>, x: Seq<Seq<char>>, y: Seq<Seq<char>>)
    ensures
        rank_tokens(a + x, a + y) == rank_tokens(x, y),
    decreases a.len(),
{
    if a.len() == 0 {
        assert(a + x =~= x);
        assert(a + y =~= y);
    } else {
        assert((a + x)[0] == a[0] && (a + y)[0] == a[0]);
        assert((a + x).skip(1) =~= a.skip(1) + x);
        assert((a + y).skip(1) =~= a.skip(1) + y);
        rank_skips_common_tokens(a.skip(1), x, y);
    }
}

/// A common beginning that does not end in a digit has no influence on the
/// order of two texts.
pub proof fn common_prefix_is_ignored(p: Seq<char>, x: Seq<char>, y: Seq<char>)
    requires
        p.len() == 0 || !is_digit(p.last()),
    ensures
        natural_rank(p + x, p + y) == natural_rank(x, y),
{
    tokens_split(p, x);
    tokens_split(p, y);
    rank_skips_common_tokens(tokens(p), tokens(x), tokens(y));
}

/// Numbers in otherwise equal places are ordered by their value, whatever
/// leading zeros they are written with and whatever follows them.
pub proof fn numbers_are_ordered_by_value(
    p: Seq<char>,
    x: Seq<char>,
    y: Seq<char>,
    x_rest: Seq<char>,
    y_rest: Seq<char>,
)
    requires
        p.len() == 0 || !is_digit(p.last()),
        x.len() > 0,
        y.len() > 0,
        all_digits(x),
        all_digits(y),
        x_rest.len() == 0 || !is_digit(x_rest[0]),
        y_rest.len() == 0 || !is_digit(y_rest[0]),
        number(x) < number(y),
    ensures
        natural_rank(p + (x + x_rest), p + (y + y_rest)) == Rank::Before,
{
    common_prefix_is_ignored(p, x + x_rest, y + y_rest);
    first_run(x, x_rest);
    first_run(y, y_rest);
}

/// Of two numbers of equal value in otherwise equal places, the one written with
/// fewer leading zeros comes first, whatever follows.
pub proof fn fewer_zeros_come_first(
    p: Seq<char>,
    x: Seq<char>,
    y: Seq<char>,
    x_rest: Seq<char>,
    y_rest: Seq<char>,
)
    requires
        p.len() == 0 || !is_digit(p.last()),
        0 < x.len() < y.len(),
        all_digits(x),
        all_digits(y),
        x_rest.len() == 0 || !is_digit(x_rest[0]),
        y_rest.len() == 0 || !is_digit(y_rest[0]),
        number(x) == number(y),
    ensures
        natural_rank(p + (x + x_rest), p + (y + y_rest)) == Rank::Before,
{
    common_prefix_is_ignored(p, x + x_rest, y + y_rest);
    first_run(x, x_rest);
    first_run(y, y_rest);
}

proof fn first_run(x: Seq<char>, rest: Seq<char>)
    requires
        x.len() > 0,
        all_digits(x),
        rest.len() == 0 || !is_digit(rest[0]),
    ensures
        tokens(x + rest).len() > 0,
        tokens(x + rest)[0] == x,
        is_digit(x[0]),
{
    let u = x + rest;
    assert forall|i: int| 0 <= i < x.len() implies is_digit(#[trigger] u[i]) by {
        assert(u[i] == x[i]);
    }
    if u.len() > x.len() {
        assert(u[x.len() as int] == rest[0]);
    }
    run_len_is(u, x.len() as int);
    assert(u[0] == x[0]);
    assert(u.take(x.len() as int) =~= x);
}

proof fn positive_number(y: Seq<char>)
    requires
        y.len() > 0,
        all_digits(y),
        y[0] != '0',
    ensures
        number(y) > 0,
    decreases y.len(),
{
    assert(is_digit(y[0]));
    if y.len() > 1 {
        let q = y.drop_last();
        assert(q[0] == y[0]);
        assert forall|i: int| 0 <= i < q.len() implies is_digit(#[trigger] q[i]) by {
            assert(q[i] == y[i]);
        }
        positive_number(q);
    }
}

/// Without leading zeros, the longer numeral is the larger number.
proof fn longer_is_larger(x: Seq<char>, y: Seq<char>)
    requires
        x.len() < y.len(),
        all_digits(x),
        all_digits(y),
        y[0] != '0',
    ensures
        number(x) < number(y),
    decreases x.len(),
{
    if x.len() == 0 {
        positive_number(y);
    } else {
        let (p, q) = (x.drop_last(), y.drop_last());
        assert(is_digit(x.last()));
        assert(q[0] == y[0]);
        assert forall|i: int| 0 <= i < p.len() implies is_digit(#[trigger] p[i]) by {
            assert(p[i] == x[i]);
        }
        assert forall|i: int| 0 <= i < q.len() implies is_digit(#[trigger] q[i]) by {
            assert(q[i] == y[i]);
        }
        longer_is_larger(p, q);
    }
}

/// Numerals of one length compare by their first differing digit.
proof fn first_difference_decides(x: Seq<char>, y: Seq<char>, k: int)
    requires
        x.len() == y.len(),
        all_digits(x),
        all_digits(y),
        0 <= k < x.len(),
        forall|i: int| 0 <= i < k ==> x[i] == y[i],
        x[k] < y[k],
    ensures
        number(x) < number(y),
    decreases x.len(),
{
    let (p, q) = (x.drop_last(), y.drop_last());
    assert(is_digit(x.last()) && is_digit(y.last()));
    if k == x.len() - 1 {
        assert(p =~= q);
    } else {
        assert forall|i: int| 0 <= i < p.len() implies is_digit(#[trigger] p[i]) by {
            assert(p[i] == x[i]);
        }
        assert forall|i: int| 0 <= i < q.len() implies is_digit(#[trigger] q[i]) by {
            assert(q[i] == y[i]);
        }
        first_difference_decides(p, q, k);
    }
}

/// The end of the digit run that starts at `from`.
fn run_end(v: &Vec<char>, from: usize) -> (r: usize)
    requires
        from <= v@.len(),
    ensures
        from <= r <= v@.len(),
        r - from == run_len(v@.skip(from as int)),
        all_digits(v@.subrange(from as int, r as int)),
{
    let mut r: usize = from;
    while r < v.len() && '0' <= v[r] && v[r] <= '9'
        invariant
            from <= r <= v@.len(),
            forall|i: int| from <= i < r ==> is_digit(#[trigger] v@[i]),
        decreases v@.len() - r,
    {
        r = r + 1;
    }
    proof {
        let s = v@.skip(from as int);
        assert forall|i: int| 0 <= i < r - from implies is_digit(#[trigger] s[i]) by {
            assert(s[i] == v@[i + from]);
        }
        run_len_is(s, r - from);
    }
    r
}

/// The end of the zeros that start at `from`, at most `to`.
fn zeros_end(v: &Vec<char>, from: usize, to: usize) -> (r: usize)
    requires
        from <= to <= v@.len(),
    ensures
        from <= r <= to,
        r < to ==> v@[r as int] != '0',
        number(v@.subrange(r as int, to as int)) == number(v@.subrange(from as int, to as int)),
{
    let mut r: usize = from;
    while r < to && v[r] == '0'
        invariant
            from <= r <= to <= v@.len(),
            forall|i: int| from <= i < r ==> v@[i] == '0',
        decreases to - r,
    {
        r = r + 1;
    }
    proof {
        let tail = v@.subrange(r as int, to as int);
        leading_zeros_keep_number((r - from) as nat, tail);
        assert(v@.subrange(from as int, to as int) =~= zeros((r - from) as nat) + tail);
    }
    r
}

/// Rank two digit runs, `a[ai..ae]` and `b[bi..be]`, by value and then by
/// length. Comparing the digits that follow the leading zeros, first by their
/// count, keeps arbitrarily long runs free of overflow.
fn rank_runs(a: &Vec<char>, ai: usize, ae: usize, b: &Vec<char>, bi: usize, be: usize) -> (r: Rank)
    requires
        ai < ae <= a@.len(),
        bi < be <= b@.len(),
        all_digits(a@.subrange(ai as int, ae as int)),
        all_digits(b@.subrange(bi as int, be as int)),
    ensures
        r == token_rank(
            a@.subrange(ai as int, ae as int),
            b@.subrange(bi as int, be as int),
        ),
{
    let az: usize = zeros_end(a, ai, ae);
    let bz: usize = zeros_end(b, bi, be);
    let ghost x = a@.subrange(az as int, ae as int);
    let ghost y = b@.subrange(bz as int, be as int);
    proof {
        assert forall|i: int| 0 <= i < x.len() implies is_digit(#[trigger] x[i]) by {
            assert(x[i] == a@.subrange(ai as int, ae as int)[i + az - ai]);
        }
        assert forall|i: int| 0 <= i < y.len() implies is_digit(#[trigger] y[i]) by {
            assert(y[i] == b@.subrange(bi as int, be as int)[i + bz - bi]);
        }
    }
    let la: usize = ae - az;
    let lb: usize = be - bz;
    if la < lb {
        proof {
            longer_is_larger(x, y);
        }
        return Rank::Before;
    }
    if la > lb {
        proof {
            longer_is_larger(y, x);
        }
        return Rank::After;
    }
    let mut k: usize = 0;
    while k < la
        invariant
            k <= la,
            la == ae - az,
            la == be - bz,
            az <= ae <= a@.len(),
            bz <= be <= b@.len(),
            ai < ae,
            bi < be,
            x == a@.subrange(az as int, ae as int),
            y == b@.subrange(bz as int, be as int),
            all_digits(x),
            all_digits(y),
            forall|i: int| 0 <= i < k ==> x[i] == y[i],
            all_digits(a@.subrange(ai as int, ae as int)),
            all_digits(b@.subrange(bi as int, be as int)),
            number(x) == number(a@.subrange(ai as int, ae as int)),
            number(y) == number(b@.subrange(bi as int, be as int)),
        decreases la - k,
    {
        let ca: char = a[az + k];
        let cb: char = b[bz + k];
        assert(x[k as int] == ca && y[k as int] == cb);
        if ca < cb {
            proof {
                first_difference_decides(x, y, k as int);
            }
            return Rank::Before;
        }
        if ca > cb {
            proof {
                first_difference_decides(y, x, k as int);
            }
            return Rank::After;
        }
        k = k + 1;
    }
    assert(x =~= y);
    if ae - ai < be - bi {
        Rank::Before
    } else if ae - ai > be - bi {
        Rank::After
    } else {
        Rank::Same
    }
}

/// Natural order of two texts given as character vectors.
pub fn rank_chars(a: &Vec<char>, b: &Vec<char>) -> (r: Rank)
    ensures
        r == natural_rank(a@, b@),
{
    let mut i: usize = 0;
    let mut j: usize = 0;
    assert(a@.skip(0) =~= a@);
    assert(b@.skip(0) =~= b@);
    while i < a.len() && j < b.len()
        invariant
            i <= a@.len(),
            j <= b@.len(),
            natural_rank(a@, b@) == rank_tokens(
                tokens(a@.skip(i as int)),
                tokens(b@.skip(j as int)),
            ),
        decreases a@.len() - i,
    {
        let ghost s = a@.skip(i as int);
        let ghost t = b@.skip(j as int);
        let ca: char = a[i];
        let cb: char = b[j];
        assert(s[0] == ca && t[0] == cb);
        proof {
            run_of_digits(s);
            run_of_digits(t);
        }
        let a_digit: bool = '0' <= ca && ca <= '9';
        let b_digit: bool = '0' <= cb && cb <= '9';
        if a_digit && b_digit {
            let ae: usize = run_end(a, i);
            let be: usize = run_end(b, j);
            assert(s.take(ae - i) =~= a@.subrange(i as int, ae as int));
            assert(t.take(be - j) =~= b@.subrange(j as int, be as int));
            let r = rank_runs(a, i, ae, b, j, be);
            if r != Rank::Same {
                return r;
            }
            assert(s.skip(ae - i) =~= a@.skip(ae as int));
            assert(t.skip(be - j) =~= b@.skip(be as int));
            assert(tokens(s).skip(1) =~= tokens(a@.skip(ae as int)));
            assert(tokens(t).skip(1) =~= tokens(b@.skip(be as int)));
            i = ae;
            j = be;
        } else {
            assert(token_rank(tokens(s)[0], tokens(t)[0]) == rank_int(ca as int, cb as int));
            if ca < cb {
                return Rank::Before;
            }
            if ca > cb {
                return Rank::After;
            }
            assert(s.skip(1) =~= a@.skip(i + 1));
            assert(t.skip(1) =~= b@.skip(j + 1));
            assert(tokens(s).skip(1) =~= tokens(a@.skip(i + 1)));
            assert(tokens(t).skip(1) =~= tokens(b@.skip(j + 1)));
            i = i + 1;
            j = j + 1;
        }
    }
    proof {
        tokens_are_ok(a@.skip(i as int));
        tokens_are_ok(b@.skip(j as int));
    }
    if i < a.len() {
        Rank::After
    } else if j < b.len() {
        Rank::Before
    } else {
        Rank::Same
    }
}

/// Natural order of two texts, which are expected to be lower case already:
/// `Less` if and only if `a` comes before `b`, `Equal` if and only if they are
/// the same text.
pub fn natural_cmp(a: &str, b: &str) -> (r: Ordering)
    ensures
        r == Ordering::Less <==> natural_rank(a@, b@) == Rank::Before,
        r == Ordering::Equal <==> natural_rank(a@, b@) == Rank::Same,
        r == Ordering::Greater <==> natural_rank(a@, b@) == Rank::After,
{
    match rank_chars(&to_chars(a), &to_chars(b)) {
        Rank::Before => Ordering::Less,
        Rank::Same => Ordering::Equal,
        Rank::After => Ordering::Greater,
    }
}

/// Where two texts first differ, and not inside of numbers, the characters decide: the one
/// with the smaller code comes first, whatever follows.
pub proof fn first_different_character_decides(
    p: Seq<char>,
    x: char,
    y: char,
    x_rest: Seq<char>,
    y_rest: Seq<char>,
)
    requires
        p.len() == 0 || !('0' <= p.last() <= '9'),
        !('0' <= x <= '9') || !('0' <= y <= '9'),
        x < y,
    ensures
        natural_rank(p + (seq![x] + x_rest), p + (seq![y] + y_rest)) == Rank::Before,
        natural_rank(p + (seq![y] + y_rest), p + (seq![x] + x_rest)) == Rank::After,
{
    let a = seq![x] + x_rest;
    let b = seq![y] + y_rest;
    common_prefix_is_ignored(p, a, b);
    common_prefix_is_ignored(p, b, a);
    run_of_digits(a);
    run_of_digits(b);
    tokens_are_ok(a);
    tokens_are_ok(b);
    assert(tokens(a)[0][0] == x) by {
        assert(a.take(token_len(a) as int)[0] == a[0]);
    }
    assert(tokens(b)[0][0] == y) by {
        assert(b.take(token_len(b) as int)[0] == b[0]);
    }
    natural_order_is_antisymmetric(a, b);
}

/// A text comes before every longer one that begins with it, as long as no number is cut.
pub proof fn shorter_comes_first(p: Seq<char>, c: char, rest: Seq<char>)
    requires
        !('0' <= c <= '9') || p.len() == 0 || !('0' <= p.last() <= '9'),
    ensures
        natural_rank(p, p + (seq![c] + rest)) == Rank::Before,
{
    continuation_comes_after(p, seq![c] + rest);
}

} // verus!
