//! Paths as text. A path is split at `/` into components: a leading `/`, a
//! leading `.`, and every other part that is neither empty nor `.`. Two paths
//! are the same path when their components are equal, whatever repeated
//! separators and `.` parts their texts hold.

use crate::text::{from_chars, to_chars};
use vstd::prelude::*;

verus! {

/// The end of the part of `s` that starts at `i`: the next `/`, or the end.
pub open spec fn part_end(s: Seq<char>, i: int) -> int
    decreases s.len() - i,
{
    if i >= s.len() || s[i] == '/' {
        i
    } else {
        part_end(s, i + 1)
    }
}

/// Whether a part between two separators names nothing.
pub open spec fn is_skipped(part: Seq<char>) -> bool {
    part.len() == 0 || part == seq!['.']
}

/// Where the named parts of `s` from position `i` on start and end.
pub open spec fn part_spans(s: Seq<char>, i: int) -> Seq<(int, int)>
    decreases s.len() + 1 - i,
{
    if 0 <= i < s.len() {
        proof {
            part_end_bounds(s, i);
        }
        let e = part_end(s, i);
        let rest = part_spans(s, e + 1);
        if is_skipped(s.subrange(i, e)) {
            rest
        } else {
            seq![(i, e)] + rest
        }
    } else {
        Seq::empty()
    }
}

/// Whether the first character of `s` is a component of its own: the root, or a
/// leading `.`.
pub open spec fn has_head(s: Seq<char>) -> bool {
    s.len() > 0 && (s[0] == '/' || s.subrange(0, part_end(s, 0)) == seq!['.'])
}

/// Where the components of `s` start and end.
pub open spec fn spans(s: Seq<char>) -> Seq<(int, int)> {
    if has_head(s) {
        seq![(0int, 1int)] + part_spans(s, 0)
    } else {
        part_spans(s, 0)
    }
}

/// The components of `s`: `/` for the root, `.` for a leading current
/// directory, `..` for a parent directory, and names.
pub open spec fn components(s: Seq<char>) -> Seq<Seq<char>> {
    spans(s).map_values(|p: (int, int)| s.subrange(p.0, p.1))
}

/// Whether two texts name the same path.
pub open spec fn same(a: Seq<char>, b: Seq<char>) -> bool {
    components(a) == components(b)
}

/// The text that lists `cs` with single separators.
pub open spec fn joined(cs: Seq<Seq<char>>) -> Seq<char>
    decreases cs.len(),
{
    if cs.len() == 0 {
        Seq::empty()
    } else if cs.len() == 1 {
        cs[0]
    } else if cs.len() == 2 && cs[0] == seq!['/'] {
        seq!['/'] + cs[1]
    } else {
        joined(cs.drop_last()) + seq!['/'] + cs.last()
    }
}

/// The plainest text of a path.
pub open spec fn normal(s: Seq<char>) -> Seq<char> {
    joined(components(s))
}

/// Whether a component is a file or directory name.
pub open spec fn is_name(c: Seq<char>) -> bool {
    c != seq!['/'] && c != seq!['.'] && c != seq!['.', '.']
}

/// The last component, if it is a name.
pub open spec fn name_of(s: Seq<char>) -> Option<Seq<char>> {
    let cs = components(s);
    if cs.len() > 0 && is_name(cs.last()) {
        Some(cs.last())
    } else {
        None
    }
}

/// The position of the last `.` in `s`, or -1.
pub open spec fn last_dot(s: Seq<char>) -> int
    decreases s.len(),
{
    if s.len() == 0 {
        -1
    } else if s.last() == '.' {
        s.len() - 1
    } else {
        last_dot(s.drop_last())
    }
}

/// What follows the last `.` of the file name, unless that `.` comes first.
pub open spec fn extension_of(s: Seq<char>) -> Option<Seq<char>> {
    match name_of(s) {
        Some(name) => if last_dot(name) > 0 {
            Some(name.skip(last_dot(name) + 1))
        } else {
            None
        },
        None => None,
    }
}

/// The file name without its extension.
pub open spec fn stem_of(s: Seq<char>) -> Option<Seq<char>> {
    match name_of(s) {
        Some(name) => if last_dot(name) > 0 {
            Some(name.take(last_dot(name)))
        } else {
            Some(name)
        },
        None => None,
    }
}

/// The path without its last component; the root and the empty path have none.
pub open spec fn parent_of(s: Seq<char>) -> Option<Seq<char>> {
    let cs = components(s);
    if cs.len() == 0 || cs.last() == seq!['/'] {
        None
    } else {
        Some(joined(cs.drop_last()))
    }
}

/// The text of `s` past the components of `base`, where `s` starts with them.
pub open spec fn stripped(s: Seq<char>, base: Seq<char>) -> Option<Seq<char>> {
    let n = components(s).len() as int;
    let k = components(base).len() as int;
    if k > n || components(s).take(k) != components(base) {
        None
    } else if k == n {
        Some(Seq::empty())
    } else {
        Some(s.subrange(spans(s)[k].0, spans(s)[n - 1].1))
    }
}

/// `rel` seen from `base`: an absolute `rel` stands for itself.
pub open spec fn child(base: Seq<char>, rel: Seq<char>) -> Seq<char> {
    if rel.len() > 0 && rel[0] == '/' {
        rel
    } else if base.len() == 0 || base.last() == '/' {
        base + rel
    } else {
        base + seq!['/'] + rel
    }
}

/// A part ends at the first separator at or after its start.
pub proof fn part_end_bounds(s: Seq<char>, i: int)
    requires
        0 <= i <= s.len(),
    ensures
        i <= part_end(s, i) <= s.len(),
        part_end(s, i) < s.len() ==> s[part_end(s, i)] == '/',
        forall|j: int| i <= j < part_end(s, i) ==> s[j] != '/',
    decreases s.len() - i,
{
    if i < s.len() && s[i] != '/' {
        part_end_bounds(s, i + 1);
    }
}

pub proof fn part_end_is(s: Seq<char>, i: int, e: int)
    requires
        0 <= i <= e <= s.len(),
        e < s.len() ==> s[e] == '/',
        forall|j: int| i <= j < e ==> s[j] != '/',
    ensures
        part_end(s, i) == e,
    decreases e - i,
{
    if i < e {
        part_end_is(s, i + 1, e);
    }
}

/// Every span lies inside the text, and the spans run from left to right.
pub open spec fn spans_inside(sp: Seq<(int, int)>, n: int) -> bool {
    forall|j: int| 0 <= j < sp.len() ==> 0 <= (#[trigger] sp[j]).0 < sp[j].1 <= n
}

proof fn part_spans_bounds(s: Seq<char>, i: int)
    requires
        0 <= i,
    ensures
        spans_inside(part_spans(s, i), s.len() as int),
        forall|j: int|
            0 <= j < part_spans(s, i).len() ==> i <= (#[trigger] part_spans(s, i)[j]).0 && {
                let part = s.subrange(part_spans(s, i)[j].0, part_spans(s, i)[j].1);
                !is_skipped(part) && !part.contains('/')
            },
        forall|j: int, k: int|
            0 <= j < k < part_spans(s, i).len() ==> (#[trigger] part_spans(s, i)[j]).1 < (
            #[trigger] part_spans(s, i)[k]).0,
    decreases s.len() + 1 - i,
{
    if i < s.len() {
        part_end_bounds(s, i);
        let e = part_end(s, i);
        part_spans_bounds(s, e + 1);
        let rest = part_spans(s, e + 1);
        if !is_skipped(s.subrange(i, e)) {
            let all = part_spans(s, i);
            assert(all =~= seq![(i, e)] + rest);
            assert forall|j: int| 0 <= j < all.len() implies {
                &&& i <= (#[trigger] all[j]).0 < all[j].1 <= s.len()
                &&& !is_skipped(s.subrange(all[j].0, all[j].1))
                &&& !s.subrange(all[j].0, all[j].1).contains('/')
            } by {
                if j > 0 {
                    assert(all[j] == rest[j - 1]);
                }
            }
            assert forall|j: int, k: int| 0 <= j < k < all.len() implies (#[trigger] all[j]).1 < (
            #[trigger] all[k]).0 by {
                assert(all[k] == rest[k - 1]);
                if j > 0 {
                    assert(all[j] == rest[j - 1]);
                }
            }
        }
    }
}

proof fn spans_bounds(s: Seq<char>)
    ensures
        spans_inside(spans(s), s.len() as int),
        forall|j: int, k: int|
            0 <= j <= k < spans(s).len() ==> (#[trigger] spans(s)[j]).0 < (#[trigger] spans(
                s,
            )[k]).1,
{
    part_spans_bounds(s, 0);
    part_end_bounds(s, 0);
    let rest = part_spans(s, 0);
    if has_head(s) {
        assert(spans(s) =~= seq![(0int, 1int)] + rest);
        assert forall|j: int| 0 <= j < spans(s).len() implies 0 <= (#[trigger] spans(s)[j]).0
            < spans(s)[j].1 <= s.len() by {
            if j > 0 {
                assert(spans(s)[j] == rest[j - 1]);
            }
        }
        assert forall|j: int, k: int| 0 <= j <= k < spans(s).len() implies (#[trigger] spans(
            s,
        )[j]).0 < (#[trigger] spans(s)[k]).1 by {
            if k > 0 {
                assert(spans(s)[k] == rest[k - 1]);
            }
            if j > 0 {
                assert(spans(s)[j] == rest[j - 1]);
            }
        }
    }
}

/// What `components` can give: a root or `.` only in front, and parts that hold
/// no separator.
pub open spec fn is_part(c: Seq<char>) -> bool {
    !is_skipped(c) && !c.contains('/')
}

pub open spec fn is_component_list(cs: Seq<Seq<char>>) -> bool {
    forall|j: int|
        0 <= j < cs.len() ==> is_part(#[trigger] cs[j]) || (j == 0 && (cs[j] == seq!['/'] || cs[j]
            == seq!['.']))
}

proof fn components_are_components(s: Seq<char>)
    ensures
        is_component_list(components(s)),
{
    part_spans_bounds(s, 0);
    part_end_bounds(s, 0);
    spans_bounds(s);
    let cs = components(s);
    assert forall|j: int| 0 <= j < cs.len() implies is_part(#[trigger] cs[j]) || (j == 0 && (cs[j]
        == seq!['/'] || cs[j] == seq!['.'])) by {
        assert(cs[j] == s.subrange(spans(s)[j].0, spans(s)[j].1));
        if has_head(s) {
            if j == 0 {
                if s[0] == '/' {
                    assert(cs[0] =~= seq!['/']);
                } else {
                    let first = s.subrange(0, part_end(s, 0));
                    assert(first.len() == 1 && first[0] == '.');
                    assert(cs[0] =~= seq!['.']);
                }
            } else {
                assert(spans(s)[j] == part_spans(s, 0)[j - 1]);
            }
        }
    }
}

/// Appending a separator and one part appends the part's span.
proof fn part_spans_append(t: Seq<char>, part: Seq<char>, i: int)
    requires
        is_part(part),
        0 <= i <= t.len() + 1,
    ensures
        part_spans(t + seq!['/'] + part, i) == part_spans(t, i).push(
            (t.len() as int + 1, t.len() as int + 1 + part.len() as int),
        ),
    decreases t.len() + 1 - i,
{
    let u = t + seq!['/'] + part;
    let last = (t.len() as int + 1, t.len() as int + 1 + part.len() as int);
    if i == t.len() + 1 {
        assert forall|j: int| i <= j < u.len() implies u[j] != '/' by {
            assert(u[j] == part[j - i]);
            assert(part.contains(part[j - i]));
        }
        part_end_is(u, i, u.len() as int);
        assert(u.subrange(i, u.len() as int) =~= part);
        assert(part_spans(u, u.len() as int + 1) =~= Seq::<(int, int)>::empty());
        assert(part_spans(u, i) =~= seq![(i, u.len() as int)]);
        assert(part_spans(t, i) =~= Seq::<(int, int)>::empty());
    } else if i == t.len() {
        part_end_is(u, i, i);
        assert(u.subrange(i, i).len() == 0);
        part_spans_append(t, part, i + 1);
        assert(part_spans(t, i) =~= Seq::<(int, int)>::empty());
        assert(part_spans(t, i + 1) =~= Seq::<(int, int)>::empty());
    } else {
        part_end_bounds(t, i);
        let e = part_end(t, i);
        assert(u[t.len() as int] == '/');
        part_end_is(u, i, e);
        assert(u.subrange(i, e) =~= t.subrange(i, e));
        part_spans_append(t, part, e + 1);
        assert(part_spans(u, i) =~= part_spans(t, i).push(last));
    }
}

proof fn components_append(t: Seq<char>, part: Seq<char>)
    requires
        t.len() > 0,
        is_part(part),
    ensures
        components(t + seq!['/'] + part) == components(t).push(part),
{
    let u = t + seq!['/'] + part;
    part_spans_append(t, part, 0);
    part_end_bounds(t, 0);
    assert(u[t.len() as int] == '/');
    part_end_is(u, 0, part_end(t, 0));
    assert(u.subrange(0, part_end(t, 0)) =~= t.subrange(0, part_end(t, 0)));
    let last = (t.len() as int + 1, t.len() as int + 1 + part.len() as int);
    assert(spans(u) =~= spans(t).push(last));
    spans_bounds(t);
    assert forall|j: int| 0 <= j < components(u).len() implies components(u)[j] == components(
        t,
    ).push(part)[j] by {
        let p = spans(u)[j];
        if j < spans(t).len() {
            assert(p == spans(t)[j]);
            assert(u.subrange(p.0, p.1) =~= t.subrange(p.0, p.1));
        } else {
            assert(u.subrange(p.0, p.1) =~= part);
        }
    }
    assert(components(u) =~= components(t).push(part));
}

/// A single part, with or without the root in front.
proof fn components_single(rooted: bool, part: Seq<char>)
    requires
        is_part(part),
    ensures
        rooted ==> components(seq!['/'] + part) == seq![seq!['/'], part],
        !rooted ==> components(part) == seq![part],
{
    let s = if rooted {
        seq!['/'] + part
    } else {
        part
    };
    let from = if rooted {
        1int
    } else {
        0int
    };
    assert forall|j: int| from <= j < s.len() implies s[j] != '/' by {
        assert(s[j] == part[j - from]);
        assert(part.contains(part[j - from]));
    }
    part_end_is(s, from, s.len() as int);
    assert(s.subrange(from, s.len() as int) =~= part);
    assert(part_spans(s, s.len() as int + 1) =~= Seq::<(int, int)>::empty());
    assert(part_spans(s, from) =~= seq![(from, s.len() as int)]);
    if rooted {
        part_end_is(s, 0, 0);
        assert(s.subrange(0, 0).len() == 0);
        assert(part_spans(s, 0) =~= part_spans(s, 1));
        assert(spans(s) =~= seq![(0int, 1int), (1int, s.len() as int)]);
        assert(s.subrange(0, 1) =~= seq!['/']);
        assert(components(s) =~= seq![seq!['/'], part]);
    } else {
        assert(!has_head(s)) by {
            assert(part.contains(part[0]));
        }
        assert(components(s) =~= seq![part]);
    }
}

/// A text without separators that is neither `.` nor `..` is its own file name.
pub proof fn single_name(name: Seq<char>)
    requires
        name.len() > 0,
        forall|k: int| 0 <= k < name.len() ==> name[k] != '/',
        is_name(name),
    ensures
        name_of(name) == Some(name),
{
    assert(is_part(name)) by {
        if name.contains('/') {
            let k = choose|k: int| 0 <= k < name.len() && name[k] == '/';
            assert(name[k] != '/');
        }
    }
    components_single(false, name);
    assert(components(name).last() == name);
}

proof fn components_of_joined(cs: Seq<Seq<char>>)
    requires
        is_component_list(cs),
    ensures
        components(joined(cs)) == cs,
        cs.len() > 0 ==> joined(cs).len() > 0,
    decreases cs.len(),
{
    if cs.len() == 0 {
        assert(components(joined(cs)) =~= cs);
    } else if cs.len() == 1 {
        let c = cs[0];
        if is_part(c) {
            components_single(false, c);
            assert(cs =~= seq![c]);
        } else {
            let s = joined(cs);
            assert(s == c);
            if c == seq!['/'] {
                assert(s[0] == '/');
                part_end_is(s, 0, 0);
                assert(s.subrange(0, 0).len() == 0);
            } else {
                assert(s[0] == '.');
                part_end_is(s, 0, 1);
                assert(s.subrange(0, 1) =~= seq!['.']);
            }
            assert(part_spans(s, 1) =~= Seq::<(int, int)>::empty());
            assert(part_spans(s, 2) =~= Seq::<(int, int)>::empty());
            assert(part_spans(s, 0) =~= Seq::<(int, int)>::empty());
            assert(spans(s) =~= seq![(0int, 1int)]);
            assert(s.subrange(0, 1) =~= c);
            assert(components(s) =~= cs);
        }
    } else if cs.len() == 2 && cs[0] == seq!['/'] {
        components_single(true, cs[1]);
        assert(cs =~= seq![cs[0], cs[1]]);
    } else {
        let init = cs.drop_last();
        assert forall|j: int| 0 <= j < init.len() implies is_part(#[trigger] init[j]) || (j == 0
            && (init[j] == seq!['/'] || init[j] == seq!['.'])) by {
            assert(init[j] == cs[j]);
        }
        components_of_joined(init);
        components_append(joined(init), cs.last());
        assert(cs =~= init.push(cs.last()));
    }
}

/// The normal text of a path names that path, and two texts have the same
/// normal text if and only if they name the same path.
pub proof fn normal_text_identifies_path(a: Seq<char>, b: Seq<char>)
    ensures
        same(normal(a), a),
        normal(a) == normal(b) <==> same(a, b),
        normal(normal(a)) == normal(a),
{
    components_are_components(a);
    components_are_components(b);
    components_of_joined(components(a));
    components_of_joined(components(b));
}

/// A path starts with its parent, and the parent lacks exactly the last
/// component.
pub proof fn parent_lacks_last_component(s: Seq<char>)
    requires
        parent_of(s) is Some,
    ensures
        components(parent_of(s).unwrap()) == components(s).drop_last(),
{
    components_are_components(s);
    let init = components(s).drop_last();
    assert forall|j: int| 0 <= j < init.len() implies is_part(#[trigger] init[j]) || (j == 0 && (
    init[j] == seq!['/'] || init[j] == seq!['.'])) by {
        assert(init[j] == components(s)[j]);
    }
    components_of_joined(init);
}

/// The spans of `v`, with machine integers.
pub open spec fn span_ints(r: Seq<(usize, usize)>) -> Seq<(int, int)> {
    r.map_values(|p: (usize, usize)| (p.0 as int, p.1 as int))
}

fn find_part_end(v: &Vec<char>, from: usize) -> (r: usize)
    requires
        from <= v@.len(),
    ensures
        from <= r <= v@.len(),
        r == part_end(v@, from as int),
{
    let mut r: usize = from;
    while r < v.len() && v[r] != '/'
        invariant
            from <= r <= v@.len(),
            forall|j: int| from <= j < r ==> v@[j] != '/',
        decreases v@.len() - r,
    {
        r = r + 1;
    }
    proof {
        part_end_is(v@, from as int, r as int);
    }
    r
}

fn find_spans(v: &Vec<char>) -> (r: Vec<(usize, usize)>)
    ensures
        span_ints(r@) == spans(v@),
        spans_inside(spans(v@), v@.len() as int),
{
    proof {
        spans_bounds(v@);
    }
    let mut out: Vec<(usize, usize)> = Vec::new();
    let n: usize = v.len();
    if n > 0 {
        let e: usize = find_part_end(v, 0);
        let dot: bool = e == 1 && v[0] == '.';
        assert(dot == (v@.subrange(0, e as int) == seq!['.'])) by {
            if dot {
                assert(v@.subrange(0, e as int) =~= seq!['.']);
            } else if v@.subrange(0, e as int) == seq!['.'] {
                assert(v@.subrange(0, e as int).len() == 1);
                assert(v@.subrange(0, e as int)[0] == '.');
            }
        }
        if v[0] == '/' || dot {
            out.push((0, 1));
        }
    }
    assert(span_ints(out@) + part_spans(v@, 0) =~= spans(v@));
    let mut i: usize = 0;
    while i < n
        invariant
            n == v@.len(),
            i <= n,
            span_ints(out@) + part_spans(v@, i as int) == spans(v@),
        decreases n - i,
    {
        let e: usize = find_part_end(v, i);
        let ghost before = span_ints(out@);
        let skip: bool = e == i || (e == i + 1 && v[i] == '.');
        assert(skip == is_skipped(v@.subrange(i as int, e as int))) by {
            let part = v@.subrange(i as int, e as int);
            if e == i + 1 && v@[i as int] == '.' {
                assert(part =~= seq!['.']);
            } else if part == seq!['.'] {
                assert(part.len() == 1 && part[0] == '.');
            }
        }
        if !skip {
            out.push((i, e));
            assert(span_ints(out@) =~= before.push((i as int, e as int)));
        }
        let ghost rest = part_spans(v@, e + 1);
        assert(span_ints(out@) + rest =~= spans(v@)) by {
            assert(before + part_spans(v@, i as int) == spans(v@));
            if skip {
                assert(part_spans(v@, i as int) =~= rest);
            } else {
                assert(part_spans(v@, i as int) =~= seq![(i as int, e as int)] + rest);
                assert(span_ints(out@) + rest =~= before + (seq![(i as int, e as int)] + rest));
            }
        }
        if e < n {
            i = e + 1;
        } else {
            assert(rest =~= Seq::<(int, int)>::empty());
            assert(part_spans(v@, n as int) =~= Seq::<(int, int)>::empty());
            i = n;
        }
    }
    assert(span_ints(out@) =~= spans(v@));
    out
}

/// Whether `v[a.0..a.1]` and `w[b.0..b.1]` are equal.
fn same_span(v: &Vec<char>, a: (usize, usize), w: &Vec<char>, b: (usize, usize)) -> (r: bool)
    requires
        a.0 <= a.1 <= v@.len(),
        b.0 <= b.1 <= w@.len(),
    ensures
        r == (v@.subrange(a.0 as int, a.1 as int) == w@.subrange(b.0 as int, b.1 as int)),
{
    let ghost x = v@.subrange(a.0 as int, a.1 as int);
    let ghost y = w@.subrange(b.0 as int, b.1 as int);
    if a.1 - a.0 != b.1 - b.0 {
        assert(x.len() != y.len());
        return false;
    }
    let n: usize = a.1 - a.0;
    for i in 0..n
        invariant
            a.0 <= a.1 <= v@.len(),
            b.0 <= b.1 <= w@.len(),
            n == a.1 - a.0,
            n == b.1 - b.0,
            x == v@.subrange(a.0 as int, a.1 as int),
            y == w@.subrange(b.0 as int, b.1 as int),
            forall|j: int| 0 <= j < i ==> x[j] == y[j],
    {
        assert(x[i as int] == v@[a.0 + i] && y[i as int] == w@[b.0 + i]);
        if v[a.0 + i] != w[b.0 + i] {
            return false;
        }
    }
    assert(x =~= y);
    true
}

/// Whether the first `k` components of `v` are those of `w`.
fn same_components(
    v: &Vec<char>,
    sv: &Vec<(usize, usize)>,
    w: &Vec<char>,
    sw: &Vec<(usize, usize)>,
    k: usize,
) -> (r: bool)
    requires
        span_ints(sv@) == spans(v@),
        span_ints(sw@) == spans(w@),
        spans_inside(spans(v@), v@.len() as int),
        spans_inside(spans(w@), w@.len() as int),
        k <= sv@.len(),
        k == sw@.len(),
    ensures
        r == (components(v@).take(k as int) == components(w@)),
{
    for i in 0..k
        invariant
            span_ints(sv@) == spans(v@),
            span_ints(sw@) == spans(w@),
            spans_inside(spans(v@), v@.len() as int),
            spans_inside(spans(w@), w@.len() as int),
            k <= sv@.len(),
            k == sw@.len(),
            forall|j: int| 0 <= j < i ==> components(v@)[j] == components(w@)[j],
    {
        assert(spans(v@)[i as int] == (sv@[i as int].0 as int, sv@[i as int].1 as int));
        assert(spans(w@)[i as int] == (sw@[i as int].0 as int, sw@[i as int].1 as int));
        if !same_span(v, sv[i], w, sw[i]) {
            assert(components(v@).take(k as int)[i as int] != components(w@)[i as int]);
            return false;
        }
    }
    assert(components(v@).take(k as int) =~= components(w@));
    true
}

/// Whether two texts name the same path.
pub fn same_path(a: &str, b: &str) -> (r: bool)
    ensures
        r == same(a@, b@),
{
    let v = to_chars(a);
    let w = to_chars(b);
    let sv = find_spans(&v);
    let sw = find_spans(&w);
    if sv.len() != sw.len() {
        assert(components(v@).len() != components(w@).len());
        return false;
    }
    let k: usize = sw.len();
    assert(components(v@).take(k as int) =~= components(v@));
    same_components(&v, &sv, &w, &sw, k)
}

/// Append the characters `v[from..to]` to `out`.
fn push_range(out: &mut String, v: &Vec<char>, from: usize, to: usize)
    requires
        from <= to <= v@.len(),
    ensures
        final(out)@ == old(out)@ + v@.subrange(from as int, to as int),
{
    let ghost before = out@;
    for i in from..to
        invariant
            from <= to <= v@.len(),
            out@ == before + v@.subrange(from as int, i as int),
    {
        out.push(v[i]);
        assert(out@ =~= before + v@.subrange(from as int, i + 1));
    }
    assert(out@ =~= before + v@.subrange(from as int, to as int));
}

/// The first `k` components of `v`, with single separators.
fn join_components(v: &Vec<char>, sv: &Vec<(usize, usize)>, k: usize) -> (r: String)
    requires
        span_ints(sv@) == spans(v@),
        spans_inside(spans(v@), v@.len() as int),
        k <= sv@.len(),
    ensures
        r@ == joined(components(v@).take(k as int)),
{
    let mut out = String::new();
    for i in 0..k
        invariant
            span_ints(sv@) == spans(v@),
            spans_inside(spans(v@), v@.len() as int),
            k <= sv@.len(),
            out@ == joined(components(v@).take(i as int)),
    {
        let ghost cs = components(v@).take(i + 1);
        let (from, to) = sv[i];
        assert(spans(v@)[i as int] == (from as int, to as int));
        assert(cs.last() == v@.subrange(from as int, to as int));
        assert(cs.drop_last() =~= components(v@).take(i as int));
        if i > 0 {
            let (first, first_end) = sv[0];
            assert(spans(v@)[0] == (first as int, first_end as int));
            assert(cs[0] == v@.subrange(first as int, first_end as int));
            let rooted: bool = first_end - first == 1 && v[first] == '/';
            assert(rooted == (cs[0] == seq!['/'])) by {
                if rooted {
                    assert(cs[0] =~= seq!['/']);
                } else if cs[0] == seq!['/'] {
                    assert(cs[0].len() == 1 && cs[0][0] == '/');
                }
            }
            if !(i == 1 && rooted) {
                out.push('/');
            }
            push_range(&mut out, v, from, to);
            assert(out@ =~= joined(cs)) by {
                if i == 1 {
                    assert(components(v@).take(1) =~= seq![cs[0]]);
                }
            }
        } else {
            push_range(&mut out, v, from, to);
            assert(out@ =~= joined(cs));
        }
    }
    out
}

/// The plainest text of a path.
pub fn normal_form(path: &str) -> (r: String)
    ensures
        r@ == normal(path@),
{
    let v = to_chars(path);
    let sv = find_spans(&v);
    assert(components(v@).take(sv@.len() as int) =~= components(v@));
    join_components(&v, &sv, sv.len())
}

/// The path without its last component, in its plainest text.
pub fn parent(path: &str) -> (r: Option<String>)
    ensures
        (match r {
            Some(p) => parent_of(path@) == Some(p@),
            None => parent_of(path@) is None,
        }),
{
    let v = to_chars(path);
    let sv = find_spans(&v);
    let n: usize = sv.len();
    if n == 0 {
        return None;
    }
    let (from, to) = sv[n - 1];
    let ghost c = components(v@).last();
    assert(spans(v@)[n - 1] == (from as int, to as int));
    assert(c == v@.subrange(from as int, to as int));
    if to - from == 1 && v[from] == '/' {
        assert(c =~= seq!['/']);
        return None;
    }
    assert(c != seq!['/']) by {
        if c == seq!['/'] {
            assert(c.len() == 1 && c[0] == '/');
        }
    }
    assert(components(v@).take(n - 1) =~= components(v@).drop_last());
    Some(join_components(&v, &sv, n - 1))
}

/// Where the file name of `v` starts and ends, if it has one.
fn name_span(v: &Vec<char>) -> (r: Option<(usize, usize)>)
    ensures
        (match r {
            Some(p) => p.0 <= p.1 <= v@.len() && name_of(v@) == Some(
                v@.subrange(p.0 as int, p.1 as int),
            ),
            None => name_of(v@) is None,
        }),
{
    let sv = find_spans(v);
    let n: usize = sv.len();
    if n == 0 {
        return None;
    }
    let (from, to) = sv[n - 1];
    let ghost c = components(v@).last();
    assert(spans(v@)[n - 1] == (from as int, to as int));
    assert(c == v@.subrange(from as int, to as int));
    let one: bool = to - from == 1 && (v[from] == '/' || v[from] == '.');
    let two: bool = to - from == 2 && v[from] == '.' && v[from + 1] == '.';
    assert(is_name(c) == !(one || two)) by {
        if to - from == 1 {
            assert(c =~= seq![v@[from as int]]);
            assert(c[0] == v@[from as int]);
            assert(c.len() == 1);
            assert(seq!['/'][0] == '/' && seq!['.'][0] == '.');
        } else if to - from == 2 {
            assert(c =~= seq![v@[from as int], v@[from + 1]]);
            assert(seq!['.', '.'][0] == '.' && seq!['.', '.'][1] == '.');
            assert(c[0] == v@[from as int] && c[1] == v@[from + 1]);
        } else {
            assert(c.len() != 1 && c.len() != 2);
        }
    }
    if one || two {
        None
    } else {
        Some((from, to))
    }
}

/// The position of the last `.` in `v[from..to]`, if there is one past `from`.
fn find_last_dot(v: &Vec<char>, from: usize, to: usize) -> (r: Option<usize>)
    requires
        from <= to <= v@.len(),
    ensures
        (match r {
            Some(k) => from < k < to && last_dot(v@.subrange(from as int, to as int)) == k - from,
            None => last_dot(v@.subrange(from as int, to as int)) <= 0,
        }),
{
    let mut k: usize = to;
    let ghost name = v@.subrange(from as int, to as int);
    assert(v@.subrange(from as int, k as int) =~= name);
    while k > from
        invariant
            from <= k <= to <= v@.len(),
            last_dot(name) == last_dot(v@.subrange(from as int, k as int)),
            name == v@.subrange(from as int, to as int),
        decreases k,
    {
        let ghost s = v@.subrange(from as int, k as int);
        assert(s.last() == v@[k - 1]);
        assert(s.drop_last() =~= v@.subrange(from as int, k - 1));
        k = k - 1;
        if v[k] == '.' {
            if k > from {
                return Some(k);
            }
            return None;
        }
    }
    None
}

/// What follows the last `.` of the file name, unless that `.` comes first.
pub fn extension(path: &str) -> (r: Option<String>)
    ensures
        (match r {
            Some(e) => extension_of(path@) == Some(e@),
            None => extension_of(path@) is None,
        }),
{
    let v = to_chars(path);
    match name_span(&v) {
        Some((from, to)) => match find_last_dot(&v, from, to) {
            Some(k) => {
                let ghost name = v@.subrange(from as int, to as int);
                assert(v@.subrange(k + 1, to as int) =~= name.skip(k - from + 1));
                Some(from_chars(&v, k + 1, to))
            },
            None => None,
        },
        None => None,
    }
}

/// The file name without its extension.
pub fn file_stem(path: &str) -> (r: Option<String>)
    ensures
        (match r {
            Some(e) => stem_of(path@) == Some(e@),
            None => stem_of(path@) is None,
        }),
{
    let v = to_chars(path);
    match name_span(&v) {
        Some((from, to)) => match find_last_dot(&v, from, to) {
            Some(k) => {
                let ghost name = v@.subrange(from as int, to as int);
                assert(v@.subrange(from as int, k as int) =~= name.take(k - from));
                Some(from_chars(&v, from, k))
            },
            None => Some(from_chars(&v, from, to)),
        },
        None => None,
    }
}

/// The text of `path` past the components of `base`, where `path` starts with
/// them.
pub fn strip_prefix(path: &str, base: &str) -> (r: Option<String>)
    ensures
        (match r {
            Some(t) => stripped(path@, base@) == Some(t@),
            None => stripped(path@, base@) is None,
        }),
{
    let v = to_chars(path);
    let w = to_chars(base);
    let sv = find_spans(&v);
    let sw = find_spans(&w);
    let n: usize = sv.len();
    let k: usize = sw.len();
    assert(components(v@).len() == n && components(w@).len() == k);
    if k > n || !same_components(&v, &sv, &w, &sw, k) {
        return None;
    }
    if k == n {
        let out = String::new();
        assert(out@ =~= Seq::<char>::empty());
        return Some(out);
    }
    proof {
        spans_bounds(v@);
    }
    assert(spans(v@)[k as int].0 == sv@[k as int].0 as int);
    assert(spans(v@)[n - 1].1 == sv@[n - 1].1 as int);
    assert(spans(v@)[k as int].0 < spans(v@)[n - 1].1 <= v@.len());
    Some(from_chars(&v, sv[k].0, sv[n - 1].1))
}

/// `rel` seen from `base`.
pub fn join(base: &str, rel: &str) -> (r: String)
    ensures
        r@ == child(base@, rel@),
{
    let b = to_chars(base);
    let r = to_chars(rel);
    let mut out = String::new();
    if !(r.len() > 0 && r[0] == '/') {
        out.append(base);
        if b.len() > 0 && b[b.len() - 1] != '/' {
            out.push('/');
        }
    }
    out.append(rel);
    assert(out@ =~= child(base@, rel@));
    out
}

/// Whether a text can name a file or a directory.
pub open spec fn can_be_name(name: Seq<char>) -> bool {
    &&& name.len() > 0
    &&& forall|i: int| 0 <= i < name.len() ==> name[i] != '/'
    &&& name != seq!['.']
    &&& name != seq!['.', '.']
}

proof fn names_are_parts(name: Seq<char>)
    requires
        can_be_name(name),
    ensures
        is_part(name),
        is_name(name),
{
    if name.contains('/') {
        let i = choose|i: int| 0 <= i < name.len() && name[i] == '/';
        assert(name[i] != '/');
    }
    if name == seq!['/'] {
        assert(name[0] == '/');
    }
}

/// A name that is appended to a path is its last part: the path has that file name, and
/// what was before it as its parent.
pub proof fn appended_name_is_last(dir: Seq<char>, name: Seq<char>)
    requires
        dir.len() > 0,
        can_be_name(name),
    ensures
        components(dir + seq!['/'] + name) == components(dir).push(name),
        name_of(dir + seq!['/'] + name) == Some(name),
        parent_of(dir + seq!['/'] + name) matches Some(up) && same(up, dir),
        name_of(name) == Some(name),
{
    names_are_parts(name);
    components_append(dir, name);
    let s = dir + seq!['/'] + name;
    assert(components(s).last() == name);
    assert(name != seq!['/']) by {
        if name == seq!['/'] {
            assert(name[0] == '/');
        }
    }
    parent_lacks_last_component(s);
    assert(components(s).drop_last() =~= components(dir));
    single_name(name);
}

/// Different names in a directory are different paths, and so are names in different
/// directories.
pub proof fn names_tell_paths_apart(a: Seq<char>, b: Seq<char>, x: Seq<char>, y: Seq<char>)
    requires
        a.len() > 0,
        b.len() > 0,
        can_be_name(x),
        can_be_name(y),
    ensures
        same(a + seq!['/'] + x, b + seq!['/'] + y) <==> same(a, b) && x == y,
{
    appended_name_is_last(a, x);
    appended_name_is_last(b, y);
    let cs = components(a).push(x);
    let ds = components(b).push(y);
    if cs == ds {
        assert(cs.last() == x && ds.last() == y);
        assert(cs.drop_last() =~= components(a));
        assert(ds.drop_last() =~= components(b));
    }
}

/// A separator at the end does not make another path.
pub proof fn trailing_separator_is_ignored(s: Seq<char>)
    requires
        s.len() > 0,
    ensures
        same(s.push('/'), s),
{
    let t = s.push('/');
    trailing_part_spans(s, 0);
    part_end_bounds(s, 0);
    assert(t[s.len() as int] == '/');
    part_end_is(t, 0, part_end(s, 0));
    assert(t.subrange(0, part_end(s, 0)) =~= s.subrange(0, part_end(s, 0)));
    assert(spans(t) =~= spans(s));
    spans_bounds(s);
    assert forall|j: int| 0 <= j < components(s).len() implies components(t)[j] == components(
        s,
    )[j] by {
        let p = spans(s)[j];
        assert(t.subrange(p.0, p.1) =~= s.subrange(p.0, p.1));
    }
    assert(components(t) =~= components(s));
}

proof fn trailing_part_spans(s: Seq<char>, i: int)
    requires
        0 <= i,
    ensures
        part_spans(s.push('/'), i) == part_spans(s, i),
    decreases s.len() + 1 - i,
{
    let t = s.push('/');
    if i < s.len() {
        part_end_bounds(s, i);
        let e = part_end(s, i);
        assert(t[s.len() as int] == '/');
        part_end_is(t, i, e);
        assert(t.subrange(i, e) =~= s.subrange(i, e));
        trailing_part_spans(s, e + 1);
    } else if i == s.len() {
        part_end_is(t, i, i);
        assert(t.subrange(i, i).len() == 0);
        assert(part_spans(t, i + 1) =~= Seq::<(int, int)>::empty());
    }
}

proof fn last_dot_is(stem: Seq<char>, ext: Seq<char>)
    requires
        forall|i: int| 0 <= i < ext.len() ==> ext[i] != '.',
    ensures
        last_dot(stem + seq!['.'] + ext) == stem.len(),
    decreases ext.len(),
{
    let s = stem + seq!['.'] + ext;
    if ext.len() == 0 {
        assert(s.last() == '.');
    } else {
        assert(s.last() == ext.last());
        assert(s.drop_last() =~= stem + seq!['.'] + ext.drop_last());
        last_dot_is(stem, ext.drop_last());
    }
}

proof fn no_last_dot(s: Seq<char>)
    requires
        forall|i: int| 0 < i < s.len() ==> s[i] != '.',
    ensures
        last_dot(s) <= 0,
    decreases s.len(),
{
    reveal_with_fuel(last_dot, 2);
    if s.len() > 1 {
        assert(s.last() == s[s.len() - 1]);
        no_last_dot(s.drop_last());
    }
}

/// The extension is what follows the last dot of the file name, and the stem what comes
/// before it; a name whose only dot is its first character has no extension.
pub proof fn extension_follows_the_last_dot(dir: Seq<char>, stem: Seq<char>, ext: Seq<char>)
    requires
        dir.len() > 0,
        stem.len() > 0,
        forall|i: int| 0 <= i < stem.len() ==> stem[i] != '/',
        forall|i: int| 0 <= i < ext.len() ==> ext[i] != '/' && ext[i] != '.',
        stem + seq!['.'] + ext != seq!['.', '.'],
    ensures
        ({
            let name = stem + seq!['.'] + ext;
            let path = dir + seq!['/'] + name;
            &&& extension_of(path) == Some(ext)
            &&& stem_of(path) == Some(stem)
            &&& extension_of(name) == Some(ext)
            &&& stem_of(name) == Some(stem)
        }),
{
    let name = stem + seq!['.'] + ext;
    assert forall|i: int| 0 <= i < name.len() implies name[i] != '/' by {
        if i > stem.len() {
            assert(name[i] == ext[i - stem.len() - 1]);
        }
    }
    assert(name.len() >= 2);
    appended_name_is_last(dir, name);
    last_dot_is(stem, ext);
    assert(name.skip(stem.len() as int + 1) =~= ext);
    assert(name.take(stem.len() as int) =~= stem);
}

/// A name without a dot, but for its first character, has no extension and is its own stem.
pub proof fn name_without_dot_has_no_extension(dir: Seq<char>, name: Seq<char>)
    requires
        dir.len() > 0,
        can_be_name(name),
        forall|i: int| 0 < i < name.len() ==> name[i] != '.',
    ensures
        extension_of(dir + seq!['/'] + name) is None,
        stem_of(dir + seq!['/'] + name) == Some(name),
        extension_of(name) is None,
{
    appended_name_is_last(dir, name);
    no_last_dot(name);
}

/// Where the parts of a text start and end that follows `by` other characters.
pub open spec fn shifted(sp: Seq<(int, int)>, by: int) -> Seq<(int, int)> {
    sp.map_values(|p: (int, int)| (p.0 + by, p.1 + by))
}

proof fn shift_parts(t: Seq<char>, u: Seq<char>, i: int)
    requires
        0 <= i,
    ensures
        part_spans(t + seq!['/'] + u, t.len() + 1 + i) == shifted(
            part_spans(u, i),
            t.len() as int + 1,
        ),
    decreases u.len() + 1 - i,
{
    let s = t + seq!['/'] + u;
    let by = t.len() as int + 1;
    if i < u.len() {
        part_end_bounds(u, i);
        let e = part_end(u, i);
        assert forall|j: int| by + i <= j < by + e implies s[j] != '/' by {
            assert(s[j] == u[j - by]);
        }
        if e < u.len() {
            assert(s[by + e] == u[e]);
        }
        part_end_is(s, by + i, by + e);
        assert(s.subrange(by + i, by + e) =~= u.subrange(i, e));
        shift_parts(t, u, e + 1);
        assert(by + e + 1 == t.len() + 1 + (e + 1));
        assert(part_spans(s, by + i) =~= shifted(part_spans(u, i), by));
    } else {
        assert(part_spans(s, by + i) =~= shifted(part_spans(u, i), by));
    }
}

proof fn parts_of_joined(t: Seq<char>, u: Seq<char>, i: int)
    requires
        0 <= i <= t.len() + 1,
    ensures
        part_spans(t + seq!['/'] + u, i) == part_spans(t, i) + shifted(
            part_spans(u, 0),
            t.len() as int + 1,
        ),
    decreases t.len() + 1 - i,
{
    let s = t + seq!['/'] + u;
    let tail = shifted(part_spans(u, 0), t.len() as int + 1);
    if i == t.len() + 1 {
        shift_parts(t, u, 0);
        assert(part_spans(t, i) =~= Seq::<(int, int)>::empty());
        assert(part_spans(t, i) + tail =~= tail);
    } else if i == t.len() {
        part_end_is(s, i, i);
        assert(s.subrange(i, i).len() == 0);
        parts_of_joined(t, u, i + 1);
        assert(part_spans(t, i) =~= Seq::<(int, int)>::empty());
        assert(part_spans(t, i + 1) =~= Seq::<(int, int)>::empty());
    } else {
        part_end_bounds(t, i);
        let e = part_end(t, i);
        assert(s[t.len() as int] == '/');
        part_end_is(s, i, e);
        assert(s.subrange(i, e) =~= t.subrange(i, e));
        parts_of_joined(t, u, e + 1);
        assert(part_spans(s, i) =~= part_spans(t, i) + tail);
    }
}

/// Whether a text is a plain relative path: its first and its last part name something.
pub open spec fn is_plain_relative(rel: Seq<char>) -> bool {
    let n = rel.len() as int;
    &&& n > 0
    &&& rel[0] != '/'
    &&& rel[n - 1] != '/'
    &&& !(rel[0] == '.' && (n == 1 || rel[1] == '/'))
    &&& !(rel[n - 1] == '.' && (n == 1 || rel[n - 2] == '/'))
}

/// A path below a root is, relative to that root, what follows it; the root itself is
/// nothing, and a path elsewhere stays whole.
pub proof fn path_below_root_is_the_rest(root: Seq<char>, rel: Seq<char>)
    requires
        root.len() > 0,
        is_plain_relative(rel),
    ensures
        stripped(root + seq!['/'] + rel, root) == Some(rel),
        stripped(root, root) == Some(Seq::<char>::empty()),
{
    let s = root + seq!['/'] + rel;
    let by = root.len() as int + 1;
    parts_of_joined(root, rel, 0);
    let sub = part_spans(rel, 0);
    let tail = shifted(sub, by);
    part_end_bounds(root, 0);
    assert(s[root.len() as int] == '/');
    part_end_is(s, 0, part_end(root, 0));
    assert(s.subrange(0, part_end(root, 0)) =~= root.subrange(0, part_end(root, 0)));
    assert(spans(s) =~= spans(root) + tail);
    plain_parts_reach_both_ends(rel);
    spans_bounds(root);
    let k = components(root).len() as int;
    let n = components(s).len() as int;
    assert(n == k + sub.len());
    assert forall|j: int| 0 <= j < k implies components(s)[j] == components(root)[j] by {
        let p = spans(root)[j];
        assert(spans(s)[j] == p);
        assert(s.subrange(p.0, p.1) =~= root.subrange(p.0, p.1));
    }
    assert(components(s).take(k) =~= components(root));
    assert(components(root).take(k) =~= components(root));
    assert(spans(s)[k] == tail[0]);
    assert(spans(s)[n - 1] == tail[sub.len() - 1]);
    assert(s.subrange(by, s.len() as int) =~= rel);
}

proof fn plain_parts_reach_both_ends(rel: Seq<char>)
    requires
        is_plain_relative(rel),
    ensures
        part_spans(rel, 0).len() > 0,
        part_spans(rel, 0)[0].0 == 0,
        part_spans(rel, 0).last().1 == rel.len(),
{
    part_end_bounds(rel, 0);
    let e = part_end(rel, 0);
    assert(e > 0) by {
        if e == 0 {
            assert(rel[0] == '/');
        }
    }
    let first = rel.subrange(0, e);
    if is_skipped(first) {
        assert(first[0] == '.');
        assert(first.len() == 1);
    }
    assert(part_spans(rel, 0)[0] == (0int, e));
    last_part_reaches_end(rel, 0);
}

proof fn last_part_reaches_end(rel: Seq<char>, i: int)
    requires
        is_plain_relative(rel),
        0 <= i < rel.len(),
        i == 0 || rel[i - 1] == '/',
    ensures
        part_spans(rel, i).len() > 0,
        part_spans(rel, i).last().1 == rel.len(),
    decreases rel.len() - i,
{
    part_end_bounds(rel, i);
    let e = part_end(rel, i);
    if e == rel.len() {
        let part = rel.subrange(i, e);
        if is_skipped(part) {
            assert(part.len() == 1 && part[0] == '.');
        }
        assert(part_spans(rel, e + 1) =~= Seq::<(int, int)>::empty());
        assert(part_spans(rel, i) =~= seq![(i, e)]);
    } else {
        assert(e + 1 < rel.len()) by {
            if e + 1 == rel.len() {
                assert(rel[rel.len() - 1] == '/');
            }
        }
        last_part_reaches_end(rel, e + 1);
    }
}

/// A path that does not begin with all parts of a root is not below it.
pub proof fn path_elsewhere_is_not_below(s: Seq<char>, root: Seq<char>)
    ensures
        stripped(s, root) is Some <==> components(root).len() <= components(s).len() && forall|j: int|
            0 <= j < components(root).len() ==> components(s)[j] == components(root)[j],
{
    let k = components(root).len() as int;
    if k <= components(s).len() {
        let front = components(s).take(k);
        if forall|j: int| 0 <= j < k ==> components(s)[j] == components(root)[j] {
            assert(front =~= components(root));
        }
        if front == components(root) {
            assert forall|j: int| 0 <= j < k implies components(s)[j] == components(root)[j] by {
                assert(front[j] == components(root)[j]);
            }
        }
    }
}

/// A name in a directory is put behind it with one separator between them, whether or not
/// the directory's text ends in one; an absolute path stands for itself.
pub proof fn child_is_put_behind(base: Seq<char>, rel: Seq<char>)
    requires
        rel.len() > 0,
    ensures
        rel[0] == '/' ==> child(base, rel) == rel,
        rel[0] != '/' && base.len() > 0 && base.last() != '/' ==> child(base, rel) == base + seq!['/']
            + rel,
        rel[0] != '/' && base.len() > 0 && base.last() == '/' ==> child(base, rel) == base + rel,
        rel[0] != '/' && base.len() == 0 ==> child(base, rel) == rel,
{
    if base.len() == 0 {
        assert(base + rel =~= rel);
    }
}

} // verus!
