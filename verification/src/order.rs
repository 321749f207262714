//! Ordering of route declarations by `(module path, line)`, as the route
//! table is listed: module paths compare character by character (the order
//! of `str`), then lines; declarations with equal keys keep their order.

use vstd::prelude::*;
use crate::route::RouteEntry;
use crate::text::chars_of;

verus! {

/// `a` comes before `b` in the order of strings: at the first differing
/// character the code point of `a` is smaller, or `a` is a proper prefix of `b`.
pub open spec fn text_less(a: Seq<char>, b: Seq<char>) -> bool
    decreases a.len(),
{
    if b.len() == 0 {
        false
    } else if a.len() == 0 {
        true
    } else if (a[0] as int) < (b[0] as int) {
        true
    } else if a[0] == b[0] {
        text_less(a.drop_first(), b.drop_first())
    } else {
        false
    }
}

/// The sort key of a declaration: module path, then line.
pub open spec fn entry_key(e: RouteEntry) -> (Seq<char>, u32) {
    (e.order.1@, e.order.0)
}

/// Key `a` comes strictly before key `b`.
pub open spec fn key_less(a: (Seq<char>, u32), b: (Seq<char>, u32)) -> bool {
    text_less(a.0, b.0) || (a.0 == b.0 && a.1 < b.1)
}

/// Declaration `i` is listed before declaration `j`: smaller key, or equal
/// keys and declared earlier.
pub open spec fn listed_before(es: Seq<RouteEntry>, i: int, j: int) -> bool {
    key_less(entry_key(es[i]), entry_key(es[j])) || (entry_key(es[i]) == entry_key(es[j]) && i < j)
}

/// `p` lists every declaration of `es` exactly once, in listing order.
pub open spec fn is_listing(es: Seq<RouteEntry>, p: Seq<usize>) -> bool {
    &&& p.len() == es.len()
    &&& forall|a: int| 0 <= a < p.len() ==> #[trigger] p[a] < es.len()
    &&& forall|a: int, b: int| 0 <= a < b < p.len() ==> listed_before(es, #[trigger] p[a] as int, #[trigger] p[b] as int)
}

pub proof fn lemma_text_less_irreflexive(a: Seq<char>)
    ensures
        !text_less(a, a),
    decreases a.len(),
{
    if a.len() > 0 {
        lemma_text_less_irreflexive(a.drop_first());
    }
}

pub proof fn lemma_text_less_asymmetric(a: Seq<char>, b: Seq<char>)
    ensures
        !(text_less(a, b) && text_less(b, a)),
    decreases a.len(),
{
    if a.len() > 0 && b.len() > 0 && a[0] == b[0] {
        lemma_text_less_asymmetric(a.drop_first(), b.drop_first());
    }
}

pub proof fn lemma_text_less_transitive(a: Seq<char>, b: Seq<char>, c: Seq<char>)
    requires
        text_less(a, b),
        text_less(b, c),
    ensures
        text_less(a, c),
    decreases a.len(),
{
    if a.len() > 0 && b.len() > 0 && c.len() > 0 && a[0] == b[0] && b[0] == c[0] {
        lemma_text_less_transitive(a.drop_first(), b.drop_first(), c.drop_first());
    }
}

pub proof fn lemma_text_less_total(a: Seq<char>, b: Seq<char>)
    ensures
        text_less(a, b) || text_less(b, a) || a == b,
    decreases a.len(),
{
    if a.len() > 0 && b.len() > 0 {
        if a[0] == b[0] {
            lemma_text_less_total(a.drop_first(), b.drop_first());
            if a.drop_first() == b.drop_first() {
                assert(a.len() == b.len()) by {
                    assert(a.drop_first().len() == b.drop_first().len());
                }
                assert(a =~= b) by {
                    assert forall|i: int| 0 <= i < a.len() implies a[i] == b[i] by {
                        if i > 0 {
                            assert(a[i] == a.drop_first()[i - 1]);
                            assert(b[i] == b.drop_first()[i - 1]);
                        }
                    }
                }
            }
        }
    } else if a.len() == 0 && b.len() == 0 {
        assert(a =~= b);
    }
}

/// Listing order is a strict total order on positions.
pub proof fn lemma_listed_before_order(es: Seq<RouteEntry>, i: int, j: int, k: int)
    ensures
        !listed_before(es, i, i),
        !(listed_before(es, i, j) && listed_before(es, j, i)),
        listed_before(es, i, j) && listed_before(es, j, k) ==> listed_before(es, i, k),
        i != j ==> listed_before(es, i, j) || listed_before(es, j, i),
{
    let (a, b, c) = (entry_key(es[i]), entry_key(es[j]), entry_key(es[k]));
    lemma_text_less_irreflexive(a.0);
    lemma_text_less_asymmetric(a.0, b.0);
    lemma_text_less_total(a.0, b.0);
    if text_less(a.0, b.0) && text_less(b.0, c.0) {
        lemma_text_less_transitive(a.0, b.0, c.0);
    }
}

/// The code point of a character.
fn code_of(c: char) -> (r: u32)
    ensures
        r as int == c as int,
{
    assert(0 <= c as int <= 0x10FFFF);
    c as u32
}

/// Whether `a` comes strictly before `b` in the order of strings.
pub fn text_lt(a: &str, b: &str) -> (r: bool)
    ensures
        r == text_less(a@, b@),
{
    let x = chars_of(a);
    let y = chars_of(b);
    let mut i: usize = 0;
    assert(x@.skip(0) == x@);
    assert(y@.skip(0) == y@);
    while i < x.len() && i < y.len() && x[i] == y[i]
        invariant
            i <= x.len(),
            i <= y.len(),
            x@ == a@,
            y@ == b@,
            text_less(x@, y@) == text_less(x@.skip(i as int), y@.skip(i as int)),
        decreases x.len() - i,
    {
        let ghost xs = x@.skip(i as int);
        let ghost ys = y@.skip(i as int);
        assert(xs.drop_first() =~= x@.skip(i + 1));
        assert(ys.drop_first() =~= y@.skip(i + 1));
        i = i + 1;
    }
    if i == y.len() {
        false
    } else if i == x.len() {
        true
    } else {
        code_of(x[i]) < code_of(y[i])
    }
}

/// Whether declaration `a` has a smaller key than declaration `b`.
fn entry_key_less(a: &RouteEntry, b: &RouteEntry) -> (r: bool)
    ensures
        r == key_less(entry_key(*a), entry_key(*b)),
{
    let ab = text_lt(a.order.1.as_str(), b.order.1.as_str());
    let ba = text_lt(b.order.1.as_str(), a.order.1.as_str());
    proof {
        lemma_text_less_asymmetric(a.order.1@, b.order.1@);
        if !ab && !ba {
            lemma_text_less_total(a.order.1@, b.order.1@);
        }
        if ba {
            lemma_text_less_irreflexive(a.order.1@);
        }
    }
    if ab {
        true
    } else if ba {
        false
    } else {
        a.order.0 < b.order.0
    }
}

/// The positions of `es` in listing order.
pub fn listing_order(es: &Vec<RouteEntry>) -> (r: Vec<usize>)
    ensures
        is_listing(es@, r@),
{
    let mut v: Vec<usize> = Vec::new();
    let mut i: usize = 0;
    while i < es.len()
        invariant
            i <= es.len(),
            v.len() == i,
            forall|a: int| 0 <= a < v.len() ==> #[trigger] v@[a] < i,
            forall|a: int, b: int| 0 <= a < b < v.len() ==> listed_before(es@, #[trigger] v@[a] as int, #[trigger] v@[b] as int),
        decreases es.len() - i,
    {
        // first position whose declaration has a larger key than declaration i
        let mut p: usize = 0;
        while p < v.len() && !entry_key_less(&es[i], &es[v[p]])
            invariant
                p <= v.len(),
                v.len() == i,
                i < es.len(),
                forall|a: int| 0 <= a < v.len() ==> #[trigger] v@[a] < i,
                forall|a: int| 0 <= a < p ==> !key_less(entry_key(es@[i as int]), entry_key(#[trigger] es@[v@[a] as int])),
            decreases v.len() - p,
        {
            p = p + 1;
        }
        let ghost old_v = v@;
        v.insert(p, i);
        proof {
            assert forall|a: int, b: int| 0 <= a < b < v.len() implies listed_before(es@, #[trigger] v@[a] as int, #[trigger] v@[b] as int) by {
                let x = v@[a] as int;
                let y = v@[b] as int;
                if b < p {
                    assert(x == old_v[a] && y == old_v[b]);
                } else if b == p {
                    assert(x == old_v[a]);
                    assert(!key_less(entry_key(es@[i as int]), entry_key(es@[x])));
                    lemma_listed_before_order(es@, x, i as int, i as int);
                    lemma_text_less_total(entry_key(es@[i as int]).0, entry_key(es@[x]).0);
                } else if a == p {
                    assert(y == old_v[b - 1]);
                    assert(key_less(entry_key(es@[i as int]), entry_key(es@[old_v[p as int] as int])));
                    if b - 1 > p {
                        assert(listed_before(es@, old_v[p as int] as int, y));
                        lemma_listed_before_order(es@, i as int, old_v[p as int] as int, y);
                        let (ki, kp, ky) = (entry_key(es@[i as int]), entry_key(es@[old_v[p as int] as int]), entry_key(es@[y]));
                        if text_less(ki.0, kp.0) && text_less(kp.0, ky.0) {
                            lemma_text_less_transitive(ki.0, kp.0, ky.0);
                        }
                    }
                } else if a < p {
                    assert(x == old_v[a] && y == old_v[b - 1]);
                } else {
                    assert(x == old_v[a - 1] && y == old_v[b - 1]);
                }
            }
        }
        i = i + 1;
    }
    v
}


/// Position `x` occurs in `p`.
pub open spec fn holds_position(p: Seq<usize>, x: int) -> bool {
    exists|a: int| 0 <= a < p.len() && p[a] as int == x
}

/// A sequence of `n` distinct positions below `n` holds every position below `n`.
proof fn lemma_cover(p: Seq<usize>, n: nat)
    requires
        p.len() == n,
        forall|a: int| 0 <= a < p.len() ==> #[trigger] p[a] < n,
        forall|a: int, b: int| 0 <= a < b < p.len() ==> #[trigger] p[a] != #[trigger] p[b],
    ensures
        forall|x: int| 0 <= x < n ==> #[trigger] holds_position(p, x),
{
    broadcast use vstd::set::group_set_axioms;
    broadcast use vstd::seq_lib::group_seq_properties;

    let q = p.map_values(|x: usize| x as int);
    assert(q.no_duplicates()) by {
        assert forall|a: int, b: int| 0 <= a < q.len() && 0 <= b < q.len() && a != b implies q[a] != q[b] by {
            if a < b {
                assert(p[a] != p[b]);
            } else {
                assert(p[b] != p[a]);
            }
        }
    }
    q.unique_seq_to_set();
    let r = vstd::set_lib::set_int_range(0, n as int);
    vstd::set_lib::lemma_int_range(0, n as int);
    assert(q.to_set().subset_of(r)) by {
        assert forall|x: int| q.to_set().contains(x) implies r.contains(x) by {
            let a = choose|a: int| 0 <= a < q.len() && q[a] == x;
            assert(p[a] < n);
        }
    }
    vstd::set_lib::lemma_subset_equality(q.to_set(), r);
    assert forall|x: int| 0 <= x < n implies #[trigger] holds_position(p, x) by {
        assert(r.contains(x));
        assert(q.to_set().contains(x));
        let a = choose|a: int| 0 <= a < q.len() && q[a] == x;
        assert(p[a] as int == x);
    }
}

/// There is one listing order: any two listings of the same declarations are equal.
pub proof fn lemma_listing_unique(es: Seq<RouteEntry>, p: Seq<usize>, q: Seq<usize>)
    requires
        is_listing(es, p),
        is_listing(es, q),
    ensures
        p == q,
{
    assert forall|a: int, b: int| 0 <= a < b < p.len() implies #[trigger] p[a] != #[trigger] p[b] by {
        lemma_listed_before_order(es, p[a] as int, p[a] as int, p[a] as int);
    }
    assert forall|a: int, b: int| 0 <= a < b < q.len() implies #[trigger] q[a] != #[trigger] q[b] by {
        lemma_listed_before_order(es, q[a] as int, q[a] as int, q[a] as int);
    }
    lemma_cover(q, es.len());
    if p != q {
        assert(exists|a: int| 0 <= a < p.len() && p[a] != q[a]) by {
            if !(exists|a: int| 0 <= a < p.len() && p[a] != q[a]) {
                assert(p =~= q);
            }
        }
        // the first position where they differ
        let a0 = choose|a: int| 0 <= a < p.len() && p[a] != q[a];
        let a = first_difference(p, q, a0);
        let x = p[a];
        let y = q[a];
        assert(holds_position(q, x as int));
        let b = choose|b: int| 0 <= b < q.len() && q[b] as int == x as int;
        if b < a {
            assert(p[b] == q[b]);
            assert(p[b] != p[a]);
        } else {
            assert(b > a);
            // in q, y comes before x; in p, x comes before y
            assert(listed_before(es, y as int, x as int));
            lemma_cover(p, es.len());
            assert(holds_position(p, y as int));
            let c = choose|c: int| 0 <= c < p.len() && p[c] as int == y as int;
            if c < a {
                assert(q[c] == p[c]);
                assert(q[c] != q[a]);
            } else {
                assert(c > a);
                assert(listed_before(es, x as int, y as int));
                lemma_listed_before_order(es, x as int, y as int, x as int);
            }
        }
    }
}

/// The first position at or below `a` where `p` and `q` differ.
proof fn first_difference(p: Seq<usize>, q: Seq<usize>, a: int) -> (r: int)
    requires
        p.len() == q.len(),
        0 <= a < p.len(),
        p[a] != q[a],
    ensures
        0 <= r <= a,
        p[r] != q[r],
        forall|j: int| 0 <= j < r ==> p[j] == q[j],
    decreases a,
{
    if exists|j: int| 0 <= j < a && p[j] != q[j] {
        let j = choose|j: int| 0 <= j < a && p[j] != q[j];
        first_difference(p, q, j)
    } else {
        a
    }
}

/// A listing holds each declaration at exactly one position.
pub proof fn lemma_listing_positions(es: Seq<RouteEntry>, p: Seq<usize>)
    requires
        is_listing(es, p),
    ensures
        forall|a: int, b: int| 0 <= a < b < p.len() ==> #[trigger] p[a] != #[trigger] p[b],
        forall|x: int| 0 <= x < es.len() ==> #[trigger] holds_position(p, x),
{
    assert forall|a: int, b: int| 0 <= a < b < p.len() implies #[trigger] p[a] != #[trigger] p[b] by {
        lemma_listed_before_order(es, p[a] as int, p[a] as int, p[a] as int);
    }
    lemma_cover(p, es.len());
}

/// The listing order of the declarations `es`.
pub open spec fn listing(es: Seq<RouteEntry>) -> Seq<usize> {
    choose|p: Seq<usize>| is_listing(es, p)
}

/// A listing order found is the listing order.
pub proof fn lemma_is_the_listing(es: Seq<RouteEntry>, p: Seq<usize>)
    requires
        is_listing(es, p),
    ensures
        listing(es) == p,
{
    let q = listing(es);
    assert(is_listing(es, q));
    lemma_listing_unique(es, p, q);
}

} // verus!
