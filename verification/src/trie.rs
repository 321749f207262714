//! Segment trie keyed by HTTP method. It has two duties: at registration it
//! detects a `(method, pattern)` registered twice, and at run time it finds
//! the registered pattern that a concrete URL matches, extracting parameter
//! values. Literal segments match exactly and are tried before a parameter
//! segment at the same position; `:id` and `{id}` are the same parameter
//! segment, and parameter segments at one position share a node whose name
//! is the one registered first.

use vstd::prelude::*;
use crate::text::{ascii_upper_text, is_ascii_text, chars_of, owned, string_of_range, to_uppercase, uppercase};

verus! {

broadcast use vstd::string::group_string_axioms;

// ---------------------------------------------------------------------------
// Splitting a path into segments
// ---------------------------------------------------------------------------

/// One step of the left-to-right scan that splits a path at `/`: the pieces
/// completed so far and the piece being read.
pub open spec fn split_step(st: (Seq<Seq<char>>, Seq<char>), c: char) -> (Seq<Seq<char>>, Seq<char>) {
    if c == '/' {
        (if st.1.len() > 0 { st.0.push(st.1) } else { st.0 }, Seq::<char>::empty())
    } else {
        (st.0, st.1.push(c))
    }
}

/// The scan of `s` from the left.
pub open spec fn split_scan(s: Seq<char>) -> (Seq<Seq<char>>, Seq<char>)
    decreases s.len(),
{
    if s.len() == 0 {
        (Seq::<Seq<char>>::empty(), Seq::<char>::empty())
    } else {
        split_step(split_scan(s.drop_last()), s.last())
    }
}

/// The non-empty pieces of `s` between `/` characters, in order
/// (`s.split('/')` without its empty pieces).
pub open spec fn path_pieces(s: Seq<char>) -> Seq<Seq<char>> {
    let st = split_scan(s);
    if st.1.len() > 0 {
        st.0.push(st.1)
    } else {
        st.0
    }
}

proof fn lemma_scan_pieces_nonempty(s: Seq<char>)
    ensures
        forall|i: int| 0 <= i < split_scan(s).0.len() ==> #[trigger] split_scan(s).0[i].len() > 0,
    decreases s.len(),
{
    if s.len() > 0 {
        lemma_scan_pieces_nonempty(s.drop_last());
        let prev = split_scan(s.drop_last());
        assert(split_scan(s) == split_step(prev, s.last()));
        assert forall|i: int| 0 <= i < split_scan(s).0.len() implies #[trigger] split_scan(s).0[i].len() > 0 by {
            if i < prev.0.len() {
                assert(prev.0[i].len() > 0);
            }
        }
    }
}

/// Every piece of a path is non-empty.
pub proof fn lemma_pieces_nonempty(s: Seq<char>)
    ensures
        forall|i: int| 0 <= i < path_pieces(s).len() ==> #[trigger] path_pieces(s)[i].len() > 0,
{
    lemma_scan_pieces_nonempty(s);
}

/// The non-empty pieces of `s` between `/` characters, in order.
pub fn split_path(s: &str) -> (r: Vec<String>)
    ensures
        r.len() == path_pieces(s@).len(),
        forall|i: int| 0 <= i < r.len() ==> #[trigger] r[i]@ == path_pieces(s@)[i],
{
    let cs = chars_of(s);
    let mut done: Vec<String> = Vec::new();
    let mut cur: Vec<char> = Vec::new();
    let mut i: usize = 0;
    while i < cs.len()
        invariant
            i <= cs.len(),
            cs@ == s@,
            done.len() == split_scan(s@.take(i as int)).0.len(),
            forall|j: int| 0 <= j < done.len() ==> #[trigger] done[j]@ == split_scan(s@.take(i as int)).0[j],
            cur@ == split_scan(s@.take(i as int)).1,
        decreases cs.len() - i,
    {
        assert(s@.take(i + 1).drop_last() == s@.take(i as int));
        let c = cs[i];
        if c == '/' {
            if cur.len() > 0 {
                let piece = string_of_range(&cur, 0, cur.len());
                assert(cur@.subrange(0, cur@.len() as int) == cur@);
                done.push(piece);
            }
            cur = Vec::new();
        } else {
            cur.push(c);
        }
        i = i + 1;
    }
    assert(s@.take(cs.len() as int) == s@);
    if cur.len() > 0 {
        let piece = string_of_range(&cur, 0, cur.len());
        assert(cur@.subrange(0, cur@.len() as int) == cur@);
        done.push(piece);
    }
    done
}

// ---------------------------------------------------------------------------
// Pattern segments
// ---------------------------------------------------------------------------

/// A segment of a registered pattern: literal text, or a parameter with its name.
pub enum Segment {
    Literal(String),
    Param(String),
}

/// A pattern segment as a value.
pub enum PatSeg {
    Literal(Seq<char>),
    Param(Seq<char>),
}

/// The part of a pattern segment that decides which node it leads to:
/// literal text, or "some parameter" whatever its name.
pub enum Key {
    Lit(Seq<char>),
    Param,
}

impl PatSeg {
    pub open spec fn key(self) -> Key {
        match self {
            PatSeg::Literal(s) => Key::Lit(s),
            PatSeg::Param(_) => Key::Param,
        }
    }
}

impl View for Segment {
    type V = PatSeg;

    open spec fn view(&self) -> PatSeg {
        match self {
            Segment::Literal(s) => PatSeg::Literal(s@),
            Segment::Param(s) => PatSeg::Param(s@),
        }
    }
}

/// How a piece of a pattern reads: `:name` and `{name}` are parameters
/// (`{name` without the closing brace too); anything else is literal.
pub open spec fn classify(p: Seq<char>) -> PatSeg {
    if p.len() > 0 && p[0] == ':' {
        PatSeg::Param(p.drop_first())
    } else if p.len() > 0 && p[0] == '{' {
        let inner = p.drop_first();
        if inner.len() > 0 && inner.last() == '}' {
            PatSeg::Param(inner.drop_last())
        } else {
            PatSeg::Param(inner)
        }
    } else {
        PatSeg::Literal(p)
    }
}

/// The segments of a registered pattern.
pub open spec fn pattern_segments(path: Seq<char>) -> Seq<PatSeg> {
    path_pieces(path).map_values(|p: Seq<char>| classify(p))
}

/// The keys of a sequence of segments.
pub open spec fn keys_of(segs: Seq<PatSeg>) -> Seq<Key> {
    segs.map_values(|s: PatSeg| s.key())
}

/// The keys of a registered pattern: the nodes it leads to.
pub open spec fn pattern_keys(path: Seq<char>) -> Seq<Key> {
    keys_of(pattern_segments(path))
}

/// Reads one piece of a pattern.
fn classify_piece(piece: &String) -> (r: Segment)
    ensures
        r@ == classify(piece@),
{
    let cs = chars_of(piece.as_str());
    let n = cs.len();
    if n > 0 && cs[0] == ':' {
        let name = string_of_range(&cs, 1, n);
        assert(cs@.subrange(1, n as int) == cs@.drop_first());
        Segment::Param(name)
    } else if n > 0 && cs[0] == '{' {
        if n > 1 && cs[n - 1] == '}' {
            let name = string_of_range(&cs, 1, n - 1);
            assert(cs@.subrange(1, n - 1) == cs@.drop_first().drop_last());
            Segment::Param(name)
        } else {
            let name = string_of_range(&cs, 1, n);
            assert(cs@.subrange(1, n as int) == cs@.drop_first());
            Segment::Param(name)
        }
    } else {
        Segment::Literal(piece.clone())
    }
}

/// Splits a pattern at `/` and reads each non-empty piece: `:x` and `{x}`
/// are parameter segments, anything else is a literal segment.
pub fn parse(path: &str) -> (r: Vec<Segment>)
    ensures
        seg_views(r@) == pattern_segments(path@),
{
    let pieces = split_path(path);
    let mut r: Vec<Segment> = Vec::new();
    let mut i: usize = 0;
    while i < pieces.len()
        invariant
            i <= pieces.len(),
            pieces.len() == path_pieces(path@).len(),
            forall|j: int| 0 <= j < pieces.len() ==> #[trigger] pieces[j]@ == path_pieces(path@)[j],
            r.len() == i,
            forall|j: int| 0 <= j < i ==> #[trigger] r[j]@ == classify(path_pieces(path@)[j]),
        decreases pieces.len() - i,
    {
        let s = classify_piece(&pieces[i]);
        r.push(s);
        i = i + 1;
    }
    assert(seg_views(r@) =~= pattern_segments(path@));
    r
}


// ---------------------------------------------------------------------------
// Keyed child lists
// ---------------------------------------------------------------------------

/// `i` is the first position of `s` whose key is `k`.
pub open spec fn is_first_key<N>(s: Seq<(String, N)>, k: Seq<char>, i: int) -> bool {
    &&& 0 <= i < s.len()
    &&& s[i].0@ == k
    &&& forall|j: int| 0 <= j < i ==> s[j].0@ != k
}

/// The first position of `s` whose key is `k`, if any.
pub open spec fn key_index<N>(s: Seq<(String, N)>, k: Seq<char>) -> Option<int> {
    if exists|i: int| is_first_key(s, k, i) {
        Some(choose|i: int| is_first_key(s, k, i))
    } else {
        None
    }
}

proof fn lemma_first_key<N>(s: Seq<(String, N)>, k: Seq<char>, i: int)
    requires
        is_first_key(s, k, i),
    ensures
        key_index(s, k) == Some(i),
{
    let c = choose|c: int| is_first_key(s, k, c);
    assert(is_first_key(s, k, c));
    if c < i {
        assert(s[c].0@ != k);
    } else if c > i {
        assert(s[i].0@ != k);
    }
}

proof fn lemma_no_key<N>(s: Seq<(String, N)>, k: Seq<char>)
    requires
        forall|j: int| 0 <= j < s.len() ==> s[j].0@ != k,
    ensures
        key_index(s, k) is None,
{
    if exists|i: int| is_first_key(s, k, i) {
        let i = choose|i: int| is_first_key(s, k, i);
        assert(s[i].0@ == k);
    }
}

/// Two lists with the same keys at the same positions find a key at the same position.
proof fn lemma_same_keys<N>(s: Seq<(String, N)>, t: Seq<(String, N)>, k: Seq<char>)
    requires
        s.len() == t.len(),
        forall|j: int| 0 <= j < s.len() ==> #[trigger] s[j].0@ == t[j].0@,
    ensures
        key_index(s, k) == key_index(t, k),
{
    if exists|i: int| is_first_key(s, k, i) {
        let i = choose|i: int| is_first_key(s, k, i);
        assert forall|j: int| 0 <= j < i implies t[j].0@ != k by {
            assert(s[j].0@ == t[j].0@);
        }
        assert(is_first_key(t, k, i));
        lemma_first_key(s, k, i);
        lemma_first_key(t, k, i);
    } else if exists|i: int| is_first_key(t, k, i) {
        let i = choose|i: int| is_first_key(t, k, i);
        assert forall|j: int| 0 <= j < i implies s[j].0@ != k by {
            assert(s[j].0@ == t[j].0@);
        }
        assert(is_first_key(s, k, i));
    }
}

/// Appending an entry whose key is not `k` does not move where `k` is found.
proof fn lemma_push_other_key<N>(s: Seq<(String, N)>, x: (String, N), k: Seq<char>)
    requires
        x.0@ != k,
    ensures
        key_index(s.push(x), k) == key_index(s, k),
{
    let t = s.push(x);
    if exists|i: int| is_first_key(s, k, i) {
        let i = choose|i: int| is_first_key(s, k, i);
        assert forall|j: int| 0 <= j < i implies t[j].0@ != k by {
            assert(t[j] == s[j]);
        }
        assert(is_first_key(t, k, i));
        lemma_first_key(s, k, i);
        lemma_first_key(t, k, i);
    } else if exists|i: int| is_first_key(t, k, i) {
        let i = choose|i: int| is_first_key(t, k, i);
        assert(i < s.len());
        assert forall|j: int| 0 <= j < i implies s[j].0@ != k by {
            assert(t[j] == s[j]);
        }
        assert(is_first_key(s, k, i));
    }
}

/// Finds the first entry of `v` whose key is `key`.
fn find_child<N>(v: &Vec<(String, N)>, key: &String) -> (r: Option<usize>)
    ensures
        key_index(v@, key@) == (match r {
            Some(i) => Some(i as int),
            None => None,
        }),
        r is None ==> forall|j: int| 0 <= j < v@.len() ==> v@[j].0@ != key@,
{
    let mut i: usize = 0;
    while i < v.len()
        invariant
            i <= v.len(),
            forall|j: int| 0 <= j < i ==> v@[j].0@ != key@,
        decreases v.len() - i,
    {
        if v[i].0 == *key {
            proof {
                lemma_first_key(v@, key@, i as int);
            }
            return Some(i);
        }
        i = i + 1;
    }
    proof {
        lemma_no_key(v@, key@);
    }
    None
}

// ---------------------------------------------------------------------------
// Nodes
// ---------------------------------------------------------------------------

/// A node of the trie: literal children by their text, at most one
/// parameter child with the name it was first registered under, and the
/// value of the route that ends here, if any.
pub struct Node<T> {
    children: Vec<(String, Node<T>)>,
    param_child: Option<(String, Box<Node<T>>)>,
    terminal: Option<T>,
}

/// No two entries of `s` have the same key.
pub open spec fn keys_unique<N>(s: Seq<(String, N)>) -> bool {
    forall|a: int, b: int| 0 <= a < b < s.len() ==> #[trigger] s[a].0@ != #[trigger] s[b].0@
}

/// Every node below `n`, itself included, has distinct literal keys.
pub closed spec fn node_wf<T>(n: Node<T>) -> bool
    decreases n,
{
    &&& keys_unique(n.children@)
    &&& forall|j: int| 0 <= j < n.children@.len() ==> node_wf(#[trigger] n.children@[j].1)
    &&& match n.param_child {
        Some(p) => node_wf(*p.1),
        None => true,
    }
}

/// The child that key `k` leads to.
pub closed spec fn child_of<T>(n: Node<T>, k: Key) -> Option<Node<T>> {
    match k {
        Key::Lit(s) => match key_index(n.children@, s) {
            Some(i) => Some(n.children@[i].1),
            None => None,
        },
        Key::Param => match n.param_child {
            Some(p) => Some(*p.1),
            None => None,
        },
    }
}

/// The node that the keys `ks` lead to from `n`.
pub closed spec fn descend<T>(n: Node<T>, ks: Seq<Key>) -> Option<Node<T>>
    decreases ks.len(),
{
    if ks.len() == 0 {
        Some(n)
    } else {
        match child_of(n, ks[0]) {
            Some(c) => descend(c, ks.drop_first()),
            None => None,
        }
    }
}

/// The value of the route that ends at keys `ks` below `n`.
pub closed spec fn node_terminal<T>(n: Node<T>, ks: Seq<Key>) -> Option<T> {
    match descend(n, ks) {
        Some(d) => d.terminal,
        None => None,
    }
}

/// The name of the parameter child of the node at keys `ks` below `n`.
pub closed spec fn node_param_name<T>(n: Node<T>, ks: Seq<Key>) -> Option<Seq<char>> {
    match descend(n, ks) {
        Some(d) => match d.param_child {
            Some(p) => Some(p.0@),
            None => None,
        },
        None => None,
    }
}

/// The name that a parameter child at keys `ks` has after registering
/// the pattern `segs` (from the same node), given the name `before`:
/// the first registration at a position names it.
pub open spec fn name_after_insert(before: Option<Seq<char>>, ks: Seq<Key>, segs: Seq<PatSeg>) -> Option<Seq<char>> {
    if ks.len() < segs.len() && ks == keys_of(segs).take(ks.len() as int) && segs[ks.len() as int] is Param
        && before is None {
        Some(segs[ks.len() as int]->Param_0)
    } else {
        before
    }
}

/// The segments of a vector of segments, as values.
pub open spec fn seg_views(s: Seq<Segment>) -> Seq<PatSeg> {
    s.map_values(|x: Segment| x@)
}

proof fn lemma_descend_cons<T>(n: Node<T>, ks: Seq<Key>)
    requires
        ks.len() > 0,
    ensures
        node_terminal(n, ks) == (match child_of(n, ks[0]) {
            Some(c) => node_terminal(c, ks.drop_first()),
            None => None,
        }),
        node_param_name(n, ks) == (match child_of(n, ks[0]) {
            Some(c) => node_param_name(c, ks.drop_first()),
            None => None,
        }),
{
}

proof fn lemma_empty_node<T>(n: Node<T>)
    requires
        n.children@.len() == 0,
        n.param_child is None,
        n.terminal is None,
    ensures
        forall|ks: Seq<Key>| #[trigger] node_terminal(n, ks) is None,
        forall|ks: Seq<Key>| #[trigger] node_param_name(n, ks) is None,
{
    assert forall|ks: Seq<Key>| #[trigger] node_terminal(n, ks) is None by {
        if ks.len() > 0 {
            lemma_descend_cons(n, ks);
            if let Key::Lit(s) = ks[0] {
                lemma_no_key(n.children@, s);
            }
        }
    }
    assert forall|ks: Seq<Key>| #[trigger] node_param_name(n, ks) is None by {
        if ks.len() > 0 {
            lemma_descend_cons(n, ks);
            if let Key::Lit(s) = ks[0] {
                lemma_no_key(n.children@, s);
            }
        }
    }
}

impl<T> Node<T> {
    fn empty() -> (r: Node<T>)
        ensures
            r.children@.len() == 0,
            r.param_child is None,
            r.terminal is None,
    {
        Node { children: Vec::new(), param_child: None, terminal: None }
    }
}


proof fn lemma_cons_eq<A>(a: Seq<A>, b: Seq<A>)
    requires
        a.len() > 0,
        b.len() > 0,
        a[0] == b[0],
        a.drop_first() == b.drop_first(),
    ensures
        a == b,
{
    assert(a.len() == a.drop_first().len() + 1);
    assert(b.len() == b.drop_first().len() + 1);
    assert forall|i: int| 0 <= i < a.len() implies a[i] == b[i] by {
        if i > 0 {
            assert(a[i] == a.drop_first()[i - 1]);
            assert(b[i] == b.drop_first()[i - 1]);
        }
    }
    assert(a =~= b);
}

proof fn lemma_name_after_cons(before: Option<Seq<char>>, ks: Seq<Key>, sv: Seq<PatSeg>)
    requires
        ks.len() > 0,
        sv.len() > 0,
        ks[0] == sv[0].key(),
    ensures
        name_after_insert(before, ks, sv) == name_after_insert(before, ks.drop_first(), sv.drop_first()),
{
    let n = ks.len() - 1;
    let tail = ks.drop_first();
    let st = sv.drop_first();
    assert(keys_of(st) =~= keys_of(sv).drop_first());
    if ks.len() < sv.len() {
        assert(sv[ks.len() as int] == st[tail.len() as int]);
        if ks == keys_of(sv).take(ks.len() as int) {
            assert(tail =~= keys_of(st).take(tail.len() as int));
        }
        if tail == keys_of(st).take(tail.len() as int) {
            let b = keys_of(sv).take(ks.len() as int);
            assert(b.drop_first() =~= keys_of(st).take(tail.len() as int));
            lemma_cons_eq(ks, b);
        }
    }
}

proof fn lemma_name_after_diff(before: Option<Seq<char>>, ks: Seq<Key>, sv: Seq<PatSeg>)
    requires
        ks.len() > 0,
        sv.len() > 0,
        ks[0] != sv[0].key(),
    ensures
        name_after_insert(before, ks, sv) == before,
{
    if ks.len() < sv.len() && ks == keys_of(sv).take(ks.len() as int) {
        assert(ks[0] == keys_of(sv).take(ks.len() as int)[0]);
    }
}

/// Registering the rest of a pattern below the child that its first key
/// leads to, and changing nothing else, registers the pattern below `n0`:
/// `n1` is `n0` with that child replaced by `c1`.
proof fn lemma_insert_below<T>(n0: Node<T>, n1: Node<T>, c1: Node<T>, kk: Seq<Key>, sv: Seq<PatSeg>, value: T)
    requires
        kk.len() > 0,
        kk == keys_of(sv),
        child_of(n1, kk[0]) == Some(c1),
        forall|k: Key| k != kk[0] ==> #[trigger] child_of(n1, k) == child_of(n0, k),
        n1.terminal == n0.terminal,
        node_param_name(n1, Seq::empty()) == name_after_insert(node_param_name(n0, Seq::empty()), Seq::empty(), sv),
        forall|ks: Seq<Key>| #[trigger] node_terminal(c1, ks) == (if ks == kk.drop_first() {
            Some(value)
        } else {
            match child_of(n0, kk[0]) {
                Some(c0) => node_terminal(c0, ks),
                None => None,
            }
        }),
        forall|ks: Seq<Key>| #[trigger] node_param_name(c1, ks) == name_after_insert(
            match child_of(n0, kk[0]) {
                Some(c0) => node_param_name(c0, ks),
                None => None,
            },
            ks,
            sv.drop_first(),
        ),
    ensures
        forall|ks: Seq<Key>| #[trigger] node_terminal(n1, ks) == (if ks == kk {
            Some(value)
        } else {
            node_terminal(n0, ks)
        }),
        forall|ks: Seq<Key>| #[trigger] node_param_name(n1, ks) == name_after_insert(node_param_name(n0, ks), ks, sv),
{
    assert(sv.len() == kk.len());
    assert(kk[0] == sv[0].key());
    assert(keys_of(sv.drop_first()) =~= kk.drop_first());
    assert forall|ks: Seq<Key>|
        #![trigger node_terminal(n1, ks)]
        #![trigger node_param_name(n1, ks)]
        node_terminal(n1, ks) == (if ks == kk {
            Some(value)
        } else {
            node_terminal(n0, ks)
        }) && node_param_name(n1, ks) == name_after_insert(node_param_name(n0, ks), ks, sv) by {
        if ks.len() == 0 {
            assert(ks != kk);
            assert(ks =~= Seq::<Key>::empty());
        } else {
            lemma_descend_cons(n1, ks);
            lemma_descend_cons(n0, ks);
            if ks[0] == kk[0] {
                lemma_name_after_cons(node_param_name(n0, ks), ks, sv);
                if ks.drop_first() == kk.drop_first() {
                    lemma_cons_eq(ks, kk);
                }
            } else {
                lemma_name_after_diff(node_param_name(n0, ks), ks, sv);
            }
        }
    }
}

/// Registers the rest of a pattern, `segs[pos..]`, below `node`.
fn insert_node<T>(node: &mut Node<T>, segs: &Vec<Segment>, pos: usize, value: T)
    requires
        pos <= segs.len(),
        node_wf(*old(node)),
        node_terminal(*old(node), keys_of(seg_views(segs@)).skip(pos as int)) is None,
    ensures
        node_wf(*final(node)),
        forall|ks: Seq<Key>| #[trigger] node_terminal(*final(node), ks) == (if ks == keys_of(seg_views(segs@)).skip(pos as int) {
            Some(value)
        } else {
            node_terminal(*old(node), ks)
        }),
        forall|ks: Seq<Key>| #[trigger] node_param_name(*final(node), ks) == name_after_insert(
            node_param_name(*old(node), ks),
            ks,
            seg_views(segs@).skip(pos as int),
        ),
    decreases segs.len() - pos,
{
    let ghost n0 = *node;
    let ghost sv = seg_views(segs@).skip(pos as int);
    let ghost kk = keys_of(seg_views(segs@)).skip(pos as int);
    assert(keys_of(sv) =~= kk);
    if pos == segs.len() {
        node.terminal = Some(value);
        proof {
            assert(node.children == n0.children && node.param_child == n0.param_child);
            assert(node_wf(*node));
            assert(kk.len() == 0);
            assert forall|ks: Seq<Key>|
                #![trigger node_terminal(*node, ks)]
                #![trigger node_param_name(*node, ks)]
                node_terminal(*node, ks) == (if ks == kk {
                    Some(value)
                } else {
                    node_terminal(n0, ks)
                }) && node_param_name(*node, ks) == name_after_insert(node_param_name(n0, ks), ks, sv) by {
                if ks.len() > 0 {
                    lemma_descend_cons(*node, ks);
                    lemma_descend_cons(n0, ks);
                    assert(child_of(*node, ks[0]) == child_of(n0, ks[0]));
                } else {
                    assert(ks =~= kk);
                }
            }
        }
        return;
    }
    assert(sv[0] == segs@[pos as int]@);
    assert(kk[0] == sv[0].key());
    assert(kk.drop_first() =~= keys_of(seg_views(segs@)).skip(pos + 1));
    assert(sv.drop_first() =~= seg_views(segs@).skip(pos + 1));
    match &segs[pos] {
        Segment::Literal(lit) => {
            let found = find_child(&node.children, lit);
            match found {
                Some(i) => {
                    let (k, mut child) = node.children.remove(i);
                    let ghost c0 = child;
                    proof {
                        assert(c0 == n0.children@[i as int].1);
                        assert(child_of(n0, Key::Lit(lit@)) == Some(c0));
                        lemma_descend_cons(n0, kk);
                    }
                    insert_node(&mut child, segs, pos + 1, value);
                    let ghost c1 = child;
                    node.children.insert(i, (k, child));
                    proof {
                        assert(node.children@ =~= n0.children@.update(i as int, (k, c1)));
                        assert forall|j: int| 0 <= j < node.children@.len() implies #[trigger] node.children@[j].0@
                            == n0.children@[j].0@ by {}
                        assert forall|a: int, b: int| 0 <= a < b < node.children@.len() implies #[trigger] node.children@[a].0@
                            != #[trigger] node.children@[b].0@ by {
                            assert(n0.children@[a].0@ != n0.children@[b].0@);
                        }
                        assert forall|j: int| 0 <= j < node.children@.len() implies node_wf(#[trigger] node.children@[j].1) by {
                            if j != i {
                                assert(node.children@[j] == n0.children@[j]);
                            }
                        }
                        assert(node_wf(*node));
                        lemma_same_keys(node.children@, n0.children@, lit@);
                        assert(child_of(*node, Key::Lit(lit@)) == Some(c1));
                        assert forall|kx: Key| kx != kk[0] implies #[trigger] child_of(*node, kx) == child_of(n0, kx) by {
                            if let Key::Lit(s) = kx {
                                lemma_same_keys(node.children@, n0.children@, s);
                                if let Some(j) = key_index(n0.children@, s) {
                                    assert(is_first_key(n0.children@, s, j));
                                    assert(j != i);
                                }
                            }
                        }
                        lemma_insert_below(n0, *node, c1, kk, sv, value);
                    }
                },
                None => {
                    let mut child = Node::empty();
                    let ghost c0 = child;
                    proof {
                        lemma_empty_node(c0);
                    }
                    insert_node(&mut child, segs, pos + 1, value);
                    let ghost c1 = child;
                    let key = lit.clone();
                    node.children.push((key, child));
                    proof {
                        assert forall|a: int, b: int| 0 <= a < b < node.children@.len() implies #[trigger] node.children@[a].0@
                            != #[trigger] node.children@[b].0@ by {
                            if b < n0.children@.len() {
                                assert(n0.children@[a].0@ != n0.children@[b].0@);
                            } else {
                                assert(n0.children@[a].0@ != lit@);
                            }
                        }
                        assert forall|j: int| 0 <= j < node.children@.len() implies node_wf(#[trigger] node.children@[j].1) by {
                            if j < n0.children@.len() {
                                assert(node.children@[j] == n0.children@[j]);
                            }
                        }
                        assert(node_wf(*node));
                        assert(node.children@ == n0.children@.push((key, c1)));
                        assert(is_first_key(node.children@, lit@, n0.children@.len() as int));
                        lemma_first_key(node.children@, lit@, n0.children@.len() as int);
                        assert(child_of(*node, Key::Lit(lit@)) == Some(c1));
                        assert(child_of(n0, Key::Lit(lit@)) is None);
                        assert forall|kx: Key| kx != kk[0] implies #[trigger] child_of(*node, kx) == child_of(n0, kx) by {
                            if let Key::Lit(s) = kx {
                                lemma_push_other_key(n0.children@, (key, c1), s);
                                if let Some(j) = key_index(n0.children@, s) {
                                    assert(is_first_key(n0.children@, s, j));
                                }
                            }
                        }
                        lemma_insert_below(n0, *node, c1, kk, sv, value);
                    }
                },
            }
        },
        Segment::Param(name) => {
            let taken = node.param_child.take();
            match taken {
                Some(p) => {
                    let (pn, mut b) = p;
                    let ghost c0 = *b;
                    proof {
                        assert(child_of(n0, Key::Param) == Some(c0));
                        lemma_descend_cons(n0, kk);
                    }
                    insert_node(&mut *b, segs, pos + 1, value);
                    let ghost c1 = *b;
                    node.param_child = Some((pn, b));
                    proof {
                        assert(node.children == n0.children);
                        assert(node_wf(*node));
                        assert(child_of(*node, Key::Param) == Some(c1));
                        assert forall|kx: Key| kx != kk[0] implies #[trigger] child_of(*node, kx) == child_of(n0, kx) by {}
                        lemma_insert_below(n0, *node, c1, kk, sv, value);
                    }
                },
                None => {
                    let mut b = Box::new(Node::empty());
                    let ghost c0 = *b;
                    proof {
                        lemma_empty_node(c0);
                    }
                    insert_node(&mut *b, segs, pos + 1, value);
                    let ghost c1 = *b;
                    let pn = name.clone();
                    node.param_child = Some((pn, b));
                    proof {
                        assert(node.children == n0.children);
                        assert(node_wf(*node));
                        assert(child_of(*node, Key::Param) == Some(c1));
                        assert(child_of(n0, Key::Param) is None);
                        assert(Seq::<Key>::empty() =~= keys_of(sv).take(0));
                        assert forall|kx: Key| kx != kk[0] implies #[trigger] child_of(*node, kx) == child_of(n0, kx) by {}
                        lemma_insert_below(n0, *node, c1, kk, sv, value);
                    }
                },
            }
        },
    }
}


// ---------------------------------------------------------------------------
// Matching a URL
// ---------------------------------------------------------------------------

/// The pattern keys `k` match the URL pieces `u`: same length, and each key
/// is a parameter or the literal text of the piece at its position.
pub open spec fn key_matches(k: Seq<Key>, u: Seq<Seq<char>>) -> bool {
    &&& k.len() == u.len()
    &&& forall|i: int| 0 <= i < k.len() ==> (#[trigger] k[i] is Param || k[i] == Key::Lit(u[i]))
}

/// `a` comes strictly before `b` in matching priority: at the first position
/// where they differ, `a` has a literal and `b` a parameter.
pub open spec fn preferred(a: Seq<Key>, b: Seq<Key>) -> bool
    decreases a.len(),
{
    if a.len() == 0 || b.len() == 0 {
        false
    } else if a[0] is Lit && b[0] is Param {
        true
    } else if a[0] == b[0] {
        preferred(a.drop_first(), b.drop_first())
    } else {
        false
    }
}

/// The views of a sequence of strings.
pub open spec fn strs(s: Seq<String>) -> Seq<Seq<char>> {
    s.map_values(|x: String| x@)
}

/// The views of a sequence of pairs of strings.
pub open spec fn pairs(s: Seq<(String, String)>) -> Seq<(Seq<char>, Seq<char>)> {
    s.map_values(|x: (String, String)| (x.0@, x.1@))
}

/// `k` is the pattern below `n` that URL pieces `u` select: it matches,
/// a route ends there, and no other such pattern is preferred to it.
pub closed spec fn node_best<T>(n: Node<T>, k: Seq<Key>, u: Seq<Seq<char>>) -> bool {
    &&& key_matches(k, u)
    &&& node_terminal(n, k) is Some
    &&& forall|k2: Seq<Key>| key_matches(k2, u) && #[trigger] node_terminal(n, k2) is Some ==> !preferred(k2, k)
}

/// The parameter name of node `n` (empty if it has no parameter child).
pub closed spec fn own_param_name<T>(n: Node<T>) -> Seq<char> {
    match n.param_child {
        Some(p) => p.0@,
        None => Seq::<char>::empty(),
    }
}

/// The `(name, value)` pairs that following keys `k` for URL pieces `u`
/// below `n` extracts: one per parameter key, named as the node's
/// parameter child is named.
pub closed spec fn node_params<T>(n: Node<T>, k: Seq<Key>, u: Seq<Seq<char>>) -> Seq<(Seq<char>, Seq<char>)>
    decreases k.len(),
{
    if k.len() == 0 || u.len() == 0 {
        Seq::empty()
    } else {
        match child_of(n, k[0]) {
            Some(c) => {
                let rest = node_params(c, k.drop_first(), u.drop_first());
                if k[0] is Param {
                    seq![(own_param_name(n), u[0])] + rest
                } else {
                    rest
                }
            },
            None => Seq::empty(),
        }
    }
}

/// The `(name, value)` pairs that keys `k` extract from URL pieces `u`:
/// one per parameter key, in order, the value being the piece at its
/// position and the name `names(p)` for the keys `p` before it (empty when
/// `names` gives none).
pub open spec fn params_by(names: spec_fn(Seq<Key>) -> Option<Seq<char>>, k: Seq<Key>, u: Seq<Seq<char>>) -> Seq<
    (Seq<char>, Seq<char>),
>
    decreases k.len(),
{
    if k.len() == 0 || u.len() == 0 {
        Seq::empty()
    } else {
        let k0 = k[0];
        let rest = params_by(|ks: Seq<Key>| names(seq![k0] + ks), k.drop_first(), u.drop_first());
        if k0 is Param {
            seq![
                (match names(Seq::empty()) {
                    Some(n) => n,
                    None => Seq::<char>::empty(),
                }, u[0]),
            ] + rest
        } else {
            rest
        }
    }
}

/// Along a path of the trie, the pairs a pattern extracts are named by the
/// parameter children met on the way.
proof fn lemma_node_params_by<T>(n: Node<T>, k: Seq<Key>, u: Seq<Seq<char>>)
    requires
        descend(n, k) is Some,
    ensures
        node_params(n, k, u) == params_by(|ks: Seq<Key>| node_param_name(n, ks), k, u),
    decreases k.len(),
{
    if k.len() > 0 && u.len() > 0 {
        let k0 = k[0];
        let c = child_of(n, k0)->0;
        lemma_node_params_by(c, k.drop_first(), u.drop_first());
        let f = |ks: Seq<Key>| node_param_name(n, ks);
        let g = |ks: Seq<Key>| f(seq![k0] + ks);
        let h = |ks: Seq<Key>| node_param_name(c, ks);
        assert forall|ks: Seq<Key>| #[trigger] g(ks) == h(ks) by {
            let full = seq![k0] + ks;
            assert(full[0] == k0);
            assert(full.drop_first() =~= ks);
            lemma_descend_cons(n, full);
        }
        assert(g =~= h);
        assert(descend(n, Seq::<Key>::empty()) == Some(n));
    }
}

proof fn lemma_matches_tail(k: Seq<Key>, u: Seq<Seq<char>>)
    requires
        key_matches(k, u),
        k.len() > 0,
    ensures
        key_matches(k.drop_first(), u.drop_first()),
        k[0] is Param || k[0] == Key::Lit(u[0]),
{
    assert forall|i: int| 0 <= i < k.drop_first().len() implies (#[trigger] k.drop_first()[i] is Param
        || k.drop_first()[i] == Key::Lit(u.drop_first()[i])) by {
        assert(k.drop_first()[i] == k[i + 1]);
        assert(k[i + 1] is Param || k[i + 1] == Key::Lit(u[i + 1]));
    }
}

proof fn lemma_matches_cons(k0: Key, k1: Seq<Key>, u: Seq<Seq<char>>)
    requires
        u.len() > 0,
        key_matches(k1, u.drop_first()),
        k0 is Param || k0 == Key::Lit(u[0]),
    ensures
        key_matches(seq![k0] + k1, u),
        (seq![k0] + k1).drop_first() == k1,
{
    let k = seq![k0] + k1;
    assert(k.drop_first() =~= k1);
    assert forall|i: int| 0 <= i < k.len() implies (#[trigger] k[i] is Param || k[i] == Key::Lit(u[i])) by {
        if i > 0 {
            assert(k[i] == k1[i - 1]);
            assert(k1[i - 1] is Param || k1[i - 1] == Key::Lit(u.drop_first()[i - 1]));
        }
    }
}

/// Two different patterns that match the same URL are ordered by priority.
pub proof fn lemma_matching_comparable(a: Seq<Key>, b: Seq<Key>, u: Seq<Seq<char>>)
    requires
        key_matches(a, u),
        key_matches(b, u),
        a != b,
    ensures
        preferred(a, b) || preferred(b, a),
    decreases u.len(),
{
    if u.len() == 0 {
        assert(a =~= b);
    } else {
        lemma_matches_tail(a, u);
        lemma_matches_tail(b, u);
        if a[0] == b[0] {
            if a.drop_first() == b.drop_first() {
                lemma_cons_eq(a, b);
            }
            lemma_matching_comparable(a.drop_first(), b.drop_first(), u.drop_first());
        }
    }
}

proof fn lemma_node_best_unique<T>(n: Node<T>, a: Seq<Key>, b: Seq<Key>, u: Seq<Seq<char>>)
    requires
        node_best(n, a, u),
        node_best(n, b, u),
    ensures
        a == b,
{
    if a != b {
        lemma_matching_comparable(a, b, u);
        assert(node_terminal(n, a) is Some);
        assert(node_terminal(n, b) is Some);
    }
}

/// Matches URL pieces `segs[pos..]` below `node`: a literal child is tried
/// before the parameter child, and a route must end where the pieces end.
fn match_node<'a, T>(node: &'a Node<T>, segs: &Vec<String>, pos: usize) -> (r: Option<(&'a T, Vec<(String, String)>)>)
    requires
        pos <= segs.len(),
    ensures
        match r {
            None => forall|k: Seq<Key>| key_matches(k, strs(segs@).skip(pos as int)) ==> #[trigger] node_terminal(*node, k) is None,
            Some(x) => exists|k: Seq<Key>| {
                &&& #[trigger] node_best(*node, k, strs(segs@).skip(pos as int))
                &&& node_terminal(*node, k) == Some(*x.0)
                &&& pairs(x.1@) == node_params(*node, k, strs(segs@).skip(pos as int))
            },
        },
    decreases segs.len() - pos,
{
    let ghost u = strs(segs@).skip(pos as int);
    if pos == segs.len() {
        proof {
            assert(u.len() == 0);
        }
        match &node.terminal {
            Some(v) => {
                proof {
                    let k = Seq::<Key>::empty();
                    assert(key_matches(k, u));
                    assert(node_terminal(*node, k) == Some(*v));
                    assert forall|k2: Seq<Key>| key_matches(k2, u) && #[trigger] node_terminal(*node, k2) is Some implies !preferred(k2, k) by {}
                    assert(node_best(*node, k, u));
                    assert(pairs(Seq::<(String, String)>::empty()) =~= node_params(*node, k, u));
                }
                return Some((v, Vec::new()));
            },
            None => {
                proof {
                    assert forall|k: Seq<Key>| key_matches(k, u) implies #[trigger] node_terminal(*node, k) is None by {
                        assert(k =~= Seq::<Key>::empty());
                    }
                }
                return None;
            },
        }
    }
    let head = &segs[pos];
    proof {
        assert(u[0] == head@);
        assert(u.drop_first() =~= strs(segs@).skip(pos + 1));
    }
    let found = find_child(&node.children, head);
    match found {
        Some(i) => {
            let child = &node.children[i].1;
            proof {
                assert(child_of(*node, Key::Lit(head@)) == Some(*child));
            }
            let sub = match_node(child, segs, pos + 1);
            match sub {
                Some(x) => {
                    proof {
                        let k1 = choose|k: Seq<Key>| {
                            &&& #[trigger] node_best(*child, k, u.drop_first())
                            &&& node_terminal(*child, k) == Some(*x.0)
                            &&& pairs(x.1@) == node_params(*child, k, u.drop_first())
                        };
                        let k = seq![Key::Lit(head@)] + k1;
                        lemma_matches_cons(Key::Lit(head@), k1, u);
                        lemma_descend_cons(*node, k);
                        assert forall|k2: Seq<Key>| key_matches(k2, u) && #[trigger] node_terminal(*node, k2) is Some implies !preferred(k2, k) by {
                            lemma_matches_tail(k2, u);
                            lemma_descend_cons(*node, k2);
                            if k2[0] == Key::Lit(head@) {
                                assert(node_terminal(*child, k2.drop_first()) is Some);
                            }
                        }
                        assert(node_best(*node, k, u));
                    }
                    return Some(x);
                },
                None => {},
            }
        },
        None => {},
    }
    proof {
        assert forall|k: Seq<Key>| key_matches(k, u) && k[0] == Key::Lit(head@) implies #[trigger] node_terminal(*node, k) is None by {
            lemma_matches_tail(k, u);
            lemma_descend_cons(*node, k);
        }
    }
    match &node.param_child {
        Some(p) => {
            let child: &Node<T> = &*p.1;
            proof {
                assert(child_of(*node, Key::Param) == Some(*child));
                assert(own_param_name(*node) == p.0@);
            }
            let sub = match_node(child, segs, pos + 1);
            match sub {
                Some(x) => {
                    let (v, mut ps) = x;
                    let ghost ps0 = ps@;
                    ps.insert(0, (p.0.clone(), head.clone()));
                    proof {
                        let k1 = choose|k: Seq<Key>| {
                            &&& #[trigger] node_best(*child, k, u.drop_first())
                            &&& node_terminal(*child, k) == Some(*v)
                            &&& pairs(ps0) == node_params(*child, k, u.drop_first())
                        };
                        let k = seq![Key::Param] + k1;
                        lemma_matches_cons(Key::Param, k1, u);
                        lemma_descend_cons(*node, k);
                        assert forall|k2: Seq<Key>| key_matches(k2, u) && #[trigger] node_terminal(*node, k2) is Some implies !preferred(k2, k) by {
                            lemma_matches_tail(k2, u);
                            lemma_descend_cons(*node, k2);
                            if k2[0] == Key::Param {
                                assert(node_terminal(*child, k2.drop_first()) is Some);
                            } else {
                                assert(k2[0] == Key::Lit(head@));
                            }
                        }
                        assert(node_best(*node, k, u));
                        assert(pairs(ps@) =~= seq![(p.0@, head@)] + pairs(ps0));
                        assert(pairs(ps@) == node_params(*node, k, u));
                    }
                    return Some((v, ps));
                },
                None => {
                    proof {
                        assert forall|k: Seq<Key>| key_matches(k, u) implies #[trigger] node_terminal(*node, k) is None by {
                            lemma_matches_tail(k, u);
                            lemma_descend_cons(*node, k);
                            if k[0] is Param {
                                assert(node_terminal(*child, k.drop_first()) is None);
                            }
                        }
                    }
                    return None;
                },
            }
        },
        None => {
            proof {
                assert forall|k: Seq<Key>| key_matches(k, u) implies #[trigger] node_terminal(*node, k) is None by {
                    lemma_matches_tail(k, u);
                    lemma_descend_cons(*node, k);
                }
            }
            return None;
        },
    }
}


/// Follows the pattern segments `segs[pos..]` from `node`.
fn descend_node<'a, T>(node: &'a Node<T>, segs: &Vec<Segment>, pos: usize) -> (r: Option<&'a Node<T>>)
    requires
        pos <= segs.len(),
    ensures
        descend(*node, keys_of(seg_views(segs@)).skip(pos as int)) == (match r {
            Some(d) => Some(*d),
            None => None,
        }),
    decreases segs.len() - pos,
{
    let ghost kk = keys_of(seg_views(segs@)).skip(pos as int);
    if pos == segs.len() {
        return Some(node);
    }
    proof {
        assert(kk[0] == segs@[pos as int]@.key());
        assert(kk.drop_first() =~= keys_of(seg_views(segs@)).skip(pos + 1));
    }
    match &segs[pos] {
        Segment::Literal(lit) => {
            match find_child(&node.children, lit) {
                Some(i) => descend_node(&node.children[i].1, segs, pos + 1),
                None => None,
            }
        },
        Segment::Param(_) => {
            match &node.param_child {
                Some(p) => descend_node(&*p.1, segs, pos + 1),
                None => None,
            }
        },
    }
}

// ---------------------------------------------------------------------------
// The trie
// ---------------------------------------------------------------------------

/// The result of a lookup: the value of the matched route and the
/// parameter values extracted from the URL, in order of appearance.
pub struct Match<'a, T> {
    pub value: &'a T,
    /// `(parameter name, actual value)`; registering `/user/{id}` and
    /// matching `/user/42` gives `[("id", "42")]`.
    pub params: Vec<(String, String)>,
}

/// A prefix tree rooted at HTTP methods, carrying a value of type `T` at
/// the end of each registered pattern.
pub struct Trie<T> {
    roots: Vec<(String, Node<T>)>,
}

/// The value that registrations `h` (method key, pattern, value), made in
/// order, leave at method key `m` and pattern keys `ks`: that of the last
/// registration there.
pub open spec fn history_terminal<T>(h: Seq<(Seq<char>, Seq<char>, T)>, m: Seq<char>, ks: Seq<Key>) -> Option<T>
    decreases h.len(),
{
    if h.len() == 0 {
        None
    } else if h.last().0 == m && pattern_keys(h.last().1) == ks {
        Some(h.last().2)
    } else {
        history_terminal(h.drop_last(), m, ks)
    }
}

/// The name that registrations `h`, made in order, give the parameter
/// segment after pattern keys `ks` under method key `m`: the first
/// registration with a parameter there names it.
pub open spec fn history_name<T>(h: Seq<(Seq<char>, Seq<char>, T)>, m: Seq<char>, ks: Seq<Key>) -> Option<Seq<char>>
    decreases h.len(),
{
    if h.len() == 0 {
        None
    } else {
        let before = history_name(h.drop_last(), m, ks);
        if h.last().0 == m {
            name_after_insert(before, ks, pattern_segments(h.last().1))
        } else {
            before
        }
    }
}

/// A pattern is registered after registrations `h` exactly when one of
/// them registered a pattern with the same keys under the same method key.
pub proof fn lemma_history_registered<T>(h: Seq<(Seq<char>, Seq<char>, T)>, m: Seq<char>, ks: Seq<Key>)
    ensures
        history_terminal(h, m, ks) is Some <==> exists|i: int|
            0 <= i < h.len() && (#[trigger] h[i]).0 == m && pattern_keys(h[i].1) == ks,
    decreases h.len(),
{
    if h.len() > 0 {
        lemma_history_registered(h.drop_last(), m, ks);
        if exists|i: int| 0 <= i < h.len() && (#[trigger] h[i]).0 == m && pattern_keys(h[i].1) == ks {
            let i = choose|i: int| 0 <= i < h.len() && (#[trigger] h[i]).0 == m && pattern_keys(h[i].1) == ks;
            if i < h.len() - 1 {
                assert(h.drop_last()[i] == h[i]);
            }
        }
        if exists|i: int| 0 <= i < h.drop_last().len() && (#[trigger] h.drop_last()[i]).0 == m && pattern_keys(h.drop_last()[i].1) == ks {
            let i = choose|i: int| 0 <= i < h.drop_last().len() && (#[trigger] h.drop_last()[i]).0 == m && pattern_keys(h.drop_last()[i].1) == ks;
            assert(h[i] == h.drop_last()[i]);
        }
    }
}

impl<T> Trie<T> {
    /// The method keys are distinct and every node has distinct literal keys.
    pub closed spec fn wf(&self) -> bool {
        &&& keys_unique(self.roots@)
        &&& forall|j: int| 0 <= j < self.roots@.len() ==> node_wf(#[trigger] self.roots@[j].1)
    }

    /// The value registered for method key `m` and pattern keys `ks`.
    pub closed spec fn terminal_at(&self, m: Seq<char>, ks: Seq<Key>) -> Option<T> {
        match key_index(self.roots@, m) {
            Some(i) => node_terminal(self.roots@[i].1, ks),
            None => None,
        }
    }

    /// The name of the parameter segment that follows pattern keys `ks`
    /// under method key `m`, if one was registered there.
    pub closed spec fn param_name_at(&self, m: Seq<char>, ks: Seq<Key>) -> Option<Seq<char>> {
        match key_index(self.roots@, m) {
            Some(i) => node_param_name(self.roots@[i].1, ks),
            None => None,
        }
    }

    /// `k` is the registered pattern that URL pieces `u` select under
    /// method key `m`: it matches them, a route ends there, and no other
    /// such pattern comes before it in priority.
    pub open spec fn is_selected(&self, m: Seq<char>, k: Seq<Key>, u: Seq<Seq<char>>) -> bool {
        &&& key_matches(k, u)
        &&& self.terminal_at(m, k) is Some
        &&& forall|k2: Seq<Key>| key_matches(k2, u) && #[trigger] self.terminal_at(m, k2) is Some ==> !preferred(k2, k)
    }

    /// The registered pattern that URL pieces `u` select under method key `m`.
    pub open spec fn selected(&self, m: Seq<char>, u: Seq<Seq<char>>) -> Option<Seq<Key>> {
        if exists|k: Seq<Key>| self.is_selected(m, k, u) {
            Some(choose|k: Seq<Key>| self.is_selected(m, k, u))
        } else {
            None
        }
    }

    /// The trie holds exactly what the registrations `h` (method key,
    /// pattern, value), made in order, leave.
    pub open spec fn built_by(&self, h: Seq<(Seq<char>, Seq<char>, T)>) -> bool {
        &&& forall|m: Seq<char>, ks: Seq<Key>| #[trigger] self.terminal_at(m, ks) == history_terminal(h, m, ks)
        &&& forall|m: Seq<char>, ks: Seq<Key>| #[trigger] self.param_name_at(m, ks) == history_name(h, m, ks)
    }

    /// An empty trie.
    pub fn new() -> (r: Self)
        ensures
            r.wf(),
            r.built_by(Seq::empty()),
            forall|m: Seq<char>, ks: Seq<Key>| #[trigger] r.terminal_at(m, ks) is None,
            forall|m: Seq<char>, ks: Seq<Key>| #[trigger] r.param_name_at(m, ks) is None,
    {
        let r = Trie { roots: Vec::new() };
        proof {
            assert forall|m: Seq<char>| #[trigger] key_index(r.roots@, m) is None by {
                lemma_no_key(r.roots@, m);
            }
        }
        r
    }

    /// Registers `path` under the method key `method` as given (no case
    /// mapping); the pattern must not be registered there yet.
    pub fn insert_upper(&mut self, method: &str, path: &str, value: T)
        requires
            old(self).wf(),
            old(self).terminal_at(method@, pattern_keys(path@)) is None,
        ensures
            final(self).wf(),
            forall|m: Seq<char>, ks: Seq<Key>| #[trigger] final(self).terminal_at(m, ks) == (if m == method@ && ks == pattern_keys(path@) {
                Some(value)
            } else {
                old(self).terminal_at(m, ks)
            }),
            forall|m: Seq<char>, ks: Seq<Key>| #[trigger] final(self).param_name_at(m, ks) == (if m == method@ {
                name_after_insert(old(self).param_name_at(m, ks), ks, pattern_segments(path@))
            } else {
                old(self).param_name_at(m, ks)
            }),
    {
        let ghost t0 = *self;
        let segs = parse(path);
        proof {
            assert(seg_views(segs@).skip(0) =~= pattern_segments(path@));
            assert(keys_of(seg_views(segs@)).skip(0) =~= pattern_keys(path@));
        }
        let key = owned(method);
        match find_child(&self.roots, &key) {
            Some(i) => {
                let (k, mut root) = self.roots.remove(i);
                let ghost r0 = root;
                proof {
                    assert(r0 == t0.roots@[i as int].1);
                }
                insert_node(&mut root, &segs, 0, value);
                let ghost r1 = root;
                self.roots.insert(i, (k, root));
                proof {
                    assert(self.roots@ =~= t0.roots@.update(i as int, (k, r1)));
                    assert forall|j: int| 0 <= j < self.roots@.len() implies #[trigger] self.roots@[j].0@ == t0.roots@[j].0@ by {}
                    assert forall|a: int, b: int| 0 <= a < b < self.roots@.len() implies #[trigger] self.roots@[a].0@
                        != #[trigger] self.roots@[b].0@ by {
                        assert(t0.roots@[a].0@ != t0.roots@[b].0@);
                    }
                    assert forall|j: int| 0 <= j < self.roots@.len() implies node_wf(#[trigger] self.roots@[j].1) by {
                        if j != i {
                            assert(self.roots@[j] == t0.roots@[j]);
                        }
                    }
                    assert forall|m: Seq<char>|
                        #![trigger key_index(self.roots@, m)]
                        key_index(self.roots@, m) == key_index(t0.roots@, m) by {
                        lemma_same_keys(self.roots@, t0.roots@, m);
                    }
                    assert forall|m: Seq<char>, ks: Seq<Key>|
                        #![trigger self.terminal_at(m, ks)]
                        #![trigger self.param_name_at(m, ks)]
                        self.terminal_at(m, ks) == (if m == method@ && ks == pattern_keys(path@) {
                            Some(value)
                        } else {
                            t0.terminal_at(m, ks)
                        }) && self.param_name_at(m, ks) == (if m == method@ {
                            name_after_insert(t0.param_name_at(m, ks), ks, pattern_segments(path@))
                        } else {
                            t0.param_name_at(m, ks)
                        }) by {
                        if let Some(j) = key_index(t0.roots@, m) {
                            assert(is_first_key(t0.roots@, m, j));
                            if m != method@ {
                                assert(j != i);
                            }
                        }
                    }
                }
            },
            None => {
                let mut root = Node::empty();
                let ghost r0 = root;
                proof {
                    lemma_empty_node(r0);
                }
                insert_node(&mut root, &segs, 0, value);
                let ghost r1 = root;
                self.roots.push((key, root));
                proof {
                    assert forall|a: int, b: int| 0 <= a < b < self.roots@.len() implies #[trigger] self.roots@[a].0@
                        != #[trigger] self.roots@[b].0@ by {
                        if b < t0.roots@.len() {
                            assert(t0.roots@[a].0@ != t0.roots@[b].0@);
                        } else {
                            assert(t0.roots@[a].0@ != method@);
                        }
                    }
                    assert forall|j: int| 0 <= j < self.roots@.len() implies node_wf(#[trigger] self.roots@[j].1) by {
                        if j < t0.roots@.len() {
                            assert(self.roots@[j] == t0.roots@[j]);
                        }
                    }
                    assert(is_first_key(self.roots@, method@, t0.roots@.len() as int));
                    lemma_first_key(self.roots@, method@, t0.roots@.len() as int);
                    assert forall|m: Seq<char>|
                        #![trigger key_index(self.roots@, m)]
                        m != method@ implies key_index(self.roots@, m) == key_index(t0.roots@, m) by {
                        lemma_push_other_key(t0.roots@, (key, r1), m);
                    }
                    assert forall|m: Seq<char>, ks: Seq<Key>|
                        #![trigger self.terminal_at(m, ks)]
                        #![trigger self.param_name_at(m, ks)]
                        self.terminal_at(m, ks) == (if m == method@ && ks == pattern_keys(path@) {
                            Some(value)
                        } else {
                            t0.terminal_at(m, ks)
                        }) && self.param_name_at(m, ks) == (if m == method@ {
                            name_after_insert(t0.param_name_at(m, ks), ks, pattern_segments(path@))
                        } else {
                            t0.param_name_at(m, ks)
                        }) by {
                        if m != method@ {
                            if let Some(j) = key_index(t0.roots@, m) {
                                assert(is_first_key(t0.roots@, m, j));
                            }
                        } else {
                            assert(node_terminal(r0, ks) is None);
                            assert(node_param_name(r0, ks) is None);
                        }
                    }
                }
            },
        }
    }

    /// Registers a pattern (parameter segments written `:x` or `{x}`) under
    /// the upper-cased method. The `(method, pattern)` must not be
    /// registered yet; patterns that differ only in parameter names are the
    /// same pattern.
    pub fn insert(&mut self, method: &str, path: &str, value: T)
        requires
            old(self).wf(),
            old(self).terminal_at(uppercase(method@), pattern_keys(path@)) is None,
        ensures
            is_ascii_text(method@) ==> uppercase(method@) == ascii_upper_text(method@),
            final(self).wf(),
            forall|h: Seq<(Seq<char>, Seq<char>, T)>|
                old(self).built_by(h) ==> #[trigger] final(self).built_by(h.push((uppercase(method@), path@, value))),
            forall|m: Seq<char>, ks: Seq<Key>| #[trigger] final(self).terminal_at(m, ks) == (if m == uppercase(method@) && ks
                == pattern_keys(path@) {
                Some(value)
            } else {
                old(self).terminal_at(m, ks)
            }),
            forall|m: Seq<char>, ks: Seq<Key>| #[trigger] final(self).param_name_at(m, ks) == (if m == uppercase(method@) {
                name_after_insert(old(self).param_name_at(m, ks), ks, pattern_segments(path@))
            } else {
                old(self).param_name_at(m, ks)
            }),
    {
        let m = to_uppercase(method);
        let ghost t0 = *self;
        self.insert_upper(m.as_str(), path, value);
        proof {
            assert forall|h: Seq<(Seq<char>, Seq<char>, T)>| t0.built_by(h) implies #[trigger] self.built_by(
                h.push((uppercase(method@), path@, value)),
            ) by {
                let h2 = h.push((uppercase(method@), path@, value));
                assert(h2.drop_last() =~= h);
                assert(h2.last() == (uppercase(method@), path@, value));
                assert forall|mm: Seq<char>, ks: Seq<Key>| #[trigger] self.terminal_at(mm, ks) == history_terminal(h2, mm, ks) by {
                    assert(t0.terminal_at(mm, ks) == history_terminal(h, mm, ks));
                }
                assert forall|mm: Seq<char>, ks: Seq<Key>| #[trigger] self.param_name_at(mm, ks) == history_name(h2, mm, ks) by {
                    assert(t0.param_name_at(mm, ks) == history_name(h, mm, ks));
                }
            }
        }
    }

    /// Whether the pattern itself is registered under the method key
    /// `method` as given (patterns are compared, not matched as URLs).
    pub fn has_upper(&self, method: &str, path: &str) -> (r: bool)
        ensures
            r == self.terminal_at(method@, pattern_keys(path@)) is Some,
    {
        let key = owned(method);
        match find_child(&self.roots, &key) {
            Some(i) => {
                let segs = parse(path);
                proof {
                    assert(keys_of(seg_views(segs@)).skip(0) =~= pattern_keys(path@));
                }
                match descend_node(&self.roots[i].1, &segs, 0) {
                    Some(d) => d.terminal.is_some(),
                    None => false,
                }
            },
            None => false,
        }
    }

    /// Whether the pattern is registered under the upper-cased method
    /// (`:id` and `{id}` are the same segment; parameter names do not count).
    pub fn has(&self, method: &str, path: &str) -> (r: bool)
        ensures
            is_ascii_text(method@) ==> uppercase(method@) == ascii_upper_text(method@),
            r == self.terminal_at(uppercase(method@), pattern_keys(path@)) is Some,
    {
        let m = to_uppercase(method);
        self.has_upper(m.as_str(), path)
    }

    /// Looks up a concrete URL under the method key `method` as given.
    pub fn search_upper<'a>(&'a self, method: &str, url: &str) -> (r: Option<Match<'a, T>>)
        ensures
            match r {
                None => forall|k: Seq<Key>| key_matches(k, path_pieces(url@)) ==> #[trigger] self.terminal_at(method@, k) is None,
                Some(mt) => self.selected(method@, path_pieces(url@)) matches Some(k) && self.terminal_at(method@, k) == Some(
                    *mt.value,
                ) && pairs(mt.params@) == params_by(|ks: Seq<Key>| self.param_name_at(method@, ks), k, path_pieces(url@)),
            },
    {
        let ghost u = path_pieces(url@);
        let key = owned(method);
        match find_child(&self.roots, &key) {
            Some(i) => {
                let segs = split_path(url);
                proof {
                    assert(strs(segs@).skip(0) =~= u);
                }
                let root = &self.roots[i].1;
                match match_node(root, &segs, 0) {
                    Some(x) => {
                        proof {
                            let k = choose|k: Seq<Key>| {
                                &&& #[trigger] node_best(*root, k, u)
                                &&& node_terminal(*root, k) == Some(*x.0)
                                &&& pairs(x.1@) == node_params(*root, k, u)
                            };
                            assert(self.is_selected(method@, k, u));
                            let c = choose|c: Seq<Key>| self.is_selected(method@, c, u);
                            assert(self.is_selected(method@, c, u));
                            assert forall|k2: Seq<Key>| key_matches(k2, u) && #[trigger] node_terminal(*root, k2) is Some implies !preferred(k2, c) by {
                                assert(self.terminal_at(method@, k2) is Some);
                            }
                            assert(node_best(*root, c, u));
                            lemma_node_best_unique(*root, k, c, u);
                            assert(descend(*root, k) is Some);
                            lemma_node_params_by(*root, k, u);
                            assert(key_index(self.roots@, method@) == Some(i as int));
                            assert((|ks: Seq<Key>| node_param_name(*root, ks)) =~= (|ks: Seq<Key>| self.param_name_at(method@, ks)));
                        }
                        Some(Match { value: x.0, params: x.1 })
                    },
                    None => None,
                }
            },
            None => None,
        }
    }

    /// Looks up a concrete URL under the upper-cased method: literal
    /// segments match exactly and are tried before a parameter segment,
    /// parameter segments match any single URL segment and record its
    /// value, and the route must end where the URL ends. `None` when no
    /// registered pattern matches.
    pub fn search<'a>(&'a self, method: &str, url: &str) -> (r: Option<Match<'a, T>>)
        ensures
            is_ascii_text(method@) ==> uppercase(method@) == ascii_upper_text(method@),
            match r {
                None => forall|k: Seq<Key>| key_matches(k, path_pieces(url@)) ==> #[trigger] self.terminal_at(uppercase(method@), k)
                    is None,
                Some(mt) => self.selected(uppercase(method@), path_pieces(url@)) matches Some(k) && self.terminal_at(
                    uppercase(method@),
                    k,
                ) == Some(*mt.value) && pairs(mt.params@) == params_by(
                    |ks: Seq<Key>| self.param_name_at(uppercase(method@), ks),
                    k,
                    path_pieces(url@),
                ),
            },
    {
        let m = to_uppercase(method);
        self.search_upper(m.as_str(), url)
    }
}


// ---------------------------------------------------------------------------
// Laws
// ---------------------------------------------------------------------------

/// `:name` and `{name}` are the same parameter segment, named `name`.
pub proof fn lemma_colon_brace_equivalent(name: Seq<char>)
    ensures
        classify(seq![':'] + name) == PatSeg::Param(name),
        classify(seq!['{'] + name + seq!['}']) == PatSeg::Param(name),
{
    assert((seq![':'] + name).drop_first() =~= name);
    assert((seq!['{'] + name + seq!['}']).drop_first() =~= name + seq!['}']);
    assert((name + seq!['}']).drop_last() =~= name);
}

/// Patterns that differ only in the names of their parameters lead to the
/// same node: a parameter piece has the parameter key whatever its name.
pub proof fn lemma_param_name_irrelevant(p: Seq<char>, q: Seq<char>)
    requires
        classify(p) is Param,
        classify(q) is Param,
    ensures
        classify(p).key() == classify(q).key(),
{
}

/// A pattern that comes before another in priority has a literal where
/// the other has a parameter.
pub proof fn lemma_preferred_needs_param(a: Seq<Key>, b: Seq<Key>)
    requires
        preferred(a, b),
    ensures
        exists|i: int| 0 <= i < b.len() && #[trigger] b[i] is Param,
    decreases a.len(),
{
    if a[0] is Lit && b[0] is Param {
        assert(b[0] is Param);
    } else {
        lemma_preferred_needs_param(a.drop_first(), b.drop_first());
        let i = choose|i: int| 0 <= i < b.drop_first().len() && #[trigger] b.drop_first()[i] is Param;
        assert(b[i + 1] is Param);
    }
}

impl<T> Trie<T> {
    /// At most one registered pattern is selected for a URL.
    pub proof fn lemma_selected_unique(&self, m: Seq<char>, a: Seq<Key>, b: Seq<Key>, u: Seq<Seq<char>>)
        requires
            self.is_selected(m, a, u),
            self.is_selected(m, b, u),
        ensures
            a == b,
            self.selected(m, u) == Some(a),
    {
        if a != b {
            lemma_matching_comparable(a, b, u);
        }
        let c = choose|c: Seq<Key>| self.is_selected(m, c, u);
        assert(self.is_selected(m, c, u));
        if c != a {
            lemma_matching_comparable(a, c, u);
        }
    }

    /// A literal segment wins over a parameter segment: when two registered
    /// patterns match a URL and the first comes before the second in
    /// priority, the second is not selected.
    pub proof fn lemma_literal_preferred(&self, m: Seq<char>, a: Seq<Key>, b: Seq<Key>, u: Seq<Seq<char>>)
        requires
            self.terminal_at(m, a) is Some,
            self.terminal_at(m, b) is Some,
            key_matches(a, u),
            key_matches(b, u),
            preferred(a, b),
        ensures
            self.selected(m, u) != Some(b),
    {
        if self.selected(m, u) == Some(b) {
            let c = choose|c: Seq<Key>| self.is_selected(m, c, u);
            assert(self.is_selected(m, c, u));
            assert(c == b);
            assert(!preferred(a, b));
        }
    }

    /// A registered pattern made of literal segments only is what a URL
    /// with exactly those segments selects.
    pub proof fn lemma_literal_pattern_selected(&self, m: Seq<char>, path: Seq<char>)
        requires
            self.terminal_at(m, pattern_keys(path)) is Some,
            forall|i: int| 0 <= i < pattern_keys(path).len() ==> #[trigger] pattern_keys(path)[i] is Lit,
        ensures
            self.selected(m, path_pieces(path)) == Some(pattern_keys(path)),
    {
        let k = pattern_keys(path);
        let u = path_pieces(path);
        assert forall|i: int| 0 <= i < k.len() implies (#[trigger] k[i] is Param || k[i] == Key::Lit(u[i])) by {
            assert(k[i] == classify(u[i]).key());
        }
        assert(key_matches(k, u));
        assert forall|k2: Seq<Key>| key_matches(k2, u) && #[trigger] self.terminal_at(m, k2) is Some implies !preferred(k2, k) by {
            if preferred(k2, k) {
                lemma_preferred_needs_param(k2, k);
            }
        }
        assert(self.is_selected(m, k, u));
        self.lemma_selected_unique(m, k, k, u);
    }
}

impl<T> Trie<T> {
    /// After registrations `h`, a pattern is registered under method key
    /// `m` exactly when one of them registered a pattern with the same keys
    /// there (parameter names do not count): what `has` answers.
    pub proof fn lemma_history_has(&self, h: Seq<(Seq<char>, Seq<char>, T)>, m: Seq<char>, p: Seq<char>)
        requires
            self.built_by(h),
        ensures
            self.terminal_at(m, pattern_keys(p)) is Some <==> exists|i: int|
                0 <= i < h.len() && (#[trigger] h[i]).0 == m && pattern_keys(h[i].1) == pattern_keys(p),
    {
        lemma_history_registered(h, m, pattern_keys(p));
    }

    /// After registrations `h`, the pattern that URL pieces `u` select under
    /// method key `m` is one registered under `m` that matches them, such
    /// that no registered pattern matching them comes before it in priority;
    /// its value is that of the last registration of the pattern, and
    /// parameters are named by the first registration with a parameter at
    /// their position.
    pub proof fn lemma_history_selected(
        &self,
        h: Seq<(Seq<char>, Seq<char>, T)>,
        m: Seq<char>,
        k: Seq<Key>,
        u: Seq<Seq<char>>,
    )
        requires
            self.built_by(h),
        ensures
            self.is_selected(m, k, u) <==> {
                &&& key_matches(k, u)
                &&& exists|i: int| 0 <= i < h.len() && (#[trigger] h[i]).0 == m && pattern_keys(h[i].1) == k
                &&& forall|i: int|
                    0 <= i < h.len() && (#[trigger] h[i]).0 == m && key_matches(pattern_keys(h[i].1), u) ==> !preferred(
                        pattern_keys(h[i].1),
                        k,
                    )
            },
            self.terminal_at(m, k) == history_terminal(h, m, k),
            (|ks: Seq<Key>| self.param_name_at(m, ks)) == (|ks: Seq<Key>| history_name(h, m, ks)),
    {
        lemma_history_registered(h, m, k);
        assert forall|i: int|
            0 <= i < h.len() && (#[trigger] h[i]).0 == m implies self.terminal_at(m, pattern_keys(h[i].1)) is Some by {
            lemma_history_registered(h, m, pattern_keys(h[i].1));
        }
        assert forall|k2: Seq<Key>| #[trigger] self.terminal_at(m, k2) is Some implies exists|i: int|
            0 <= i < h.len() && (#[trigger] h[i]).0 == m && pattern_keys(h[i].1) == k2 by {
            lemma_history_registered(h, m, k2);
        }
        assert((|ks: Seq<Key>| self.param_name_at(m, ks)) =~= (|ks: Seq<Key>| history_name(h, m, ks)));
    }
}

/// A piece that does not start with `:` or `{` reads as the literal
/// segment of itself, whatever characters (`:` included) it holds further on.
pub proof fn lemma_plain_piece_is_literal(p: Seq<char>)
    requires
        p.len() == 0 || (p[0] != ':' && p[0] != '{'),
    ensures
        classify(p) == PatSeg::Literal(p),
        classify(p).key() == Key::Lit(p),
{
}

/// A pattern whose pieces start with neither `:` nor `{` is matched only by
/// URL pieces equal to its own pieces, one by one.
pub proof fn lemma_plain_pattern_matches_itself_only(path: Seq<char>, u: Seq<Seq<char>>)
    requires
        forall|i: int|
            0 <= i < path_pieces(path).len() ==> #[trigger] path_pieces(path)[i][0] != ':' && path_pieces(path)[i][0] != '{',
    ensures
        key_matches(pattern_keys(path), u) <==> u == path_pieces(path),
{
    let ps = path_pieces(path);
    let k = pattern_keys(path);
    lemma_pieces_nonempty(path);
    assert forall|i: int| 0 <= i < k.len() implies #[trigger] k[i] == Key::Lit(ps[i]) by {
        assert(ps[i][0] != ':' && ps[i][0] != '{');
        lemma_plain_piece_is_literal(ps[i]);
    }
    if key_matches(k, u) {
        assert forall|i: int| 0 <= i < u.len() implies u[i] == ps[i] by {
            assert(k[i] == Key::Lit(ps[i]));
        }
        assert(u =~= ps);
    }
    if u == ps {
        assert forall|i: int| 0 <= i < k.len() implies (#[trigger] k[i] is Param || k[i] == Key::Lit(u[i])) by {
            assert(k[i] == Key::Lit(ps[i]));
        }
    }
}

} // verus!
