//! The arguments of the route declaration attributes (`GetMapping` and
//! the other methods) and the normalisation of the declared path.

use vstd::prelude::*;
use crate::text::{push_char, push_str, str_eq};
use crate::trie::{classify, lemma_pieces_nonempty, path_pieces, pattern_keys, pattern_segments, split_path, split_scan, split_step};

verus! {

broadcast use vstd::string::group_string_axioms;

/// A piece of a declared path with `:name` rewritten to `{name}`.
pub open spec fn rewrite_piece(p: Seq<char>) -> Seq<char> {
    if p.len() > 0 && p[0] == ':' {
        seq!['{'] + p.drop_first() + seq!['}']
    } else {
        p
    }
}

/// The pieces, each preceded by `/`.
pub open spec fn joined_pieces(ps: Seq<Seq<char>>) -> Seq<char>
    decreases ps.len(),
{
    if ps.len() == 0 {
        Seq::empty()
    } else {
        joined_pieces(ps.drop_last()) + seq!['/'] + rewrite_piece(ps.last())
    }
}

/// The normalised path: a `/` when the path does not start with one, then
/// each non-empty piece preceded by `/` with `:name` rewritten to `{name}`;
/// `/` when that is empty.
pub open spec fn normalized_path(path: Seq<char>) -> Seq<char> {
    let lead = if path.len() > 0 && path[0] == '/' {
        Seq::<char>::empty()
    } else {
        seq!['/']
    };
    let body = lead + joined_pieces(path_pieces(path));
    if body.len() == 0 {
        seq!['/']
    } else {
        body
    }
}

/// Rewrites `:id` parameter segments to `{id}` and makes sure the path
/// starts with `/`.
pub fn normalize_path(path: &str) -> (r: String)
    ensures
        r@ == normalized_path(path@),
{
    let ghost ps = path_pieces(path@);
    let cs = crate::text::chars_of(path);
    let mut r = String::new();
    if !(cs.len() > 0 && cs[0] == '/') {
        push_char(&mut r, '/');
    }
    let ghost lead = r@;
    let pieces = split_path(path);
    let mut i: usize = 0;
    while i < pieces.len()
        invariant
            i <= pieces.len(),
            pieces.len() == ps.len(),
            forall|j: int| 0 <= j < pieces.len() ==> #[trigger] pieces[j]@ == ps[j],
            r@ == lead + joined_pieces(ps.take(i as int)),
        decreases pieces.len() - i,
    {
        assert(ps.take(i + 1).drop_last() == ps.take(i as int));
        push_char(&mut r, '/');
        let piece = crate::text::chars_of(pieces[i].as_str());
        if piece.len() > 0 && piece[0] == ':' {
            push_char(&mut r, '{');
            let name = crate::text::string_of_range(&piece, 1, piece.len());
            assert(piece@.subrange(1, piece@.len() as int) == piece@.drop_first());
            push_str(&mut r, name.as_str());
            push_char(&mut r, '}');
        } else {
            push_str(&mut r, pieces[i].as_str());
        }
        assert(r@ =~= lead + joined_pieces(ps.take(i + 1)));
        i = i + 1;
    }
    assert(ps.take(ps.len() as int) == ps);
    if r.as_str().is_empty() {
        push_char(&mut r, '/');
    }
    r
}

/// `q` holds no `/`.
pub open spec fn plain(q: Seq<char>) -> bool {
    forall|k: int| 0 <= k < q.len() ==> q[k] != '/'
}

/// The pieces of a scan hold no `/`.
proof fn lemma_scan_plain(s: Seq<char>)
    ensures
        forall|i: int| 0 <= i < split_scan(s).0.len() ==> plain(#[trigger] split_scan(s).0[i]),
        plain(split_scan(s).1),
    decreases s.len(),
{
    if s.len() > 0 {
        lemma_scan_plain(s.drop_last());
        let prev = split_scan(s.drop_last());
        assert(split_scan(s) == split_step(prev, s.last()));
        assert forall|i: int| 0 <= i < split_scan(s).0.len() implies plain(#[trigger] split_scan(s).0[i]) by {
            if i < prev.0.len() {
                assert(split_scan(s).0[i] == prev.0[i]);
            }
        }
        if s.last() != '/' {
            assert forall|k: int| 0 <= k < split_scan(s).1.len() implies split_scan(s).1[k] != '/' by {
                if k < prev.1.len() {
                    assert(split_scan(s).1[k] == prev.1[k]);
                }
            }
        }
    }
}

/// The pieces of a path hold no `/`.
proof fn lemma_pieces_plain(s: Seq<char>)
    ensures
        forall|i: int| 0 <= i < path_pieces(s).len() ==> plain(#[trigger] path_pieces(s)[i]),
{
    lemma_scan_plain(s);
    let st = split_scan(s);
    assert forall|i: int| 0 <= i < path_pieces(s).len() implies plain(#[trigger] path_pieces(s)[i]) by {
        if i < st.0.len() {
            assert(path_pieces(s)[i] == st.0[i]);
        }
    }
}

/// Reading text without `/` extends the piece being read.
proof fn lemma_scan_append_plain(x: Seq<char>, q: Seq<char>)
    requires
        plain(q),
    ensures
        split_scan(x + q) == (split_scan(x).0, split_scan(x).1 + q),
    decreases q.len(),
{
    if q.len() == 0 {
        assert(x + q =~= x);
        assert(split_scan(x).1 + q =~= split_scan(x).1);
    } else {
        let ql = q.drop_last();
        assert((x + q).drop_last() =~= x + ql);
        assert((x + q).last() == q.last());
        lemma_scan_append_plain(x, ql);
        assert(split_scan(x).1 + ql + seq![q.last()] =~= split_scan(x).1 + q);
    }
}

/// A `/` followed by a non-empty piece adds that piece.
proof fn lemma_pieces_push(s: Seq<char>, q: Seq<char>)
    requires
        plain(q),
        q.len() > 0,
    ensures
        path_pieces(s + seq!['/'] + q) == path_pieces(s).push(q),
{
    let x = s + seq!['/'];
    assert(x.drop_last() =~= s);
    assert(split_scan(x) == (path_pieces(s), Seq::<char>::empty()));
    lemma_scan_append_plain(x, q);
    assert(Seq::<char>::empty() + q =~= q);
}

/// A rewritten piece is non-empty and holds no `/`.
proof fn lemma_rewrite_plain(q: Seq<char>)
    requires
        plain(q),
        q.len() > 0,
    ensures
        plain(rewrite_piece(q)),
        rewrite_piece(q).len() > 0,
        classify(rewrite_piece(q)) == classify(q),
{
    if q[0] == ':' {
        let n = q.drop_first();
        let r = seq!['{'] + n + seq!['}'];
        assert forall|k: int| 0 <= k < r.len() implies r[k] != '/' by {
            if 0 < k < r.len() - 1 {
                assert(r[k] == q[k]);
            }
        }
        assert(r.drop_first() =~= n + seq!['}']);
        assert((n + seq!['}']).drop_last() =~= n);
    }
}

/// The pieces of `lead` followed by the joined pieces `qs` are the
/// rewritten `qs`, when `lead` has no pieces.
proof fn lemma_joined_pieces(lead: Seq<char>, qs: Seq<Seq<char>>)
    requires
        path_pieces(lead).len() == 0,
        forall|i: int| 0 <= i < qs.len() ==> plain(#[trigger] qs[i]) && qs[i].len() > 0,
    ensures
        path_pieces(lead + joined_pieces(qs)) == qs.map_values(|q: Seq<char>| rewrite_piece(q)),
    decreases qs.len(),
{
    if qs.len() == 0 {
        assert(lead + joined_pieces(qs) =~= lead);
        assert(qs.map_values(|q: Seq<char>| rewrite_piece(q)) =~= Seq::<Seq<char>>::empty());
    } else {
        let dl = qs.drop_last();
        assert forall|i: int| 0 <= i < dl.len() implies plain(#[trigger] dl[i]) && dl[i].len() > 0 by {
            assert(dl[i] == qs[i]);
        }
        lemma_joined_pieces(lead, dl);
        assert(plain(qs[qs.len() - 1]));
        lemma_rewrite_plain(qs.last());
        let w = rewrite_piece(qs.last());
        assert(lead + joined_pieces(qs) =~= (lead + joined_pieces(dl)) + seq!['/'] + w);
        lemma_pieces_push(lead + joined_pieces(dl), w);
        assert(qs.map_values(|q: Seq<char>| rewrite_piece(q)) =~= dl.map_values(|q: Seq<char>| rewrite_piece(q)).push(w));
    }
}

/// Normalising a declared path keeps the route it declares: the
/// normalised path starts with `/`, its pieces are the path's pieces with
/// `:name` rewritten to `{name}`, and each piece reads as the same literal
/// or parameter segment as before.
pub proof fn lemma_normalize_keeps_pattern(path: Seq<char>)
    ensures
        normalized_path(path).len() > 0,
        normalized_path(path)[0] == '/',
        path_pieces(normalized_path(path)) == path_pieces(path).map_values(|q: Seq<char>| rewrite_piece(q)),
        pattern_segments(normalized_path(path)) == pattern_segments(path),
        pattern_keys(normalized_path(path)) == pattern_keys(path),
{
    let ps = path_pieces(path);
    lemma_pieces_plain(path);
    lemma_pieces_nonempty(path);
    let lead = if path.len() > 0 && path[0] == '/' {
        Seq::<char>::empty()
    } else {
        seq!['/']
    };
    assert(split_scan(Seq::<char>::empty()) == (Seq::<Seq<char>>::empty(), Seq::<char>::empty()));
    assert(seq!['/'].drop_last() =~= Seq::<char>::empty());
    assert(path_pieces(lead).len() == 0);
    lemma_joined_pieces(lead, ps);
    let body = lead + joined_pieces(ps);
    let rw = ps.map_values(|q: Seq<char>| rewrite_piece(q));
    if body.len() == 0 {
        assert(ps.len() == 0) by {
            if ps.len() > 0 {
                assert(joined_pieces(ps).len() > 0);
            }
        }
        assert(normalized_path(path) == seq!['/']);
        assert(path_pieces(seq!['/']).len() == 0);
        assert(rw =~= path_pieces(seq!['/']));
    } else {
        assert(normalized_path(path) == body);
        if lead.len() == 0 {
            assert(ps.len() > 0);
            assert(joined_pieces(ps) == joined_pieces(ps.drop_last()) + seq!['/'] + rewrite_piece(ps.last()));
            lemma_joined_starts(ps);
        }
    }
    assert forall|i: int| 0 <= i < rw.len() implies classify(#[trigger] rw[i]) == classify(ps[i]) by {
        lemma_rewrite_plain(ps[i]);
    }
    assert(pattern_segments(normalized_path(path)) =~= pattern_segments(path));
}

/// Rewriting a piece twice rewrites it once.
proof fn lemma_rewrite_twice(q: Seq<char>)
    ensures
        rewrite_piece(rewrite_piece(q)) == rewrite_piece(q),
{
    if q.len() > 0 && q[0] == ':' {
        let r = seq!['{'] + q.drop_first() + seq!['}'];
        assert(r[0] == '{');
    }
}

/// Joining rewritten pieces gives the same text as joining the pieces.
proof fn lemma_join_rewritten(qs: Seq<Seq<char>>)
    ensures
        joined_pieces(qs.map_values(|q: Seq<char>| rewrite_piece(q))) == joined_pieces(qs),
    decreases qs.len(),
{
    if qs.len() > 0 {
        let rw = qs.map_values(|q: Seq<char>| rewrite_piece(q));
        assert(rw.drop_last() =~= qs.drop_last().map_values(|q: Seq<char>| rewrite_piece(q)));
        lemma_join_rewritten(qs.drop_last());
        lemma_rewrite_twice(qs.last());
    }
}

/// Normalising a normalised path changes nothing, for a path that is
/// empty or starts with `/` (one that does not, such as `abc`, gains a
/// leading `/` the first time: `//abc`, then `/abc`).
pub proof fn lemma_normalize_idempotent(path: Seq<char>)
    requires
        path.len() == 0 || path[0] == '/',
    ensures
        normalized_path(normalized_path(path)) == normalized_path(path),
{
    let n = normalized_path(path);
    let ps = path_pieces(path);
    lemma_normalize_keeps_pattern(path);
    lemma_join_rewritten(ps);
    assert(path_pieces(n) == ps.map_values(|q: Seq<char>| rewrite_piece(q)));
    if path.len() == 0 {
        assert(split_scan(path) == (Seq::<Seq<char>>::empty(), Seq::<char>::empty()));
        assert(ps.len() == 0);
    }
    assert(Seq::<char>::empty() + joined_pieces(ps) =~= joined_pieces(ps));
}

/// Joined pieces start with `/`.
proof fn lemma_joined_starts(qs: Seq<Seq<char>>)
    requires
        qs.len() > 0,
    ensures
        joined_pieces(qs).len() > 0,
        joined_pieces(qs)[0] == '/',
    decreases qs.len(),
{
    let dl = qs.drop_last();
    let tail = seq!['/'] + rewrite_piece(qs.last());
    assert(joined_pieces(qs) =~= joined_pieces(dl) + tail);
    if dl.len() > 0 {
        lemma_joined_starts(dl);
        assert((joined_pieces(dl) + tail)[0] == joined_pieces(dl)[0]);
    } else {
        assert(joined_pieces(dl) =~= Seq::<char>::empty());
        assert((joined_pieces(dl) + tail)[0] == tail[0]);
    }
}

// ---------------------------------------------------------------------------
// Attribute tokens
// ---------------------------------------------------------------------------

/// The delimiters of a token group.
#[derive(PartialEq, Eq, Structural, Clone, Copy, Debug)]
pub enum Delim {
    Paren,
    Brace,
    Bracket,
    /// A group without visible delimiters.
    Invisible,
}

/// A token of a declaration attribute; a group is written as its opening
/// delimiter, its tokens and its closing delimiter.
#[derive(Debug)]
pub enum Tok {
    Ident(String),
    /// A punctuation character, `true` when joined to the next one (as the
    /// first `:` of `::`).
    Punct(char, bool),
    /// A literal, as written in the source.
    Lit(String),
    Open(Delim),
    Close(Delim),
}

/// A token as values.
pub enum TokV {
    Ident(Seq<char>),
    Punct(char, bool),
    Lit(Seq<char>),
    Open(Delim),
    Close(Delim),
}

impl View for Tok {
    type V = TokV;

    open spec fn view(&self) -> TokV {
        match self {
            Tok::Ident(s) => TokV::Ident(s@),
            Tok::Punct(c, j) => TokV::Punct(*c, *j),
            Tok::Lit(s) => TokV::Lit(s@),
            Tok::Open(d) => TokV::Open(*d),
            Tok::Close(d) => TokV::Close(*d),
        }
    }
}

/// The views of a sequence of tokens.
pub open spec fn tok_views(ts: Seq<Tok>) -> Seq<TokV> {
    ts.map_values(|t: Tok| t@)
}

/// What the string literal written `text` stands for, as `syn` reads a
/// `LitStr` (escapes resolved); `None` when `text` is no string literal.
pub uninterp spec fn str_literal(text: Seq<char>) -> Option<Seq<char>>;

/// Whether `syn` reads the whole of `text` as a `Path`.
pub uninterp spec fn path_accepted(text: Seq<char>) -> bool;

/// Whether `syn` reads `text` as an identifier (keywords are not).
pub uninterp spec fn ident_accepted(text: Seq<char>) -> bool;

/// Calls `syn::parse_str::<syn::LitStr>` and, when it reads a string
/// literal, `LitStr::value`; the result is named `str_literal` of the text.
#[verifier::external_body]
fn string_literal_value(text: &str) -> (r: Option<String>)
    ensures
        match r {
            Some(v) => str_literal(text@) == Some(v@),
            None => str_literal(text@) is None,
        },
{
    match syn::parse_str::<syn::LitStr>(text) {
        Ok(lit) => Some(lit.value()),
        Err(_) => None,
    }
}

/// Calls `syn::parse_str::<syn::Path>`; whether it succeeds is named
/// `path_accepted` of the text.
#[verifier::external_body]
fn is_path(text: &str) -> (r: bool)
    ensures
        r == path_accepted(text@),
{
    syn::parse_str::<syn::Path>(text).is_ok()
}

/// Calls `syn::parse_str::<syn::Ident>`; whether it succeeds is named
/// `ident_accepted` of the text.
#[verifier::external_body]
fn is_accepted_ident(text: &str) -> (r: bool)
    ensures
        r == ident_accepted(text@),
{
    syn::parse_str::<syn::Ident>(text).is_ok()
}

/// The text of the opening delimiter.
pub open spec fn open_text(d: Delim) -> Seq<char> {
    match d {
        Delim::Paren => seq!['('],
        Delim::Brace => seq!['{'],
        Delim::Bracket => seq!['['],
        Delim::Invisible => Seq::empty(),
    }
}

/// The text of the closing delimiter.
pub open spec fn close_text(d: Delim) -> Seq<char> {
    match d {
        Delim::Paren => seq![')'],
        Delim::Brace => seq!['}'],
        Delim::Bracket => seq![']'],
        Delim::Invisible => Seq::empty(),
    }
}

/// The text of a token.
pub open spec fn tok_text(t: TokV) -> Seq<char> {
    match t {
        TokV::Ident(s) => s,
        TokV::Punct(c, _) => seq![c],
        TokV::Lit(s) => s,
        TokV::Open(d) => open_text(d),
        TokV::Close(d) => close_text(d),
    }
}

/// The source text of tokens: each token followed by a space, except a
/// punctuation character joined to the next.
pub open spec fn toks_text(ts: Seq<TokV>) -> Seq<char>
    decreases ts.len(),
{
    if ts.len() == 0 {
        Seq::empty()
    } else {
        let t = ts.last();
        toks_text(ts.drop_last()) + tok_text(t) + (if t matches TokV::Punct(_, true) {
            Seq::<char>::empty()
        } else {
            seq![' ']
        })
    }
}

// ---------------------------------------------------------------------------
// Splitting at commas
// ---------------------------------------------------------------------------

/// A comma.
pub open spec fn is_comma(t: TokV) -> bool {
    t matches TokV::Punct(c, _) && c == ','
}

/// The nesting depth after token `t`, at depth `d`, `arrow` telling
/// whether the previous token was a `-` joined to it: groups and angle
/// brackets open and close (a `>` after a joined `-` is an arrow).
pub open spec fn next_depth(d: nat, arrow: bool, t: TokV) -> nat {
    match t {
        TokV::Open(_) => d + 1,
        TokV::Close(_) => if d > 0 {
            (d - 1) as nat
        } else {
            0
        },
        TokV::Punct(c, _) => if c == '<' {
            d + 1
        } else if c == '>' && !arrow && d > 0 {
            (d - 1) as nat
        } else {
            d
        },
        _ => d,
    }
}

/// One step of the scan that splits tokens at the commas outside groups
/// and angle brackets: the items completed, the item being read, the
/// depth, and whether the last token was a joined `-`.
pub open spec fn items_step(st: (Seq<Seq<TokV>>, Seq<TokV>, nat, bool), t: TokV) -> (Seq<Seq<TokV>>, Seq<TokV>, nat, bool) {
    if st.2 == 0 && is_comma(t) {
        (st.0.push(st.1), Seq::empty(), 0, false)
    } else {
        (st.0, st.1.push(t), next_depth(st.2, st.3, t), t == TokV::Punct('-', true))
    }
}

/// The scan of `ts` from the left.
pub open spec fn items_scan(ts: Seq<TokV>) -> (Seq<Seq<TokV>>, Seq<TokV>, nat, bool)
    decreases ts.len(),
{
    if ts.len() == 0 {
        (Seq::empty(), Seq::empty(), 0, false)
    } else {
        items_step(items_scan(ts.drop_last()), ts.last())
    }
}

/// The items of `ts` between the commas outside groups and angle
/// brackets (the last one possibly empty).
pub open spec fn comma_items(ts: Seq<TokV>) -> Seq<Seq<TokV>> {
    let st = items_scan(ts);
    st.0.push(st.1)
}

/// The items that count: an empty last item (after a trailing comma, or
/// of no tokens at all) is dropped.
pub open spec fn counted_items(ts: Seq<TokV>) -> Seq<Seq<TokV>> {
    let items = comma_items(ts);
    if items.last().len() == 0 {
        items.drop_last()
    } else {
        items
    }
}

/// Whether `t` is a comma.
fn tok_is_comma(t: &Tok) -> (r: bool)
    ensures
        r == is_comma(t@),
{
    match t {
        Tok::Punct(c, _) => *c == ',',
        _ => false,
    }
}

/// The depth after `t` and whether `t` is a joined `-`.
fn step_depth(d: usize, arrow: bool, t: &Tok) -> (r: (usize, bool))
    requires
        d < usize::MAX,
    ensures
        r.0 == next_depth(d as nat, arrow, t@),
        r.1 == (t@ == TokV::Punct('-', true)),
{
    match t {
        Tok::Open(_) => (d + 1, false),
        Tok::Close(_) => (if d > 0 {
            d - 1
        } else {
            0
        }, false),
        Tok::Punct(c, j) => {
            let nd = if *c == '<' {
                d + 1
            } else if *c == '>' && !arrow && d > 0 {
                d - 1
            } else {
                d
            };
            (nd, *c == '-' && *j)
        },
        _ => (d, false),
    }
}

/// The bounds of the items of `ts[lo..hi]` between the commas outside
/// groups and angle brackets.
fn comma_split(ts: &Vec<Tok>, lo: usize, hi: usize) -> (r: Vec<(usize, usize)>)
    requires
        lo <= hi <= ts.len(),
    ensures
        r.len() == comma_items(tok_views(ts@).subrange(lo as int, hi as int)).len(),
        forall|k: int|
            0 <= k < r.len() ==> lo <= (#[trigger] r[k]).0 <= r[k].1 <= hi && tok_views(ts@).subrange(
                r[k].0 as int,
                r[k].1 as int,
            ) == comma_items(tok_views(ts@).subrange(lo as int, hi as int))[k],
{
    let ghost all = tok_views(ts@);
    let ghost sub = all.subrange(lo as int, hi as int);
    let mut r: Vec<(usize, usize)> = Vec::new();
    let mut start = lo;
    let mut depth: usize = 0;
    let mut arrow = false;
    let mut i = lo;
    while i < hi
        invariant
            lo <= start <= i <= hi <= ts.len(),
            all == tok_views(ts@),
            sub == all.subrange(lo as int, hi as int),
            depth <= i - lo,
            items_scan(sub.take(i - lo)).1 == all.subrange(start as int, i as int),
            items_scan(sub.take(i - lo)).2 == depth as nat,
            items_scan(sub.take(i - lo)).3 == arrow,
            r.len() == items_scan(sub.take(i - lo)).0.len(),
            forall|k: int|
                0 <= k < r.len() ==> lo <= (#[trigger] r[k]).0 <= r[k].1 <= start && all.subrange(r[k].0 as int, r[k].1 as int)
                    == items_scan(sub.take(i - lo)).0[k],
        decreases hi - i,
    {
        let ghost prev = items_scan(sub.take(i - lo));
        assert(sub.take(i + 1 - lo).drop_last() == sub.take(i - lo));
        assert(sub.take(i + 1 - lo).last() == all[i as int]);
        assert(all[i as int] == ts@[i as int]@);
        if depth == 0 && tok_is_comma(&ts[i]) {
            r.push((start, i));
            start = i + 1;
            arrow = false;
            proof {
                let cur = items_scan(sub.take(i + 1 - lo));
                assert(cur == (prev.0.push(prev.1), Seq::<TokV>::empty(), 0nat, false));
                assert(all.subrange(start as int, i + 1) =~= Seq::<TokV>::empty());
            }
        } else {
            let (nd, na) = step_depth(depth, arrow, &ts[i]);
            depth = nd;
            arrow = na;
            proof {
                assert(all.subrange(start as int, i + 1) =~= all.subrange(start as int, i as int).push(all[i as int]));
            }
        }
        i = i + 1;
    }
    assert(sub.take(hi - lo) =~= sub);
    r.push((start, hi));
    r
}

// ---------------------------------------------------------------------------
// The arguments of a declaration attribute
// ---------------------------------------------------------------------------

/// The arguments that a declaration attribute accepts.
#[derive(PartialEq, Eq, Structural, Clone, Copy, Debug)]
pub enum ArgKind {
    Path,
    Tag,
    Desc,
    Title,
    FrontPath,
    IsDataAuth,
    Auth,
    Group,
    CancelGlobalPrefix,
    CancelGlobalApiPrefix,
    Middleware,
}

/// The argument named `name`.
pub open spec fn arg_kind(name: Seq<char>) -> Option<ArgKind> {
    if name == "path"@ {
        Some(ArgKind::Path)
    } else if name == "tag"@ {
        Some(ArgKind::Tag)
    } else if name == "desc"@ {
        Some(ArgKind::Desc)
    } else if name == "title"@ {
        Some(ArgKind::Title)
    } else if name == "front_path"@ {
        Some(ArgKind::FrontPath)
    } else if name == "is_data_auth"@ {
        Some(ArgKind::IsDataAuth)
    } else if name == "auth"@ {
        Some(ArgKind::Auth)
    } else if name == "group"@ {
        Some(ArgKind::Group)
    } else if name == "cancel_global_prefix"@ {
        Some(ArgKind::CancelGlobalPrefix)
    } else if name == "cancel_global_api_prefix"@ {
        Some(ArgKind::CancelGlobalApiPrefix)
    } else if name == "middleware"@ {
        Some(ArgKind::Middleware)
    } else {
        None
    }
}

/// The arguments of a declaration attribute.
#[derive(Debug)]
pub struct MappingArgs {
    /// Relative path (empty when not given).
    pub path: String,
    pub tag: Option<String>,
    pub desc: String,
    pub title: String,
    pub front_path: String,
    pub is_data_auth: Option<bool>,
    /// `None` when not given: inherited from the groups and the global flag.
    pub auth: Option<bool>,
    pub group: String,
    pub cancel_global_prefix: bool,
    pub cancel_global_api_prefix: bool,
    /// The middleware paths, each as its source text (its tokens, each
    /// followed by a space unless it is a joined punctuation character).
    pub middleware: Vec<String>,
}

/// The arguments as values.
pub struct ArgsView {
    pub path: Seq<char>,
    pub tag: Option<Seq<char>>,
    pub desc: Seq<char>,
    pub title: Seq<char>,
    pub front_path: Seq<char>,
    pub is_data_auth: Option<bool>,
    pub auth: Option<bool>,
    pub group: Seq<char>,
    pub cancel_global_prefix: bool,
    pub cancel_global_api_prefix: bool,
    pub middleware: Seq<Seq<char>>,
}

impl View for MappingArgs {
    type V = ArgsView;

    open spec fn view(&self) -> ArgsView {
        ArgsView {
            path: self.path@,
            tag: match self.tag {
                Some(t) => Some(t@),
                None => None,
            },
            desc: self.desc@,
            title: self.title@,
            front_path: self.front_path@,
            is_data_auth: self.is_data_auth,
            auth: self.auth,
            group: self.group@,
            cancel_global_prefix: self.cancel_global_prefix,
            cancel_global_api_prefix: self.cancel_global_api_prefix,
            middleware: self.middleware@.map_values(|m: String| m@),
        }
    }
}

/// No argument given.
pub open spec fn default_args() -> ArgsView {
    ArgsView {
        path: Seq::empty(),
        tag: None,
        desc: Seq::empty(),
        title: Seq::empty(),
        front_path: Seq::empty(),
        is_data_auth: None,
        auth: None,
        group: Seq::empty(),
        cancel_global_prefix: false,
        cancel_global_api_prefix: false,
        middleware: Seq::empty(),
    }
}

/// Why the arguments of a declaration attribute cannot be read.
#[derive(Debug)]
pub enum ArgsError {
    /// An argument does not start with an identifier.
    ExpectedIdent,
    /// An argument starts with a keyword.
    Keyword(String),
    /// The argument name is not one of those accepted.
    UnknownArgument(String),
    /// The name is not followed by `=`.
    ExpectedEq,
    /// The value should be a string literal.
    ExpectedStr,
    /// The value should be `true` or `false`.
    ExpectedBool,
    /// A middleware should be a path.
    ExpectedPath,
    /// Something follows a complete argument before the next `,`.
    ExpectedComma,
}

/// An argument error as values.
pub enum ArgsFault {
    ExpectedIdent,
    Keyword(Seq<char>),
    UnknownArgument(Seq<char>),
    ExpectedEq,
    ExpectedStr,
    ExpectedBool,
    ExpectedPath,
    ExpectedComma,
}

impl View for ArgsError {
    type V = ArgsFault;

    open spec fn view(&self) -> ArgsFault {
        match self {
            ArgsError::ExpectedIdent => ArgsFault::ExpectedIdent,
            ArgsError::Keyword(k) => ArgsFault::Keyword(k@),
            ArgsError::UnknownArgument(n) => ArgsFault::UnknownArgument(n@),
            ArgsError::ExpectedEq => ArgsFault::ExpectedEq,
            ArgsError::ExpectedStr => ArgsFault::ExpectedStr,
            ArgsError::ExpectedBool => ArgsFault::ExpectedBool,
            ArgsError::ExpectedPath => ArgsFault::ExpectedPath,
            ArgsError::ExpectedComma => ArgsFault::ExpectedComma,
        }
    }
}

/// A string literal and nothing after it.
pub open spec fn str_value(rest: Seq<TokV>) -> Result<Seq<char>, ArgsFault> {
    let v = if rest.len() > 0 {
        match rest[0] {
            TokV::Lit(text) => str_literal(text),
            _ => None,
        }
    } else {
        None
    };
    match v {
        Some(x) => if rest.len() == 1 {
            Ok(x)
        } else {
            Err(ArgsFault::ExpectedComma)
        },
        None => Err(ArgsFault::ExpectedStr),
    }
}

/// `true` or `false` and nothing after it.
pub open spec fn bool_value(rest: Seq<TokV>) -> Result<bool, ArgsFault> {
    if rest.len() > 0 && (rest[0] == TokV::Ident("true"@) || rest[0] == TokV::Ident("false"@)) {
        if rest.len() == 1 {
            Ok(rest[0] == TokV::Ident("true"@))
        } else {
            Err(ArgsFault::ExpectedComma)
        }
    } else {
        Err(ArgsFault::ExpectedBool)
    }
}

/// Group depth of `ts`: opening delimiters less closing ones.
pub open spec fn group_depth(ts: Seq<TokV>) -> int
    decreases ts.len(),
{
    if ts.len() == 0 {
        0
    } else {
        group_depth(ts.drop_last()) + match ts.last() {
            TokV::Open(_) => 1int,
            TokV::Close(_) => -1int,
            _ => 0int,
        }
    }
}

/// Token `c` of `ts` closes the group that `ts[0]` opens.
pub open spec fn closes_at(ts: Seq<TokV>, c: int) -> bool {
    &&& 1 <= c < ts.len()
    &&& group_depth(ts.take(c + 1)) == 0
    &&& forall|d: int| 1 <= d < c ==> #[trigger] group_depth(ts.take(d + 1)) > 0
}

/// The position of the token that closes the group that `ts[0]` opens.
pub open spec fn group_close(ts: Seq<TokV>) -> Option<int> {
    if exists|c: int| closes_at(ts, c) {
        Some(choose|c: int| closes_at(ts, c))
    } else {
        None
    }
}

/// `j` is the length of the longest start of `ts` that reads as a path.
pub open spec fn is_longest_path(ts: Seq<TokV>, j: int) -> bool {
    &&& 1 <= j <= ts.len()
    &&& path_accepted(toks_text(ts.take(j)))
    &&& forall|j2: int| j < j2 <= ts.len() ==> !#[trigger] path_accepted(toks_text(ts.take(j2)))
}

/// The length of the longest start of `ts` that reads as a path.
pub open spec fn path_prefix_len(ts: Seq<TokV>) -> Option<int> {
    if exists|j: int| is_longest_path(ts, j) {
        Some(choose|j: int| is_longest_path(ts, j))
    } else {
        None
    }
}

/// A middleware path and nothing after it, given as its source text.
pub open spec fn path_item(it: Seq<TokV>) -> Result<Seq<char>, ArgsFault> {
    match path_prefix_len(it) {
        None => Err(ArgsFault::ExpectedPath),
        Some(j) => if j == it.len() {
            Ok(toks_text(it))
        } else {
            Err(ArgsFault::ExpectedComma)
        },
    }
}

/// Each item read as a path; the first fault stops.
pub open spec fn paths_all(items: Seq<Seq<TokV>>) -> Result<Seq<Seq<char>>, ArgsFault>
    decreases items.len(),
{
    if items.len() == 0 {
        Ok(Seq::empty())
    } else {
        match paths_all(items.drop_last()) {
            Err(e) => Err(e),
            Ok(ps) => match path_item(items.last()) {
                Ok(p) => Ok(ps.push(p)),
                Err(e) => Err(e),
            },
        }
    }
}

/// The middleware value: `{path, ...}` (a trailing comma allowed) and
/// nothing after it, or a single path.
pub open spec fn paths_value(rest: Seq<TokV>) -> Result<Seq<Seq<char>>, ArgsFault> {
    if rest.len() > 0 && rest[0] == TokV::Open(Delim::Brace) {
        match group_close(rest) {
            Some(c) => match paths_all(counted_items(rest.subrange(1, c))) {
                Err(e) => Err(e),
                Ok(ps) => if c + 1 == rest.len() {
                    Ok(ps)
                } else {
                    Err(ArgsFault::ExpectedComma)
                },
            },
            None => Err(ArgsFault::ExpectedPath),
        }
    } else {
        match path_item(rest) {
            Ok(p) => Ok(seq![p]),
            Err(e) => Err(e),
        }
    }
}

/// `=`.
pub open spec fn is_eq(t: TokV) -> bool {
    t matches TokV::Punct(c, _) && c == '='
}

/// The value of argument `k` read from `rest`, applied to `a`: string and
/// flag arguments replace the value, middleware accumulates.
pub open spec fn apply_value(a: ArgsView, k: ArgKind, rest: Seq<TokV>) -> Result<ArgsView, ArgsFault> {
    match k {
        ArgKind::Path => match str_value(rest) {
            Ok(v) => Ok(ArgsView { path: v, ..a }),
            Err(e) => Err(e),
        },
        ArgKind::Tag => match str_value(rest) {
            Ok(v) => Ok(ArgsView { tag: Some(v), ..a }),
            Err(e) => Err(e),
        },
        ArgKind::Desc => match str_value(rest) {
            Ok(v) => Ok(ArgsView { desc: v, ..a }),
            Err(e) => Err(e),
        },
        ArgKind::Title => match str_value(rest) {
            Ok(v) => Ok(ArgsView { title: v, ..a }),
            Err(e) => Err(e),
        },
        ArgKind::FrontPath => match str_value(rest) {
            Ok(v) => Ok(ArgsView { front_path: v, ..a }),
            Err(e) => Err(e),
        },
        ArgKind::Group => match str_value(rest) {
            Ok(v) => Ok(ArgsView { group: v, ..a }),
            Err(e) => Err(e),
        },
        ArgKind::IsDataAuth => match bool_value(rest) {
            Ok(b) => Ok(ArgsView { is_data_auth: Some(b), ..a }),
            Err(e) => Err(e),
        },
        ArgKind::Auth => match bool_value(rest) {
            Ok(b) => Ok(ArgsView { auth: Some(b), ..a }),
            Err(e) => Err(e),
        },
        ArgKind::CancelGlobalPrefix => match bool_value(rest) {
            Ok(b) => Ok(ArgsView { cancel_global_prefix: b, ..a }),
            Err(e) => Err(e),
        },
        ArgKind::CancelGlobalApiPrefix => match bool_value(rest) {
            Ok(b) => Ok(ArgsView { cancel_global_api_prefix: b, ..a }),
            Err(e) => Err(e),
        },
        ArgKind::Middleware => match paths_value(rest) {
            Ok(ps) => Ok(ArgsView { middleware: a.middleware + ps, ..a }),
            Err(e) => Err(e),
        },
    }
}

/// One argument `name = value` applied to `a`.
pub open spec fn apply_item(a: ArgsView, it: Seq<TokV>) -> Result<ArgsView, ArgsFault> {
    if it.len() == 0 {
        Err(ArgsFault::ExpectedIdent)
    } else {
        match it[0] {
            TokV::Ident(name) => if !ident_accepted(name) {
                Err(ArgsFault::Keyword(name))
            } else {
                match arg_kind(name) {
                    None => Err(ArgsFault::UnknownArgument(name)),
                    Some(k) => if it.len() < 2 || !is_eq(it[1]) {
                        Err(ArgsFault::ExpectedEq)
                    } else {
                        apply_value(a, k, it.skip(2))
                    },
                }
            },
            _ => Err(ArgsFault::ExpectedIdent),
        }
    }
}

/// The arguments read item by item, from none given; the first error stops.
pub open spec fn args_fold(items: Seq<Seq<TokV>>) -> Result<ArgsView, ArgsFault>
    decreases items.len(),
{
    if items.len() == 0 {
        Ok(default_args())
    } else {
        match args_fold(items.drop_last()) {
            Err(e) => Err(e),
            Ok(a) => apply_item(a, items.last()),
        }
    }
}

/// The opening or closing delimiter of an invisible group.
pub open spec fn is_invisible(t: TokV) -> bool {
    t == TokV::Open(Delim::Invisible) || t == TokV::Close(Delim::Invisible)
}

/// The tokens without the delimiters of invisible groups: the contents of
/// such a group read as if they stood ungrouped.
pub open spec fn visible(ts: Seq<TokV>) -> Seq<TokV>
    decreases ts.len(),
{
    if ts.len() == 0 {
        Seq::empty()
    } else {
        visible(ts.drop_last()) + (if is_invisible(ts.last()) {
            Seq::<TokV>::empty()
        } else {
            seq![ts.last()]
        })
    }
}

/// The arguments that tokens `ts` give: `name = value` items separated by
/// commas, a trailing comma allowed; invisible groups (as a macro passes
/// an argument on) read as their contents.
pub open spec fn parse_args(ts: Seq<TokV>) -> Result<ArgsView, ArgsFault> {
    args_fold(counted_items(visible(ts)))
}

/// A copy of a token.
fn copy_tok(t: &Tok) -> (r: Tok)
    ensures
        r@ == t@,
{
    match t {
        Tok::Ident(s) => Tok::Ident(s.clone()),
        Tok::Punct(c, j) => Tok::Punct(*c, *j),
        Tok::Lit(s) => Tok::Lit(s.clone()),
        Tok::Open(d) => Tok::Open(*d),
        Tok::Close(d) => Tok::Close(*d),
    }
}

/// The tokens without the delimiters of invisible groups.
fn visible_tokens(ts: &Vec<Tok>) -> (r: Vec<Tok>)
    ensures
        tok_views(r@) == visible(tok_views(ts@)),
{
    let ghost all = tok_views(ts@);
    let mut r: Vec<Tok> = Vec::new();
    let mut i: usize = 0;
    while i < ts.len()
        invariant
            i <= ts.len(),
            all == tok_views(ts@),
            tok_views(r@) == visible(all.take(i as int)),
        decreases ts.len() - i,
    {
        assert(all.take(i + 1).drop_last() == all.take(i as int));
        assert(all.take(i + 1).last() == ts@[i as int]@);
        let invisible = match &ts[i] {
            Tok::Open(Delim::Invisible) => true,
            Tok::Close(Delim::Invisible) => true,
            _ => false,
        };
        if !invisible {
            let ghost before = r@;
            let t = copy_tok(&ts[i]);
            r.push(t);
            assert(tok_views(r@) =~= tok_views(before).push(t@));
        }
        assert(tok_views(r@) =~= visible(all.take(i + 1)));
        i = i + 1;
    }
    assert(all.take(ts.len() as int) =~= all);
    r
}

/// The source text of `ts[lo..hi]`.
fn text_of(ts: &Vec<Tok>, lo: usize, hi: usize) -> (r: String)
    requires
        lo <= hi <= ts.len(),
    ensures
        r@ == toks_text(tok_views(ts@).subrange(lo as int, hi as int)),
{
    let ghost all = tok_views(ts@);
    let mut r = String::new();
    let mut i = lo;
    while i < hi
        invariant
            lo <= i <= hi <= ts.len(),
            all == tok_views(ts@),
            r@ == toks_text(all.subrange(lo as int, i as int)),
        decreases hi - i,
    {
        let ghost before = r@;
        assert(all.subrange(lo as int, i + 1).drop_last() == all.subrange(lo as int, i as int));
        assert(all.subrange(lo as int, i + 1).last() == ts@[i as int]@);
        match &ts[i] {
            Tok::Ident(x) => {
                push_str(&mut r, x.as_str());
                push_char(&mut r, ' ');
            },
            Tok::Lit(x) => {
                push_str(&mut r, x.as_str());
                push_char(&mut r, ' ');
            },
            Tok::Punct(c, j) => {
                push_char(&mut r, *c);
                if !*j {
                    push_char(&mut r, ' ');
                }
            },
            Tok::Open(d) => {
                match d {
                    Delim::Paren => push_char(&mut r, '('),
                    Delim::Brace => push_char(&mut r, '{'),
                    Delim::Bracket => push_char(&mut r, '['),
                    Delim::Invisible => {},
                }
                push_char(&mut r, ' ');
            },
            Tok::Close(d) => {
                match d {
                    Delim::Paren => push_char(&mut r, ')'),
                    Delim::Brace => push_char(&mut r, '}'),
                    Delim::Bracket => push_char(&mut r, ']'),
                    Delim::Invisible => {},
                }
                push_char(&mut r, ' ');
            },
        }
        proof {
            let t = ts@[i as int]@;
            assert(r@ =~= before + tok_text(t) + (if t matches TokV::Punct(_, true) {
                Seq::<char>::empty()
            } else {
                seq![' ']
            }));
        }
        i = i + 1;
    }
    r
}

/// The argument named `name`.
fn arg_kind_of(name: &str) -> (r: Option<ArgKind>)
    ensures
        r == arg_kind(name@),
{
    if str_eq(name, "path") {
        Some(ArgKind::Path)
    } else if str_eq(name, "tag") {
        Some(ArgKind::Tag)
    } else if str_eq(name, "desc") {
        Some(ArgKind::Desc)
    } else if str_eq(name, "title") {
        Some(ArgKind::Title)
    } else if str_eq(name, "front_path") {
        Some(ArgKind::FrontPath)
    } else if str_eq(name, "is_data_auth") {
        Some(ArgKind::IsDataAuth)
    } else if str_eq(name, "auth") {
        Some(ArgKind::Auth)
    } else if str_eq(name, "group") {
        Some(ArgKind::Group)
    } else if str_eq(name, "cancel_global_prefix") {
        Some(ArgKind::CancelGlobalPrefix)
    } else if str_eq(name, "cancel_global_api_prefix") {
        Some(ArgKind::CancelGlobalApiPrefix)
    } else if str_eq(name, "middleware") {
        Some(ArgKind::Middleware)
    } else {
        None
    }
}

/// Reads a string literal value from `ts[lo..hi]`.
fn read_str(ts: &Vec<Tok>, lo: usize, hi: usize) -> (r: Result<String, ArgsError>)
    requires
        lo <= hi <= ts.len(),
    ensures
        match r {
            Ok(v) => str_value(tok_views(ts@).subrange(lo as int, hi as int)) == Ok::<Seq<char>, ArgsFault>(v@),
            Err(e) => str_value(tok_views(ts@).subrange(lo as int, hi as int)) == Err::<Seq<char>, ArgsFault>(e@),
        },
{
    let ghost rest = tok_views(ts@).subrange(lo as int, hi as int);
    if lo < hi {
        assert(rest[0] == ts@[lo as int]@);
        match &ts[lo] {
            Tok::Lit(text) => match string_literal_value(text.as_str()) {
                Some(v) => if hi - lo == 1 {
                    Ok(v)
                } else {
                    Err(ArgsError::ExpectedComma)
                },
                None => Err(ArgsError::ExpectedStr),
            },
            _ => Err(ArgsError::ExpectedStr),
        }
    } else {
        Err(ArgsError::ExpectedStr)
    }
}

/// Reads `true` or `false` from `ts[lo..hi]`.
fn read_bool(ts: &Vec<Tok>, lo: usize, hi: usize) -> (r: Result<bool, ArgsError>)
    requires
        lo <= hi <= ts.len(),
    ensures
        match r {
            Ok(b) => bool_value(tok_views(ts@).subrange(lo as int, hi as int)) == Ok::<bool, ArgsFault>(b),
            Err(e) => bool_value(tok_views(ts@).subrange(lo as int, hi as int)) == Err::<bool, ArgsFault>(e@),
        },
{
    let ghost rest = tok_views(ts@).subrange(lo as int, hi as int);
    if lo < hi {
        assert(rest[0] == ts@[lo as int]@);
        let v = match &ts[lo] {
            Tok::Ident(x) => if str_eq(x.as_str(), "true") {
                Some(true)
            } else if str_eq(x.as_str(), "false") {
                Some(false)
            } else {
                None
            },
            _ => None,
        };
        match v {
            Some(b) => if hi - lo == 1 {
                Ok(b)
            } else {
                Err(ArgsError::ExpectedComma)
            },
            None => Err(ArgsError::ExpectedBool),
        }
    } else {
        Err(ArgsError::ExpectedBool)
    }
}

/// The position of the token that closes the group opened at `ts[lo]`,
/// looking no further than `hi`.
fn find_group_close(ts: &Vec<Tok>, lo: usize, hi: usize) -> (r: Option<usize>)
    requires
        lo < hi <= ts.len(),
        ts@[lo as int]@ is Open,
    ensures
        match r {
            Some(c) => lo < c < hi && group_close(tok_views(ts@).subrange(lo as int, hi as int)) == Some(c - lo),
            None => group_close(tok_views(ts@).subrange(lo as int, hi as int)) is None,
        },
{
    let ghost all = tok_views(ts@);
    let ghost rest = all.subrange(lo as int, hi as int);
    assert(rest.take(1).drop_last() =~= Seq::<TokV>::empty());
    assert(all[lo as int] == ts@[lo as int]@);
    assert(rest.take(1).last() == ts@[lo as int]@);
    assert(group_depth(Seq::<TokV>::empty()) == 0);
    assert(group_depth(rest.take(1)) == group_depth(rest.take(1).drop_last()) + 1);
    assert(group_depth(rest.take(1)) == 1);
    let mut d: usize = 1;
    let mut i = lo + 1;
    while i < hi
        invariant
            lo < i <= hi <= ts.len(),
            all == tok_views(ts@),
            rest == all.subrange(lo as int, hi as int),
            0 < d <= i - lo,
            d as int == group_depth(rest.take(i - lo)),
            forall|e: int| 1 <= e < i - lo ==> #[trigger] group_depth(rest.take(e + 1)) > 0,
        decreases hi - i,
    {
        assert(rest.take(i + 1 - lo).drop_last() == rest.take(i - lo));
        assert(rest.take(i + 1 - lo).last() == ts@[i as int]@);
        match &ts[i] {
            Tok::Open(_) => {
                d = d + 1;
            },
            Tok::Close(_) => {
                d = d - 1;
            },
            _ => {},
        }
        if d == 0 {
            proof {
                let c = (i - lo) as int;
                assert(closes_at(rest, c));
                assert forall|c2: int| closes_at(rest, c2) implies c2 == c by {
                    if c2 < c {
                        assert(group_depth(rest.take(c2 + 1)) > 0);
                    } else if c2 > c {
                        assert(group_depth(rest.take(c + 1)) > 0);
                    }
                }
            }
            return Some(i);
        }
        i = i + 1;
    }
    proof {
        assert forall|c: int| !closes_at(rest, c) by {
            if 1 <= c < rest.len() {
                assert(group_depth(rest.take(c + 1)) > 0);
            }
        }
    }
    None
}

/// The views of a sequence of strings.
pub open spec fn texts(v: Seq<String>) -> Seq<Seq<char>> {
    v.map_values(|s: String| s@)
}

/// Reads one middleware path, and nothing after it, from `ts[lo..hi]`:
/// the longest start of the tokens that reads as a path.
fn read_path(ts: &Vec<Tok>, lo: usize, hi: usize) -> (r: Result<String, ArgsError>)
    requires
        lo <= hi <= ts.len(),
    ensures
        match r {
            Ok(p) => path_item(tok_views(ts@).subrange(lo as int, hi as int)) == Ok::<Seq<char>, ArgsFault>(p@),
            Err(e) => path_item(tok_views(ts@).subrange(lo as int, hi as int)) == Err::<Seq<char>, ArgsFault>(e@),
        },
{
    let ghost all = tok_views(ts@);
    let ghost it = all.subrange(lo as int, hi as int);
    let n = hi - lo;
    let mut j = n;
    while j > 0
        invariant
            j <= n == hi - lo,
            lo <= hi <= ts.len(),
            all == tok_views(ts@),
            it == all.subrange(lo as int, hi as int),
            forall|j2: int| j < j2 <= n ==> !#[trigger] path_accepted(toks_text(it.take(j2))),
        decreases j,
    {
        let t = text_of(ts, lo, lo + j);
        assert(all.subrange(lo as int, lo + j) =~= it.take(j as int));
        if is_path(t.as_str()) {
            proof {
                assert(is_longest_path(it, j as int));
                assert forall|j2: int| is_longest_path(it, j2) implies j2 == j by {
                    if j2 < j {
                        assert(path_accepted(toks_text(it.take(j as int))));
                    }
                }
            }
            if j == n {
                assert(it.take(n as int) =~= it);
                return Ok(t);
            } else {
                return Err(ArgsError::ExpectedComma);
            }
        }
        j = j - 1;
    }
    proof {
        assert forall|j2: int| !is_longest_path(it, j2) by {}
    }
    Err(ArgsError::ExpectedPath)
}

/// Reads a middleware value from `ts[lo..hi]`.
fn read_paths(ts: &Vec<Tok>, lo: usize, hi: usize) -> (r: Result<Vec<String>, ArgsError>)
    requires
        lo <= hi <= ts.len(),
    ensures
        match r {
            Ok(ps) => paths_value(tok_views(ts@).subrange(lo as int, hi as int)) == Ok::<Seq<Seq<char>>, ArgsFault>(
                texts(ps@),
            ),
            Err(e) => paths_value(tok_views(ts@).subrange(lo as int, hi as int)) == Err::<Seq<Seq<char>>, ArgsFault>(e@),
        },
{
    let ghost all = tok_views(ts@);
    let ghost rest = all.subrange(lo as int, hi as int);
    let braced = lo < hi && match &ts[lo] {
        Tok::Open(Delim::Brace) => true,
        _ => false,
    };
    proof {
        if lo < hi {
            assert(rest[0] == ts@[lo as int]@);
        }
    }
    if braced {
        match find_group_close(ts, lo, hi) {
            Some(c) => {
                let items = comma_split(ts, lo + 1, c);
                let ghost inner = all.subrange(lo + 1, c as int);
                assert(rest.subrange(1, c - lo) =~= inner);
                let ghost ci = comma_items(inner);
                let n = if items[items.len() - 1].0 == items[items.len() - 1].1 {
                    items.len() - 1
                } else {
                    items.len()
                };
                let ghost counted = counted_items(inner);
                proof {
                    assert(counted == counted_items(rest.subrange(1, (c - lo) as int)));
                    assert(ci.len() == items.len());
                    assert(ci.last() == all.subrange(items@.last().0 as int, items@.last().1 as int));
                    assert(counted.len() == n);
                    assert forall|k: int| 0 <= k < n implies counted[k] == ci[k] by {}
                }
                let mut ps: Vec<String> = Vec::new();
                let mut k: usize = 0;
                assert(counted.take(0) =~= Seq::<Seq<TokV>>::empty());
                assert(texts(ps@) =~= Seq::<Seq<char>>::empty());
                while k < n
                    invariant
                        k <= n <= items.len(),
                        counted.len() == n,
                        all == tok_views(ts@),
                        lo < c < hi,
                        rest == all.subrange(lo as int, hi as int),
                        group_close(rest) == Some((c - lo) as int),
                        rest.len() > 0 && rest[0] == TokV::Open(Delim::Brace),
                        counted == counted_items(rest.subrange(1, (c - lo) as int)),
                        forall|j: int|
                            0 <= j < n ==> (#[trigger] items@[j]).0 <= items@[j].1 <= ts.len() && all.subrange(
                                items@[j].0 as int,
                                items@[j].1 as int,
                            ) == counted[j],
                        paths_all(counted.take(k as int)) == Ok::<Seq<Seq<char>>, ArgsFault>(texts(ps@)),
                    decreases n - k,
                {
                    assert(counted.take(k + 1).drop_last() == counted.take(k as int));
                    assert(counted.take(k + 1).last() == counted[k as int]);
                    let (a, b) = items[k];
                    let ghost old_ps = ps@;
                    match read_path(ts, a, b) {
                        Ok(p) => {
                            ps.push(p);
                            assert(texts(ps@) =~= texts(old_ps).push(p@));
                        },
                        Err(e) => {
                            proof {
                                assert(paths_all(counted.take(k + 1)) == Err::<Seq<Seq<char>>, ArgsFault>(e@));
                                lemma_paths_all_err(counted, k + 1);
                                assert(group_close(rest) == Some((c - lo) as int));
                                assert(counted_items(rest.subrange(1, (c - lo) as int)) == counted);
                            }
                            return Err(e);
                        },
                    }
                    k = k + 1;
                }
                assert(counted.take(n as int) == counted);
                if c + 1 == hi {
                    Ok(ps)
                } else {
                    Err(ArgsError::ExpectedComma)
                }
            },
            None => Err(ArgsError::ExpectedPath),
        }
    } else {
        match read_path(ts, lo, hi) {
            Ok(p) => {
                let mut ps: Vec<String> = Vec::new();
                ps.push(p);
                assert(texts(ps@) =~= seq![p@]);
                Ok(ps)
            },
            Err(e) => Err(e),
        }
    }
}

/// An error reading the first paths stays an error reading them all.
proof fn lemma_paths_all_err(items: Seq<Seq<TokV>>, k: int)
    requires
        0 <= k <= items.len(),
        paths_all(items.take(k)) is Err,
    ensures
        paths_all(items) == paths_all(items.take(k)),
    decreases items.len() - k,
{
    if k < items.len() {
        assert(items.take(k + 1).drop_last() == items.take(k));
        lemma_paths_all_err(items, k + 1);
    } else {
        assert(items.take(k) == items);
    }
}

/// Applies the argument `ts[lo..hi]` (`name = value`) to `args`.
fn apply_arg(args: &mut MappingArgs, ts: &Vec<Tok>, lo: usize, hi: usize) -> (r: Result<(), ArgsError>)
    requires
        lo <= hi <= ts.len(),
    ensures
        match r {
            Ok(()) => apply_item(old(args)@, tok_views(ts@).subrange(lo as int, hi as int)) == Ok::<ArgsView, ArgsFault>(
                final(args)@,
            ),
            Err(e) => apply_item(old(args)@, tok_views(ts@).subrange(lo as int, hi as int)) == Err::<ArgsView, ArgsFault>(
                e@,
            ),
        },
{
    let ghost all = tok_views(ts@);
    let ghost it = all.subrange(lo as int, hi as int);
    let ghost a0 = args@;
    if lo == hi {
        return Err(ArgsError::ExpectedIdent);
    }
    assert(it[0] == ts@[lo as int]@);
    match &ts[lo] {
        Tok::Ident(name) => {
            if !is_accepted_ident(name.as_str()) {
                return Err(ArgsError::Keyword(name.clone()));
            }
            let kind = match arg_kind_of(name.as_str()) {
                Some(k) => k,
                None => {
                    return Err(ArgsError::UnknownArgument(name.clone()));
                },
            };
            let eq = hi - lo >= 2 && match &ts[lo + 1] {
                Tok::Punct(c, _) => *c == '=',
                _ => false,
            };
            proof {
                if hi - lo >= 2 {
                    assert(it[1] == ts@[lo + 1]@);
                }
            }
            if !eq {
                return Err(ArgsError::ExpectedEq);
            }
            let vlo = lo + 2;
            assert(it.skip(2) =~= all.subrange(vlo as int, hi as int));
            match kind {
                ArgKind::Path => match read_str(ts, vlo, hi) {
                    Ok(v) => {
                        args.path = v;
                        Ok(())
                    },
                    Err(e) => Err(e),
                },
                ArgKind::Tag => match read_str(ts, vlo, hi) {
                    Ok(v) => {
                        args.tag = Some(v);
                        Ok(())
                    },
                    Err(e) => Err(e),
                },
                ArgKind::Desc => match read_str(ts, vlo, hi) {
                    Ok(v) => {
                        args.desc = v;
                        Ok(())
                    },
                    Err(e) => Err(e),
                },
                ArgKind::Title => match read_str(ts, vlo, hi) {
                    Ok(v) => {
                        args.title = v;
                        Ok(())
                    },
                    Err(e) => Err(e),
                },
                ArgKind::FrontPath => match read_str(ts, vlo, hi) {
                    Ok(v) => {
                        args.front_path = v;
                        Ok(())
                    },
                    Err(e) => Err(e),
                },
                ArgKind::Group => match read_str(ts, vlo, hi) {
                    Ok(v) => {
                        args.group = v;
                        Ok(())
                    },
                    Err(e) => Err(e),
                },
                ArgKind::IsDataAuth => match read_bool(ts, vlo, hi) {
                    Ok(v) => {
                        args.is_data_auth = Some(v);
                        Ok(())
                    },
                    Err(e) => Err(e),
                },
                ArgKind::Auth => match read_bool(ts, vlo, hi) {
                    Ok(v) => {
                        args.auth = Some(v);
                        Ok(())
                    },
                    Err(e) => Err(e),
                },
                ArgKind::CancelGlobalPrefix => match read_bool(ts, vlo, hi) {
                    Ok(v) => {
                        args.cancel_global_prefix = v;
                        Ok(())
                    },
                    Err(e) => Err(e),
                },
                ArgKind::CancelGlobalApiPrefix => match read_bool(ts, vlo, hi) {
                    Ok(v) => {
                        args.cancel_global_api_prefix = v;
                        Ok(())
                    },
                    Err(e) => Err(e),
                },
                ArgKind::Middleware => match read_paths(ts, vlo, hi) {
                    Ok(ps) => {
                        let mut j: usize = 0;
                        while j < ps.len()
                            invariant
                                j <= ps.len(),
                                args@ == (ArgsView { middleware: a0.middleware + texts(ps@).take(j as int), ..a0 }),
                            decreases ps.len() - j,
                        {
                            let ghost before = args.middleware@;
                            args.middleware.push(ps[j].clone());
                            proof {
                                assert(args.middleware@ == before.push(ps@[j as int]));
                                assert(args.middleware@.map_values(|m: String| m@) =~= before.map_values(|m: String| m@).push(
                                    ps@[j as int]@,
                                ));
                                assert(texts(ps@).take(j + 1) == texts(ps@).take(j as int).push(ps@[j as int]@));
                                assert(args@.middleware =~= a0.middleware + texts(ps@).take(j + 1));
                            }
                            j = j + 1;
                        }
                        assert(texts(ps@).take(ps.len() as int) == texts(ps@));
                        Ok(())
                    },
                    Err(e) => Err(e),
                },
            }
        },
        _ => Err(ArgsError::ExpectedIdent),
    }
}

impl MappingArgs {
    /// No argument given: empty strings, no tag, no flags, no middleware.
    pub fn new() -> (r: Self)
        ensures
            r@ == default_args(),
    {
        let r = MappingArgs {
            path: String::new(),
            tag: None,
            desc: String::new(),
            title: String::new(),
            front_path: String::new(),
            is_data_auth: None,
            auth: None,
            group: String::new(),
            cancel_global_prefix: false,
            cancel_global_api_prefix: false,
            middleware: Vec::new(),
        };
        assert(r@.middleware =~= Seq::<Seq<char>>::empty());
        r
    }

    /// Reads the arguments of a declaration attribute: `name = value`
    /// items separated by commas (a trailing comma allowed), where `path`,
    /// `tag`, `desc`, `title`, `front_path` and `group` take a string
    /// literal, `is_data_auth`, `auth`, `cancel_global_prefix` and
    /// `cancel_global_api_prefix` take `true` or `false`, and `middleware`
    /// takes `{path, ...}` or one path. The first faulty item gives the error.
    /// Invisible groups, as a macro passes an argument on, read as their
    /// contents.
    pub fn parse(input: &Vec<Tok>) -> (r: Result<MappingArgs, ArgsError>)
        ensures
            match r {
                Ok(a) => parse_args(tok_views(input@)) == Ok::<ArgsView, ArgsFault>(a@),
                Err(e) => parse_args(tok_views(input@)) == Err::<ArgsView, ArgsFault>(e@),
            },
    {
        let vis = visible_tokens(input);
        let tokens = &vis;
        let ghost all = tok_views(tokens@);
        let items = comma_split(tokens, 0, tokens.len());
        assert(all.subrange(0, tokens.len() as int) =~= all);
        let ghost ci = comma_items(all);
        let n = if items[items.len() - 1].0 == items[items.len() - 1].1 {
            items.len() - 1
        } else {
            items.len()
        };
        let ghost counted = counted_items(all);
        proof {
            assert(ci.last() == all.subrange(items@.last().0 as int, items@.last().1 as int));
            assert(counted.len() == n);
            assert forall|k: int| 0 <= k < n implies counted[k] == ci[k] by {}
        }
        let mut args = MappingArgs::new();
        let mut k: usize = 0;
        assert(counted.take(0) =~= Seq::<Seq<TokV>>::empty());
        while k < n
            invariant
                k <= n <= items.len(),
                counted.len() == n,
                all == tok_views(tokens@),
                all == visible(tok_views(input@)),
                counted == counted_items(all),
                forall|j: int|
                    0 <= j < n ==> (#[trigger] items@[j]).0 <= items@[j].1 <= tokens.len() && all.subrange(
                        items@[j].0 as int,
                        items@[j].1 as int,
                    ) == counted[j],
                args_fold(counted.take(k as int)) == Ok::<ArgsView, ArgsFault>(args@),
            decreases n - k,
        {
            assert(counted.take(k + 1).drop_last() == counted.take(k as int));
            assert(counted.take(k + 1).last() == counted[k as int]);
            let (a, b) = items[k];
            match apply_arg(&mut args, tokens, a, b) {
                Ok(()) => {},
                Err(e) => {
                    proof {
                        lemma_args_fold_err(counted, k + 1);
                    }
                    return Err(e);
                },
            }
            k = k + 1;
        }
        assert(counted.take(n as int) == counted);
        Ok(args)
    }
}

/// An error reading the first items stays the error reading them all.
proof fn lemma_args_fold_err(items: Seq<Seq<TokV>>, k: int)
    requires
        0 <= k <= items.len(),
        args_fold(items.take(k)) is Err,
    ensures
        args_fold(items) == args_fold(items.take(k)),
    decreases items.len() - k,
{
    if k < items.len() {
        assert(items.take(k + 1).drop_last() == items.take(k));
        lemma_args_fold_err(items, k + 1);
    } else {
        assert(items.take(k) == items);
    }
}

/// Reading one argument changes only the field that the argument names
/// (the middleware list only grows); every other field is as before. In
/// particular `is_data_auth = b` leaves the authentication flag alone, and
/// only `auth = b` sets it, to `b`.
pub proof fn lemma_argument_sets_its_field(a: ArgsView, k: ArgKind, rest: Seq<TokV>)
    ensures
        apply_value(a, k, rest) matches Ok(b) ==> {
            &&& (k != ArgKind::Path ==> b.path == a.path)
            &&& (k != ArgKind::Tag ==> b.tag == a.tag)
            &&& (k != ArgKind::Desc ==> b.desc == a.desc)
            &&& (k != ArgKind::Title ==> b.title == a.title)
            &&& (k != ArgKind::FrontPath ==> b.front_path == a.front_path)
            &&& (k != ArgKind::IsDataAuth ==> b.is_data_auth == a.is_data_auth)
            &&& (k != ArgKind::Auth ==> b.auth == a.auth)
            &&& (k != ArgKind::Group ==> b.group == a.group)
            &&& (k != ArgKind::CancelGlobalPrefix ==> b.cancel_global_prefix == a.cancel_global_prefix)
            &&& (k != ArgKind::CancelGlobalApiPrefix ==> b.cancel_global_api_prefix == a.cancel_global_api_prefix)
            &&& (k != ArgKind::Middleware ==> b.middleware == a.middleware)
            &&& (k == ArgKind::Middleware ==> b.middleware.take(a.middleware.len() as int) == a.middleware)
            &&& (k == ArgKind::Auth ==> b.auth == Some(rest[0] == TokV::Ident("true"@)) && rest.len() == 1)
            &&& (k == ArgKind::IsDataAuth ==> b.is_data_auth == Some(rest[0] == TokV::Ident("true"@)) && rest.len()
                == 1)
        },
{
    if let Ok(b) = apply_value(a, k, rest) {
        if k == ArgKind::Middleware {
            assert(b.middleware.take(a.middleware.len() as int) =~= a.middleware);
        }
    }
}

/// An item that reads as an argument named `auth`.
pub open spec fn names_auth(it: Seq<TokV>) -> bool {
    it.len() > 0 && it[0] == TokV::Ident("auth"@)
}

/// Arguments without an `auth` item leave the authentication flag
/// undeclared (`None`), whatever else they set.
pub proof fn lemma_auth_only_from_auth_items(items: Seq<Seq<TokV>>)
    ensures
        args_fold(items) matches Ok(a) ==> (a.auth is Some ==> exists|i: int| 0 <= i < items.len() && names_auth(
            #[trigger] items[i],
        )),
    decreases items.len(),
{
    if items.len() > 0 {
        let dl = items.drop_last();
        lemma_auth_only_from_auth_items(dl);
        if let Ok(a0) = args_fold(dl) {
            let it = items.last();
            if let Ok(a) = apply_item(a0, it) {
                if a.auth is Some {
                    if let TokV::Ident(name) = it[0] {
                        let k = arg_kind(name)->0;
                        lemma_argument_sets_its_field(a0, k, it.skip(2));
                        if k == ArgKind::Auth {
                            assert(names_auth(items[items.len() - 1]));
                        } else {
                            let i = choose|i: int| 0 <= i < dl.len() && names_auth(#[trigger] dl[i]);
                            assert(items[i] == dl[i]);
                        }
                    }
                }
            }
        }
    }
}

} // verus!
