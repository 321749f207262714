//! Route records: what a route declaration states, and the final route
//! information (one row of the route table) with its unique key.

use vstd::prelude::*;
use crate::md5::{hex_lower, md5_digest, md5_hex};
use crate::text::{ascii_upper_text, is_ascii_text, chars_of, push_char, push_str, to_uppercase, uppercase};

verus! {

broadcast use vstd::string::group_string_axioms;

/// A route declaration as written on a handler: method, relative path
/// (`:id` already rewritten to `{id}`), tag and the other attributes.
#[derive(Debug)]
pub struct RouteEntry {
    /// HTTP method: GET/POST/PUT/DELETE/HEAD/PATCH/OPTIONS.
    pub method: String,
    /// Relative path.
    pub path: String,
    /// Unique tag of the route.
    pub tag: String,
    pub desc: String,
    pub title: String,
    /// Front-end menu route (metadata).
    pub front_path: String,
    /// Data permission flag; `None` when not declared (false).
    pub is_data_auth: Option<bool>,
    /// Authentication flag; `None` when not declared (inherited from the
    /// group chain, then the global setting, then false).
    pub auth: Option<bool>,
    /// Full prefix of the group the route belongs to (`""` for the root).
    pub group: String,
    /// Names of the route's middleware, for the route table.
    pub middleware_names: Vec<String>,
    /// Skip the global group prefix.
    pub cancel_global_prefix: bool,
    /// Skip the global API prefix.
    pub cancel_global_api_prefix: bool,
    /// Sort key `(line, module path)`.
    pub order: (u32, String),
    /// WebSocket upgrade route.
    pub is_ws: bool,
}

/// The final information of a registered route: one row of the route table.
#[derive(Debug)]
pub struct RouteInfo {
    pub method: String,
    /// Global prefixes plus the group prefix.
    pub group_prefix: String,
    pub relative_path: String,
    pub absolute_path: String,
    pub tag: String,
    pub desc: String,
    pub title: String,
    pub front_path: String,
    pub is_data_auth: bool,
    pub auth: bool,
    /// WebSocket upgrade route (its method column reads `GET(WS)`).
    pub is_ws: bool,
    /// Service name the route was configured under.
    pub service: String,
    pub middleware_names: Vec<String>,
}

/// A route's information as values.
pub struct RouteView {
    pub method: Seq<char>,
    pub group_prefix: Seq<char>,
    pub relative_path: Seq<char>,
    pub absolute_path: Seq<char>,
    pub tag: Seq<char>,
    pub desc: Seq<char>,
    pub title: Seq<char>,
    pub front_path: Seq<char>,
    pub is_data_auth: bool,
    pub auth: bool,
    pub is_ws: bool,
    pub service: Seq<char>,
    pub middleware_names: Seq<Seq<char>>,
}

/// The views of a sequence of strings.
pub open spec fn string_views(v: Seq<String>) -> Seq<Seq<char>> {
    v.map_values(|s: String| s@)
}

impl View for RouteInfo {
    type V = RouteView;

    open spec fn view(&self) -> RouteView {
        RouteView {
            method: self.method@,
            group_prefix: self.group_prefix@,
            relative_path: self.relative_path@,
            absolute_path: self.absolute_path@,
            tag: self.tag@,
            desc: self.desc@,
            title: self.title@,
            front_path: self.front_path@,
            is_data_auth: self.is_data_auth,
            auth: self.auth,
            is_ws: self.is_ws,
            service: self.service@,
            middleware_names: string_views(self.middleware_names@),
        }
    }
}

/// The views of a sequence of routes.
pub open spec fn route_views(v: Seq<RouteInfo>) -> Seq<RouteView> {
    v.map_values(|r: RouteInfo| r@)
}

/// A copy of a vector of strings.
pub fn clone_strings(v: &Vec<String>) -> (r: Vec<String>)
    ensures
        r@ == v@,
{
    let mut r: Vec<String> = Vec::new();
    let mut i: usize = 0;
    while i < v.len()
        invariant
            i <= v.len(),
            r@ == v@.take(i as int),
        decreases v.len() - i,
    {
        r.push(v[i].clone());
        assert(v@.take(i + 1) == v@.take(i as int).push(v@[i as int]));
        i = i + 1;
    }
    assert(v@.take(v.len() as int) == v@);
    r
}

impl Clone for RouteInfo {
    fn clone(&self) -> (r: Self)
        ensures
            r@ == self@,
    {
        let names = clone_strings(&self.middleware_names);
        assert(string_views(names@) =~= string_views(self.middleware_names@));
        RouteInfo {
            method: self.method.clone(),
            group_prefix: self.group_prefix.clone(),
            relative_path: self.relative_path.clone(),
            absolute_path: self.absolute_path.clone(),
            tag: self.tag.clone(),
            desc: self.desc.clone(),
            title: self.title.clone(),
            front_path: self.front_path.clone(),
            is_data_auth: self.is_data_auth,
            auth: self.auth,
            is_ws: self.is_ws,
            service: self.service.clone(),
            middleware_names: names,
        }
    }
}

/// The unique key of a route: upper-cased method, `@`, absolute path.
pub open spec fn unique_key(method: Seq<char>, absolute_path: Seq<char>) -> Seq<char> {
    uppercase(method) + seq!['@'] + absolute_path
}

/// The unique key `METHOD@absolute_path` of a route.
pub fn unique(method: &str, absolute_path: &str) -> (r: String)
    ensures
        is_ascii_text(method@) ==> uppercase(method@) == ascii_upper_text(method@),
        r@ == unique_key(method@, absolute_path@),
{
    let mut r = to_uppercase(method);
    push_char(&mut r, '@');
    push_str(&mut r, absolute_path);
    r
}

/// The MD5 (lower-case hex) of the route's unique key in UTF-8; used as a
/// permission code, not for security.
pub fn uni_md5(method: &str, absolute_path: &str) -> (r: String)
    ensures
        is_ascii_text(method@) ==> uppercase(method@) == ascii_upper_text(method@),
        r@ == hex_lower(md5_digest(vstd::utf8::encode_utf8(unique_key(method@, absolute_path@)))),
        r@.len() == 32,
{
    let key = unique(method, absolute_path);
    md5_hex(key.as_str().as_bytes())
}


/// `s` left-aligned in a column of `w` characters (padded with spaces).
pub open spec fn pad_right(s: Seq<char>, w: int) -> Seq<char> {
    if s.len() < w {
        s + Seq::new((w - s.len()) as nat, |i: int| ' ')
    } else {
        s
    }
}

/// `items` joined with the separator `sep`.
pub open spec fn join_with(items: Seq<Seq<char>>, sep: char) -> Seq<char>
    decreases items.len(),
{
    if items.len() == 0 {
        Seq::empty()
    } else if items.len() == 1 {
        items[0]
    } else {
        join_with(items.drop_last(), sep) + seq![sep] + items.last()
    }
}

/// The method column: `GET(WS)` for WebSocket routes.
pub open spec fn method_column(v: RouteView) -> Seq<char> {
    if v.is_ws {
        v.method + seq!['(', 'W', 'S', ')']
    } else {
        v.method
    }
}

/// `true` or `false`.
pub open spec fn bool_text(b: bool) -> Seq<char> {
    if b {
        seq!['t', 'r', 'u', 'e']
    } else {
        seq!['f', 'a', 'l', 's', 'e']
    }
}

/// One row of the route table: method (7), absolute path (40), tag (56),
/// auth (8), an empty column (6) and the middleware names joined by `,`,
/// separated by single spaces.
pub open spec fn table_row(v: RouteView) -> Seq<char> {
    pad_right(method_column(v), 7) + seq![' '] + pad_right(v.absolute_path, 40) + seq![' '] + pad_right(v.tag, 56)
        + seq![' '] + pad_right(bool_text(v.auth), 8) + seq![' '] + pad_right(Seq::empty(), 6) + seq![' ']
        + join_with(v.middleware_names, ',')
}

/// Appends `s` padded with spaces to `w` characters.
pub(crate) fn push_padded(r: &mut String, s: &str, w: usize)
    ensures
        final(r)@ == old(r)@ + pad_right(s@, w as int),
{
    let n = chars_of(s).len();
    push_str(r, s);
    if n < w {
        let ghost base = r@;
        let mut i = n;
        while i < w
            invariant
                n <= i <= w,
                n == s@.len(),
                r@ == base + Seq::new((i - n) as nat, |j: int| ' '),
            decreases w - i,
        {
            push_char(r, ' ');
            assert(r@ =~= base + Seq::new((i + 1 - n) as nat, |j: int| ' '));
            i = i + 1;
        }
        assert(old(r)@ + pad_right(s@, w as int) =~= base + Seq::new((w - n) as nat, |j: int| ' '));
    } else {
        assert(pad_right(s@, w as int) == s@);
    }
}

/// `items` joined with `,`.
pub fn join_names(items: &Vec<String>) -> (r: String)
    ensures
        r@ == join_with(string_views(items@), ','),
{
    let mut r = String::new();
    let mut i: usize = 0;
    while i < items.len()
        invariant
            i <= items.len(),
            r@ == join_with(string_views(items@).take(i as int), ','),
        decreases items.len() - i,
    {
        let ghost before = string_views(items@).take(i as int);
        let ghost after = string_views(items@).take(i + 1);
        assert(after.drop_last() == before);
        if i > 0 {
            push_char(&mut r, ',');
        }
        push_str(&mut r, items[i].as_str());
        proof {
            if i == 0 {
                assert(after.len() == 1);
                assert(r@ == after[0]);
            }
        }
        i = i + 1;
    }
    assert(string_views(items@).take(items.len() as int) == string_views(items@));
    r
}

impl RouteInfo {
    /// The unique key `METHOD@absolute_path` of this route.
    pub fn unique(&self) -> (r: String)
        ensures
            is_ascii_text(self.method@) ==> uppercase(self.method@) == ascii_upper_text(self.method@),
            r@ == unique_key(self.method@, self.absolute_path@),
    {
        unique(self.method.as_str(), self.absolute_path.as_str())
    }

    /// The MD5 (lower-case hex) of this route's unique key.
    pub fn uni_md5(&self) -> (r: String)
        ensures
            is_ascii_text(self.method@) ==> uppercase(self.method@) == ascii_upper_text(self.method@),
            r@ == hex_lower(md5_digest(vstd::utf8::encode_utf8(unique_key(self.method@, self.absolute_path@)))),
            r@.len() == 32,
    {
        uni_md5(self.method.as_str(), self.absolute_path.as_str())
    }

    /// This route as one row of the printed route table.
    pub fn to_row(&self) -> (r: String)
        ensures
            r@ == table_row(self@),
    {
        let mut r = String::new();
        if self.is_ws {
            let mut m = self.method.clone();
            push_str(&mut m, "(WS)");
            proof {
                reveal_strlit("(WS)");
            }
            push_padded(&mut r, m.as_str(), 7);
        } else {
            push_padded(&mut r, self.method.as_str(), 7);
        }
        push_char(&mut r, ' ');
        push_padded(&mut r, self.absolute_path.as_str(), 40);
        push_char(&mut r, ' ');
        push_padded(&mut r, self.tag.as_str(), 56);
        push_char(&mut r, ' ');
        if self.auth {
            push_padded(&mut r, "true", 8);
            proof {
                reveal_strlit("true");
            }
        } else {
            push_padded(&mut r, "false", 8);
            proof {
                reveal_strlit("false");
            }
        }
        push_char(&mut r, ' ');
        push_padded(&mut r, "", 6);
        proof {
            reveal_strlit("");
        }
        push_char(&mut r, ' ');
        let names = join_names(&self.middleware_names);
        push_str(&mut r, names.as_str());
        proof {
            assert(r@ =~= table_row(self@));
        }
        r
    }
}

} // verus!
