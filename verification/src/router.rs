//! Routing: one `matchit` radix tree per HTTP method. A request whose path no
//! tree of its method matches is answered "method not allowed" (405) when a
//! tree of another method matches the path, and "not found" (404) when none
//! does; a second registration of the same method and pattern is refused.

use vstd::prelude::*;
use vstd::utf8::encode_utf8;
use matchit::Router as MatchitRouter;
use crate::method::Method;
use crate::params::Params;
use vstd::string::StringExecFns;
use crate::text::{bytes_eq, lemma_split_on_nonempty, lemma_split_on_step, split_on, str_eq};

verus! {

// ---------------------------------------------------------------------------
// The `matchit` router, as the library uses it
// ---------------------------------------------------------------------------

/// `matchit::Router`, the radix tree of one method's routes, carried as an
/// opaque value; what the library knows of it is said by the names below.
#[verifier::external_type_specification]
#[verifier::external_body]
#[verifier::reject_recursive_types(T)]
pub struct ExMatchitRouter<T>(MatchitRouter<T>);

/// The insertions that made a `matchit` router what it is, in order, refused
/// ones included: the route as given and the value. A copy made by `clone`
/// has the insertions of the router it copies.
pub uninterp spec fn matchit_inserts(r: MatchitRouter<usize>) -> Seq<(Seq<char>, usize)>;

/// What `matchit::Router::insert` reports when `route` is inserted into a
/// router made by `inserts`: `None` for success, or the error's text.
pub uninterp spec fn matchit_insert_error(
    inserts: Seq<(Seq<char>, usize)>,
    route: Seq<char>,
) -> Option<Seq<char>>;

/// What `matchit::Router::at` finds for `path` in a router made by
/// `inserts`: the matched value and the route parameters in order.
pub uninterp spec fn matchit_lookup(inserts: Seq<(Seq<char>, usize)>, path: Seq<char>) -> Option<
    (usize, Seq<(Seq<char>, Seq<char>)>),
>;

/// A route without parameters: no `{` and no `}`.
pub open spec fn is_static_route(route: Seq<char>) -> bool {
    forall|i: int| 0 <= i < route.len() ==> route[i] != '{' && route[i] != '}'
}

/// A lookup that found a value without parameters.
pub open spec fn found_plain(found: Option<(usize, Seq<(Seq<char>, Seq<char>)>)>) -> bool {
    found matches Some((_, ps)) && ps.len() == 0
}

/// `s` cut at every `sep`, as `str::split` cuts it: there is always at least
/// one piece, and two adjacent separators leave an empty piece between them.
pub open spec fn split_chars(s: Seq<char>, sep: char) -> Seq<Seq<char>>
    decreases s.len(),
{
    if s.len() == 0 {
        seq![Seq::empty()]
    } else {
        let prev = split_chars(s.drop_last(), sep);
        if s.last() == sep {
            prev.push(Seq::empty())
        } else {
            prev.update(prev.len() - 1, prev.last().push(s.last()))
        }
    }
}

/// A route segment that is a whole named parameter, `{name}`: the name is
/// not empty and holds no `{`, `}`, `*` or `/`.
pub open spec fn is_param_segment(seg: Seq<char>) -> bool {
    &&& seg.len() >= 3
    &&& seg[0] == '{'
    &&& seg.last() == '}'
    &&& forall|i: int|
        1 <= i < seg.len() - 1 ==> seg[i] != '{' && seg[i] != '}' && seg[i] != '*' && seg[i] != '/'
}

/// The name of a parameter segment `{name}`.
pub open spec fn param_name(seg: Seq<char>) -> Seq<char> {
    seg.subrange(1, seg.len() - 1)
}

/// A literal route segment: no `{` and no `}`.
pub open spec fn is_literal_segment(seg: Seq<char>) -> bool {
    forall|i: int| 0 <= i < seg.len() ==> seg[i] != '{' && seg[i] != '}'
}

/// A route that starts with `/` and whose `/`-separated segments are each
/// literal or a whole named parameter, no name used twice.
pub open spec fn is_simple_route(route: Seq<char>) -> bool {
    let segs = split_chars(route, '/');
    &&& route.len() > 0
    &&& route[0] == '/'
    &&& forall|i: int|
        0 <= i < segs.len() ==> is_literal_segment(#[trigger] segs[i]) || is_param_segment(segs[i])
    &&& forall|i: int, j: int|
        0 <= i < j < segs.len() && is_param_segment(#[trigger] segs[i]) && is_param_segment(
            #[trigger] segs[j],
        ) ==> param_name(segs[i]) != param_name(segs[j])
}

/// `path` fits the simple route `route`: as many `/`-separated segments, the
/// literal ones equal, and a non-empty path segment for each parameter.
pub open spec fn route_fits(route: Seq<char>, path: Seq<char>) -> bool {
    let rs = split_chars(route, '/');
    let ps = split_chars(path, '/');
    &&& rs.len() == ps.len()
    &&& forall|i: int|
        0 <= i < rs.len() ==> if is_param_segment(#[trigger] rs[i]) {
            ps[i].len() > 0
        } else {
            rs[i] == ps[i]
        }
}

/// The (name, path segment) pairs that route segments `rs` bind on path
/// segments `ps`, in order.
pub open spec fn bound_segments(rs: Seq<Seq<char>>, ps: Seq<Seq<char>>) -> Seq<
    (Seq<char>, Seq<char>),
>
    decreases rs.len(),
{
    if rs.len() == 0 || ps.len() == 0 {
        Seq::empty()
    } else {
        let prev = bound_segments(rs.drop_last(), ps.drop_last());
        if is_param_segment(rs.last()) {
            prev.push((param_name(rs.last()), ps.last()))
        } else {
            prev
        }
    }
}

/// The parameters that the simple route `route` binds on `path`: each
/// parameter's name with its path segment, in order.
pub open spec fn bound_params(route: Seq<char>, path: Seq<char>) -> Seq<(Seq<char>, Seq<char>)> {
    bound_segments(split_chars(route, '/'), split_chars(path, '/'))
}

/// No insertion of `inserts` could match `path` in place of a new route: each
/// is a simple route and `path` does not fit it.
pub open spec fn no_prior_fit(inserts: Seq<(Seq<char>, usize)>, path: Seq<char>) -> bool {
    forall|k: int|
        0 <= k < inserts.len() ==> is_simple_route(#[trigger] inserts[k].0) && !route_fits(
            inserts[k].0,
            path,
        )
}

/// `s` as `matchit` reads a route before looking for parameters: scanning
/// from the front, each `{{` and each `}}` is taken as one brace, marked as
/// escaped; every other byte is kept, unmarked.
pub open spec fn unescaped(s: Seq<u8>) -> Seq<(u8, bool)>
    decreases s.len(),
{
    if s.len() == 0 {
        Seq::empty()
    } else if s.len() >= 2 && ((s[0] == 0x7b && s[1] == 0x7b) || (s[0] == 0x7d && s[1] == 0x7d)) {
        seq![(s[0], true)] + unescaped(s.subrange(2, s.len() as int))
    } else {
        seq![(s[0], false)] + unescaped(s.subrange(1, s.len() as int))
    }
}

/// Whether position `i` of an unescaped route can start a named parameter
/// for `matchit`: a `{` not followed by `*` (a catch-all), and either not
/// escaped or right after a `}`, where `matchit`'s renaming of the parameter
/// before it can shift the escape mark away.
pub open spec fn may_start_param(u: Seq<(u8, bool)>, i: int) -> bool {
    &&& u[i].0 == 0x7b
    &&& !(i + 1 < u.len() && u[i + 1].0 == 0x2a)
    &&& (!u[i].1 || (i > 0 && u[i - 1].0 == 0x7d))
}

/// How many positions from `i` on may start a named parameter.
pub open spec fn param_starts_from(u: Seq<(u8, bool)>, i: int) -> nat
    decreases u.len() - i,
{
    if i < 0 || i >= u.len() {
        0
    } else {
        (if may_start_param(u, i) {
            1nat
        } else {
            0nat
        }) + param_starts_from(u, i + 1)
    }
}

/// A route that `matchit` can take without panicking: it renames the named
/// parameters of a route `a` to `z` and panics on the 26th, and each one it
/// renames starts at a position that [`may_start_param`]; a route with at
/// most 25 of them is safe.
pub open spec fn within_param_limit(route: Seq<char>) -> bool {
    param_starts_from(unescaped(encode_utf8(route)), 0) <= 25
}

/// Whether `matchit` can take `route` without panicking (see
/// [`within_param_limit`]); callers that cannot prove it test it first.
pub fn route_within_param_limit(route: &str) -> (res: bool)
    ensures
        res == within_param_limit(route@),
{
    let bytes = route.as_bytes();
    let n = bytes.len();
    let mut u: Vec<(u8, bool)> = Vec::new();
    let mut i: usize = 0;
    proof {
        assert(bytes@.subrange(0, n as int) =~= bytes@);
        assert(u@ + unescaped(bytes@) =~= unescaped(bytes@));
    }
    while i < n
        invariant
            n == bytes@.len(),
            i <= n,
            unescaped(bytes@) == u@ + unescaped(bytes@.subrange(i as int, n as int)),
        decreases n - i,
    {
        let rest = Ghost(bytes@.subrange(i as int, n as int));
        let c = bytes[i];
        if i + 1 < n && (c == 0x7b || c == 0x7d) && bytes[i + 1] == c {
            u.push((c, true));
            proof {
                assert(rest@.subrange(2, rest@.len() as int) =~= bytes@.subrange(i + 2, n as int));
                assert(unescaped(rest@) == seq![(c, true)] + unescaped(bytes@.subrange(i + 2, n as int)));
            }
            i += 2;
        } else {
            u.push((c, false));
            proof {
                assert(rest@.subrange(1, rest@.len() as int) =~= bytes@.subrange(i + 1, n as int));
                assert(unescaped(rest@) == seq![(c, false)] + unescaped(bytes@.subrange(i + 1, n as int)));
            }
            i += 1;
        }
    }
    proof {
        assert(bytes@.subrange(n as int, n as int) =~= Seq::<u8>::empty());
        assert(u@ + Seq::<(u8, bool)>::empty() =~= u@);
    }
    let m = u.len();
    let mut count: usize = 0;
    let mut j: usize = 0;
    while j < m
        invariant
            m == u@.len(),
            j <= m,
            count <= j,
            count + param_starts_from(u@, j as int) == param_starts_from(u@, 0),
        decreases m - j,
    {
        let starts = u[j].0 == 0x7b && !(j + 1 < m && u[j + 1].0 == 0x2a) && (!u[j].1 || (j > 0
            && u[j - 1].0 == 0x7d));
        assert(starts == may_start_param(u@, j as int));
        if starts {
            count += 1;
        }
        j += 1;
    }
    count <= 25
}

/// Calls `matchit::Router::new`: a router made by no insertion.
#[verifier::external_body]
fn matchit_new() -> (r: MatchitRouter<usize>)
    ensures
        matchit_inserts(r) == Seq::<(Seq<char>, usize)>::empty(),
{
    MatchitRouter::new()
}

/// Calls `Clone::clone` on a `matchit::Router` (derived in `matchit`): a copy
/// of the tree, with the insertions of the router it copies.
#[verifier::external_body]
fn matchit_clone(r: &MatchitRouter<usize>) -> (c: MatchitRouter<usize>)
    ensures
        matchit_inserts(c) == matchit_inserts(*r),
{
    r.clone()
}

/// Calls `matchit::Router::insert` and gives the error back as its text
/// (its `Display`). The contract records the insertion whatever the outcome
/// and names the outcome as a function of the earlier insertions and the
/// route; it claims nothing of when `matchit` refuses a route. Of lookups
/// after a successful insertion it claims what the `matchit` documentation
/// and source show: a static route is then found at its own path, without
/// parameters (static segments take priority); a path found without
/// parameters before is found the same after (values are never removed by
/// insertion); and a path that fits a simple route, where no earlier
/// insertion could match it, finds the new value with each parameter bound
/// to its segment, in order. The `requires` keeps out the routes on which
/// `matchit` panics.
#[verifier::external_body]
fn matchit_insert(r: &mut MatchitRouter<usize>, route: &str, value: usize) -> (res: Result<
    (),
    String,
>)
    requires
        within_param_limit(route@),
    ensures
        matchit_inserts(*final(r)) == matchit_inserts(*old(r)).push((route@, value)),
        res is Ok <==> matchit_insert_error(matchit_inserts(*old(r)), route@) is None,
        res matches Err(msg) ==> matchit_insert_error(matchit_inserts(*old(r)), route@) == Some(
            msg@,
        ),
        res is Ok && is_static_route(route@) ==> matchit_lookup(matchit_inserts(*final(r)), route@)
            == Some((value, Seq::<(Seq<char>, Seq<char>)>::empty())),
        res is Ok ==> forall|q: Seq<char>|
            is_static_route(q) && found_plain(#[trigger] matchit_lookup(matchit_inserts(*old(r)), q))
                ==> matchit_lookup(matchit_inserts(*final(r)), q) == matchit_lookup(
                matchit_inserts(*old(r)),
                q,
            ),
        res is Ok && is_simple_route(route@) ==> forall|path: Seq<char>|
            route_fits(route@, path) && no_prior_fit(matchit_inserts(*old(r)), path)
                ==> #[trigger] matchit_lookup(matchit_inserts(*final(r)), path) == Some(
                (value, bound_params(route@, path)),
            ),
{
    match r.insert(route, value) {
        Ok(()) => Ok(()),
        Err(e) => Err(e.to_string()),
    }
}

/// The views of a list of text pairs.
pub open spec fn pair_views(ps: Seq<(String, String)>) -> Seq<(Seq<char>, Seq<char>)> {
    ps.map_values(|p: (String, String)| (p.0@, p.1@))
}

/// Calls `matchit::Router::at` and hands out the matched value and the
/// parameters as owned text pairs, in order. The contract names the result
/// as a function of the insertions the tree has seen and the path, and
/// claims one fact of it that the `matchit` source shows: a value found is
/// one that was inserted, as values get into the tree only by insertion.
#[verifier::external_body]
fn matchit_at(r: &MatchitRouter<usize>, path: &str) -> (res: Option<(usize, Vec<(String, String)>)>)
    ensures
        match res {
            None => matchit_lookup(matchit_inserts(*r), path@) is None,
            Some((v, ps)) => matchit_lookup(matchit_inserts(*r), path@) == Some(
                (v, pair_views(ps@)),
            ),
        },
        res matches Some((v, _)) ==> exists|i: int|
            0 <= i < matchit_inserts(*r).len() && #[trigger] matchit_inserts(*r)[i].1 == v,
{
    match r.at(path) {
        Ok(m) => Some((*m.value, m.params.iter().map(|(k, v)| (k.to_string(), v.to_string())).collect())),
        Err(_) => None,
    }
}

// ---------------------------------------------------------------------------
// Path shapes
// ---------------------------------------------------------------------------

/// A pattern segment fits a path segment when it is a parameter (`{...}`)
/// or the same text.
pub open spec fn segment_fits(p: Seq<u8>, s: Seq<u8>) -> bool {
    (p.len() > 0 && p[0] == 0x7b && p.last() == 0x7d) || p == s
}

/// `path` has as many `/`-separated segments as `pattern`, and each fits.
pub open spec fn fits_pattern(pattern: Seq<char>, path: Seq<char>) -> bool {
    let ps = split_on(encode_utf8(pattern), 0x2f);
    let ss = split_on(encode_utf8(path), 0x2f);
    &&& ps.len() == ss.len()
    &&& forall|i: int| 0 <= i < ps.len() ==> segment_fits(#[trigger] ps[i], ss[i])
}

pub open spec fn vec_views(v: Seq<Vec<u8>>) -> Seq<Seq<u8>> {
    v.map_values(|x: Vec<u8>| x@)
}

/// `s` cut at every `sep`.
fn split_bytes(s: &[u8], sep: u8) -> (res: Vec<Vec<u8>>)
    ensures
        vec_views(res@) == split_on(s@, sep),
{
    let mut pieces: Vec<Vec<u8>> = Vec::new();
    let mut cur: Vec<u8> = Vec::new();
    let mut i: usize = 0;
    while i < s.len()
        invariant
            i <= s@.len(),
            split_on(s@.take(i as int), sep).len() >= 1,
            vec_views(pieces@) == split_on(s@.take(i as int), sep).drop_last(),
            cur@ == split_on(s@.take(i as int), sep).last(),
        decreases s@.len() - i,
    {
        proof {
            lemma_split_on_step(s@, sep, i as int);
            lemma_split_on_nonempty(s@.take(i + 1), sep);
        }
        let ghost prev = split_on(s@.take(i as int), sep);
        let ghost old_pieces = pieces@;
        if s[i] == sep {
            let done = cur;
            cur = Vec::new();
            pieces.push(done);
            proof {
                assert(vec_views(pieces@) =~= vec_views(old_pieces).push(prev.last()));
                assert(prev =~= prev.drop_last().push(prev.last()));
                assert(split_on(s@.take(i + 1), sep).drop_last() =~= prev);
            }
        } else {
            cur.push(s[i]);
            proof {
                assert(split_on(s@.take(i + 1), sep).drop_last() =~= prev.drop_last());
            }
        }
        i += 1;
    }
    let ghost old_pieces = pieces@;
    pieces.push(cur);
    proof {
        let all = split_on(s@.take(i as int), sep);
        assert(s@.take(i as int) =~= s@);
        assert(vec_views(pieces@) =~= vec_views(old_pieces).push(all.last()));
        assert(all =~= all.drop_last().push(all.last()));
    }
    pieces
}

/// Whether `path` has the shape of `pattern`: the same number of
/// `/`-separated segments, each either equal to the pattern's or matched by a
/// `{...}` parameter segment. A rough, structural test: it does not follow
/// `matchit` (a `{*rest}` segment counts as one, an empty segment fits a
/// parameter), so routing asks the trees themselves.
pub fn matches_any_method(pattern: &str, path: &str) -> (res: bool)
    ensures
        res == fits_pattern(pattern@, path@),
{
    let pat_segs = split_bytes(pattern.as_bytes(), 0x2f);
    let path_segs = split_bytes(path.as_bytes(), 0x2f);
    let ghost ps = split_on(encode_utf8(pattern@), 0x2f);
    let ghost ss = split_on(encode_utf8(path@), 0x2f);
    if pat_segs.len() != path_segs.len() {
        proof {
            assert(vec_views(pat_segs@).len() == pat_segs@.len());
        }
        return false;
    }
    let mut i: usize = 0;
    while i < pat_segs.len()
        invariant
            pat_segs@.len() == path_segs@.len(),
            ps == split_on(encode_utf8(pattern@), 0x2f),
            ss == split_on(encode_utf8(path@), 0x2f),
            vec_views(pat_segs@) == ps,
            vec_views(path_segs@) == ss,
            i <= pat_segs@.len(),
            forall|j: int| 0 <= j < i ==> segment_fits(#[trigger] ps[j], ss[j]),
        decreases pat_segs@.len() - i,
    {
        let p = &pat_segs[i];
        let s = &path_segs[i];
        assert(ps[i as int] == p@);
        assert(ss[i as int] == s@);
        let param = p.len() > 0 && p[0] == 0x7b && p[p.len() - 1] == 0x7d;
        if !param && !bytes_eq(p.as_slice(), s.as_slice()) {
            assert(!segment_fits(ps[i as int], ss[i as int]));
            assert(!fits_pattern(pattern@, path@));
            return false;
        }
        i += 1;
    }
    true
}

} // verus!

verus! {

// ---------------------------------------------------------------------------
// Errors
// ---------------------------------------------------------------------------

/// Errors raised by route registration or matching.
#[derive(Debug)]
pub enum RouterError {
    /// Invalid route pattern (e.g. malformed `{id`).
    InvalidPattern(String),
    /// Duplicate registration of the same (method, pattern).
    Conflict(String),
    /// Path matched but no route exists for this HTTP method.
    MethodNotAllowed,
    /// No route matched the path at all.
    NotFound,
}

impl RouterError {
    /// The error's text, as it is shown to people.
    pub open spec fn message_text(&self) -> Seq<char> {
        match self {
            RouterError::InvalidPattern(s) => "invalid route pattern: "@ + s@,
            RouterError::Conflict(s) => "route conflict: "@ + s@,
            RouterError::MethodNotAllowed => "method not allowed"@,
            RouterError::NotFound => "not found"@,
        }
    }

    /// The error's text, as it is shown to people.
    pub fn message(&self) -> (res: String)
        ensures
            res@ == self.message_text(),
    {
        match self {
            RouterError::InvalidPattern(s) => {
                let mut out = "invalid route pattern: ".to_owned();
                out.append(s.as_str());
                out
            },
            RouterError::Conflict(s) => {
                let mut out = "route conflict: ".to_owned();
                out.append(s.as_str());
                out
            },
            RouterError::MethodNotAllowed => "method not allowed".to_owned(),
            RouterError::NotFound => "not found".to_owned(),
        }
    }
}

// ---------------------------------------------------------------------------
// The router
// ---------------------------------------------------------------------------

/// The routes of one method: a `matchit` tree whose values index the
/// router's handlers.
struct MethodRoutes {
    method: Method,
    inner: MatchitRouter<usize>,
}

/// The insertions of each method's tree, by method name.
spec fn tables_of(routes: Seq<MethodRoutes>) -> Map<Seq<char>, Seq<(Seq<char>, usize)>>
    decreases routes.len(),
{
    if routes.len() == 0 {
        Map::empty()
    } else {
        tables_of(routes.drop_last()).insert(
            routes.last().method@,
            matchit_inserts(routes.last().inner),
        )
    }
}

spec fn methods_distinct(routes: Seq<MethodRoutes>) -> bool {
    forall|i: int, j: int|
        0 <= i < j < routes.len() ==> #[trigger] routes[i].method@ != #[trigger] routes[j].method@
}

proof fn lemma_tables_dom(routes: Seq<MethodRoutes>, m: Seq<char>)
    ensures
        tables_of(routes).contains_key(m) <==> exists|i: int|
            0 <= i < routes.len() && #[trigger] routes[i].method@ == m,
    decreases routes.len(),
{
    if routes.len() > 0 {
        let prefix = routes.drop_last();
        lemma_tables_dom(prefix, m);
        if tables_of(routes).contains_key(m) {
            if m != routes.last().method@ {
                let i = choose|i: int| 0 <= i < prefix.len() && #[trigger] prefix[i].method@ == m;
                assert(routes[i].method@ == m);
            } else {
                assert(routes[routes.len() - 1].method@ == m);
            }
        }
        if exists|i: int| 0 <= i < routes.len() && #[trigger] routes[i].method@ == m {
            let i = choose|i: int| 0 <= i < routes.len() && #[trigger] routes[i].method@ == m;
            if i < routes.len() - 1 {
                assert(prefix[i].method@ == m);
            }
        }
    }
}

proof fn lemma_tables_index(routes: Seq<MethodRoutes>, i: int)
    requires
        methods_distinct(routes),
        0 <= i < routes.len(),
    ensures
        tables_of(routes).contains_key(routes[i].method@),
        tables_of(routes)[routes[i].method@] == matchit_inserts(routes[i].inner),
    decreases routes.len(),
{
    if i < routes.len() - 1 {
        let prefix = routes.drop_last();
        assert(prefix[i] == routes[i]);
        lemma_tables_index(prefix, i);
        assert(routes[i].method@ != routes[routes.len() - 1].method@);
    }
}

proof fn lemma_tables_update(routes: Seq<MethodRoutes>, i: int, r: MethodRoutes)
    requires
        methods_distinct(routes),
        0 <= i < routes.len(),
        r.method@ == routes[i].method@,
    ensures
        methods_distinct(routes.update(i, r)),
        tables_of(routes.update(i, r)) == tables_of(routes).insert(r.method@, matchit_inserts(r.inner)),
    decreases routes.len(),
{
    let updated = routes.update(i, r);
    assert forall|a: int, b: int| 0 <= a < b < updated.len() implies #[trigger] updated[a].method@
        != #[trigger] updated[b].method@ by {
        assert(routes[a].method@ != routes[b].method@);
    }
    let prefix = routes.drop_last();
    if i == routes.len() - 1 {
        assert(updated.drop_last() =~= prefix);
        assert(tables_of(updated) =~= tables_of(routes).insert(r.method@, matchit_inserts(r.inner)));
    } else {
        assert(updated.drop_last() =~= prefix.update(i, r));
        lemma_tables_update(prefix, i, r);
        assert(routes[i].method@ != routes.last().method@);
        assert(tables_of(updated) =~= tables_of(routes).insert(r.method@, matchit_inserts(r.inner)));
    }
}

/// The (method, pattern) pairs of a registration list, by name.
pub open spec fn registration_views(rs: Seq<(Method, String)>) -> Seq<(Seq<char>, Seq<char>)> {
    rs.map_values(|r: (Method, String)| (r.0@, r.1@))
}

/// The router's fields, free to be changed in steps; `Router` keeps them
/// well formed between calls.
struct RouterState<H> {
    routes: Vec<MethodRoutes>,
    /// Every (method, pattern) registered with success, for conflict detection.
    registered: Vec<(Method, String)>,
    handlers: Vec<H>,
}

impl<H> RouterState<H> {
    spec fn wf(self) -> bool {
        &&& methods_distinct(self.routes@)
        &&& registration_views(self.registered@).no_duplicates()
        &&& forall|m: Seq<char>, k: int|
            tables_of(self.routes@).contains_key(m) && 0 <= k < tables_of(self.routes@)[m].len()
                ==> #[trigger] tables_of(self.routes@)[m][k].1 < self.handlers@.len()
    }

    fn empty() -> (res: RouterState<H>)
        ensures
            res.wf(),
            res.routes@.len() == 0,
            res.registered@.len() == 0,
            res.handlers@.len() == 0,
    {
        let res = RouterState { routes: Vec::new(), registered: Vec::new(), handlers: Vec::new() };
        proof {
            assert(registration_views(res.registered@) =~= Seq::<(Seq<char>, Seq<char>)>::empty());
        }
        res
    }

    /// The position of `method`'s tree, if it has one.
    fn slot_of(&self, method: &Method) -> (res: Option<usize>)
        requires
            self.wf(),
        ensures
            match res {
                Some(i) => i < self.routes@.len() && self.routes@[i as int].method@ == method@
                    && tables_of(self.routes@).contains_key(method@) && tables_of(self.routes@)[method@]
                    == matchit_inserts(self.routes@[i as int].inner),
                None => !tables_of(self.routes@).contains_key(method@),
            },
    {
        let mut i: usize = 0;
        while i < self.routes.len()
            invariant
                i <= self.routes@.len(),
                forall|j: int| 0 <= j < i ==> #[trigger] self.routes@[j].method@ != method@,
            ensures
                i <= self.routes@.len(),
                forall|j: int| 0 <= j < i ==> #[trigger] self.routes@[j].method@ != method@,
                i < self.routes@.len() ==> self.routes@[i as int].method@ == method@,
            decreases self.routes@.len() - i,
        {
            if self.routes[i].method.same_as(method) {
                break;
            }
            i += 1;
        }
        proof {
            lemma_tables_dom(self.routes@, method@);
        }
        if i < self.routes.len() {
            proof {
                lemma_tables_index(self.routes@, i as int);
            }
            Some(i)
        } else {
            None
        }
    }

    /// Whether (`method`, `pattern`) has been registered before.
    fn is_registered(&self, method: &Method, pattern: &str) -> (res: bool)
        ensures
            res == registration_views(self.registered@).contains((method@, pattern@)),
    {
        let mut r: usize = 0;
        while r < self.registered.len()
            invariant
                r <= self.registered@.len(),
                forall|j: int|
                    0 <= j < r ==> #[trigger] registration_views(self.registered@)[j] != (
                        method@,
                        pattern@,
                    ),
            decreases self.registered@.len() - r,
        {
            let entry = &self.registered[r];
            if entry.0.same_as(method) && str_eq(entry.1.as_str(), pattern) {
                proof {
                    assert(registration_views(self.registered@)[r as int] == (method@, pattern@));
                }
                return true;
            }
            r += 1;
        }
        false
    }
}

/// The map that a list of path parameters stands for: a later parameter
/// replaces an earlier one of the same name.
pub open spec fn pairs_map(ps: Seq<(Seq<char>, Seq<char>)>) -> Map<Seq<char>, Seq<char>>
    decreases ps.len(),
{
    if ps.len() == 0 {
        Map::empty()
    } else {
        pairs_map(ps.drop_last()).insert(ps.last().0, ps.last().1)
    }
}

/// Path parameters gathered into a map, each in turn.
fn params_from_pairs(ps: &Vec<(String, String)>) -> (res: Params)
    ensures
        res@ == pairs_map(pair_views(ps@)),
{
    let mut out = Params::new();
    let mut j: usize = 0;
    while j < ps.len()
        invariant
            j <= ps@.len(),
            out@ == pairs_map(pair_views(ps@).take(j as int)),
        decreases ps@.len() - j,
    {
        let k = ps[j].0.clone();
        let v = ps[j].1.clone();
        out.insert(k, v);
        proof {
            let views = pair_views(ps@);
            assert(views.take(j + 1).drop_last() =~= views.take(j as int));
        }
        j += 1;
    }
    proof {
        assert(pair_views(ps@).take(j as int) =~= pair_views(ps@));
    }
    out
}

/// How `Router::add` changes a router and what it answers. A pair registered
/// with success before gives `Conflict("METHOD pattern")`. Otherwise the
/// pattern is inserted into the method's tree: on success the pair is
/// recorded, the handler kept and the insertion added to the tree; on the
/// tree's refusal the answer is `InvalidPattern("pattern: reason")`. Any
/// answer but success leaves the router as it was.
pub open spec fn added<H>(
    before: Router<H>,
    after: Router<H>,
    method: Seq<char>,
    pattern: Seq<char>,
    handler: H,
    res: Result<(), RouterError>,
) -> bool {
    &&& before.registrations().contains((method, pattern)) ==> (res matches Err(
        RouterError::Conflict(msg),
    ) && msg@ == method + " "@ + pattern)
    &&& !before.registrations().contains((method, pattern)) ==> {
        let prior = before.table_or_empty(method);
        let value = before.handlers().len() as usize;
        let table = prior.push((pattern, value));
        match matchit_insert_error(prior, pattern) {
            None => {
                &&& res is Ok
                &&& before.handlers().len() <= usize::MAX
                &&& after.registrations() == before.registrations().push((method, pattern))
                &&& after.tables() == before.tables().insert(method, table)
                &&& after.handlers() == before.handlers().push(handler)
                &&& is_static_route(pattern) ==> matchit_lookup(table, pattern) == Some(
                    (value, Seq::<(Seq<char>, Seq<char>)>::empty()),
                )
                &&& forall|q: Seq<char>|
                    is_static_route(q) && found_plain(#[trigger] matchit_lookup(prior, q))
                        ==> matchit_lookup(table, q) == matchit_lookup(prior, q)
                &&& is_simple_route(pattern) ==> forall|path: Seq<char>|
                    route_fits(pattern, path) && no_prior_fit(prior, path)
                        ==> #[trigger] matchit_lookup(table, path) == Some(
                        (value, bound_params(pattern, path)),
                    )
            },
            Some(reason) => (res matches Err(RouterError::InvalidPattern(msg)) && msg@ == pattern
                + ": "@ + reason),
        }
    }
    &&& !(res is Ok) ==> {
        &&& after.registrations() == before.registrations()
        &&& after.tables() == before.tables()
        &&& after.handlers() == before.handlers()
    }
}

/// The answer to a registration from what the tree said of the insertion:
/// success, or `InvalidPattern("pattern: reason")`.
pub fn registration_result(pattern: &str, outcome: Result<(), String>) -> (res: Result<(), RouterError>)
    ensures
        outcome is Ok ==> res is Ok,
        outcome matches Err(reason) ==> (res matches Err(RouterError::InvalidPattern(msg)) && msg@
            == pattern@ + ": "@ + reason@),
{
    match outcome {
        Ok(()) => Ok(()),
        Err(e) => {
            let mut msg = pattern.to_owned();
            msg.append(": ");
            msg.append(e.as_str());
            Err(RouterError::InvalidPattern(msg))
        },
    }
}

/// What [`Router::match_route`] gives: the matched handler and the path
/// parameters, or why no handler matched.
pub type MatchResult<'a, H> = Result<(&'a H, Params), RouterError>;

/// A per-method router. Routes are keyed by (method, pattern); the pattern
/// syntax is `matchit`'s (`/users/{id}`, `/files/{*path}`).
pub struct Router<H> {
    state: RouterState<H>,
}

impl<H> Router<H> {
    #[verifier::type_invariant]
    spec fn well_formed(self) -> bool {
        self.state.wf()
    }

    /// The insertions each method's tree is made of, by method name.
    pub closed spec fn tables(self) -> Map<Seq<char>, Seq<(Seq<char>, usize)>> {
        tables_of(self.state.routes@)
    }

    /// The insertions `method`'s tree is made of (none if it has no tree).
    pub open spec fn table_or_empty(self, method: Seq<char>) -> Seq<(Seq<char>, usize)> {
        if self.tables().contains_key(method) {
            self.tables()[method]
        } else {
            Seq::empty()
        }
    }

    /// Every (method, pattern) registered with success, in order.
    pub closed spec fn registrations(self) -> Seq<(Seq<char>, Seq<char>)> {
        registration_views(self.state.registered@)
    }

    /// The handlers, indexed by the values in the trees.
    pub closed spec fn handlers(self) -> Seq<H> {
        self.state.handlers@
    }

    /// What the tree of `method` finds for `path`.
    pub open spec fn lookup(self, method: Seq<char>, path: Seq<char>) -> Option<
        (usize, Seq<(Seq<char>, Seq<char>)>),
    > {
        if self.tables().contains_key(method) {
            matchit_lookup(self.tables()[method], path)
        } else {
            None
        }
    }

    /// Whether the tree of some method matches `path`.
    pub open spec fn matched_by_some_method(self, path: Seq<char>) -> bool {
        exists|m: Seq<char>| #[trigger] self.lookup(m, path) is Some
    }

    pub fn new() -> (res: Router<H>)
        ensures
            res.registrations() == Seq::<(Seq<char>, Seq<char>)>::empty(),
            res.tables() == Map::<Seq<char>, Seq<(Seq<char>, usize)>>::empty(),
            res.handlers() == Seq::<H>::empty(),
    {
        let state = RouterState::empty();
        proof {
            assert(registration_views(state.registered@) =~= Seq::<(Seq<char>, Seq<char>)>::empty());
            assert(state.handlers@ =~= Seq::<H>::empty());
            assert(tables_of(state.routes@) =~= Map::<Seq<char>, Seq<(Seq<char>, usize)>>::empty());
        }
        Router { state }
    }

    /// Registers `handler` for (`method`, `pattern`).
    ///
    /// A pair registered with success before is refused with
    /// `Conflict("METHOD pattern")`. Otherwise the pattern is inserted into
    /// the method's tree; if the tree refuses it, the result is
    /// `InvalidPattern("pattern: reason")`. A refused registration leaves the
    /// router as it was.
    pub fn add(&mut self, method: Method, pattern: &str, handler: H) -> (res: Result<(), RouterError>)
        requires
            within_param_limit(pattern@),
        ensures
            added(*old(self), *final(self), method@, pattern@, handler, res),
    {
        proof {
            use_type_invariant(&*self);
        }
        if self.state.is_registered(&method, pattern) {
            let mut msg = method.as_str().to_owned();
            msg.append(" ");
            msg.append(pattern);
            return Err(RouterError::Conflict(msg));
        }
        let slot = self.state.slot_of(&method);
        let mut tree = match slot {
            Some(i) => matchit_clone(&self.state.routes[i].inner),
            None => matchit_new(),
        };
        let value = self.state.handlers.len();
        let outcome = matchit_insert(&mut tree, pattern, value);
        if outcome.is_err() {
            return registration_result(pattern, outcome);
        }
        let mut st = RouterState::empty();
        std::mem::swap(&mut st, &mut self.state);
        let ghost st0 = st;
        let ghost prior = if tables_of(st0.routes@).contains_key(method@) {
            tables_of(st0.routes@)[method@]
        } else {
            Seq::empty()
        };
        let fresh = MethodRoutes { method: method.clone(), inner: tree };
        match slot {
            Some(i) => {
                st.routes.set(i, fresh);
                proof {
                    lemma_tables_update(st0.routes@, i as int, fresh);
                }
            },
            None => {
                st.routes.push(fresh);
                proof {
                    lemma_tables_dom(st0.routes@, method@);
                    assert(st.routes@.drop_last() =~= st0.routes@);
                    assert forall|a: int, b: int| 0 <= a < b < st.routes@.len() implies #[trigger] st.routes@[a].method@
                        != #[trigger] st.routes@[b].method@ by {
                        if b < st0.routes@.len() {
                            assert(st0.routes@[a].method@ != st0.routes@[b].method@);
                        } else {
                            assert(st0.routes@[a].method@ != method@);
                        }
                    }
                }
            },
        }
        st.handlers.push(handler);
        st.registered.push((method, pattern.to_owned()));
        proof {
            let table = prior.push((pattern@, value));
            assert(tables_of(st.routes@) =~= tables_of(st0.routes@).insert(method@, table));
            let views = registration_views(st.registered@);
            assert(views =~= registration_views(st0.registered@).push((method@, pattern@)));
            assert forall|a: int, b: int| 0 <= a < views.len() && 0 <= b < views.len() && a != b implies views[a] != views[b] by {
                if a < views.len() - 1 && b < views.len() - 1 {
                    assert(registration_views(st0.registered@)[a] == views[a]);
                    assert(registration_views(st0.registered@)[b] == views[b]);
                } else if a == views.len() - 1 {
                    assert(registration_views(st0.registered@)[b] == views[b]);
                } else {
                    assert(registration_views(st0.registered@)[a] == views[a]);
                }
            }
            assert forall|m: Seq<char>, k: int|
                tables_of(st.routes@).contains_key(m) && 0 <= k < tables_of(st.routes@)[m].len()
                    implies #[trigger] tables_of(st.routes@)[m][k].1 < st.handlers@.len() by {
                if m != method@ {
                    assert(tables_of(st0.routes@)[m][k].1 < st0.handlers@.len());
                } else if k < prior.len() {
                    assert(tables_of(st0.routes@)[m][k].1 < st0.handlers@.len());
                }
            }
            assert(st.handlers@ =~= st0.handlers@.push(handler));
        }
        self.state = st;
        Ok(())
    }

    /// What the tree of `method` finds for `path`, with the matched value
    /// known to index a handler.
    fn find_in_tree(&self, method: &Method, path: &str) -> (res: Option<(usize, Vec<(String, String)>)>)
        ensures
            match res {
                None => self.lookup(method@, path@) is None,
                Some((v, ps)) => self.lookup(method@, path@) == Some((v, pair_views(ps@))) && v
                    < self.handlers().len(),
            },
    {
        proof {
            use_type_invariant(self);
        }
        let st = &self.state;
        match st.slot_of(method) {
            Some(i) => {
                let found = matchit_at(&st.routes[i].inner, path);
                proof {
                    if let Some((v, _)) = found {
                        let ins = matchit_inserts(st.routes@[i as int].inner);
                        let k = choose|k: int| 0 <= k < ins.len() && #[trigger] ins[k].1 == v;
                        assert(tables_of(st.routes@)[method@][k].1 < st.handlers@.len());
                    }
                }
                found
            },
            None => None,
        }
    }

    /// Whether the tree of some method matches `path`.
    fn matched_anywhere(&self, path: &str) -> (res: bool)
        ensures
            res == self.matched_by_some_method(path@),
    {
        proof {
            use_type_invariant(self);
        }
        let st = &self.state;
        let mut j: usize = 0;
        while j < st.routes.len()
            invariant
                *st == self.state,
                st.wf(),
                j <= st.routes@.len(),
                forall|k: int|
                    0 <= k < j ==> matchit_lookup(matchit_inserts(#[trigger] st.routes@[k].inner), path@)
                        is None,
            decreases st.routes@.len() - j,
        {
            let found = matchit_at(&st.routes[j].inner, path);
            if found.is_some() {
                proof {
                    lemma_tables_index(st.routes@, j as int);
                    assert(self.lookup(st.routes@[j as int].method@, path@) is Some);
                }
                return true;
            }
            j += 1;
        }
        proof {
            assert forall|m: Seq<char>| !(#[trigger] self.lookup(m, path@) is Some) by {
                lemma_tables_dom(st.routes@, m);
                if tables_of(st.routes@).contains_key(m) {
                    let k = choose|k: int| 0 <= k < st.routes@.len() && #[trigger] st.routes@[k].method@ == m;
                    lemma_tables_index(st.routes@, k);
                    assert(matchit_lookup(matchit_inserts(st.routes@[k].inner), path@) is None);
                }
            }
        }
        false
    }

    /// Turns what the trees found for a path into the match result: the
    /// handler and the parameters when the method's tree found a value,
    /// otherwise "method not allowed" if another method's tree matches the
    /// path, and "not found" if none does.
    pub fn resolve_match(&self, found: Option<(usize, Vec<(String, String)>)>, elsewhere: bool) -> (res:
        MatchResult<'_, H>)
        requires
            found matches Some((v, _)) ==> v < self.handlers().len(),
        ensures
            match found {
                Some((v, ps)) => res matches Ok((h, params)) && *h == self.handlers()[v as int]
                    && params@ == pairs_map(pair_views(ps@)),
                None => if elsewhere {
                    res matches Err(RouterError::MethodNotAllowed)
                } else {
                    res matches Err(RouterError::NotFound)
                },
            },
    {
        match found {
            Some((v, ps)) => {
                let params = params_from_pairs(&ps);
                Ok((&self.state.handlers[v], params))
            },
            None => {
                if elsewhere {
                    Err(RouterError::MethodNotAllowed)
                } else {
                    Err(RouterError::NotFound)
                }
            },
        }
    }

    /// Matches a request: the handler and the path parameters, or why no
    /// handler matched.
    ///
    /// Errors:
    /// - [`RouterError::NotFound`]: no route matched the path (any method).
    /// - [`RouterError::MethodNotAllowed`]: a route of another method matched
    ///   the path, but none of this method did.
    pub fn match_route(&self, method: &Method, path: &str) -> (res: MatchResult<'_, H>)
        ensures
            match self.lookup(method@, path@) {
                Some((i, ps)) => {
                    &&& i < self.handlers().len()
                    &&& res matches Ok((h, params)) && *h == self.handlers()[i as int] && params@
                        == pairs_map(ps)
                },
                None => if self.matched_by_some_method(path@) {
                    res matches Err(RouterError::MethodNotAllowed)
                } else {
                    res matches Err(RouterError::NotFound)
                },
            },
    {
        let found = self.find_in_tree(method, path);
        let elsewhere = if found.is_none() {
            self.matched_anywhere(path)
        } else {
            false
        };
        self.resolve_match(found, elsewhere)
    }

    /// The number of registered (method, pattern) pairs.
    pub fn len(&self) -> (res: usize)
        ensures
            res == self.registrations().len(),
    {
        self.state.registered.len()
    }

    /// Whether no route has been registered.
    pub fn is_empty(&self) -> (res: bool)
        ensures
            res == (self.registrations().len() == 0),
    {
        self.len() == 0
    }
}

impl<H> Default for Router<H> {
    fn default() -> (res: Router<H>)
        ensures
            res.registrations() == Seq::<(Seq<char>, Seq<char>)>::empty(),
            res.tables() == Map::<Seq<char>, Seq<(Seq<char>, usize)>>::empty(),
            res.handlers() == Seq::<H>::empty(),
    {
        Router::new()
    }
}

// ---------------------------------------------------------------------------
// Laws of registration and matching
// ---------------------------------------------------------------------------

/// A registration is refused as a conflict exactly when the same (method,
/// pattern) was registered with success before.
pub proof fn law_conflict_iff_registered<H>(
    r0: Router<H>,
    r1: Router<H>,
    method: Seq<char>,
    pattern: Seq<char>,
    h: H,
    res: Result<(), RouterError>,
)
    requires
        added(r0, r1, method, pattern, h, res),
    ensures
        (res matches Err(RouterError::Conflict(_))) <==> r0.registrations().contains((method, pattern)),
{
}

/// Registering the same (method, pattern) again after a success: the second
/// registration is refused as a conflict and leaves routes, handlers and
/// count as the first left them.
pub proof fn law_repeat_registration_conflicts<H>(
    r0: Router<H>,
    r1: Router<H>,
    r2: Router<H>,
    method: Seq<char>,
    pattern: Seq<char>,
    h1: H,
    h2: H,
    res2: Result<(), RouterError>,
)
    requires
        added(r0, r1, method, pattern, h1, Ok(())),
        added(r1, r2, method, pattern, h2, res2),
    ensures
        res2 matches Err(RouterError::Conflict(_)),
        r2.registrations() == r1.registrations(),
        r2.tables() == r1.tables(),
        r2.handlers() == r1.handlers(),
{
    if !r0.registrations().contains((method, pattern)) {
        let last = r1.registrations().len() - 1;
        assert(r1.registrations()[last] == (method, pattern));
    }
    assert(r1.registrations().contains((method, pattern)));
}

/// A refused registration (conflict or invalid pattern) registers nothing:
/// the pairs, the trees and the handlers stay as they were.
pub proof fn law_refusal_changes_nothing<H>(
    r0: Router<H>,
    r1: Router<H>,
    method: Seq<char>,
    pattern: Seq<char>,
    h: H,
    res: Result<(), RouterError>,
)
    requires
        added(r0, r1, method, pattern, h, res),
        res is Err,
    ensures
        r1.registrations() == r0.registrations(),
        r1.tables() == r0.tables(),
        r1.handlers() == r0.handlers(),
{
}

/// Each successful registration adds one to the count; a refused one adds
/// nothing.
pub proof fn law_registration_count<H>(
    r0: Router<H>,
    r1: Router<H>,
    method: Seq<char>,
    pattern: Seq<char>,
    h: H,
    res: Result<(), RouterError>,
)
    requires
        added(r0, r1, method, pattern, h, res),
    ensures
        res is Ok ==> r1.registrations().len() == r0.registrations().len() + 1,
        res is Err ==> r1.registrations().len() == r0.registrations().len(),
{
}

/// A pair never registered with success, whose pattern the method's tree
/// accepts, is registered: the answer is success and the count grows by one.
pub proof fn law_new_route_is_accepted<H>(
    r0: Router<H>,
    r1: Router<H>,
    method: Seq<char>,
    pattern: Seq<char>,
    h: H,
    res: Result<(), RouterError>,
)
    requires
        added(r0, r1, method, pattern, h, res),
        !r0.registrations().contains((method, pattern)),
        matchit_insert_error(r0.table_or_empty(method), pattern) is None,
    ensures
        res is Ok,
        r1.registrations().len() == r0.registrations().len() + 1,
        r1.registrations().contains((method, pattern)),
{
    assert(r1.registrations()[r1.registrations().len() - 1] == (method, pattern));
}

/// A registration that succeeds keeps its handler: the tree of the method
/// ends with (pattern, i) and handler i is the one given.
pub proof fn law_accepted_route_keeps_handler<H>(
    r0: Router<H>,
    r1: Router<H>,
    method: Seq<char>,
    pattern: Seq<char>,
    h: H,
)
    requires
        added(r0, r1, method, pattern, h, Ok(())),
    ensures
        r1.tables().contains_key(method),
        r1.tables()[method].last().0 == pattern,
        r1.tables()[method].last().1 < r1.handlers().len(),
        r1.handlers()[r1.tables()[method].last().1 as int] == h,
{
}

/// What is registered is matched: a static route registered with success is
/// found at its own path, with the handler given and no path parameters.
pub proof fn law_static_route_is_matched<H>(
    r0: Router<H>,
    r1: Router<H>,
    method: Seq<char>,
    pattern: Seq<char>,
    h: H,
)
    requires
        added(r0, r1, method, pattern, h, Ok(())),
        is_static_route(pattern),
    ensures
        r1.lookup(method, pattern) matches Some((i, ps)) && ps.len() == 0 && i < r1.handlers().len()
            && r1.handlers()[i as int] == h,
{
}

/// Path parameters are extracted: after a simple route (such as
/// `/users/{id}`) is registered with success, a path that fits it and that
/// no earlier route of the method could match (such as `/users/42`) is
/// found with the handler given and each parameter bound to its segment, in
/// order (`id` to `42`).
pub proof fn law_param_route_is_matched<H>(
    r0: Router<H>,
    r1: Router<H>,
    method: Seq<char>,
    pattern: Seq<char>,
    h: H,
    path: Seq<char>,
)
    requires
        added(r0, r1, method, pattern, h, Ok(())),
        is_simple_route(pattern),
        route_fits(pattern, path),
        no_prior_fit(r0.table_or_empty(method), path),
    ensures
        r1.lookup(method, path) matches Some((i, ps)) && ps == bound_params(pattern, path) && i
            < r1.handlers().len() && r1.handlers()[i as int] == h,
{
    let prior = r0.table_or_empty(method);
    let table = prior.push((pattern, r0.handlers().len() as usize));
    assert(matchit_lookup(table, path) == Some((r0.handlers().len() as usize, bound_params(pattern, path))));
}

/// A path that a route registered with success matches is never "not
/// found": after a static route is registered, or a simple route that a path
/// fits and no earlier route of the method could match, some method's tree
/// matches the path, so a request of any method finds a handler or is
/// answered "method not allowed".
pub proof fn law_registered_path_is_never_404<H>(
    r0: Router<H>,
    r1: Router<H>,
    method: Seq<char>,
    pattern: Seq<char>,
    h: H,
    path: Seq<char>,
)
    requires
        added(r0, r1, method, pattern, h, Ok(())),
        (is_static_route(pattern) && path == pattern) || (is_simple_route(pattern) && route_fits(
            pattern,
            path,
        ) && no_prior_fit(r0.table_or_empty(method), path)),
    ensures
        r1.matched_by_some_method(path),
{
    if is_static_route(pattern) && path == pattern {
        law_static_route_is_matched(r0, r1, method, pattern, h);
    } else {
        law_param_route_is_matched(r0, r1, method, pattern, h, path);
    }
    assert(r1.lookup(method, path) is Some);
}

/// A path matched without parameters stays matched, to the same handler,
/// whatever is registered after.
pub proof fn law_static_match_survives<H>(
    r1: Router<H>,
    r2: Router<H>,
    m: Seq<char>,
    p: Seq<char>,
    h: H,
    res: Result<(), RouterError>,
    method: Seq<char>,
    path: Seq<char>,
)
    requires
        added(r1, r2, m, p, h, res),
        is_static_route(path),
        r1.lookup(method, path) matches Some((i, ps)) && ps.len() == 0 && i < r1.handlers().len(),
    ensures
        r2.lookup(method, path) == r1.lookup(method, path),
        r1.lookup(method, path) matches Some((i, _)) ==> r2.handlers()[i as int]
            == r1.handlers()[i as int],
{
    if res is Ok && m == method {
        let prior = r1.table_or_empty(m);
        assert(r1.tables().contains_key(method));
        assert(found_plain(matchit_lookup(prior, path)));
    }
}

} // verus!
