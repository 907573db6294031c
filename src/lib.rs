//! An embeddable HTTP/1.1 server core: a parser that turns a request head and the bytes after
//! it into a request, a router that sends a request through prefix-gated middleware to the
//! handler of its path, and the wire form of responses.
use vstd::prelude::*;
use vstd::utf8::encode_utf8;

pub mod file_parser;
pub mod http_parser;
pub mod request;
pub mod response;
pub mod static_files;
pub mod table;
pub mod text;

use crate::http_parser::ParseError;
use crate::request::Request;
use crate::response::{texts, Response};
use crate::table::Table;
use crate::text::{
    find_from, find_spec, lemma_find_absent, lemma_find_bounds, lemma_find_first, occurs, occurs_at,
    slice, slice_to,
};

verus! {

/// The part of a target before its first `?`.
pub open spec fn before_query(p: Seq<char>) -> Seq<char> {
    slice_to(p, 0, find_spec(p, "?"@, 0))
}

/// The path that routes and middleware are matched on: the target without its query, and
/// without one trailing `/` unless that `/` is all there is.
pub open spec fn normalized(p: Seq<char>) -> Seq<char> {
    let q = before_query(p);
    if q.len() > 1 && q.last() == '/' {
        q.drop_last()
    } else {
        q
    }
}

/// Whether the middleware prefix `prefix` gates `path`.
pub open spec fn applies(prefix: Seq<char>, path: Seq<char>) -> bool {
    occurs_at(path, prefix, 0)
}

/// Whether the prefixes are in order of length.
pub open spec fn by_length(prefixes: Seq<Seq<char>>) -> bool {
    forall|i: int, j: int|
        0 <= i < j < prefixes.len() ==> #[trigger] prefixes[i].len() <= #[trigger] prefixes[j].len()
}

/// The position at which a prefix of length `n` joins a list ordered by length: after every
/// prefix that is not longer.
pub open spec fn insertion_point(prefixes: Seq<Seq<char>>, n: nat) -> int
    decreases prefixes.len(),
{
    if prefixes.len() == 0 {
        0
    } else if prefixes.last().len() <= n {
        prefixes.len() as int
    } else {
        insertion_point(prefixes.drop_last(), n)
    }
}

/// The first position at or after `from` whose prefix gates `path`, or -1.
pub open spec fn first_applying(prefixes: Seq<Seq<char>>, path: Seq<char>, from: int) -> int
    decreases prefixes.len() - from,
{
    if from < 0 || from >= prefixes.len() {
        -1
    } else if applies(prefixes[from], path) {
        from
    } else {
        first_applying(prefixes, path, from + 1)
    }
}

/// The text of a response body that reports a request target that names no path.
pub open spec fn empty_path_text() -> Seq<char> {
    "failed to parse http"@
}

/// A handler for the requests to one route.
pub trait RouteHandler {
    /// The response that the handler gives to a request and the response built so far. An
    /// implementation outside verified code defines it as the result of `handle`.
    spec fn answer(&self, req: Request, res: Response) -> Response;

    /// Answers a request, starting from the response built so far.
    fn handle(&self, req: Request, res: Response) -> (r: Response)
        ensures
            r == self.answer(req, res),
    ;
}

/// A filter for the requests under one path prefix.
pub trait MiddlewareHandler {
    /// The request and response that the filter hands on, and whether handling goes on. An
    /// implementation outside verified code defines it as the result of `handle`.
    spec fn outcome(&self, req: Request, res: Response) -> (Request, Response, bool);

    /// Inspects and may change a request and its response; the flag says whether handling
    /// goes on.
    fn handle(&self, req: Request, res: Response) -> (r: (Request, Response, bool))
        ensures
            r == self.outcome(req, res),
    ;
}

/// The response that routing gives from middleware position `from` on: each middleware that
/// gates `path` gets the pair that the one before it handed on, in list order; one that stops
/// handling ends it with its response; after the last, the route's handler answers, or the
/// response stays as it is when `path` has no route.
pub open spec fn routed<R: RouteHandler, M: MiddlewareHandler>(
    prefixes: Seq<Seq<char>>,
    filters: Seq<M>,
    routes: Map<Seq<char>, R>,
    path: Seq<char>,
    from: int,
    req: Request,
    res: Response,
) -> Response
    decreases prefixes.len() - from,
{
    let i = first_applying(prefixes, path, from);
    if i < 0 || i < from || i >= prefixes.len() || i >= filters.len() {
        if routes.contains_key(path) {
            routes[path].answer(req, res)
        } else {
            res
        }
    } else {
        let o = filters[i].outcome(req, res);
        if !o.2 {
            o.1
        } else {
            routed(prefixes, filters, routes, path, i + 1, o.0, o.1)
        }
    }
}

/// Whether `res` is the response that a request starts from: status 404, no body, and the
/// content type `text/plain` as its one header.
pub open spec fn is_default(res: Response) -> bool {
    &&& res.status == 404
    &&& res.body@.len() == 0
    &&& texts(res.headers@) == Map::<Seq<char>, Seq<char>>::empty().insert(
        "content-type"@,
        "text/plain"@,
    )
}

/// A server configuration: the routes and the middleware, with the number of workers that
/// serve them.
pub struct Spot<R, M> {
    amount_of_threads: usize,
    routes: Table<R>,
    middleware: Vec<(String, M)>,
}

/// The normalized form of a path or target.
pub fn normalize(path: &str) -> (r: String)
    ensures
        r@ == normalized(path@),
{
    let n = path.unicode_len();
    let end = match find_from(path, "?", 0) {
        Some(q) => {
            proof {
                lemma_find_bounds(path@, "?"@, 0);
                reveal_strlit("?");
            }
            q
        },
        None => n,
    };
    if end > 1 && path.get_char(end - 1) == '/' {
        slice(path, 0, end - 1)
    } else {
        slice(path, 0, end)
    }
}

/// The response that a request starts from: status 404, no body, and the content type
/// `text/plain`.
pub fn default_response() -> (r: Response)
    ensures
        is_default(r),
{
    let mut res = Response::new(404, Vec::new(), Table::new());
    assert(texts(res.headers@) =~= Map::<Seq<char>, Seq<char>>::empty());
    res.header("content-type", "text/plain");
    res
}

impl<R, M> Spot<R, M> {
    #[verifier::type_invariant]
    spec fn wf(&self) -> bool {
        by_length(self.prefixes())
    }

    /// The middleware prefixes in the order in which they are consulted.
    pub closed spec fn prefixes(&self) -> Seq<Seq<char>> {
        self.middleware@.map_values(|e: (String, M)| e.0@)
    }

    /// The middleware handlers, in the order of their prefixes.
    pub closed spec fn filters(&self) -> Seq<M> {
        self.middleware@.map_values(|e: (String, M)| e.1)
    }

    /// The route table: a handler for each normalized path.
    pub closed spec fn routes(&self) -> Map<Seq<char>, R> {
        self.routes@
    }

    /// The paths of the route table, in the order of their first registration.
    pub closed spec fn route_paths(&self) -> Seq<Seq<char>> {
        self.routes.keys()
    }

    /// The number of workers that serve requests.
    pub closed spec fn threads(&self) -> usize {
        self.amount_of_threads
    }

    /// A configuration with no routes and no middleware.
    pub fn new(amount_of_threads: usize) -> (r: Self)
        ensures
            r.threads() == amount_of_threads,
            r.routes() == Map::<Seq<char>, R>::empty(),
            r.route_paths().len() == 0,
            r.prefixes().len() == 0,
            r.filters().len() == 0,
            by_length(r.prefixes()),
    {
        let r = Spot { amount_of_threads, routes: Table::new(), middleware: Vec::new() };
        assert(r.prefixes() =~= Seq::<Seq<char>>::empty());
        r
    }

    /// The number of workers that serve requests.
    pub fn amount_of_threads(&self) -> (r: usize)
        ensures
            r == self.threads(),
    {
        self.amount_of_threads
    }

    /// Adds the middleware `function` for the paths under `path`, taken in normalized form.
    /// The list stays ordered by prefix length; the new entry comes after every prefix that
    /// is not longer, so that among prefixes of one length the first registered comes first.
    pub fn middle(&mut self, path: &str, function: M)
        ensures
            ({
                let p = normalized(path@);
                let k = insertion_point(old(self).prefixes(), p.len());
                &&& final(self).prefixes() == old(self).prefixes().insert(k, p)
                &&& final(self).filters() == old(self).filters().insert(k, function)
                &&& forall|i: int| 0 <= i < k ==> #[trigger] old(self).prefixes()[i].len() <= p.len()
                &&& forall|i: int|
                    k <= i < old(self).prefixes().len() ==> #[trigger] old(self).prefixes()[i].len()
                        > p.len()
            }),
            by_length(final(self).prefixes()),
            final(self).routes() == old(self).routes(),
            final(self).route_paths() == old(self).route_paths(),
            final(self).threads() == old(self).threads(),
    {
        proof {
            use_type_invariant(&*self);
        }
        let p = normalize(path);
        let n = p.unicode_len();
        let ghost ps = self.prefixes();
        let mut k: usize = self.middleware.len();
        let mut found = false;
        assert(ps.subrange(0, k as int) =~= ps);
        while k > 0 && !found
            invariant
                found ==> k > 0 && ps[k - 1].len() <= n,
                k <= self.middleware@.len(),
                ps == self.prefixes(),
                by_length(ps),
                insertion_point(ps, n as nat) == insertion_point(ps.subrange(0, k as int), n as nat),
                forall|i: int| k <= i < ps.len() ==> #[trigger] ps[i].len() > n,
            decreases k + (if found { 0int } else { 1int }),
        {
            let len_k = self.middleware[k - 1].0.unicode_len();
            assert(ps[k - 1] == self.middleware@[k - 1].0@);
            if len_k <= n {
                found = true;
            } else {
                assert(ps.subrange(0, k as int).drop_last() =~= ps.subrange(0, k - 1));
                k = k - 1;
            }
        }
        proof {
            lemma_insertion_point(ps, n as nat, k as int);
        }
        let ghost fs = self.filters();
        let mut taken = Spot { amount_of_threads: 0, routes: Table::new(), middleware: Vec::new() };
        assert(taken.prefixes() =~= Seq::<Seq<char>>::empty());
        std::mem::swap(self, &mut taken);
        let Spot { amount_of_threads, routes, mut middleware } = taken;
        middleware.insert(k, (p, function));
        proof {
            let q = middleware@.map_values(|e: (String, M)| e.0@);
            assert(q =~= ps.insert(k as int, normalized(path@)));
            assert(middleware@.map_values(|e: (String, M)| e.1) =~= fs.insert(k as int, function));
            assert(by_length(q)) by {
                assert forall|i: int, j: int| 0 <= i < j < q.len() implies #[trigger] q[i].len()
                    <= #[trigger] q[j].len() by {
                    if j < k {
                        assert(q[i] == ps[i] && q[j] == ps[j]);
                    } else if j == k {
                        assert(q[i] == ps[i]);
                    } else if i < k {
                        assert(q[i] == ps[i] && q[j] == ps[j - 1]);
                    } else if i == k {
                        assert(q[j] == ps[j - 1]);
                    } else {
                        assert(q[i] == ps[i - 1] && q[j] == ps[j - 1]);
                    }
                }
            }
        }
        let r = Spot { amount_of_threads, routes, middleware };
        *self = r;
    }

    /// Registers `function` as the handler of `path`, taken in normalized form. A handler
    /// that the path had is replaced, and the result says whether there was one.
    pub fn route(&mut self, path: &str, function: R) -> (replaced: bool)
        ensures
            replaced == old(self).routes().contains_key(normalized(path@)),
            final(self).routes() == old(self).routes().insert(normalized(path@), function),
            replaced ==> final(self).route_paths() == old(self).route_paths(),
            !replaced ==> final(self).route_paths() == old(self).route_paths().push(
                normalized(path@),
            ),
            final(self).route_paths().no_duplicates(),
            final(self).prefixes() == old(self).prefixes(),
            final(self).filters() == old(self).filters(),
            final(self).threads() == old(self).threads(),
    {
        proof {
            use_type_invariant(&*self);
        }
        let p = normalize(path);
        let replaced = self.routes.contains_key(p.as_str());
        let mut taken = Spot { amount_of_threads: 0, routes: Table::new(), middleware: Vec::new() };
        assert(taken.prefixes() =~= Seq::<Seq<char>>::empty());
        std::mem::swap(self, &mut taken);
        let Spot { amount_of_threads, mut routes, middleware } = taken;
        routes.insert(p, function);
        *self = Spot { amount_of_threads, routes, middleware };
        replaced
    }

    /// The handler registered for the normalized path `path`, if any.
    pub fn route_for(&self, path: &str) -> (r: Option<&R>)
        ensures
            match r {
                Some(h) => self.routes().contains_key(path@) && *h == self.routes()[path@],
                None => !self.routes().contains_key(path@),
            },
    {
        self.routes.get(path)
    }

    /// The first middleware at or after position `from` whose prefix gates the normalized
    /// path `path`. Prefixes are consulted in order of length, and the search ends at the
    /// first prefix longer than the path.
    pub fn next_middleware(&self, path: &str, from: usize) -> (r: Option<usize>)
        ensures
            match r {
                Some(i) => i as int == first_applying(self.prefixes(), path@, from as int),
                None => first_applying(self.prefixes(), path@, from as int) == -1,
            },
    {
        proof {
            use_type_invariant(self);
        }
        let n = path.unicode_len();
        let mut i = from;
        while i < self.middleware.len()
            invariant
                from <= i,
                by_length(self.prefixes()),
                first_applying(self.prefixes(), path@, from as int) == first_applying(
                    self.prefixes(),
                    path@,
                    i as int,
                ),
                n == path@.len(),
            decreases self.middleware@.len() - i,
        {
            let prefix = self.middleware[i].0.as_str();
            let m = prefix.unicode_len();
            assert(self.prefixes()[i as int] == prefix@);
            if m > n {
                proof {
                    lemma_none_longer(self.prefixes(), path@, i as int);
                }
                return None;
            }
            if occurs(path, n, prefix, m, 0) {
                return Some(i);
            }
            i = i + 1;
        }
        None
    }

    /// Runs a request through the middleware that gate its path, in order, and then through
    /// the handler of its path. A middleware that does not let handling go on ends it with
    /// its response. A target that names no path gets status 500.
    pub fn dispatch(&self, request: Request, response: Response) -> (r: Response)
        where
            R: RouteHandler,
            M: MiddlewareHandler,
        ensures
            normalized(request.url@).len() == 0 ==> r.status == 500 && r.body@ == encode_utf8(
                empty_path_text(),
            ),
            normalized(request.url@).len() > 0 ==> r == routed(
                self.prefixes(),
                self.filters(),
                self.routes(),
                normalized(request.url@),
                0,
                request,
                response,
            ),
    {
        let path = normalize(request.url.as_str());
        if path.unicode_len() == 0 {
            let mut res = response;
            res.status(500);
            res.body("failed to parse http");
            return res;
        }
        let mut req = request;
        let mut res = response;
        let mut from: usize = 0;
        let count = self.middleware.len();
        loop
            invariant
                from <= self.prefixes().len(),
                count == self.middleware@.len(),
                path@.len() > 0,
                path@ == normalized(request.url@),
                routed(self.prefixes(), self.filters(), self.routes(), path@, 0, request, response)
                    == routed(
                    self.prefixes(),
                    self.filters(),
                    self.routes(),
                    path@,
                    from as int,
                    req,
                    res,
                ),
            ensures
                first_applying(self.prefixes(), path@, from as int) == -1,
                path@ == normalized(request.url@),
                routed(self.prefixes(), self.filters(), self.routes(), path@, 0, request, response)
                    == routed(
                    self.prefixes(),
                    self.filters(),
                    self.routes(),
                    path@,
                    from as int,
                    req,
                    res,
                ),
            decreases self.prefixes().len() - from,
        {
            match self.next_middleware(path.as_str(), from) {
                None => break,
                Some(i) => {
                    proof {
                        lemma_first_applying_bounds(self.prefixes(), path@, from as int);
                        assert(self.prefixes().len() == self.middleware@.len());
                        assert(self.filters()[i as int] == self.middleware@[i as int].1);
                    }
                    let (q, s, proceed) = self.middleware[i].1.handle(req, res);
                    if !proceed {
                        return s;
                    }
                    req = q;
                    res = s;
                    from = i + 1;
                },
            }
        }
        match self.routes.get(path.as_str()) {
            Some(h) => h.handle(req, res),
            None => res,
        }
    }

    /// The response to a request as the parser delivered it: status 400 for a request that
    /// could not be parsed, else the routed response to it.
    pub fn respond(&self, parsed: Result<Request, ParseError>) -> (r: Response)
        where
            R: RouteHandler,
            M: MiddlewareHandler,
        ensures
            parsed is Err ==> {
                &&& r.status == 400
                &&& r.body@.len() == 0
                &&& texts(r.headers@) == Map::<Seq<char>, Seq<char>>::empty().insert(
                    "content-type"@,
                    "text/plain"@,
                )
            },
            parsed is Ok && normalized(parsed->Ok_0.url@).len() > 0 ==> exists|d: Response|
                is_default(d) && r == routed(
                    self.prefixes(),
                    self.filters(),
                    self.routes(),
                    normalized(parsed->Ok_0.url@),
                    0,
                    parsed->Ok_0,
                    d,
                ),
            parsed is Ok && normalized(parsed->Ok_0.url@).len() > 0 && first_applying(
                self.prefixes(),
                normalized(parsed->Ok_0.url@),
                0,
            ) == -1 && !self.routes().contains_key(normalized(parsed->Ok_0.url@)) ==> r.status
                == 404 && r.body@.len() == 0,
    {
        let mut res = default_response();
        match parsed {
            Err(_) => {
                res.status(400);
                res
            },
            Ok(req) => self.dispatch(req, res),
        }
    }
}

/// The part before the query holds no `?`.
proof fn lemma_no_query_mark(p: Seq<char>)
    ensures
        forall|i: int| 0 <= i < before_query(p).len() ==> before_query(p)[i] != '?',
{
    reveal_strlit("?");
    lemma_find_bounds(p, "?"@, 0);
    let q = find_spec(p, "?"@, 0);
    assert forall|i: int| 0 <= i < before_query(p).len() implies before_query(p)[i] != '?' by {
        lemma_find_first(p, "?"@, 0, i);
        assert(before_query(p)[i] == p[i]);
        if p[i] == '?' {
            assert(p.subrange(i, i + 1) =~= "?"@);
        }
    }
}

/// A text without `?` is its own part before the query.
proof fn lemma_before_query_plain(p: Seq<char>)
    requires
        forall|i: int| 0 <= i < p.len() ==> p[i] != '?',
    ensures
        before_query(p) == p,
{
    reveal_strlit("?");
    assert forall|j: int| 0 <= j implies !#[trigger] occurs_at(p, "?"@, j) by {
        if occurs_at(p, "?"@, j) {
            assert(p.subrange(j, j + 1)[0] == p[j]);
        }
    }
    lemma_find_absent(p, "?"@, 0);
    assert(before_query(p) =~= p);
}

/// Normalizing a normalized path gives it back unchanged. The one exception is a path whose
/// part before the query ends in two slashes after at least one more character, such as
/// `/a//`: one normalization removes only one of those slashes.
pub proof fn lemma_normalize_idempotent(p: Seq<char>)
    requires
        !(before_query(p).len() >= 3 && before_query(p).last() == '/' && before_query(p)[before_query(
            p,
        ).len() - 2] == '/'),
    ensures
        normalized(normalized(p)) == normalized(p),
{
    let q = before_query(p);
    let n = normalized(p);
    lemma_no_query_mark(p);
    assert forall|i: int| 0 <= i < n.len() implies n[i] != '?' by {
        assert(n[i] == q[i]);
    }
    lemma_before_query_plain(n);
}

/// A path and the same path with a trailing `/` normalize alike, as `/user/` and `/user` do.
pub proof fn lemma_trailing_slash(p: Seq<char>)
    requires
        p.len() > 0,
        p.last() != '/',
        forall|i: int| 0 <= i < p.len() ==> p[i] != '?',
    ensures
        normalized(p.push('/')) == normalized(p),
{
    let t = p.push('/');
    assert forall|i: int| 0 <= i < t.len() implies t[i] != '?' by {
        if i < p.len() {
            assert(t[i] == p[i]);
        }
    }
    lemma_before_query_plain(t);
    lemma_before_query_plain(p);
    assert(t.drop_last() =~= p);
}

/// In a middleware list ordered by length, a shorter prefix stands before a longer one, and
/// the scan for gating middleware, which goes forward from the front, meets it first.
pub proof fn lemma_shorter_first(prefixes: Seq<Seq<char>>, path: Seq<char>, i: int, j: int)
    requires
        by_length(prefixes),
        0 <= i < prefixes.len(),
        0 <= j < prefixes.len(),
        prefixes[i].len() < prefixes[j].len(),
    ensures
        i < j,
        applies(prefixes[i], path) ==> first_applying(prefixes, path, 0) != -1
            && first_applying(prefixes, path, 0) <= i,
{
    if j <= i {
        assert(prefixes[j].len() <= prefixes[i].len());
    }
    if applies(prefixes[i], path) {
        lemma_first_applying_reaches(prefixes, path, 0, i);
    }
}

/// The first gating position from `from` on is at most any gating position from there.
proof fn lemma_first_applying_reaches(prefixes: Seq<Seq<char>>, path: Seq<char>, from: int, i: int)
    requires
        0 <= from <= i < prefixes.len(),
        applies(prefixes[i], path),
    ensures
        first_applying(prefixes, path, from) != -1,
        first_applying(prefixes, path, from) <= i,
    decreases i - from,
{
    if !applies(prefixes[from], path) {
        lemma_first_applying_reaches(prefixes, path, from + 1, i);
    }
}

/// Registering two handlers for one path leaves the second one alone reachable under it,
/// whatever the table held before.
pub proof fn lemma_route_twice<R>(routes: Map<Seq<char>, R>, path: Seq<char>, first: R, second: R)
    ensures
        routes.insert(normalized(path), first).insert(normalized(path), second) == routes.insert(
            normalized(path),
            second,
        ),
{
    assert(routes.insert(normalized(path), first).insert(normalized(path), second) =~= routes.insert(
        normalized(path),
        second,
    ));
}

/// In a list ordered by length, no prefix from a position on whose prefix is longer than the
/// path gates it.
proof fn lemma_none_longer(prefixes: Seq<Seq<char>>, path: Seq<char>, i: int)
    requires
        by_length(prefixes),
        0 <= i < prefixes.len(),
        prefixes[i].len() > path.len(),
    ensures
        first_applying(prefixes, path, i) == -1,
    decreases prefixes.len() - i,
{
    assert(!applies(prefixes[i], path));
    assert(first_applying(prefixes, path, i) == first_applying(prefixes, path, i + 1));
    if i + 1 < prefixes.len() {
        assert(prefixes[i].len() <= prefixes[i + 1].len());
        lemma_none_longer(prefixes, path, i + 1);
    }
}

proof fn lemma_first_applying_bounds(prefixes: Seq<Seq<char>>, path: Seq<char>, from: int)
    ensures
        first_applying(prefixes, path, from) == -1 || (from <= first_applying(prefixes, path, from)
            < prefixes.len()),
    decreases prefixes.len() - from,
{
    if 0 <= from < prefixes.len() && !applies(prefixes[from], path) {
        lemma_first_applying_bounds(prefixes, path, from + 1);
    }
}

/// The scan from the back stops at the insertion point.
proof fn lemma_insertion_point(prefixes: Seq<Seq<char>>, n: nat, k: int)
    requires
        0 <= k <= prefixes.len(),
        by_length(prefixes),
        insertion_point(prefixes, n) == insertion_point(prefixes.subrange(0, k), n),
        k == 0 || prefixes[k - 1].len() <= n,
        forall|i: int| k <= i < prefixes.len() ==> #[trigger] prefixes[i].len() > n,
    ensures
        insertion_point(prefixes, n) == k,
        forall|i: int| 0 <= i < k ==> #[trigger] prefixes[i].len() <= n,
{
    let s = prefixes.subrange(0, k);
    if k > 0 {
        assert(s.last() == prefixes[k - 1]);
        assert forall|i: int| 0 <= i < k implies #[trigger] prefixes[i].len() <= n by {
            if i < k - 1 {
                assert(prefixes[i].len() <= prefixes[k - 1].len());
            }
        }
    }
}

} // verus!
