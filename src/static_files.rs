use vstd::prelude::*;

use crate::file_parser::{mime_type, FileParser};
use crate::request::Request;
use crate::response::{texts, Response};
use crate::text::{decimal, same_text, slice};

verus! {

/// The position of the last `.` in `s` before position `end`, or -1.
pub open spec fn last_dot(s: Seq<char>, end: int) -> int
    decreases end,
{
    if end <= 0 || end > s.len() {
        -1
    } else if s[end - 1] == '.' {
        end - 1
    } else {
        last_dot(s, end - 1)
    }
}

/// The ending of a file name: what follows its last `.`, or the whole name when it has none.
pub open spec fn ending_of(name: Seq<char>) -> Seq<char> {
    name.subrange(last_dot(name, name.len() as int) + 1, name.len() as int)
}

/// A path with each `\` turned into `/`.
pub open spec fn forward_slashes(s: Seq<char>) -> Seq<char> {
    s.map_values(|c: char| if c == '\\' { '/' } else { c })
}

/// The route under which a file at the relative path `path` is served.
pub open spec fn file_route(path: Seq<char>) -> Seq<char> {
    seq!['/'] + forward_slashes(path)
}

/// The file that a route names: the route without its leading character.
pub open spec fn file_of(url: Seq<char>) -> Seq<char> {
    if url.len() == 0 {
        url
    } else {
        url.skip(1)
    }
}

/// Relies on str::replace: each `\` of `s` becomes `/`, and nothing else changes.
#[verifier::external_body]
fn replace_backslashes(s: &str) -> (r: String)
    ensures
        r@ == forward_slashes(s@),
{
    s.replace('\\', "/")
}

/// The ending of a file name or route.
pub fn file_ending(name: &str) -> (r: String)
    ensures
        r@ == ending_of(name@),
{
    let n = name.unicode_len();
    let mut end = n;
    while end > 0
        invariant
            end <= n,
            n == name@.len(),
            last_dot(name@, n as int) == last_dot(name@, end as int),
        decreases end,
    {
        if name.get_char(end - 1) == '.' {
            return slice(name, end, n);
        }
        end = end - 1;
    }
    slice(name, 0, n)
}

/// The route for the file at the relative path `path`: a `/`, then the path with `\` turned
/// into `/`.
pub fn route_path(path: &str) -> (r: String)
    ensures
        r@ == file_route(path@),
{
    let tail = replace_backslashes(path);
    let r = "/".to_owned().concat(tail.as_str());
    proof {
        reveal_strlit("/");
    }
    assert(r@ =~= file_route(path@));
    r
}

/// The file that a route names, relative to the served directory.
pub fn file_path(url: &str) -> (r: String)
    ensures
        r@ == file_of(url@),
{
    let n = url.unicode_len();
    if n == 0 {
        slice(url, 0, 0)
    } else {
        let r = slice(url, 1, n);
        assert(r@ =~= url@.skip(1));
        r
    }
}

/// The response to a request for a served file, given the file's contents, or `None` when
/// they could not be read. Only `GET` is answered: with status 200, the contents as body and
/// the content type of the file's ending; status 500 when the file could not be read.
pub fn file_response(req: &Request, res: Response, contents: Option<Vec<u8>>) -> (r: Response)
    ensures
        req.method@ != "GET"@ ==> r == res,
        req.method@ == "GET"@ && contents is None ==> r.status == 500 && r.body == res.body
            && r.headers == res.headers,
        req.method@ == "GET"@ && contents is Some ==> {
            &&& r.status == 200
            &&& r.body == contents->0
            &&& texts(r.headers@) == texts(res.headers@).insert(
                "content-length"@,
                decimal(contents->0@.len()),
            ).insert("content-type"@, mime_type(ending_of(req.url@)))
        },
{
    let mut res = res;
    if !same_text(req.method.as_str(), "GET") {
        return res;
    }
    match contents {
        Some(data) => {
            let ending = file_ending(req.url.as_str());
            let kind = FileParser::get_type(ending.as_str());
            res.status(200);
            res.body_bytes(data);
            res.header("content-type", kind.as_str());
        },
        None => {
            res.status(500);
        },
    }
    res
}

} // verus!
