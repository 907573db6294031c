use vstd::prelude::*;

use crate::request::Request;
use crate::response::texts;
use crate::table::Table;
use crate::text::{
    ascii_upper, find_from, find_spec, fits_usize, lemma_find_bounds, lower_of, lowercase,
    parse_usize, unsigned_value, slice, slice_to, split_words, uppercase_ascii, words,
};

verus! {

/// Why a request could not be parsed.
#[derive(Debug, Clone, Copy, PartialEq, Eq, Structural)]
pub enum ParseError {
    /// The request line is not made of exactly three words.
    MalformedRequestLine,
    /// A header line has no `": "` in it.
    MalformedHeaderLine,
    /// The `content-length` header is not a non-negative number.
    InvalidContentLength,
    /// The stream ended before the declared body did.
    BodyReadFailure,
}

/// The name and value of a header line: the text before the first `": "`, in lower case, and
/// the text after it.
pub open spec fn header_entry(line: Seq<char>) -> Option<(Seq<char>, Seq<char>)> {
    let i = find_spec(line, ": "@, 0);
    if i < 0 {
        None
    } else {
        Some((lower_of(line.subrange(0, i)), line.subrange(i + 2, line.len() as int)))
    }
}

/// The headers that a list of header lines declares, a later line winning over an earlier
/// one with the same name; `None` when a line is malformed.
pub open spec fn headers_of(lines: Seq<Seq<char>>) -> Option<Map<Seq<char>, Seq<char>>>
    decreases lines.len(),
{
    if lines.len() == 0 {
        Some(Map::empty())
    } else {
        match headers_of(lines.drop_last()) {
            None => None,
            Some(m) => match header_entry(lines.last()) {
                None => None,
                Some(e) => Some(m.insert(e.0, e.1)),
            },
        }
    }
}

/// The body length that the headers declare: none without a `content-length` header, an
/// error when its value is not a non-negative number that fits a `usize`.
pub open spec fn declared_length(h: Map<Seq<char>, Seq<char>>) -> Result<Option<nat>, ParseError> {
    if !h.contains_key("content-length"@) {
        Ok(None)
    } else if fits_usize(h["content-length"@]) {
        Ok(Some(unsigned_value(h["content-length"@])->0))
    } else {
        Err(ParseError::InvalidContentLength)
    }
}

/// A query piece added to the parameters: the text before its first `=` names the value
/// after it; a piece without `=` adds nothing.
pub open spec fn param_add(m: Map<Seq<char>, Seq<char>>, piece: Seq<char>) -> Map<
    Seq<char>,
    Seq<char>,
> {
    let e = find_spec(piece, "="@, 0);
    if e < 0 {
        m
    } else {
        m.insert(piece.subrange(0, e), piece.subrange(e + 1, piece.len() as int))
    }
}

/// The parameters of the `&`-separated pieces of `q` from position `pos` on, added to `m`.
pub open spec fn params_from(m: Map<Seq<char>, Seq<char>>, q: Seq<char>, pos: int) -> Map<
    Seq<char>,
    Seq<char>,
>
    decreases q.len() + 1 - pos,
{
    if pos < 0 || pos > q.len() {
        m
    } else {
        let i = find_spec(q, "&"@, pos);
        let m2 = param_add(m, slice_to(q, pos, i));
        if pos <= i && i < q.len() {
            params_from(m2, q, i + 1)
        } else {
            m2
        }
    }
}

/// The parameters of a request target: those of the query after its first `?`.
pub open spec fn params_of(target: Seq<char>) -> Map<Seq<char>, Seq<char>> {
    let q = find_spec(target, "?"@, 0);
    if q < 0 {
        Map::empty()
    } else {
        params_from(Map::empty(), target.subrange(q + 1, target.len() as int), 0)
    }
}

/// The version that a protocol word names: the part after its first `/`, up to the next
/// `/`; `1.1` when it has no `/`.
pub open spec fn version_of(v: Seq<char>) -> Seq<char> {
    let i = find_spec(v, "/"@, 0);
    if i < 0 {
        "1.1"@
    } else {
        slice_to(v, i + 1, find_spec(v, "/"@, i + 1))
    }
}

/// How parsing a head ends: the body length it declares, or the first error.
pub open spec fn head_outcome(line: Seq<char>, lines: Seq<Seq<char>>) -> Result<
    Option<nat>,
    ParseError,
> {
    if words(line).len() != 3 {
        Err(ParseError::MalformedRequestLine)
    } else if headers_of(lines) is None {
        Err(ParseError::MalformedHeaderLine)
    } else {
        declared_length(headers_of(lines)->0)
    }
}

/// How parsing a request ends: its body, or the first error.
pub open spec fn parse_outcome(line: Seq<char>, lines: Seq<Seq<char>>, rest: Seq<u8>) -> Result<
    Seq<u8>,
    ParseError,
> {
    match head_outcome(line, lines) {
        Err(e) => Err(e),
        Ok(None) => Ok(Seq::empty()),
        Ok(Some(n)) => if rest.len() < n {
            Err(ParseError::BodyReadFailure)
        } else {
            Ok(rest.subrange(0, n as int))
        },
    }
}

/// The text of each line.
pub open spec fn line_texts(lines: Seq<String>) -> Seq<Seq<char>> {
    lines.map_values(|l: String| l@)
}

/// What a parsed request holds besides its body.
pub open spec fn head_matches(req: Request, line: Seq<char>, lines: Seq<Seq<char>>) -> bool {
    &&& req.url@ == words(line)[1]
    &&& req.method@ == ascii_upper(words(line)[0])
    &&& req.http_version@ == version_of(words(line)[2])
    &&& texts(req.headers@) == headers_of(lines)->0
    &&& texts(req.params@) == params_of(words(line)[1])
}

/// Parses HTTP requests.
pub struct HttpParser {}

impl HttpParser {
    /// Parses a request from its request line, its header lines (without their line ends, up
    /// to the empty line) and the bytes that follow them on the stream.
    pub fn parse(request_line: &str, header_lines: &Vec<String>, rest: &[u8]) -> (r: Result<
        Request,
        ParseError,
    >)
        ensures
            match r {
                Ok(req) => {
                    &&& parse_outcome(request_line@, line_texts(header_lines@), rest@) == Ok::<
                        Seq<u8>,
                        ParseError,
                    >(req.body@)
                    &&& head_matches(req, request_line@, line_texts(header_lines@))
                },
                Err(e) => parse_outcome(request_line@, line_texts(header_lines@), rest@) == Err::<
                    Seq<u8>,
                    ParseError,
                >(e),
            },
            // the body is exactly as long as a content-length header declares
            r is Ok && r->Ok_0.headers@.contains_key("content-length"@) ==> r->Ok_0.body@.len()
                == unsigned_value(r->Ok_0.headers@["content-length"@]@)->0,
            // a content-length that is not a non-negative number is refused
            words(request_line@).len() == 3 && headers_of(line_texts(header_lines@)) is Some
                && headers_of(line_texts(header_lines@))->0.contains_key("content-length"@)
                && !fits_usize(headers_of(line_texts(header_lines@))->0["content-length"@]) ==> r
                == Err::<Request, ParseError>(ParseError::InvalidContentLength),
    {
        let (mut req, declared) = match Self::parse_head(request_line, header_lines) {
            Ok(h) => h,
            Err(e) => return Err(e),
        };
        match declared {
            None => {
                assert(req.body@ =~= Seq::<u8>::empty());
                Ok(req)
            },
            Some(n) => {
                if rest.len() < n {
                    return Err(ParseError::BodyReadFailure);
                }
                let body = take_bytes(rest, n);
                req.body = body;
                proof {
                    let h = texts(req.headers@);
                    assert(h.contains_key("content-length"@));
                    assert(req.headers@.contains_key("content-length"@));
                    assert(h["content-length"@] == req.headers@["content-length"@]@);
                }
                Ok(req)
            },
        }
    }

    /// The number of body bytes that a request head declares, or the error that parsing the
    /// head meets.
    pub fn body_length(request_line: &str, header_lines: &Vec<String>) -> (r: Result<
        usize,
        ParseError,
    >)
        ensures
            match head_outcome(request_line@, line_texts(header_lines@)) {
                Ok(None) => r == Ok::<usize, ParseError>(0),
                Ok(Some(n)) => r is Ok && r->Ok_0 as nat == n,
                Err(e) => r == Err::<usize, ParseError>(e),
            },
    {
        match Self::parse_head(request_line, header_lines) {
            Ok((_, Some(n))) => Ok(n),
            Ok((_, None)) => Ok(0),
            Err(e) => Err(e),
        }
    }

    /// Parses the request line and the header lines; the request comes with an empty body,
    /// beside the body length that the headers declare.
    fn parse_head(request_line: &str, header_lines: &Vec<String>) -> (r: Result<
        (Request, Option<usize>),
        ParseError,
    >)
        ensures
            match r {
                Ok((req, n)) => {
                    &&& head_outcome(request_line@, line_texts(header_lines@)) == Ok::<
                        Option<nat>,
                        ParseError,
                    >(
                        match n {
                            Some(k) => Some(k as nat),
                            None => None,
                        },
                    )
                    &&& head_matches(req, request_line@, line_texts(header_lines@))
                    &&& req.body@.len() == 0
                    &&& n is Some ==> texts(req.headers@).contains_key("content-length"@) && n->0
                        == unsigned_value(texts(req.headers@)["content-length"@])->0
                    &&& n is None ==> !texts(req.headers@).contains_key("content-length"@)
                },
                Err(e) => head_outcome(request_line@, line_texts(header_lines@)) == Err::<
                    Option<nat>,
                    ParseError,
                >(e),
            },
    {
        let parts = match split_words(request_line, 3) {
            Some(p) => p,
            None => return Err(ParseError::MalformedRequestLine),
        };
        if parts.len() != 3 {
            return Err(ParseError::MalformedRequestLine);
        }
        proof {
            assert(parts@.map_values(|w: String| w@)[0] == parts@[0]@);
            assert(parts@.map_values(|w: String| w@)[1] == parts@[1]@);
            assert(parts@.map_values(|w: String| w@)[2] == parts@[2]@);
        }
        let headers = match parse_headers(header_lines) {
            Some(h) => h,
            None => return Err(ParseError::MalformedHeaderLine),
        };
        let declared = match headers.get("content-length") {
            None => None,
            Some(v) => match parse_usize(v.as_str()) {
                Some(k) => Some(k),
                None => return Err(ParseError::InvalidContentLength),
            },
        };
        let target = parts[1].as_str();
        let params = parse_params(target);
        let version = parse_version(parts[2].as_str());
        let method = uppercase_ascii(parts[0].as_str());
        let req = Request::new(target.to_owned(), params, Vec::new(), version, method, headers);
        Ok((req, declared))
    }
}

/// The first `n` bytes of `rest`.
fn take_bytes(rest: &[u8], n: usize) -> (r: Vec<u8>)
    requires
        n <= rest@.len(),
    ensures
        r@ == rest@.subrange(0, n as int),
{
    let mut out: Vec<u8> = Vec::new();
    let mut i: usize = 0;
    while i < n
        invariant
            n <= rest@.len(),
            i <= n,
            out@ == rest@.subrange(0, i as int),
        decreases n - i,
    {
        out.push(rest[i]);
        i = i + 1;
        assert(out@ =~= rest@.subrange(0, i as int));
    }
    out
}

/// The headers of the header lines, or `None` when one is malformed.
fn parse_headers(lines: &Vec<String>) -> (r: Option<Table<String>>)
    ensures
        match r {
            Some(t) => headers_of(line_texts(lines@)) == Some(texts(t@)),
            None => headers_of(line_texts(lines@)) is None,
        },
{
    let mut headers: Table<String> = Table::new();
    let mut i: usize = 0;
    proof {
        assert(line_texts(lines@).subrange(0, 0) =~= Seq::<Seq<char>>::empty());
        assert(texts(headers@) =~= Map::<Seq<char>, Seq<char>>::empty());
        reveal_strlit(": ");
    }
    while i < lines.len()
        invariant
            i <= lines.len(),
            headers_of(line_texts(lines@).subrange(0, i as int)) == Some(texts(headers@)),
            ": "@.len() == 2,
        decreases lines.len() - i,
    {
        let line = lines[i].as_str();
        let ghost pre = line_texts(lines@).subrange(0, i as int);
        let ghost now = line_texts(lines@).subrange(0, i + 1);
        assert(now.drop_last() =~= pre);
        assert(now.last() == line@);
        match find_from(line, ": ", 0) {
            None => {
                proof {
                    lemma_headers_none_extends(line_texts(lines@), i as int + 1);
                }
                return None;
            },
            Some(p) => {
                proof {
                    lemma_find_bounds(line@, ": "@, 0);
                }
                let n = line.unicode_len();
                let key = lowercase(slice(line, 0, p).as_str());
                let value = slice(line, p + 2, n);
                let ghost before = headers@;
                headers.insert(key, value);
                assert(texts(headers@) =~= texts(before).insert(key@, value@));
            },
        }
        i = i + 1;
    }
    assert(line_texts(lines@).subrange(0, lines.len() as int) =~= line_texts(lines@));
    Some(headers)
}

/// Once a prefix of the lines is malformed, so are all the lines.
proof fn lemma_headers_none_extends(lines: Seq<Seq<char>>, k: int)
    requires
        0 <= k <= lines.len(),
        headers_of(lines.subrange(0, k)) is None,
    ensures
        headers_of(lines) is None,
    decreases lines.len() - k,
{
    if k < lines.len() {
        assert(lines.subrange(0, k + 1).drop_last() =~= lines.subrange(0, k));
        lemma_headers_none_extends(lines, k + 1);
    } else {
        assert(lines.subrange(0, k) =~= lines);
    }
}

/// The parameters of a request target.
fn parse_params(target: &str) -> (r: Table<String>)
    ensures
        texts(r@) == params_of(target@),
{
    let mut params: Table<String> = Table::new();
    assert(texts(params@) =~= Map::<Seq<char>, Seq<char>>::empty());
    let q = match find_from(target, "?", 0) {
        None => return params,
        Some(q) => q,
    };
    proof {
        reveal_strlit("?");
        reveal_strlit("&");
        reveal_strlit("=");
        lemma_find_bounds(target@, "?"@, 0);
    }
    let tn = target.unicode_len();
    let query = slice(target, q + 1, tn);
    assert(params_of(target@) == params_from(Map::empty(), query@, 0));
    let n = query.unicode_len();
    let mut pos: usize = 0;
    loop
        invariant
            n == query@.len(),
            pos <= n,
            params_from(Map::empty(), query@, 0) == params_from(texts(params@), query@, pos as int),
            params_of(target@) == params_from(Map::empty(), query@, 0),
            "&"@.len() == 1,
            "="@.len() == 1,
        decreases n - pos,
    {
        let found = find_from(query.as_str(), "&", pos);
        proof {
            lemma_find_bounds(query@, "&"@, pos as int);
        }
        let end = match found {
            Some(i) => i,
            None => n,
        };
        let piece = slice(query.as_str(), pos, end);
        assert(piece@ == slice_to(query@, pos as int, find_spec(query@, "&"@, pos as int)));
        let ghost before = texts(params@);
        match find_from(piece.as_str(), "=", 0) {
            None => {},
            Some(e) => {
                proof {
                    lemma_find_bounds(piece@, "="@, 0);
                }
                let key = slice(piece.as_str(), 0, e);
                let value = slice(piece.as_str(), e + 1, piece.unicode_len());
                params.insert(key, value);
                assert(texts(params@) =~= before.insert(key@, value@));
            },
        }
        assert(texts(params@) == param_add(before, piece@));
        match found {
            Some(i) => {
                pos = i + 1;
            },
            None => {
                assert(params_from(before, query@, pos as int) == param_add(before, piece@));
                return params;
            },
        }
    }
}

/// The version that the protocol word of a request line names.
fn parse_version(word: &str) -> (r: String)
    ensures
        r@ == version_of(word@),
{
    proof {
        reveal_strlit("/");
    }
    match find_from(word, "/", 0) {
        None => "1.1".to_owned(),
        Some(i) => {
            proof {
                lemma_find_bounds(word@, "/"@, 0);
            }
            let n = word.unicode_len();
            match find_from(word, "/", i + 1) {
                None => slice(word, i + 1, n),
                Some(j) => {
                    proof {
                        lemma_find_bounds(word@, "/"@, i + 1);
                    }
                    slice(word, i + 1, j)
                },
            }
        },
    }
}

} // verus!
