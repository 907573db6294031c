use vstd::prelude::*;
use vstd::utf8::encode_utf8;

use crate::table::Table;
use crate::text::{decimal, decimal_string};

verus! {

/// The values of a map of strings, seen as text.
pub open spec fn texts(m: Map<Seq<char>, String>) -> Map<Seq<char>, Seq<char>> {
    m.map_values(|v: String| v@)
}

/// The header lines of a response, in the order of its entries.
pub open spec fn header_bytes(entries: Seq<(String, String)>) -> Seq<u8>
    decreases entries.len(),
{
    if entries.len() == 0 {
        Seq::empty()
    } else {
        header_bytes(entries.drop_last()) + encode_utf8(entries.last().0@) + encode_utf8(": "@)
            + encode_utf8(entries.last().1@) + encode_utf8("\n"@)
    }
}

/// The wire form of a response: the status line, one line per header, an empty line and the
/// body.
pub open spec fn wire(status: u16, headers: Seq<(String, String)>, body: Seq<u8>) -> Seq<u8> {
    encode_utf8("HTTP/1.1 "@) + encode_utf8(decimal(status as nat)) + encode_utf8(" \n"@)
        + header_bytes(headers) + encode_utf8("\n"@) + body
}

/// An HTTP response under construction.
pub struct Response {
    /// The status code.
    pub status: u16,
    /// The body; empty when there is none.
    pub body: Vec<u8>,
    /// The headers. Setting a body sets `content-length` with it.
    pub headers: Table<String>,
}

impl Response {
    /// A response made of the given parts.
    pub fn new(status: u16, body: Vec<u8>, headers: Table<String>) -> (r: Response)
        ensures
            r.status == status,
            r.body == body,
            r.headers == headers,
    {
        Response { status, body, headers }
    }

    /// Sets the status code.
    pub fn status(&mut self, new_status: u16)
        ensures
            final(self).status == new_status,
            final(self).body == old(self).body,
            final(self).headers == old(self).headers,
    {
        self.status = new_status;
    }

    /// Sets the header `name` to `value`, replacing the value it had.
    pub fn header(&mut self, name: &str, value: &str)
        ensures
            final(self).status == old(self).status,
            final(self).body == old(self).body,
            texts(final(self).headers@) == texts(old(self).headers@).insert(name@, value@),
    {
        let ghost old_map = self.headers@;
        self.headers.insert(name.to_owned(), value.to_owned());
        assert(texts(self.headers@) =~= texts(old_map).insert(name@, value@));
    }

    /// Sets the body to the bytes of `data`, with a `content-length` header that gives their
    /// number and the `content-type` header `text/plain`.
    pub fn body(&mut self, data: &str)
        ensures
            final(self).status == old(self).status,
            final(self).body@ == encode_utf8(data@),
            texts(final(self).headers@) == texts(old(self).headers@).insert(
                "content-length"@,
                decimal(encode_utf8(data@).len()),
            ).insert("content-type"@, "text/plain"@),
    {
        self.body = data.as_bytes_vec();
        let n = decimal_string(self.body.len());
        self.header("content-length", n.as_str());
        self.header("content-type", "text/plain");
    }

    /// Sets the body to `data`, with a `content-length` header that gives its length.
    pub fn body_bytes(&mut self, data: Vec<u8>)
        ensures
            final(self).status == old(self).status,
            final(self).body == data,
            texts(final(self).headers@) == texts(old(self).headers@).insert(
                "content-length"@,
                decimal(data@.len()),
            ),
    {
        self.body = data;
        let n = decimal_string(self.body.len());
        self.header("content-length", n.as_str());
    }

    /// The response in HTTP/1.1 wire form.
    pub fn to_http(self) -> (r: Vec<u8>)
        ensures
            r@ == wire(self.status, self.headers.entries(), self.body@),
    {
        let mut http: Vec<u8> = Vec::new();
        let mut part = "HTTP/1.1 ".as_bytes_vec();
        http.append(&mut part);
        let code = decimal_string(self.status as usize);
        let mut part = code.as_str().as_bytes_vec();
        http.append(&mut part);
        let mut part = " \n".as_bytes_vec();
        http.append(&mut part);
        let ghost start = http@;
        let n = self.headers.len();
        let mut i: usize = 0;
        while i < n
            invariant
                n == self.headers.entries().len(),
                i <= n,
                http@ == start + header_bytes(self.headers.entries().subrange(0, i as int)),
            decreases n - i,
        {
            let mut part = self.headers.key_at(i).as_str().as_bytes_vec();
            http.append(&mut part);
            let mut part = ": ".as_bytes_vec();
            http.append(&mut part);
            let mut part = self.headers.value_at(i).as_str().as_bytes_vec();
            http.append(&mut part);
            let mut part = "\n".as_bytes_vec();
            http.append(&mut part);
            proof {
                let e = self.headers.entries();
                assert(e.subrange(0, i + 1).drop_last() =~= e.subrange(0, i as int));
            }
            i = i + 1;
        }
        assert(self.headers.entries().subrange(0, n as int) =~= self.headers.entries());
        let mut part = "\n".as_bytes_vec();
        http.append(&mut part);
        let mut body = self.body;
        http.append(&mut body);
        http
    }
}

} // verus!
