use vstd::prelude::*;

use crate::table::Table;

verus! {

/// An HTTP request as the parser hands it on.
pub struct Request {
    /// The requested target as received: the path, then `?` and the query when there is one.
    pub url: String,
    /// The parameters of the query: `/user?name=cory&age=21` gives `name` and `age`, with the
    /// values `cory` and `21`.
    pub params: Table<String>,
    /// The body: exactly as many bytes as a `content-length` header declares, else empty.
    pub body: Vec<u8>,
    /// The protocol version, such as `1.1`.
    pub http_version: String,
    /// The method in upper case, such as `GET` or `POST`.
    pub method: String,
    /// The headers, keyed by their lower-case names.
    pub headers: Table<String>,
}

impl Request {
    /// A request made of the given parts.
    pub fn new(
        url: String,
        params: Table<String>,
        body: Vec<u8>,
        http_version: String,
        method: String,
        headers: Table<String>,
    ) -> (r: Request)
        ensures
            r.url == url,
            r.params == params,
            r.body == body,
            r.http_version == http_version,
            r.method == method,
            r.headers == headers,
    {
        Request { url, params, body, http_version, method, headers }
    }

    /// Whether every one of `keys` is a parameter of the request.
    pub fn contains_params(&self, keys: Vec<&str>) -> (r: bool)
        ensures
            r == forall|i: int| 0 <= i < keys.len() ==> self.params@.contains_key(#[trigger] keys@[i]@),
    {
        let mut i: usize = 0;
        while i < keys.len()
            invariant
                i <= keys.len(),
                forall|j: int| 0 <= j < i ==> self.params@.contains_key(#[trigger] keys@[j]@),
            decreases keys.len() - i,
        {
            if !self.params.contains_key(keys[i]) {
                return false;
            }
            i = i + 1;
        }
        true
    }
}

} // verus!
