//! The core's boundary with the network layer: header pairs and the text
//! of a GET request. Opening connections, sending and receiving stay
//! outside the core; it only computes the bytes to send.

use vstd::prelude::*;

use vstd::string::StringExecFns;

verus! {

/// One response or request header line, as a name/value pair.
#[derive(Debug, Clone, PartialEq, Eq)]
pub struct Header {
    pub name: String,
    pub value: String,
}

impl Header {
    pub fn new(name: String, value: String) -> (h: Header)
        ensures
            h.name == name,
            h.value == value,
    {
        Header { name, value }
    }
}

/// The text of a GET request for `path` on `host`: the request line and
/// the fixed header block this engine always sends.
pub open spec fn get_request_text(host: Seq<char>, path: Seq<char>) -> Seq<char> {
    "GET /"@ + path + " HTTP/1.1\nHost: "@ + host
        + "\nAccept: text/html\nConnection: close\n"@
}

/// A handle for issuing GET requests; the transport itself lives outside
/// the core and is handed this text to send.
#[derive(Debug, Clone, PartialEq, Eq)]
pub struct HttpClient {}

impl HttpClient {
    pub fn new() -> (c: HttpClient)
        ensures
            c == (HttpClient {  }),
    {
        HttpClient {  }
    }

    /// The exact request text a GET of `path` on `host` sends.
    pub fn build_get_request(&self, host: &str, path: &str) -> (r: String)
        ensures
            r@ == get_request_text(host@, path@),
    {
        let mut request = String::from_str("GET /");
        request.append(path);
        request.append(" HTTP/1.1\nHost: ");
        request.append(host);
        request.append("\nAccept: text/html\nConnection: close\n");
        request
    }
}

} // verus!
