//! Request-logging decisions: how a request span is configured, and which
//! address a request is reported under.

use vstd::prelude::*;

verus! {

/// Configuration of the span made for each request: whether the request
/// headers are included.
#[derive(Clone, Debug)]
pub struct SpanMaker {
    include_headers: bool,
}

impl SpanMaker {
    /// Whether spans will include the request headers.
    pub closed spec fn headers_included(self) -> bool {
        self.include_headers
    }

    /// A span maker that leaves the headers out.
    pub fn new() -> (r: Self)
        ensures
            !r.headers_included(),
    {
        SpanMaker { include_headers: false }
    }

    /// The same span maker, with header inclusion as given.
    pub fn include_headers(self, include_headers: bool) -> (r: Self)
        ensures
            r.headers_included() == include_headers,
    {
        let mut r = self;
        r.include_headers = include_headers;
        r
    }
}

impl Default for SpanMaker {
    /// The default span maker leaves the headers out.
    fn default() -> (r: Self)
        ensures
            !r.headers_included(),
    {
        SpanMaker::new()
    }
}

/// The address a request is logged under.  A forwarding proxy's header
/// wins when it is present: its text, or a placeholder when the text is
/// unreadable.  Otherwise the peer address, or the placeholder when even
/// that is unknown.  The outer option says whether the forwarding header
/// was present; the inner one whether its value was readable text.
pub fn real_addr(forwarded: Option<Option<String>>, peer: Option<String>) -> (r: String)
    ensures
        match forwarded {
            Some(Some(s)) => r@ == s@,
            Some(None) => r@ == "<unknown>"@,
            None => match peer {
                Some(p) => r@ == p@,
                None => r@ == "<unknown>"@,
            },
        },
{
    match forwarded {
        Some(Some(s)) => s,
        Some(None) => String::from_str("<unknown>"),
        None => match peer {
            Some(p) => p,
            None => String::from_str("<unknown>"),
        },
    }
}

} // verus!
