//! Wire messages.
//!
//! A client writes a stream of requests and the server answers with one
//! response per request, in order, over the same self-delimiting text
//! encoding the log files use: a tag character followed by string items.

use crate::codec::Parse;
use crate::codec::Scan;
use crate::codec::chars_to_string;
use crate::codec::enc_str;
use crate::codec::lemma_parse_str_bounds;
use crate::codec::lemma_parse_str_round_trip;
use crate::codec::parse_str;
use crate::codec::push_str_item;
use crate::codec::str_to_chars;
use crate::codec::decode_str_item;
use vstd::prelude::*;

verus! {

broadcast use vstd::std_specs::vec::group_vec_axioms;

/// One request from a client: store a pair, look a key up, or withdraw it.
pub enum Request {
    Put { key: String, value: String },
    Get { key: String },
    Remove { key: String },
}

/// The server's answer: success with an optional value, or a message that
/// says what went wrong.
pub enum Response {
    Okay(Option<String>),
    Fail(String),
}

/// A request as the specifications see it.
pub enum RequestView {
    Put { key: Seq<char>, value: Seq<char> },
    Get { key: Seq<char> },
    Remove { key: Seq<char> },
}

/// A response as the specifications see it.
pub enum ResponseView {
    Okay(Option<Seq<char>>),
    Fail(Seq<char>),
}

impl View for Request {
    type V = RequestView;

    open spec fn view(&self) -> RequestView {
        match self {
            Request::Put { key, value } => RequestView::Put { key: key@, value: value@ },
            Request::Get { key } => RequestView::Get { key: key@ },
            Request::Remove { key } => RequestView::Remove { key: key@ },
        }
    }
}

impl View for Response {
    type V = ResponseView;

    open spec fn view(&self) -> ResponseView {
        match self {
            Response::Okay(v) => ResponseView::Okay(
                match v {
                    Some(s) => Some(s@),
                    None => None,
                },
            ),
            Response::Fail(m) => ResponseView::Fail(m@),
        }
    }
}

/// Encoding of a request: a tag and its string items.
pub open spec fn enc_request(r: RequestView) -> Seq<char> {
    match r {
        RequestView::Put { key, value } => seq!['S'] + enc_str(key) + enc_str(value),
        RequestView::Get { key } => seq!['G'] + enc_str(key),
        RequestView::Remove { key } => seq!['R'] + enc_str(key),
    }
}

/// Encoding of a response.  Success without a value is the single tag `N`.
pub open spec fn enc_response(r: ResponseView) -> Seq<char> {
    match r {
        ResponseView::Okay(None) => seq!['N'],
        ResponseView::Okay(Some(v)) => seq!['V'] + enc_str(v),
        ResponseView::Fail(m) => seq!['E'] + enc_str(m),
    }
}

/// Parse one request from the front of `s`.
pub open spec fn parse_request(s: Seq<char>) -> Parse<RequestView> {
    if s.len() == 0 {
        Parse::More
    } else if s[0] == 'S' {
        match parse_str(s.skip(1)) {
            Parse::Done(k, n1) => match parse_str(s.skip(1 + n1)) {
                Parse::Done(v, n2) => Parse::Done(
                    RequestView::Put { key: k, value: v },
                    1 + n1 + n2,
                ),
                Parse::More => Parse::More,
                Parse::Bad => Parse::Bad,
            },
            Parse::More => Parse::More,
            Parse::Bad => Parse::Bad,
        }
    } else if s[0] == 'G' {
        match parse_str(s.skip(1)) {
            Parse::Done(k, n1) => Parse::Done(RequestView::Get { key: k }, 1 + n1),
            Parse::More => Parse::More,
            Parse::Bad => Parse::Bad,
        }
    } else if s[0] == 'R' {
        match parse_str(s.skip(1)) {
            Parse::Done(k, n1) => Parse::Done(RequestView::Remove { key: k }, 1 + n1),
            Parse::More => Parse::More,
            Parse::Bad => Parse::Bad,
        }
    } else {
        Parse::Bad
    }
}

/// Parse one response from the front of `s`.
pub open spec fn parse_response(s: Seq<char>) -> Parse<ResponseView> {
    if s.len() == 0 {
        Parse::More
    } else if s[0] == 'N' {
        Parse::Done(ResponseView::Okay(None), 1)
    } else if s[0] == 'V' {
        match parse_str(s.skip(1)) {
            Parse::Done(v, n1) => Parse::Done(ResponseView::Okay(Some(v)), 1 + n1),
            Parse::More => Parse::More,
            Parse::Bad => Parse::Bad,
        }
    } else if s[0] == 'E' {
        match parse_str(s.skip(1)) {
            Parse::Done(m, n1) => Parse::Done(ResponseView::Fail(m), 1 + n1),
            Parse::More => Parse::More,
            Parse::Bad => Parse::Bad,
        }
    } else {
        Parse::Bad
    }
}

/// A parsed request occupies at least one character and at most the input.
pub proof fn lemma_parse_request_bounds(s: Seq<char>)
    ensures
        parse_request(s) matches Parse::Done(r, n) ==> 1 <= n <= s.len(),
{
    if s.len() > 0 {
        lemma_parse_str_bounds(s.skip(1));
        match parse_str(s.skip(1)) {
            Parse::Done(k, n1) => {
                lemma_parse_str_bounds(s.skip(1 + n1));
            }
            _ => {}
        }
    }
}

/// A parsed response occupies at least one character and at most the input.
pub proof fn lemma_parse_response_bounds(s: Seq<char>)
    ensures
        parse_response(s) matches Parse::Done(r, n) ==> 1 <= n <= s.len(),
{
    if s.len() > 0 {
        lemma_parse_str_bounds(s.skip(1));
    }
}

/// An encoded request parses back to the request, whatever follows it.
pub proof fn lemma_parse_request_round_trip(r: RequestView, t: Seq<char>)
    ensures
        parse_request(enc_request(r) + t) == Parse::<RequestView>::Done(
            r,
            enc_request(r).len() as int,
        ),
{
    let s = enc_request(r) + t;
    match r {
        RequestView::Put { key, value } => {
            assert(s[0] == 'S');
            assert(s.skip(1) =~= enc_str(key) + (enc_str(value) + t));
            lemma_parse_str_round_trip(key, enc_str(value) + t);
            let n1 = enc_str(key).len() as int;
            assert(s.skip(1 + n1) =~= enc_str(value) + t);
            lemma_parse_str_round_trip(value, t);
        }
        RequestView::Get { key } => {
            assert(s[0] == 'G');
            assert(s.skip(1) =~= enc_str(key) + t);
            lemma_parse_str_round_trip(key, t);
        }
        RequestView::Remove { key } => {
            assert(s[0] == 'R');
            assert(s.skip(1) =~= enc_str(key) + t);
            lemma_parse_str_round_trip(key, t);
        }
    }
}

/// An encoded response parses back to the response, whatever follows it.
pub proof fn lemma_parse_response_round_trip(r: ResponseView, t: Seq<char>)
    ensures
        parse_response(enc_response(r) + t) == Parse::<ResponseView>::Done(
            r,
            enc_response(r).len() as int,
        ),
{
    let s = enc_response(r) + t;
    match r {
        ResponseView::Okay(None) => {
            assert(s[0] == 'N');
        }
        ResponseView::Okay(Some(v)) => {
            assert(s[0] == 'V');
            assert(s.skip(1) =~= enc_str(v) + t);
            lemma_parse_str_round_trip(v, t);
        }
        ResponseView::Fail(m) => {
            assert(s[0] == 'E');
            assert(s.skip(1) =~= enc_str(m) + t);
            lemma_parse_str_round_trip(m, t);
        }
    }
}

/// The spec-level meaning of a request scan's outcome.
pub open spec fn request_scan_ok(r: Scan<Request>, s: Seq<char>, from: int) -> bool {
    match parse_request(s.skip(from)) {
        Parse::Done(req, n) => {
            &&& r matches Scan::Hit(got, next)
            &&& got@ == req
            &&& next == from + n
            &&& next <= s.len()
        },
        Parse::More => r is More,
        Parse::Bad => r is Bad,
    }
}

/// The spec-level meaning of a response scan's outcome.
pub open spec fn response_scan_ok(r: Scan<Response>, s: Seq<char>, from: int) -> bool {
    match parse_response(s.skip(from)) {
        Parse::Done(resp, n) => {
            &&& r matches Scan::Hit(got, next)
            &&& got@ == resp
            &&& next == from + n
            &&& next <= s.len()
        },
        Parse::More => r is More,
        Parse::Bad => r is Bad,
    }
}

/// Encode one request.
pub fn encode_request(req: &Request) -> (out: Vec<char>)
    ensures
        out@ == enc_request(req@),
{
    let mut out: Vec<char> = Vec::new();
    match req {
        Request::Put { key, value } => {
            out.push('S');
            let kc = str_to_chars(key.as_str());
            let vc = str_to_chars(value.as_str());
            push_str_item(&mut out, &kc);
            push_str_item(&mut out, &vc);
            proof {
                assert(out@ =~= enc_request(req@));
            }
        }
        Request::Get { key } => {
            out.push('G');
            let kc = str_to_chars(key.as_str());
            push_str_item(&mut out, &kc);
            proof {
                assert(out@ =~= enc_request(req@));
            }
        }
        Request::Remove { key } => {
            out.push('R');
            let kc = str_to_chars(key.as_str());
            push_str_item(&mut out, &kc);
            proof {
                assert(out@ =~= enc_request(req@));
            }
        }
    }
    out
}

/// Encode one response.
pub fn encode_response(resp: &Response) -> (out: Vec<char>)
    ensures
        out@ == enc_response(resp@),
{
    let mut out: Vec<char> = Vec::new();
    match resp {
        Response::Okay(None) => {
            out.push('N');
            proof {
                assert(out@ =~= enc_response(resp@));
            }
        }
        Response::Okay(Some(v)) => {
            out.push('V');
            let vc = str_to_chars(v.as_str());
            push_str_item(&mut out, &vc);
            proof {
                assert(out@ =~= enc_response(resp@));
            }
        }
        Response::Fail(m) => {
            out.push('E');
            let mc = str_to_chars(m.as_str());
            push_str_item(&mut out, &mc);
            proof {
                assert(out@ =~= enc_response(resp@));
            }
        }
    }
    out
}

/// Scan one request of `s` starting at `from`.
pub fn decode_request(s: &Vec<char>, from: usize) -> (r: Scan<Request>)
    requires
        from <= s@.len(),
    ensures
        request_scan_ok(r, s@, from as int),
{
    let ghost suf = s@.skip(from as int);
    if from == s.len() {
        return Scan::More;
    }
    let tag = s[from];
    proof {
        assert(suf[0] == s@[from as int]);
        assert(suf.skip(1) =~= s@.skip(from as int + 1));
    }
    if tag == 'S' {
        match decode_str_item(s, from + 1) {
            Scan::Hit(k, next1) => {
                proof {
                    lemma_parse_str_bounds(suf.skip(1));
                    match parse_str(suf.skip(1)) {
                        Parse::Done(v0, n1) => {
                            assert(suf.skip(1 + n1) =~= s@.skip(next1 as int));
                        }
                        _ => {}
                    }
                }
                match decode_str_item(s, next1) {
                    Scan::Hit(v, next2) => Scan::Hit(
                        Request::Put {
                            key: chars_to_string(&k),
                            value: chars_to_string(&v),
                        },
                        next2,
                    ),
                    Scan::More => Scan::More,
                    Scan::Bad => Scan::Bad,
                }
            }
            Scan::More => Scan::More,
            Scan::Bad => Scan::Bad,
        }
    } else if tag == 'G' {
        match decode_str_item(s, from + 1) {
            Scan::Hit(k, next1) => Scan::Hit(Request::Get { key: chars_to_string(&k) }, next1),
            Scan::More => Scan::More,
            Scan::Bad => Scan::Bad,
        }
    } else if tag == 'R' {
        match decode_str_item(s, from + 1) {
            Scan::Hit(k, next1) => Scan::Hit(Request::Remove { key: chars_to_string(&k) }, next1),
            Scan::More => Scan::More,
            Scan::Bad => Scan::Bad,
        }
    } else {
        Scan::Bad
    }
}

/// Scan one response of `s` starting at `from`.
pub fn decode_response(s: &Vec<char>, from: usize) -> (r: Scan<Response>)
    requires
        from <= s@.len(),
    ensures
        response_scan_ok(r, s@, from as int),
{
    let ghost suf = s@.skip(from as int);
    if from == s.len() {
        return Scan::More;
    }
    let tag = s[from];
    proof {
        assert(suf[0] == s@[from as int]);
        assert(suf.skip(1) =~= s@.skip(from as int + 1));
    }
    if tag == 'N' {
        Scan::Hit(Response::Okay(None), from + 1)
    } else if tag == 'V' {
        match decode_str_item(s, from + 1) {
            Scan::Hit(v, next1) => Scan::Hit(
                Response::Okay(Some(chars_to_string(&v))),
                next1,
            ),
            Scan::More => Scan::More,
            Scan::Bad => Scan::Bad,
        }
    } else if tag == 'E' {
        match decode_str_item(s, from + 1) {
            Scan::Hit(m, next1) => Scan::Hit(Response::Fail(chars_to_string(&m)), next1),
            Scan::More => Scan::More,
            Scan::Bad => Scan::Bad,
        }
    } else {
        Scan::Bad
    }
}

} // verus!
