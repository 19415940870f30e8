//! HTTP over sessions: a request is an OPEN payload and a body, a response is a line of
//! metadata followed by a body. Both are JSON.
use vstd::prelude::*;
use vstd::string::*;
use vstd::utf8::encode_utf8;

use crate::continuity::frame::{Direction, Frame, FrameType};
use crate::continuity::session::frames::{frame_view, mk_frame};
use crate::continuity::session::shared::RequestState;
use crate::octets::copy_range;
use crate::outside::{
    json_len, json_len_of, json_number, json_number_of, json_string, json_text, json_text_of,
};
use crate::session::{connect_err, connect_error, FabricError};
use crate::text::{
    cat, cat3, cat5, chars_of, decimal, decimal_text, hex_chars, hex_str, json_quoted,
};

verus! {

/// A header; a message may hold several of one name.
#[derive(Debug, Clone, PartialEq, Eq)]
pub struct Header {
    pub name: String,
    pub value: String,
}

/// What a [`Header`] holds.
pub struct HeaderView {
    pub name: Seq<char>,
    pub value: Seq<char>,
}

impl View for Header {
    type V = HeaderView;

    open spec fn view(&self) -> HeaderView {
        HeaderView { name: self.name@, value: self.value@ }
    }
}

/// The views of a list of headers.
pub open spec fn header_views(s: Seq<Header>) -> Seq<HeaderView> {
    Seq::new(s.len(), |i: int| s[i]@)
}

impl Header {
    pub fn new(name: &str, value: &str) -> (r: Self)
        ensures
            r@ == (HeaderView { name: name@, value: value@ }),
    {
        Header { name: name.to_owned(), value: value.to_owned() }
    }
}

/// A request to be sent.
#[derive(Debug, Clone, PartialEq, Eq)]
pub struct HttpRequestInit {
    pub method: String,
    pub path: String,
    pub headers: Vec<Header>,
    pub body: Vec<Vec<u8>>,
    /// The request stays open in both directions, as a tunnel does.
    pub keep_open: bool,
    /// Longest wait for the head of the response, in milliseconds.
    pub head_timeout_ms: Option<u64>,
}

impl HttpRequestInit {
    /// A GET request.
    pub fn get(path: &str) -> (r: Self)
        ensures
            r.method@ == "GET"@,
            r.path@ == path@,
            r.headers@.len() == 0,
            r.body@.len() == 0,
            !r.keep_open,
            r.head_timeout_ms is None,
    {
        HttpRequestInit {
            method: "GET".to_owned(),
            path: path.to_owned(),
            headers: Vec::new(),
            body: Vec::new(),
            keep_open: false,
            head_timeout_ms: None,
        }
    }

    /// A POST request with a JSON body.
    pub fn post(path: &str, body: Vec<u8>) -> (r: Self)
        ensures
            r.method@ == "POST"@,
            r.path@ == path@,
            header_views(r.headers@) == seq![
                HeaderView { name: "content-type"@, value: "application/json"@ },
            ],
            r.body@ == seq![body],
            !r.keep_open,
            r.head_timeout_ms is None,
    {
        let mut headers: Vec<Header> = Vec::new();
        headers.push(Header::new("content-type", "application/json"));
        assert(header_views(headers@) =~= seq![
            HeaderView { name: "content-type"@, value: "application/json"@ },
        ]);
        let mut parts: Vec<Vec<u8>> = Vec::new();
        parts.push(body);
        assert(parts@ =~= seq![body]);
        HttpRequestInit {
            method: "POST".to_owned(),
            path: path.to_owned(),
            headers,
            body: parts,
            keep_open: false,
            head_timeout_ms: None,
        }
    }
}

/// An error of the engine, without details of the peer.
#[derive(Debug)]
pub struct HttpEngineError(pub String);

impl HttpEngineError {
    /// The error as text.
    pub fn message(&self) -> (r: String)
        ensures
            r@ == "http engine: "@ + self.0@,
    {
        cat("http engine: ", self.0.as_str())
    }

    /// The error as one of the fabric.
    pub fn into_fabric(self) -> (r: FabricError)
        ensures
            connect_error(r, self.0@),
    {
        connect_err(self.0)
    }
}

/// Sixteen bytes in hexadecimal.
pub fn hex16(b: &[u8; 16]) -> (r: String)
    ensures
        r@ == hex_chars(b@),
{
    hex_str(b)
}

// ---- writing ----------------------------------------------------------------------

/// `{"name":<name>,"value":<value>}`
pub open spec fn header_json(h: HeaderView) -> Seq<char> {
    "{\"name\":"@ + json_quoted(h.name) + ",\"value\":"@ + json_quoted(h.value) + "}"@
}

/// Headers separated by commas.
pub open spec fn headers_json(s: Seq<HeaderView>) -> Seq<char>
    decreases s.len(),
{
    if s.len() == 0 {
        Seq::empty()
    } else if s.len() == 1 {
        header_json(s[0])
    } else {
        headers_json(s.drop_last()) + ","@ + header_json(s.last())
    }
}

fn headers_text(headers: &Vec<Header>) -> (r: String)
    ensures
        r@ == headers_json(header_views(headers@)),
{
    let ghost v = header_views(headers@);
    let n: usize = headers.len();
    let mut out = String::new();
    let mut i: usize = 0;
    assert(v.subrange(0, 0) =~= Seq::<HeaderView>::empty());
    while i < n
        invariant
            i <= n,
            n == headers@.len(),
            v == header_views(headers@),
            out@ == headers_json(v.subrange(0, i as int)),
        decreases n - i,
    {
        let name = json_string(headers[i].name.as_str());
        let value = json_string(headers[i].value.as_str());
        let one = cat5("{\"name\":", name.as_str(), ",\"value\":", value.as_str(), "}");
        if i > 0 {
            out.append(",");
        }
        out.append(one.as_str());
        proof {
            let t = v.subrange(0, i + 1);
            assert(t.drop_last() =~= v.subrange(0, i as int));
            assert(t.last() == v[i as int]);
            if i == 0 {
                assert(t[0] == v[0]);
                assert(out@ =~= headers_json(t));
            }
        }
        i = i + 1;
    }
    assert(v.subrange(0, n as int) =~= v);
    out
}

/// The lower case of an ASCII letter; other characters stay.
pub open spec fn ascii_lower(c: char) -> char {
    if 'A' <= c <= 'Z' {
        ((c as u32 + 32) as u8) as char
    } else {
        c
    }
}

/// The texts are equal up to the case of ASCII letters.
pub open spec fn same_ignoring_case(a: Seq<char>, b: Seq<char>) -> bool {
    a.len() == b.len() && forall|i: int|
        0 <= i < a.len() ==> ascii_lower(#[trigger] a[i]) == ascii_lower(b[i])
}

fn lower(c: char) -> (r: char)
    ensures
        r == ascii_lower(c),
{
    if 'A' <= c && c <= 'Z' {
        ((c as u32 + 32) as u8) as char
    } else {
        c
    }
}

/// Whether two texts are equal up to the case of ASCII letters.
pub fn eq_ignoring_case(a: &str, b: &str) -> (r: bool)
    ensures
        r == same_ignoring_case(a@, b@),
{
    let x = chars_of(a);
    let y = chars_of(b);
    if x.len() != y.len() {
        return false;
    }
    let n: usize = x.len();
    let mut i: usize = 0;
    while i < n
        invariant
            i <= n,
            n == x@.len(),
            n == y@.len(),
            x@ == a@,
            y@ == b@,
            forall|k: int| 0 <= k < i ==> ascii_lower(#[trigger] x@[k]) == ascii_lower(y@[k]),
        decreases n - i,
    {
        if lower(x[i]) != lower(y[i]) {
            assert(ascii_lower(a@[i as int]) != ascii_lower(b@[i as int]));
            return false;
        }
        i = i + 1;
    }
    true
}

/// The value of the first content type header from place `i` on, empty where there is none.
pub open spec fn content_type_from(s: Seq<HeaderView>, i: int) -> Seq<char>
    decreases s.len() - i,
{
    if i < 0 || i >= s.len() {
        Seq::empty()
    } else if same_ignoring_case(s[i].name, "content-type"@) {
        s[i].value
    } else {
        content_type_from(s, i + 1)
    }
}

fn content_type(headers: &Vec<Header>) -> (r: String)
    ensures
        r@ == content_type_from(header_views(headers@), 0),
{
    let ghost v = header_views(headers@);
    let n: usize = headers.len();
    let mut i: usize = 0;
    while i < n
        invariant
            i <= n,
            n == headers@.len(),
            v == header_views(headers@),
            content_type_from(v, 0) == content_type_from(v, i as int),
        decreases n - i,
    {
        if eq_ignoring_case(headers[i].name.as_str(), "content-type") {
            return headers[i].value.clone();
        }
        i = i + 1;
    }
    String::new()
}

/// The metadata of a request, its members in alphabetical order.
pub open spec fn request_json(
    idem: Seq<char>,
    method: Seq<char>,
    path: Seq<char>,
    headers: Seq<HeaderView>,
    body_len: nat,
) -> Seq<char> {
    "{\"bodyLength\":"@ + decimal(body_len) + ",\"contentType\":"@ + json_quoted(
        content_type_from(headers, 0),
    ) + ",\"headers\":["@ + headers_json(headers) + "],\"idempotencyKey\":"@ + json_quoted(idem)
        + ",\"method\":"@ + json_quoted(method) + ",\"path\":"@ + json_quoted(path) + "}"@
}

/// The bytes of all parts of a body.
pub open spec fn body_len(parts: Seq<Vec<u8>>) -> nat
    decreases parts.len(),
{
    if parts.len() == 0 {
        0
    } else {
        body_len(parts.drop_last()) + parts.last()@.len()
    }
}

proof fn lemma_body_len(parts: Seq<Vec<u8>>, i: int)
    requires
        0 <= i <= parts.len(),
    ensures
        body_len(parts.subrange(0, i)) <= body_len(parts),
        i < parts.len() ==> body_len(parts.subrange(0, i + 1)) == body_len(parts.subrange(0, i))
            + parts[i]@.len(),
    decreases parts.len() - i,
{
    if i == parts.len() {
        assert(parts.subrange(0, i) =~= parts);
    } else {
        lemma_body_len(parts, i + 1);
        assert(parts.subrange(0, i + 1).drop_last() =~= parts.subrange(0, i));
    }
}

fn total_len(parts: &Vec<Vec<u8>>) -> (r: usize)
    requires
        body_len(parts@) <= usize::MAX,
    ensures
        r == body_len(parts@),
{
    let mut n: usize = 0;
    let mut i: usize = 0;
    assert(parts@.subrange(0, 0) =~= Seq::<Vec<u8>>::empty());
    while i < parts.len()
        invariant
            i <= parts@.len(),
            n == body_len(parts@.subrange(0, i as int)),
            body_len(parts@) <= usize::MAX,
        decreases parts@.len() - i,
    {
        proof {
            lemma_body_len(parts@, i as int);
            lemma_body_len(parts@, i + 1);
        }
        n = n + parts[i].len();
        i = i + 1;
    }
    assert(parts@.subrange(0, i as int) =~= parts@);
    n
}

/// The OPEN payload of a request.
pub fn request_meta(idem: &str, init: &HttpRequestInit) -> (r: Vec<u8>)
    requires
        body_len(init.body@) <= usize::MAX,
    ensures
        r@ == encode_utf8(
            request_json(
                idem@,
                init.method@,
                init.path@,
                header_views(init.headers@),
                body_len(init.body@),
            ),
        ),
{
    let n = decimal_text(total_len(&init.body) as u64);
    let ct = json_string(content_type(&init.headers).as_str());
    let mut s = cat5(
        "{\"bodyLength\":",
        n.as_str(),
        ",\"contentType\":",
        ct.as_str(),
        ",\"headers\":[",
    );
    s.append(headers_text(&init.headers).as_str());
    s.append("],\"idempotencyKey\":");
    s.append(json_string(idem).as_str());
    s.append(",\"method\":");
    s.append(json_string(init.method.as_str()).as_str());
    s.append(",\"path\":");
    s.append(json_string(init.path.as_str()).as_str());
    s.append("}");
    vstd::slice::slice_to_vec(s.as_str().as_bytes())
}

/// The metadata of a response.
pub open spec fn response_json(status: u16, headers: Seq<HeaderView>) -> Seq<char> {
    "{\"headers\":["@ + headers_json(headers) + "],\"status\":"@ + decimal(status as nat) + "}"@
}

fn response_text(status: u16, headers: &Vec<Header>) -> (r: String)
    ensures
        r@ == response_json(status, header_views(headers@)),
{
    cat5(
        "{\"headers\":[",
        headers_text(headers).as_str(),
        "],\"status\":",
        decimal_text(status as u64).as_str(),
        "}",
    )
}

/// The first line of a response.
pub fn response_head(status: u16, headers: &Vec<Header>) -> (r: Vec<u8>)
    ensures
        r@ == encode_utf8(response_json(status, header_views(headers@)) + "\n"@),
{
    let s = cat(response_text(status, headers).as_str(), "\n");
    vstd::slice::slice_to_vec(s.as_str().as_bytes())
}

/// A whole response that reports an error as plain text.
pub fn error_response(status: u16, message: &str) -> (r: Vec<u8>)
    ensures
        r@ == encode_utf8(
            response_json(
                status,
                seq![HeaderView { name: "content-type"@, value: "text/plain"@ }],
            ) + "\n"@ + message@,
        ),
{
    let mut headers: Vec<Header> = Vec::new();
    headers.push(Header::new("content-type", "text/plain"));
    assert(header_views(headers@) =~= seq![
        HeaderView { name: "content-type"@, value: "text/plain"@ },
    ]);
    let s = cat3(response_text(status, &headers).as_str(), "\n", message);
    vstd::slice::slice_to_vec(s.as_str().as_bytes())
}

// ---- reading ----------------------------------------------------------------------

/// A header as JSON may hold it: each member is there only if it is a string.
#[derive(Debug, Clone, PartialEq, Eq)]
pub struct HeaderItem {
    pub name: Option<String>,
    pub value: Option<String>,
}

/// What the first line of a response may hold: the status if it is a natural number, the
/// headers if they are a list.
#[derive(Debug, Clone, PartialEq, Eq)]
pub struct HeadLine {
    pub status: Option<u64>,
    pub headers: Option<Vec<HeaderItem>>,
}

/// What the metadata of a request may hold.
#[derive(Debug, Clone, PartialEq, Eq)]
pub struct RequestMeta {
    pub method: Option<String>,
    pub path: Option<String>,
    pub headers: Option<Vec<HeaderItem>>,
}

/// The items that have both a name and a value.
pub open spec fn whole_headers(s: Seq<HeaderItem>) -> Seq<HeaderView>
    decreases s.len(),
{
    if s.len() == 0 {
        Seq::empty()
    } else {
        let before = whole_headers(s.drop_last());
        match (s.last().name, s.last().value) {
            (Some(n), Some(v)) => before.push(HeaderView { name: n@, value: v@ }),
            _ => before,
        }
    }
}

/// The headers of optional items, none where the list is missing.
pub open spec fn headers_of(items: Option<Vec<HeaderItem>>) -> Seq<HeaderView> {
    match items {
        Some(v) => whole_headers(v@),
        None => Seq::empty(),
    }
}

fn collect_headers(items: &Option<Vec<HeaderItem>>) -> (r: Vec<Header>)
    ensures
        header_views(r@) == headers_of(*items),
{
    let mut out: Vec<Header> = Vec::new();
    assert(header_views(out@) =~= Seq::<HeaderView>::empty());
    if let Some(list) = items {
        let n: usize = list.len();
        let mut i: usize = 0;
        assert(list@.subrange(0, 0) =~= Seq::<HeaderItem>::empty());
        while i < n
            invariant
                i <= n,
                n == list@.len(),
                header_views(out@) == whole_headers(list@.subrange(0, i as int)),
            decreases n - i,
        {
            proof {
                let t = list@.subrange(0, i + 1);
                assert(t.drop_last() =~= list@.subrange(0, i as int));
                assert(t.last() == list@[i as int]);
            }
            if let Some(name) = &list[i].name {
                if let Some(value) = &list[i].value {
                    let ghost before = header_views(out@);
                    out.push(Header { name: name.clone(), value: value.clone() });
                    assert(header_views(out@) =~= before.push(
                        HeaderView { name: name@, value: value@ },
                    ));
                }
            }
            i = i + 1;
        }
        assert(list@.subrange(0, n as int) =~= list@);
    }
    out
}

/// The place of the first line end.
pub open spec fn line_end(buf: Seq<u8>, i: int) -> Option<int>
    decreases buf.len() - i,
{
    if i < 0 || i >= buf.len() {
        None
    } else if buf[i] == 10 {
        Some(i)
    } else {
        line_end(buf, i + 1)
    }
}

/// The place of the first line end, if the first line is complete.
pub fn meta_line_end(buf: &[u8]) -> (r: Option<usize>)
    ensures
        match r {
            Some(i) => line_end(buf@, 0) == Some(i as int) && i < buf@.len(),
            None => line_end(buf@, 0) is None,
        },
{
    let n: usize = buf.len();
    let mut i: usize = 0;
    while i < n
        invariant
            i <= n,
            n == buf@.len(),
            line_end(buf@, 0) == line_end(buf@, i as int),
        decreases n - i,
    {
        if buf[i] == 10 {
            return Some(i);
        }
        i = i + 1;
    }
    None
}

/// The text at a place of a JSON document, if one stands there.
pub open spec fn text_at(bytes: Seq<u8>, at: Seq<char>) -> Option<Seq<char>> {
    match json_text_of(bytes, at) {
        Some(t) => t,
        None => None,
    }
}

/// The place of a member of the header `i` in the metadata.
pub open spec fn header_place(i: nat, member: Seq<char>) -> Seq<char> {
    "/headers/"@ + decimal(i) + member
}

/// Those of the first `n` headers of the metadata that have both a text as name and a text
/// as value.
pub open spec fn first_headers(bytes: Seq<u8>, n: nat) -> Seq<HeaderView>
    decreases n,
{
    if n == 0 {
        Seq::empty()
    } else {
        let i = (n - 1) as nat;
        let before = first_headers(bytes, i);
        match (
            text_at(bytes, header_place(i, "/name"@)),
            text_at(bytes, header_place(i, "/value"@)),
        ) {
            (Some(name), Some(value)) => before.push(HeaderView { name, value }),
            _ => before,
        }
    }
}

/// The headers of the metadata, none where they are no list.
pub open spec fn json_headers(bytes: Seq<u8>) -> Seq<HeaderView> {
    match json_len_of(bytes, "/headers"@) {
        Some(Some(n)) => first_headers(bytes, n as nat),
        _ => Seq::empty(),
    }
}

fn read_text(bytes: &[u8], at: &str) -> (r: Option<String>)
    ensures
        match r {
            Some(t) => text_at(bytes@, at@) == Some(t@),
            None => text_at(bytes@, at@) is None,
        },
{
    match json_text(bytes, at) {
        Some(t) => t,
        None => None,
    }
}

fn read_headers(bytes: &[u8]) -> (r: Option<Vec<HeaderItem>>)
    ensures
        headers_of(r) == json_headers(bytes@),
{
    let n: usize = match json_len(bytes, "/headers") {
        Some(Some(n)) => n,
        _ => return None,
    };
    let mut items: Vec<HeaderItem> = Vec::new();
    let mut i: usize = 0;
    while i < n
        invariant
            i <= n,
            whole_headers(items@) == first_headers(bytes@, i as nat),
        decreases n - i,
    {
        let d = decimal_text(i as u64);
        let name = read_text(bytes, cat3("/headers/", d.as_str(), "/name").as_str());
        let value = read_text(bytes, cat3("/headers/", d.as_str(), "/value").as_str());
        let ghost before = items@;
        items.push(HeaderItem { name, value });
        assert(items@.drop_last() =~= before);
        i = i + 1;
    }
    Some(items)
}

/// The head of a response: status, headers and what follows the first line. There is none
/// until the first line is complete, nor where it is not JSON or has no status.
pub fn peel_meta_line(buf: &[u8]) -> (r: Option<(u16, Vec<Header>, Vec<u8>)>)
    ensures
        match line_end(buf@, 0) {
            Some(nl) => {
                let line = buf@.subrange(0, nl);
                match json_number_of(line, "/status"@) {
                    Some(Some(status)) => {
                        &&& r is Some
                        &&& (r->0).0 == (status % 65536) as u16
                        &&& header_views((r->0).1@) == json_headers(line)
                        &&& (r->0).2@ == buf@.subrange(nl + 1, buf@.len() as int)
                    },
                    _ => r is None,
                }
            },
            None => r is None,
        },
{
    let nl: usize = match meta_line_end(buf) {
        Some(i) => i,
        None => return None,
    };
    let line = vstd::slice::slice_subrange(buf, 0, nl);
    let head = match json_number(line, "/status") {
        Some(status) => Some(HeadLine { status, headers: read_headers(line) }),
        None => None,
    };
    peel_head(buf, head)
}

/// The head of a response, from what its first line holds: nothing where that is not JSON.
pub fn peel_head(buf: &[u8], head: Option<HeadLine>) -> (r: Option<(u16, Vec<Header>, Vec<u8>)>)
    ensures
        match (line_end(buf@, 0), head) {
            (Some(nl), Some(h)) => match h.status {
                Some(status) => {
                    &&& r is Some
                    &&& (r->0).0 == (status % 65536) as u16
                    &&& header_views((r->0).1@) == headers_of(h.headers)
                    &&& (r->0).2@ == buf@.subrange(nl + 1, buf@.len() as int)
                },
                None => r is None,
            },
            _ => r is None,
        },
{
    let nl: usize = match meta_line_end(buf) {
        Some(i) => i,
        None => return None,
    };
    let h = match head {
        Some(h) => h,
        None => return None,
    };
    let status: u64 = match h.status {
        Some(s) => s,
        None => return None,
    };
    let headers = collect_headers(&h.headers);
    let n: usize = buf.len();
    let rest = copy_range(buf, nl + 1, n);
    Some(((status % 65536) as u16, headers, rest))
}

// ---- serving ----------------------------------------------------------------------

/// A request as the handler gets it; the body is read from the stream.
#[derive(Debug, Clone, PartialEq, Eq)]
pub struct HttpRequestHead {
    pub method: String,
    pub path: String,
    pub headers: Vec<Header>,
    pub stream_id: u64,
}

/// What to do with a stream that arrived.
#[derive(Debug)]
pub enum DispatchStep {
    /// Nothing: its request has started before, or it carries no request.
    Skip,
    /// Answer with an error of this status and text.
    Refuse { status: u16, message: &'static str },
    /// Mark the request started and hand it to the handler.
    Run(HttpRequestHead),
}

/// What to do with a stream that arrived. `state` is how far its request has come, and
/// `raw` is its OPEN payload, if there is one.
pub fn dispatch_stream(
    state: Option<RequestState>,
    raw: Option<&[u8]>,
    stream_id: u64,
) -> (r: DispatchStep)
    ensures
        if state == Some(RequestState::Started) || state == Some(RequestState::Completed) {
            r == DispatchStep::Skip
        } else {
            match raw {
                None => r == DispatchStep::Skip,
                Some(b) => if json_text_of(b@, "/method"@) is None {
                    match r {
                        DispatchStep::Refuse { status, message } => status == 400 && message@
                            == "bad request meta"@,
                        _ => false,
                    }
                } else {
                    match r {
                        DispatchStep::Run(q) => {
                            &&& q.method@ == match text_at(b@, "/method"@) {
                                Some(t) => t,
                                None => "GET"@,
                            }
                            &&& q.path@ == match text_at(b@, "/path"@) {
                                Some(t) => t,
                                None => "/"@,
                            }
                            &&& header_views(q.headers@) == json_headers(b@)
                            &&& q.stream_id == stream_id
                        },
                        _ => false,
                    }
                },
            }
        },
{
    let meta = match raw {
        Some(b) => Some(
            match json_text(b, "/method") {
                Some(method) => Some(
                    RequestMeta { method, path: read_text(b, "/path"), headers: read_headers(b) },
                ),
                None => None,
            },
        ),
        None => None,
    };
    dispatch_request(state, meta, stream_id)
}

/// What to do with a stream that arrived, from what its OPEN payload holds: nothing where
/// there is none, `Some(None)` where it is not JSON.
pub fn dispatch_request(
    state: Option<RequestState>,
    meta: Option<Option<RequestMeta>>,
    stream_id: u64,
) -> (r: DispatchStep)
    ensures
        if state == Some(RequestState::Started) || state == Some(RequestState::Completed) {
            r == DispatchStep::Skip
        } else {
            match meta {
                None => r == DispatchStep::Skip,
                Some(None) => match r {
                    DispatchStep::Refuse { status, message } => status == 400 && message@
                        == "bad request meta"@,
                    _ => false,
                },
                Some(Some(m)) => match r {
                    DispatchStep::Run(q) => {
                        &&& q.method@ == match m.method {
                            Some(t) => t@,
                            None => "GET"@,
                        }
                        &&& q.path@ == match m.path {
                            Some(t) => t@,
                            None => "/"@,
                        }
                        &&& header_views(q.headers@) == headers_of(m.headers)
                        &&& q.stream_id == stream_id
                    },
                    _ => false,
                },
            }
        },
{
    match state {
        Some(RequestState::Started) | Some(RequestState::Completed) => return DispatchStep::Skip,
        _ => {},
    }
    let m = match meta {
        None => return DispatchStep::Skip,
        Some(None) => return DispatchStep::Refuse { status: 400, message: "bad request meta" },
        Some(Some(m)) => m,
    };
    let headers = collect_headers(&m.headers);
    let method = match m.method {
        Some(t) => t,
        None => "GET".to_owned(),
    };
    let path = match m.path {
        Some(t) => t,
        None => "/".to_owned(),
    };
    DispatchStep::Run(HttpRequestHead { method, path, headers, stream_id })
}

// ---- waiting ----------------------------------------------------------------------

/// Longest wait for the head of a response where the request names none, in milliseconds.
pub const HEAD_TIMEOUT_MS: u64 = 30_000;

/// Longest wait for an interrupted session, in milliseconds.
pub const ACTIVE_TIMEOUT_MS: u64 = 30_000;

/// Pause between two looks at an interrupted session, in milliseconds.
pub const ACTIVE_POLL_MS: u64 = 100;

/// The longest wait for the head of a response, in milliseconds.
pub fn head_limit_ms(asked: Option<u64>) -> (r: u64)
    ensures
        r == match asked {
            Some(ms) => ms,
            None => HEAD_TIMEOUT_MS,
        },
{
    match asked {
        Some(ms) => ms,
        None => HEAD_TIMEOUT_MS,
    }
}

/// What one who waits for the head of a response does next.
#[derive(Debug)]
pub enum HeadStep {
    /// The head is there.
    Head { status: u16, headers: Vec<Header>, rest: Vec<u8> },
    /// Give up: the wait was too long.
    TimedOut,
    /// Wait for the next bytes.
    Receive,
}

/// What to do once `buf` has arrived, `waited_ms` after the request: a complete head counts
/// however late it is.
pub fn head_step(buf: &[u8], waited_ms: u64, limit_ms: u64) -> (r: HeadStep)
    ensures
        match line_end(buf@, 0) {
            Some(nl) => {
                let line = buf@.subrange(0, nl);
                match json_number_of(line, "/status"@) {
                    Some(Some(n)) => match r {
                        HeadStep::Head { status, headers, rest } => {
                            &&& status == (n % 65536) as u16
                            &&& header_views(headers@) == json_headers(line)
                            &&& rest@ == buf@.subrange(nl + 1, buf@.len() as int)
                        },
                        _ => false,
                    },
                    _ => r == unready(waited_ms, limit_ms),
                }
            },
            None => r == unready(waited_ms, limit_ms),
        },
{
    match peel_meta_line(buf) {
        Some((status, headers, rest)) => HeadStep::Head { status, headers, rest },
        None => if waited_ms >= limit_ms {
            HeadStep::TimedOut
        } else {
            HeadStep::Receive
        },
    }
}

/// What is done while there is no head.
pub open spec fn unready(waited_ms: u64, limit_ms: u64) -> HeadStep {
    if waited_ms >= limit_ms {
        HeadStep::TimedOut
    } else {
        HeadStep::Receive
    }
}

/// What one who sends across interruptions has learned.
#[derive(Debug, Clone, Copy, PartialEq, Eq, Structural)]
pub enum ResendEvent {
    /// An attempt came to its end.
    Tried { sent: bool },
    /// The session was looked at, so long after the attempt that failed.
    Looked { active: bool, waited_ms: u64 },
}

/// What one who sends across interruptions does next.
#[derive(Debug, Clone, Copy, PartialEq, Eq, Structural)]
pub enum ResendStep {
    /// Try again, at the same offset.
    Send,
    /// Look at the session after a pause.
    Look { pause_ms: u64 },
    /// It is sent.
    Done,
    /// The session did not come back in time.
    GiveUp,
}

/// What one who sends across interruptions does next: an attempt that failed is made again
/// once the session is active, if that is so within the time limit.
pub fn resend_next(event: ResendEvent) -> (r: ResendStep)
    ensures
        r == match event {
            ResendEvent::Tried { sent: true } => ResendStep::Done,
            ResendEvent::Tried { sent: false } => ResendStep::Look { pause_ms: 0 },
            ResendEvent::Looked { active, waited_ms } => if waited_ms >= ACTIVE_TIMEOUT_MS {
                ResendStep::GiveUp
            } else if active {
                ResendStep::Send
            } else {
                ResendStep::Look { pause_ms: ACTIVE_POLL_MS }
            },
        },
{
    match event {
        ResendEvent::Tried { sent } => if sent {
            ResendStep::Done
        } else {
            ResendStep::Look { pause_ms: 0 }
        },
        ResendEvent::Looked { active, waited_ms } => if waited_ms >= ACTIVE_TIMEOUT_MS {
            ResendStep::GiveUp
        } else if active {
            ResendStep::Send
        } else {
            ResendStep::Look { pause_ms: ACTIVE_POLL_MS }
        },
    }
}

/// What to do with the next part of a response body.
#[derive(Debug, Clone, Copy, PartialEq, Eq, Structural)]
pub enum BodyStep {
    /// Send it.
    Send,
    /// Drop the rest: the peer gave the request up.
    Stop,
}

/// What to do with the next part of a response body.
pub fn on_body_part(peer_reset: bool) -> (r: BodyStep)
    ensures
        r == if peer_reset {
            BodyStep::Stop
        } else {
            BodyStep::Send
        },
{
    if peer_reset {
        BodyStep::Stop
    } else {
        BodyStep::Send
    }
}

/// A handler that failed before it gave a response is answered with this.
pub fn handler_failed() -> (r: DispatchStep)
    ensures
        match r {
            DispatchStep::Refuse { status, message } => status == 500 && message@
                == "upstream failed"@,
            _ => false,
        },
{
    DispatchStep::Refuse { status: 500, message: "upstream failed" }
}

/// The first part of a body: what came behind the head line, unless nothing did.
pub fn first_body_part(rest: Option<Vec<u8>>) -> (r: Option<Vec<u8>>)
    ensures
        match rest {
            Some(b) => if b@.len() > 0 {
                r == Some(b)
            } else {
                r is None
            },
            None => r is None,
        },
{
    match rest {
        Some(b) => if b.len() > 0 {
            Some(b)
        } else {
            None
        },
        None => None,
    }
}

/// The head of a response that took too long.
pub fn head_timeout_err() -> (r: FabricError)
    ensures
        connect_error(r, "response head timeout"@),
{
    connect_err("response head timeout".to_owned())
}

/// The frame that gives up a request.
pub fn abort_frame(session_id: [u8; 16], stream_id: u64, direction: Direction) -> (r: Frame)
    ensures
        r@ == frame_view(
            FrameType::Reset,
            0,
            session_id@,
            stream_id,
            direction,
            0,
            Seq::<u8>::empty(),
        ),
{
    let payload: Vec<u8> = Vec::new();
    assert(payload@ =~= Seq::<u8>::empty());
    mk_frame(FrameType::Reset, 0, session_id, stream_id, direction, 0, payload)
}

// ---- laws -------------------------------------------------------------------------

/// Headers are written one after the other with commas between them: nothing is left out,
/// and the order is kept.
pub proof fn headers_are_written_in_order(a: Seq<HeaderView>, b: Seq<HeaderView>)
    requires
        a.len() > 0,
        b.len() > 0,
    ensures
        headers_json(a + b) == headers_json(a) + ","@ + headers_json(b),
    decreases b.len(),
{
    let s = a + b;
    assert(s.last() == b.last());
    if b.len() == 1 {
        assert(s.drop_last() =~= a);
        assert(b[0] == b.last());
    } else {
        headers_are_written_in_order(a, b.drop_last());
        assert(s.drop_last() =~= a + b.drop_last());
        assert(headers_json(s) =~= headers_json(a) + ","@ + headers_json(b));
    }
}

/// The content type of a request is the value of its first header of that name, whatever the
/// case of the letters; a request without one has none.
pub proof fn content_types_are_those_of_the_first_header(s: Seq<HeaderView>, i: int)
    requires
        0 <= i < s.len(),
    ensures
        same_ignoring_case(s[i].name, "content-type"@) && (forall|k: int|
            0 <= k < i ==> !same_ignoring_case((#[trigger] s[k]).name, "content-type"@))
            ==> content_type_from(s, 0) == s[i].value,
        (forall|k: int|
            0 <= k < s.len() ==> !same_ignoring_case((#[trigger] s[k]).name, "content-type"@))
            ==> content_type_from(s, 0).len() == 0,
{
    if forall|k: int| 0 <= k < i ==> !same_ignoring_case((#[trigger] s[k]).name, "content-type"@) {
        lemma_content_type(s, 0, i);
    }
    if forall|k: int|
        0 <= k < s.len() ==> !same_ignoring_case((#[trigger] s[k]).name, "content-type"@) {
        lemma_content_type(s, 0, s.len() as int);
    }
}

proof fn lemma_content_type(s: Seq<HeaderView>, from: int, i: int)
    requires
        0 <= from <= i <= s.len(),
        forall|k: int|
            from <= k < i ==> !same_ignoring_case((#[trigger] s[k]).name, "content-type"@),
    ensures
        content_type_from(s, from) == content_type_from(s, i),
    decreases i - from,
{
    if from < i {
        assert(!same_ignoring_case(s[from].name, "content-type"@));
        lemma_content_type(s, from + 1, i);
    }
}

/// A letter and its other case are the same, and nothing else is.
pub proof fn letters_are_the_same_in_both_cases(c: char, d: char)
    ensures
        ascii_lower(c) == ascii_lower(d) <==> c == d || ('A' <= c <= 'Z' && d as u32 == c as u32
            + 32) || ('A' <= d <= 'Z' && c as u32 == d as u32 + 32),
{
}

/// Headers are read in order: of the first `n` those with a name and a value, and one more
/// only adds at the end.
pub proof fn headers_are_read_in_order(bytes: Seq<u8>, n: nat)
    ensures
        ({
            let name = text_at(bytes, "/headers/"@ + decimal(n) + "/name"@);
            let value = text_at(bytes, "/headers/"@ + decimal(n) + "/value"@);
            let (a, b) = (first_headers(bytes, n), first_headers(bytes, n + 1));
            &&& name is Some && value is Some ==> b == a.push(
                HeaderView { name: name->0, value: value->0 },
            )
            &&& name is None || value is None ==> b == a
            &&& first_headers(bytes, 0).len() == 0
        }),
{
}

/// The end of the first line is the first line feed.
pub proof fn lines_end_at_the_first_line_feed(buf: Seq<u8>, i: int)
    requires
        0 <= i < buf.len(),
    ensures
        buf[i] == 10 && (forall|k: int| 0 <= k < i ==> buf[k] != 10) ==> line_end(buf, 0) == Some(i),
        (forall|k: int| 0 <= k < buf.len() ==> buf[k] != 10) ==> line_end(buf, 0) is None,
{
    if forall|k: int| 0 <= k < i ==> buf[k] != 10 {
        lemma_line_end(buf, 0, i);
    }
    if forall|k: int| 0 <= k < buf.len() ==> buf[k] != 10 {
        lemma_line_end(buf, 0, buf.len() as int);
    }
}

proof fn lemma_line_end(buf: Seq<u8>, from: int, i: int)
    requires
        0 <= from <= i <= buf.len(),
        forall|k: int| from <= k < i ==> buf[k] != 10,
    ensures
        line_end(buf, from) == line_end(buf, i),
    decreases i - from,
{
    if from < i {
        lemma_line_end(buf, from + 1, i);
    }
}

/// The head of a response carries its status and all its headers, whatever they are.
pub proof fn heads_carry_status_and_headers(status: u16, headers: Seq<HeaderView>)
    ensures
        ({
            let all = "{\"headers\":["@ + headers_json(headers);
            let s = response_json(status, headers);
            &&& all.is_prefix_of(s)
            &&& s.skip(all.len() as int) == "],\"status\":"@ + decimal(status as nat) + "}"@
        }),
{
    let all = "{\"headers\":["@ + headers_json(headers);
    let s = response_json(status, headers);
    assert(all =~= s.subrange(0, all.len() as int));
    assert(s.skip(all.len() as int) =~= "],\"status\":"@ + decimal(status as nat) + "}"@);
}

/// The metadata of a request carries its method, its path, its key and all its headers, as
/// well as the length and the type of its body, whatever they are.
pub proof fn requests_carry_all_of_their_parts(
    idem: Seq<char>,
    method: Seq<char>,
    path: Seq<char>,
    headers: Seq<HeaderView>,
    body_len: nat,
)
    ensures
        ({
            let first = "{\"bodyLength\":"@ + decimal(body_len) + ",\"contentType\":"@
                + json_quoted(content_type_from(headers, 0));
            let then = ",\"headers\":["@ + headers_json(headers) + "],\"idempotencyKey\":"@
                + json_quoted(idem);
            let last = ",\"method\":"@ + json_quoted(method) + ",\"path\":"@ + json_quoted(path)
                + "}"@;
            request_json(idem, method, path, headers, body_len) == first + (then + last)
        }),
{
    let first = "{\"bodyLength\":"@ + decimal(body_len) + ",\"contentType\":"@ + json_quoted(
        content_type_from(headers, 0),
    );
    let then = ",\"headers\":["@ + headers_json(headers) + "],\"idempotencyKey\":"@ + json_quoted(
        idem,
    );
    let last = ",\"method\":"@ + json_quoted(method) + ",\"path\":"@ + json_quoted(path) + "}"@;
    assert(request_json(idem, method, path, headers, body_len) =~= first + (then + last));
}

/// The length of a body is the sum of the lengths of its parts.
pub proof fn bodies_are_as_long_as_their_parts(a: Seq<Vec<u8>>, b: Seq<Vec<u8>>, x: Vec<u8>)
    ensures
        body_len(a + b) == body_len(a) + body_len(b),
        body_len(seq![x]) == x@.len(),
    decreases b.len(),
{
    reveal_with_fuel(body_len, 2);
    assert(seq![x].drop_last() =~= Seq::<Vec<u8>>::empty());
    assert(seq![x].last() == x);
    if b.len() == 0 {
        assert(a + b =~= a);
    } else {
        bodies_are_as_long_as_their_parts(a, b.drop_last(), x);
        assert((a + b).drop_last() =~= a + b.drop_last());
        assert((a + b).last() == b.last());
    }
}

} // verus!
