//! Framing and routing of the HTTP/1.1 requests that reach the balancer: the
//! header block ends at the first blank line, a `Content-Length` header gives
//! the length of the body, and the request line picks the route.

use vstd::prelude::*;
use vstd::slice::slice_to_vec;
use vstd::string::StrSliceExecFns;

use crate::bytes::{decimal_value, lemma_scan_bounds, parse_decimal, scan};
use crate::text::{char_vec, is_white, is_white_char, lossy_utf8, str_eq, utf8_lossy};

verus! {


/// The blank line that ends a header block starts at `i`.
pub open spec fn blank_line_at() -> spec_fn(Seq<u8>, int) -> bool {
    |b: Seq<u8>, i: int|
        i + 4 <= b.len() && b[i] == 13 && b[i + 1] == 10 && b[i + 2] == 13 && b[i + 3] == 10
}

/// A line break (`\r\n`) starts at `i`.
pub open spec fn crlf_at() -> spec_fn(Seq<u8>, int) -> bool {
    |b: Seq<u8>, i: int| i + 2 <= b.len() && b[i] == 13 && b[i + 1] == 10
}

/// A line feed stands at `i`.
pub open spec fn lf_at() -> spec_fn(Seq<u8>, int) -> bool {
    |b: Seq<u8>, i: int| b[i] == 10
}

/// The end of the header block: the position of the first `\r\n\r\n`.
pub open spec fn head_end(b: Seq<u8>) -> Option<int> {
    if scan(b, 0, blank_line_at()) < b.len() {
        Some(scan(b, 0, blank_line_at()))
    } else {
        None
    }
}

/// The position of the first `\r\n\r\n` in `buf`, if there is one.
pub fn find_head_end(buf: &[u8]) -> (r: Option<usize>)
    ensures
        match r {
            Some(i) => head_end(buf@) == Some(i as int),
            None => head_end(buf@) is None,
        },
{
    let ghost f = blank_line_at();
    let mut i: usize = 0;
    while i < buf.len()
        invariant
            i <= buf.len(),
            f == blank_line_at(),
            scan(buf@, 0, f) == scan(buf@, i as int, f),
        decreases buf.len() - i,
    {
        let hit = buf.len() - i >= 4 && buf[i] == 13 && buf[i + 1] == 10 && buf[i + 2] == 13
            && buf[i + 3] == 10;
        assert(hit == f(buf@, i as int));
        if hit {
            return Some(i);
        }
        i = i + 1;
    }
    None
}

/// `content-length:`, the name of the header that gives the body's length,
/// with its colon, in lower case.
pub open spec fn content_length_name() -> Seq<u8> {
    seq![99u8, 111, 110, 116, 101, 110, 116, 45, 108, 101, 110, 103, 116, 104, 58]
}

/// An ASCII letter in lower case; other bytes as they are.
pub open spec fn ascii_lower(c: u8) -> u8 {
    if 65 <= c <= 90 {
        (c + 32) as u8
    } else {
        c
    }
}

/// A header line that starts at `p`, after a line break, names Content-Length
/// (the name compared without regard to case).
pub open spec fn length_line_at() -> spec_fn(Seq<u8>, int) -> bool {
    |h: Seq<u8>, p: int|
        2 <= p && p + 15 <= h.len() && h[p - 2] == 13 && h[p - 1] == 10 && forall|k: int|
            0 <= k < 15 ==> ascii_lower(#[trigger] h[p + k]) == content_length_name()[k]
}

/// Optional white space around a header value: a space or a tab.
pub open spec fn is_ows(c: u8) -> bool {
    c == 32 || c == 9
}

/// `v` without the white space at either end.
pub open spec fn trim_ows(v: Seq<u8>) -> Seq<u8>
    decreases v.len(),
{
    if v.len() > 0 && is_ows(v[0]) {
        trim_ows(v.drop_first())
    } else if v.len() > 0 && is_ows(v.last()) {
        trim_ows(v.drop_last())
    } else {
        v
    }
}

/// The body length that a header block declares: the value of its first
/// Content-Length line, zero where it has none, `None` where that value is not
/// a decimal number.
pub open spec fn declared_length(h: Seq<u8>) -> Option<nat> {
    let p = scan(h, 2, length_line_at());
    if p < h.len() {
        decimal_value(trim_ows(h.subrange(p + 15, scan(h, p + 15, crlf_at()))))
    } else {
        Some(0)
    }
}

/// Whether a Content-Length line starts at `p` in the header block `h`.
fn length_line_starts(h: &[u8], p: usize) -> (r: bool)
    ensures
        r == length_line_at()(h@, p as int),
{
    if p < 2 || p > h.len() || h.len() - p < 15 || h[p - 2] != 13 || h[p - 1] != 10 {
        return false;
    }
    let name: [u8; 15] = [99, 111, 110, 116, 101, 110, 116, 45, 108, 101, 110, 103, 116, 104, 58];
    assert(name@ == content_length_name());
    let mut k: usize = 0;
    while k < 15
        invariant
            0 <= k <= 15,
            2 <= p && p + 15 <= h@.len(),
            p + 15 <= h.len(),
            name@ == content_length_name(),
            forall|j: int| 0 <= j < k ==> ascii_lower(#[trigger] h@[p + j]) == content_length_name()[j],
        decreases 15 - k,
    {
        let c = h[p + k];
        let lower = if 65 <= c && c <= 90 {
            c + 32
        } else {
            c
        };
        if lower != name[k] {
            assert(ascii_lower(h@[p + k]) != content_length_name()[k as int]);
            return false;
        }
        k = k + 1;
    }
    true
}

/// The body length that the header block `head` declares (see
/// [`declared_length`]).
pub fn declared_body_length(head: &[u8]) -> (r: Option<u64>)
    ensures
        match r {
            Some(n) => declared_length(head@) == Some(n as nat),
            None => declared_length(head@) is None,
        },
{
    let ghost f = length_line_at();
    let mut p: usize = 2;
    while p < head.len()
        invariant
            f == length_line_at(),
            2 <= p,
            scan(head@, 2, f) == scan(head@, p as int, f),
        decreases head.len() - p,
    {
        if length_line_starts(head, p) {
            return length_value(head, p);
        }
        p = p + 1;
    }
    Some(0)
}

/// The value of the Content-Length line that starts at `p`.
fn length_value(head: &[u8], p: usize) -> (r: Option<u64>)
    requires
        length_line_at()(head@, p as int),
    ensures
        match r {
            Some(n) => decimal_value(
                trim_ows(head@.subrange(p + 15, scan(head@, p + 15, crlf_at()))),
            ) == Some(n as nat),
            None => decimal_value(
                trim_ows(head@.subrange(p + 15, scan(head@, p + 15, crlf_at()))),
            ) is None,
        },
{
    let ghost h = head@;
    let ghost g = crlf_at();
    assert(p + 15 <= head@.len());
    assert(head@.len() == head.len());
    let start = p + 15;
    let mut q: usize = start;
    while q < head.len()
        invariant
            g == crlf_at(),
            h == head@,
            start <= q <= head.len(),
            scan(h, start as int, g) == scan(h, q as int, g),
        ensures
            start <= q <= head.len(),
            scan(h, start as int, g) == q,
        decreases head.len() - q,
    {
        let hit = head.len() - q >= 2 && head[q] == 13 && head[q + 1] == 10;
        assert(hit == g(h, q as int));
        if hit {
            break;
        }
        q = q + 1;
    }
    let ghost whole = h.subrange(start as int, q as int);
    let mut a: usize = start;
    while a < q && (head[a] == 32 || head[a] == 9)
        invariant
            start <= a <= q <= head.len(),
            h == head@,
            trim_ows(h.subrange(a as int, q as int)) == trim_ows(whole),
        decreases q - a,
    {
        assert(h.subrange(a as int, q as int).drop_first() =~= h.subrange(a + 1, q as int));
        a = a + 1;
    }
    let mut b: usize = q;
    while b > a && (head[b - 1] == 32 || head[b - 1] == 9)
        invariant
            start <= a <= b <= q <= head.len(),
            h == head@,
            a < q ==> !is_ows(h[a as int]),
            trim_ows(h.subrange(a as int, b as int)) == trim_ows(whole),
        decreases b - a,
    {
        assert(h.subrange(a as int, b as int).drop_last() =~= h.subrange(a as int, b - 1));
        b = b - 1;
    }
    assert(trim_ows(h.subrange(a as int, b as int)) == h.subrange(a as int, b as int));
    parse_decimal(head, a, b)
}

/// A request read whole: its header block (request line and header lines,
/// without the blank line that ends it) and its body.
pub struct HttpRequest {
    pub head: Vec<u8>,
    pub body: Vec<u8>,
}

/// How far the bytes read from a client make up a request.
pub enum Framing {
    /// More bytes are needed: the header block has not ended, or the body is
    /// shorter than its declared length.
    Incomplete,
    /// The header block declares a body length that is not a number.
    Malformed,
    /// A whole request; bytes after its declared body are not part of it.
    Complete(HttpRequest),
}

/// The bytes that the request in `b` takes up, where the buffer holds it all:
/// header block, blank line and declared body.
pub open spec fn request_len(b: Seq<u8>) -> Option<int> {
    match head_end(b) {
        Some(e) => match declared_length(b.take(e)) {
            Some(n) => if e + 4 + n <= b.len() {
                Some(e + 4 + n)
            } else {
                None
            },
            None => None,
        },
        None => None,
    }
}

/// The blank line that separates a header block from the body.
pub open spec fn blank_line() -> Seq<u8> {
    seq![13u8, 10, 13, 10]
}

/// Splits what a client has sent so far into a request, or says why it
/// cannot yet.
pub fn frame_request(buf: &[u8]) -> (r: Framing)
    ensures
        match r {
            Framing::Incomplete => match head_end(buf@) {
                None => true,
                Some(e) => match declared_length(buf@.take(e)) {
                    Some(n) => buf@.len() < e + 4 + n,
                    None => false,
                },
            },
            Framing::Malformed => match head_end(buf@) {
                Some(e) => declared_length(buf@.take(e)) is None,
                None => false,
            },
            Framing::Complete(req) => {
                &&& head_end(buf@) == Some(req.head@.len() as int)
                &&& declared_length(req.head@) == Some(req.body@.len())
                &&& request_len(buf@) == Some(req.head@.len() + 4 + req.body@.len() as int)
                &&& req.head@ == buf@.take(req.head@.len() as int)
                &&& req.body@ == buf@.subrange(
                    req.head@.len() + 4 as int,
                    req.head@.len() + 4 + req.body@.len() as int,
                )
            },
        },
{
    let e = match find_head_end(buf) {
        Some(e) => e,
        None => {
            return Framing::Incomplete;
        },
    };
    proof {
        lemma_scan_bounds(buf@, 0, blank_line_at());
    }
    let head_part = &buf[0..e];
    assert(head_part@ == buf@.take(e as int));
    let n = match declared_body_length(head_part) {
        Some(n) => n,
        None => {
            return Framing::Malformed;
        },
    };
    let avail = buf.len() - e - 4;
    if n > avail as u64 {
        return Framing::Incomplete;
    }
    let body_end = e + 4 + n as usize;
    let head = slice_to_vec(head_part);
    let body = slice_to_vec(&buf[e + 4..body_end]);
    Framing::Complete(HttpRequest { head, body })
}

/// The bytes sent on to a backend: the header block unchanged, the blank line,
/// the body.
pub fn backend_bytes(req: &HttpRequest) -> (r: Vec<u8>)
    ensures
        r@ == req.head@ + blank_line() + req.body@,
{
    let mut out: Vec<u8> = slice_to_vec(req.head.as_slice());
    let blank: [u8; 4] = [13, 10, 13, 10];
    out.extend_from_slice(blank.as_slice());
    out.extend_from_slice(req.body.as_slice());
    assert(blank@ == blank_line());
    assert(out@ =~= req.head@ + blank_line() + req.body@);
    out
}

/// A request is forwarded byte for byte: what a backend receives for a
/// complete request is exactly the bytes the client sent for it.
pub proof fn lemma_forwarded_verbatim(buf: Seq<u8>, head: Seq<u8>, body: Seq<u8>)
    requires
        head_end(buf) == Some(head.len() as int),
        head == buf.take(head.len() as int),
        head.len() + 4 + body.len() <= buf.len(),
        body == buf.subrange(head.len() + 4 as int, head.len() + 4 + body.len() as int),
    ensures
        head + blank_line() + body == buf.take(head.len() + 4 + body.len() as int),
{
    lemma_scan_bounds(buf, 0, blank_line_at());
    let e = head.len() as int;
    assert(blank_line_at()(buf, e));
    assert(head + blank_line() + body =~= buf.take(e + 4 + body.len()));
}

/// White space stands at `i`.
pub open spec fn white_at() -> spec_fn(Seq<char>, int) -> bool {
    |l: Seq<char>, i: int| is_white(l[i])
}

/// A character of a word stands at `i`.
pub open spec fn word_at() -> spec_fn(Seq<char>, int) -> bool {
    |l: Seq<char>, i: int| !is_white(l[i])
}

/// The first line of a header block, without its line feed.
pub open spec fn first_line(h: Seq<u8>) -> Seq<u8> {
    h.take(scan(h, 0, lf_at()))
}

/// Where the next word of `l` at or after `p` starts and ends.
pub open spec fn next_word(l: Seq<char>, p: int) -> (int, int) {
    (scan(l, p, word_at()), scan(l, scan(l, p, word_at()), white_at()))
}

/// The method and the path of a request line of exactly three words (the
/// third is the protocol version), words being split at white space as
/// `str::split_whitespace` splits them.
pub open spec fn request_words(l: Seq<char>) -> Option<(Seq<char>, Seq<char>)> {
    let w1 = next_word(l, 0);
    let w2 = next_word(l, w1.1);
    let w3 = next_word(l, w2.1);
    let w4 = next_word(l, w3.1);
    if w3.0 < l.len() && w4.0 >= l.len() {
        Some((l.subrange(w1.0, w1.1), l.subrange(w2.0, w2.1)))
    } else {
        None
    }
}

/// The method and path of a request.
pub struct RequestLine {
    pub method: String,
    pub path: String,
}

/// From `p`, the end of the word (`in_word`) or the start of the next one.
fn scan_words(l: &[char], p: usize, in_word: bool) -> (r: usize)
    requires
        p <= l@.len(),
    ensures
        r == scan(l@, p as int, if in_word { white_at() } else { word_at() }),
        p <= r <= l@.len(),
{
    let ghost f = if in_word {
        white_at()
    } else {
        word_at()
    };
    proof {
        lemma_scan_bounds(l@, p as int, f);
    }
    let mut i: usize = p;
    while i < l.len()
        invariant
            f == (if in_word { white_at() } else { word_at() }),
            p <= i <= l@.len(),
            scan(l@, p as int, f) == scan(l@, i as int, f),
        decreases l.len() - i,
    {
        if is_white_char(l[i]) == in_word {
            return i;
        }
        i = i + 1;
    }
    i
}

/// Where the next word of `l` at or after `p` starts and ends.
fn next_word_bounds(l: &[char], p: usize) -> (r: (usize, usize))
    requires
        p <= l@.len(),
    ensures
        r.0 as int == next_word(l@, p as int).0,
        r.1 as int == next_word(l@, p as int).1,
        p <= r.0 <= r.1 <= l@.len(),
{
    let a = scan_words(l, p, false);
    let z = scan_words(l, a, true);
    (a, z)
}

/// The method and path of the request line that opens `head`, the line
/// decoded as UTF-8 with invalid sequences replaced; `None` where that line is
/// not exactly three words.
pub fn parse_request_line(head: &[u8]) -> (r: Option<RequestLine>)
    ensures
        match request_words(lossy_utf8(first_line(head@))) {
            Some((m, p)) => r matches Some(rl) && rl.method@ == m && rl.path@ == p,
            None => r is None,
        },
{
    let ghost g = lf_at();
    let mut n: usize = 0;
    while n < head.len()
        invariant
            g == lf_at(),
            n <= head@.len(),
            scan(head@, 0, g) == scan(head@, n as int, g),
        ensures
            n <= head@.len(),
            scan(head@, 0, g) == n,
        decreases head.len() - n,
    {
        if head[n] == 10 {
            break;
        }
        n = n + 1;
    }
    let bytes = &head[0..n];
    assert(bytes@ == first_line(head@));
    let line = utf8_lossy(bytes);
    let text = line.as_str();
    let chars = char_vec(text);
    let l = chars.as_slice();
    let w1 = next_word_bounds(l, 0);
    let w2 = next_word_bounds(l, w1.1);
    let w3 = next_word_bounds(l, w2.1);
    let w4 = next_word_bounds(l, w3.1);
    if w3.0 < l.len() && w4.0 >= l.len() {
        let method = text.substring_char(w1.0, w1.1).to_owned();
        let path = text.substring_char(w2.0, w2.1).to_owned();
        Some(RequestLine { method, path })
    } else {
        None
    }
}

/// `s` begins with `prefix`.
pub open spec fn has_prefix(s: Seq<char>, prefix: Seq<char>) -> bool {
    prefix.len() <= s.len() && s.take(prefix.len() as int) == prefix
}

/// Whether `s` begins with `prefix`.
fn starts_with(s: &str, prefix: &str) -> (r: bool)
    ensures
        r == has_prefix(s@, prefix@),
{
    let n = prefix.unicode_len();
    let m = s.unicode_len();
    if m < n {
        return false;
    }
    str_eq(s.substring_char(0, n), prefix)
}

/// Where a request goes.
pub enum Route {
    /// Forward to a backend (`POST /v1/chat/completions`).
    Proxy,
    /// Register a backend (`POST /api/register`).
    Register,
    /// Remove the backend of this name (`DELETE /api/unregister/{name}`).
    Unregister(String),
    /// List the backends (`GET /api/services`).
    ListServices,
    /// No such route.
    NotFound,
}

/// The mathematical value of a [`Route`].
pub enum RouteView {
    Proxy,
    Register,
    Unregister(Seq<char>),
    ListServices,
    NotFound,
}

impl View for Route {
    type V = RouteView;

    open spec fn view(&self) -> RouteView {
        match self {
            Route::Proxy => RouteView::Proxy,
            Route::Register => RouteView::Register,
            Route::Unregister(n) => RouteView::Unregister(n@),
            Route::ListServices => RouteView::ListServices,
            Route::NotFound => RouteView::NotFound,
        }
    }
}

/// The route of a request: paths under `/api/` are the control endpoints,
/// `POST /v1/chat/completions` is proxied, anything else is not found.
pub open spec fn route_of(method: Seq<char>, path: Seq<char>) -> RouteView {
    if has_prefix(path, "/api/"@) {
        if method == "POST"@ && path == "/api/register"@ {
            RouteView::Register
        } else if method == "DELETE"@ && has_prefix(path, "/api/unregister/"@) {
            RouteView::Unregister(path.skip("/api/unregister/"@.len() as int))
        } else if method == "GET"@ && path == "/api/services"@ {
            RouteView::ListServices
        } else {
            RouteView::NotFound
        }
    } else if method == "POST"@ && path == "/v1/chat/completions"@ {
        RouteView::Proxy
    } else {
        RouteView::NotFound
    }
}

/// The route of the request with this method and path.
pub fn route(method: &str, path: &str) -> (r: Route)
    ensures
        r@ == route_of(method@, path@),
{
    if starts_with(path, "/api/") {
        if str_eq(method, "POST") && str_eq(path, "/api/register") {
            Route::Register
        } else if str_eq(method, "DELETE") && starts_with(path, "/api/unregister/") {
            let n = "/api/unregister/".unicode_len();
            let name = path.substring_char(n, path.unicode_len());
            assert(name@ =~= path@.skip("/api/unregister/"@.len() as int));
            Route::Unregister(name.to_owned())
        } else if str_eq(method, "GET") && str_eq(path, "/api/services") {
            Route::ListServices
        } else {
            Route::NotFound
        }
    } else if str_eq(method, "POST") && str_eq(path, "/v1/chat/completions") {
        Route::Proxy
    } else {
        Route::NotFound
    }
}

} // verus!
