//! The status service's side of HTTP: which handler a request goes to, the
//! request head, and the response head.

use vstd::prelude::*;
use crate::cli::{endpoint_id, exact_endpoint_id, ends_with, extract_integration_id, extract_integration_id_exact};
use crate::text::{append_decimal, chars_of, decimal, starts_with, text_starts_with, first_word, leading_ws, word_len, skip_white_space, skip_word, string_of_range, find_text, find_char, index_of, index_of_text, lemma_index_of, lemma_index_of_text, lemma_encode_utf8_concat, lemma_encode_utf8_len, ascii_lower_text, ascii_lower_char, trim, trim_text, parse_unsigned, parse_unsigned_text, int_error_text, int_error_message, lemma_leading_ws_bound};
use crate::http::{header_end, next_line, text_lines};
use vstd::utf8::encode_utf8;
use vstd::string::StrSliceExecFns;

verus! {

/// The handler a request goes to.
#[derive(Debug)]
pub enum Route {
    /// The status page.
    Index,
    /// The dashboard summary.
    Status,
    /// Register an integration.
    CreateIntegration,
    /// Approve a baseline of the integration with this id.
    Approve(String),
    /// Reconfigure the integration with this id.
    Update(String),
    /// Check the integration with this id for drift.
    Check(String),
    /// Refresh the baseline of the integration with this id.
    PingBaseline(String),
    /// No handler; the message says why.
    Rejected(String),
}

pub enum RouteView {
    Index,
    Status,
    CreateIntegration,
    Approve(Seq<char>),
    Update(Seq<char>),
    Check(Seq<char>),
    PingBaseline(Seq<char>),
    Rejected(Seq<char>),
}

pub open spec fn route_view(r: Route) -> RouteView {
    match r {
        Route::Index => RouteView::Index,
        Route::Status => RouteView::Status,
        Route::CreateIntegration => RouteView::CreateIntegration,
        Route::Approve(id) => RouteView::Approve(id@),
        Route::Update(id) => RouteView::Update(id@),
        Route::Check(id) => RouteView::Check(id@),
        Route::PingBaseline(id) => RouteView::PingBaseline(id@),
        Route::Rejected(m) => RouteView::Rejected(m@),
    }
}

pub open spec fn id_route(r: Result<Seq<char>, Seq<char>>, make: spec_fn(Seq<char>) -> RouteView) -> RouteView {
    match r {
        Ok(id) => make(id),
        Err(e) => RouteView::Rejected(e),
    }
}

/// The handler for a request method and path.
pub open spec fn route_of(method: Seq<char>, path: Seq<char>) -> RouteView {
    if method == "GET"@ && path == "/"@ {
        RouteView::Index
    } else if method == "GET"@ && path == "/api/status"@ {
        RouteView::Status
    } else if method == "POST"@ && path == "/api/integrations"@ {
        RouteView::CreateIntegration
    } else if method == "POST"@ && ends_with(path, "/approve"@) {
        id_route(endpoint_id(path, "/approve"@), |id: Seq<char>| RouteView::Approve(id))
    } else if method == "PUT"@ && starts_with(path, "/api/integrations/"@) {
        id_route(exact_endpoint_id(path), |id: Seq<char>| RouteView::Update(id))
    } else if method == "POST"@ && ends_with(path, "/check"@) {
        id_route(endpoint_id(path, "/check"@), |id: Seq<char>| RouteView::Check(id))
    } else if method == "POST"@ && ends_with(path, "/baseline/ping"@) {
        id_route(endpoint_id(path, "/baseline/ping"@), |id: Seq<char>| RouteView::PingBaseline(id))
    } else {
        RouteView::Rejected("Not found"@)
    }
}

fn text_ends_with(s: &str, suffix: &str) -> (r: bool)
    ensures
        r == ends_with(s@, suffix@),
{
    let cs = chars_of(s);
    let pc = chars_of(suffix);
    if pc.len() > cs.len() {
        return false;
    }
    let start = cs.len() - pc.len();
    let n = cs.len();
    let mut j: usize = 0;
    while j < pc.len()
        invariant
            n == cs@.len(),
            cs@ == s@,
            pc@ == suffix@,
            start + pc@.len() == cs@.len(),
            j <= pc@.len(),
            forall|k: int| 0 <= k < j ==> cs@[start + k] == pc@[k],
        decreases pc@.len() - j,
    {
        if cs[start + j] != pc[j] {
            assert(s@.skip(start as int)[j as int] == cs@[start + j]);
            return false;
        }
        j = j + 1;
    }
    assert(s@.skip(start as int) =~= suffix@);
    true
}

fn same_text(a: &str, b: &str) -> (r: bool)
    ensures
        r == (a@ == b@),
{
    String::from_str(a) == String::from_str(b)
}

/// The handler for a request.
pub fn route_request(method: &str, path: &str) -> (r: Route)
    ensures
        route_view(r) == route_of(method@, path@),
{
    let get = same_text(method, "GET");
    let post = same_text(method, "POST");
    let put = same_text(method, "PUT");
    if get && same_text(path, "/") {
        Route::Index
    } else if get && same_text(path, "/api/status") {
        Route::Status
    } else if post && same_text(path, "/api/integrations") {
        Route::CreateIntegration
    } else if post && text_ends_with(path, "/approve") {
        match extract_integration_id(path, "/approve") {
            Ok(id) => Route::Approve(id),
            Err(e) => Route::Rejected(e),
        }
    } else if put && text_starts_with(&chars_of(path), "/api/integrations/") {
        match extract_integration_id_exact(path) {
            Ok(id) => Route::Update(id),
            Err(e) => Route::Rejected(e),
        }
    } else if post && text_ends_with(path, "/check") {
        match extract_integration_id(path, "/check") {
            Ok(id) => Route::Check(id),
            Err(e) => Route::Rejected(e),
        }
    } else if post && text_ends_with(path, "/baseline/ping") {
        match extract_integration_id(path, "/baseline/ping") {
            Ok(id) => Route::PingBaseline(id),
            Err(e) => Route::Rejected(e),
        }
    } else {
        Route::Rejected(String::from_str("Not found"))
    }
}


/// A response of the status service.
#[derive(Debug)]
pub struct HttpResponse {
    pub status_code: u16,
    pub content_type: String,
    pub body: Vec<u8>,
}

/// A page of HTML.
pub fn html_response(body: String) -> (r: HttpResponse)
    ensures
        r.status_code == 200,
        r.content_type@ == "text/html"@,
        r.body@ == encode_utf8(body@),
{
    HttpResponse {
        status_code: 200,
        content_type: String::from_str("text/html"),
        body: body.as_str().as_bytes_vec(),
    }
}

/// Plain text with a status code.
pub fn text_response(status_code: u16, body: String) -> (r: HttpResponse)
    ensures
        r.status_code == status_code,
        r.content_type@ == "text/plain"@,
        r.body@ == encode_utf8(body@),
{
    HttpResponse {
        status_code,
        content_type: String::from_str("text/plain"),
        body: body.as_str().as_bytes_vec(),
    }
}

/// JSON bytes.
pub fn json_bytes_response(body: Vec<u8>) -> (r: HttpResponse)
    ensures
        r.status_code == 200,
        r.content_type@ == "application/json"@,
        r.body@ == body@,
{
    HttpResponse { status_code: 200, content_type: String::from_str("application/json"), body }
}

/// The response to a failed request: 404 when nothing handles it, 400 otherwise.
pub fn error_response(error: String) -> (r: HttpResponse)
    ensures
        r.status_code == (if error@ == "Not found"@ {
            404u16
        } else {
            400u16
        }),
        r.content_type@ == "text/plain"@,
        r.body@ == encode_utf8(error@),
{
    if error == String::from_str("Not found") {
        text_response(404, error)
    } else {
        text_response(400, error)
    }
}

/// The reason phrase of a status code.
pub open spec fn status_text(code: u16) -> Seq<char> {
    if code == 200 {
        "OK"@
    } else if code == 400 {
        "Bad Request"@
    } else if code == 404 {
        "Not Found"@
    } else {
        "Internal Server Error"@
    }
}

/// The status line and headers of a response.
pub open spec fn response_head_text(code: u16, content_type: Seq<char>, body_len: nat) -> Seq<char> {
    "HTTP/1.1 "@ + decimal(code as nat) + " "@ + status_text(code) + "\r\nContent-Type: "@ + content_type
        + "; charset=utf-8\r\nContent-Length: "@ + decimal(body_len) + "\r\nConnection: close\r\n\r\n"@
}

/// The status line and headers of a response.
pub fn response_head(response: &HttpResponse) -> (r: String)
    ensures
        r@ == response_head_text(response.status_code, response.content_type@, response.body@.len()),
{
    let mut r = String::from_str("HTTP/1.1 ");
    append_decimal(&mut r, response.status_code as u64);
    r.append(" ");
    if response.status_code == 200 {
        r.append("OK");
    } else if response.status_code == 400 {
        r.append("Bad Request");
    } else if response.status_code == 404 {
        r.append("Not Found");
    } else {
        r.append("Internal Server Error");
    }
    r.append("\r\nContent-Type: ");
    r.append(response.content_type.as_str());
    r.append("; charset=utf-8\r\nContent-Length: ");
    append_decimal(&mut r, response.body.len() as u64);
    r.append("\r\nConnection: close\r\n\r\n");
    r
}


/// What the head of a request says.
#[derive(Debug)]
pub struct RequestHead {
    pub method: String,
    pub path: String,
    pub content_length: usize,
    /// The byte offset at which the body starts.
    pub body_start: usize,
}

/// A header line naming the body's length.
pub open spec fn content_length_line(line: Seq<char>) -> bool {
    starts_with(ascii_lower_text(line), "content-length:"@)
}

/// The second `:`-separated field of a header line, trimmed.
pub open spec fn header_field(line: Seq<char>) -> Option<Seq<char>> {
    let p = index_of(line, ':');
    if p < 0 {
        None
    } else {
        let rest = line.skip(p + 1);
        let q = index_of(rest, ':');
        Some(trim(if q >= 0 {
            rest.take(q)
        } else {
            rest
        }))
    }
}

/// The body length the header lines name (the last such line counts), or
/// why one of them names none.
pub open spec fn content_length_of(lines: Seq<Seq<char>>, acc: nat) -> Result<nat, Seq<char>>
    decreases lines.len(),
{
    if lines.len() == 0 {
        Ok(acc)
    } else if content_length_line(lines[0]) {
        match header_field(lines[0]) {
            None => Err("Invalid Content-Length header"@),
            Some(v) => match parse_unsigned(v, 10, usize::MAX as nat) {
                Err(k) => Err("Invalid Content-Length value: "@ + int_error_text(k)),
                Ok(n) => content_length_of(lines.drop_first(), n),
            },
        }
    } else {
        content_length_of(lines.drop_first(), acc)
    }
}

/// Method, path, body length and body offset of a request whose text is
/// `text`, or why the text is not a request.
pub open spec fn request_head(text: Seq<char>) -> Result<(Seq<char>, Seq<char>, nat, nat), Seq<char>> {
    let p = index_of_text(text, header_end());
    if p < 0 {
        Err("Malformed HTTP request"@)
    } else {
        let ls = text_lines(text.take(p));
        if ls.len() == 0 {
            Err("Missing request line"@)
        } else {
            match first_word(ls[0]) {
                None => Err("Missing request method"@),
                Some((method, rest)) => match first_word(rest) {
                    None => Err("Missing request path"@),
                    Some((path, _)) => match content_length_of(ls.drop_first(), 0) {
                        Err(e) => Err(e),
                        Ok(n) => Ok((method, path, n, encode_utf8(text.take(p)).len() + 4)),
                    },
                },
            }
        }
    }
}

fn lower_chars(line: &String) -> (r: Vec<char>)
    ensures
        r@ == ascii_lower_text(line@),
{
    let cs = chars_of(line.as_str());
    let mut r: Vec<char> = Vec::new();
    let mut i: usize = 0;
    while i < cs.len()
        invariant
            cs@ == line@,
            i <= cs@.len(),
            r@ == ascii_lower_text(line@).take(i as int),
        decreases cs@.len() - i,
    {
        r.push(ascii_lower_char(cs[i]));
        assert(ascii_lower_text(line@).take(i + 1) =~= ascii_lower_text(line@).take(i as int).push(r@.last()));
        i = i + 1;
    }
    assert(ascii_lower_text(line@).take(cs@.len() as int) =~= ascii_lower_text(line@));
    r
}

fn field_of(line: &String) -> (r: Option<String>)
    ensures
        match header_field(line@) {
            Some(v) => r matches Some(s) && s@ == v,
            None => r is None,
        },
{
    let cs = chars_of(line.as_str());
    let n = cs.len();
    proof {
        lemma_index_of(line@, ':');
    }
    assert(cs@.skip(0) =~= cs@);
    let p = match find_char(&cs, ':', 0) {
        Some(p) => p,
        None => {
            return None;
        },
    };
    let ghost rest = line@.skip(p + 1);
    let end = match find_char(&cs, ':', p + 1) {
        Some(q) => q,
        None => n,
    };
    proof {
        lemma_index_of(rest, ':');
    }
    let raw = string_of_range(&cs, p + 1, end);
    assert(raw@ =~= (if index_of(rest, ':') >= 0 { rest.take(index_of(rest, ':')) } else { rest }));
    Some(trim_text(raw.as_str()))
}

/// Reads the method, path and body length of a request from its text.
#[verifier::rlimit(40)]
#[verifier::loop_isolation(false)]
pub fn parse_request_head(text: &str) -> (r: Result<RequestHead, String>)
    ensures
        match request_head(text@) {
            Ok((method, path, n, start)) => r matches Ok(h) && h.method@ == method && h.path@ == path
                && h.content_length == n && h.body_start == start,
            Err(e) => r matches Err(m) && m@ == e,
        },
{
    proof {
        reveal_strlit("\r\n\r\n");
        assert("\r\n\r\n"@ =~= header_end());
    }
    let cs = chars_of(text);
    assert(cs@.skip(0) =~= cs@);
    let p = match find_text(&cs, "\r\n\r\n", 0) {
        Some(p) => p,
        None => {
            return Err(String::from_str("Malformed HTTP request"));
        },
    };
    let head = string_of_range(&cs, 0, p);
    assert(head@ =~= text@.take(p as int));
    let hc = chars_of(head.as_str());
    if hc.len() == 0 {
        return Err(String::from_str("Missing request line"));
    }
    let (line0, next) = next_line(&hc, 0);
    assert(hc@.skip(0) =~= hc@);
    let ghost ls = text_lines(head@);
    assert(ls[0] == line0@);
    assert(ls.drop_first() =~= text_lines(hc@.skip(next as int)));
    let lc = chars_of(line0.as_str());
    proof {
        lemma_leading_ws_bound(line0@);
    }
    let i = skip_white_space(&lc, 0);
    assert(lc@.skip(0) =~= lc@);
    if i == lc.len() {
        return Err(String::from_str("Missing request method"));
    }
    let j = skip_word(&lc, i);
    let method = string_of_range(&lc, i, j);
    let ghost t = line0@.skip(i as int);
    assert(method@ =~= t.take(word_len(t) as int));
    let ghost rest = t.skip(word_len(t) as int);
    assert(rest =~= lc@.skip(j as int));
    let k = skip_white_space(&lc, j);
    if k == lc.len() {
        assert(rest.skip(leading_ws(rest) as int).len() == 0);
        return Err(String::from_str("Missing request path"));
    }
    let l = skip_word(&lc, k);
    let path = string_of_range(&lc, k, l);
    let ghost t2 = rest.skip(leading_ws(rest) as int);
    assert(t2 =~= lc@.skip(k as int));
    assert(path@ =~= t2.take(word_len(t2) as int));
    let mut content_length: usize = 0;
    let mut pos = next;
    while pos < hc.len()
        invariant
            hc@ == head@,
            pos <= hc@.len(),
            content_length_of(ls.drop_first(), 0) == content_length_of(text_lines(hc@.skip(pos as int)), content_length as nat),
        decreases hc@.len() - pos,
    {
        let (line, nxt) = next_line(&hc, pos);
        let ghost lines_here = text_lines(hc@.skip(pos as int));
        assert(lines_here[0] == line@);
        assert(lines_here.drop_first() =~= text_lines(hc@.skip(nxt as int)));
        let lower = lower_chars(&line);
        if text_starts_with(&lower, "content-length:") {
            let field = match field_of(&line) {
                Some(f) => f,
                None => {
                    return Err(String::from_str("Invalid Content-Length header"));
                },
            };
            match parse_unsigned_text(field.as_str(), 10, usize::MAX as u64) {
                Err(e) => {
                    let mut m = String::from_str("Invalid Content-Length value: ");
                    let em = int_error_message(e);
                    m.append(em.as_str());
                    return Err(m);
                },
                Ok(v) => {
                    content_length = v as usize;
                },
            }
        }
        pos = nxt;
    }
    assert(hc@.skip(pos as int) =~= Seq::<char>::empty());
    let head_bytes = head.as_str().as_bytes().len();
    let total = text.as_bytes().len();
    proof {
        lemma_index_of_text(text@, header_end());
        assert(text@ =~= text@.take(p as int) + text@.skip(p as int));
        lemma_encode_utf8_concat(text@.take(p as int), text@.skip(p as int));
        lemma_encode_utf8_len(text@.skip(p as int));
        assert(text@.skip(p as int).len() >= 4);
        assert(total >= head_bytes + 4);
    }
    let body_start = head_bytes + 4;
    Ok(RequestHead { method, path, content_length, body_start })
}

/// Whether the bytes read so far hold the end of a request's head.
pub open spec fn holds_head_end(bytes: Seq<u8>) -> bool {
    exists|i: int| 0 <= i && i + 4 <= bytes.len() && #[trigger] bytes.subrange(i, i + 4) == seq![13u8, 10u8, 13u8, 10u8]
}

/// Whether the bytes read so far hold the end of a request's head.
pub fn head_complete(bytes: &[u8]) -> (r: bool)
    ensures
        r == holds_head_end(bytes@),
{
    let n = bytes.len();
    if n < 4 {
        return false;
    }
    let mut i: usize = 0;
    while i <= n - 4
        invariant
            n == bytes@.len(),
            n >= 4,
            i <= n - 3,
            forall|k: int| 0 <= k < i ==> #[trigger] bytes@.subrange(k, k + 4) != seq![13u8, 10u8, 13u8, 10u8],
        decreases n - i,
    {
        if bytes[i] == 13 && bytes[i + 1] == 10 && bytes[i + 2] == 13 && bytes[i + 3] == 10 {
            assert(bytes@.subrange(i as int, i + 4) =~= seq![13u8, 10u8, 13u8, 10u8]);
            return true;
        }
        assert(bytes@.subrange(i as int, i + 4) != seq![13u8, 10u8, 13u8, 10u8]) by {
            if bytes@.subrange(i as int, i + 4) == seq![13u8, 10u8, 13u8, 10u8] {
                assert(bytes@.subrange(i as int, i + 4)[0] == bytes@[i as int]);
                assert(bytes@.subrange(i as int, i + 4)[1] == bytes@[i + 1]);
                assert(bytes@.subrange(i as int, i + 4)[2] == bytes@[i + 2]);
                assert(bytes@.subrange(i as int, i + 4)[3] == bytes@[i + 3]);
            }
        }
        i = i + 1;
    }
    false
}

} // verus!
