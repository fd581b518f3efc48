//! The plain-HTTP side of fetching a schema: the schema URL, the request
//! text, and the response's status line, framing and chunked body.

use vstd::prelude::*;
use crate::text::{ascii_lower_char, ascii_lower_text, byte_len, char_is_whitespace, chars_of, cut_count, contains_text, find_char, index_of, int_error_message, int_error_text, lemma_index_of, parse_unsigned, parse_unsigned_text, push_char, starts_with, text_contains, text_starts_with, trim, trim_text, unicode_white_space, string_of_range, index_of_text, lemma_index_of_text, find_text, suffix_bytes_at_least, cut_suffix, lemma_cut_from_bounds};

use crate::catalog::{catalog_problem, validate_mcp_tool_catalog_schema};
use crate::json::{JsonModel, JsonValue, parse_json_text, parsed_json, well_keyed};

verus! {

/// `s` without any white space character.
pub open spec fn without_white_space(s: Seq<char>) -> Seq<char>
    decreases s.len(),
{
    if s.len() == 0 {
        s
    } else if unicode_white_space(s.last()) {
        without_white_space(s.drop_last())
    } else {
        without_white_space(s.drop_last()).push(s.last())
    }
}

/// `s` without its leading `/` characters.
pub open spec fn strip_leading_slashes(s: Seq<char>) -> Seq<char>
    decreases s.len(),
{
    if s.len() > 0 && s[0] == '/' {
        strip_leading_slashes(s.drop_first())
    } else {
        s
    }
}

/// A schema URL with white space removed and the slashes after `http://` collapsed.
pub open spec fn sanitized_url(url: Seq<char>) -> Seq<char> {
    let compact = without_white_space(url);
    if starts_with(compact, "http://"@) {
        "http://"@ + strip_leading_slashes(compact.skip(7))
    } else {
        compact
    }
}

/// Removes white space from a schema URL and collapses the slashes after `http://`.
pub fn sanitize_schema_url(url: &str) -> (r: String)
    ensures
        r@ == sanitized_url(url@),
{
    let cs = chars_of(url);
    let mut compact: Vec<char> = Vec::new();
    let mut i: usize = 0;
    while i < cs.len()
        invariant
            cs@ == url@,
            i <= cs@.len(),
            compact@ == without_white_space(url@.take(i as int)),
        decreases cs@.len() - i,
    {
        assert(url@.take(i + 1).drop_last() =~= url@.take(i as int));
        if !char_is_whitespace(cs[i]) {
            compact.push(cs[i]);
        }
        i = i + 1;
    }
    assert(url@.take(cs@.len() as int) =~= url@);
    if text_starts_with(&compact, "http://") {
        proof {
            reveal_strlit("http://");
        }
        let mut j: usize = 7;
        assert(compact@.skip(7).skip(0) =~= compact@.skip(7));
        while j < compact.len() && compact[j] == '/'
            invariant
                7 <= j <= compact@.len(),
                strip_leading_slashes(compact@.skip(7)) == strip_leading_slashes(compact@.skip(j as int)),
            decreases compact@.len() - j,
        {
            assert(compact@.skip(j as int).drop_first() =~= compact@.skip(j + 1));
            j = j + 1;
        }
        let mut r = String::from_str("http://");
        let mut k: usize = j;
        assert(compact@.skip(j as int).take(0) =~= Seq::<char>::empty());
        while k < compact.len()
            invariant
                j <= k <= compact@.len(),
                r@ == "http://"@ + compact@.skip(j as int).take(k - j),
            decreases compact@.len() - k,
        {
            push_char(&mut r, compact[k]);
            assert(compact@.skip(j as int).take(k + 1 - j) =~= compact@.skip(j as int).take(k - j).push(compact@[k as int]));
            k = k + 1;
        }
        assert(compact@.skip(j as int).take(compact@.len() - j) =~= compact@.skip(j as int));
        assert(compact@.skip(j as int) == strip_leading_slashes(compact@.skip(j as int)));
        r
    } else {
        let mut r = String::new();
        let mut k: usize = 0;
        while k < compact.len()
            invariant
                k <= compact@.len(),
                r@ == compact@.take(k as int),
            decreases compact@.len() - k,
        {
            push_char(&mut r, compact[k]);
            assert(compact@.take(k + 1) =~= compact@.take(k as int).push(compact@[k as int]));
            k = k + 1;
        }
        assert(compact@.take(compact@.len() as int) =~= compact@);
        r
    }
}


/// The host, port and path of a plain `http://` schema URL, or why there are none.
pub open spec fn parsed_http_url(url: Seq<char>) -> Result<(Seq<char>, u16, Seq<char>), Seq<char>> {
    let s = sanitized_url(url);
    if !starts_with(s, "http://"@) {
        Err("Only plain http:// schema URLs are supported right now."@)
    } else {
        let w = s.skip(7);
        let slash = index_of(w, '/');
        let host_port = if slash >= 0 {
            w.take(slash)
        } else {
            w
        };
        let path = if slash >= 0 {
            w.skip(slash)
        } else {
            seq!['/']
        };
        let colon = index_of(host_port, ':');
        if colon >= 0 {
            let host = host_port.take(colon);
            match parse_unsigned(host_port.skip(colon + 1), 10, 65535) {
                Err(k) => Err("Invalid HTTP port in schema URL: "@ + int_error_text(k)),
                Ok(port) => if trim(host).len() == 0 {
                    Err("HTTP schema URL is missing a host."@)
                } else {
                    Ok((host, port as u16, path))
                },
            }
        } else {
            if trim(host_port).len() == 0 {
                Err("HTTP schema URL is missing a host."@)
            } else {
                Ok((host_port, 80u16, path))
            }
        }
    }
}

/// Splits a plain `http://` schema URL into host, port (80 by default) and path.
pub fn parse_http_url(url: &str) -> (r: Result<(String, u16, String), String>)
    ensures
        match parsed_http_url(url@) {
            Ok((host, port, path)) => r matches Ok((h, p, q)) && h@ == host && p == port && q@ == path,
            Err(e) => r matches Err(m) && m@ == e,
        },
{
    let sanitized = sanitize_schema_url(url);
    let s = chars_of(sanitized.as_str());
    if !text_starts_with(&s, "http://") {
        return Err(String::from_str("Only plain http:// schema URLs are supported right now."));
    }
    proof {
        reveal_strlit("http://");
    }
    let ghost w = s@.skip(7);
    let n = s.len();
    let slash = find_char(&s, '/', 7);
    let hp_end: usize = match slash {
        Some(p) => p,
        None => n,
    };
    proof {
        lemma_index_of(w, '/');
    }
    let path = match slash {
        Some(p) => string_of_range(&s, p, n),
        None => String::from_str("/"),
    };
    proof {
        match slash {
            Some(p) => {
                assert(s@.subrange(p as int, n as int) =~= w.skip(p - 7));
            },
            None => {
                reveal_strlit("/");
            },
        }
    }
    let ghost host_port = s@.subrange(7, hp_end as int);
    assert(host_port =~= if index_of(w, '/') >= 0 { w.take(index_of(w, '/')) } else { w });
    let colon = find_char(&s, ':', 7);
    let colon_in_host: Option<usize> = match colon {
        Some(c) => if c < hp_end {
            Some(c)
        } else {
            None
        },
        None => None,
    };
    proof {
        lemma_index_of(host_port, ':');
        lemma_index_of(s@.skip(7), ':');
        let ci = index_of(host_port, ':');
        match colon_in_host {
            Some(c) => {
                assert(host_port[c - 7] == ':');
                if 0 <= ci < c - 7 {
                    assert(s@.skip(7)[ci] == host_port[ci]);
                }
                assert(ci == c - 7);
            },
            None => {
                if ci >= 0 {
                    assert(s@.skip(7)[ci] == host_port[ci]);
                    assert(false);
                }
            },
        }
    }
    match colon_in_host {
        Some(c) => {
            let host = string_of_range(&s, 7, c);
            let port_text = string_of_range(&s, c + 1, hp_end);
            assert(host@ =~= host_port.take(c - 7));
            assert(port_text@ =~= host_port.skip(c - 7 + 1));
            match parse_unsigned_text(port_text.as_str(), 10, 65535) {
                Err(k) => {
                    let mut m = String::from_str("Invalid HTTP port in schema URL: ");
                    let e = int_error_message(k);
                    m.append(e.as_str());
                    Err(m)
                },
                Ok(port) => {
                    let trimmed = trim_text(host.as_str());
                    if trimmed.as_str().unicode_len() == 0 {
                        Err(String::from_str("HTTP schema URL is missing a host."))
                    } else {
                        Ok((host, port as u16, path))
                    }
                },
            }
        },
        None => {
            let host = string_of_range(&s, 7, hp_end);
            let trimmed = trim_text(host.as_str());
            if trimmed.as_str().unicode_len() == 0 {
                Err(String::from_str("HTTP schema URL is missing a host."))
            } else {
                Ok((host, 80u16, path))
            }
        },
    }
}


/// The text of a `GET` request for `path` on `host`, asking for JSON and
/// for the connection to close after the response.
pub open spec fn get_request_text(host: Seq<char>, path: Seq<char>) -> Seq<char> {
    "GET "@ + path + " HTTP/1.1\r\nHost: "@ + host + "\r\nConnection: close\r\nAccept: application/json\r\n\r\n"@
}

/// The request that fetches a schema document.
pub fn schema_request_text(host: &str, path: &str) -> (r: String)
    ensures
        r@ == get_request_text(host@, path@),
{
    let mut r = String::from_str("GET ");
    r.append(path);
    r.append(" HTTP/1.1\r\nHost: ");
    r.append(host);
    r.append("\r\nConnection: close\r\nAccept: application/json\r\n\r\n");
    r
}

/// A line without the carriage return that ended it.
pub open spec fn strip_line_cr(l: Seq<char>) -> Seq<char> {
    if l.len() > 0 && l.last() == '\r' {
        l.drop_last()
    } else {
        l
    }
}

/// The lines of a text, as `str::lines` yields them: split at `\n`, a `\r`
/// before the `\n` dropped, and no empty line after a final `\n`.
pub open spec fn text_lines(s: Seq<char>) -> Seq<Seq<char>>
    decreases s.len(),
{
    if s.len() == 0 {
        Seq::empty()
    } else {
        let p = index_of(s, '\n');
        if p >= 0 {
            proof {
                lemma_index_of(s, '\n');
            }
            seq![strip_line_cr(s.take(p))] + text_lines(s.skip(p + 1))
        } else {
            seq![s]
        }
    }
}

/// The first line of a text, or nothing.
pub open spec fn first_line(s: Seq<char>) -> Seq<char> {
    if text_lines(s).len() > 0 {
        text_lines(s)[0]
    } else {
        Seq::empty()
    }
}

/// A header line announcing a chunked transfer encoding.
pub open spec fn chunked_line(l: Seq<char>) -> bool {
    starts_with(ascii_lower_text(l), "transfer-encoding:"@) && contains_text(
        ascii_lower_text(l),
        "chunked"@,
    )
}

/// The headers announce a chunked body.
pub open spec fn is_chunked(headers: Seq<char>) -> bool {
    exists|i: int| 0 <= i < text_lines(headers).len() && chunked_line(#[trigger] text_lines(headers)[i])
}

/// The line of `cs` that starts at `pos`, and where the next one starts.
pub(crate) fn next_line(cs: &Vec<char>, pos: usize) -> (r: (String, usize))
    requires
        pos < cs@.len(),
    ensures
        pos < r.1 <= cs@.len(),
        text_lines(cs@.skip(pos as int)) == seq![r.0@] + text_lines(cs@.skip(r.1 as int)),
{
    let n = cs.len();
    let ghost t = cs@.skip(pos as int);
    match find_char(cs, '\n', pos) {
        Some(q) => {
            let end: usize = if q > pos && cs[q - 1] == '\r' {
                q - 1
            } else {
                q
            };
            let line = string_of_range(cs, pos, end);
            proof {
                lemma_index_of(t, '\n');
                assert(t.skip(q - pos + 1) =~= cs@.skip(q + 1));
                assert(line@ =~= strip_line_cr(t.take(q - pos)));
            }
            (line, q + 1)
        },
        None => {
            let line = string_of_range(cs, pos, n);
            assert(line@ =~= t);
            assert(cs@.skip(n as int) =~= Seq::<char>::empty());
            (line, n)
        },
    }
}

/// Whether a line announces a chunked transfer encoding.
fn line_is_chunked(line: &String) -> (r: bool)
    ensures
        r == chunked_line(line@),
{
    let cs = chars_of(line.as_str());
    let mut lower = String::new();
    let mut lc: Vec<char> = Vec::new();
    let mut i: usize = 0;
    while i < cs.len()
        invariant
            cs@ == line@,
            i <= cs@.len(),
            lower@ == ascii_lower_text(line@).take(i as int),
            lc@ == lower@,
        decreases cs@.len() - i,
    {
        let c = ascii_lower_char(cs[i]);
        push_char(&mut lower, c);
        lc.push(c);
        assert(ascii_lower_text(line@).take(i + 1) =~= ascii_lower_text(line@).take(i as int).push(c));
        i = i + 1;
    }
    assert(ascii_lower_text(line@).take(cs@.len() as int) =~= ascii_lower_text(line@));
    text_starts_with(&lc, "transfer-encoding:") && text_contains(lower.as_str(), "chunked")
}

/// Whether the headers announce a chunked body.
pub fn headers_are_chunked(headers: &str) -> (r: bool)
    ensures
        r == is_chunked(headers@),
{
    let cs = chars_of(headers);
    let mut pos: usize = 0;
    assert(cs@.skip(0) =~= cs@);
    while pos < cs.len()
        invariant
            cs@ == headers@,
            pos <= cs@.len(),
            is_chunked(headers@) == (exists|i: int|
                0 <= i < text_lines(cs@.skip(pos as int)).len() && chunked_line(
                    #[trigger] text_lines(cs@.skip(pos as int))[i],
                )),
        decreases cs@.len() - pos,
    {
        let (line, next) = next_line(&cs, pos);
        let ghost rest = text_lines(cs@.skip(next as int));
        let ghost all = text_lines(cs@.skip(pos as int));
        if line_is_chunked(&line) {
            assert(all[0] == line@);
            return true;
        }
        assert forall|i: int| 0 <= i < all.len() && chunked_line(#[trigger] all[i]) implies (exists|j: int|
            0 <= j < rest.len() && chunked_line(#[trigger] rest[j])) by {
            assert(all[i] == rest[i - 1]);
        }
        assert forall|j: int| 0 <= j < rest.len() && chunked_line(#[trigger] rest[j]) implies (exists|i: int|
            0 <= i < all.len() && chunked_line(#[trigger] all[i])) by {
            assert(all[j + 1] == rest[j]);
        }
        pos = next;
    }
    assert(cs@.skip(pos as int) =~= Seq::<char>::empty());
    false
}


/// A chunk-size line up to its first `;`.
pub open spec fn before_semicolon(l: Seq<char>) -> Seq<char> {
    let p = index_of(l, ';');
    if p >= 0 {
        l.take(p)
    } else {
        l
    }
}

/// The hexadecimal size token of a chunk-size line.
pub open spec fn chunk_size_token(l: Seq<char>) -> Seq<char> {
    trim(before_semicolon(l))
}

pub open spec fn crlf() -> Seq<char> {
    seq!['\r', '\n']
}

/// The data of a chunked body from `rest` on, appended to `acc`; or why it
/// is malformed.
pub open spec fn decoded_chunks(rest: Seq<char>, acc: Seq<char>) -> Result<Seq<char>, Seq<char>>
    decreases rest.len(),
{
    let p = index_of_text(rest, crlf());
    if p < 0 {
        Err("Chunked HTTP response is malformed (missing chunk size line)."@)
    } else {
        let token = chunk_size_token(rest.take(p));
        let after = rest.skip(p + 2);
        match parse_unsigned(token, 16, usize::MAX as nat) {
            Err(k) => Err("Invalid chunk size '"@ + token + "': "@ + int_error_text(k)),
            Ok(size) => if size == 0 {
                Ok(acc)
            } else if byte_len(after) < size + 2 {
                Err("Chunked HTTP response ended before chunk data completed."@)
            } else {
                let k = cut_count(after, size);
                let tail = after.skip(k);
                if !starts_with(tail, crlf()) {
                    Err("Chunked HTTP response is malformed (missing chunk terminator)."@)
                } else {
                    proof {
                        lemma_index_of_text(rest, crlf());
                        lemma_cut_from_bounds(after, size, 0);
                    }
                    decoded_chunks(tail.skip(2), acc + after.take(k))
                }
            },
        }
    }
}

/// Every chunk of a chunked body from `rest` on that is read can be split
/// off at its stated size: the size plus its terminator fits in `usize`, and
/// the size ends on a character boundary.
pub open spec fn chunks_split_cleanly(rest: Seq<char>) -> bool
    decreases rest.len(),
{
    let p = index_of_text(rest, crlf());
    if p < 0 {
        true
    } else {
        let token = chunk_size_token(rest.take(p));
        let after = rest.skip(p + 2);
        match parse_unsigned(token, 16, usize::MAX as nat) {
            Err(_) => true,
            Ok(size) => if size == 0 {
                true
            } else if size + 2 > usize::MAX {
                false
            } else if byte_len(after) < size + 2 {
                true
            } else {
                let k = cut_count(after, size);
                let tail = after.skip(k);
                byte_len(after.take(k)) == size && (starts_with(tail, crlf()) ==> {
                    proof {
                        lemma_index_of_text(rest, crlf());
                        lemma_cut_from_bounds(after, size, 0);
                    }
                    chunks_split_cleanly(tail.skip(2))
                })
            },
        }
    }
}

/// Reassembles the data of a chunked HTTP body.
#[verifier::rlimit(40)]
pub fn decode_chunked_body(body: &str) -> (r: Result<String, String>)
    requires
        chunks_split_cleanly(body@),
    ensures
        match decoded_chunks(body@, Seq::empty()) {
            Ok(d) => r matches Ok(s) && s@ == d,
            Err(e) => r matches Err(m) && m@ == e,
        },
{
    proof {
        reveal_strlit("\r\n");
    }
    let cs = chars_of(body);
    let n = cs.len();
    let mut pos: usize = 0;
    let mut decoded = String::new();
    assert(cs@.skip(0) =~= cs@);
    loop
        invariant
            cs@ == body@,
            n == cs@.len(),
            pos <= n,
            "\r\n"@ == crlf(),
            decoded_chunks(body@, Seq::empty()) == decoded_chunks(cs@.skip(pos as int), decoded@),
            chunks_split_cleanly(cs@.skip(pos as int)),
        decreases n - pos,
    {
        let ghost rest = cs@.skip(pos as int);
        let q = match find_text(&cs, "\r\n", pos) {
            Some(q) => q,
            None => {
                return Err(String::from_str("Chunked HTTP response is malformed (missing chunk size line)."));
            },
        };
        proof {
            lemma_index_of_text(rest, crlf());
        }
        let ghost size_line = rest.take(q - pos);
        let semi = find_char(&cs, ';', pos);
        let end: usize = match semi {
            Some(c) => if c < q {
                c
            } else {
                q
            },
            None => q,
        };
        proof {
            lemma_index_of(size_line, ';');
            lemma_index_of(rest, ';');
            let si = index_of(size_line, ';');
            if si >= 0 {
                assert(rest[si] == size_line[si]);
            }
            match semi {
                Some(c) => {
                    if c < q {
                        assert(size_line[c - pos] == ';');
                        if 0 <= si < c - pos {
                            assert(rest[si] == size_line[si]);
                        }
                    }
                },
                None => {},
            }
            assert(cs@.subrange(pos as int, end as int) =~= before_semicolon(size_line));
        }
        let raw = string_of_range(&cs, pos, end);
        let token = trim_text(raw.as_str());
        let ghost after = rest.skip(q - pos + 2);
        assert(after =~= cs@.skip(q + 2));
        match parse_unsigned_text(token.as_str(), 16, usize::MAX as u64) {
            Err(k) => {
                let mut m = String::from_str("Invalid chunk size '");
                m.append(token.as_str());
                m.append("': ");
                let e = int_error_message(k);
                m.append(e.as_str());
                return Err(m);
            },
            Ok(size64) => {
                if size64 == 0 {
                    return Ok(decoded);
                }
                let size = size64 as usize;
                if !suffix_bytes_at_least(&cs, q + 2, size as u128 + 2) {
                    return Err(String::from_str("Chunked HTTP response ended before chunk data completed."));
                }
                let (k, _bytes) = cut_suffix(&cs, q + 2, size);
                proof {
                    lemma_cut_from_bounds(after, size as nat, 0);
                }
                let start = q + 2;
                let mut i: usize = start;
                let ghost before = decoded@;
                while i < start + k
                    invariant
                        start <= i <= start + k,
                        start + k <= n,
                        n == cs@.len(),
                        decoded@ == before + cs@.subrange(start as int, i as int),
                    decreases start + k - i,
                {
                    push_char(&mut decoded, cs[i]);
                    assert(cs@.subrange(start as int, i + 1) =~= cs@.subrange(start as int, i as int).push(cs@[i as int]));
                    i = i + 1;
                }
                assert(cs@.subrange(start as int, (start + k) as int) =~= after.take(k as int));
                let t = start + k;
                assert(after.skip(k as int) =~= cs@.skip(t as int));
                if !(t < n && n - t >= 2 && cs[t] == '\r' && cs[t + 1] == '\n') {
                    proof {
                        if starts_with(after.skip(k as int), crlf()) {
                            assert(after.skip(k as int).take(2)[0] == cs@[t as int]);
                            assert(after.skip(k as int).take(2)[1] == cs@[t + 1]);
                        }
                    }
                    return Err(String::from_str("Chunked HTTP response is malformed (missing chunk terminator)."));
                }
                assert(after.skip(k as int).take(2) =~= crlf());
                assert(after.skip(k as int).skip(2) =~= cs@.skip(t + 2));
                pos = t + 2;
            },
        }
    }
}


/// The body of a response as its headers frame it.
pub open spec fn decoded_http_body(headers: Seq<char>, body: Seq<char>) -> Result<Seq<char>, Seq<char>> {
    if is_chunked(headers) {
        decoded_chunks(body, Seq::empty())
    } else {
        Ok(body)
    }
}

/// The response body, reassembled when the headers announce chunks.
pub fn decode_http_body(headers: &str, body: &str) -> (r: Result<String, String>)
    requires
        is_chunked(headers@) ==> chunks_split_cleanly(body@),
    ensures
        match decoded_http_body(headers@, body@) {
            Ok(d) => r matches Ok(s) && s@ == d,
            Err(e) => r matches Err(m) && m@ == e,
        },
{
    if headers_are_chunked(headers) {
        return decode_chunked_body(body);
    }
    Ok(String::from_str(body))
}

pub open spec fn header_end() -> Seq<char> {
    seq!['\r', '\n', '\r', '\n']
}

/// The schema text an HTTP response carries, or why it carries none: the
/// response must have a header block, a status line with ` 200 `, and a
/// body that its framing can be read from.
pub open spec fn response_body(response: Seq<char>) -> Result<Seq<char>, Seq<char>> {
    let p = index_of_text(response, header_end());
    if p < 0 {
        Err("HTTP response was malformed."@)
    } else {
        let headers = response.take(p);
        let body = response.skip(p + 4);
        let status = first_line(headers);
        if !contains_text(status, " 200 "@) {
            Err("HTTP schema endpoint returned non-200 status: "@ + status)
        } else {
            decoded_http_body(headers, body)
        }
    }
}

/// Reading the response's body splits every chunk cleanly.
pub open spec fn response_reads_cleanly(response: Seq<char>) -> bool {
    let p = index_of_text(response, header_end());
    p < 0 || {
        let headers = response.take(p);
        let body = response.skip(p + 4);
        !contains_text(first_line(headers), " 200 "@) || (is_chunked(headers) ==> chunks_split_cleanly(body))
    }
}

/// The body of an HTTP response to a schema request.
pub fn http_response_body(response: &str) -> (r: Result<String, String>)
    requires
        response_reads_cleanly(response@),
    ensures
        match response_body(response@) {
            Ok(d) => r matches Ok(s) && s@ == d,
            Err(e) => r matches Err(m) && m@ == e,
        },
{
    proof {
        reveal_strlit("\r\n\r\n");
        assert("\r\n\r\n"@ =~= header_end());
    }
    let cs = chars_of(response);
    let n = cs.len();
    assert(cs@.skip(0) =~= cs@);
    let p = match find_text(&cs, "\r\n\r\n", 0) {
        Some(p) => p,
        None => {
            return Err(String::from_str("HTTP response was malformed."));
        },
    };
    let headers = string_of_range(&cs, 0, p);
    let body = string_of_range(&cs, p + 4, n);
    assert(headers@ =~= response@.take(p as int));
    assert(body@ =~= response@.skip(p + 4));
    let hc = chars_of(headers.as_str());
    let status = if hc.len() == 0 {
        String::new()
    } else {
        let (line, _next) = next_line(&hc, 0);
        assert(hc@.skip(0) =~= hc@);
        line
    };
    assert(status@ == first_line(headers@));
    if !text_contains(status.as_str(), " 200 ") {
        let mut m = String::from_str("HTTP schema endpoint returned non-200 status: ");
        m.append(status.as_str());
        return Err(m);
    }
    decode_http_body(headers.as_str(), body.as_str())
}


/// Whether every chunk of a chunked body can be split off at its stated size.
#[verifier::rlimit(40)]
pub fn chunked_body_splits_cleanly(body: &str) -> (r: bool)
    ensures
        r == chunks_split_cleanly(body@),
{
    proof {
        reveal_strlit("\r\n");
    }
    let cs = chars_of(body);
    let n = cs.len();
    let mut pos: usize = 0;
    assert(cs@.skip(0) =~= cs@);
    loop
        invariant
            cs@ == body@,
            n == cs@.len(),
            pos <= n,
            "\r\n"@ == crlf(),
            chunks_split_cleanly(body@) == chunks_split_cleanly(cs@.skip(pos as int)),
        decreases n - pos,
    {
        let ghost rest = cs@.skip(pos as int);
        let q = match find_text(&cs, "\r\n", pos) {
            Some(q) => q,
            None => {
                return true;
            },
        };
        proof {
            lemma_index_of_text(rest, crlf());
        }
        let ghost size_line = rest.take(q - pos);
        let semi = find_char(&cs, ';', pos);
        let end: usize = match semi {
            Some(c) => if c < q {
                c
            } else {
                q
            },
            None => q,
        };
        proof {
            lemma_index_of(size_line, ';');
            lemma_index_of(rest, ';');
            let si = index_of(size_line, ';');
            if si >= 0 {
                assert(rest[si] == size_line[si]);
            }
            match semi {
                Some(c) => {
                    if c < q {
                        assert(size_line[c - pos] == ';');
                        if 0 <= si < c - pos {
                            assert(rest[si] == size_line[si]);
                        }
                    }
                },
                None => {},
            }
            assert(cs@.subrange(pos as int, end as int) =~= before_semicolon(size_line));
        }
        let raw = string_of_range(&cs, pos, end);
        let token = trim_text(raw.as_str());
        let ghost after = rest.skip(q - pos + 2);
        assert(after =~= cs@.skip(q + 2));
        match parse_unsigned_text(token.as_str(), 16, usize::MAX as u64) {
            Err(_) => {
                return true;
            },
            Ok(size64) => {
                if size64 == 0 {
                    return true;
                }
                if size64 as u128 + 2 > usize::MAX as u128 {
                    return false;
                }
                let size = size64 as usize;
                if !suffix_bytes_at_least(&cs, q + 2, size as u128 + 2) {
                    return true;
                }
                let (k, bytes) = cut_suffix(&cs, q + 2, size);
                proof {
                    lemma_cut_from_bounds(after, size as nat, 0);
                }
                if bytes != size as u128 {
                    return false;
                }
                let t = q + 2 + k;
                assert(after.skip(k as int) =~= cs@.skip(t as int));
                if !(t < n && n - t >= 2 && cs[t] == '\r' && cs[t + 1] == '\n') {
                    proof {
                        if starts_with(after.skip(k as int), crlf()) {
                            assert(after.skip(k as int).take(2)[0] == cs@[t as int]);
                            assert(after.skip(k as int).take(2)[1] == cs@[t + 1]);
                        }
                    }
                    return true;
                }
                assert(after.skip(k as int).take(2) =~= crlf());
                assert(after.skip(k as int).skip(2) =~= cs@.skip(t + 2));
                pos = t + 2;
            },
        }
    }
}

/// Whether the body of a response can be read without splitting a character
/// or overflowing a chunk size.
pub fn response_splits_cleanly(response: &str) -> (r: bool)
    ensures
        r == response_reads_cleanly(response@),
{
    proof {
        reveal_strlit("\r\n\r\n");
        assert("\r\n\r\n"@ =~= header_end());
    }
    let cs = chars_of(response);
    let n = cs.len();
    assert(cs@.skip(0) =~= cs@);
    let p = match find_text(&cs, "\r\n\r\n", 0) {
        Some(p) => p,
        None => {
            return true;
        },
    };
    let headers = string_of_range(&cs, 0, p);
    let body = string_of_range(&cs, p + 4, n);
    assert(headers@ =~= response@.take(p as int));
    assert(body@ =~= response@.skip(p + 4));
    let hc = chars_of(headers.as_str());
    let status = if hc.len() == 0 {
        String::new()
    } else {
        let (line, _next) = next_line(&hc, 0);
        assert(hc@.skip(0) =~= hc@);
        line
    };
    assert(status@ == first_line(headers@));
    if !text_contains(status.as_str(), " 200 ") {
        return true;
    }
    if headers_are_chunked(headers.as_str()) {
        chunked_body_splits_cleanly(body.as_str())
    } else {
        true
    }
}

/// The tool catalog a schema endpoint's response carries, or why it
/// carries none: the body must be read, parse as JSON, and meet the catalog
/// profile.
pub open spec fn http_schema(response: Seq<char>) -> Result<JsonModel, Seq<char>> {
    match response_body(response) {
        Err(e) => Err(e),
        Ok(body) => match parsed_json(body) {
            Err(e) => Err("Failed to parse JSON from HTTP schema endpoint: "@ + e),
            Ok(m) => match catalog_problem(m) {
                Some(e) => Err(e),
                None => Ok(m),
            },
        },
    }
}

/// The tool catalog of a schema endpoint's full response text.
pub fn schema_from_http_response(response: &str) -> (r: Result<JsonValue, String>)
    requires
        response_reads_cleanly(response@),
    ensures
        match http_schema(response@) {
            Ok(m) => r matches Ok(v) && v@ == m,
            Err(e) => r matches Err(s) && s@ == e,
        },
        r matches Ok(v) ==> well_keyed(v@),
{
    let body = http_response_body(response)?;
    let value = match parse_json_text(body.as_str()) {
        Ok(v) => v,
        Err(e) => {
            let mut m = String::from_str("Failed to parse JSON from HTTP schema endpoint: ");
            m.append(e.as_str());
            return Err(m);
        },
    };
    validate_mcp_tool_catalog_schema(&value)?;
    Ok(value)
}

} // verus!
