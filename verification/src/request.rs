//! Normalizing and validating integration configurations, and the
//! identifiers derived from their names.

use vstd::prelude::*;
use crate::integration::{CreateIntegrationRequest, RequestView, SourceKind, opt_text, texts};
use crate::text::{ascii_lower, ascii_lower_char, chars_of, push_char, trim, trim_text};

verus! {

/// An optional text trimmed, and absent when nothing is left.
pub open spec fn normalized_opt(o: Option<Seq<char>>) -> Option<Seq<char>> {
    match o {
        Some(s) => if trim(s).len() == 0 {
            None
        } else {
            Some(trim(s))
        },
        None => None,
    }
}

/// Arguments trimmed, the empty ones dropped.
pub open spec fn normalized_args(args: Seq<Seq<char>>) -> Seq<Seq<char>>
    decreases args.len(),
{
    if args.len() == 0 {
        Seq::empty()
    } else if trim(args.last()).len() > 0 {
        normalized_args(args.drop_last()).push(trim(args.last()))
    } else {
        normalized_args(args.drop_last())
    }
}

/// A configuration with its texts trimmed and its empty optional texts absent.
pub open spec fn normalized_request(r: RequestView) -> RequestView {
    RequestView {
        name: trim(r.name),
        system: trim(r.system),
        environment: trim(r.environment),
        server: trim(r.server),
        live_schema_path: normalized_opt(r.live_schema_path),
        http_url: normalized_opt(r.http_url),
        mcp_command: normalized_opt(r.mcp_command),
        mcp_args: normalized_args(r.mcp_args),
        ..r
    }
}

/// Trims an optional text, and drops it when nothing is left.
pub fn normalize_optional_string(value: Option<String>) -> (r: Option<String>)
    ensures
        opt_text(r) == normalized_opt(opt_text(value)),
{
    match value {
        Some(inner) => {
            let trimmed = trim_text(inner.as_str());
            if trimmed.as_str().unicode_len() == 0 {
                None
            } else {
                Some(trimmed)
            }
        },
        None => None,
    }
}

/// Trims the texts of a configuration and drops empty optional texts and arguments.
pub fn normalize_request(request: CreateIntegrationRequest) -> (r: CreateIntegrationRequest)
    ensures
        r@ == normalized_request(request@),
{
    let ghost before = request@;
    let CreateIntegrationRequest {
        name,
        system,
        environment,
        server,
        source_kind,
        live_schema_path,
        http_url,
        mcp_command,
        mcp_args,
        sample_tool_calls,
        policy_mode,
        check_interval_seconds,
    } = request;
    let mut args: Vec<String> = Vec::new();
    let mut i: usize = 0;
    while i < mcp_args.len()
        invariant
            i <= mcp_args@.len(),
            texts(args@) == normalized_args(texts(mcp_args@).take(i as int)),
        decreases mcp_args@.len() - i,
    {
        let t = trim_text(mcp_args[i].as_str());
        let ghost prev = args@;
        assert(texts(mcp_args@).take(i + 1).drop_last() =~= texts(mcp_args@).take(i as int));
        if t.as_str().unicode_len() > 0 {
            args.push(t);
            assert(texts(args@) =~= texts(prev).push(t@));
        }
        i = i + 1;
    }
    assert(texts(mcp_args@).take(mcp_args@.len() as int) =~= texts(mcp_args@));
    CreateIntegrationRequest {
        name: trim_text(name.as_str()),
        system: trim_text(system.as_str()),
        environment: trim_text(environment.as_str()),
        server: trim_text(server.as_str()),
        source_kind,
        live_schema_path: normalize_optional_string(live_schema_path),
        http_url: normalize_optional_string(http_url),
        mcp_command: normalize_optional_string(mcp_command),
        mcp_args: args,
        sample_tool_calls,
        policy_mode,
        check_interval_seconds,
    }
}

/// An optional text with something besides white space.
pub open spec fn has_content(o: Option<Seq<char>>) -> bool {
    match o {
        Some(s) => trim(s).len() > 0,
        None => false,
    }
}

/// What the configuration lacks for its source kind, if anything.
pub open spec fn source_problem(r: RequestView) -> Option<Seq<char>> {
    match r.source_kind {
        SourceKind::FileJson => if has_content(r.live_schema_path) {
            None
        } else {
            Some("File-json integrations require a live schema path."@)
        },
        SourceKind::HttpJson => if has_content(r.http_url) {
            None
        } else {
            Some("Http-json integrations require an HTTP schema URL."@)
        },
        SourceKind::McpStdio => if has_content(r.mcp_command) {
            None
        } else {
            Some("MCP-stdio integrations require an MCP command."@)
        },
    }
}

fn has_text(o: &Option<String>) -> (r: bool)
    ensures
        r == has_content(opt_text(*o)),
{
    match o {
        Some(s) => trim_text(s.as_str()).as_str().unicode_len() > 0,
        None => false,
    }
}

/// Checks that the configuration names where its live contract comes from.
pub fn validate_source_config(request: &CreateIntegrationRequest) -> (r: Result<(), String>)
    ensures
        match source_problem(request@) {
            Some(e) => r matches Err(m) && m@ == e,
            None => r is Ok,
        },
{
    match request.source_kind {
        SourceKind::FileJson => {
            if !has_text(&request.live_schema_path) {
                return Err(String::from_str("File-json integrations require a live schema path."));
            }
        },
        SourceKind::HttpJson => {
            if !has_text(&request.http_url) {
                return Err(String::from_str("Http-json integrations require an HTTP schema URL."));
            }
        },
        SourceKind::McpStdio => {
            if !has_text(&request.mcp_command) {
                return Err(String::from_str("MCP-stdio integrations require an MCP command."));
            }
        },
    }
    Ok(())
}

/// An ASCII letter or digit.
pub open spec fn ascii_alnum(c: char) -> bool {
    ('0' <= c && c <= '9') || ('a' <= c && c <= 'z') || ('A' <= c && c <= 'Z')
}

/// Letters and digits lowercased, every run of other characters one `-`.
pub open spec fn slug_raw(s: Seq<char>) -> Seq<char>
    decreases s.len(),
{
    if s.len() == 0 {
        Seq::empty()
    } else if ascii_alnum(s.last()) {
        slug_raw(s.drop_last()).push(ascii_lower(s.last()))
    } else if slug_raw(s.drop_last()).len() > 0 && slug_raw(s.drop_last()).last() == '-' {
        slug_raw(s.drop_last())
    } else {
        slug_raw(s.drop_last()).push('-')
    }
}

/// `s` without leading `-`.
pub open spec fn trim_dash_start(s: Seq<char>) -> Seq<char>
    decreases s.len(),
{
    if s.len() > 0 && s[0] == '-' {
        trim_dash_start(s.drop_first())
    } else {
        s
    }
}

/// `s` without trailing `-`.
pub open spec fn trim_dash_end(s: Seq<char>) -> Seq<char>
    decreases s.len(),
{
    if s.len() > 0 && s.last() == '-' {
        trim_dash_end(s.drop_last())
    } else {
        s
    }
}

/// The identifier derived from a name.
pub open spec fn slug(s: Seq<char>) -> Seq<char> {
    trim_dash_end(trim_dash_start(slug_raw(s)))
}

/// The identifier derived from a name: ASCII letters and digits lowercased,
/// other runs one `-`, no `-` at either end.
pub fn slugify(input: &str) -> (r: String)
    ensures
        r@ == slug(input@),
{
    let cs = chars_of(input);
    let mut raw: Vec<char> = Vec::new();
    let mut last_was_dash = false;
    let mut i: usize = 0;
    while i < cs.len()
        invariant
            cs@ == input@,
            i <= cs@.len(),
            raw@ == slug_raw(input@.take(i as int)),
            last_was_dash == (raw@.len() > 0 && raw@.last() == '-'),
        decreases cs@.len() - i,
    {
        let c = cs[i];
        assert(input@.take(i + 1).drop_last() =~= input@.take(i as int));
        assert(input@.take(i + 1).last() == c);
        if ('0' <= c && c <= '9') || ('a' <= c && c <= 'z') || ('A' <= c && c <= 'Z') {
            raw.push(ascii_lower_char(c));
            last_was_dash = false;
        } else if !last_was_dash {
            raw.push('-');
            last_was_dash = true;
        }
        i = i + 1;
    }
    assert(input@.take(cs@.len() as int) =~= input@);
    let n = raw.len();
    let mut lo: usize = 0;
    assert(raw@.skip(0) =~= raw@);
    while lo < n && raw[lo] == '-'
        invariant
            n == raw@.len(),
            lo <= n,
            trim_dash_start(raw@) == trim_dash_start(raw@.skip(lo as int)),
        decreases n - lo,
    {
        assert(raw@.skip(lo as int).drop_first() =~= raw@.skip(lo + 1));
        lo = lo + 1;
    }
    let mut hi: usize = n;
    assert(raw@.skip(lo as int) =~= raw@.subrange(lo as int, hi as int));
    while hi > lo && raw[hi - 1] == '-'
        invariant
            n == raw@.len(),
            lo <= hi <= n,
            slug(input@) == trim_dash_end(raw@.subrange(lo as int, hi as int)),
        decreases hi,
    {
        assert(raw@.subrange(lo as int, hi as int).drop_last() =~= raw@.subrange(lo as int, hi - 1));
        hi = hi - 1;
    }
    let mut r = String::new();
    let mut k: usize = lo;
    while k < hi
        invariant
            lo <= k <= hi,
            hi <= n,
            n == raw@.len(),
            r@ == raw@.subrange(lo as int, k as int),
        decreases hi - k,
    {
        push_char(&mut r, raw[k]);
        assert(raw@.subrange(lo as int, k + 1) =~= raw@.subrange(lo as int, k as int).push(raw@[k as int]));
        k = k + 1;
    }
    r
}

} // verus!
