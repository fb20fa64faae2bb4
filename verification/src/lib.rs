//! A small HTTP/1.1 client for byte-oriented transports.
//!
//! The client issues one request and reads one response per instance. All
//! I/O goes through the [`traits::Channel`] abstraction, whose buffered
//! read primitives turn a byte-at-a-time transport into line- and
//! delimiter-bounded reads. URLs are parsed by [`url::parse_url`]. A
//! state machine sequences the exchange: every operation is valid in
//! exactly one state, and any failure moves the client to its terminal
//! `Error` state for good.

use vstd::prelude::*;
use vstd::string::*;
use vstd::utf8::*;

pub mod decimal;
pub mod traits;
pub mod url;

use traits::Channel;
use traits::ChannelError;
use traits::ScanOutcome;
use traits::StringChannel;
use traits::scan_outcome;
use url::UrlParsingError;
use url::parse_url_spec;

verus! {

broadcast use vstd::string::group_string_axioms;

/// The verb of an HTTP request.
#[derive(Clone, Copy, Debug, PartialEq, Eq, Structural)]
pub enum HttpMethod {
    Get,
    Head,
    Post,
    Put,
    Delete,
}

impl HttpMethod {
    /// The verb as it appears on the wire.
    pub open spec fn spec_str(self) -> Seq<char> {
        match self {
            HttpMethod::Get => "GET"@,
            HttpMethod::Head => "HEAD"@,
            HttpMethod::Post => "POST"@,
            HttpMethod::Put => "PUT"@,
            HttpMethod::Delete => "DELETE"@,
        }
    }

    pub fn as_str(&self) -> (r: &'static str)
        ensures
            r@ == self.spec_str(),
    {
        match self {
            HttpMethod::Get => "GET",
            HttpMethod::Head => "HEAD",
            HttpMethod::Post => "POST",
            HttpMethod::Put => "PUT",
            HttpMethod::Delete => "DELETE",
        }
    }
}

/// A closed set of well-known header names, with a fallback variant
/// carrying any other header token verbatim.
#[derive(Clone, Debug, PartialEq)]
pub enum HttpHeader {
    Connection,
    ContentLength,
    ContentType,
    Date,
    Etag,
    Host,
    LastModified,
    Server,
    Other(String),
}

/// True of the wire tokens (header name plus colon) that name a
/// well-known header.
pub open spec fn known_header_token(token: Seq<char>) -> bool {
    ||| token == "Connection:"@
    ||| token == "Content-Length:"@
    ||| token == "Content-Type:"@
    ||| token == "Date:"@
    ||| token == "ETag:"@
    ||| token == "Host:"@
    ||| token == "Last-Modified:"@
    ||| token == "Server:"@
}

/// The header that the wire token `token` names.
pub open spec fn header_matches(h: HttpHeader, token: Seq<char>) -> bool {
    match h {
        HttpHeader::Connection => token == "Connection:"@,
        HttpHeader::ContentLength => token == "Content-Length:"@,
        HttpHeader::ContentType => token == "Content-Type:"@,
        HttpHeader::Date => token == "Date:"@,
        HttpHeader::Etag => token == "ETag:"@,
        HttpHeader::Host => token == "Host:"@,
        HttpHeader::LastModified => token == "Last-Modified:"@,
        HttpHeader::Server => token == "Server:"@,
        HttpHeader::Other(name) => name@ == token && !known_header_token(token),
    }
}

impl HttpHeader {
    /// Maps a wire token (header name with trailing colon) to the header
    /// it names; an unrecognized token is kept verbatim.
    pub fn from(item: String) -> (r: HttpHeader)
        ensures
            header_matches(r, item@),
            item@ == "Connection:"@ ==> r == HttpHeader::Connection,
            item@ == "Content-Length:"@ ==> r == HttpHeader::ContentLength,
            item@ == "Content-Type:"@ ==> r == HttpHeader::ContentType,
            item@ == "Date:"@ ==> r == HttpHeader::Date,
            item@ == "ETag:"@ ==> r == HttpHeader::Etag,
            item@ == "Host:"@ ==> r == HttpHeader::Host,
            item@ == "Last-Modified:"@ ==> r == HttpHeader::LastModified,
            item@ == "Server:"@ ==> r == HttpHeader::Server,
            !known_header_token(item@) ==> r == HttpHeader::Other(item),
    {
        proof {
            reveal_strlit("Connection:");
            reveal_strlit("Content-Length:");
            reveal_strlit("Content-Type:");
            reveal_strlit("Date:");
            reveal_strlit("ETag:");
            reveal_strlit("Host:");
            reveal_strlit("Last-Modified:");
            reveal_strlit("Server:");
            assert("Connection:"@.len() == 11);
            assert("Content-Length:"@.len() == 15);
            assert("Content-Type:"@.len() == 13);
            assert("Date:"@.len() == 5);
            assert("ETag:"@.len() == 5);
            assert("Host:"@.len() == 5);
            assert("Last-Modified:"@.len() == 14);
            assert("Server:"@.len() == 7);
            assert("Date:"@[0] == 'D');
            assert("ETag:"@[0] == 'E');
            assert("Host:"@[0] == 'H');
        }
        if url::str_eq(item.as_str(), "Connection:") {
            HttpHeader::Connection
        } else if url::str_eq(item.as_str(), "Content-Length:") {
            HttpHeader::ContentLength
        } else if url::str_eq(item.as_str(), "Content-Type:") {
            HttpHeader::ContentType
        } else if url::str_eq(item.as_str(), "Date:") {
            HttpHeader::Date
        } else if url::str_eq(item.as_str(), "ETag:") {
            HttpHeader::Etag
        } else if url::str_eq(item.as_str(), "Host:") {
            HttpHeader::Host
        } else if url::str_eq(item.as_str(), "Last-Modified:") {
            HttpHeader::LastModified
        } else if url::str_eq(item.as_str(), "Server:") {
            HttpHeader::Server
        } else {
            HttpHeader::Other(item)
        }
    }

    /// The serialized form of the header name, with the trailing space
    /// that separates it from its value.
    pub open spec fn spec_string(self) -> Seq<char> {
        match self {
            HttpHeader::Connection => "Connection: "@,
            HttpHeader::ContentLength => "Content-Length: "@,
            HttpHeader::ContentType => "Content-Type: "@,
            HttpHeader::Date => "Date: "@,
            HttpHeader::Etag => "ETag: "@,
            HttpHeader::Host => "Host: "@,
            HttpHeader::LastModified => "Last-Modified: "@,
            HttpHeader::Server => "Server: "@,
            HttpHeader::Other(name) => name@ + " "@,
        }
    }

    /// Serializes the header name. The space after the name simplifies
    /// concatenation with the value.
    pub fn as_string(&self) -> (r: String)
        ensures
            r@ == self.spec_string(),
    {
        match self {
            HttpHeader::Connection => String::from_str("Connection: "),
            HttpHeader::ContentLength => String::from_str("Content-Length: "),
            HttpHeader::ContentType => String::from_str("Content-Type: "),
            HttpHeader::Date => String::from_str("Date: "),
            HttpHeader::Etag => String::from_str("ETag: "),
            HttpHeader::Host => String::from_str("Host: "),
            HttpHeader::LastModified => String::from_str("Last-Modified: "),
            HttpHeader::Server => String::from_str("Server: "),
            HttpHeader::Other(name) => {
                let mut s = name.clone();
                s.append(" ");
                s
            },
        }
    }
}

/// The phases of one HTTP exchange. `Error` is the initial state and the
/// terminal sink of every failure; each operation is valid in exactly one
/// other state.
#[derive(Clone, Copy, Debug, PartialEq, Eq, Structural)]
pub enum ClientState {
    Error,
    Created,
    HeadersOrBody,
    ReadResponse,
    Done,
}

/// Why an exchange failed.
#[derive(Debug, PartialEq)]
pub enum HttpError {
    BadState,
    BadUrl(UrlParsingError),
    ChannelError(ChannelError),
    UnsupportedScheme,
    UnknownError,
    InvalidVersion,
    InvalidStatusCode,
}

/// A parsed response: status code, reason phrase, and the header pairs
/// that the caller's filter kept, in wire order. The body is whatever
/// remains unread on the client's channel.
pub struct Response {
    pub status_code: u16,
    pub status: String,
    pub headers: Vec<(HttpHeader, String)>,
}

/// An HTTP/1.1 client that owns its transport for one exchange.
pub struct Client<T> {
    pub channel: T,
    pub state: ClientState,
    pub method: HttpMethod,
    pub url: String,
    pub headers_flushed: bool,
}

/// The request line and the mandatory `Host` header, as `open` writes
/// them to the channel.
pub open spec fn request_prefix(method: HttpMethod, host: Seq<char>, path: Seq<char>) -> Seq<u8> {
    encode_utf8(method.spec_str()) + encode_utf8(" "@) + encode_utf8(path) + encode_utf8(
        " HTTP/1.1\r\n"@,
    ) + encode_utf8("Host: "@) + encode_utf8(host) + encode_utf8("\r\n"@)
}

/// One serialized header line, `Name: value\r\n`.
pub open spec fn header_line(h: HttpHeader, value: Seq<char>) -> Seq<u8> {
    encode_utf8(h.spec_string()) + encode_utf8(value) + encode_utf8("\r\n"@)
}

/// A serialized block of header lines, in order.
pub open spec fn header_lines(hs: Seq<(HttpHeader, String)>) -> Seq<u8>
    decreases hs.len(),
{
    if hs.len() == 0 {
        Seq::empty()
    } else {
        header_line(hs[0].0, hs[0].1@) + header_lines(hs.drop_first())
    }
}

proof fn lemma_header_lines_snoc(hs: Seq<(HttpHeader, String)>, i: int)
    requires
        0 <= i < hs.len(),
    ensures
        header_lines(hs.take(i + 1)) == header_lines(hs.take(i)) + header_line(hs[i].0, hs[i].1@),
    decreases i,
{
    if i == 0 {
        assert(hs.take(1).drop_first() =~= hs.take(0));
        assert(hs.take(1)[0] == hs[0]);
        assert(header_lines(hs.take(0)) + header_line(hs[0].0, hs[0].1@) =~= header_line(
            hs[0].0,
            hs[0].1@,
        ));
        assert(header_line(hs[0].0, hs[0].1@) + header_lines(hs.take(0)) =~= header_line(
            hs[0].0,
            hs[0].1@,
        ));
    } else {
        lemma_header_lines_snoc(hs.drop_first(), i - 1);
        assert(hs.take(i + 1).drop_first() =~= hs.drop_first().take(i));
        assert(hs.take(i).drop_first() =~= hs.drop_first().take(i - 1));
        assert(hs.drop_first()[i - 1] == hs[i]);
        assert(hs.take(i + 1)[0] == hs[0]);
        assert(hs.take(i)[0] == hs[0]);
        assert(header_line(hs[0].0, hs[0].1@) + (header_lines(hs.drop_first().take(i - 1))
            + header_line(hs[i].0, hs[i].1@)) =~= (header_line(hs[0].0, hs[0].1@) + header_lines(
            hs.drop_first().take(i - 1),
        )) + header_line(hs[i].0, hs[i].1@));
    }
}


/// The UTF-8 bytes of the line terminator.
pub open spec fn crlf_bytes() -> Seq<u8> {
    encode_utf8("\r\n"@)
}

/// The UTF-8 bytes of the in-line separator.
pub open spec fn sp_bytes() -> Seq<u8> {
    encode_utf8(" "@)
}

proof fn lemma_delim_bytes()
    ensures
        crlf_bytes().len() == 2,
        sp_bytes().len() == 1,
{
    reveal_strlit("\r\n");
    reveal_strlit(" ");
    assert(is_ascii_chars("\r\n"@));
    is_ascii_chars_encode_utf8("\r\n"@);
    assert(is_ascii_chars(" "@));
    is_ascii_chars_encode_utf8(" "@);
}

/// What one CRLF-bounded read with a scratch buffer of `cap` bytes yields:
/// the line's characters and the stream after the terminator, or the error
/// of the scan.
pub enum LineOutcome {
    Line { chars: Seq<char>, rest: Seq<u8> },
    Fail { err: ChannelError },
}

pub open spec fn next_line(s: Seq<u8>, cap: nat) -> LineOutcome {
    match scan_outcome(s, crlf_bytes(), cap) {
        ScanOutcome::Found { data, used } => if valid_utf8(data) {
            LineOutcome::Line { chars: decode_utf8(data), rest: s.skip(used) }
        } else {
            LineOutcome::Fail { err: ChannelError::InvalidString }
        },
        ScanOutcome::Mismatch { used } => LineOutcome::Fail {
            err: ChannelError::InvalidDelimiterChar,
        },
        ScanOutcome::Starved => LineOutcome::Fail { err: ChannelError::EndOfStream },
        ScanOutcome::Overflow => LineOutcome::Fail { err: ChannelError::BufferFull },
    }
}

/// A line consumes its own bytes and its terminator.
proof fn lemma_next_line_consumes(s: Seq<u8>, cap: nat)
    ensures
        next_line(s, cap) matches LineOutcome::Line { chars, rest } ==> {
            &&& rest.len() < s.len()
            &&& encode_utf8(chars) == s.take(s.len() - rest.len() - 2)
        },
{
    lemma_delim_bytes();
    traits::lemma_scan_found(s, crlf_bytes(), cap);
    match scan_outcome(s, crlf_bytes(), cap) {
        ScanOutcome::Found { data, used } => {
            if valid_utf8(data) {
                decode_utf8_encode_utf8(data);
            }
        },
        _ => {},
    }
}

/// What parsing the bytes of one status line yields: the status code and
/// the reason phrase, after the version token was checked. The line is
/// split at single spaces by the same delimiter scan that reads it off
/// the wire, with a scratch buffer of `cap` bytes; the reason is whatever
/// remains, up to the buffer's size.
pub open spec fn parse_status_line(lb: Seq<u8>, cap: nat) -> Result<(u16, Seq<char>), HttpError> {
    match scan_outcome(lb, sp_bytes(), cap) {
        ScanOutcome::Found { data: vb, used } => if !valid_utf8(vb) {
            Err(HttpError::ChannelError(ChannelError::InvalidString))
        } else if decode_utf8(vb) != "HTTP/1.0"@ && decode_utf8(vb) != "HTTP/1.1"@ {
            Err(HttpError::InvalidVersion)
        } else {
            let rest1 = lb.skip(used);
            match scan_outcome(rest1, sp_bytes(), cap) {
                ScanOutcome::Found { data: cb, used: u2 } => if !valid_utf8(cb) {
                    Err(HttpError::ChannelError(ChannelError::InvalidString))
                } else {
                    match decimal::parse_u16_spec(decode_utf8(cb)) {
                        Some(code) => {
                            let rb = rest1.skip(u2);
                            let n = if cap <= rb.len() {
                                cap as int
                            } else {
                                rb.len() as int
                            };
                            if valid_utf8(rb.take(n)) {
                                Ok((code, decode_utf8(rb.take(n))))
                            } else {
                                Err(HttpError::ChannelError(ChannelError::InvalidString))
                            }
                        },
                        None => Err(HttpError::InvalidStatusCode),
                    }
                },
                ScanOutcome::Mismatch { used: u3 } => Err(
                    HttpError::ChannelError(ChannelError::InvalidDelimiterChar),
                ),
                ScanOutcome::Starved => Err(HttpError::ChannelError(ChannelError::EndOfStream)),
                ScanOutcome::Overflow => Err(HttpError::ChannelError(ChannelError::BufferFull)),
            }
        },
        ScanOutcome::Mismatch { used } => Err(
            HttpError::ChannelError(ChannelError::InvalidDelimiterChar),
        ),
        ScanOutcome::Starved => Err(HttpError::ChannelError(ChannelError::EndOfStream)),
        ScanOutcome::Overflow => Err(HttpError::ChannelError(ChannelError::BufferFull)),
    }
}

/// The header section of a response: each line up to the empty one is
/// split at the first space into a name token and a raw value (truncated
/// to the scratch buffer's size); the stream after the empty line is the
/// body.
pub enum HeaderFieldsOutcome {
    Fields { items: Seq<(Seq<char>, Seq<u8>)>, rest: Seq<u8> },
    Fail { err: HttpError },
}

pub open spec fn parse_header_fields(s: Seq<u8>, cap: nat) -> HeaderFieldsOutcome
    decreases s.len(),
{
    match next_line(s, cap) {
        LineOutcome::Fail { err } => HeaderFieldsOutcome::Fail { err: HttpError::ChannelError(err) },
        LineOutcome::Line { chars, rest } => {
            if chars.len() == 0 {
                HeaderFieldsOutcome::Fields { items: Seq::empty(), rest }
            } else if rest.len() < s.len() {
                let lb = encode_utf8(chars);
                match scan_outcome(lb, sp_bytes(), cap) {
                    ScanOutcome::Found { data: nb, used } => if !valid_utf8(nb) {
                        HeaderFieldsOutcome::Fail {
                            err: HttpError::ChannelError(ChannelError::InvalidString),
                        }
                    } else {
                        let vb = lb.skip(used);
                        let value = vb.take(
                            if cap <= vb.len() {
                                cap as int
                            } else {
                                vb.len() as int
                            },
                        );
                        match parse_header_fields(rest, cap) {
                            HeaderFieldsOutcome::Fields { items, rest: r2 } => {
                                HeaderFieldsOutcome::Fields {
                                    items: seq![(decode_utf8(nb), value)] + items,
                                    rest: r2,
                                }
                            },
                            HeaderFieldsOutcome::Fail { err } => HeaderFieldsOutcome::Fail { err },
                        }
                    },
                    ScanOutcome::Mismatch { used } => HeaderFieldsOutcome::Fail {
                        err: HttpError::ChannelError(ChannelError::InvalidDelimiterChar),
                    },
                    ScanOutcome::Starved => HeaderFieldsOutcome::Fail {
                        err: HttpError::ChannelError(ChannelError::EndOfStream),
                    },
                    ScanOutcome::Overflow => HeaderFieldsOutcome::Fail {
                        err: HttpError::ChannelError(ChannelError::BufferFull),
                    },
                }
            } else {
                // unreachable: a line always consumes at least its terminator
                HeaderFieldsOutcome::Fail { err: HttpError::UnknownError }
            }
        },
    }
}

/// Every header field's raw value decodes as UTF-8.
pub open spec fn all_values_utf8(hs: Seq<(Seq<char>, Seq<u8>)>) -> bool
    decreases hs.len(),
{
    hs.len() == 0 || (valid_utf8(hs[0].1) && all_values_utf8(hs.drop_first()))
}

proof fn lemma_all_values_index(hs: Seq<(Seq<char>, Seq<u8>)>, i: int)
    requires
        all_values_utf8(hs),
        0 <= i < hs.len(),
    ensures
        valid_utf8(hs[i].1),
    decreases i,
{
    if i > 0 {
        lemma_all_values_index(hs.drop_first(), i - 1);
    }
}

/// The stored header pairs are exactly the fields the filter accepted, in
/// wire order: each stored pair names the field's token and carries its
/// decoded value, and each skipped field was rejected by the filter.
pub open spec fn stored_headers_ok<F: Fn(HttpHeader) -> bool>(
    f: F,
    fields: Seq<(Seq<char>, Seq<u8>)>,
    stored: Seq<(HttpHeader, String)>,
) -> bool
    decreases fields.len(),
{
    if fields.len() == 0 {
        stored.len() == 0
    } else {
        ||| (stored.len() > 0 && header_matches(stored[0].0, fields[0].0) && call_ensures(
            f,
            (stored[0].0,),
            true,
        ) && valid_utf8(fields[0].1) && stored[0].1@ == decode_utf8(fields[0].1)
            && stored_headers_ok(f, fields.drop_first(), stored.drop_first()))
        ||| ((exists|h: HttpHeader|
            header_matches(h, fields[0].0) && call_ensures(f, (h,), false)) && stored_headers_ok(
            f,
            fields.drop_first(),
            stored,
        ))
    }
}

proof fn lemma_stored_concat<F: Fn(HttpHeader) -> bool>(
    f: F,
    a: Seq<(Seq<char>, Seq<u8>)>,
    sa: Seq<(HttpHeader, String)>,
    b: Seq<(Seq<char>, Seq<u8>)>,
    sb: Seq<(HttpHeader, String)>,
)
    requires
        stored_headers_ok(f, a, sa),
        stored_headers_ok(f, b, sb),
    ensures
        stored_headers_ok(f, a + b, sa + sb),
    decreases a.len(),
{
    if a.len() == 0 {
        assert(a + b =~= b);
        assert(sa + sb =~= sb);
    } else {
        assert((a + b).drop_first() =~= a.drop_first() + b);
        assert((a + b)[0] == a[0]);
        if sa.len() > 0 && header_matches(sa[0].0, a[0].0) && call_ensures(f, (sa[0].0,), true)
            && valid_utf8(a[0].1) && sa[0].1@ == decode_utf8(a[0].1) && stored_headers_ok(
            f,
            a.drop_first(),
            sa.drop_first(),
        ) {
            lemma_stored_concat(f, a.drop_first(), sa.drop_first(), b, sb);
            assert((sa + sb).drop_first() =~= sa.drop_first() + sb);
            assert((sa + sb)[0] == sa[0]);
        } else {
            lemma_stored_concat(f, a.drop_first(), sa, b, sb);
        }
    }
}

/// Fills a scratch buffer of `n` zero bytes.
fn zero_vec(n: usize) -> (r: Vec<u8>)
    ensures
        r@.len() == n,
{
    let mut out: Vec<u8> = Vec::new();
    let mut k: usize = 0;
    while k < n
        invariant
            k <= n,
            out@.len() == k,
        decreases n - k,
    {
        out.push(0u8);
        k = k + 1;
    }
    out
}


/// Reads header lines until the empty one, converting each name through
/// the header vocabulary and storing the value exactly when the filter
/// accepts the header; rejected headers are still read off the wire.
#[verifier::loop_isolation(false)]
#[verifier::rlimit(100)]
fn read_header_fields<C: Channel, F: Fn(HttpHeader) -> bool>(
    channel: &mut C,
    filter: F,
    buffer: &mut Vec<u8>,
) -> (r: Result<Vec<(HttpHeader, String)>, HttpError>)
    requires
        old(buffer)@.len() == 256,
        forall|h: HttpHeader| call_requires(filter, (h,)),
    ensures
        final(buffer)@.len() == 256,
        final(channel).reliable() == old(channel).reliable(),
        final(channel).connection() == old(channel).connection(),
        final(channel).outgoing() == old(channel).outgoing(),
        match r {
            Ok(hs) => parse_header_fields(old(channel).incoming(), 256) matches
                HeaderFieldsOutcome::Fields { items, rest } && (stored_headers_ok(
                filter,
                items,
                hs@,
            ) && final(channel).incoming() == rest),
            Err(e) => old(channel).reliable() ==> match parse_header_fields(
                old(channel).incoming(),
                256,
            ) {
                // An accepted header value that is not UTF-8 aborts the loop
                // before later lines are read, so it can also preempt a
                // malformed line further down the section.
                HeaderFieldsOutcome::Fail { err } => e == err || e == HttpError::ChannelError(
                    ChannelError::InvalidString,
                ),
                HeaderFieldsOutcome::Fields { items, rest } => e == HttpError::ChannelError(
                    ChannelError::InvalidString,
                ) && !all_values_utf8(items),
            },
        },
        (old(channel).reliable() && (parse_header_fields(old(channel).incoming(), 256) matches
            HeaderFieldsOutcome::Fields { items, rest } && all_values_utf8(items))) ==> r is Ok,
{
    proof {
        lemma_delim_bytes();
    }
    // Read headers.
    let ghost rest0 = channel.incoming();
    let ghost mut cur = rest0;
    let ghost mut so_far: Seq<(Seq<char>, Seq<u8>)> = Seq::empty();
    let ghost out_snap = channel.outgoing();
    let mut headers: Vec<(HttpHeader, String)> = Vec::new();
    proof {
        match parse_header_fields(rest0, 256) {
            HeaderFieldsOutcome::Fields { items, rest } => {
                assert(so_far + items =~= items);
            },
            HeaderFieldsOutcome::Fail { err } => {},
        }
    }
    let mut done = false;
    while !done
        invariant
            buffer@.len() == 256,
            channel.reliable() == old(channel).reliable(),
            channel.connection() == old(channel).connection(),
            channel.outgoing() == out_snap,
            cur == channel.incoming(),
            stored_headers_ok(filter, so_far, headers@),
            !done ==> match parse_header_fields(cur, 256) {
                HeaderFieldsOutcome::Fields { items, rest } => parse_header_fields(rest0, 256)
                    == (HeaderFieldsOutcome::Fields { items: so_far + items, rest }),
                HeaderFieldsOutcome::Fail { err } => parse_header_fields(rest0, 256)
                    == (HeaderFieldsOutcome::Fail { err }),
            },
            done ==> parse_header_fields(rest0, 256) == (HeaderFieldsOutcome::Fields {
                items: so_far,
                rest: channel.incoming(),
            }),
        decreases cur.len(),
    {
        let line = match channel.read_string_until(buffer, "\r\n") {
            Ok(s) => s,
            Err(e) => { return Err(HttpError::ChannelError(e)) },
        };
        let ghost lc = line@;
        let ghost cur2 = channel.incoming();
        proof {
            lemma_next_line_consumes(cur, 256);
            assert(next_line(cur, 256) == (LineOutcome::Line { chars: lc, rest: cur2 }));
        }
        if line.as_str().is_empty() {
            proof {
                assert(so_far + Seq::<(Seq<char>, Seq<u8>)>::empty() =~= so_far);
                cur = cur2;
            }
            done = true;
            continue ;
        }

        let mut line_channel2 = StringChannel::new(line.as_str());
        let header_name = match line_channel2.read_string_until(buffer, " ") {
            Ok(s) => s,
            Err(e) => { return Err(HttpError::ChannelError(e)) },
        };
        let ghost hlb = encode_utf8(lc);
        let ghost field: (Seq<char>, Seq<u8>) = match scan_outcome(hlb, sp_bytes(), 256) {
            ScanOutcome::Found { data: nb, used } => {
                let vb = hlb.skip(used);
                (
                    decode_utf8(nb),
                    vb.take(
                        if 256 <= vb.len() {
                            256 as int
                        } else {
                            vb.len() as int
                        },
                    ),
                )
            },
            _ => (Seq::empty(), Seq::empty()),
        };
        proof {
            assert(field.0 == header_name@);
        }

        // Check if we are interested in this header before reading the value.
        let header_for_filter = HttpHeader::from(header_name.clone());
        let ghost h_arg = header_for_filter;
        let keep = filter(header_for_filter);
        if keep {
            // The value is the remainder of the line.
            let ghost vb2 = line_channel2.incoming();
            let size2 = match line_channel2.read_to_end(buffer, 256) {
                Ok(n) => n,
                Err(e) => { return Err(HttpError::ChannelError(e)) },
            };
            let value_bytes = traits::vec_prefix(buffer, size2);
            proof {
                assert(value_bytes@ =~= vb2.take(size2 as int));
                assert(field.1 == value_bytes@);
            }
            let header_value = match traits::vec_to_string(value_bytes) {
                Some(st) => st,
                None => {
                    proof {
                        match parse_header_fields(rest0, 256) {
                            HeaderFieldsOutcome::Fields { items, rest } => {
                                match parse_header_fields(cur2, 256) {
                                    HeaderFieldsOutcome::Fields { items: i2, rest: r2 } => {
                                        assert(items == so_far + (seq![field] + i2));
                                        assert(items[so_far.len() as int] == field);
                                        if all_values_utf8(items) {
                                            lemma_all_values_index(
                                                items,
                                                so_far.len() as int,
                                            );
                                            assert(false);
                                        }
                                    },
                                    HeaderFieldsOutcome::Fail { err } => {},
                                }
                            },
                            HeaderFieldsOutcome::Fail { err } => {},
                        }
                    }
                    return Err(HttpError::ChannelError(ChannelError::InvalidString));
                },
            };
            let header_stored = HttpHeader::from(header_name);
            proof {
                assert(h_arg == header_stored);
                let single_f = seq![field];
                let single_s = seq![(header_stored, header_value)];
                assert(single_f[0] == field);
                assert(single_s[0] == (header_stored, header_value));
                assert(single_f.drop_first() =~= Seq::<(Seq<char>, Seq<u8>)>::empty());
                assert(single_s.drop_first() =~= Seq::<(HttpHeader, String)>::empty());
                assert(stored_headers_ok(
                    filter,
                    Seq::<(Seq<char>, Seq<u8>)>::empty(),
                    Seq::<(HttpHeader, String)>::empty(),
                ));
                assert(header_matches(single_s[0].0, single_f[0].0));
                assert(call_ensures(filter, (single_s[0].0,), true));
                assert(valid_utf8(single_f[0].1));
                assert(single_s[0].1@ == decode_utf8(single_f[0].1));
                assert(stored_headers_ok(filter, single_f, single_s));
                lemma_stored_concat(filter, so_far, headers@, single_f, single_s);
            }
            let ghost pre_headers = headers@;
            headers.push((header_stored, header_value));
            proof {
                assert(headers@ =~= pre_headers + seq![(header_stored, header_value)]);
            }
        } else {
            proof {
                assert(header_matches(h_arg, field.0) && call_ensures(filter, (h_arg,), false));
                assert(exists|h: HttpHeader|
                    header_matches(h, field.0) && call_ensures(filter, (h,), false));
                let single_f = seq![field];
                assert(single_f[0] == field);
                assert(single_f.drop_first() =~= Seq::<(Seq<char>, Seq<u8>)>::empty());
                assert(stored_headers_ok(
                    filter,
                    Seq::<(Seq<char>, Seq<u8>)>::empty(),
                    Seq::<(HttpHeader, String)>::empty(),
                ));
                assert(stored_headers_ok(
                    filter,
                    single_f,
                    Seq::<(HttpHeader, String)>::empty(),
                ));
                lemma_stored_concat(
                    filter,
                    so_far,
                    headers@,
                    single_f,
                    Seq::<(HttpHeader, String)>::empty(),
                );
                assert(headers@ + Seq::<(HttpHeader, String)>::empty() =~= headers@);
            }
        }
        proof {
            match parse_header_fields(cur2, 256) {
                HeaderFieldsOutcome::Fields { items, rest } => {
                    assert(so_far + (seq![field] + items) =~= (so_far + seq![field]) + items);
                },
                HeaderFieldsOutcome::Fail { err } => {},
            }
            cur = cur2;
            so_far = so_far + seq![field];
        }
    }


    Ok(headers)
}

impl<T: Channel> Client<T> {
    /// What a verb method leaves behind: the method and URL are recorded
    /// and the exchange is ready to be opened.
    pub open spec fn requested(pre: Self, post: Self, method: HttpMethod, url: Seq<char>) -> bool {
        &&& post.channel == pre.channel
        &&& post.state == ClientState::Created
        &&& post.method == method
        &&& post.url@ == url
        &&& post.headers_flushed == pre.headers_flushed
    }

    /// A fresh client over `channel`. It stands in the `Error` state
    /// until a verb method records a request.
    pub fn new(channel: T) -> (r: Self)
        ensures
            r.channel == channel,
            r.state == ClientState::Error,
            r.method == HttpMethod::Get,
            r.url@ == Seq::<char>::empty(),
            !r.headers_flushed,
    {
        Client {
            channel,
            state: ClientState::Error,
            method: HttpMethod::Get,
            url: String::new(),
            headers_flushed: false,
        }
    }

    fn request(&mut self, method: HttpMethod, url: &str)
        ensures
            Self::requested(*old(self), *final(self), method, url@),
    {
        self.url = String::from_str(url);
        self.method = method;
        self.state = ClientState::Created;
    }

    pub fn get(&mut self, url: &str)
        ensures
            Self::requested(*old(self), *final(self), HttpMethod::Get, url@),
    {
        self.request(HttpMethod::Get, url)
    }

    pub fn head(&mut self, url: &str)
        ensures
            Self::requested(*old(self), *final(self), HttpMethod::Head, url@),
    {
        self.request(HttpMethod::Head, url)
    }

    pub fn post(&mut self, url: &str)
        ensures
            Self::requested(*old(self), *final(self), HttpMethod::Post, url@),
    {
        self.request(HttpMethod::Post, url)
    }

    pub fn put(&mut self, url: &str)
        ensures
            Self::requested(*old(self), *final(self), HttpMethod::Put, url@),
    {
        self.request(HttpMethod::Put, url)
    }

    pub fn delete(&mut self, url: &str)
        ensures
            Self::requested(*old(self), *final(self), HttpMethod::Delete, url@),
    {
        self.request(HttpMethod::Delete, url)
    }

    /// Parses the recorded URL, opens the transport — with TLS exactly
    /// when the scheme is `https` — and writes the request line and the
    /// mandatory `Host` header. Any failure leaves the client in `Error`.
    pub fn open(&mut self) -> (r: Result<(), HttpError>)
        requires
            old(self).state == ClientState::Created,
        ensures
            final(self).method == old(self).method,
            final(self).url == old(self).url,
            final(self).headers_flushed == old(self).headers_flushed,
            final(self).channel.incoming() == old(self).channel.incoming(),
            final(self).channel.reliable() == old(self).channel.reliable(),
            match r {
                Ok(_) => ({
                    &&& final(self).state == ClientState::HeadersOrBody
                    &&& parse_url_spec(old(self).url@) matches Ok(m) && (m.0 == "http"@ || m.0
                        == "https"@) && final(self).channel.connection() == Some(
                        (m.1, m.2, m.0 == "https"@),
                    ) && final(self).channel.outgoing() == old(self).channel.outgoing()
                        + request_prefix(old(self).method, m.1, m.3)
                }),
                Err(e) => ({
                    &&& final(self).state == ClientState::Error
                    &&& match parse_url_spec(old(self).url@) {
                        Err(ue) => e == HttpError::BadUrl(ue) && final(self).channel == old(
                            self,
                        ).channel,
                        Ok(m) => if m.0 != "http"@ && m.0 != "https"@ {
                            e == HttpError::UnsupportedScheme && final(self).channel == old(
                                self,
                            ).channel
                        } else {
                            (e matches HttpError::ChannelError(_)) && !old(self).channel.reliable()
                        },
                    }
                }),
            },
            old(self).channel.reliable() && (parse_url_spec(old(self).url@) matches Ok(m) && (m.0
                == "http"@ || m.0 == "https"@)) ==> r is Ok,
    {
        self.state = ClientState::Error;

        // Get the host + port + secure state of the url and open the transport layer.
        let (scheme, host, port, path) = match url::parse_url(self.url.as_str()) {
            Ok(t) => t,
            Err(e) => { return Err(HttpError::BadUrl(e)) },
        };
        let is_http = url::str_eq(scheme, "http");
        let is_https = url::str_eq(scheme, "https");
        if !is_http && !is_https {
            return Err(HttpError::UnsupportedScheme);
        }

        // Open the channel and send the initial part of the request.
        match self.channel.open(host, port, is_https) {
            Ok(_) => (),
            Err(e) => { return Err(HttpError::ChannelError(e)) },
        };
        let verb = self.method.as_str();
        match self.channel.send_str(verb) {
            Ok(_) => (),
            Err(e) => { return Err(HttpError::ChannelError(e)) },
        };
        match self.channel.send_str(" ") {
            Ok(_) => (),
            Err(e) => { return Err(HttpError::ChannelError(e)) },
        };
        match self.channel.send_str(path) {
            Ok(_) => (),
            Err(e) => { return Err(HttpError::ChannelError(e)) },
        };
        match self.channel.send_str(" HTTP/1.1\r\n") {
            Ok(_) => (),
            Err(e) => { return Err(HttpError::ChannelError(e)) },
        };
        // HTTP 1.1's only mandatory header is the Host one.
        let host_name = HttpHeader::Host.as_string();
        match self.channel.send_str(host_name.as_str()) {
            Ok(_) => (),
            Err(e) => { return Err(HttpError::ChannelError(e)) },
        };
        match self.channel.send_str(host) {
            Ok(_) => (),
            Err(e) => { return Err(HttpError::ChannelError(e)) },
        };
        match self.channel.send_str("\r\n") {
            Ok(_) => (),
            Err(e) => { return Err(HttpError::ChannelError(e)) },
        };
        proof {
            assert(self.channel.outgoing() =~= old(self).channel.outgoing() + request_prefix(
                old(self).method,
                host@,
                path@,
            ));
        }

        self.state = ClientState::HeadersOrBody;
        Ok(())
    }

    /// Writes each `(name, value)` pair as a header line, in order.
    #[verifier::loop_isolation(false)]
    pub fn headers(&mut self, headers: &Vec<(HttpHeader, String)>) -> (r: Result<(), HttpError>)
        requires
            old(self).state == ClientState::HeadersOrBody,
        ensures
            final(self).method == old(self).method,
            final(self).url == old(self).url,
            final(self).headers_flushed == old(self).headers_flushed,
            final(self).channel.incoming() == old(self).channel.incoming(),
            final(self).channel.reliable() == old(self).channel.reliable(),
            final(self).channel.connection() == old(self).channel.connection(),
            match r {
                Ok(_) => final(self).state == ClientState::HeadersOrBody && final(self).channel.outgoing() == old(self).channel.outgoing() + header_lines(headers@),
                Err(e) => final(self).state == ClientState::Error && (e matches
                HttpError::ChannelError(_)) && !old(self).channel.reliable(),
            },
            old(self).channel.reliable() ==> r is Ok,
    {
        self.state = ClientState::Error;

        proof {
            assert(header_lines(headers@.take(0)) =~= Seq::<u8>::empty());
            assert(old(self).channel.outgoing() + header_lines(headers@.take(0)) =~= old(self).channel.outgoing());
        }
        let mut i: usize = 0;
        while i < headers.len()
            invariant
                i <= headers@.len(),
                self.method == old(self).method,
                self.url == old(self).url,
                self.headers_flushed == old(self).headers_flushed,
                self.state == ClientState::Error,
                self.channel.incoming() == old(self).channel.incoming(),
                self.channel.reliable() == old(self).channel.reliable(),
                self.channel.connection() == old(self).channel.connection(),
                self.channel.outgoing() == old(self).channel.outgoing() + header_lines(
                    headers@.take(i as int),
                ),
            decreases headers@.len() - i,
        {
            let name = headers[i].0.as_string();
            match self.channel.send_str(name.as_str()) {
                Ok(_) => (),
                Err(e) => { return Err(HttpError::ChannelError(e)) },
            };
            match self.channel.send_str(headers[i].1.as_str()) {
                Ok(_) => (),
                Err(e) => { return Err(HttpError::ChannelError(e)) },
            };
            match self.channel.send_str("\r\n") {
                Ok(_) => (),
                Err(e) => { return Err(HttpError::ChannelError(e)) },
            };
            proof {
                lemma_header_lines_snoc(headers@, i as int);
                assert(self.channel.outgoing() =~= old(self).channel.outgoing() + header_lines(
                    headers@.take(i + 1),
                ));
            }
            i = i + 1;
        }
        proof {
            assert(headers@.take(headers@.len() as int) =~= headers@);
        }

        self.state = ClientState::HeadersOrBody;

        Ok(())
    }

    /// Writes one header line.
    pub fn header(&mut self, name: HttpHeader, value: &str) -> (r: Result<(), HttpError>)
        requires
            old(self).state == ClientState::HeadersOrBody,
        ensures
            final(self).method == old(self).method,
            final(self).url == old(self).url,
            final(self).headers_flushed == old(self).headers_flushed,
            final(self).channel.incoming() == old(self).channel.incoming(),
            final(self).channel.reliable() == old(self).channel.reliable(),
            final(self).channel.connection() == old(self).channel.connection(),
            match r {
                Ok(_) => final(self).state == ClientState::HeadersOrBody && final(self).channel.outgoing() == old(self).channel.outgoing() + header_line(name, value@),
                Err(e) => final(self).state == ClientState::Error && (e matches
                HttpError::ChannelError(_)) && !old(self).channel.reliable(),
            },
            old(self).channel.reliable() ==> r is Ok,
    {
        let mut list: Vec<(HttpHeader, String)> = Vec::new();
        list.push((name, String::from_str(value)));
        let r = self.headers(&list);
        proof {
            assert(list@.drop_first() =~= Seq::<(HttpHeader, String)>::empty());
            if r is Ok {
                assert(header_line(list@[0].0, list@[0].1@) + header_lines(list@.drop_first())
                    =~= header_line(name, value@));
            }
        }
        r
    }

    /// Ends the header section (once) and streams body bytes; `final_state`
    /// tells whether more body may follow.
    fn _send(&mut self, body: &[u8], final_state: ClientState) -> (r: Result<(), HttpError>)
        requires
            old(self).state == ClientState::HeadersOrBody,
        ensures
            final(self).method == old(self).method,
            final(self).url == old(self).url,
            final(self).channel.incoming() == old(self).channel.incoming(),
            final(self).channel.reliable() == old(self).channel.reliable(),
            final(self).channel.connection() == old(self).channel.connection(),
            match r {
                Ok(_) => ({
                    &&& final(self).state == final_state
                    &&& final(self).headers_flushed
                    &&& final(self).channel.outgoing() == old(self).channel.outgoing() + (if old(self).headers_flushed {
                        Seq::<u8>::empty()
                    } else {
                        encode_utf8("\r\n"@)
                    }) + body@
                }),
                Err(e) => final(self).state == ClientState::Error && (e matches
                HttpError::ChannelError(_)) && !old(self).channel.reliable(),
            },
            old(self).channel.reliable() ==> r is Ok,
    {
        self.state = ClientState::Error;

        // Send the empty line after the headers, and then the body if it's not empty.
        if !self.headers_flushed {
            self.headers_flushed = true;
            match self.channel.send_str("\r\n") {
                Ok(_) => (),
                Err(e) => { return Err(HttpError::ChannelError(e)) },
            };
        }

        if body.len() != 0 {
            match self.channel.send(body, body.len()) {
                Ok(_) => (),
                Err(e) => { return Err(HttpError::ChannelError(e)) },
            };
        }
        proof {
            assert(body@.take(body@.len() as int) =~= body@);
            assert(self.channel.outgoing() =~= old(self).channel.outgoing() + (if old(self).headers_flushed {
                Seq::<u8>::empty()
            } else {
                encode_utf8("\r\n"@)
            }) + body@);
        }

        self.state = final_state;

        Ok(())
    }

    /// Sends a part of the body. Can be called multiple times before a `send`.
    pub fn body(&mut self, body: &[u8]) -> (r: Result<(), HttpError>)
        requires
            old(self).state == ClientState::HeadersOrBody,
        ensures
            final(self).method == old(self).method,
            final(self).url == old(self).url,
            final(self).channel.incoming() == old(self).channel.incoming(),
            final(self).channel.reliable() == old(self).channel.reliable(),
            final(self).channel.connection() == old(self).channel.connection(),
            match r {
                Ok(_) => ({
                    &&& final(self).state == ClientState::HeadersOrBody
                    &&& final(self).headers_flushed
                    &&& final(self).channel.outgoing() == old(self).channel.outgoing() + (if old(self).headers_flushed {
                        Seq::<u8>::empty()
                    } else {
                        encode_utf8("\r\n"@)
                    }) + body@
                }),
                Err(e) => final(self).state == ClientState::Error && (e matches
                HttpError::ChannelError(_)) && !old(self).channel.reliable(),
            },
            old(self).channel.reliable() ==> r is Ok,
    {
        self._send(body, ClientState::HeadersOrBody)
    }

    /// Last or single send of a sequence; the request is complete after it.
    pub fn send(&mut self, body: &[u8]) -> (r: Result<(), HttpError>)
        requires
            old(self).state == ClientState::HeadersOrBody,
        ensures
            final(self).method == old(self).method,
            final(self).url == old(self).url,
            final(self).channel.incoming() == old(self).channel.incoming(),
            final(self).channel.reliable() == old(self).channel.reliable(),
            final(self).channel.connection() == old(self).channel.connection(),
            match r {
                Ok(_) => ({
                    &&& final(self).state == ClientState::ReadResponse
                    &&& final(self).headers_flushed
                    &&& final(self).channel.outgoing() == old(self).channel.outgoing() + (if old(self).headers_flushed {
                        Seq::<u8>::empty()
                    } else {
                        encode_utf8("\r\n"@)
                    }) + body@
                }),
                Err(e) => final(self).state == ClientState::Error && (e matches
                HttpError::ChannelError(_)) && !old(self).channel.reliable(),
            },
            old(self).channel.reliable() ==> r is Ok,
    {
        self._send(body, ClientState::ReadResponse)
    }

    /// Reads and parses the status line and the header block, storing
    /// exactly the header pairs the filter accepts, in wire order, and
    /// leaves the channel standing at the first byte of the body. Called
    /// while still in `HeadersOrBody`, it performs the implicit empty
    /// `send` first, so GET-style requests may skip `body` and `send`.
    #[verifier::loop_isolation(false)]
    #[verifier::rlimit(100)]
    pub fn response<F: Fn(HttpHeader) -> bool>(&mut self, filter: F) -> (r: Result<
        Response,
        HttpError,
    >)
        requires
            old(self).state == ClientState::HeadersOrBody || old(self).state
                == ClientState::ReadResponse,
            forall|h: HttpHeader| call_requires(filter, (h,)),
        ensures
            final(self).method == old(self).method,
            final(self).url == old(self).url,
            final(self).channel.reliable() == old(self).channel.reliable(),
            final(self).channel.connection() == old(self).channel.connection(),
            r is Ok ==> final(self).state == ClientState::Done,
            r is Err ==> final(self).state == ClientState::Error,
            ({
                let s = old(self).channel.incoming();
                match r {
                    Ok(resp) => (next_line(s, 256) matches LineOutcome::Line { chars, rest }
                        && (parse_status_line(encode_utf8(chars), 256) matches Ok(pr) && (
                        resp.status_code == pr.0 && resp.status@ == pr.1 && (parse_header_fields(
                            rest,
                            256,
                        ) matches HeaderFieldsOutcome::Fields { items, rest: body } && (
                        stored_headers_ok(filter, items, resp.headers@) && final(self).channel.incoming() == body))))),
                    Err(e) => old(self).channel.reliable() ==> match next_line(s, 256) {
                        LineOutcome::Fail { err } => e == HttpError::ChannelError(err),
                        LineOutcome::Line { chars, rest } => match parse_status_line(
                            encode_utf8(chars),
                            256,
                        ) {
                            // A bad status line is reported before any header
                            // is read: the channel still stands at the header
                            // section.
                            Err(se) => e == se && final(self).channel.incoming() == rest,
                            Ok(pr) => match parse_header_fields(rest, 256) {
                                // An accepted header value that is not UTF-8
                                // aborts before later lines are read, so it
                                // can also preempt a malformed line further
                                // down the section.
                                HeaderFieldsOutcome::Fail { err } => e == err || e
                                    == HttpError::ChannelError(ChannelError::InvalidString),
                                HeaderFieldsOutcome::Fields { items, rest: body } => e
                                    == HttpError::ChannelError(ChannelError::InvalidString)
                                    && !all_values_utf8(items),
                            },
                        },
                    },
                }
            }),
            ({
                // The implicit empty send: entered in `HeadersOrBody`, the
                // header/body separator goes out (once); entered in
                // `ReadResponse`, nothing is sent.
                let sep = if old(self).state == ClientState::HeadersOrBody && !old(
                    self,
                ).headers_flushed {
                    encode_utf8("\r\n"@)
                } else {
                    Seq::<u8>::empty()
                };
                &&& (r is Ok || old(self).channel.reliable()) ==> final(self).channel.outgoing()
                    == old(self).channel.outgoing() + sep
                &&& (r is Ok || old(self).channel.reliable()) ==> final(self).headers_flushed == (
                old(self).headers_flushed || old(self).state == ClientState::HeadersOrBody)
            }),
            (old(self).channel.reliable() && (next_line(old(self).channel.incoming(), 256) matches
                LineOutcome::Line { chars, rest } && (parse_status_line(encode_utf8(chars), 256)
                is Ok && (parse_header_fields(rest, 256) matches HeaderFieldsOutcome::Fields {
                items,
                rest: b2,
            } && all_values_utf8(items))))) ==> r is Ok,
    {
        // Some methods don't need a body, so if we are in HeadersOrBody state,
        // just trigger an empty send().
        if self.state == ClientState::HeadersOrBody {
            match self.send(&[]) {
                Ok(_) => (),
                Err(e) => { return Err(e) },
            };
        }
        self.state = ClientState::Error;

        let ghost s0 = self.channel.incoming();
        proof {
            lemma_delim_bytes();
        }

        let mut buffer = zero_vec(256);

        let status_line = match self.channel.read_string_until(&mut buffer, "\r\n") {
            Ok(s) => s,
            Err(e) => { return Err(HttpError::ChannelError(e)) },
        };
        let ghost lb = encode_utf8(status_line@);
        proof {
            assert(next_line(s0, 256) matches LineOutcome::Line { chars, rest } && chars
                == status_line@ && rest == self.channel.incoming());
        }

        let mut line_channel = StringChannel::new(status_line.as_str());
        let http_version = match line_channel.read_string_until(&mut buffer, " ") {
            Ok(v) => v,
            Err(e) => { return Err(HttpError::ChannelError(e)) },
        };
        // Accept both HTTP 1.0 and 1.1.
        if !url::str_eq(http_version.as_str(), "HTTP/1.0") && !url::str_eq(
            http_version.as_str(),
            "HTTP/1.1",
        ) {
            proof {
                assert(parse_status_line(lb, 256) matches Err(se) && se
                    == HttpError::InvalidVersion);
            }
            return Err(HttpError::InvalidVersion);
        }
        let code_str = match line_channel.read_string_until(&mut buffer, " ") {
            Ok(v) => v,
            Err(e) => { return Err(HttpError::ChannelError(e)) },
        };
        let status_code = match decimal::parse_u16(code_str.as_str()) {
            Some(c) => c,
            None => {
                proof {
                    assert(parse_status_line(lb, 256) matches Err(se) && se
                        == HttpError::InvalidStatusCode);
                }
                return Err(HttpError::InvalidStatusCode);
            },
        };

        // The status is the remainder of the line.
        let ghost rb = line_channel.incoming();
        let size = match line_channel.read_to_end(&mut buffer, 256) {
            Ok(n) => n,
            Err(e) => { return Err(HttpError::ChannelError(e)) },
        };
        let reason_bytes = traits::vec_prefix(&buffer, size);
        proof {
            assert(reason_bytes@ =~= rb.take(size as int));
        }
        let status = match traits::vec_to_string(reason_bytes) {
            Some(st) => st,
            None => {
                proof {
                    assert(parse_status_line(lb, 256) matches Err(se) && (se
                        == HttpError::ChannelError(ChannelError::InvalidString)));
                }
                return Err(HttpError::ChannelError(ChannelError::InvalidString));
            },
        };
        proof {
            assert(parse_status_line(lb, 256) matches Ok(pr) && pr.0 == status_code && pr.1
                == status@);
        }

        // Read headers.
        let headers = match read_header_fields(&mut self.channel, filter, &mut buffer) {
            Ok(hs) => hs,
            Err(e) => { return Err(e) },
        };

        self.state = ClientState::Done;
        Ok(Response { status_code, status, headers })
    }
}

} // verus!
