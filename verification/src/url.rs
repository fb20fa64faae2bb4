//! A simple URL parser (no IDNA support).
//!
//! [`parse_url`] splits `scheme://host[:port][/path][#fragment]` by purely
//! positional scanning; [`parse_url_spec`] is the mathematical model it is
//! proved against.

use vstd::prelude::*;
use vstd::string::*;
use vstd::utf8::*;

use crate::decimal::{dec_token_value, is_dec_digit, lemma_dec_token_digits, parse_u16, parse_u16_spec};

verus! {

/// Why a URL failed to parse.
#[derive(Clone, Copy, Debug, PartialEq, Eq, Structural)]
pub enum UrlParsingError {
    /// A component was not valid UTF-8.
    Utf8Error,
    /// A port token was not a number in range.
    ParseIntError,
    /// A required delimiter was missing.
    DelimiterNotFound,
    /// Anything else.
    UnexpectedError,
}

/// Length of the longest prefix of `s` in which the character `c` does
/// not occur. Equals `s.len()` when `c` does not occur at all.
pub open spec fn char_prefix(s: Seq<char>, c: char) -> nat
    decreases s.len(),
{
    if s.len() == 0 {
        0
    } else if s[0] == c {
        0
    } else {
        (1 + char_prefix(s.skip(1), c)) as nat
    }
}

/// True when `c` occurs in `s`.
pub open spec fn has_char(s: Seq<char>, c: char) -> bool {
    char_prefix(s, c) < s.len()
}

pub proof fn lemma_char_prefix(s: Seq<char>, c: char)
    ensures
        char_prefix(s, c) <= s.len(),
        char_prefix(s, c) < s.len() ==> s[char_prefix(s, c) as int] == c,
    decreases s.len(),
{
    if s.len() == 0 {
    } else if s[0] == c {
    } else {
        lemma_char_prefix(s.skip(1), c);
        let p = char_prefix(s, c) as int;
        if p < s.len() {
            assert(s.skip(1)[p - 1] == s[p]);
        }
    }
}

/// A scan that saw no occurrence of `c` before position `i` and one at
/// `i` has found exactly the prefix that `char_prefix` names.
pub proof fn lemma_char_prefix_stops(s: Seq<char>, c: char, i: int)
    requires
        0 <= i <= char_prefix(s, c),
        i < s.len(),
        s[i] == c,
    ensures
        char_prefix(s, c) == i,
    decreases i,
{
    if i > 0 {
        lemma_char_prefix_stops(s.skip(1), c, i - 1);
        assert(s.skip(1)[i - 1] == s[i]);
    }
}

/// Dropping `m` characters from the front, all before the first
/// occurrence of `c`, moves that occurrence `m` places forward.
pub proof fn lemma_char_prefix_skip(s: Seq<char>, c: char, m: int)
    requires
        0 <= m <= char_prefix(s, c),
        m <= s.len(),
    ensures
        char_prefix(s.skip(m), c) == char_prefix(s, c) - m,
    decreases m,
{
    if m > 0 {
        assert(s.skip(m) =~= s.skip(1).skip(m - 1));
        lemma_char_prefix_skip(s.skip(1), c, m - 1);
    } else {
        assert(s.skip(0) =~= s);
    }
}

/// Position of the first occurrence of `delim` in `input`, in characters.
#[verifier::loop_isolation(false)]
pub fn first_pos_of(input: &str, delim: char) -> (r: Option<usize>)
    ensures
        match r {
            Some(i) => i as nat == char_prefix(input@, delim) && i < input@.len()
                && input@[i as int] == delim,
            None => char_prefix(input@, delim) == input@.len(),
        },
{
    let n = input.unicode_len();
    let mut k: usize = 0;
    while k < n
        invariant
            k <= n,
            n == input@.len(),
            k as int <= char_prefix(input@, delim),
        decreases n - k,
    {
        if input.get_char(k) == delim {
            proof {
                lemma_char_prefix_stops(input@, delim, k as int);
            }
            return Some(k);
        }
        proof {
            lemma_char_prefix(input@, delim);
            if k as int == char_prefix(input@, delim) {
                assert(input@[k as int] == delim);
                assert(false);
            }
        }
        k = k + 1;
    }
    proof {
        lemma_char_prefix(input@, delim);
    }
    None
}

/// Splits `input` at the first occurrence of `delim`. Returns the part
/// after the delimiter and the part before it; the delimiter is dropped.
pub fn until_and_consume<'a>(input: &'a str, delim: char) -> (r: Result<
    (&'a str, &'a str),
    UrlParsingError,
>)
    ensures
        ({
            let q = char_prefix(input@, delim) as int;
            match r {
                Ok((after, before)) => q < input@.len() && after@ == input@.skip(q + 1) && before@
                    == input@.take(q),
                Err(e) => e == UrlParsingError::DelimiterNotFound && q == input@.len(),
            }
        }),
{
    let n = input.unicode_len();
    match first_pos_of(input, delim) {
        Some(i) => {
            let before = input.substring_char(0, i);
            let after = input.substring_char(i + 1, n);
            proof {
                assert(before@ =~= input@.take(i as int));
                assert(after@ =~= input@.skip(i + 1));
            }
            Ok((after, before))
        },
        None => Err(UrlParsingError::DelimiterNotFound),
    }
}

/// Splits `input` at the first occurrence of `delim`. Returns the part
/// from the delimiter on and the part before it.
pub fn until<'a>(input: &'a str, delim: char) -> (r: Result<(&'a str, &'a str), UrlParsingError>)
    ensures
        ({
            let q = char_prefix(input@, delim) as int;
            match r {
                Ok((after, before)) => q < input@.len() && after@ == input@.skip(q) && before@
                    == input@.take(q),
                Err(e) => e == UrlParsingError::DelimiterNotFound && q == input@.len(),
            }
        }),
{
    let n = input.unicode_len();
    match first_pos_of(input, delim) {
        Some(i) => {
            let before = input.substring_char(0, i);
            let after = input.substring_char(i, n);
            proof {
                assert(before@ =~= input@.take(i as int));
                assert(after@ =~= input@.skip(i as int));
            }
            Ok((after, before))
        },
        None => Err(UrlParsingError::DelimiterNotFound),
    }
}

/// The port a scheme implies when the URL names none.
pub open spec fn default_port(scheme: Seq<char>) -> u16 {
    if scheme == "http"@ {
        80u16
    } else if scheme == "https"@ {
        443u16
    } else {
        0u16
    }
}

/// A path with its `#fragment` part, if any, cut off.
pub open spec fn strip_fragment(path: Seq<char>) -> Seq<char> {
    if has_char(path, '#') {
        path.take(char_prefix(path, '#') as int)
    } else {
        path
    }
}

/// What `parse_url` returns on the characters `url`: the scheme up to the
/// first `:`, two `/` consumed, then the tail split by the positions of
/// the first `:` and the first `/` into host, optional port and path. The
/// fragment is cut off a path, the port defaults by scheme, and the path
/// defaults to `/`.
pub open spec fn parse_url_spec(url: Seq<char>) -> Result<
    (Seq<char>, Seq<char>, u16, Seq<char>),
    UrlParsingError,
> {
    if !has_char(url, ':') {
        Err(UrlParsingError::DelimiterNotFound)
    } else {
        let scheme = url.take(char_prefix(url, ':') as int);
        let r0 = url.skip(char_prefix(url, ':') as int + 1);
        if !has_char(r0, '/') {
            Err(UrlParsingError::DelimiterNotFound)
        } else {
            let r1 = r0.skip(char_prefix(r0, '/') as int + 1);
            if !has_char(r1, '/') {
                Err(UrlParsingError::DelimiterNotFound)
            } else {
                let rest = r1.skip(char_prefix(r1, '/') as int + 1);
                let cp = char_prefix(rest, ':') as int;
                let sp = char_prefix(rest, '/') as int;
                if has_char(rest, ':') && has_char(rest, '/') && cp < sp {
                    // `host:port/path`: split the host at `:`, the port at `/`.
                    let host = rest.take(cp);
                    let after_colon = rest.skip(cp + 1);
                    let pp = char_prefix(after_colon, '/') as int;
                    let tail = after_colon.skip(pp);
                    match parse_u16_spec(after_colon.take(pp)) {
                        Some(port) => Ok((scheme, host, port, strip_fragment(tail))),
                        None => Err(UrlParsingError::ParseIntError),
                    }
                } else if !has_char(rest, '/') {
                    if has_char(rest, ':') {
                        // `host:port` with no path: the rest of the tail is the port.
                        match parse_u16_spec(rest.skip(cp + 1)) {
                            Some(port) => Ok((scheme, rest.take(cp), port, seq!['/'])),
                            None => Err(UrlParsingError::ParseIntError),
                        }
                    } else {
                        // Bare host: default port, default path.
                        Ok((scheme, rest, default_port(scheme), seq!['/']))
                    }
                } else {
                    // `host/path`, a later `:` being part of the path.
                    Ok(
                        (
                            scheme,
                            rest.take(sp),
                            default_port(scheme),
                            strip_fragment(rest.skip(sp)),
                        ),
                    )
                }
            }
        }
    }
}

/// True when the strings are the same sequence of characters.
#[verifier::loop_isolation(false)]
pub(crate) fn str_eq(a: &str, b: &str) -> (r: bool)
    ensures
        r == (a@ == b@),
{
    let av = a.as_bytes_vec();
    let bv = b.as_bytes_vec();
    proof {
        encode_utf8_decode_utf8(a@);
        encode_utf8_decode_utf8(b@);
    }
    if av.len() != bv.len() {
        return false;
    }
    let n = av.len();
    let mut k: usize = 0;
    while k < n
        invariant
            k <= n,
            n == av@.len(),
            n == bv@.len(),
            av@.take(k as int) == bv@.take(k as int),
        decreases n - k,
    {
        if av[k] != bv[k] {
            return false;
        }
        proof {
            assert(av@.take(k + 1) =~= bv@.take(k + 1));
        }
        k = k + 1;
    }
    proof {
        assert(av@ =~= av@.take(n as int));
        assert(bv@ =~= bv@.take(n as int));
    }
    true
}

/// The default port of a scheme, as [`default_port`] names it.
fn default_port_of(scheme: &str) -> (r: u16)
    ensures
        r == default_port(scheme@),
{
    if str_eq(scheme, "http") {
        80
    } else if str_eq(scheme, "https") {
        443
    } else {
        0
    }
}

/// Cuts a `#fragment` off the path, as [`strip_fragment`] does.
fn strip_frag<'a>(path: &'a str) -> (r: &'a str)
    ensures
        r@ == strip_fragment(path@),
{
    match first_pos_of(path, '#') {
        Some(h) => {
            let r = path.substring_char(0, h);
            proof {
                assert(r@ =~= path@.take(h as int));
            }
            r
        },
        None => path,
    }
}

/// Parses a URL into `(scheme, host, port, path)`, exactly as
/// [`parse_url_spec`] describes.
pub fn parse_url<'a>(url: &'a str) -> (r: Result<(&'a str, &'a str, u16, &'a str), UrlParsingError>)
    ensures
        ({
            match (r, parse_url_spec(url@)) {
                (Ok((scheme, host, port, path)), Ok(m)) => scheme@ == m.0 && host@ == m.1 && port
                    == m.2 && path@ == m.3,
                (Err(e), Err(me)) => e == me,
                _ => false,
            }
        }),
{
    // Get the scheme.
    let (rest0, scheme) = match until_and_consume(url, ':') {
        Ok(p) => p,
        Err(e) => { return Err(e) },
    };

    // Consume the two slashes of `scheme://`.
    let (rest1, _) = match until_and_consume(rest0, '/') {
        Ok(p) => p,
        Err(e) => { return Err(e) },
    };
    let (rest, _) = match until_and_consume(rest1, '/') {
        Ok(p) => p,
        Err(e) => { return Err(e) },
    };

    // Check whether a `:` and/or a `/` follow, and in which order, to tell
    // apart a port number and a non-default path.
    let c_pos = first_pos_of(rest, ':');
    let s_pos = first_pos_of(rest, '/');

    proof {
        reveal_strlit("/");
    }

    match (c_pos, s_pos) {
        (Some(c), Some(sl)) => {
            if c < sl {
                // A `:` before a `/`: split the `host:port` fragment.
                let (after_colon, host) = match until_and_consume(rest, ':') {
                    Ok(p) => p,
                    Err(e) => { return Err(e) },
                };
                proof {
                    lemma_char_prefix_skip(rest@, '/', c + 1);
                }
                let (tail, port_tok) = match until(after_colon, '/') {
                    Ok(p) => p,
                    Err(e) => { return Err(e) },
                };
                match parse_u16(port_tok) {
                    Some(port) => Ok((scheme, host, port, strip_frag(tail))),
                    None => Err(UrlParsingError::ParseIntError),
                }
            } else {
                // The `:` is after the `/`, hence not a port delimiter.
                let (tail, host) = match until(rest, '/') {
                    Ok(p) => p,
                    Err(e) => { return Err(e) },
                };
                Ok((scheme, host, default_port_of(scheme), strip_frag(tail)))
            }
        },
        (Some(_), None) => {
            // No `/` found: the remainder is `host:port`.
            let (port_tok, host) = match until_and_consume(rest, ':') {
                Ok(p) => p,
                Err(e) => { return Err(e) },
            };
            match parse_u16(port_tok) {
                Some(port) => Ok((scheme, host, port, "/")),
                None => Err(UrlParsingError::ParseIntError),
            }
        },
        (None, None) => {
            // Neither found: the remainder is the host alone.
            Ok((scheme, rest, default_port_of(scheme), "/"))
        },
        (None, Some(_)) => {
            // Only a `/`: split host and path.
            let (tail, host) = match until(rest, '/') {
                Ok(p) => p,
                Err(e) => { return Err(e) },
            };
            Ok((scheme, host, default_port_of(scheme), strip_frag(tail)))
        },
    }
}

/// A digit token contains no other character.
proof fn lemma_digits_have_no(p: Seq<char>, c: char)
    requires
        dec_token_value(p) is Some,
        !is_dec_digit(c),
    ensures
        !has_char(p, c),
{
    if has_char(p, c) {
        lemma_char_prefix(p, c);
        lemma_dec_token_digits(p, char_prefix(p, c) as int);
    }
}

/// Scanning past a prefix free of `c` lands on the first occurrence in
/// the remainder.
pub proof fn lemma_char_prefix_concat(a: Seq<char>, b: Seq<char>, c: char)
    requires
        !has_char(a, c),
    ensures
        char_prefix(a + b, c) == a.len() + char_prefix(b, c),
    decreases a.len(),
{
    if a.len() == 0 {
        assert(a + b =~= b);
    } else {
        lemma_char_prefix(a, c);
        assert(char_prefix(a, c) == a.len());
        assert(a[0] != c);
        assert((a + b)[0] == a[0]);
        assert((a + b).skip(1) =~= a.skip(1) + b);
        assert(char_prefix(a.skip(1), c) == a.len() - 1);
        lemma_char_prefix_concat(a.skip(1), b, c);
    }
}

/// The common prefix of every URL this law builds: the scheme, the
/// colon and the two slashes, leaving `tail` as the remainder.
proof fn lemma_wf_url_prefix(scheme: Seq<char>, tail: Seq<char>)
    requires
        !has_char(scheme, ':'),
    ensures
        ({
            let url = scheme + seq![':', '/', '/'] + tail;
            &&& char_prefix(url, ':') == scheme.len()
            &&& has_char(url, ':')
            &&& url.take(scheme.len() as int) == scheme
            &&& char_prefix(url.skip(scheme.len() as int + 1), '/') == 0
            &&& has_char(url.skip(scheme.len() as int + 1), '/')
            &&& char_prefix(url.skip(scheme.len() as int + 1).skip(1), '/') == 0
            &&& has_char(url.skip(scheme.len() as int + 1).skip(1), '/')
            &&& url.skip(scheme.len() as int + 1).skip(1).skip(1) == tail
        }),
{
    let url = scheme + seq![':', '/', '/'] + tail;
    assert(url =~= scheme + (seq![':', '/', '/'] + tail));
    assert((seq![':', '/', '/'] + tail)[0] == ':');
    lemma_char_prefix_concat(scheme, seq![':', '/', '/'] + tail, ':');
    assert(char_prefix(url, ':') == scheme.len());
    assert(url.take(scheme.len() as int) =~= scheme);
    let r0 = url.skip(scheme.len() as int + 1);
    assert(r0 =~= seq!['/', '/'] + tail);
    assert(r0[0] == '/');
    let r1 = r0.skip(1);
    assert(r1 =~= seq!['/'] + tail);
    assert(r1[0] == '/');
    assert(r1.skip(1) =~= tail);
}

/// What a decimal port token never holds, and how the tail parser sees it.
proof fn lemma_wf_port_token(p: Seq<char>)
    requires
        dec_token_value(p) matches Some(v) && v <= 0xffff,
    ensures
        p.len() > 0,
        !has_char(p, ':'),
        !has_char(p, '/'),
        !has_char(p, '#'),
        parse_u16_spec(p) matches Some(w) && (dec_token_value(p) matches Some(v) && w == v as u16),
{
    lemma_dec_token_digits(p, 0);
    assert(p[0] != '+');
    lemma_digits_have_no(p, ':');
    lemma_digits_have_no(p, '/');
    lemma_digits_have_no(p, '#');
}

/// The fragment part, if any, is split off a path that holds no `#`.
proof fn lemma_wf_strip(q: Seq<char>, ff: Seq<char>)
    requires
        !has_char(q, '#'),
        ff.len() > 0 ==> ff[0] == '#',
    ensures
        strip_fragment(q + ff) == q,
{
    if ff.len() == 0 {
        assert(q + ff =~= q);
    } else {
        lemma_char_prefix_concat(q, ff, '#');
        assert(char_prefix(q + ff, '#') == q.len());
        assert((q + ff).take(q.len() as int) =~= q);
    }
}

#[verifier::rlimit(100)]
proof fn lemma_wf_url_port_path(
    scheme: Seq<char>,
    host: Seq<char>,
    p: Seq<char>,
    q: Seq<char>,
    ff: Seq<char>,
)
    requires
        !has_char(scheme, ':'),
        !has_char(host, ':'),
        !has_char(host, '/'),
        dec_token_value(p) matches Some(v) && v <= 0xffff,
        q.len() > 0,
        q[0] == '/',
        !has_char(q, '#'),
        ff.len() > 0 ==> ff[0] == '#',
    ensures
        ({
            let tail = host + (seq![':'] + p) + q + ff;
            parse_url_spec(scheme + seq![':', '/', '/'] + tail) == Ok::<
                (Seq<char>, Seq<char>, u16, Seq<char>),
                UrlParsingError,
            >(
                (
                    scheme,
                    host,
                    match dec_token_value(p) {
                        Some(v) => v as u16,
                        None => 0u16,
                    },
                    q,
                ),
            )
        }),
{
    let pp = seq![':'] + p;
    let tail = host + pp + q + ff;
    lemma_wf_url_prefix(scheme, tail);
    lemma_wf_port_token(p);
    assert(scheme + seq![':', '/', '/'] + tail =~= scheme + seq![':', '/', '/'] + (host + pp + q
        + ff));
    assert(tail =~= host + (pp + (q + ff)));
    assert((pp + (q + ff))[0] == ':');
    lemma_char_prefix_concat(host, pp + (q + ff), ':');
    assert(char_prefix(tail, ':') == host.len());
    assert(has_char(tail, ':'));
    assert(char_prefix(Seq::<char>::empty(), '/') == 0);
    assert(seq![':'][0] == ':');
    assert(seq![':'].skip(1) =~= Seq::<char>::empty());
    assert(char_prefix(seq![':'], '/') == 1);
    assert(!has_char(seq![':'], '/'));
    lemma_char_prefix_concat(seq![':'], p, '/');
    lemma_char_prefix(p, '/');
    assert(char_prefix(p, '/') == p.len());
    assert(char_prefix(pp, '/') == 1 + p.len());
    assert(!has_char(pp, '/'));
    let head = host + pp;
    lemma_char_prefix_concat(host, pp, '/');
    assert(!has_char(head, '/'));
    assert(tail =~= head + (q + ff));
    assert((q + ff)[0] == '/');
    lemma_char_prefix_concat(head, q + ff, '/');
    assert(char_prefix(tail, '/') == head.len());
    assert(has_char(tail, '/'));
    assert(char_prefix(tail, ':') < char_prefix(tail, '/'));
    assert(tail.take(host.len() as int) =~= host);
    let after_colon = tail.skip(host.len() as int + 1);
    assert(after_colon =~= p + (q + ff));
    lemma_char_prefix_concat(p, q + ff, '/');
    assert(char_prefix(after_colon, '/') == p.len());
    assert(after_colon.take(p.len() as int) =~= p);
    assert(after_colon.skip(p.len() as int) =~= q + ff);
    lemma_wf_strip(q, ff);
}

#[verifier::rlimit(100)]
proof fn lemma_wf_url_port_only(scheme: Seq<char>, host: Seq<char>, p: Seq<char>)
    requires
        !has_char(scheme, ':'),
        !has_char(host, ':'),
        !has_char(host, '/'),
        dec_token_value(p) matches Some(v) && v <= 0xffff,
    ensures
        ({
            let tail = host + (seq![':'] + p);
            parse_url_spec(scheme + seq![':', '/', '/'] + tail) == Ok::<
                (Seq<char>, Seq<char>, u16, Seq<char>),
                UrlParsingError,
            >(
                (
                    scheme,
                    host,
                    match dec_token_value(p) {
                        Some(v) => v as u16,
                        None => 0u16,
                    },
                    seq!['/'],
                ),
            )
        }),
{
    let pp = seq![':'] + p;
    let tail = host + pp;
    lemma_wf_url_prefix(scheme, tail);
    lemma_wf_port_token(p);
    assert(pp[0] == ':');
    lemma_char_prefix_concat(host, pp, ':');
    assert(char_prefix(tail, ':') == host.len());
    assert(has_char(tail, ':'));
    assert(char_prefix(Seq::<char>::empty(), '/') == 0);
    assert(seq![':'][0] == ':');
    assert(seq![':'].skip(1) =~= Seq::<char>::empty());
    assert(char_prefix(seq![':'], '/') == 1);
    assert(!has_char(seq![':'], '/'));
    lemma_char_prefix_concat(seq![':'], p, '/');
    lemma_char_prefix(p, '/');
    assert(char_prefix(p, '/') == p.len());
    assert(char_prefix(pp, '/') == 1 + p.len());
    assert(!has_char(pp, '/'));
    lemma_char_prefix_concat(host, pp, '/');
    assert(char_prefix(tail, '/') == tail.len());
    assert(!has_char(tail, '/'));
    assert(tail.take(host.len() as int) =~= host);
    assert(tail.skip(host.len() as int + 1) =~= p);
}

#[verifier::rlimit(100)]
proof fn lemma_wf_url_path_only(scheme: Seq<char>, host: Seq<char>, q: Seq<char>, ff: Seq<char>)
    requires
        !has_char(scheme, ':'),
        !has_char(host, ':'),
        !has_char(host, '/'),
        q.len() > 0,
        q[0] == '/',
        !has_char(q, '#'),
        ff.len() > 0 ==> ff[0] == '#',
    ensures
        ({
            let tail = host + q + ff;
            parse_url_spec(scheme + seq![':', '/', '/'] + tail) == Ok::<
                (Seq<char>, Seq<char>, u16, Seq<char>),
                UrlParsingError,
            >((scheme, host, default_port(scheme), q))
        }),
{
    let tail = host + q + ff;
    lemma_wf_url_prefix(scheme, tail);
    assert(tail =~= host + (q + ff));
    assert((q + ff)[0] == '/');
    lemma_char_prefix_concat(host, q + ff, '/');
    assert(char_prefix(tail, '/') == host.len());
    assert(has_char(tail, '/'));
    if has_char(tail, ':') {
        assert(char_prefix(q + ff, ':') >= 1);
        lemma_char_prefix_concat(host, q + ff, ':');
        assert(char_prefix(tail, ':') > char_prefix(tail, '/'));
    }
    assert(tail.take(host.len() as int) =~= host);
    assert(tail.skip(host.len() as int) =~= q + ff);
    lemma_wf_strip(q, ff);
}

#[verifier::rlimit(100)]
proof fn lemma_wf_url_bare(scheme: Seq<char>, host: Seq<char>)
    requires
        !has_char(scheme, ':'),
        !has_char(host, ':'),
        !has_char(host, '/'),
    ensures
        parse_url_spec(scheme + seq![':', '/', '/'] + host) == Ok::<
            (Seq<char>, Seq<char>, u16, Seq<char>),
            UrlParsingError,
        >((scheme, host, default_port(scheme), seq!['/'])),
{
    lemma_wf_url_prefix(scheme, host);
}

/// For every well-formed URL `scheme://host[:port][/path][#frag]` the
/// parser returns the exact host, the explicit port or the scheme's
/// default, the exact path or `/`, and never the fragment. The scheme
/// holds no `:`, the host no `:` and no `/`, a port is a decimal number
/// that fits 16 bits, a path starts with `/` and holds no `#`. A fragment
/// is only recognized after a path — without one the tail is never split
/// at `#` — so this law asks that a fragment come with a path.
pub proof fn lemma_parse_url_well_formed(
    scheme: Seq<char>,
    host: Seq<char>,
    port: Option<Seq<char>>,
    path: Option<Seq<char>>,
    frag: Option<Seq<char>>,
)
    requires
        !has_char(scheme, ':'),
        !has_char(host, ':'),
        !has_char(host, '/'),
        port matches Some(p) ==> (dec_token_value(p) matches Some(v) && v <= 0xffff),
        path matches Some(q) ==> q.len() > 0 && q[0] == '/' && !has_char(q, '#'),
        frag is Some ==> path is Some,
    ensures
        ({
            let url = scheme + seq![':', '/', '/'] + (host + (match port {
                Some(p) => seq![':'] + p,
                None => Seq::<char>::empty(),
            }) + (match path {
                Some(q) => q,
                None => Seq::<char>::empty(),
            }) + (match frag {
                Some(f) => seq!['#'] + f,
                None => Seq::<char>::empty(),
            }));
            parse_url_spec(url) == Ok::<(Seq<char>, Seq<char>, u16, Seq<char>), UrlParsingError>(
                (
                    scheme,
                    host,
                    match port {
                        Some(p) => match dec_token_value(p) {
                            Some(v) => v as u16,
                            None => 0u16,
                        },
                        None => default_port(scheme),
                    },
                    match path {
                        Some(q) => q,
                        None => seq!['/'],
                    },
                ),
            )
        }),
{
    let pp = match port {
        Some(p) => seq![':'] + p,
        None => Seq::<char>::empty(),
    };
    let qq = match path {
        Some(q) => q,
        None => Seq::<char>::empty(),
    };
    let ff = match frag {
        Some(f) => seq!['#'] + f,
        None => Seq::<char>::empty(),
    };
    let tail = host + pp + qq + ff;
    match (port, path) {
        (Some(p), Some(q)) => {
            lemma_wf_url_port_path(scheme, host, p, q, ff);
        },
        (Some(p), None) => {
            lemma_wf_url_port_only(scheme, host, p);
            assert(tail == host + (seq![':'] + p)) by {
                assert(tail =~= host + (seq![':'] + p));
            }
        },
        (None, Some(q)) => {
            lemma_wf_url_path_only(scheme, host, q, ff);
            assert(tail == host + q + ff) by {
                assert(tail =~= host + q + ff);
            }
        },
        (None, None) => {
            lemma_wf_url_bare(scheme, host);
            assert(tail == host) by {
                assert(tail =~= host);
            }
        },
    }
}

} // verus!
