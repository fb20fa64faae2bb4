//! The transport abstraction: an abstract byte channel, buffered read
//! primitives layered on top of it, and a string-backed channel used by
//! tests and for re-parsing single header lines.

use vstd::prelude::*;
use vstd::string::*;
use vstd::utf8::*;

verus! {

/// Errors reported by a channel or by the read primitives layered on it.
#[derive(Clone, Copy, Debug, PartialEq, Eq, Structural)]
pub enum ChannelError {
    SomethingWentWrong,
    InvalidHostName,
    UnableToConnect,
    EndOfStream,
    BufferFull,
    InvalidDelimiterChar,
    InvalidString,
    TlsUnsupported,
}

/// An abstract byte-oriented transport.
///
/// The ghost model consists of the bytes still to be delivered
/// (`incoming`), the bytes handed to `send` so far (`outgoing`), the
/// destination of the last successful `open` (`connection`), and a flag
/// (`reliable`) true of transports that never fail on their own, such as
/// [`StringChannel`]. On a reliable channel every operation succeeds as
/// long as enough bytes remain to be delivered; on any channel, a
/// successful `recv` delivers exactly the front of `incoming`.
pub trait Channel: Sized {
    /// The bytes that the channel will deliver, in order.
    spec fn incoming(&self) -> Seq<u8>;

    /// Every byte handed to `send` so far, in order.
    spec fn outgoing(&self) -> Seq<u8>;

    /// The destination the channel was last opened to, if any.
    spec fn connection(&self) -> Option<(Seq<char>, u16, bool)>;

    /// True of transports that never fail on their own.
    spec fn reliable(&self) -> bool;

    /// Opens the channel to the given host:port destination, with TLS if asked.
    fn open(&mut self, host: &str, port: u16, tls: bool) -> (r: Result<(), ChannelError>)
        ensures
            final(self).incoming() == old(self).incoming(),
            final(self).outgoing() == old(self).outgoing(),
            final(self).reliable() == old(self).reliable(),
            r is Ok ==> final(self).connection() == Some((host@, port, tls)),
            old(self).reliable() ==> r is Ok,
    ;

    /// Tries to send the first `len` bytes of `data`.
    /// Returns the number of bytes the transport reports as sent, or an error.
    fn send(&mut self, data: &[u8], len: usize) -> (r: Result<usize, ChannelError>)
        requires
            len <= data@.len(),
        ensures
            final(self).incoming() == old(self).incoming(),
            final(self).connection() == old(self).connection(),
            final(self).reliable() == old(self).reliable(),
            r is Ok ==> final(self).outgoing() == old(self).outgoing() + data@.take(len as int),
            old(self).reliable() ==> r is Ok,
    ;

    /// Tries to receive exactly `max_len` bytes into the front of `data`.
    ///
    /// On success the first `max_len` bytes of `incoming` are consumed and
    /// written to `data[0..max_len]`. On a reliable channel the only
    /// possible failure is `EndOfStream`, reported when fewer than
    /// `max_len` bytes remain; the remaining bytes are then consumed.
    fn recv(&mut self, data: &mut Vec<u8>, max_len: usize) -> (r: Result<usize, ChannelError>)
        requires
            max_len <= old(data)@.len(),
        ensures
            final(data)@.len() == old(data)@.len(),
            final(self).outgoing() == old(self).outgoing(),
            final(self).connection() == old(self).connection(),
            final(self).reliable() == old(self).reliable(),
            match r {
                Ok(n) => {
                    &&& n == max_len
                    &&& max_len <= old(self).incoming().len()
                    &&& final(data)@ == old(self).incoming().take(max_len as int) + old(
                        data,
                    )@.skip(max_len as int)
                    &&& final(self).incoming() == old(self).incoming().skip(max_len as int)
                },
                Err(e) => old(self).reliable() ==> {
                    &&& e == ChannelError::EndOfStream
                    &&& old(self).incoming().len() < max_len
                    &&& final(self).incoming() == Seq::<u8>::empty()
                    &&& final(data)@ == old(self).incoming() + old(data)@.skip(
                        old(self).incoming().len() as int,
                    )
                },
            },
    ;

    /// Sends the UTF-8 bytes of a string.
    fn send_str(&mut self, data: &str) -> (r: Result<usize, ChannelError>)
        ensures
            final(self).incoming() == old(self).incoming(),
            final(self).connection() == old(self).connection(),
            final(self).reliable() == old(self).reliable(),
            r is Ok ==> final(self).outgoing() == old(self).outgoing() + data.spec_bytes(),
            old(self).reliable() ==> r is Ok,
    {
        let bytes = data.as_bytes_vec();
        let n = bytes.len();
        proof {
            assert(bytes@.take(n as int) =~= data.spec_bytes());
        }
        self.send(bytes.as_slice(), n)
    }

    /// Reads bytes into the front of `data` until `max_len` bytes were read
    /// or the stream ended; the end of the stream counts as success and
    /// returns the number of bytes read so far.
    #[verifier::loop_isolation(false)]
    fn read_to_end(&mut self, data: &mut Vec<u8>, max_len: usize) -> (r: Result<
        usize,
        ChannelError,
    >)
        requires
            max_len <= old(data)@.len(),
        ensures
            final(data)@.len() == old(data)@.len(),
            final(self).outgoing() == old(self).outgoing(),
            final(self).connection() == old(self).connection(),
            final(self).reliable() == old(self).reliable(),
            match r {
                Ok(n) => {
                    &&& n <= max_len
                    &&& n <= old(self).incoming().len()
                    &&& final(data)@ == old(self).incoming().take(n as int) + old(data)@.skip(
                        n as int,
                    )
                    &&& (n == max_len || old(self).reliable()) ==> final(self).incoming() == old(
                        self,
                    ).incoming().skip(n as int)
                    &&& old(self).reliable() ==> n as int == if max_len <= old(
                        self,
                    ).incoming().len() {
                        max_len as int
                    } else {
                        old(self).incoming().len() as int
                    }
                },
                Err(e) => e != ChannelError::EndOfStream && !old(self).reliable(),
            },
    {
        let ghost s = old(self).incoming();
        let mut i: usize = 0;
        let mut next: Vec<u8> = vec![0u8];
        while i < max_len
            invariant
                i <= max_len <= data@.len(),
                data@.len() == old(data)@.len(),
                next@.len() == 1,
                self.outgoing() == old(self).outgoing(),
                self.connection() == old(self).connection(),
                self.reliable() == old(self).reliable(),
                i <= s.len(),
                self.incoming() =~= s.skip(i as int),
                data@ =~= s.take(i as int) + old(data)@.skip(i as int),
            decreases max_len - i,
        {
            let read = self.recv(&mut next, 1);
            match read {
                Err(e) => {
                    if e == ChannelError::EndOfStream {
                        proof {
                            if self.reliable() {
                                assert(s.skip(i as int).len() == 0);
                                assert(self.incoming() =~= s.skip(i as int));
                            }
                        }
                        return Ok(i);
                    } else {
                        return Err(e);
                    }
                },
                Ok(_) => {},
            }
            let b = next[0];
            data.set(i, b);
            proof {
                assert(s.skip(i as int)[0] == s[i as int]);
                assert(data@ =~= s.take(i + 1) + old(data)@.skip(i + 1));
                assert(self.incoming() =~= s.skip(i + 1));
            }
            i = i + 1;
        }
        Ok(i)
    }

    /// Reads to the end of the stream (or of the buffer) and checks the
    /// result as UTF-8, failing with `InvalidString` on invalid encoding.
    fn read_string_to_end(&mut self, data: &mut Vec<u8>) -> (r: Result<String, ChannelError>)
        ensures
            final(data)@.len() == old(data)@.len(),
            final(self).outgoing() == old(self).outgoing(),
            final(self).connection() == old(self).connection(),
            final(self).reliable() == old(self).reliable(),
            ({
                let s = old(self).incoming();
                let n = if old(data)@.len() <= s.len() {
                    old(data)@.len() as int
                } else {
                    s.len() as int
                };
                &&& (old(self).reliable() ==> {
                    &&& final(self).incoming() == s.skip(n)
                    &&& (r is Ok <==> valid_utf8(s.take(n)))
                    &&& (r matches Ok(out) ==> out@ == decode_utf8(s.take(n)))
                    &&& (r matches Err(e) ==> e == ChannelError::InvalidString)
                })
            }),
    {
        let max_len = data.len();
        let size = match self.read_to_end(data, max_len) {
            Ok(n) => n,
            Err(e) => { return Err(e) },
        };
        let prefix = vec_prefix(data, size);
        proof {
            assert(prefix@ =~= old(self).incoming().take(size as int));
        }
        match vec_to_string(prefix) {
            Some(st) => {
                proof {
                    let s = old(self).incoming();
                    assert({
                        &&& 0 <= size <= s.len()
                        &&& valid_utf8(s.take(size as int))
                        &&& st@ == decode_utf8(s.take(size as int))
                    });
                }
                Ok(st)
            },
            None => Err(ChannelError::InvalidString),
        }
    }

    /// Reads a string into the scratch buffer, waiting for the given
    /// delimiter. The bytes strictly before the delimiter are returned;
    /// the delimiter itself is consumed from the channel but never copied,
    /// so afterwards the channel stands exactly after the delimiter.
    /// Fails with `BufferFull` when the buffer fills up before the
    /// delimiter began, with `InvalidDelimiterChar` when a byte breaks a
    /// partial delimiter match, and with `EndOfStream` when the stream
    /// ends before the delimiter is complete.
    #[verifier::loop_isolation(false)]
    fn read_string_until(&mut self, data: &mut Vec<u8>, delim: &str) -> (r: Result<
        String,
        ChannelError,
    >)
        requires
            delim.spec_bytes().len() > 0,
        ensures
            final(data)@.len() == old(data)@.len(),
            final(self).outgoing() == old(self).outgoing(),
            final(self).connection() == old(self).connection(),
            final(self).reliable() == old(self).reliable(),
            ({
                let s = old(self).incoming();
                let d = delim.spec_bytes();
                let cap = old(data)@.len() as nat;
                match r {
                    Ok(out) => scan_outcome(s, d, cap) matches ScanOutcome::Found { data: db, used }
                        && valid_utf8(db) && out@ == decode_utf8(db) && final(self).incoming()
                        == s.skip(used),
                    Err(e) => old(self).reliable() ==> match scan_outcome(s, d, cap) {
                        ScanOutcome::Found { data: db, used } => {
                            &&& e == ChannelError::InvalidString
                            &&& !valid_utf8(db)
                            &&& final(self).incoming() == s.skip(used)
                        },
                        ScanOutcome::Mismatch { used } => {
                            &&& e == ChannelError::InvalidDelimiterChar
                            &&& final(self).incoming() == s.skip(used)
                        },
                        ScanOutcome::Starved => {
                            &&& e == ChannelError::EndOfStream
                            &&& final(self).incoming() == Seq::<u8>::empty()
                        },
                        ScanOutcome::Overflow => {
                            &&& e == ChannelError::BufferFull
                            &&& final(self).incoming() == s.skip(cap as int)
                        },
                    },
                }
            }),
    {
        let max_len = data.len();
        let dvec = delim.as_bytes_vec();
        let dlen = dvec.len();
        let ghost s = old(self).incoming();
        let ghost d = delim.spec_bytes();
        let ghost p = prefix_before(s, d[0]) as int;
        let mut i: usize = 0;
        let mut delim_pos: usize = 0;
        let mut in_delim = false;
        let mut next: Vec<u8> = vec![0u8];
        while i < max_len
            invariant
                i <= max_len <= data@.len(),
                data@.len() == old(data)@.len(),
                next@.len() == 1,
                dvec@ == d,
                dlen == d.len(),
                dlen > 0,
                p == prefix_before(s, d[0]) as int,
                self.outgoing() == old(self).outgoing(),
                self.connection() == old(self).connection(),
                self.reliable() == old(self).reliable(),
                !in_delim ==> {
                    &&& delim_pos == 0
                    &&& i <= s.len()
                    &&& i as int <= p
                    &&& self.incoming() =~= s.skip(i as int)
                    &&& data@ =~= s.take(i as int) + old(data)@.skip(i as int)
                },
                in_delim ==> {
                    &&& i as int == p
                    &&& p < max_len
                    &&& 1 <= delim_pos < dlen
                    &&& p + delim_pos <= s.len()
                    &&& bytes_match(s, d, p, delim_pos as int)
                    &&& self.incoming() =~= s.skip(p + delim_pos)
                    &&& data@ =~= s.take(p) + old(data)@.skip(p)
                },
            decreases s.len() - i - delim_pos,
        {
            let ghost used_before: int = if in_delim {
                p + delim_pos
            } else {
                i as int
            };
            match self.recv(&mut next, 1) {
                Err(e) => {
                    proof {
                        if self.reliable() {
                            assert(s.skip(used_before).len() == 0);
                            lemma_prefix_before(s, d[0]);
                            if in_delim {
                                lemma_run_len_at(s, d, p, delim_pos as int);
                            } else {
                                assert(p == i as int);
                                assert(bytes_match(s, d, p, 0));
                                lemma_run_len_at(s, d, p, 0);
                            }
                        }
                    }
                    return Err(e);
                },
                Ok(_) => {},
            }
            let value = next[0];
            proof {
                assert(s.skip(used_before)[0] == s[used_before]);
            }
            if in_delim && dvec[delim_pos] != value {
                proof {
                    lemma_run_len_at(s, d, p, delim_pos as int);
                    assert(self.incoming() =~= s.skip(p + delim_pos + 1));
                }
                return Err(ChannelError::InvalidDelimiterChar);
            }
            if dvec[delim_pos] == value {
                proof {
                    if !in_delim {
                        lemma_prefix_stops(s, d[0], i as int);
                        assert(bytes_match(s, d, p, 0));
                    }
                    assert(s[p + delim_pos] == d[delim_pos as int]);
                    assert(bytes_match(s, d, p, delim_pos + 1));
                    assert(self.incoming() =~= s.skip(used_before + 1));
                }
                in_delim = true;
                delim_pos = delim_pos + 1;
                if delim_pos >= dlen {
                    proof {
                        lemma_run_len_at(s, d, p, dlen as int);
                        assert(scan_outcome(s, d, old(data)@.len() as nat) matches
                            ScanOutcome::Found { data: db, used } && db == s.take(p) && used == p
                            + dlen);
                        assert(self.incoming() =~= s.skip(p + dlen));
                    }
                    let out_bytes = vec_prefix(data, i);
                    proof {
                        assert(out_bytes@ =~= s.take(p));
                    }
                    return match vec_to_string(out_bytes) {
                        Some(st) => Ok(st),
                        None => Err(ChannelError::InvalidString),
                    };
                }
            } else {
                proof {
                    lemma_prefix_before(s, d[0]);
                    if i as int == p {
                        assert(s[p] == d[0]);
                        assert(false);
                    }
                }
                data.set(i, value);
                proof {
                    assert(data@ =~= s.take(i + 1) + old(data)@.skip(i + 1));
                    assert(self.incoming() =~= s.skip(i + 1));
                }
                i = i + 1;
            }
        }
        proof {
            assert(p >= max_len);
            assert(scan_outcome(s, d, old(data)@.len() as nat) is Overflow);
        }
        Err(ChannelError::BufferFull)
    }
}

/// Length of the longest prefix of `s` in which the byte `b` does not occur.
/// Equals `s.len()` when `b` does not occur at all.
pub open spec fn prefix_before(s: Seq<u8>, b: u8) -> nat
    decreases s.len(),
{
    if s.len() == 0 {
        0
    } else if s[0] == b {
        0
    } else {
        (1 + prefix_before(s.skip(1), b)) as nat
    }
}

/// Number of delimiter bytes of `d`, starting at `d[j]`, that match the
/// stream `s` byte for byte from position `p + j` on, counted from `j`.
pub open spec fn run_len(s: Seq<u8>, d: Seq<u8>, p: int, j: int) -> int
    decreases d.len() - j,
{
    if j < 0 || j >= d.len() || p + j < 0 || p + j >= s.len() || s[p + j] != d[j] {
        j
    } else {
        run_len(s, d, p, j + 1)
    }
}

/// What one delimiter-bounded scan over the stream `s` does, for the
/// delimiter `d` and a scratch buffer of `cap` bytes. The scanner
/// accumulates bytes until the first occurrence of `d[0]`, then insists
/// that the following bytes spell out `d` in full; a byte that breaks a
/// partial delimiter match is never replayed as ordinary data.
/// `used` counts the stream bytes consumed.
pub enum ScanOutcome {
    /// The full delimiter was found; `data` holds the bytes strictly before it.
    Found { data: Seq<u8>, used: int },
    /// A byte broke a partial delimiter match.
    Mismatch { used: int },
    /// The stream ended before the delimiter was complete; all of it is consumed.
    Starved,
    /// The buffer filled up before the delimiter began; `cap` bytes are consumed.
    Overflow,
}

/// The outcome of the delimiter scan of `s` for `d` with buffer capacity `cap`.
pub open spec fn scan_outcome(s: Seq<u8>, d: Seq<u8>, cap: nat) -> ScanOutcome
    recommends
        d.len() > 0,
{
    let p = prefix_before(s, d[0]) as int;
    let m = run_len(s, d, p, 0);
    if p >= cap {
        ScanOutcome::Overflow
    } else if m == d.len() {
        ScanOutcome::Found { data: s.take(p), used: p + d.len() }
    } else if p + m < s.len() {
        ScanOutcome::Mismatch { used: p + m + 1 }
    } else {
        ScanOutcome::Starved
    }
}

/// The first `j` bytes of the delimiter `d` match the stream `s` from
/// position `p` on.
pub open spec fn bytes_match(s: Seq<u8>, d: Seq<u8>, p: int, j: int) -> bool
    decreases j,
{
    j <= 0 || (bytes_match(s, d, p, j - 1) && p + j - 1 < s.len() && s[p + j - 1] == d[j - 1])
}

pub proof fn lemma_bytes_match_index(s: Seq<u8>, d: Seq<u8>, p: int, j: int, k: int)
    requires
        bytes_match(s, d, p, j),
        0 <= k < j,
    ensures
        p + k < s.len(),
        s[p + k] == d[k],
    decreases j,
{
    if k < j - 1 {
        lemma_bytes_match_index(s, d, p, j - 1, k);
    }
}

pub proof fn lemma_prefix_before(s: Seq<u8>, b: u8)
    ensures
        prefix_before(s, b) <= s.len(),
        prefix_before(s, b) < s.len() ==> s[prefix_before(s, b) as int] == b,
    decreases s.len(),
{
    if s.len() == 0 {
    } else if s[0] == b {
    } else {
        lemma_prefix_before(s.skip(1), b);
        let p = prefix_before(s, b) as int;
        if p < s.len() {
            assert(s.skip(1)[p - 1] == s[p]);
        }
    }
}

/// A scan that saw no occurrence of `b` in the first `i` bytes and then an
/// occurrence at `i` has found exactly the prefix that `prefix_before` names.
pub proof fn lemma_prefix_stops(s: Seq<u8>, b: u8, i: int)
    requires
        0 <= i <= prefix_before(s, b),
        i < s.len(),
        s[i] == b,
    ensures
        prefix_before(s, b) == i,
    decreases i,
{
    if i > 0 {
        lemma_prefix_stops(s.skip(1), b, i - 1);
        assert(s.skip(1)[i - 1] == s[i]);
    }
}

/// `run_len` is pinned down by what the scan saw: `j` matching bytes
/// followed by the end of the delimiter, the end of the stream, or a mismatch.
pub proof fn lemma_run_len_at(s: Seq<u8>, d: Seq<u8>, p: int, j: int)
    requires
        0 <= p,
        0 <= j <= d.len(),
        bytes_match(s, d, p, j),
        j == d.len() || p + j >= s.len() || s[p + j] != d[j],
    ensures
        run_len(s, d, p, 0) == j,
{
    lemma_run_len_from(s, d, p, j, 0);
}

proof fn lemma_run_len_from(s: Seq<u8>, d: Seq<u8>, p: int, j: int, m: int)
    requires
        0 <= p,
        0 <= m <= j <= d.len(),
        bytes_match(s, d, p, j),
        j == d.len() || p + j >= s.len() || s[p + j] != d[j],
    ensures
        run_len(s, d, p, m) == j,
    decreases j - m,
{
    if m != j {
        lemma_bytes_match_index(s, d, p, j, m);
        lemma_run_len_from(s, d, p, j, m + 1);
    }
}

/// Basic bounds and content of `run_len` from its definition.
pub proof fn lemma_run_len_props(s: Seq<u8>, d: Seq<u8>, p: int)
    requires
        0 <= p,
    ensures
        0 <= run_len(s, d, p, 0) <= d.len(),
        bytes_match(s, d, p, run_len(s, d, p, 0)),
{
    lemma_run_len_props_from(s, d, p, 0);
}

proof fn lemma_run_len_props_from(s: Seq<u8>, d: Seq<u8>, p: int, m: int)
    requires
        0 <= p,
        0 <= m <= d.len(),
        bytes_match(s, d, p, m),
    ensures
        m <= run_len(s, d, p, m) <= d.len(),
        bytes_match(s, d, p, run_len(s, d, p, m)),
    decreases d.len() - m,
{
    if m < d.len() && p + m < s.len() && s[p + m] == d[m] {
        assert(bytes_match(s, d, p, m + 1));
        lemma_run_len_props_from(s, d, p, m + 1);
    }
}

/// Bounds that hold of every successful scan: the delimiter fits the
/// stream, the data is the prefix before it, and the buffer held it.
pub proof fn lemma_scan_found(s: Seq<u8>, d: Seq<u8>, cap: nat)
    requires
        d.len() > 0,
    ensures
        scan_outcome(s, d, cap) matches ScanOutcome::Found { data, used } ==> {
            &&& d.len() <= used <= s.len()
            &&& data == s.take(used - d.len())
            &&& data.len() == used - d.len()
            &&& data.len() < cap
        },
{
    let p = prefix_before(s, d[0]) as int;
    lemma_prefix_before(s, d[0]);
    lemma_run_len_props(s, d, p);
    if run_len(s, d, p, 0) == d.len() as int {
        lemma_bytes_match_index(s, d, p, d.len() as int, d.len() - 1);
    }
}

/// Relies on `String::from_utf8`: it succeeds exactly on byte sequences
/// that are valid UTF-8 and returns the string those bytes encode.
#[verifier::external_body]
pub(crate) fn vec_to_string(bytes: Vec<u8>) -> (r: Option<String>)
    ensures
        r is Some <==> valid_utf8(bytes@),
        r matches Some(s) ==> s@ == decode_utf8(bytes@),
{
    match String::from_utf8(bytes) {
        Ok(s) => Some(s),
        Err(_) => None,
    }
}

/// Copies the first `n` bytes of `data` into a fresh vector.
pub(crate) fn vec_prefix(data: &Vec<u8>, n: usize) -> (r: Vec<u8>)
    requires
        n <= data@.len(),
    ensures
        r@ == data@.take(n as int),
{
    let mut out: Vec<u8> = Vec::new();
    let mut k: usize = 0;
    while k < n
        invariant
            k <= n <= data@.len(),
            out@ =~= data@.take(k as int),
        decreases n - k,
    {
        out.push(data[k]);
        proof {
            assert(out@ =~= data@.take(k + 1));
        }
        k = k + 1;
    }
    out
}

/// A simple channel implementation using a string as the source.
///
/// It delivers the UTF-8 bytes of the string it was built over, discards
/// whatever is sent (recording it only in its ghost model), and never
/// fails except by running out of bytes.
pub struct StringChannel {
    pos: usize,
    data: Vec<u8>,
    sent: Ghost<Seq<u8>>,
    conn: Ghost<Option<(Seq<char>, u16, bool)>>,
}

impl StringChannel {
    pub fn new(data: &str) -> (r: Self)
        ensures
            r.incoming() == data.spec_bytes(),
            r.outgoing() == Seq::<u8>::empty(),
            r.connection() is None,
            r.reliable(),
    {
        let bytes = data.as_bytes_vec();
        proof {
            assert(bytes@.skip(0) =~= bytes@);
        }
        StringChannel { pos: 0, data: bytes, sent: Ghost(Seq::empty()), conn: Ghost(None) }
    }
}

impl Channel for StringChannel {
    closed spec fn incoming(&self) -> Seq<u8> {
        if self.pos <= self.data@.len() {
            self.data@.skip(self.pos as int)
        } else {
            Seq::empty()
        }
    }

    closed spec fn outgoing(&self) -> Seq<u8> {
        self.sent@
    }

    closed spec fn connection(&self) -> Option<(Seq<char>, u16, bool)> {
        self.conn@
    }

    closed spec fn reliable(&self) -> bool {
        true
    }

    fn open(&mut self, host: &str, port: u16, tls: bool) -> (r: Result<(), ChannelError>) {
        self.conn = Ghost(Some((host@, port, tls)));
        Ok(())
    }

    fn send(&mut self, data: &[u8], len: usize) -> (r: Result<usize, ChannelError>) {
        self.sent = Ghost(self.sent@ + data@.take(len as int));
        Ok(0)
    }

    fn recv(&mut self, data: &mut Vec<u8>, max_len: usize) -> (r: Result<usize, ChannelError>) {
        let mut i: usize = 0;
        while i < max_len
            invariant
                i <= max_len,
                max_len <= data@.len(),
                data@.len() == old(data)@.len(),
                self.data == old(self).data,
                self.sent == old(self).sent,
                self.conn == old(self).conn,
                self.pos as int == old(self).pos as int + i,
                i > 0 ==> self.pos <= self.data@.len(),
                i <= old(self).incoming().len(),
                data@ =~= old(self).incoming().take(i as int) + old(data)@.skip(i as int),
                self.incoming() =~= old(self).incoming().skip(i as int),
            decreases max_len - i,
        {
            if self.pos >= self.data.len() {
                proof {
                    assert(old(self).incoming().len() == i);
                    assert(old(self).incoming().take(i as int) =~= old(self).incoming());
                    assert(self.incoming() =~= Seq::<u8>::empty());
                }
                return Err(ChannelError::EndOfStream);
            }
            let b = self.data[self.pos];
            data.set(i, b);
            i = i + 1;
            self.pos = self.pos + 1;
            proof {
                assert(data@ =~= old(self).incoming().take(i as int) + old(data)@.skip(i as int));
                assert(self.incoming() =~= old(self).incoming().skip(i as int));
            }
        }
        Ok(i)
    }
}

} // verus!
