//! Framing of messages on the byte stream: every encoded message ends
//! with the two-byte CR LF marker, and inbound bytes are collected in a
//! single growable read buffer, bounded by a fixed ceiling, from which
//! complete lines are taken one at a time.
use crate::contract::{BidAskContract, BidAskContractView};
use crate::text::{ascii_bytes, bytes_ascii, chars_of_bytes, lemma_ascii_chars_to_bytes};
use vstd::prelude::*;

verus! {

/// The read buffer may not grow past this many bytes while no end
/// marker is in sight.
pub const READ_BUFFER_CEILING: usize = 24576;

/// The two-byte end marker that terminates every encoded message.
pub open spec fn crlf_bytes() -> Seq<u8> {
    seq![13u8, 10u8]
}

/// Why a decode step failed.
#[derive(Clone, Copy, Debug, PartialEq, Eq, Structural)]
pub enum DecodeError {
    /// The line before the end marker is not a well-formed message;
    /// only this one message is lost.
    MalformedLine,
    /// No end marker arrived within the buffer ceiling; the peer is
    /// broken or hostile and its connection must be closed.
    BufferLimitExceeded,
}

/// First index at or after `from` where the CR LF marker starts, or
/// the length of `b` if there is none.
pub open spec fn find_crlf_from(b: Seq<u8>, from: int) -> int
    decreases b.len() - from,
{
    if from < 0 || from + 2 > b.len() {
        b.len() as int
    } else if b[from] == 13 && b[from + 1] == 10 {
        from
    } else {
        find_crlf_from(b, from + 1)
    }
}

pub proof fn lemma_find_crlf(b: Seq<u8>, from: int)
    requires
        0 <= from <= b.len(),
    ensures
        from <= find_crlf_from(b, from) <= b.len(),
        find_crlf_from(b, from) + 2 <= b.len() ==> b[find_crlf_from(b, from)] == 13 && b[find_crlf_from(
            b,
            from,
        ) + 1] == 10,
        find_crlf_from(b, from) < b.len() ==> find_crlf_from(b, from) + 2 <= b.len(),
        forall|t: int|
            from <= t < find_crlf_from(b, from) && t + 2 <= b.len() ==> !((#[trigger] b[t]) == 13
                && b[t + 1] == 10),
    decreases b.len() - from,
{
    if from + 2 <= b.len() && !(b[from] == 13 && b[from + 1] == 10) {
        lemma_find_crlf(b, from + 1);
    }
}

/// If the marker first starts at `i`, the scan finds exactly `i`.
proof fn lemma_find_crlf_at(b: Seq<u8>, from: int, i: int)
    requires
        0 <= from <= i,
        i + 2 <= b.len(),
        b[i] == 13 && b[i + 1] == 10,
        forall|t: int| from <= t < i ==> !((#[trigger] b[t]) == 13 && b[t + 1] == 10),
    ensures
        find_crlf_from(b, from) == i,
    decreases i - from,
{
    if from < i {
        lemma_find_crlf_at(b, from + 1, i);
    }
}

/// First start of the CR LF marker in `buf`, or its length.
fn scan_crlf(buf: &Vec<u8>) -> (r: usize)
    ensures
        r == find_crlf_from(buf@, 0),
{
    let n = buf.len();
    let mut j: usize = 0;
    while j < n && j + 1 < n
        invariant
            0 <= j,
            j <= n == buf@.len(),
            forall|t: int| 0 <= t < j ==> !((#[trigger] buf@[t]) == 13 && buf@[t + 1] == 10),
        decreases n - j,
    {
        if buf[j] == 13 && buf[j + 1] == 10 {
            proof {
                lemma_find_crlf_at(buf@, 0, j as int);
            }
            return j;
        }
        j += 1;
    }
    proof {
        lemma_find_crlf(buf@, 0);
        if find_crlf_from(buf@, 0) < n {
            let i = find_crlf_from(buf@, 0);
            assert(!(buf@[i] == 13 && buf@[i + 1] == 10));
        }
    }
    n
}

/// Relies on `String::from_utf8`: on success the string holds exactly
/// the given bytes, and ASCII input always succeeds, each byte denoting
/// the character with the same value.
#[verifier::external_body]
fn string_from_utf8(v: Vec<u8>) -> (r: Option<String>)
    ensures
        r matches Some(s) ==> vstd::utf8::encode_utf8(s@) == v@,
        r matches Some(s) ==> (bytes_ascii(v@) ==> s@ == chars_of_bytes(v@)),
        r is None ==> !bytes_ascii(v@),
{
    String::from_utf8(v).ok()
}

/// The codec for one downstream connection: stateless encode plus the
/// bounded read buffer from which inbound lines are framed.
pub struct SourceFeedSerializer {
    read_buffer: Vec<u8>,
}

impl View for SourceFeedSerializer {
    type V = Seq<u8>;

    /// The bytes received but not yet consumed as complete lines.
    closed spec fn view(&self) -> Seq<u8> {
        self.read_buffer@
    }
}

impl SourceFeedSerializer {
    pub fn new() -> (r: Self)
        ensures
            r@ == Seq::<u8>::empty(),
    {
        SourceFeedSerializer { read_buffer: Vec::new() }
    }

    /// Encodes one message as its line followed by the end marker.  A
    /// fresh buffer is built on every call, keepalives included, so
    /// every message flows through this same path.
    pub fn serialize(&self, contract: BidAskContract) -> (r: Vec<u8>)
        requires
            contract@.wf(),
        ensures
            r@ == ascii_bytes(contract@.chars()) + crlf_bytes(),
    {
        let mut result: Vec<u8> = Vec::new();
        contract.serialize(&mut result);
        result.push(13);
        result.push(10);
        proof {
            assert(result@ =~= ascii_bytes(contract@.chars()) + crlf_bytes());
        }
        result
    }

    /// A fresh keepalive probe; never a cached instance.
    pub fn get_ping(&self) -> (r: BidAskContract)
        ensures
            r@ == BidAskContractView::Ping,
    {
        BidAskContract::Ping
    }

    /// Takes in bytes from the connection.  Fails only when the buffer
    /// would grow past the ceiling with no end marker in it.
    pub fn feed(&mut self, bytes: &[u8]) -> (r: Result<(), DecodeError>)
        ensures
            final(self)@ == old(self)@ + bytes@,
            r matches Err(e) ==> e == DecodeError::BufferLimitExceeded,
            (r is Ok) == (old(self)@.len() + bytes@.len() <= READ_BUFFER_CEILING || find_crlf_from(
                old(self)@ + bytes@,
                0,
            ) < old(self)@.len() + bytes@.len()),
    {
        let mut j: usize = 0;
        let n = bytes.len();
        while j < n
            invariant
                0 <= j <= n == bytes@.len(),
                self@ == old(self)@ + bytes@.subrange(0, j as int),
            decreases n - j,
        {
            let b = bytes[j];
            self.read_buffer.push(b);
            proof {
                assert(self@ =~= old(self)@ + bytes@.subrange(0, j + 1));
            }
            j += 1;
        }
        proof {
            assert(bytes@.subrange(0, n as int) =~= bytes@);
        }
        if self.read_buffer.len() <= READ_BUFFER_CEILING {
            return Ok(());
        }
        let i = scan_crlf(&self.read_buffer);
        if i < self.read_buffer.len() {
            proof {
                lemma_find_crlf(self@, 0);
            }
            Ok(())
        } else {
            Err(DecodeError::BufferLimitExceeded)
        }
    }

    /// Takes the next complete line out of the buffer and decodes it.
    /// `Ok(None)` means no full line has arrived yet; a malformed line
    /// is consumed and reported, and decoding may go on afterwards.
    pub fn deserialize(&mut self) -> (r: Result<Option<BidAskContract>, DecodeError>)
        ensures
            ({
                let b = old(self)@;
                let i = find_crlf_from(b, 0);
                if i == b.len() {
                    r matches Ok(c) && c is None && final(self)@ == b
                } else {
                    &&& final(self)@ == b.skip(i + 2)
                    &&& match r {
                        Ok(Some(c)) => bytes_ascii(b.subrange(0, i)) && BidAskContract::spec_parse(
                            chars_of_bytes(b.subrange(0, i)),
                        ) == Some(c@) && c@.wf(),
                        Ok(None) => false,
                        Err(e) => e == DecodeError::MalformedLine && !(bytes_ascii(
                            b.subrange(0, i),
                        ) && BidAskContract::spec_parse(chars_of_bytes(b.subrange(0, i))) is Some),
                    }
                }
            }),
    {
        let ghost b = self@;
        let n = self.read_buffer.len();
        let i = scan_crlf(&self.read_buffer);
        proof {
            lemma_find_crlf(b, 0);
        }
        if i == n {
            return Ok(None);
        }
        let mut line: Vec<u8> = Vec::new();
        let mut j: usize = 0;
        while j < i
            invariant
                0 <= j <= i < n == self.read_buffer@.len(),
                self@ == b,
                line@ == b.subrange(0, j as int),
            decreases i - j,
        {
            let byte = self.read_buffer[j];
            line.push(byte);
            proof {
                assert(line@ =~= b.subrange(0, j + 1));
            }
            j += 1;
        }
        let mut rest: Vec<u8> = Vec::new();
        let mut k: usize = i + 2;
        while k < n
            invariant
                i + 2 <= k <= n == self.read_buffer@.len(),
                self@ == b,
                rest@ == b.subrange(i + 2, k as int),
            decreases n - k,
        {
            let byte = self.read_buffer[k];
            rest.push(byte);
            proof {
                assert(rest@ =~= b.subrange(i + 2, k + 1));
            }
            k += 1;
        }
        self.read_buffer = rest;
        proof {
            assert(self@ =~= b.skip(i + 2));
            assert(line@ == b.subrange(0, i as int));
        }
        let ghost line_bytes = b.subrange(0, i as int);
        match string_from_utf8(line) {
            None => Err(DecodeError::MalformedLine),
            Some(s) => {
                match BidAskContract::parse(s.as_str()) {
                    Some(c) => {
                        proof {
                            assert(crate::text::ascii_chars(s@)) by {
                                crate::contract::lemma_keyword_words();
                            }
                            lemma_ascii_chars_to_bytes(s@);
                            assert(line_bytes == crate::text::ascii_bytes(s@));
                            assert(chars_of_bytes(line_bytes) == s@);
                        }
                        Ok(Some(c))
                    },
                    None => {
                        proof {
                            if bytes_ascii(line_bytes) {
                                assert(s@ == chars_of_bytes(line_bytes));
                            }
                        }
                        Err(DecodeError::MalformedLine)
                    },
                }
            },
        }
    }
}

/// The framing round trip: the bytes of an encoded message end in
/// exactly one end marker, scanning finds it right where the line ends,
/// and decoding the line before it yields the original message — the
/// marker itself never reaches the decoded result.
pub proof fn lemma_framed_round_trip(m: BidAskContractView)
    requires
        m.wf(),
    ensures
        ({
            let framed = ascii_bytes(m.chars()) + crlf_bytes();
            &&& find_crlf_from(framed, 0) == m.chars().len()
            &&& framed.subrange(0, m.chars().len() as int) == ascii_bytes(m.chars())
            &&& framed.skip(m.chars().len() + 2 as int) == Seq::<u8>::empty()
            &&& bytes_ascii(ascii_bytes(m.chars()))
            &&& BidAskContract::spec_parse(chars_of_bytes(ascii_bytes(m.chars()))) == Some(m)
        }),
{
    let line = m.chars();
    let framed = ascii_bytes(line) + crlf_bytes();
    crate::contract::lemma_contract_round_trip(m);
    lemma_ascii_chars_to_bytes(line);
    assert(framed.subrange(0, line.len() as int) =~= ascii_bytes(line));
    assert(framed.skip(line.len() + 2 as int) =~= Seq::<u8>::empty());
    assert(framed[line.len() as int] == 13 && framed[line.len() + 1 as int] == 10);
    assert forall|t: int| 0 <= t < line.len() implies !((#[trigger] framed[t]) == 13 && framed[t
        + 1] == 10) by {
        assert(framed[t] == line[t] as u8);
        assert(line[t] != '\r');
        if framed[t] == 13 {
            crate::text::lemma_ascii_chars_bound(line);
            crate::text::lemma_ascii_char_eq(line[t], '\r');
        }
    }
    lemma_find_crlf_at(framed, 0, line.len() as int);
}

} // verus!
