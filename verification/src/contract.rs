//! The wire messages: keepalive `Ping`/`Pong` and quote (`BidAsk`)
//! records, with their single-line text encoding and its decode.
use crate::datetime::BidAskDateTime;
use crate::number::{check_float_text, is_float_text, lemma_float_token};
use crate::text::{
    ascii_bytes, ascii_chars, ascii_str_eq, check_token_range, find_char, find_space,
    lemma_find_char_at, lemma_find_char_none, push_ascii_chars, str_is_ascii, token_ok,
};
use vstd::prelude::*;

verus! {

/// The mathematical content of a quote record: calendar timestamp with
/// provenance, instrument id, the bid and ask texts, and a source tag.
#[verifier::ext_equal]
pub ghost struct BidAskView {
    pub date_time: BidAskDateTime,
    pub id: Seq<char>,
    pub bid: Seq<char>,
    pub ask: Seq<char>,
    pub source: Seq<char>,
}

impl BidAskView {
    /// A quote that can stand on the wire: a well-formed timestamp,
    /// plain tokens for id and source, float texts for bid and ask.
    pub open spec fn wf(self) -> bool {
        &&& self.date_time.wf()
        &&& token_ok(self.id)
        &&& is_float_text(self.bid)
        &&& is_float_text(self.ask)
        &&& token_ok(self.source)
    }

    /// The five space-separated fields of the encoded line.
    pub open spec fn chars(self) -> Seq<char> {
        self.date_time.chars() + seq![' '] + self.id + seq![' '] + self.bid + seq![' '] + self.ask
            + seq![' '] + self.source
    }
}

/// A quote record: immutable once constructed, broadcast to every
/// registered downstream connection.  Bid and ask keep the exact
/// decimal text that came from or goes to the wire.
#[derive(Debug)]
pub struct BidAsk {
    pub date_time: BidAskDateTime,
    pub id: String,
    pub bid: String,
    pub ask: String,
    pub source: String,
}

impl View for BidAsk {
    type V = BidAskView;

    open spec fn view(&self) -> BidAskView {
        BidAskView {
            date_time: self.date_time,
            id: self.id@,
            bid: self.bid@,
            ask: self.ask@,
            source: self.source@,
        }
    }
}

impl Clone for BidAsk {
    fn clone(&self) -> (r: Self)
        ensures
            r@ == self@,
    {
        BidAsk {
            date_time: self.date_time,
            id: self.id.clone(),
            bid: self.bid.clone(),
            ask: self.ask.clone(),
            source: self.source.clone(),
        }
    }
}

impl BidAsk {
    /// Decode of one quote line: exactly five space-separated fields
    /// (timestamp, id, bid, ask, source), each well-formed; anything
    /// else decodes to nothing.
    pub open spec fn spec_parse(s: Seq<char>) -> Option<BidAskView> {
        if !ascii_chars(s) {
            None
        } else {
            let n = s.len() as int;
            let i1 = find_char(s, ' ', 0);
            let i2 = find_char(s, ' ', i1 + 1);
            let i3 = find_char(s, ' ', i2 + 1);
            let i4 = find_char(s, ' ', i3 + 1);
            if i1 < n && i2 < n && i3 < n && i4 < n && find_char(s, ' ', i4 + 1) == n {
                let ts = s.subrange(0, i1);
                let id = s.subrange(i1 + 1, i2);
                let bid = s.subrange(i2 + 1, i3);
                let ask = s.subrange(i3 + 1, i4);
                let source = s.subrange(i4 + 1, n);
                match BidAskDateTime::spec_parse(ts) {
                    Some(dt) => if token_ok(id) && is_float_text(bid) && is_float_text(ask)
                        && token_ok(source) {
                        Some(BidAskView { date_time: dt, id, bid, ask, source })
                    } else {
                        None
                    },
                    None => None,
                }
            } else {
                None
            }
        }
    }

    /// Decodes one line, as [`Self::spec_parse`] states it; a malformed
    /// line fails this one message only.
    pub fn parse(src: &str) -> (r: Option<BidAsk>)
        ensures
            (r is Some) == (Self::spec_parse(src@) is Some),
            r matches Some(b) ==> Self::spec_parse(src@) == Some(b@) && b@.wf(),
    {
        if !str_is_ascii(src) {
            return None;
        }
        let n = src.unicode_len();
        let i1 = find_space(src, 0);
        if i1 == n {
            return None;
        }
        let i2 = find_space(src, i1 + 1);
        if i2 == n {
            return None;
        }
        let i3 = find_space(src, i2 + 1);
        if i3 == n {
            return None;
        }
        let i4 = find_space(src, i3 + 1);
        if i4 == n {
            return None;
        }
        let i5 = find_space(src, i4 + 1);
        if i5 != n {
            return None;
        }
        let ts_str = src.substring_ascii(0, i1);
        let date_time = match BidAskDateTime::parse(ts_str) {
            Some(dt) => dt,
            None => {
                proof {
                    assert(ts_str@ == src@.subrange(0, i1 as int));
                }
                return None;
            },
        };
        if !check_token_range(src, i1 + 1, i2) {
            return None;
        }
        if !check_float_text(src.substring_ascii(i2 + 1, i3)) {
            return None;
        }
        if !check_float_text(src.substring_ascii(i3 + 1, i4)) {
            return None;
        }
        if !check_token_range(src, i4 + 1, n) {
            return None;
        }
        let b = BidAsk {
            date_time,
            id: String::from_str(src.substring_ascii(i1 + 1, i2)),
            bid: String::from_str(src.substring_ascii(i2 + 1, i3)),
            ask: String::from_str(src.substring_ascii(i3 + 1, i4)),
            source: String::from_str(src.substring_ascii(i4 + 1, n)),
        };
        proof {
            assert(b@.date_time.wf());
            assert(Self::spec_parse(src@) == Some(b@));
        }
        Some(b)
    }

    /// Whether this record may stand on the wire; callers outside the
    /// verified core test this before serializing.
    pub fn check_wf(&self) -> (r: bool)
        ensures
            r == self@.wf(),
    {
        let d = match &self.date_time {
            crate::datetime::BidAskDateTime::Source(d) => d,
            crate::datetime::BidAskDateTime::Our(d) => d,
        };
        if !(d.year <= 9999 && 1 <= d.month && d.month <= 12 && 1 <= d.day && d.day <= 31 && d.hour
            <= 23 && d.minute <= 59 && d.second <= 59 && d.micro < 1_000_000) {
            return false;
        }
        if !str_is_ascii(self.id.as_str()) || !str_is_ascii(self.source.as_str()) {
            return false;
        }
        let id_ok = check_token_range(self.id.as_str(), 0, self.id.as_str().unicode_len());
        let source_ok = check_token_range(
            self.source.as_str(),
            0,
            self.source.as_str().unicode_len(),
        );
        proof {
            assert(self.id@.subrange(0, self.id@.len() as int) =~= self.id@);
            assert(self.source@.subrange(0, self.source@.len() as int) =~= self.source@);
        }
        id_ok && source_ok && check_float_text(self.bid.as_str()) && check_float_text(
            self.ask.as_str(),
        )
    }

    /// Appends the five space-separated fields as bytes.
    pub fn serialize(&self, dest: &mut Vec<u8>)
        requires
            self@.wf(),
        ensures
            final(dest)@ == old(dest)@ + ascii_bytes(self@.chars()),
    {
        proof {
            lemma_float_token(self@.bid);
            lemma_float_token(self@.ask);
        }
        self.date_time.serialize(dest);
        dest.push(32);
        push_ascii_chars(dest, self.id.as_str());
        dest.push(32);
        push_ascii_chars(dest, self.bid.as_str());
        dest.push(32);
        push_ascii_chars(dest, self.ask.as_str());
        dest.push(32);
        push_ascii_chars(dest, self.source.as_str());
        proof {
            assert((' ' as int) == 32);
            assert(final(dest)@ =~= old(dest)@ + ascii_bytes(self@.chars()));
        }
    }
}

/// Encoding a well-formed quote and decoding the line again yields the
/// same timestamp, provenance, id, bid, ask and source.
pub proof fn lemma_bid_ask_round_trip(q: BidAskView)
    requires
        q.wf(),
    ensures
        BidAsk::spec_parse(q.chars()) == Some(q),
        q.chars().len() >= 30,
        ascii_chars(q.chars()),
        forall|i: int|
            0 <= i < q.chars().len() ==> (#[trigger] q.chars()[i]) != '\r' && q.chars()[i] != '\n',
{
    let s = q.chars();
    let ts = q.date_time.chars();
    crate::datetime::lemma_date_time_round_trip(q.date_time);
    lemma_float_token(q.bid);
    lemma_float_token(q.ask);
    let n1: int = 22;
    let n2: int = n1 + 1 + q.id.len();
    let n3: int = n2 + 1 + q.bid.len();
    let n4: int = n3 + 1 + q.ask.len();
    let n: int = n4 + 1 + q.source.len();
    assert(s.len() == n);
    assert(s[n1] == ' ' && s[n2] == ' ' && s[n3] == ' ' && s[n4] == ' ');
    assert(forall|j: int| 0 <= j < n1 ==> s[j] == ts[j]);
    assert(forall|j: int| n1 < j < n2 ==> s[j] == q.id[j - n1 - 1]);
    assert(forall|j: int| n2 < j < n3 ==> s[j] == q.bid[j - n2 - 1]);
    assert(forall|j: int| n3 < j < n4 ==> s[j] == q.ask[j - n3 - 1]);
    assert(forall|j: int| n4 < j < n ==> s[j] == q.source[j - n4 - 1]);
    lemma_find_char_at(s, ' ', 0, n1);
    lemma_find_char_at(s, ' ', n1 + 1, n2);
    lemma_find_char_at(s, ' ', n2 + 1, n3);
    lemma_find_char_at(s, ' ', n3 + 1, n4);
    lemma_find_char_none(s, ' ', n4 + 1);
    assert(ascii_chars(s)) by {
        assert forall|i: int| 0 <= i < s.len() implies '\0' <= #[trigger] s[i] <= '\u{7f}' by {
            if i < n1 {
                assert(s[i] == ts[i]);
            } else if i == n1 || i == n2 || i == n3 || i == n4 {
                assert((' ' as int) == 32);
            } else if i < n2 {
                assert(s[i] == q.id[i - n1 - 1]);
            } else if i < n3 {
                assert(s[i] == q.bid[i - n2 - 1]);
            } else if i < n4 {
                assert(s[i] == q.ask[i - n3 - 1]);
            } else {
                assert(s[i] == q.source[i - n4 - 1]);
            }
        }
    }
    assert(s.subrange(0, n1) =~= ts);
    assert(s.subrange(n1 + 1, n2) =~= q.id);
    assert(s.subrange(n2 + 1, n3) =~= q.bid);
    assert(s.subrange(n3 + 1, n4) =~= q.ask);
    assert(s.subrange(n4 + 1, n) =~= q.source);
    assert(BidAsk::spec_parse(s) == Some(q));
    assert forall|i: int| 0 <= i < s.len() implies (#[trigger] s[i]) != '\r' && s[i] != '\n' by {
        if i < n1 {
            assert(s[i] == ts[i]);
        } else if i == n1 || i == n2 || i == n3 || i == n4 {
            assert((' ' as int) == 32 && ('\r' as int) == 13 && ('\n' as int) == 10);
        } else if i < n2 {
            assert(s[i] == q.id[i - n1 - 1]);
        } else if i < n3 {
            assert(s[i] == q.bid[i - n2 - 1]);
        } else if i < n4 {
            assert(s[i] == q.ask[i - n3 - 1]);
        } else {
            assert(s[i] == q.source[i - n4 - 1]);
        }
    }
}

/// The characters of the two keepalive lines.
pub open spec fn ping_chars() -> Seq<char> {
    seq!['P', 'I', 'N', 'G']
}

pub open spec fn pong_chars() -> Seq<char> {
    seq!['P', 'O', 'N', 'G']
}

/// The mathematical content of a message: a keepalive probe, its
/// reply, or a quote.
pub ghost enum BidAskContractView {
    Ping,
    Pong,
    BidAsk(BidAskView),
}

impl BidAskContractView {
    pub open spec fn wf(self) -> bool {
        match self {
            BidAskContractView::Ping => true,
            BidAskContractView::Pong => true,
            BidAskContractView::BidAsk(b) => b.wf(),
        }
    }

    /// The single line that encodes this message, without the
    /// terminating marker.
    pub open spec fn chars(self) -> Seq<char> {
        match self {
            BidAskContractView::Ping => ping_chars(),
            BidAskContractView::Pong => pong_chars(),
            BidAskContractView::BidAsk(b) => b.chars(),
        }
    }
}

/// A message exchanged with a downstream connection.
#[derive(Debug)]
pub enum BidAskContract {
    Ping,
    Pong,
    BidAsk(BidAsk),
}

impl View for BidAskContract {
    type V = BidAskContractView;

    open spec fn view(&self) -> BidAskContractView {
        match self {
            BidAskContract::Ping => BidAskContractView::Ping,
            BidAskContract::Pong => BidAskContractView::Pong,
            BidAskContract::BidAsk(b) => BidAskContractView::BidAsk(b@),
        }
    }
}

impl Clone for BidAskContract {
    fn clone(&self) -> (r: Self)
        ensures
            r@ == self@,
    {
        match self {
            BidAskContract::Ping => BidAskContract::Ping,
            BidAskContract::Pong => BidAskContract::Pong,
            BidAskContract::BidAsk(b) => BidAskContract::BidAsk(b.clone()),
        }
    }
}

impl BidAskContract {
    pub fn is_ping(&self) -> (r: bool)
        ensures
            r == (self@ is Ping),
    {
        match self {
            BidAskContract::Ping => true,
            _ => false,
        }
    }

    pub fn is_pong(&self) -> (r: bool)
        ensures
            r == (self@ is Pong),
    {
        match self {
            BidAskContract::Pong => true,
            _ => false,
        }
    }

    pub fn is_bid_ask(&self) -> (r: bool)
        ensures
            r == (self@ is BidAsk),
    {
        match self {
            BidAskContract::Ping => false,
            BidAskContract::Pong => false,
            BidAskContract::BidAsk(_) => true,
        }
    }

    /// Whether this message may stand on the wire.
    pub fn check_wf(&self) -> (r: bool)
        ensures
            r == self@.wf(),
    {
        match self {
            BidAskContract::Ping => true,
            BidAskContract::Pong => true,
            BidAskContract::BidAsk(b) => b.check_wf(),
        }
    }

    /// Decode of one line: the two keyword lines, else a quote line.
    pub open spec fn spec_parse(s: Seq<char>) -> Option<BidAskContractView> {
        if s == ping_chars() {
            Some(BidAskContractView::Ping)
        } else if s == pong_chars() {
            Some(BidAskContractView::Pong)
        } else {
            match BidAsk::spec_parse(s) {
                Some(b) => Some(BidAskContractView::BidAsk(b)),
                None => None,
            }
        }
    }

    /// Decodes one line, as [`Self::spec_parse`] states it.
    pub fn parse(src: &str) -> (r: Option<BidAskContract>)
        ensures
            (r is Some) == (Self::spec_parse(src@) is Some),
            r matches Some(c) ==> Self::spec_parse(src@) == Some(c@) && c@.wf(),
    {
        proof {
            lemma_keyword_words();
        }
        if !str_is_ascii(src) {
            proof {
                assert(src@ != ping_chars() && src@ != pong_chars());
            }
            return None;
        }
        if ascii_str_eq(src, "PING") {
            return Some(BidAskContract::Ping);
        }
        if ascii_str_eq(src, "PONG") {
            return Some(BidAskContract::Pong);
        }
        match BidAsk::parse(src) {
            Some(b) => Some(BidAskContract::BidAsk(b)),
            None => None,
        }
    }

    /// Appends the one line that encodes this message, without the
    /// terminating marker.
    pub fn serialize(&self, dest: &mut Vec<u8>)
        requires
            self@.wf(),
        ensures
            final(dest)@ == old(dest)@ + ascii_bytes(self@.chars()),
    {
        match self {
            BidAskContract::Ping => {
                dest.push(80);
                dest.push(73);
                dest.push(78);
                dest.push(71);
                proof {
                    assert(('P' as int) == 80 && ('I' as int) == 73 && ('N' as int) == 78 && (
                    'G' as int) == 71);
                    assert(final(dest)@ =~= old(dest)@ + ascii_bytes(ping_chars()));
                }
            },
            BidAskContract::Pong => {
                dest.push(80);
                dest.push(79);
                dest.push(78);
                dest.push(71);
                proof {
                    assert(('P' as int) == 80 && ('O' as int) == 79 && ('N' as int) == 78 && (
                    'G' as int) == 71);
                    assert(final(dest)@ =~= old(dest)@ + ascii_bytes(pong_chars()));
                }
            },
            BidAskContract::BidAsk(bid_ask) => {
                bid_ask.serialize(dest);
            },
        }
    }
}

/// The keyword string literals spell the keyword character sequences,
/// and both are ASCII.
pub proof fn lemma_keyword_words()
    ensures
        "PING"@ == ping_chars(),
        "PONG"@ == pong_chars(),
        vstd::string::is_ascii("PING"),
        vstd::string::is_ascii("PONG"),
        ascii_chars(ping_chars()),
        ascii_chars(pong_chars()),
{
    reveal_strlit("PING");
    reveal_strlit("PONG");
    assert("PING"@ =~= ping_chars());
    assert("PONG"@ =~= pong_chars());
    assert forall|i: int| 0 <= i < ping_chars().len() implies '\0' <= #[trigger] ping_chars()[i]
        <= '\u{7f}' by {
        assert(('P' as int) == 80 && ('I' as int) == 73 && ('N' as int) == 78 && ('G' as int)
            == 71);
    }
    assert forall|i: int| 0 <= i < pong_chars().len() implies '\0' <= #[trigger] pong_chars()[i]
        <= '\u{7f}' by {
        assert(('P' as int) == 80 && ('O' as int) == 79 && ('N' as int) == 78 && ('G' as int)
            == 71);
    }
}

/// Encoding any well-formed message and decoding the line again yields
/// the same message.
#[verifier::rlimit(40)]
pub proof fn lemma_contract_round_trip(m: BidAskContractView)
    requires
        m.wf(),
    ensures
        BidAskContract::spec_parse(m.chars()) == Some(m),
        ascii_chars(m.chars()),
        forall|i: int|
            0 <= i < m.chars().len() ==> (#[trigger] m.chars()[i]) != '\r' && m.chars()[i] != '\n',
{
    lemma_keyword_words();
    assert(('\r' as int) == 13 && ('\n' as int) == 10);
    match m {
        BidAskContractView::Ping => {
            assert(forall|i: int|
                0 <= i < ping_chars().len() ==> (#[trigger] ping_chars()[i]) != '\r'
                    && ping_chars()[i] != '\n');
        },
        BidAskContractView::Pong => {
            assert(forall|i: int|
                0 <= i < pong_chars().len() ==> (#[trigger] pong_chars()[i]) != '\r'
                    && pong_chars()[i] != '\n');
        },
        BidAskContractView::BidAsk(q) => {
            lemma_bid_ask_round_trip(q);
            assert(q.chars().len() >= 30);
            assert(q.chars() != ping_chars());
            assert(q.chars() != pong_chars());
        },
    }
}

} // verus!
