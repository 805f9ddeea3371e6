//! Translation of upstream feed events into canonical quote records:
//! the timestamp becomes calendar fields with `Source` provenance, the
//! upstream symbol is looked up in the instrument mapping table, and an
//! unmapped symbol drops the event silently.
use crate::contract::{BidAsk, BidAskView};
use crate::datetime::{BidAskDateTime, DateTimeMicros};
use crate::mapping::{map_contains, map_value, InstrumentMap};
use crate::number::is_float_text;
use crate::text::token_ok;
use chrono::{Datelike, Timelike};
use vstd::prelude::*;

verus! {

/// Epoch microseconds strictly below this stand for years up to 9999,
/// which the four-digit wire layout can carry.
pub const MAX_EPOCH_MICROS: i64 = 253_402_300_800_000_000;

/// The two independently subscribed upstream channels.
#[derive(Clone, Copy, Debug, PartialEq, Eq, Structural)]
pub enum SocketType {
    Forex,
    Stocks,
}

/// The mathematical content of one upstream quote tick.
pub ghost struct QuoteTickView {
    pub symbol: Seq<char>,
    pub bid: Seq<char>,
    pub ask: Seq<char>,
    pub timestamp_micros: i64,
}

impl QuoteTickView {
    /// Ranges under which a tick can become a wire quote: decimal
    /// texts for the prices and a timestamp within the calendar layout.
    pub open spec fn wf(self) -> bool {
        &&& is_float_text(self.bid)
        &&& is_float_text(self.ask)
        &&& 0 <= self.timestamp_micros < MAX_EPOCH_MICROS
    }
}

/// One quote tick as the upstream feed reports it, already reduced to
/// plain values: the prices as their decimal texts, the timestamp as
/// epoch microseconds.
#[derive(Debug)]
pub struct QuoteTick {
    pub symbol: String,
    pub bid: String,
    pub ask: String,
    pub timestamp_micros: i64,
}

impl View for QuoteTick {
    type V = QuoteTickView;

    open spec fn view(&self) -> QuoteTickView {
        QuoteTickView {
            symbol: self.symbol@,
            bid: self.bid@,
            ask: self.ask@,
            timestamp_micros: self.timestamp_micros,
        }
    }
}

/// The mathematical content of an upstream event.
pub ghost enum UpstreamEventView {
    Status,
    ForexQuoteTick(QuoteTickView),
    StockQuoteTick(QuoteTickView),
}

impl UpstreamEventView {
    pub open spec fn wf(self) -> bool {
        match self {
            UpstreamEventView::Status => true,
            UpstreamEventView::ForexQuoteTick(t) => t.wf(),
            UpstreamEventView::StockQuoteTick(t) => t.wf(),
        }
    }
}

/// One event from an upstream subscription: a status or heartbeat
/// notice, or a quote tick from one of the two channels.
#[derive(Debug)]
pub enum UpstreamEvent {
    Status,
    ForexQuoteTick(QuoteTick),
    StockQuoteTick(QuoteTick),
}

impl View for UpstreamEvent {
    type V = UpstreamEventView;

    open spec fn view(&self) -> UpstreamEventView {
        match self {
            UpstreamEvent::Status => UpstreamEventView::Status,
            UpstreamEvent::ForexQuoteTick(t) => UpstreamEventView::ForexQuoteTick(t@),
            UpstreamEvent::StockQuoteTick(t) => UpstreamEventView::StockQuoteTick(t@),
        }
    }
}

/// The calendar fields that a count of epoch microseconds resolves to
/// in UTC: year, month, day, hour, minute, second, microsecond, in
/// that order.
pub uninterp spec fn civil_of(micros: int) -> Seq<int>;

/// The timestamp whose fields are the calendar resolution of `micros`.
pub open spec fn date_time_of_micros(micros: int) -> DateTimeMicros {
    DateTimeMicros {
        year: civil_of(micros)[0] as u16,
        month: civil_of(micros)[1] as u8,
        day: civil_of(micros)[2] as u8,
        hour: civil_of(micros)[3] as u8,
        minute: civil_of(micros)[4] as u8,
        second: civil_of(micros)[5] as u8,
        micro: civil_of(micros)[6] as u32,
    }
}

/// Relies on chrono's `DateTime::from_timestamp_micros` and its
/// `Datelike`/`Timelike` accessors: epoch microseconds within range
/// resolve to one UTC calendar date and time, a function of the input
/// alone, with the fields in chrono's documented ranges; below the
/// year-10000 bound the year has at most four digits.  The sub-second
/// count stays below one million: a microsecond timestamp never lands
/// on chrono's leap-second representation, the one case where that
/// accessor exceeds it.
#[verifier::external_body]
fn civil_from_micros(us: i64) -> (r: (u16, u8, u8, u8, u8, u8, u32))
    requires
        0 <= us < MAX_EPOCH_MICROS,
    ensures
        r.0 as int == civil_of(us as int)[0],
        r.1 as int == civil_of(us as int)[1],
        r.2 as int == civil_of(us as int)[2],
        r.3 as int == civil_of(us as int)[3],
        r.4 as int == civil_of(us as int)[4],
        r.5 as int == civil_of(us as int)[5],
        r.6 as int == civil_of(us as int)[6],
        r.0 <= 9999,
        1 <= r.1 <= 12,
        1 <= r.2 <= 31,
        r.3 <= 23,
        r.4 <= 59,
        r.5 <= 59,
        r.6 < 1_000_000,
{
    let dt = chrono::DateTime::from_timestamp_micros(us).unwrap();
    (
        dt.year() as u16,
        dt.month() as u8,
        dt.day() as u8,
        dt.hour() as u8,
        dt.minute() as u8,
        dt.second() as u8,
        dt.timestamp_subsec_micros(),
    )
}

/// The calendar timestamp of an epoch microsecond count, well-formed
/// for the wire layout.
pub fn date_time_from_micros(us: i64) -> (r: DateTimeMicros)
    requires
        0 <= us < MAX_EPOCH_MICROS,
    ensures
        r == date_time_of_micros(us as int),
        r.wf(),
{
    let (year, month, day, hour, minute, second, micro) = civil_from_micros(us);
    DateTimeMicros { year, month, day, hour, minute, second, micro }
}

/// What a well-formed upstream event normalizes to: nothing for a
/// status notice or an unmapped symbol; otherwise the canonical quote,
/// with `Source` provenance, the internal mapped id, the tick's price
/// texts, and the fixed source tag.
pub open spec fn spec_normalize(e: UpstreamEventView, m: Seq<(Seq<char>, Seq<char>)>) -> Option<
    BidAskView,
> {
    match e {
        UpstreamEventView::Status => None,
        UpstreamEventView::ForexQuoteTick(t) => spec_normalize_tick(t, m),
        UpstreamEventView::StockQuoteTick(t) => spec_normalize_tick(t, m),
    }
}

pub open spec fn spec_normalize_tick(t: QuoteTickView, m: Seq<(Seq<char>, Seq<char>)>) -> Option<
    BidAskView,
> {
    if map_contains(m, t.symbol) {
        Some(
            BidAskView {
                date_time: BidAskDateTime::Source(date_time_of_micros(t.timestamp_micros as int)),
                id: map_value(m, t.symbol),
                bid: t.bid,
                ask: t.ask,
                source: "polygon"@,
            },
        )
    } else {
        None
    }
}

/// Normalizes one upstream event against the mapping table, as
/// [`spec_normalize`] states it; the result is a well-formed quote.
pub fn normalize_event(event: &UpstreamEvent, mapping: &InstrumentMap) -> (r: Option<BidAsk>)
    requires
        mapping.wf(),
        event@.wf(),
    ensures
        (r is Some) == (spec_normalize(event@, mapping@) is Some),
        r matches Some(b) ==> spec_normalize(event@, mapping@) == Some(b@) && b@.wf(),
{
    let tick = match event {
        UpstreamEvent::Status => {
            return None;
        },
        UpstreamEvent::ForexQuoteTick(t) => t,
        UpstreamEvent::StockQuoteTick(t) => t,
    };
    let internal = match mapping.get(&tick.symbol) {
        None => {
            return None;
        },
        Some(internal) => internal,
    };
    let date_time = date_time_from_micros(tick.timestamp_micros);
    let b = BidAsk {
        date_time: BidAskDateTime::Source(date_time),
        id: internal.clone(),
        bid: tick.bid.clone(),
        ask: tick.ask.clone(),
        source: String::from_str("polygon"),
    };
    proof {
        lemma_polygon_token();
        assert(token_ok(b@.id)) by {
            let w = choose|w: int|
                0 <= w < mapping@.len() && (#[trigger] mapping@[w]).0 == tick.symbol@;
            assert(token_ok(mapping@[w].1));
        }
        assert(b@.wf());
        assert(spec_normalize(event@, mapping@) == Some(b@));
    }
    Some(b)
}

/// The fixed source tag is a plain token.
pub proof fn lemma_polygon_token()
    ensures
        token_ok("polygon"@),
        "polygon"@.len() == 7,
{
    reveal_strlit("polygon");
    assert("polygon"@ =~= seq!['p', 'o', 'l', 'y', 'g', 'o', 'n']);
    assert forall|i: int| 0 <= i < "polygon"@.len() implies '\0' <= #[trigger] "polygon"@[i]
        <= '\u{7f}' by {
        assert("polygon"@ =~= seq!['p', 'o', 'l', 'y', 'g', 'o', 'n']);
    }
    assert forall|i: int|
        0 <= i < "polygon"@.len() implies (#[trigger] "polygon"@[i]) != ' ' && "polygon"@[i]
        != '\r' && "polygon"@[i] != '\n' by {
        assert("polygon"@ =~= seq!['p', 'o', 'l', 'y', 'g', 'o', 'n']);
    }
}

} // verus!
