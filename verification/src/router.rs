//! The thin composition point: an upstream event becomes, via the
//! adapter and the mapping table, one `Quote` message together with the
//! registry snapshot it is delivered to; an inbound `Ping` becomes a
//! `Pong` reply on the same connection.  The router holds no state of
//! its own.
use crate::adapter::{normalize_event, spec_normalize, UpstreamEvent};
use crate::mapping::InstrumentMap;
use crate::contract::{BidAskContract, BidAskContractView};
use crate::registry::ConnectionRegistry;
use vstd::prelude::*;

verus! {

/// Routes one upstream event: `None` exactly when the event is a
/// status notice or its symbol is unmapped (such an event never
/// produces a broadcast); otherwise the quote message and the snapshot
/// of every connection registered at this moment.  A connection
/// registered after this call is not among the targets.
pub fn handle_event<'a, S>(
    event: &UpstreamEvent,
    mapping: &InstrumentMap,
    registry: &'a ConnectionRegistry<S>,
) -> (r: Option<(BidAskContract, Vec<(i32, &'a S)>)>)
    requires
        mapping.wf(),
        event@.wf(),
    ensures
        (r is Some) == (spec_normalize(event@, mapping@) is Some),
        r matches Some(p) ==> ({
            &&& p.0@ matches BidAskContractView::BidAsk(b) && spec_normalize(event@, mapping@)
                == Some(b)
            &&& p.0@.wf()
            &&& p.1@.len() == registry@.len()
            &&& forall|i: int|
                0 <= i < p.1@.len() ==> (#[trigger] p.1@[i]).0 == registry@[i].0 && *p.1@[i].1
                    == registry@[i].1
        }),
{
    match normalize_event(event, mapping) {
        None => None,
        Some(bid_ask) => {
            let message = BidAskContract::BidAsk(bid_ask);
            let targets = registry.broadcast();
            Some((message, targets))
        },
    }
}

/// Plans the reply to one inbound message: a `Pong` to the same
/// connection exactly when the message is a `Ping` and the connection
/// is still registered; anything else, or a connection gone in the
/// meantime, gets no reply.
pub fn plan_reply<'a, S>(registry: &'a ConnectionRegistry<S>, id: i32, inbound: &BidAskContract) -> (r:
    Option<(&'a S, BidAskContract)>)
    requires
        registry.wf(),
    ensures
        (r is Some) == (inbound@ is Ping && registry.spec_contains(id)),
        r matches Some(p) ==> p.1@ == BidAskContractView::Pong && exists|i: int|
            0 <= i < registry@.len() && #[trigger] registry@[i] == (id, *p.0),
{
    if !inbound.is_ping() {
        return None;
    }
    match registry.reply(id) {
        None => None,
        Some(sink) => Some((sink, BidAskContract::Pong)),
    }
}

} // verus!
