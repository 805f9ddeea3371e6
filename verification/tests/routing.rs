use price_router::adapter::{normalize_event, QuoteTick, UpstreamEvent};
use price_router::contract::BidAskContract;
use price_router::mapping::InstrumentMap;
use price_router::registry::ConnectionRegistry;
use price_router::router::{handle_event, plan_reply};
use price_router::settings::SettingsModel;

fn mapping_with(pairs: &[(&str, &str)]) -> InstrumentMap {
    let mut mapping = InstrumentMap::new();
    for (symbol, internal) in pairs {
        assert!(mapping.insert(symbol.to_string(), internal.to_string()));
    }
    mapping
}

fn eurusd_tick() -> QuoteTick {
    QuoteTick {
        symbol: "C:EURUSD".to_string(),
        bid: "1.0921".to_string(),
        ask: "1.0923".to_string(),
        timestamp_micros: 1_705_311_012_123_456,
    }
}

#[test]
fn register_rejects_duplicate_identifiers() {
    let mut registry: ConnectionRegistry<String> = ConnectionRegistry::new();
    assert!(registry.register(1, "a".to_string()));
    assert!(!registry.register(1, "b".to_string()));
    assert_eq!(registry.len(), 1);
}

#[test]
fn register_succeeds_again_after_unregister() {
    let mut registry: ConnectionRegistry<String> = ConnectionRegistry::new();
    assert!(registry.register(7, "a".to_string()));
    registry.unregister(7);
    assert!(!registry.contains(7));
    assert!(registry.register(7, "b".to_string()));
    assert_eq!(registry.len(), 1);
}

#[test]
fn unregister_of_absent_identifier_is_a_no_op() {
    let mut registry: ConnectionRegistry<String> = ConnectionRegistry::new();
    assert!(registry.register(1, "a".to_string()));
    registry.unregister(2);
    assert_eq!(registry.len(), 1);
    assert!(registry.contains(1));
}

#[test]
fn broadcast_targets_are_the_snapshot_at_the_call() {
    let mut registry: ConnectionRegistry<String> = ConnectionRegistry::new();
    assert!(registry.register(1, "a".to_string()));
    assert!(registry.register(2, "b".to_string()));
    let snapshot_ids: Vec<i32> = registry.broadcast().iter().map(|t| t.0).collect();
    assert_eq!(snapshot_ids, vec![1, 2]);
    assert!(registry.register(3, "c".to_string()));
    assert!(!snapshot_ids.contains(&3), "a later registration is excluded");
    let after_ids: Vec<i32> = registry.broadcast().iter().map(|t| t.0).collect();
    assert_eq!(after_ids, vec![1, 2, 3]);
}

#[test]
fn reply_reaches_only_a_registered_connection() {
    let mut registry: ConnectionRegistry<String> = ConnectionRegistry::new();
    assert!(registry.register(5, "sink".to_string()));
    let planned = plan_reply(&registry, 5, &BidAskContract::Ping);
    let (sink, message) = planned.expect("ping from a registered connection gets a reply");
    assert_eq!(sink, "sink");
    assert!(message.is_pong());
    assert!(plan_reply(&registry, 6, &BidAskContract::Ping).is_none());
    assert!(plan_reply(&registry, 5, &BidAskContract::Pong).is_none());
}

#[test]
fn unmapped_instrument_never_produces_a_broadcast() {
    let mapping = mapping_with(&[("C:GBPUSD", "GBPUSD")]);
    let mut registry: ConnectionRegistry<String> = ConnectionRegistry::new();
    assert!(registry.register(1, "a".to_string()));
    let event = UpstreamEvent::ForexQuoteTick(eurusd_tick());
    assert!(handle_event(&event, &mapping, &registry).is_none());
    assert!(normalize_event(&event, &mapping).is_none());
}

#[test]
fn status_events_are_ignored() {
    let mapping = mapping_with(&[("C:EURUSD", "EURUSD")]);
    let registry: ConnectionRegistry<String> = ConnectionRegistry::new();
    assert!(handle_event(&UpstreamEvent::Status, &mapping, &registry).is_none());
}

#[test]
fn mapped_quote_reaches_both_registered_connections() {
    let mapping = mapping_with(&[("C:EURUSD", "EURUSD")]);
    let mut registry: ConnectionRegistry<String> = ConnectionRegistry::new();
    assert!(registry.register(1, "conn-a".to_string()));
    assert!(registry.register(2, "conn-b".to_string()));
    let event = UpstreamEvent::ForexQuoteTick(eurusd_tick());
    let (message, targets) = handle_event(&event, &mapping, &registry).expect("mapped symbol");
    assert_eq!(targets.len(), 2);
    assert_eq!(targets[0].0, 1);
    assert_eq!(targets[1].0, 2);
    assert_eq!(targets[0].1, "conn-a");
    assert_eq!(targets[1].1, "conn-b");
    match &message {
        BidAskContract::BidAsk(quote) => {
            assert_eq!(quote.id, "EURUSD", "the internal id replaces the upstream symbol");
            assert_eq!(quote.bid, "1.0921");
            assert_eq!(quote.ask, "1.0923");
            assert_eq!(quote.source, "polygon");
        },
        _ => panic!("a quote event must become a quote message"),
    }
    let serializer = price_router::serializer::SourceFeedSerializer::new();
    let bytes = serializer.serialize(message);
    assert_eq!(bytes, b"S20240115093012.123456 EURUSD 1.0921 1.0923 polygon\r\n".to_vec());
}

#[test]
fn stock_ticks_normalize_with_source_provenance() {
    let mapping = mapping_with(&[("AAPL", "US_AAPL")]);
    let tick = QuoteTick {
        symbol: "AAPL".to_string(),
        bid: "189.5".to_string(),
        ask: "189.52".to_string(),
        timestamp_micros: 1_705_311_012_000_000,
    };
    let quote = normalize_event(&UpstreamEvent::StockQuoteTick(tick), &mapping)
        .expect("mapped stock tick");
    assert_eq!(quote.id, "US_AAPL");
    let date = quote.date_time.unwrap_as_source_date();
    assert_eq!((date.year, date.month, date.day), (2024, 1, 15));
    assert_eq!((date.hour, date.minute, date.second, date.micro), (9, 30, 12, 0));
}

#[test]
fn mapping_rejects_duplicates_and_bad_tokens() {
    let mut mapping = InstrumentMap::new();
    assert!(mapping.insert("C:EURUSD".to_string(), "EURUSD".to_string()));
    assert!(!mapping.insert("C:EURUSD".to_string(), "OTHER".to_string()));
    assert!(!mapping.insert("BAD SYMBOL".to_string(), "X".to_string()));
    assert!(!mapping.insert("OK".to_string(), "".to_string()));
    assert_eq!(mapping.len(), 1);
    assert_eq!(mapping.get(&"C:EURUSD".to_string()).unwrap(), "EURUSD");
    assert!(mapping.get(&"C:GBPUSD".to_string()).is_none());
}

#[test]
fn settings_carry_the_mapping_table() {
    let settings = SettingsModel {
        seq_conn_string: "SECRET-REDACTED".to_string(),
        ws_settings_base_url: "wss://socket.example".to_string(),
        polygon_token: "SECRET-REDACTED".to_string(),
        instruments_mapping: mapping_with(&[("C:EURUSD", "EURUSD")]),
    };
    assert!(settings.instruments_mapping.contains(&"C:EURUSD".to_string()));
}
