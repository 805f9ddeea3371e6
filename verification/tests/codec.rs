use price_router::contract::{BidAsk, BidAskContract};
use price_router::datetime::{BidAskDateTime, DateTimeMicros};
use price_router::number::check_float_text;
use price_router::serializer::{DecodeError, SourceFeedSerializer};

#[test]
fn decode_ping_yields_ping() {
    let parsed = BidAskContract::parse("PING").expect("PING must decode");
    assert!(parsed.is_ping());
    assert!(!parsed.is_pong());
    assert!(!parsed.is_bid_ask());
}

#[test]
fn decode_pong_yields_pong() {
    let parsed = BidAskContract::parse("PONG").expect("PONG must decode");
    assert!(parsed.is_pong());
    assert!(!parsed.is_ping());
}

#[test]
fn encode_pong_is_exact() {
    let serializer = SourceFeedSerializer::new();
    let bytes = serializer.serialize(BidAskContract::Pong);
    assert_eq!(bytes, b"PONG\r\n".to_vec());
}

#[test]
fn encode_ping_is_exact() {
    let serializer = SourceFeedSerializer::new();
    let bytes = serializer.serialize(serializer.get_ping());
    assert_eq!(bytes, b"PING\r\n".to_vec());
}

#[test]
fn quote_line_decodes_and_reencodes_identically() {
    let line = "S20240115093012.123456 EURUSD 1.0921 1.0923 polygon";
    let quote = BidAsk::parse(line).expect("well-formed quote line must decode");
    let date = quote.date_time.unwrap_as_source_date();
    assert_eq!(date.year, 2024);
    assert_eq!(date.month, 1);
    assert_eq!(date.day, 15);
    assert_eq!(date.hour, 9);
    assert_eq!(date.minute, 30);
    assert_eq!(date.second, 12);
    assert_eq!(date.micro, 123_456);
    assert_eq!(quote.id, "EURUSD");
    assert_eq!(quote.bid.parse::<f64>().unwrap(), 1.0921);
    assert_eq!(quote.ask.parse::<f64>().unwrap(), 1.0923);
    assert_eq!(quote.source, "polygon");
    let mut out = Vec::new();
    quote.serialize(&mut out);
    assert_eq!(out, line.as_bytes().to_vec());
}

#[test]
fn timestamp_fraction_scales_to_microseconds() {
    let t = BidAskDateTime::parse("S20240101000000.123").expect("three digits are valid");
    assert_eq!(t.unwrap_as_source_date().micro, 123_000);
    let t = BidAskDateTime::parse("S20240101000000.1").expect("one digit is valid");
    assert_eq!(t.unwrap_as_source_date().micro, 100_000);
    let t = BidAskDateTime::parse("S20240101000000.12345").expect("five digits are valid");
    assert_eq!(t.unwrap_as_source_date().micro, 123_450);
    let t = BidAskDateTime::parse("S20240101000000.123456").expect("six digits are valid");
    assert_eq!(t.unwrap_as_source_date().micro, 123_456);
    assert!(BidAskDateTime::parse("S20240101000000.").is_none());
    assert!(BidAskDateTime::parse("S20240101000000.1234567").is_none());
}

#[test]
fn timestamp_round_trips_through_encode() {
    let dt = DateTimeMicros { year: 2024, month: 1, day: 15, hour: 9, minute: 30, second: 12, micro: 123_456 };
    for original in [BidAskDateTime::Source(dt), BidAskDateTime::Our(dt)] {
        let mut out = Vec::new();
        original.serialize(&mut out);
        let text = String::from_utf8(out).unwrap();
        let back = BidAskDateTime::parse(&text).expect("encoded timestamp must decode");
        assert_eq!(back, original);
    }
}

#[test]
fn our_provenance_survives_the_round_trip() {
    let t = BidAskDateTime::parse("O20240101120000.5").expect("local marker is valid");
    assert_eq!(t.unwrap_as_our_date().hour, 12);
    assert_eq!(t.unwrap_as_our_date().micro, 500_000);
    let mut out = Vec::new();
    t.serialize(&mut out);
    assert_eq!(out, b"O20240101120000.500000".to_vec());
}

#[test]
fn unknown_provenance_marker_is_rejected() {
    assert!(BidAskDateTime::parse("X20240101000000.123456").is_none());
}

#[test]
fn out_of_range_calendar_fields_are_rejected() {
    assert!(BidAskDateTime::parse("S20241301000000.123456").is_none());
    assert!(BidAskDateTime::parse("S20240100000000.123456").is_none());
    assert!(BidAskDateTime::parse("S20240101240000.123456").is_none());
    assert!(BidAskDateTime::parse("S2024010100000a.123456").is_none());
}

#[test]
fn too_few_fields_fail_without_crashing() {
    assert!(BidAsk::parse("S20240115093012.123456 EURUSD 1.0921").is_none());
    assert!(BidAsk::parse("S20240115093012.123456").is_none());
    assert!(BidAsk::parse("").is_none());
    assert!(BidAskContract::parse("S20240115093012.123456 EURUSD").is_none());
}

#[test]
fn six_fields_fail() {
    assert!(BidAsk::parse("S20240115093012.123456 EURUSD 1.0921 1.0923 polygon extra").is_none());
}

#[test]
fn malformed_numbers_fail_that_line_only() {
    assert!(BidAsk::parse("S20240115093012.123456 EURUSD abc 1.0923 polygon").is_none());
    assert!(BidAsk::parse("S20240115093012.123456 EURUSD 1.0921 1.2.3 polygon").is_none());
}

#[test]
fn float_texts_follow_standard_parsing() {
    for good in ["1.0921", "-1.5", "+5", ".5", "5.", "1e-7", "2E10", "inf", "-inf", "NaN", "Infinity", "0"] {
        assert!(check_float_text(good), "{good} must be accepted");
        assert!(good.parse::<f64>().is_ok(), "{good} must parse as f64");
    }
    for bad in ["", ".", "1.2.3", "1e", "+-5", "e5", "1f3", "--1", "1.5 "] {
        assert!(!check_float_text(bad), "{bad} must be rejected");
        assert!(bad.parse::<f64>().is_err(), "{bad} must not parse as f64");
    }
}

#[test]
fn quote_message_round_trips_through_the_serializer() {
    let line = "S20240115093012.123456 EURUSD 1.0921 1.0923 polygon";
    let quote = BidAsk::parse(line).unwrap();
    let serializer = SourceFeedSerializer::new();
    let bytes = serializer.serialize(BidAskContract::BidAsk(quote));
    let mut expected = line.as_bytes().to_vec();
    expected.extend_from_slice(b"\r\n");
    assert_eq!(bytes, expected);
}

#[test]
fn deserialize_waits_for_the_end_marker() {
    let mut serializer = SourceFeedSerializer::new();
    assert!(serializer.feed(b"PI").is_ok());
    assert!(matches!(serializer.deserialize(), Ok(None)));
    assert!(serializer.feed(b"NG\r\nPO").is_ok());
    let first = serializer.deserialize().unwrap().expect("first line complete");
    assert!(first.is_ping());
    assert!(matches!(serializer.deserialize(), Ok(None)));
    assert!(serializer.feed(b"NG\r\n").is_ok());
    let second = serializer.deserialize().unwrap().expect("second line complete");
    assert!(second.is_pong());
}

#[test]
fn malformed_line_is_consumed_and_decoding_goes_on() {
    let mut serializer = SourceFeedSerializer::new();
    assert!(serializer.feed(b"garbage\r\nPING\r\n").is_ok());
    assert!(matches!(serializer.deserialize(), Err(DecodeError::MalformedLine)));
    let next = serializer.deserialize().unwrap().expect("next line intact");
    assert!(next.is_ping());
}

#[test]
fn buffer_ceiling_guards_against_unbounded_lines() {
    let mut serializer = SourceFeedSerializer::new();
    let chunk = vec![b'a'; 24_576];
    assert!(serializer.feed(&chunk).is_ok());
    assert_eq!(serializer.feed(b"a"), Err(DecodeError::BufferLimitExceeded));
    let mut other = SourceFeedSerializer::new();
    let mut big = vec![b'a'; 10];
    big.extend_from_slice(b"\r\n");
    big.extend(vec![b'b'; 30_000]);
    assert!(other.feed(&big).is_ok(), "a marker inside keeps the feed alive");
}

#[test]
fn push_with_leading_zero_pads_to_two_digits() {
    let mut out = Vec::new();
    price_router::datetime::push_with_leading_zero(&mut out, 7);
    price_router::datetime::push_with_leading_zero(&mut out, 42);
    price_router::datetime::push_with_leading_zero(&mut out, 0);
    assert_eq!(out, b"074200".to_vec());
}

#[test]
fn check_wf_accepts_decoded_quotes() {
    let quote = BidAsk::parse("S20240115093012.123456 EURUSD 1.0921 1.0923 polygon").unwrap();
    assert!(quote.check_wf());
    let mut broken = quote.clone();
    broken.id = "EUR USD".to_string();
    assert!(!broken.check_wf());
    assert!(BidAskContract::Ping.check_wf());
}

#[test]
fn non_ascii_lines_are_malformed() {
    assert!(BidAskContract::parse("S20240115093012.123456 EURÜSD 1.0921 1.0923 polygon").is_none());
    let mut serializer = SourceFeedSerializer::new();
    assert!(serializer.feed(&[0xff, 0xfe, 13, 10]).is_ok());
    assert!(matches!(serializer.deserialize(), Err(DecodeError::MalformedLine)));
}

#[test]
fn framed_message_round_trips_through_feed_and_deserialize() {
    let line = "S20240115093012.123456 EURUSD 1.0921 1.0923 polygon";
    let quote = BidAsk::parse(line).unwrap();
    let mut serializer = SourceFeedSerializer::new();
    let framed = serializer.serialize(BidAskContract::BidAsk(quote));
    assert!(serializer.feed(&framed).is_ok());
    let back = serializer.deserialize().unwrap().expect("one full frame");
    match back {
        BidAskContract::BidAsk(q) => {
            let mut reencoded = Vec::new();
            q.serialize(&mut reencoded);
            assert_eq!(reencoded, line.as_bytes().to_vec(), "the marker never reaches the result");
        },
        _ => panic!("a quote frame must decode to a quote"),
    }
    assert!(matches!(serializer.deserialize(), Ok(None)));
}
