use token_table::codec;
use token_table::resolver::FlatBufferResolver;

#[test]
fn test_eu4_resolver() {
    let mut tokens = vec![String::new(); 0x3380];
    tokens[0x1b] = String::from("name");
    tokens[0x337f] = String::from("campaign_id");
    let data = FlatBufferResolver::create_data(tokens);
    let resolver = FlatBufferResolver::from_slice(&data);
    assert_eq!(resolver.resolve(0x1b), Some("name"));
    assert_eq!(resolver.resolve(0x337f), Some("campaign_id"));
    assert_eq!(resolver.resolve(0x1000), None);
}

#[test]
fn scenario_breakpoint_after_build() {
    let mut tokens = vec![String::new(); 0x3380];
    tokens[0x1b] = String::from("name");
    tokens[0x337f] = String::from("campaign_id");
    let data = FlatBufferResolver::create_data(tokens);
    let resolver = FlatBufferResolver::from_slice(&data);
    assert_eq!(resolver.breakpoint(), 0x1c);
    assert_eq!(resolver.value_count(), 0x1c + (0x3380 - 10000));
}

#[test]
fn round_trip_named_entries() {
    let mut tokens = vec![String::new(); 10005];
    tokens[0] = String::from("zero");
    tokens[2] = String::from("two");
    tokens[5] = String::from("five");
    tokens[10000] = String::from("high_start");
    tokens[10004] = String::from("high_end");
    let data = FlatBufferResolver::create_data(tokens);
    let resolver = FlatBufferResolver::from_slice(&data);
    assert_eq!(resolver.resolve(0), Some("zero"));
    assert_eq!(resolver.resolve(2), Some("two"));
    assert_eq!(resolver.resolve(5), Some("five"));
    assert_eq!(resolver.resolve(10000), Some("high_start"));
    assert_eq!(resolver.resolve(10004), Some("high_end"));
    // an interior unused low-segment identifier stays an empty placeholder
    assert_eq!(resolver.resolve(1), None);
    assert_eq!(resolver.resolve(3), None);
}

#[test]
fn gap_resolves_none() {
    let mut tokens = vec![String::new(); 10005];
    tokens[5] = String::from("five");
    tokens[10000] = String::from("high_start");
    let data = FlatBufferResolver::create_data(tokens);
    let resolver = FlatBufferResolver::from_slice(&data);
    assert_eq!(resolver.breakpoint(), 6);
    assert_eq!(resolver.resolve(6), None);
    assert_eq!(resolver.resolve(7), None);
    assert_eq!(resolver.resolve(5000), None);
    assert_eq!(resolver.resolve(9999), None);
}

#[test]
fn high_segment_offsets_and_sentinel() {
    let mut tokens = vec![String::new(); 10005];
    tokens[1] = String::from("one");
    tokens[10001] = String::from("h1");
    tokens[10003] = String::from("h3");
    let data = FlatBufferResolver::create_data(tokens);
    let resolver = FlatBufferResolver::from_slice(&data);
    assert_eq!(resolver.resolve(10001), Some("h1"));
    assert_eq!(resolver.resolve(10003), Some("h3"));
    // stored but empty: the sentinel reports as absent
    assert_eq!(resolver.resolve(10000), None);
    assert_eq!(resolver.resolve(10002), None);
    // beyond the stored high segment
    assert_eq!(resolver.resolve(10005), None);
    assert_eq!(resolver.resolve(65535), None);
}

#[test]
fn compaction_monotonic() {
    // all-empty low segment: one placeholder slot is retained
    let mut tokens = vec![String::new(); 10001];
    tokens[10000] = String::from("high");
    let data = FlatBufferResolver::create_data(tokens);
    let resolver = FlatBufferResolver::from_slice(&data);
    assert_eq!(resolver.breakpoint(), 1);
    assert!(resolver.value_count() >= usize::from(resolver.breakpoint()));
    assert_eq!(resolver.resolve(0), None);
    assert_eq!(resolver.resolve(10000), Some("high"));

    // fully used low segment: the breakpoint reaches the gap offset exactly
    let mut tokens = vec![String::new(); 10000];
    tokens[9999] = String::from("edge");
    let data = FlatBufferResolver::create_data(tokens);
    let resolver = FlatBufferResolver::from_slice(&data);
    assert_eq!(resolver.breakpoint(), 10000);
    assert!(resolver.value_count() >= usize::from(resolver.breakpoint()));
    assert_eq!(resolver.resolve(9999), Some("edge"));
    assert_eq!(resolver.resolve(10000), None);
}

#[test]
fn serialization_idempotent() {
    let mut tokens = vec![String::new(); 10003];
    tokens[1] = String::from("alpha");
    tokens[10002] = String::from("omega");
    let data = FlatBufferResolver::create_data(tokens);
    let (values, breakpoint) = codec::decode_table_bytes(&data).unwrap();
    let data_again = codec::encode_table_bytes(&values, breakpoint);
    assert_eq!(data, data_again);
    let (values_again, breakpoint_again) = codec::decode_table_bytes(&data_again).unwrap();
    assert_eq!(values, values_again);
    assert_eq!(breakpoint, breakpoint_again);
}

#[test]
fn empty_input_gives_empty_table() {
    let resolver = FlatBufferResolver::from_slice(&[]);
    assert_eq!(resolver.breakpoint(), 0);
    assert_eq!(resolver.value_count(), 0);
    assert_eq!(resolver.resolve(0), None);
    assert_eq!(resolver.resolve(1), None);
    assert_eq!(resolver.resolve(9999), None);
    assert_eq!(resolver.resolve(10000), None);
    assert_eq!(resolver.resolve(65535), None);
}

#[test]
fn malformed_bytes_rejected() {
    // too short to hold the two header fields
    assert!(FlatBufferResolver::try_from_slice(&[1, 2, 3]).is_none());
    // one string of length one whose byte is not valid UTF-8
    let bad_utf8 = [0u8, 0, 1, 0, 0, 0, 0, 0, 0, 0, 1, 0, 0, 0, 0, 0, 0, 0, 0xff];
    assert!(FlatBufferResolver::try_from_slice(&bad_utf8).is_none());
    // a count that promises more strings than the buffer holds
    let truncated = [0u8, 0, 2, 0, 0, 0, 0, 0, 0, 0];
    assert!(FlatBufferResolver::try_from_slice(&truncated).is_none());

    let mut tokens = vec![String::new(); 10000];
    tokens[3] = String::from("three");
    let mut data = FlatBufferResolver::create_data(tokens);
    // a well-formed encoding with trailing garbage is rejected
    data.push(0);
    assert!(FlatBufferResolver::try_from_slice(&data).is_none());
    // a truncated well-formed encoding is rejected
    data.pop();
    data.pop();
    assert!(FlatBufferResolver::try_from_slice(&data).is_none());
}

#[test]
fn unicode_names_round_trip() {
    let mut tokens = vec![String::new(); 10002];
    tokens[7] = String::from("caf\u{e9}");
    tokens[10001] = String::from("\u{65e5}\u{672c}\u{8a9e}");
    let data = FlatBufferResolver::create_data(tokens);
    let resolver = FlatBufferResolver::from_slice(&data);
    assert_eq!(resolver.resolve(7), Some("caf\u{e9}"));
    assert_eq!(resolver.resolve(10001), Some("\u{65e5}\u{672c}\u{8a9e}"));
    assert_eq!(resolver.resolve(10000), None);
}
