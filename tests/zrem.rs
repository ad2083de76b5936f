use pelikan_core::zrem::{MalformedCommand, Message, SortedSetRemove};

fn bulk(b: &[u8]) -> Message {
    Message::BulkString(Some(b.to_vec()))
}

#[test]
fn new_and_getters() {
    let r = SortedSetRemove::new(b"z", &[b"a", b"b", b"c"]);
    assert_eq!(r.key(), b"z");
    let members: Vec<&[u8]> = r.members().iter().map(|m| m.as_slice()).collect();
    assert_eq!(members, vec![&b"a"[..], &b"b"[..], &b"c"[..]]);
}

#[test]
fn decode_zrem_array() {
    let m = Message::Array(Some(vec![bulk(b"ZREM"), bulk(b"z"), bulk(b"a"), bulk(b"b"), bulk(b"c")]));
    assert_eq!(
        SortedSetRemove::try_from(m),
        Ok(SortedSetRemove::new(b"z", &[b"a", b"b", b"c"]))
    );
}

#[test]
fn decode_zrem_malformed() {
    let bad = MalformedCommand::Malformed;
    assert_eq!(SortedSetRemove::try_from(Message::Array(None)), Err(bad));
    assert_eq!(SortedSetRemove::try_from(bulk(b"ZREM")), Err(bad));
    assert_eq!(SortedSetRemove::try_from(Message::Integer(3)), Err(bad));
    let short = Message::Array(Some(vec![bulk(b"ZREM"), bulk(b"z")]));
    assert_eq!(SortedSetRemove::try_from(short), Err(bad));
    let empty_member = Message::Array(Some(vec![bulk(b"ZREM"), bulk(b"z"), bulk(b"a"), bulk(b"")]));
    assert_eq!(SortedSetRemove::try_from(empty_member), Err(bad));
    let null_key = Message::Array(Some(vec![bulk(b"ZREM"), Message::BulkString(None), bulk(b"a")]));
    assert_eq!(SortedSetRemove::try_from(null_key), Err(bad));
    let nested = Message::Array(Some(vec![bulk(b"ZREM"), bulk(b"z"), Message::Array(Some(vec![]))]));
    assert_eq!(SortedSetRemove::try_from(nested), Err(bad));
}

#[test]
fn decode_zrem_empty_key_allowed() {
    let m = Message::Array(Some(vec![bulk(b"ZREM"), bulk(b""), bulk(b"a")]));
    assert_eq!(SortedSetRemove::try_from(m), Ok(SortedSetRemove::new(b"", &[b"a"])));
}

#[test]
fn to_message_is_flat_and_decodes_back() {
    let r = SortedSetRemove::new(b"key", &[b"m1", b"m2"]);
    let m = r.to_message();
    assert_eq!(
        m,
        Message::Array(Some(vec![bulk(b"ZREM"), bulk(b"key"), bulk(b"m1"), bulk(b"m2")]))
    );
    assert_eq!(SortedSetRemove::try_from(m), Ok(r));
}
