use rusty_secrets::errors::{ErrorKind, ParseFailure};
use rusty_secrets::thss::{
    metadata_from_proto, recover_secret, share_from_string, share_to_protobuf, share_to_string,
    split_secret_with_random, MetaData, ThssShare,
};

#[test]
#[should_panic(expected = "ThresholdTooBig")]
fn test_generate_invalid_k() {
    let secret = b"These programs were never about terrorism: they're about economic spying, \
                  social control, and diplomatic manipulation. They're about power.";

    split_secret_with_random(10, 7, &secret.to_vec(), &None, &vec![1; 2000]).unwrap();
}

fn sample_metadata() -> MetaData {
    let mut m = MetaData::new();
    m.insert(b"zeta".to_vec(), b"last".to_vec());
    m.insert(b"alpha".to_vec(), b"first".to_vec());
    m.insert(b"mid".to_vec(), b"x".to_vec());
    m.insert(b"alpha".to_vec(), b"again".to_vec());
    m
}

#[test]
fn metadata_keys_are_sorted_and_replaced() {
    let m = sample_metadata();
    let keys: Vec<Vec<u8>> = m.tags.iter().map(|p| p.0.clone()).collect();
    assert_eq!(keys, vec![b"alpha".to_vec(), b"mid".to_vec(), b"zeta".to_vec()]);
    assert_eq!(m.tags[0].1, b"again".to_vec());
    let from_wire = metadata_from_proto(vec![
        (b"b".to_vec(), b"1".to_vec()),
        (b"a".to_vec(), b"2".to_vec()),
        (b"b".to_vec(), b"3".to_vec()),
    ]);
    assert_eq!(from_wire.tags, vec![(b"a".to_vec(), b"2".to_vec()), (b"b".to_vec(), b"3".to_vec())]);
}

#[test]
fn thss_split_text_round_trip_and_recover() {
    let secret = b"New directions".to_vec();
    let random: Vec<u8> = (1..=60).collect();
    let shares =
        split_secret_with_random(3, 5, &secret, &Some(sample_metadata()), &random).unwrap();
    assert_eq!(shares.len(), 5);
    assert_eq!(shares[4].shares_count, 5);
    let texts: Vec<String> = shares.iter().map(share_to_string).collect();
    assert!(texts[1].starts_with("3-2-"));
    let parsed: Vec<ThssShare> = texts.iter().map(|t| share_from_string(t).unwrap()).collect();
    for (a, b) in parsed.iter().zip(shares.iter()) {
        assert_eq!(a.id, b.id);
        assert_eq!(a.shares_count, 5);
        assert_eq!(a.data, b.data);
        assert_eq!(a.metadata.as_ref().unwrap().tags, b.metadata.as_ref().unwrap().tags);
    }
    let subset: Vec<ThssShare> = parsed.into_iter().skip(2).collect();
    assert_eq!(recover_secret(&subset).unwrap(), secret);
}

#[test]
fn thss_payload_layout() {
    let share = ThssShare { id: 1, threshold: 2, shares_count: 3, data: vec![9], metadata: None };
    assert_eq!(share_to_protobuf(&share), vec![0x08, 1, 0x10, 2, 0x18, 3, 0x22, 1, 9]);
    let with_meta = ThssShare {
        id: 1,
        threshold: 2,
        shares_count: 3,
        data: vec![],
        metadata: Some(MetaData::new()),
    };
    assert_eq!(share_to_protobuf(&with_meta), vec![0x08, 1, 0x10, 2, 0x18, 3, 0x32, 0]);
}

#[test]
fn thss_parse_errors() {
    let share = ThssShare { id: 2, threshold: 2, shares_count: 3, data: vec![9], metadata: None };
    let text = share_to_string(&share);
    let b64 = text.split('-').nth(2).unwrap().to_string();
    assert_eq!(share_from_string(&text).unwrap().id, 2);
    assert_eq!(
        share_from_string(&format!("3-2-{}", b64)).unwrap_err(),
        ErrorKind::ShareParsingError(ParseFailure::ThresholdMismatch)
    );
    assert_eq!(
        share_from_string(&format!("2-1-{}", b64)).unwrap_err(),
        ErrorKind::ShareParsingError(ParseFailure::IdMismatch)
    );
    let bad = ThssShare { id: 4, threshold: 2, shares_count: 3, data: vec![9], metadata: None };
    assert_eq!(
        share_from_string(&share_to_string(&bad)).unwrap_err(),
        ErrorKind::ShareParsingError(ParseFailure::IllegalShareInfo)
    );
    assert_eq!(
        share_from_string("2-2").unwrap_err(),
        ErrorKind::ShareParsingError(ParseFailure::PartCount)
    );
}

#[test]
fn thss_payload_fields_are_cross_checked() {
    let share = ThssShare { id: 1, threshold: 2, shares_count: 3, data: vec![9], metadata: None };
    let text = share_to_string(&share);
    let fields = rusty_secrets::thss::parse_share_protobuf(&text).unwrap();
    assert_eq!((fields.id, fields.threshold, fields.shares_count), (1, 2, 3));
    assert_eq!(fields.data, vec![9]);
    assert!(fields.entries.is_none());
}

#[test]
fn thss_recover_checks_share_counts() {
    let random: Vec<u8> = (1..=8).collect();
    let shares = split_secret_with_random(2, 3, &vec![4, 5], &None, &random).unwrap();
    let mut odd = ThssShare { id: 2, threshold: 2, shares_count: 4, data: shares[1].data.clone(), metadata: None };
    let first = ThssShare { id: 1, threshold: 2, shares_count: 3, data: shares[0].data.clone(), metadata: None };
    assert_eq!(
        recover_secret(&vec![first, odd]).unwrap_err(),
        ErrorKind::InconsistentShareCounts
    );
    odd = ThssShare { id: 5, threshold: 2, shares_count: 3, data: shares[1].data.clone(), metadata: None };
    let first = ThssShare { id: 1, threshold: 2, shares_count: 3, data: shares[0].data.clone(), metadata: None };
    assert_eq!(
        recover_secret(&vec![first, odd]).unwrap_err(),
        ErrorKind::ShareParsingError(ParseFailure::IllegalShareInfo)
    );
    assert_eq!(recover_secret(&shares).unwrap(), vec![4, 5]);
}

#[test]
fn thss_nonempty_hash_is_rejected() {
    let share = ThssShare { id: 1, threshold: 2, shares_count: 3, data: vec![9], metadata: None };
    let mut payload = share_to_protobuf(&share);
    payload.extend_from_slice(&[0x2A, 1, 7]);
    let text = format!("2-1-{}", base64::Engine::encode(&base64::engine::general_purpose::STANDARD_NO_PAD, payload));
    assert_eq!(
        share_from_string(&text).unwrap_err(),
        ErrorKind::ShareParsingError(ParseFailure::Payload)
    );
}
