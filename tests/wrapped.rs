use rusty_secrets::errors::ErrorKind;
use rusty_secrets::sss::{self, split_with_random};
use rusty_secrets::wrapped_secrets::{
    decode_secret, encode_secret, recover_secret, split_secret_with_random, VersionProto,
    WrappedSecrets,
};

#[test]
fn wrapped_round_trip_with_mime() {
    let random: Vec<u8> = (1..=200).collect();
    let texts = split_secret_with_random(3, 5, &b"hello".to_vec(), Some("text/html".to_string()), &random)
        .unwrap();
    let subset = vec![texts[4].clone(), texts[0].clone(), texts[2].clone()];
    let secret = recover_secret(&subset, &None).unwrap();
    assert_eq!(secret.version, VersionProto::InitialRelease);
    assert_eq!(secret.secret, b"hello".to_vec());
    assert_eq!(secret.mime_type, b"text/html".to_vec());
}

#[test]
fn envelope_encoding() {
    assert_eq!(encode_secret(&vec![1, 2], &vec![]), vec![0x12, 2, 1, 2]);
    assert_eq!(encode_secret(&vec![], &b"a".to_vec()), vec![0x1A, 1, b'a']);
    let env = decode_secret(&vec![0x08, 0, 0x12, 1, 7]).unwrap();
    assert_eq!(env.secret, vec![7]);
    assert_eq!(decode_secret(&vec![0x08, 1]).unwrap_err(), ErrorKind::SecretDeserializationError);
    assert_eq!(decode_secret(&vec![0x12, 5, 1]).unwrap_err(), ErrorKind::SecretDeserializationError);
}

#[test]
fn wrapped_recover_from_parsed_shares() {
    let env = encode_secret(&b"abc".to_vec(), &vec![]);
    let random: Vec<u8> = (1..=64).collect();
    let shares = split_with_random(2, 3, &env, &random).unwrap();
    let secret = WrappedSecrets::recover_secret(&shares, &None).unwrap();
    assert_eq!(secret.secret, b"abc".to_vec());
    let plain = split_with_random(2, 3, &vec![0xFF, 0x01], &vec![1, 1]).unwrap();
    assert_eq!(
        WrappedSecrets::recover_secret(&plain, &None).unwrap_err(),
        ErrorKind::SecretDeserializationError
    );
    let texts = sss::split_secret_with_random(2, 3, &env, &random).unwrap();
    assert_eq!(recover_secret(&texts, &None).unwrap().secret, b"abc".to_vec());
}

#[test]
fn wrapped_scheme_split_method() {
    let random: Vec<u8> = (1..=64).collect();
    let shares = WrappedSecrets
        .split_secret(2, 3, &b"xyz".to_vec(), Some("a/b".to_string()), &random)
        .unwrap();
    assert_eq!(shares.len(), 3);
    let secret = WrappedSecrets::recover_secret(&shares[1..].to_vec(), &None).unwrap();
    assert_eq!(secret.secret, b"xyz".to_vec());
    assert_eq!(secret.mime_type, b"a/b".to_vec());
    assert_eq!(
        WrappedSecrets.split_secret(2, 1, &b"xyz".to_vec(), None, &random).unwrap_err(),
        ErrorKind::ThresholdTooBig
    );
}
