use base64::Engine;
use rusty_secrets::errors::ErrorKind;
use rusty_secrets::sss::{recover_secret, split_with_random, Share, SignatureChecks};
use rusty_secrets::text::{share_from_string, share_to_string};
use rusty_secrets::wrapped_secrets::{encode_secret, WrappedSecrets};

fn checks(roots: &Vec<Vec<u8>>, verified: &Vec<bool>) -> Option<SignatureChecks> {
    Some(SignatureChecks { roots: roots.clone(), verified: verified.clone() })
}

fn recover_secret_signed(texts: &Vec<String>, roots: &Vec<Vec<u8>>, verified: &Vec<bool>) -> Result<Vec<u8>, ErrorKind> {
    recover_secret(texts, &checks(roots, verified))
}

fn signed_shares(secret: &[u8]) -> Vec<Share> {
    let random: Vec<u8> = (1..=(2 * secret.len() as u8)).collect();
    let mut shares = split_with_random(3, 4, &secret.to_vec(), &random).unwrap();
    for s in shares.iter_mut() {
        s.signatures = vec![vec![s.id, 1], vec![s.id, 2]];
        s.proof = vec![0xAA, s.id];
    }
    shares
}

#[test]
fn signed_recovery_decides_on_given_results() {
    let shares = signed_shares(b"sig");
    let texts: Vec<String> = shares.iter().map(share_to_string).collect();
    let roots = vec![vec![7u8; 4]; 4];
    assert_eq!(recover_secret_signed(&texts, &roots, &vec![true; 4]).unwrap(), b"sig".to_vec());
    let mut other_roots = roots.clone();
    other_roots[1] = vec![8u8; 4];
    assert_eq!(
        recover_secret_signed(&texts, &other_roots, &vec![true; 4]),
        Err(ErrorKind::InconsistentRootHashes)
    );
    // Only the three kept shares (lowest ids) count.
    let mut late_root = roots.clone();
    late_root[3] = vec![9u8; 4];
    assert_eq!(recover_secret_signed(&texts, &late_root, &vec![true; 4]).unwrap(), b"sig".to_vec());
    assert_eq!(
        recover_secret_signed(&texts, &roots, &vec![true, false, true, true]),
        Err(ErrorKind::SignatureVerificationFailure)
    );
    assert_eq!(recover_secret(&texts, &None).unwrap(), b"sig".to_vec());
}

#[test]
fn signed_recovery_needs_signature_pairs() {
    let mut shares = signed_shares(b"sig");
    shares[0].signatures = Vec::new();
    let texts: Vec<String> = shares.iter().map(share_to_string).collect();
    assert_eq!(
        recover_secret_signed(&texts, &vec![vec![1]; 4], &vec![true; 4]),
        Err(ErrorKind::MissingSignatures)
    );
}

#[test]
fn unsigned_parse_drops_signature_pair() {
    let shares = signed_shares(b"sig");
    let text = share_to_string(&shares[0]);
    let unsigned = share_from_string(&text, false).unwrap();
    assert!(unsigned.signatures.is_empty() && unsigned.proof.is_empty());
    let signed = share_from_string(&text, true).unwrap();
    assert_eq!(signed.signatures, shares[0].signatures);
    assert_eq!(signed.proof, shares[0].proof);
}

#[test]
fn wrapped_signed_recovery_reports_missing_signatures() {
    let env = encode_secret(&b"abc".to_vec(), &vec![]);
    let random: Vec<u8> = (1..=64).collect();
    let mut shares = split_with_random(2, 3, &env, &random).unwrap();
    for s in shares.iter_mut() {
        s.signatures = vec![vec![1]];
        s.proof = vec![2];
    }
    let ok = checks(&vec![vec![3]; 3], &vec![true; 3]);
    assert_eq!(WrappedSecrets::recover_secret(&shares, &ok).unwrap().secret, b"abc".to_vec());
    let swapped = checks(&vec![vec![3], vec![4], vec![3]], &vec![true; 3]);
    assert_eq!(
        WrappedSecrets::recover_secret(&shares, &swapped).unwrap_err(),
        ErrorKind::InconsistentRootHashes
    );
    let forged = checks(&vec![vec![3]; 3], &vec![true, false, true]);
    assert_eq!(
        WrappedSecrets::recover_secret(&shares, &forged).unwrap_err(),
        ErrorKind::SignatureVerificationFailure
    );
    shares[1].proof = Vec::new();
    assert_eq!(
        WrappedSecrets::recover_secret(&shares, &ok).unwrap_err(),
        ErrorKind::MissingSignatures
    );
    // A share beyond the kept ones may lack them.
    shares[1].proof = vec![2];
    shares[2].signatures = Vec::new();
    assert_eq!(WrappedSecrets::recover_secret(&shares, &ok).unwrap().secret, b"abc".to_vec());
}

#[test]
fn unicode_whitespace_is_trimmed() {
    let shares = signed_shares(b"x");
    let text = share_to_string(&shares[0]);
    let padded = format!("\u{00A0}\u{3000} {}\u{2029}\u{00A0}", text);
    assert_eq!(share_from_string(&padded, false).unwrap().data, shares[0].data);
}

#[test]
fn unknown_payload_fields_are_skipped() {
    let engine = base64::engine::general_purpose::STANDARD_NO_PAD;
    // data = [5], then field 4 (varint 300) and field 5 (bytes "hi").
    let payload = vec![0x0A, 1, 5, 0x20, 0xAC, 0x02, 0x2A, 2, b'h', b'i'];
    let text = format!("2-1-{}", engine.encode(payload));
    let share = share_from_string(&text, false).unwrap();
    assert_eq!(share.data, vec![5]);
    let bad = format!("2-1-{}", engine.encode(vec![0x0A, 1, 5, 0x0B, 1]));
    assert!(share_from_string(&bad, false).is_err());
    // A known field with the wrong wire type is refused.
    let wrong = format!("2-1-{}", engine.encode(vec![0x08, 5]));
    assert!(share_from_string(&wrong, false).is_err());
    let env = rusty_secrets::wrapped_secrets::decode_secret(&vec![0x12, 1, 7, 0x20, 3, 0x2A, 0]).unwrap();
    assert_eq!(env.secret, vec![7]);
}

#[test]
fn envelope_mime_type_must_be_utf8() {
    let bad = rusty_secrets::wrapped_secrets::decode_secret(&vec![0x12, 1, 7, 0x1A, 1, 0xFF]);
    assert_eq!(bad.unwrap_err(), ErrorKind::SecretDeserializationError);
    let good = rusty_secrets::wrapped_secrets::decode_secret(&vec![0x12, 1, 7, 0x1A, 2, 0xC3, 0xA9]).unwrap();
    assert_eq!(good.mime_type, vec![0xC3, 0xA9]);
}

#[test]
fn data_part_outside_alphabet_is_rejected() {
    assert_eq!(
        share_from_string("2-1-!!!!", false).unwrap_err(),
        ErrorKind::ShareParsingError(rusty_secrets::errors::ParseFailure::Base64)
    );
}
