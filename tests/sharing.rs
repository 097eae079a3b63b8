use rusty_secrets::errors::{ErrorKind, ParseFailure};
use rusty_secrets::gf256::{add, div, inv, mul, pow};
use rusty_secrets::poly::{evaluate, interpolate};
use rusty_secrets::random::{random_bytes_count, FixedRandom, MAX_MESSAGE_SIZE};
use rusty_secrets::sss::{
    random_is_degenerate, recover_from_shares, recover_secret, split_secret_with_random,
    split_with_random,
};
use rusty_secrets::text::{share_from_string, share_to_string};

#[test]
fn deterministic_split_two_of_three() {
    let shares = split_with_random(2, 3, &vec![0xAA], &vec![0x01]).unwrap();
    assert_eq!(shares.len(), 3);
    assert_eq!(shares[0].data, vec![0xAB]);
    assert_eq!(shares[1].data, vec![0xA8]);
    assert_eq!(shares[2].data, vec![0xA9]);
    assert_eq!(shares[2].id, 3);
    assert_eq!(shares[2].threshold, 2);
}

#[test]
fn deterministic_split_with_fixed_source() {
    let source = FixedRandom::new((1u8..=16).collect());
    let random = source.random_bytes(random_bytes_count(2, 1)).unwrap();
    assert_eq!(random, vec![0x01]);
    let shares = split_with_random(2, 3, &vec![0xAA], &random).unwrap();
    let data: Vec<u8> = shares.iter().map(|s| s.data[0]).collect();
    assert_eq!(data, vec![0xAB, 0xA8, 0xA9]);
}

#[test]
fn split_then_recover_any_subset() {
    let secret = b"These programs were never about terrorism".to_vec();
    let k = 3u8;
    let random: Vec<u8> = (0..(2 * secret.len())).map(|i| (i * 7 + 3) as u8 | 1).collect();
    let shares = split_with_random(k, 5, &secret, &random).unwrap();
    for a in 0..5 {
        for b in (a + 1)..5 {
            for c in (b + 1)..5 {
                let subset = vec![shares[c].clone(), shares[a].clone(), shares[b].clone()];
                assert_eq!(recover_from_shares(&subset).unwrap(), secret);
            }
        }
    }
}

#[test]
fn textual_split_then_recover() {
    let secret = b"My secret\n".to_vec();
    let random: Vec<u8> = (1..=30).collect();
    let texts = split_secret_with_random(4, 6, &secret, &random).unwrap();
    assert_eq!(texts.len(), 6);
    assert!(texts[0].starts_with("4-1-"));
    let subset = vec![texts[5].clone(), texts[1].clone(), texts[3].clone(), texts[2].clone()];
    assert_eq!(recover_secret(&subset, &None).unwrap(), secret);
    assert_eq!(recover_secret(&texts[0..3].to_vec(), &None), Err(ErrorKind::MissingShares));
}

#[test]
fn text_round_trip() {
    let random: Vec<u8> = (1..=8).collect();
    let shares = split_with_random(2, 4, &vec![1, 2, 3, 4, 5, 6, 7, 8], &random).unwrap();
    for share in &shares {
        let text = share_to_string(share);
        let parsed = share_from_string(&text, false).unwrap();
        assert_eq!(parsed.id, share.id);
        assert_eq!(parsed.threshold, share.threshold);
        assert_eq!(parsed.data, share.data);
        let again = share_from_string(&share_to_string(&parsed), false).unwrap();
        assert_eq!(again.data, parsed.data);
    }
}

#[test]
fn text_is_trimmed_and_sign_accepted() {
    let share = &split_with_random(2, 2, &vec![9], &vec![5]).unwrap()[0];
    let text = format!("  +2-1-{}\n", share_to_string(share).split('-').nth(2).unwrap());
    assert_eq!(share_from_string(&text, false).unwrap().data, share.data);
}

#[test]
fn split_rejects_bad_parameters() {
    let s = vec![1u8, 2, 3];
    let r: Vec<u8> = vec![1; 30];
    assert_eq!(split_with_random(1, 3, &s, &r).unwrap_err(), ErrorKind::ThresholdTooSmall);
    assert_eq!(split_with_random(10, 7, &s, &r).unwrap_err(), ErrorKind::ThresholdTooBig);
    assert_eq!(split_with_random(2, 3, &vec![], &r).unwrap_err(), ErrorKind::EmptySecret);
    assert_eq!(
        split_with_random(3, 3, &s, &vec![1; 5]).unwrap_err(),
        ErrorKind::CannotGenerateRandomNumbers
    );
    assert!(MAX_MESSAGE_SIZE == usize::MAX / 254);
}

#[test]
fn split_rejects_degenerate_coefficients() {
    let s = vec![1u8, 2];
    let random = vec![7, 0];
    assert!(random_is_degenerate(2, 2, &random));
    assert!(!random_is_degenerate(2, 2, &vec![7, 1]));
    assert_eq!(
        split_with_random(2, 3, &s, &random).unwrap_err(),
        ErrorKind::CannotGenerateRandomNumbers
    );
    // Only the top coefficient of each byte matters.
    assert!(split_with_random(3, 3, &s, &vec![0, 1, 0, 1]).is_ok());
}

#[test]
fn recover_reports_duplicate_id() {
    let texts = split_secret_with_random(2, 3, &vec![1, 2], &vec![3, 4]).unwrap();
    let shares = vec![texts[0].clone(), texts[0].clone()];
    assert_eq!(recover_secret(&shares, &None), Err(ErrorKind::DuplicateShareId));
}

#[test]
fn recover_reports_inconsistencies() {
    let a = split_with_random(2, 3, &vec![1, 2], &vec![3, 4]).unwrap();
    let b = split_with_random(3, 3, &vec![1, 2], &vec![3, 4, 5, 6]).unwrap();
    let c = split_with_random(2, 3, &vec![1], &vec![3]).unwrap();
    assert_eq!(
        recover_from_shares(&vec![a[0].clone(), b[1].clone()]),
        Err(ErrorKind::InconsistentThresholds)
    );
    assert_eq!(
        recover_from_shares(&vec![a[0].clone(), c[1].clone()]),
        Err(ErrorKind::InconsistentSecretLengths)
    );
    assert_eq!(recover_from_shares(&vec![]), Err(ErrorKind::MissingShares));
    let mut low = a[0].clone();
    low.threshold = 1;
    assert_eq!(recover_from_shares(&vec![low]), Err(ErrorKind::ThresholdTooSmall));
    let mut zero = a[1].clone();
    zero.id = 0;
    assert_eq!(
        recover_from_shares(&vec![a[0].clone(), zero]),
        Err(ErrorKind::ShareParsingInvalidShareId(0))
    );
    assert_eq!(recover_from_shares(&vec![a[0].clone()]), Err(ErrorKind::MissingShares));
}

#[test]
fn parse_errors() {
    let bad = |s: &str| share_from_string(s, false).unwrap_err();
    assert_eq!(bad("2-1"), ErrorKind::ShareParsingError(ParseFailure::PartCount));
    assert_eq!(bad("2-1-AA-BB"), ErrorKind::ShareParsingError(ParseFailure::PartCount));
    assert_eq!(bad("x-1-AA"), ErrorKind::ShareParsingError(ParseFailure::Number));
    assert_eq!(bad("2-256-AA"), ErrorKind::ShareParsingError(ParseFailure::Number));
    assert_eq!(bad("2-0-AA"), ErrorKind::ShareParsingInvalidShareId(0));
    assert_eq!(bad("1-3-AA"), ErrorKind::ShareParsingInvalidShareThreshold(1, 3));
    assert_eq!(bad("2-3-"), ErrorKind::ShareParsingErrorEmptyShare(3));
    assert_eq!(bad("2-3-A"), ErrorKind::ShareParsingError(ParseFailure::Base64));
    assert_eq!(bad("2-3-AAA="), ErrorKind::ShareParsingError(ParseFailure::Base64));
    assert_eq!(bad("2-3-/w"), ErrorKind::ShareParsingError(ParseFailure::Payload));
}

#[test]
fn field_arithmetic() {
    assert_eq!(add(0x53, 0xCA), 0x99);
    assert_eq!(mul(3, 7), 9);
    assert_eq!(mul(2, 0x80), 0x1D);
    assert_eq!(mul(0, 0x80), 0);
    assert_eq!(pow(2, 8), 0x1D);
    assert_eq!(pow(2, 255), 1);
    assert_eq!(div(mul(0x57, 0x13), 0x13), 0x57);
    for a in 1..=255u8 {
        assert_eq!(mul(a, inv(a)), 1);
    }
    for a in [0u8, 1, 2, 0x57, 0xFF] {
        for b in [0u8, 3, 0x80, 0xC3] {
            for c in [1u8, 0x1D, 0x42] {
                assert_eq!(mul(a, add(b, c)), add(mul(a, b), mul(a, c)));
            }
        }
    }
}

#[test]
fn polynomial_evaluation_and_interpolation() {
    assert_eq!(evaluate(&vec![0xAA, 0x01], 2), 0xA8);
    assert_eq!(evaluate(&vec![5, 0, 1], 2), 5 ^ 4);
    assert_eq!(evaluate(&vec![], 9), 0);
    let coeffs = vec![0x42, 0x17, 0x99];
    let xs = vec![1u8, 5, 9];
    let ys: Vec<u8> = xs.iter().map(|&x| evaluate(&coeffs, x)).collect();
    assert_eq!(interpolate(&xs, &ys), 0x42);
}

#[test]
fn fixed_random_source() {
    let source = FixedRandom::new(vec![1, 2, 3]);
    assert_eq!(source.random_bytes(2).unwrap(), vec![1, 2]);
    assert_eq!(source.random_bytes(0).unwrap(), Vec::<u8>::new());
    assert_eq!(source.random_bytes(4), Err(ErrorKind::CannotGenerateRandomNumbers));
    let mut buf = vec![0u8; 3];
    assert!(source.fill(&mut buf).is_ok());
    assert_eq!(buf, vec![1, 2, 3]);
    assert_eq!(random_bytes_count(5, 10), 40);
    assert_eq!(random_bytes_count(2, MAX_MESSAGE_SIZE), MAX_MESSAGE_SIZE);
}

#[test]
fn share_text_exact_form() {
    let share = &split_with_random(2, 1 + 1, &vec![0xAA], &vec![0x01]).unwrap()[0];
    assert_eq!(share.data, vec![0xAB]);
    assert_eq!(share_to_string(share), "2-1-CgGr");
    let parsed = share_from_string("2-1-CgGr", false).unwrap();
    assert_eq!(parsed.data, vec![0xAB]);
    assert_eq!(parsed.id, 1);
    assert_eq!(parsed.threshold, 2);
    assert!(parsed.signatures.is_empty());
}

#[test]
fn signing_text_of_share() {
    assert_eq!(rusty_secrets::text::format_share_for_signing(2, 1, &vec![0xAB]), b"2-1-qw".to_vec());
    assert_eq!(rusty_secrets::text::format_share_for_signing(255, 17, &vec![]), b"255-17-".to_vec());
}
