//! The textual form of a share: `{k}-{i}-{base64(payload)}`.
use vstd::prelude::*;
use vstd::string::StringSliceAdditionalSpecFns;
use crate::errors::{ErrorKind, ParseFailure};
use crate::payload::{copy_range, copy_slice, decode, push_bytes, decode_payload, encode, encode_payload, lemma_decode_encode, Payload, payload_of};
use crate::sss::{Share, ShareModel};

verus! {

/// The byte `-`.
pub const DASH: u8 = 45;

/// The byte `0`.
pub const ZERO: u8 = 48;

/// The byte `+`.
pub const PLUS: u8 = 43;

/// The standard base64 encoding of `b`, without padding, as ASCII bytes.
pub uninterp spec fn base64_of(b: Seq<u8>) -> Seq<u8>;

/// A byte of the standard base64 alphabet `A-Za-z0-9+/`.
pub open spec fn is_base64_byte(c: u8) -> bool {
    (65 <= c <= 90) || (97 <= c <= 122) || (48 <= c <= 57) || c == 43 || c == 47
}

/// Relies on base64's `STANDARD_NO_PAD.encode`: the encoding draws on the
/// standard alphabet only, is empty only for empty input, and no other input
/// has the same encoding.
#[verifier::external_body]
pub(crate) fn encode_base64(b: &Vec<u8>) -> (r: Vec<u8>)
    ensures
        r@ == base64_of(b@),
        forall|i: int| 0 <= i < r@.len() ==> is_base64_byte(#[trigger] r@[i]),
        b@.len() > 0 ==> r@.len() > 0,
        forall|x: Seq<u8>| #[trigger] base64_of(x) == r@ ==> x == b@,
{
    base64::Engine::encode(&base64::engine::general_purpose::STANDARD_NO_PAD, b).into_bytes()
}

#[verifier::external_type_specification]
#[verifier::external_body]
pub struct ExDecodeError(base64::DecodeError);

/// Relies on base64's `STANDARD_NO_PAD.decode`: it succeeds exactly on the
/// canonical unpadded encodings, and returns the bytes that were encoded; a
/// byte outside the alphabet (padding included) is an error.
#[verifier::external_body]
pub(crate) fn decode_base64(s: &Vec<u8>) -> (r: Result<Vec<u8>, base64::DecodeError>)
    ensures
        r is Ok ==> base64_of(r->Ok_0@) == s@,
        forall|x: Seq<u8>| #[trigger] base64_of(x) == s@ ==> r is Ok && r->Ok_0@ == x,
        (exists|j: int| 0 <= j < s@.len() && !is_base64_byte(#[trigger] s@[j])) ==> r is Err,
{
    base64::Engine::decode(&base64::engine::general_purpose::STANDARD_NO_PAD, s)
}

/// Relies on `std::str::from_utf8`: it succeeds exactly on well-formed UTF-8.
#[verifier::external_body]
pub(crate) fn is_utf8(b: &[u8]) -> (r: bool)
    ensures
        r == vstd::utf8::valid_utf8(b@),
{
    std::str::from_utf8(b).is_ok()
}

/// The bytes that `s` is the base64 encoding of, if any.
pub open spec fn decoded_base64(s: Seq<u8>) -> Option<Seq<u8>> {
    if exists|x: Seq<u8>| #[trigger] base64_of(x) == s {
        Some(choose|x: Seq<u8>| #[trigger] base64_of(x) == s)
    } else {
        None
    }
}

/// An ASCII whitespace byte.
pub open spec fn is_space(c: u8) -> bool {
    c == 32 || (9 <= c <= 13)
}

/// The last byte of a three-byte whitespace character `E2 80 xx`.
pub open spec fn is_e280_space(c: u8) -> bool {
    (0x80 <= c <= 0x8A) || c == 0xA8 || c == 0xA9 || c == 0xAF
}

/// The length of the whitespace character (Unicode `White_Space`, in UTF-8)
/// that `t` starts with, or 0.
pub open spec fn space_len_front(t: Seq<u8>) -> nat {
    if t.len() >= 1 && is_space(t[0]) {
        1
    } else if t.len() >= 2 && t[0] == 0xC2 && (t[1] == 0x85 || t[1] == 0xA0) {
        2
    } else if t.len() >= 3 && ((t[0] == 0xE1 && t[1] == 0x9A && t[2] == 0x80) || (t[0] == 0xE2 && t[1]
        == 0x80 && is_e280_space(t[2])) || (t[0] == 0xE2 && t[1] == 0x81 && t[2] == 0x9F) || (t[0]
        == 0xE3 && t[1] == 0x80 && t[2] == 0x80)) {
        3
    } else {
        0
    }
}

/// The length of the whitespace character that `t` ends with, or 0.
pub open spec fn space_len_back(t: Seq<u8>) -> nat {
    let n = t.len() as int;
    if n >= 1 && is_space(t[n - 1]) {
        1
    } else if n >= 2 && t[n - 2] == 0xC2 && (t[n - 1] == 0x85 || t[n - 1] == 0xA0) {
        2
    } else if n >= 3 && ((t[n - 3] == 0xE1 && t[n - 2] == 0x9A && t[n - 1] == 0x80) || (t[n - 3] == 0xE2
        && t[n - 2] == 0x80 && is_e280_space(t[n - 1])) || (t[n - 3] == 0xE2 && t[n - 2] == 0x81 && t[n
        - 1] == 0x9F) || (t[n - 3] == 0xE3 && t[n - 2] == 0x80 && t[n - 1] == 0x80)) {
        3
    } else {
        0
    }
}

/// `t` without leading whitespace.
pub open spec fn trim_start(t: Seq<u8>) -> Seq<u8>
    decreases t.len(),
{
    if space_len_front(t) > 0 {
        trim_start(t.subrange(space_len_front(t) as int, t.len() as int))
    } else {
        t
    }
}

/// `t` without trailing whitespace.
pub open spec fn trim_end(t: Seq<u8>) -> Seq<u8>
    decreases t.len(),
{
    if space_len_back(t) > 0 {
        trim_end(t.subrange(0, t.len() - space_len_back(t)))
    } else {
        t
    }
}

/// `t` without surrounding whitespace.
pub open spec fn trimmed(t: Seq<u8>) -> Seq<u8> {
    trim_end(trim_start(t))
}

/// The index of the first `-` at or after `from`, or the length of `t`.
pub open spec fn next_dash(t: Seq<u8>, from: int) -> int
    decreases t.len() - from,
{
    if from < 0 || from >= t.len() {
        t.len() as int
    } else if t[from] == DASH {
        from
    } else {
        next_dash(t, from + 1)
    }
}

/// The value of a string of decimal digits.
pub open spec fn digits_value(s: Seq<u8>) -> nat
    decreases s.len(),
{
    if s.len() == 0 {
        0
    } else {
        10 * digits_value(s.drop_last()) + (s.last() - ZERO) as nat
    }
}

/// A non-empty string of decimal digits.
pub open spec fn all_digits(s: Seq<u8>) -> bool {
    s.len() > 0 && forall|i: int| 0 <= i < s.len() ==> ZERO <= #[trigger] s[i] <= ZERO + 9
}

/// The byte that `s` denotes in decimal, with an optional leading `+`.
pub open spec fn parse_u8(s: Seq<u8>) -> Option<u8> {
    let d = if s.len() > 0 && s[0] == PLUS {
        s.drop_first()
    } else {
        s
    };
    if all_digits(d) && digits_value(d) <= 255 {
        Some(digits_value(d) as u8)
    } else {
        None
    }
}

/// The decimal digits of `n`, without leading zeros.
pub open spec fn decimal(n: nat) -> Seq<u8>
    decreases n,
{
    if n < 10 {
        seq![(ZERO + n) as u8]
    } else {
        decimal(n / 10) + seq![(ZERO + n % 10) as u8]
    }
}

/// The model of the share that a payload describes.
pub open spec fn share_of(k: u8, i: u8, p: Payload) -> ShareModel {
    ShareModel { id: i, threshold: k, data: p.data, signatures: p.signatures, proof: p.proof }
}

/// The threshold, the identifier and the data part of a share's text.
pub open spec fn raw_parts(t: Seq<u8>) -> Result<(u8, u8, Seq<u8>), ErrorKind> {
    let u = trimmed(t);
    let a = next_dash(u, 0);
    let b = next_dash(u, a + 1);
    let c = next_dash(u, b + 1);
    if !(a < u.len() && b < u.len() && c == u.len()) {
        Err(ErrorKind::ShareParsingError(ParseFailure::PartCount))
    } else {
        match (parse_u8(u.subrange(0, a)), parse_u8(u.subrange(a + 1, b))) {
            (Some(k), Some(i)) => Ok((k, i, u.subrange(b + 1, u.len() as int))),
            _ => Err(ErrorKind::ShareParsingError(ParseFailure::Number)),
        }
    }
}

/// The share that a text denotes, or the error that reading it gives.
pub open spec fn parse_share(t: Seq<u8>) -> Result<ShareModel, ErrorKind> {
    match raw_parts(t) {
        Err(e) => Err(e),
        Ok((k, i, p3)) => if i < 1 {
            Err(ErrorKind::ShareParsingInvalidShareId(i))
        } else if k < 2 {
            Err(ErrorKind::ShareParsingInvalidShareThreshold(k, i))
        } else if p3.len() == 0 {
            Err(ErrorKind::ShareParsingErrorEmptyShare(i))
        } else {
            match decoded_base64(p3) {
                None => Err(ErrorKind::ShareParsingError(ParseFailure::Base64)),
                Some(raw) => match decode_payload(raw) {
                    None => Err(ErrorKind::ShareParsingError(ParseFailure::Payload)),
                    Some(p) => Ok(share_of(k, i, p)),
                },
            }
        },
    }
}

/// The payload of a share model.
pub open spec fn payload_of_share(s: ShareModel) -> Payload {
    Payload { data: s.data, signatures: s.signatures, proof: s.proof }
}

/// The text of a share.
pub open spec fn format_share(s: ShareModel) -> Seq<u8> {
    decimal(s.threshold as nat) + seq![DASH] + decimal(s.id as nat) + seq![DASH] + base64_of(
        encode_payload(payload_of_share(s)),
    )
}

fn front_space(t: &[u8], s: usize, e: usize) -> (r: usize)
    requires
        s <= e <= t@.len(),
    ensures
        r == space_len_front(t@.subrange(s as int, e as int)),
{
    let ghost u = t@.subrange(s as int, e as int);
    let n = e - s;
    if n >= 1 && (t[s] == 32 || (9 <= t[s] && t[s] <= 13)) {
        return 1;
    }
    if n >= 2 && t[s] == 0xC2 && (t[s + 1] == 0x85 || t[s + 1] == 0xA0) {
        return 2;
    }
    if n >= 3 {
        let (a, b, c) = (t[s], t[s + 1], t[s + 2]);
        assert(u[0] == a && u[1] == b && u[2] == c);
        if (a == 0xE1 && b == 0x9A && c == 0x80) || (a == 0xE2 && b == 0x80 && ((0x80 <= c && c <= 0x8A)
            || c == 0xA8 || c == 0xA9 || c == 0xAF)) || (a == 0xE2 && b == 0x81 && c == 0x9F) || (a == 0xE3
            && b == 0x80 && c == 0x80) {
            return 3;
        }
    }
    0
}

fn back_space(t: &[u8], s: usize, e: usize) -> (r: usize)
    requires
        s <= e <= t@.len(),
    ensures
        r == space_len_back(t@.subrange(s as int, e as int)),
{
    let ghost u = t@.subrange(s as int, e as int);
    let n = e - s;
    if n >= 1 && (t[e - 1] == 32 || (9 <= t[e - 1] && t[e - 1] <= 13)) {
        return 1;
    }
    if n >= 2 && t[e - 2] == 0xC2 && (t[e - 1] == 0x85 || t[e - 1] == 0xA0) {
        return 2;
    }
    if n >= 3 {
        let (a, b, c) = (t[e - 3], t[e - 2], t[e - 1]);
        assert(u[n - 3] == a && u[n - 2] == b && u[n - 1] == c);
        if (a == 0xE1 && b == 0x9A && c == 0x80) || (a == 0xE2 && b == 0x80 && ((0x80 <= c && c <= 0x8A)
            || c == 0xA8 || c == 0xA9 || c == 0xAF)) || (a == 0xE2 && b == 0x81 && c == 0x9F) || (a == 0xE3
            && b == 0x80 && c == 0x80) {
            return 3;
        }
    }
    0
}

/// The bounds of `t` without surrounding whitespace.
fn trim_bounds(t: &[u8]) -> (r: (usize, usize))
    ensures
        r.0 <= r.1 <= t@.len(),
        t@.subrange(r.0 as int, r.1 as int) == trimmed(t@),
{
    let n = t.len();
    let mut s: usize = 0;
    assert(t@.subrange(0, n as int) =~= t@);
    let mut d = front_space(t, s, n);
    while d > 0
        invariant
            n == t@.len(),
            s <= n,
            d == space_len_front(t@.subrange(s as int, n as int)),
            trim_start(t@) == trim_start(t@.subrange(s as int, n as int)),
        decreases n - s,
    {
        assert(t@.subrange(s as int, n as int).subrange(d as int, (n - s) as int) =~= t@.subrange(s + d, n as int));
        s = s + d;
        d = front_space(t, s, n);
    }
    let mut e: usize = n;
    let mut d = back_space(t, s, e);
    while d > 0
        invariant
            n == t@.len(),
            s <= e <= n,
            d == space_len_back(t@.subrange(s as int, e as int)),
            trim_end(trim_start(t@)) == trim_end(t@.subrange(s as int, e as int)),
        decreases e,
    {
        assert(t@.subrange(s as int, e as int).subrange(0, (e - s - d) as int) =~= t@.subrange(s as int, e - d));
        e = e - d;
        d = back_space(t, s, e);
    }
    (s, e)
}

/// The index of the first `-` at or after `from`, or the length of `t`.
fn find_dash(t: &Vec<u8>, from: usize) -> (r: usize)
    requires
        from <= t@.len(),
    ensures
        r == next_dash(t@, from as int),
        from <= r <= t@.len(),
{
    let mut i: usize = from;
    while i < t.len() && t[i] != DASH
        invariant
            from <= i <= t@.len(),
            next_dash(t@, from as int) == next_dash(t@, i as int),
        decreases t.len() - i,
    {
        i = i + 1;
    }
    i
}

/// Reads a byte written in decimal, with an optional leading `+`.
fn parse_byte(s: &Vec<u8>) -> (r: Option<u8>)
    ensures
        r == parse_u8(s@),
{
    let start: usize = if s.len() > 0 && s[0] == PLUS { 1 } else { 0 };
    let d = copy_range(s, start, s.len());
    assert(d@ =~= (if s@.len() > 0 && s@[0] == PLUS { s@.drop_first() } else { s@ }));
    if d.len() == 0 {
        return None;
    }
    let mut v: u16 = 0;
    let mut i: usize = 0;
    while i < d.len()
        invariant
            i <= d@.len(),
            d@ == (if s@.len() > 0 && s@[0] == PLUS { s@.drop_first() } else { s@ }),
            forall|t: int| 0 <= t < i ==> ZERO <= #[trigger] d@[t] <= ZERO + 9,
            v == (if digits_value(d@.subrange(0, i as int)) >= 256 { 256 } else { digits_value(d@.subrange(0, i as int)) }),
        decreases d.len() - i,
    {
        let c = d[i];
        if c < ZERO || c > ZERO + 9 {
            assert(!(ZERO <= d@[i as int] <= ZERO + 9));
            assert(!all_digits(d@));
            return None;
        }
        assert(d@.subrange(0, i + 1).drop_last() =~= d@.subrange(0, i as int));
        if v < 256 {
            let x = 10 * v + (c - ZERO) as u16;
            v = if x >= 256 { 256 } else { x };
        }
        i = i + 1;
    }
    assert(d@.subrange(0, d@.len() as int) =~= d@);
    if v >= 256 {
        None
    } else {
        Some(v as u8)
    }
}

/// The decimal digits of a byte.
pub(crate) fn decimal_bytes(n: u8) -> (r: Vec<u8>)
    ensures
        r@ == decimal(n as nat),
{
    let mut r: Vec<u8> = Vec::new();
    let ghost m = n as nat;
    if n >= 100 {
        r.push(ZERO + n / 100);
        r.push(ZERO + (n / 10) % 10);
        r.push(ZERO + n % 10);
        assert(m / 10 / 10 == m / 100);
        assert(decimal(m / 100) == seq![(ZERO + m / 100) as u8]);
        assert(decimal(m / 10) == decimal(m / 100) + seq![(ZERO + (m / 10) % 10) as u8]);
        assert(decimal(m) == decimal(m / 10) + seq![(ZERO + m % 10) as u8]);
    } else if n >= 10 {
        r.push(ZERO + n / 10);
        r.push(ZERO + n % 10);
        assert(decimal(m / 10) == seq![(ZERO + m / 10) as u8]);
        assert(decimal(m) == decimal(m / 10) + seq![(ZERO + m % 10) as u8]);
    } else {
        r.push(ZERO + n);
    }
    assert(r@ =~= decimal(n as nat));
    r
}


/// Splits a share's text into its threshold, its identifier and its data part.
pub fn parse_raw_share(t: &[u8]) -> (r: Result<(u8, u8, Vec<u8>), ErrorKind>)
    ensures
        r matches Ok((k, i, p)) ==> raw_parts(t@) == Ok::<(u8, u8, Seq<u8>), ErrorKind>((k, i, p@)),
        r is Err ==> raw_parts(t@) == Err::<(u8, u8, Seq<u8>), ErrorKind>(r->Err_0),
{
    let (st, en) = trim_bounds(t);
    let u = copy_slice(t, st, en);
    let n = u.len();
    let a = find_dash(&u, 0);
    if a >= n {
        return Err(ErrorKind::ShareParsingError(ParseFailure::PartCount));
    }
    let b = find_dash(&u, a + 1);
    if b >= n {
        return Err(ErrorKind::ShareParsingError(ParseFailure::PartCount));
    }
    let c = find_dash(&u, b + 1);
    if c != n {
        return Err(ErrorKind::ShareParsingError(ParseFailure::PartCount));
    }
    let p1 = copy_range(&u, 0, a);
    let p2 = copy_range(&u, a + 1, b);
    let p3 = copy_range(&u, b + 1, n);
    match (parse_byte(&p1), parse_byte(&p2)) {
        (Some(k), Some(i)) => Ok((k, i, p3)),
        _ => Err(ErrorKind::ShareParsingError(ParseFailure::Number)),
    }
}

/// Reads a share from its text.
pub fn share_from_bytes(t: &[u8]) -> (r: Result<Share, ErrorKind>)
    ensures
        r is Ok ==> parse_share(t@) == Ok::<ShareModel, ErrorKind>(r->Ok_0@),
        r is Err ==> parse_share(t@) == Err::<ShareModel, ErrorKind>(r->Err_0),
{
    let (k, i, p3) = parse_raw_share(t)?;
    if i < 1 {
        return Err(ErrorKind::ShareParsingInvalidShareId(i));
    }
    if k < 2 {
        return Err(ErrorKind::ShareParsingInvalidShareThreshold(k, i));
    }
    if p3.len() == 0 {
        return Err(ErrorKind::ShareParsingErrorEmptyShare(i));
    }
    let raw = match decode_base64(&p3) {
        Ok(raw) => raw,
        Err(_) => {
            assert(!exists|x: Seq<u8>| #[trigger] base64_of(x) == p3@);
            return Err(ErrorKind::ShareParsingError(ParseFailure::Base64));
        },
    };
    assert(base64_of(raw@) == p3@);
    assert(decoded_base64(p3@) == Some(raw@));
    match decode(&raw) {
        None => Err(ErrorKind::ShareParsingError(ParseFailure::Payload)),
        Some((data, signatures, proof)) => {
            let share = Share { id: i, threshold: k, data, signatures, proof };
            assert(share@ == share_of(k, i, payload_of(share.data@, share.signatures@, share.proof@)));
            Ok(share)
        },
    }
}

pub(crate) proof fn lemma_decimal(n: nat)
    ensures
        all_digits(decimal(n)),
        digits_value(decimal(n)) == n,
    decreases n,
{
    if n >= 10 {
        lemma_decimal(n / 10);
        let d = decimal(n);
        assert(d.drop_last() =~= decimal(n / 10));
        assert(d.last() == (ZERO + n % 10) as u8);
        assert(n == 10 * (n / 10) + n % 10);
        assert(digits_value(d) == 10 * digits_value(d.drop_last()) + (d.last() - ZERO) as nat);
        assert forall|i: int| 0 <= i < d.len() implies ZERO <= #[trigger] d[i] <= ZERO + 9 by {
            if i < d.len() - 1 {
                assert(d[i] == decimal(n / 10)[i]);
            }
        }
    } else {
        let d = decimal(n);
        assert(d.drop_last() =~= Seq::<u8>::empty());
        assert(digits_value(d) == 10 * digits_value(d.drop_last()) + (d.last() - ZERO) as nat);
    }
}

proof fn lemma_next_dash_at(t: Seq<u8>, from: int, x: int)
    requires
        0 <= from <= x <= t.len(),
        forall|j: int| from <= j < x ==> #[trigger] t[j] != DASH,
        x < t.len() ==> t[x] == DASH,
    ensures
        next_dash(t, from) == x,
    decreases x - from,
{
    if from < x {
        lemma_next_dash_at(t, from + 1, x);
    }
}

proof fn lemma_parse_decimal(n: u8)
    ensures
        parse_u8(decimal(n as nat)) == Some(n),
{
    lemma_decimal(n as nat);
    assert(decimal(n as nat)[0] != PLUS);
}

/// A share's text splits back into its threshold, identifier and encoded
/// payload.
pub proof fn lemma_text_parts(k: u8, i: u8, payload: Seq<u8>)
    requires
        forall|j: int| 0 <= j < base64_of(payload).len() ==> is_base64_byte(#[trigger] base64_of(payload)[j]),
        base64_of(payload).len() > 0,
    ensures
        raw_parts(text_of(k, i, payload)) == Ok::<(u8, u8, Seq<u8>), ErrorKind>((k, i, base64_of(payload))),
{
    let u = text_of(k, i, payload);
    let dk = decimal(k as nat);
    let di = decimal(i as nat);
    let b64 = base64_of(payload);
    lemma_decimal(k as nat);
    lemma_decimal(i as nat);
    assert(u =~= dk + seq![DASH] + di + seq![DASH] + b64);
    assert(u[0] == dk[0]);
    assert(space_len_front(u) == 0);
    assert(trim_start(u) == u);
    assert(u.last() == b64.last());
    assert(is_base64_byte(b64[b64.len() - 1]));
    assert(space_len_back(u) == 0);
    assert(trimmed(u) == u);
    let a = dk.len() as int;
    let b = a + 1 + di.len();
    assert(u[a] == DASH);
    assert forall|j: int| 0 <= j < a implies #[trigger] u[j] != DASH by {
        assert(u[j] == dk[j]);
    }
    lemma_next_dash_at(u, 0, a);
    assert(u[b] == DASH);
    assert forall|j: int| a + 1 <= j < b implies #[trigger] u[j] != DASH by {
        assert(u[j] == di[j - a - 1]);
    }
    lemma_next_dash_at(u, a + 1, b);
    assert forall|j: int| b + 1 <= j < u.len() implies #[trigger] u[j] != DASH by {
        assert(u[j] == b64[j - b - 1]);
        assert(is_base64_byte(b64[j - b - 1]));
    }
    lemma_next_dash_at(u, b + 1, u.len() as int);
    assert(u.subrange(0, a) =~= dk);
    assert(u.subrange(a + 1, b) =~= di);
    assert(u.subrange(b + 1, u.len() as int) =~= b64);
    lemma_parse_decimal(k);
    lemma_parse_decimal(i);
}

/// Writes a share as text.
pub fn share_to_text(share: &Share) -> (r: Vec<u8>)
    ensures
        r@ == format_share(share@),
        forall|j: int| 0 <= j < r@.len() ==> #[trigger] r@[j] < 128,
        share@.id >= 1 && share@.threshold >= 2 && share@.data.len() > 0 ==> parse_share(r@) == Ok::<
            ShareModel,
            ErrorKind,
        >(share@),
{
    let payload = encode(&share.data, &share.signatures, &share.proof);
    let out = format_share_for_signing(share.threshold, share.id, &payload);
    proof {
        let p = payload_of_share(share@);
        assert(payload_of(share.data@, share.signatures@, share.proof@) == p);
        if share@.id >= 1 && share@.threshold >= 2 && share@.data.len() > 0 {
            assert(encode_payload(p).len() > 0);
            lemma_text_parts(share.threshold, share.id, payload@);
            assert forall|i: int| 0 <= i < p.signatures.len() implies (#[trigger] p.signatures[i]).len() <= usize::MAX by {
                assert(share.signatures@[i]@.len() == share.signatures@[i].len());
            }
            assert(share.data@.len() == share.data.len());
            assert(share.proof@.len() == share.proof.len());
            lemma_decode_encode(p);
            assert(share_of(share.threshold, share.id, p) == share@);
        }
    }
    out
}

/// The characters of an ASCII byte string.
pub open spec fn ascii_chars(b: Seq<u8>) -> Seq<char> {
    b.map_values(|c: u8| c as char)
}

/// Relies on `String::from_utf8`: ASCII bytes are valid UTF-8, one character each.
#[verifier::external_body]
pub(crate) fn ascii_string(b: Vec<u8>) -> (r: String)
    requires
        forall|j: int| 0 <= j < b@.len() ==> #[trigger] b@[j] < 128,
    ensures
        r@ == ascii_chars(b@),
{
    String::from_utf8(b).unwrap()
}

/// The bytes of a string.
pub open spec fn text_bytes(s: &str) -> Seq<u8> {
    s.spec_bytes()
}

/// Writes a share as a string.
pub fn share_to_string(share: &Share) -> (r: String)
    ensures
        r@ == ascii_chars(format_share(share@)),
{
    ascii_string(share_to_text(share))
}

/// Reads a share from a string. A signed share must carry signatures and a
/// proof; an unsigned one is read without them.
pub fn share_from_string(s: &str, is_signed: bool) -> (r: Result<Share, ErrorKind>)
    ensures
        parse_share(text_bytes(s)) matches Err(e) ==> r == Err::<Share, ErrorKind>(e),
        parse_share(text_bytes(s)) matches Ok(m) ==> {
            if is_signed && (m.signatures.len() == 0 || m.proof.len() == 0) {
                r == Err::<Share, ErrorKind>(ErrorKind::MissingSignatures)
            } else {
                r is Ok && r->Ok_0@ == unsigned_unless(m, is_signed)
            }
        },
{
    let mut share = share_from_bytes(s.as_bytes())?;
    if is_signed && (share.signatures.len() == 0 || share.proof.len() == 0) {
        return Err(ErrorKind::MissingSignatures);
    }
    if !is_signed {
        share.signatures = Vec::new();
        share.proof = Vec::new();
        assert(share.signatures@.map_values(|v: Vec<u8>| v@) =~= Seq::<Seq<u8>>::empty());
    }
    Ok(share)
}

/// The share as read: without its signature pair unless it is read as signed.
pub open spec fn unsigned_unless(m: ShareModel, is_signed: bool) -> ShareModel {
    if is_signed {
        m
    } else {
        ShareModel { signatures: Seq::empty(), proof: Seq::empty(), ..m }
    }
}

/// The text `{k}-{i}-{base64(payload)}`.
pub open spec fn text_of(k: u8, i: u8, payload: Seq<u8>) -> Seq<u8> {
    decimal(k as nat) + seq![DASH] + decimal(i as nat) + seq![DASH] + base64_of(payload)
}

/// The text `{k}-{i}-{base64(data)}` as bytes: what a signature covers.
pub fn format_share_for_signing(k: u8, i: u8, data: &Vec<u8>) -> (r: Vec<u8>)
    ensures
        r@ == text_of(k, i, data@),
        forall|j: int| 0 <= j < r@.len() ==> #[trigger] r@[j] < 128,
        forall|j: int| 0 <= j < base64_of(data@).len() ==> is_base64_byte(#[trigger] base64_of(data@)[j]),
        data@.len() > 0 ==> base64_of(data@).len() > 0,
        decoded_base64(base64_of(data@)) == Some(data@),
{
    let b64 = encode_base64(data);
    let dk = decimal_bytes(k);
    let di = decimal_bytes(i);
    let mut out: Vec<u8> = Vec::new();
    push_bytes(&mut out, &dk);
    out.push(DASH);
    push_bytes(&mut out, &di);
    out.push(DASH);
    push_bytes(&mut out, &b64);
    proof {
        assert(decoded_base64(b64@) == Some(data@));
        assert(out@ =~= text_of(k, i, data@));
        lemma_decimal(k as nat);
        lemma_decimal(i as nat);
        let a = dk@.len() as int;
        let b = a + 1 + di@.len();
        assert forall|j: int| 0 <= j < out@.len() implies #[trigger] out@[j] < 128 by {
            if j < a {
                assert(out@[j] == dk@[j]);
            } else if a < j < b {
                assert(out@[j] == di@[j - a - 1]);
            } else if j > b {
                assert(out@[j] == b64@[j - b - 1]);
                assert(is_base64_byte(b64@[j - b - 1]));
            }
        }
    }
    out
}


} // verus!
