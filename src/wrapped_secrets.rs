//! Sharing of a secret wrapped in an envelope that records a format version
//! and an optional MIME type.
use vstd::prelude::*;
use crate::errors::ErrorKind;
use crate::payload::{
    copy_range, copy_slice, lemma_varint_at_bounds, optional_field, push_field, read_varint, skips_bytes, skips_varint,
    varint_at,
};
use crate::sss::{
    check_shares, check_signed, dealt_share, models, recover_from_shares, recover_result, share_data,
    shares_result, split_error, split_with_random, texts_of, Share, SignatureChecks,
};
use crate::sss;
use crate::text::{ascii_chars, format_share, is_utf8};
use vstd::string::StringSliceAdditionalSpecFns;

verus! {

/// The version field, as a varint (field 1, wire type 0).
pub const VERSION_TAG: u8 = 0x08;

/// The secret field (field 2, wire type 2).
pub const SECRET_TAG: u8 = 0x12;

/// The MIME type field (field 3, wire type 2).
pub const MIME_TAG: u8 = 0x1A;

/// The envelope format versions.
#[derive(Clone, Copy, Debug, PartialEq, Eq, Structural)]
pub enum VersionProto {
    /// The first and only version, encoded as 0.
    InitialRelease,
}

/// A recovered envelope.
#[derive(Clone, Debug)]
pub struct SecretProto {
    /// The envelope's version.
    pub version: VersionProto,
    /// The secret itself.
    pub secret: Vec<u8>,
    /// The MIME type, as UTF-8 bytes; empty when none was given.
    pub mime_type: Vec<u8>,
}

/// The envelope's fields as values.
pub struct Envelope {
    pub version: nat,
    pub secret: Seq<u8>,
    pub mime_type: Seq<u8>,
}

/// The encoding of an envelope of the first version; the version is the
/// default and so is left out.
pub open spec fn encode_envelope(secret: Seq<u8>, mime_type: Seq<u8>) -> Seq<u8> {
    optional_field(SECRET_TAG, secret) + optional_field(MIME_TAG, mime_type)
}

/// Reads envelope fields from `pos` on; a later field replaces an earlier one.
pub open spec fn decode_envelope_from(b: Seq<u8>, pos: int, acc: Envelope) -> Option<Envelope>
    decreases b.len() - pos,
{
    if pos == b.len() {
        Some(acc)
    } else if pos < 0 || pos > b.len() {
        None
    } else {
        let tag = b[pos];
        match varint_at(b, pos + 1) {
            None => None,
            Some((n, e)) => if e <= pos || e > b.len() {
                None
            } else if tag == VERSION_TAG {
                decode_envelope_from(b, e, Envelope { version: n, ..acc })
            } else if skips_varint(tag, 3) {
                decode_envelope_from(b, e, acc)
            } else if e + n > b.len() {
                None
            } else if tag == SECRET_TAG {
                decode_envelope_from(b, e + n, Envelope { secret: b.subrange(e, e + n), ..acc })
            } else if tag == MIME_TAG {
                decode_envelope_from(b, e + n, Envelope { mime_type: b.subrange(e, e + n), ..acc })
            } else if skips_bytes(tag, 3) {
                decode_envelope_from(b, e + n, acc)
            } else {
                None
            },
        }
    }
}

/// The envelope that `b` decodes to, if it decodes, has a known version and
/// a MIME type in UTF-8.
pub open spec fn decode_envelope(b: Seq<u8>) -> Option<Envelope> {
    match decode_envelope_from(b, 0, Envelope { version: 0, secret: Seq::empty(), mime_type: Seq::empty() }) {
        Some(env) => if env.version == 0 && vstd::utf8::valid_utf8(env.mime_type) {
            Some(env)
        } else {
            None
        },
        None => None,
    }
}

/// Encodes an envelope of the first version.
pub fn encode_secret(secret: &Vec<u8>, mime_type: &Vec<u8>) -> (r: Vec<u8>)
    ensures
        r@ == encode_envelope(secret@, mime_type@),
{
    let mut out: Vec<u8> = Vec::new();
    if secret.len() > 0 {
        push_field(&mut out, SECRET_TAG, secret);
    }
    let ghost mid = out@;
    if mime_type.len() > 0 {
        push_field(&mut out, MIME_TAG, mime_type);
    }
    assert(out@ =~= encode_envelope(secret@, mime_type@));
    out
}

/// Decodes an envelope; fails on a malformed one or an unknown version.
pub fn decode_secret(b: &Vec<u8>) -> (r: Result<SecretProto, ErrorKind>)
    ensures
        r is Ok <==> decode_envelope(b@) is Some,
        r is Err ==> r == Err::<SecretProto, ErrorKind>(ErrorKind::SecretDeserializationError),
        r matches Ok(s) ==> decode_envelope(b@) == Some(
            Envelope { version: 0, secret: s.secret@, mime_type: s.mime_type@ },
        ),
{
    let mut version: usize = 0;
    let mut secret: Vec<u8> = Vec::new();
    let mut mime_type: Vec<u8> = Vec::new();
    let mut pos: usize = 0;
    while pos < b.len()
        invariant
            pos <= b@.len(),
            decode_envelope_from(b@, pos as int, Envelope { version: version as nat, secret: secret@, mime_type: mime_type@ })
                == decode_envelope_from(b@, 0, Envelope { version: 0, secret: Seq::empty(), mime_type: Seq::empty() }),
        decreases b.len() - pos,
    {
        let tag = b[pos];
        proof {
            lemma_varint_at_bounds(b@, pos + 1);
        }
        match read_varint(b, pos + 1) {
            None => {
                return Err(ErrorKind::SecretDeserializationError);
            },
            Some((n, e)) => {
                if e <= pos || e > b.len() {
                    return Err(ErrorKind::SecretDeserializationError);
                }
                if tag == VERSION_TAG {
                    version = n;
                    pos = e;
                } else if tag < 0x80 && tag % 8 == 0 && tag / 8 > 3 {
                    pos = e;
                } else {
                    if n > b.len() - e {
                        return Err(ErrorKind::SecretDeserializationError);
                    }
                    if tag == SECRET_TAG {
                        secret = copy_range(b, e, e + n);
                    } else if tag == MIME_TAG {
                        mime_type = copy_range(b, e, e + n);
                    } else if !(tag < 0x80 && tag % 8 == 2 && tag / 8 > 3) {
                        return Err(ErrorKind::SecretDeserializationError);
                    }
                    pos = e + n;
                }
            },
        }
    }
    if version != 0 || !is_utf8(mime_type.as_slice()) {
        return Err(ErrorKind::SecretDeserializationError);
    }
    Ok(SecretProto { version: VersionProto::InitialRelease, secret, mime_type })
}

/// The UTF-8 bytes of an optional MIME type; none is empty.
pub open spec fn mime_bytes(mime_type: Option<String>) -> Seq<u8> {
    match mime_type {
        Some(m) => vstd::utf8::encode_utf8(m@),
        None => Seq::empty(),
    }
}

/// The UTF-8 bytes of an optional MIME type.
fn mime_vec(mime_type: &Option<String>) -> (r: Vec<u8>)
    ensures
        r@ == mime_bytes(*mime_type),
{
    match mime_type {
        Some(m) => {
            let b = m.as_str().as_bytes();
            copy_slice(b, 0, b.len())
        },
        None => Vec::new(),
    }
}

/// What decoding a recovered envelope gives.
pub open spec fn unwrap_result(r: Result<Seq<u8>, ErrorKind>) -> Result<Envelope, ErrorKind> {
    match r {
        Err(e) => Err(e),
        Ok(v) => match decode_envelope(v) {
            None => Err(ErrorKind::SecretDeserializationError),
            Some(env) => Ok(env),
        },
    }
}

/// Wraps `secret` with its MIME type and splits the envelope into `n` textual
/// shares, any `k` of which recover it, taking the polynomials' non-constant
/// coefficients from `random`.
pub fn split_secret_with_random(
    k: u8,
    n: u8,
    secret: &Vec<u8>,
    mime_type: Option<String>,
    random: &Vec<u8>,
) -> (r: Result<Vec<String>, ErrorKind>)
    ensures
        ({
            let env = encode_envelope(secret@, mime_bytes(mime_type));
            &&& split_error(k, n, env, random@) is None <==> r is Ok
            &&& split_error(k, n, env, random@) matches Some(e) ==> r == Err::<Vec<String>, ErrorKind>(e)
            &&& r matches Ok(texts) ==> texts@.len() == n && forall|i: int|
                0 <= i < n ==> (#[trigger] texts@[i])@ == ascii_chars(
                    format_share(dealt_share(k, env, random@, (i + 1) as u8)),
                )
        }),
{
    let mime = mime_vec(&mime_type);
    let env = encode_secret(secret, &mime);
    sss::split_secret_with_random(k, n, &env, random)
}

/// Recovers a wrapped secret from textual shares, signed when `checks` are
/// given; see `sss::recover_secret`.
pub fn recover_secret(shares: &Vec<String>, checks: &Option<SignatureChecks>) -> (r: Result<SecretProto, ErrorKind>)
    requires
        checks matches Some(c) ==> c.fits(shares@.len()),
    ensures
        unwrap_result(recover_result(texts_of(shares@), *checks)) matches Err(e) ==> r
            == Err::<SecretProto, ErrorKind>(e),
        unwrap_result(recover_result(texts_of(shares@), *checks)) matches Ok(env) ==> r is Ok
            && r->Ok_0.secret@ == env.secret && r->Ok_0.mime_type@ == env.mime_type,
{
    let bytes = sss::recover_secret(shares, checks)?;
    decode_secret(&bytes)
}

/// The wrapped-secret scheme over parsed shares.
pub struct WrappedSecrets;

impl WrappedSecrets {
    /// Wraps `secret` with its MIME type and splits the envelope into `n`
    /// shares, any `k` of which recover it, taking the polynomials'
    /// non-constant coefficients from `random`.
    pub fn split_secret(
        &self,
        k: u8,
        n: u8,
        secret: &Vec<u8>,
        mime_type: Option<String>,
        random: &Vec<u8>,
    ) -> (r: Result<Vec<Share>, ErrorKind>)
        ensures
            ({
                let env = encode_envelope(secret@, mime_bytes(mime_type));
                &&& split_error(k, n, env, random@) is None <==> r is Ok
                &&& split_error(k, n, env, random@) matches Some(e) ==> r == Err::<Vec<Share>, ErrorKind>(e)
                &&& r matches Ok(shares) ==> shares@.len() == n && forall|i: int|
                    0 <= i < n ==> (#[trigger] shares@[i])@ == dealt_share(k, env, random@, (i + 1) as u8)
            }),
    {
        let mime = mime_vec(&mime_type);
        let env = encode_secret(secret, &mime);
        let shares = split_with_random(k, n, &env, random)?;
        proof {
            assert forall|i: int| 0 <= i < n implies (#[trigger] shares@[i])@ == dealt_share(k, env@, random@, (i + 1) as u8) by {
                let sh = shares@[i];
                assert(sh.id == i + 1 && sh.threshold == k);
                assert(sh.data@ == share_data(env@, random@, k as nat, (i + 1) as u8));
                assert(sh.signatures@.map_values(|v: Vec<u8>| v@) =~= Seq::<Seq<u8>>::empty());
                assert(sh.proof@ =~= Seq::<u8>::empty());
            }
        }
        Ok(shares)
    }

    /// Recovers a wrapped secret from parsed shares; with `checks` the chosen
    /// shares must carry signatures and proofs that share one root hash and
    /// all verify.
    pub fn recover_secret(shares: &Vec<Share>, checks: &Option<SignatureChecks>) -> (r: Result<SecretProto, ErrorKind>)
        requires
            checks matches Some(c) ==> c.fits(shares@.len()),
        ensures
            unwrap_result(shares_result(models(shares@), *checks)) matches Err(e) ==> r == Err::<SecretProto, ErrorKind>(e),
            unwrap_result(shares_result(models(shares@), *checks)) matches Ok(env) ==> r is Ok && r->Ok_0.secret@
                == env.secret && r->Ok_0.mime_type@ == env.mime_type,
    {
        check_shares(shares)?;
        if let Some(c) = checks {
            check_signed(shares, &c.roots, &c.verified)?;
        }
        let bytes = recover_from_shares(shares)?;
        decode_secret(&bytes)
    }
}

} // verus!
