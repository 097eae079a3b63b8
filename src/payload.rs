//! The binary payload of a share: tag-numbered, length-delimited fields
//! (`1`: the share data, `2`: one signature each, `3`: the Merkle proof).
use vstd::prelude::*;

verus! {

/// Field 1, wire type 2.
pub const DATA_TAG: u8 = 0x0A;

/// Field 2, wire type 2.
pub const SIGNATURE_TAG: u8 = 0x12;

/// Field 3, wire type 2.
pub const PROOF_TAG: u8 = 0x1A;

/// The decoded fields of a payload.
pub struct Payload {
    pub data: Seq<u8>,
    pub signatures: Seq<Seq<u8>>,
    pub proof: Seq<u8>,
}

/// The base-128 encoding of `n`, lowest group first.
pub open spec fn varint(n: nat) -> Seq<u8>
    decreases n,
{
    if n < 128 {
        seq![n as u8]
    } else {
        seq![(n % 128 + 128) as u8] + varint(n / 128)
    }
}

/// The base-128 number that starts at `pos`, and the position after it.
pub open spec fn varint_at(b: Seq<u8>, pos: int) -> Option<(nat, int)>
    decreases b.len() - pos,
{
    if pos < 0 || pos >= b.len() {
        None
    } else if b[pos] < 128 {
        Some((b[pos] as nat, pos + 1))
    } else {
        match varint_at(b, pos + 1) {
            Some((v, e)) => if (b[pos] - 128) + 128 * v > usize::MAX {
                None
            } else {
                Some((((b[pos] - 128) + 128 * v) as nat, e))
            },
            None => None,
        }
    }
}

/// One length-delimited field.
pub open spec fn field(tag: u8, b: Seq<u8>) -> Seq<u8> {
    seq![tag] + varint(b.len()) + b
}

/// A field that is left out when empty.
pub open spec fn optional_field(tag: u8, b: Seq<u8>) -> Seq<u8> {
    if b.len() == 0 {
        Seq::empty()
    } else {
        field(tag, b)
    }
}

/// One signature field per signature, in order.
pub open spec fn signature_fields(sigs: Seq<Seq<u8>>) -> Seq<u8>
    decreases sigs.len(),
{
    if sigs.len() == 0 {
        Seq::empty()
    } else {
        signature_fields(sigs.drop_last()) + field(SIGNATURE_TAG, sigs.last())
    }
}

/// The encoding of a payload.
pub open spec fn encode_payload(p: Payload) -> Seq<u8> {
    optional_field(DATA_TAG, p.data) + signature_fields(p.signatures) + optional_field(
        PROOF_TAG,
        p.proof,
    )
}

/// A one-byte key, of varint wire type, of a field numbered above `known`
/// (the message's last known field) and below 16: such a field is skipped.
pub open spec fn skips_varint(tag: u8, known: u8) -> bool {
    tag < 0x80 && tag % 8 == 0 && tag / 8 > known
}

/// A one-byte key, of length-delimited wire type, of a field numbered above
/// `known` and below 16: such a field is skipped.
pub open spec fn skips_bytes(tag: u8, known: u8) -> bool {
    tag < 0x80 && tag % 8 == 2 && tag / 8 > known
}

/// The payload before any field is read.
pub open spec fn empty_payload() -> Payload {
    Payload { data: Seq::empty(), signatures: Seq::empty(), proof: Seq::empty() }
}

/// Reads the fields from `pos` on into `acc`: a later data or proof field
/// replaces an earlier one, signatures accumulate; an unknown tag fails.
pub open spec fn decode_from(b: Seq<u8>, pos: int, acc: Payload) -> Option<Payload>
    decreases b.len() - pos,
{
    if pos == b.len() {
        Some(acc)
    } else if pos < 0 || pos > b.len() {
        None
    } else {
        let tag = b[pos];
        match varint_at(b, pos + 1) {
            None => None,
            Some((n, e)) => if e <= pos || e > b.len() {
                None
            } else if skips_varint(tag, 3) {
                decode_from(b, e, acc)
            } else if e + n > b.len() {
                None
            } else {
                let v = b.subrange(e, e + n);
                if tag == DATA_TAG {
                    decode_from(b, e + n, Payload { data: v, ..acc })
                } else if tag == SIGNATURE_TAG {
                    decode_from(b, e + n, Payload { signatures: acc.signatures.push(v), ..acc })
                } else if tag == PROOF_TAG {
                    decode_from(b, e + n, Payload { proof: v, ..acc })
                } else if skips_bytes(tag, 3) {
                    decode_from(b, e + n, acc)
                } else {
                    None
                }
            },
        }
    }
}

/// The payload that `b` decodes to, if any.
pub open spec fn decode_payload(b: Seq<u8>) -> Option<Payload> {
    decode_from(b, 0, empty_payload())
}

/// Appends the base-128 encoding of `n`.
pub(crate) fn push_varint(out: &mut Vec<u8>, n: usize)
    ensures
        final(out)@ == old(out)@ + varint(n as nat),
{
    let mut m: usize = n;
    while m >= 128
        invariant
            out@ + varint(m as nat) == old(out)@ + varint(n as nat),
        decreases m,
    {
        let ghost before = out@;
        out.push((m % 128 + 128) as u8);
        assert(varint(m as nat) == seq![(m % 128 + 128) as u8] + varint((m / 128) as nat));
        m = m / 128;
        assert(before + (seq![out@.last()] + varint(m as nat)) =~= out@ + varint(m as nat));
    }
    out.push(m as u8);
    assert(out@ =~= old(out)@ + varint(n as nat));
}

/// Appends the bytes of `b`.
pub(crate) fn push_bytes(out: &mut Vec<u8>, b: &Vec<u8>)
    ensures
        final(out)@ == old(out)@ + b@,
{
    let mut i: usize = 0;
    while i < b.len()
        invariant
            i <= b@.len(),
            out@ == old(out)@ + b@.subrange(0, i as int),
        decreases b.len() - i,
    {
        out.push(b[i]);
        i = i + 1;
        assert(out@ =~= old(out)@ + b@.subrange(0, i as int));
    }
    assert(b@.subrange(0, b@.len() as int) =~= b@);
}

/// Appends one length-delimited field.
pub(crate) fn push_field(out: &mut Vec<u8>, tag: u8, b: &Vec<u8>)
    ensures
        final(out)@ == old(out)@ + field(tag, b@),
{
    out.push(tag);
    push_varint(out, b.len());
    push_bytes(out, b);
    assert(out@ =~= old(out)@ + field(tag, b@));
}

/// Encodes the payload of a share.
pub fn encode(data: &Vec<u8>, signatures: &Vec<Vec<u8>>, proof: &Vec<u8>) -> (r: Vec<u8>)
    ensures
        r@ == encode_payload(
            Payload { data: data@, signatures: signatures@.map_values(|v: Vec<u8>| v@), proof: proof@ },
        ),
{
    let ghost sigs = signatures@.map_values(|v: Vec<u8>| v@);
    let mut out: Vec<u8> = Vec::new();
    if data.len() > 0 {
        push_field(&mut out, DATA_TAG, data);
    }
    assert(out@ =~= optional_field(DATA_TAG, data@));
    let mut i: usize = 0;
    while i < signatures.len()
        invariant
            i <= signatures@.len(),
            sigs == signatures@.map_values(|v: Vec<u8>| v@),
            out@ == optional_field(DATA_TAG, data@) + signature_fields(sigs.take(i as int)),
        decreases signatures.len() - i,
    {
        push_field(&mut out, SIGNATURE_TAG, &signatures[i]);
        assert(sigs.take(i + 1).drop_last() =~= sigs.take(i as int));
        i = i + 1;
        assert(out@ =~= optional_field(DATA_TAG, data@) + signature_fields(sigs.take(i as int)));
    }
    assert(sigs.take(signatures@.len() as int) =~= sigs);
    let ghost mid = out@;
    if proof.len() > 0 {
        push_field(&mut out, PROOF_TAG, proof);
    }
    assert(out@ =~= mid + optional_field(PROOF_TAG, proof@));
    out
}

pub(crate) proof fn lemma_varint_at_bounds(b: Seq<u8>, pos: int)
    ensures
        varint_at(b, pos) matches Some((v, e)) ==> pos < e <= b.len(),
    decreases b.len() - pos,
{
    if 0 <= pos < b.len() && b[pos] >= 128 {
        lemma_varint_at_bounds(b, pos + 1);
    }
}

pub(crate) fn read_varint(b: &Vec<u8>, pos: usize) -> (r: Option<(usize, usize)>)
    ensures
        r is None <==> varint_at(b@, pos as int) is None,
        r matches Some((v, e)) ==> varint_at(b@, pos as int) == Some((v as nat, e as int)),
    decreases b.len() - pos,
{
    if pos >= b.len() {
        return None;
    }
    if b[pos] < 128 {
        return Some((b[pos] as usize, pos + 1));
    }
    match read_varint(b, pos + 1) {
        None => None,
        Some((v, e)) => {
            let lo = (b[pos] - 128) as usize;
            match v.checked_mul(128) {
                None => None,
                Some(hi) => match hi.checked_add(lo) {
                    None => None,
                    Some(x) => Some((x, e)),
                },
            }
        },
    }
}

/// The bytes of `t` from `start` up to `end`.
pub fn copy_slice(t: &[u8], start: usize, end: usize) -> (r: Vec<u8>)
    requires
        start <= end <= t@.len(),
    ensures
        r@ == t@.subrange(start as int, end as int),
{
    let mut r: Vec<u8> = Vec::new();
    let mut i: usize = start;
    while i < end
        invariant
            start <= i <= end,
            end <= t@.len(),
            r@ == t@.subrange(start as int, i as int),
        decreases end - i,
    {
        r.push(t[i]);
        i = i + 1;
        assert(r@ =~= t@.subrange(start as int, i as int));
    }
    r
}

/// The bytes of `b` from `start` up to `end`.
pub fn copy_range(b: &Vec<u8>, start: usize, end: usize) -> (r: Vec<u8>)
    requires
        start <= end <= b@.len(),
    ensures
        r@ == b@.subrange(start as int, end as int),
{
    copy_slice(b.as_slice(), start, end)
}

/// The model of decoded fields.
pub open spec fn payload_of(data: Seq<u8>, signatures: Seq<Vec<u8>>, proof: Seq<u8>) -> Payload {
    Payload { data: data, signatures: signatures.map_values(|v: Vec<u8>| v@), proof: proof }
}

/// Decodes the payload of a share.
pub fn decode(b: &Vec<u8>) -> (r: Option<(Vec<u8>, Vec<Vec<u8>>, Vec<u8>)>)
    ensures
        r is None <==> decode_payload(b@) is None,
        r matches Some((d, s, p)) ==> decode_payload(b@) == Some(payload_of(d@, s@, p@)),
{
    let mut data: Vec<u8> = Vec::new();
    let mut sigs: Vec<Vec<u8>> = Vec::new();
    let mut proof: Vec<u8> = Vec::new();
    let mut pos: usize = 0;
    assert(sigs@.map_values(|v: Vec<u8>| v@) =~= Seq::<Seq<u8>>::empty());
    assert(payload_of(data@, sigs@, proof@) == empty_payload());
    while pos < b.len()
        invariant
            pos <= b@.len(),
            decode_from(b@, pos as int, payload_of(data@, sigs@, proof@)) == decode_payload(b@),
        decreases b.len() - pos,
    {
        let tag = b[pos];
        proof {
            lemma_varint_at_bounds(b@, pos + 1);
        }
        match read_varint(b, pos + 1) {
            None => {
                return None;
            },
            Some((n, e)) => {
                if e <= pos || e > b.len() {
                    return None;
                }
                if tag < 0x80 && tag % 8 == 0 && tag / 8 > 3 {
                    pos = e;
                    continue;
                }
                if n > b.len() - e {
                    return None;
                }
                let v = copy_range(b, e, e + n);
                let ghost acc = payload_of(data@, sigs@, proof@);
                if tag == DATA_TAG {
                    data = v;
                    assert(payload_of(data@, sigs@, proof@) == Payload { data: v@, ..acc });
                } else if tag == SIGNATURE_TAG {
                    let ghost old_sigs = sigs@;
                    sigs.push(v);
                    assert(sigs@.map_values(|x: Vec<u8>| x@) =~= old_sigs.map_values(
                        |x: Vec<u8>| x@,
                    ).push(v@));
                    assert(payload_of(data@, sigs@, proof@) == Payload {
                        signatures: acc.signatures.push(v@),
                        ..acc
                    });
                } else if tag == PROOF_TAG {
                    proof = v;
                    assert(payload_of(data@, sigs@, proof@) == Payload { proof: v@, ..acc });
                } else if !(tag < 0x80 && tag % 8 == 2 && tag / 8 > 3) {
                    return None;
                }
                pos = e + n;
            },
        }
    }
    Some((data, sigs, proof))
}

pub(crate) proof fn lemma_varint_at_encoded(pre: Seq<u8>, n: nat, rest: Seq<u8>)
    requires
        n <= usize::MAX,
    ensures
        varint_at(pre + varint(n) + rest, pre.len() as int) == Some((n, (pre.len() + varint(n).len()) as int)),
    decreases n,
{
    let b = pre + varint(n) + rest;
    if n < 128 {
        assert(b[pre.len() as int] == n as u8);
    } else {
        let byte = (n % 128 + 128) as u8;
        let pre2 = pre.push(byte);
        assert(n == 128 * (n / 128) + n % 128) by (nonlinear_arith);
        lemma_varint_at_encoded(pre2, n / 128, rest);
        assert(pre2 + varint(n / 128) + rest =~= b);
        assert(b[pre.len() as int] == byte);
    }
}

/// The payload after reading one field with tag `tag` and contents `v`.
pub open spec fn with_field(acc: Payload, tag: u8, v: Seq<u8>) -> Payload {
    if tag == DATA_TAG {
        Payload { data: v, ..acc }
    } else if tag == SIGNATURE_TAG {
        Payload { signatures: acc.signatures.push(v), ..acc }
    } else {
        Payload { proof: v, ..acc }
    }
}

proof fn lemma_decode_field(pre: Seq<u8>, tag: u8, v: Seq<u8>, rest: Seq<u8>, acc: Payload)
    requires
        v.len() <= usize::MAX,
        tag == DATA_TAG || tag == SIGNATURE_TAG || tag == PROOF_TAG,
    ensures
        decode_from(pre + field(tag, v) + rest, pre.len() as int, acc) == decode_from(
            pre + field(tag, v) + rest,
            (pre.len() + field(tag, v).len()) as int,
            with_field(acc, tag, v),
        ),
{
    let b = pre + field(tag, v) + rest;
    let pos = pre.len() as int;
    let pre2 = pre.push(tag);
    assert(pre2 + varint(v.len()) + (v + rest) =~= b);
    lemma_varint_at_encoded(pre2, v.len(), v + rest);
    let e = pos + 1 + varint(v.len()).len();
    assert(b[pos] == tag);
    assert(b.subrange(e, e + v.len()) =~= v);
}

proof fn lemma_decode_signatures(pre: Seq<u8>, sigs: Seq<Seq<u8>>, rest: Seq<u8>, acc: Payload)
    requires
        forall|i: int| 0 <= i < sigs.len() ==> (#[trigger] sigs[i]).len() <= usize::MAX,
    ensures
        decode_from(pre + signature_fields(sigs) + rest, pre.len() as int, acc) == decode_from(
            pre + signature_fields(sigs) + rest,
            (pre.len() + signature_fields(sigs).len()) as int,
            Payload { signatures: acc.signatures + sigs, ..acc },
        ),
    decreases sigs.len(),
{
    let b = pre + signature_fields(sigs) + rest;
    if sigs.len() == 0 {
        assert(acc.signatures + sigs =~= acc.signatures);
        assert(b =~= pre + rest);
    } else {
        let init = sigs.drop_last();
        let last = sigs.last();
        let f = field(SIGNATURE_TAG, last);
        assert(b =~= pre + signature_fields(init) + (f + rest));
        lemma_decode_signatures(pre, init, f + rest, acc);
        let acc1 = Payload { signatures: acc.signatures + init, ..acc };
        let pre2 = pre + signature_fields(init);
        assert(b =~= pre2 + f + rest);
        lemma_decode_field(pre2, SIGNATURE_TAG, last, rest, acc1);
        assert((acc.signatures + init).push(last) =~= acc.signatures + sigs);
    }
}

/// Decoding an encoded payload gives it back.
pub proof fn lemma_decode_encode(p: Payload)
    requires
        p.data.len() <= usize::MAX,
        p.proof.len() <= usize::MAX,
        forall|i: int| 0 <= i < p.signatures.len() ==> (#[trigger] p.signatures[i]).len() <= usize::MAX,
    ensures
        decode_payload(encode_payload(p)) == Some(p),
{
    let od = optional_field(DATA_TAG, p.data);
    let sf = signature_fields(p.signatures);
    let op = optional_field(PROOF_TAG, p.proof);
    let b = encode_payload(p);
    let acc0 = empty_payload();
    let acc1 = Payload { data: p.data, ..acc0 };
    if p.data.len() > 0 {
        assert(b =~= Seq::<u8>::empty() + field(DATA_TAG, p.data) + (sf + op));
        lemma_decode_field(Seq::empty(), DATA_TAG, p.data, sf + op, acc0);
    } else {
        assert(p.data =~= acc0.data);
    }
    assert(decode_from(b, 0, acc0) == decode_from(b, od.len() as int, acc1));
    assert(b =~= od + sf + op);
    lemma_decode_signatures(od, p.signatures, op, acc1);
    let acc2 = Payload { signatures: acc1.signatures + p.signatures, ..acc1 };
    assert(acc1.signatures + p.signatures =~= p.signatures);
    let pos2 = od.len() + sf.len();
    if p.proof.len() > 0 {
        assert(b =~= (od + sf) + field(PROOF_TAG, p.proof) + Seq::<u8>::empty());
        lemma_decode_field(od + sf, PROOF_TAG, p.proof, Seq::empty(), acc2);
    } else {
        assert(p.proof =~= acc2.proof);
    }
}

} // verus!
