//! The threshold scheme whose shares carry the share count and optional
//! metadata tags.
use vstd::prelude::*;
use vstd::string::StringSliceAdditionalSpecFns;
use crate::errors::{ErrorKind, ParseFailure};
use crate::payload::{
    copy_range, field, lemma_varint_at_bounds, optional_field, push_field, push_varint,
    read_varint, lemma_varint_at_encoded, skips_bytes, skips_varint, varint, varint_at,
};
use crate::sss::{
    models, recover_error, recover_from_shares, recovered, share_data, split_error, split_with_random,
    Share, ShareModel,
};
use crate::tags::{insert_tag, pairs_view, sorted_keys, tag_map};
use crate::text::{
    ascii_chars, base64_of, is_utf8, decode_base64, decoded_base64, parse_raw_share, raw_parts, text_bytes, text_of,
    ascii_string, format_share_for_signing, lemma_text_parts,
};

verus! {

/// Field 1, the identifier (varint).
pub const ID_TAG: u8 = 0x08;

/// Field 2, the threshold (varint).
pub const THRESHOLD_TAG: u8 = 0x10;

/// Field 3, the share count (varint).
pub const COUNT_TAG: u8 = 0x18;

/// Field 4, the share data.
pub const DATA_TAG: u8 = 0x22;

/// Field 5, a reserved hash: never written, and accepted only empty.
pub const HASH_TAG: u8 = 0x2A;

/// Field 6, the metadata message.
pub const META_TAG: u8 = 0x32;

/// In the metadata message: field 1, one tag entry. In an entry: field 1, the key.
pub const ENTRY_TAG: u8 = 0x0A;

/// In an entry: field 2, the value.
pub const VALUE_TAG: u8 = 0x12;

/// Tags attached to every share of a dealing.
#[derive(Debug)]
pub struct MetaData {
    /// Key and value pairs with strictly increasing keys.
    pub tags: Vec<(Vec<u8>, Vec<u8>)>,
}

/// One share of the scheme.
#[derive(Debug)]
pub struct ThssShare {
    pub id: u8,
    pub threshold: u8,
    pub shares_count: u8,
    pub data: Vec<u8>,
    pub metadata: Option<MetaData>,
}

impl MetaData {
    /// The keys are strictly increasing.
    pub open spec fn wf(&self) -> bool {
        sorted_keys(pairs_view(self.tags@))
    }

    /// The tags as pairs of byte strings.
    pub open spec fn pairs(&self) -> Seq<(Seq<u8>, Seq<u8>)> {
        pairs_view(self.tags@)
    }

    /// Metadata without tags.
    pub fn new() -> (r: MetaData)
        ensures
            r.wf(),
            r.pairs().len() == 0,
    {
        MetaData { tags: Vec::new() }
    }

    /// Sets a tag.
    pub fn insert(&mut self, key: Vec<u8>, value: Vec<u8>)
        requires
            old(self).wf(),
        ensures
            final(self).wf(),
            tag_map(final(self).pairs()) == tag_map(old(self).pairs()).insert(key@, value@),
    {
        insert_tag(&mut self.tags, key, value);
    }
}

/// What a share holds, as values.
pub struct ThssModel {
    pub id: u8,
    pub threshold: u8,
    pub shares_count: u8,
    pub data: Seq<u8>,
    pub metadata: Option<Seq<(Seq<u8>, Seq<u8>)>>,
}

impl ThssShare {
    /// The share as values.
    pub open spec fn model(&self) -> ThssModel {
        ThssModel {
            id: self.id,
            threshold: self.threshold,
            shares_count: self.shares_count,
            data: self.data@,
            metadata: match self.metadata {
                Some(m) => Some(m.pairs()),
                None => None,
            },
        }
    }

    /// Its metadata, if any, has sorted keys.
    pub open spec fn wf(&self) -> bool {
        self.metadata matches Some(m) ==> m.wf()
    }
}

/// A varint field, left out when zero.
pub open spec fn number_field(tag: u8, n: nat) -> Seq<u8> {
    if n == 0 {
        Seq::empty()
    } else {
        seq![tag] + varint(n)
    }
}

/// The encoding of one tag entry.
pub open spec fn entry_bytes(k: Seq<u8>, v: Seq<u8>) -> Seq<u8> {
    optional_field(ENTRY_TAG, k) + optional_field(VALUE_TAG, v)
}

/// The encoding of the metadata message.
pub open spec fn meta_bytes(tags: Seq<(Seq<u8>, Seq<u8>)>) -> Seq<u8>
    decreases tags.len(),
{
    if tags.len() == 0 {
        Seq::empty()
    } else {
        meta_bytes(tags.drop_last()) + field(ENTRY_TAG, entry_bytes(tags.last().0, tags.last().1))
    }
}

/// The encoding of a share's payload.
pub open spec fn encode_thss(s: ThssModel) -> Seq<u8> {
    number_field(ID_TAG, s.id as nat) + number_field(THRESHOLD_TAG, s.threshold as nat) + number_field(
        COUNT_TAG,
        s.shares_count as nat,
    ) + optional_field(DATA_TAG, s.data) + match s.metadata {
        Some(tags) => field(META_TAG, meta_bytes(tags)),
        None => Seq::empty(),
    }
}

/// The tag byte, the number after it and the position after that number.
pub open spec fn field_header(b: Seq<u8>, pos: int) -> Option<(u8, nat, int)> {
    if pos < 0 || pos >= b.len() {
        None
    } else {
        match varint_at(b, pos + 1) {
            None => None,
            Some((n, e)) => if e <= pos || e > b.len() {
                None
            } else {
                Some((b[pos], n, e))
            },
        }
    }
}

/// Reads the key and value fields of an entry from `pos` on.
pub open spec fn entry_from(b: Seq<u8>, pos: int, acc: (Seq<u8>, Seq<u8>)) -> Option<(Seq<u8>, Seq<u8>)>
    decreases b.len() - pos,
{
    if pos == b.len() {
        Some(acc)
    } else {
        match field_header(b, pos) {
            None => None,
            Some((tag, n, e)) => if e + n > b.len() {
                None
            } else if tag == ENTRY_TAG {
                entry_from(b, e + n, (b.subrange(e, e + n), acc.1))
            } else if tag == VALUE_TAG {
                entry_from(b, e + n, (acc.0, b.subrange(e, e + n)))
            } else {
                None
            },
        }
    }
}

/// Reads the entries of a metadata message from `pos` on, in order; keys and
/// values must be UTF-8.
pub open spec fn entries_from(b: Seq<u8>, pos: int, acc: Seq<(Seq<u8>, Seq<u8>)>) -> Option<Seq<(Seq<u8>, Seq<u8>)>>
    decreases b.len() - pos,
{
    if pos == b.len() {
        Some(acc)
    } else {
        match field_header(b, pos) {
            None => None,
            Some((tag, n, e)) => if e + n > b.len() || tag != ENTRY_TAG {
                None
            } else {
                match entry_from(b.subrange(e, e + n), 0, (Seq::empty(), Seq::empty())) {
                    None => None,
                    Some(kv) => if vstd::utf8::valid_utf8(kv.0) && vstd::utf8::valid_utf8(kv.1) {
                        entries_from(b, e + n, acc.push(kv))
                    } else {
                        None
                    },
                }
            },
        }
    }
}

/// The fields of a payload as read, with the tag entries in wire order.
pub struct ThssRaw {
    pub id: nat,
    pub threshold: nat,
    pub shares_count: nat,
    pub data: Seq<u8>,
    pub entries: Option<Seq<(Seq<u8>, Seq<u8>)>>,
}

/// The entries read so far, with `more` after them.
pub open spec fn with_entries(acc: Option<Seq<(Seq<u8>, Seq<u8>)>>, more: Seq<(Seq<u8>, Seq<u8>)>) -> Option<Seq<(Seq<u8>, Seq<u8>)>> {
    match acc {
        Some(es) => Some(es + more),
        None => Some(more),
    }
}

/// Reads payload fields from `pos` on; a later number or data field replaces an
/// earlier one, metadata messages add their entries.
pub open spec fn thss_from(b: Seq<u8>, pos: int, acc: ThssRaw) -> Option<ThssRaw>
    decreases b.len() - pos,
{
    if pos == b.len() {
        Some(acc)
    } else {
        match field_header(b, pos) {
            None => None,
            Some((tag, n, e)) => if tag == ID_TAG {
                thss_from(b, e, ThssRaw { id: n, ..acc })
            } else if tag == THRESHOLD_TAG {
                thss_from(b, e, ThssRaw { threshold: n, ..acc })
            } else if tag == COUNT_TAG {
                thss_from(b, e, ThssRaw { shares_count: n, ..acc })
            } else if skips_varint(tag, 6) {
                thss_from(b, e, acc)
            } else if e + n > b.len() {
                None
            } else if tag == DATA_TAG {
                thss_from(b, e + n, ThssRaw { data: b.subrange(e, e + n), ..acc })
            } else if tag == HASH_TAG {
                if n == 0 {
                    thss_from(b, e + n, acc)
                } else {
                    None
                }
            } else if tag == META_TAG {
                match entries_from(b.subrange(e, e + n), 0, Seq::empty()) {
                    None => None,
                    Some(es) => thss_from(b, e + n, ThssRaw { entries: with_entries(acc.entries, es), ..acc }),
                }
            } else if skips_bytes(tag, 6) {
                thss_from(b, e + n, acc)
            } else {
                None
            },
        }
    }
}

/// The raw fields of a payload, if it decodes.
pub open spec fn decode_thss(b: Seq<u8>) -> Option<ThssRaw> {
    thss_from(b, 0, ThssRaw { id: 0, threshold: 0, shares_count: 0, data: Seq::empty(), entries: None })
}

fn read_header(b: &Vec<u8>, pos: usize) -> (r: Option<(u8, usize, usize)>)
    ensures
        r is None <==> field_header(b@, pos as int) is None,
        r matches Some((t, n, e)) ==> field_header(b@, pos as int) == Some((t, n as nat, e as int)),
{
    if pos >= b.len() {
        return None;
    }
    proof {
        lemma_varint_at_bounds(b@, pos + 1);
    }
    match read_varint(b, pos + 1) {
        None => None,
        Some((n, e)) => if e <= pos || e > b.len() {
            None
        } else {
            Some((b[pos], n, e))
        },
    }
}

fn decode_entry(b: &Vec<u8>) -> (r: Option<(Vec<u8>, Vec<u8>)>)
    ensures
        r is None <==> entry_from(b@, 0, (Seq::empty(), Seq::empty())) is None,
        r matches Some((k, v)) ==> entry_from(b@, 0, (Seq::empty(), Seq::empty())) == Some((k@, v@)),
{
    let mut key: Vec<u8> = Vec::new();
    let mut value: Vec<u8> = Vec::new();
    let mut pos: usize = 0;
    while pos < b.len()
        invariant
            pos <= b@.len(),
            entry_from(b@, pos as int, (key@, value@)) == entry_from(b@, 0, (Seq::empty(), Seq::empty())),
        decreases b.len() - pos,
    {
        match read_header(b, pos) {
            None => {
                return None;
            },
            Some((tag, n, e)) => {
                if n > b.len() - e {
                    return None;
                }
                if tag == ENTRY_TAG {
                    key = copy_range(b, e, e + n);
                } else if tag == VALUE_TAG {
                    value = copy_range(b, e, e + n);
                } else {
                    return None;
                }
                pos = e + n;
            },
        }
    }
    Some((key, value))
}

fn decode_entries(b: &Vec<u8>, out: &mut Vec<(Vec<u8>, Vec<u8>)>) -> (r: bool)
    ensures
        r <==> entries_from(b@, 0, Seq::empty()) is Some,
        r ==> pairs_view(final(out)@) == pairs_view(old(out)@) + entries_from(b@, 0, Seq::empty())->Some_0,
{
    let n0 = out.len();
    let mut pos: usize = 0;
    assert(pairs_view(out@).subrange(n0 as int, out@.len() as int) =~= Seq::<(Seq<u8>, Seq<u8>)>::empty());
    assert(pairs_view(out@).subrange(0, n0 as int) =~= pairs_view(old(out)@));
    while pos < b.len()
        invariant
            pos <= b@.len(),
            n0 <= out@.len(),
            pairs_view(out@).subrange(0, n0 as int) == pairs_view(old(out)@),
            entries_from(b@, pos as int, pairs_view(out@).subrange(n0 as int, out@.len() as int))
                == entries_from(b@, 0, Seq::empty()),
        decreases b.len() - pos,
    {
        match read_header(b, pos) {
            None => {
                return false;
            },
            Some((tag, n, e)) => {
                if n > b.len() - e || tag != ENTRY_TAG {
                    return false;
                }
                let sub = copy_range(b, e, e + n);
                match decode_entry(&sub) {
                    None => {
                        return false;
                    },
                    Some(kv) => {
                        if !is_utf8(kv.0.as_slice()) || !is_utf8(kv.1.as_slice()) {
                            return false;
                        }
                        let ghost before = pairs_view(out@);
                        out.push(kv);
                        assert(pairs_view(out@) =~= before.push((kv.0@, kv.1@)));
                        assert(pairs_view(out@).subrange(n0 as int, out@.len() as int) =~= before.subrange(
                            n0 as int,
                            before.len() as int,
                        ).push((kv.0@, kv.1@)));
                        assert(pairs_view(out@).subrange(0, n0 as int) =~= before.subrange(0, n0 as int));
                    },
                }
                pos = e + n;
            },
        }
    }
    assert(pairs_view(out@) =~= pairs_view(out@).subrange(0, n0 as int) + pairs_view(out@).subrange(
        n0 as int,
        out@.len() as int,
    ));
    true
}

/// The decoded fields of a payload.
pub struct ThssFields {
    pub id: usize,
    pub threshold: usize,
    pub shares_count: usize,
    pub data: Vec<u8>,
    pub entries: Option<Vec<(Vec<u8>, Vec<u8>)>>,
}

impl ThssFields {
    /// The fields as values.
    pub open spec fn raw(&self) -> ThssRaw {
        ThssRaw {
            id: self.id as nat,
            threshold: self.threshold as nat,
            shares_count: self.shares_count as nat,
            data: self.data@,
            entries: match self.entries {
                Some(es) => Some(pairs_view(es@)),
                None => None,
            },
        }
    }
}

/// Decodes a payload into its raw fields.
pub fn decode_fields(b: &Vec<u8>) -> (r: Option<ThssFields>)
    ensures
        r is None <==> decode_thss(b@) is None,
        r matches Some(f) ==> decode_thss(b@) == Some(f.raw()),
{
    let mut f = ThssFields { id: 0, threshold: 0, shares_count: 0, data: Vec::new(), entries: None };
    let mut pos: usize = 0;
    assert(f.raw() == ThssRaw { id: 0, threshold: 0, shares_count: 0, data: Seq::empty(), entries: None });
    while pos < b.len()
        invariant
            pos <= b@.len(),
            thss_from(b@, pos as int, f.raw()) == decode_thss(b@),
        decreases b.len() - pos,
    {
        match read_header(b, pos) {
            None => {
                return None;
            },
            Some((tag, n, e)) => {
                if tag == ID_TAG {
                    f.id = n;
                    pos = e;
                } else if tag == THRESHOLD_TAG {
                    f.threshold = n;
                    pos = e;
                } else if tag == COUNT_TAG {
                    f.shares_count = n;
                    pos = e;
                } else if tag < 0x80 && tag % 8 == 0 && tag / 8 > 6 {
                    pos = e;
                } else {
                    if n > b.len() - e {
                        return None;
                    }
                    if tag == DATA_TAG {
                        f.data = copy_range(b, e, e + n);
                    } else if tag == HASH_TAG {
                        if n != 0 {
                            return None;
                        }
                    } else if tag == META_TAG {
                        let sub = copy_range(b, e, e + n);
                        let ghost acc = f.raw();
                        let mut all: Vec<(Vec<u8>, Vec<u8>)> = match f.entries.take() {
                            Some(v) => v,
                            None => Vec::new(),
                        };
                        let ghost prior = pairs_view(all@);
                        assert(acc.entries is None ==> prior =~= Seq::<(Seq<u8>, Seq<u8>)>::empty());
                        if !decode_entries(&sub, &mut all) {
                            return None;
                        }
                        f.entries = Some(all);
                        assert(f.raw() == ThssRaw {
                            entries: with_entries(acc.entries, entries_from(sub@, 0, Seq::empty())->Some_0),
                            ..acc
                        });
                    } else if !(tag < 0x80 && tag % 8 == 2 && tag / 8 > 6) {
                        return None;
                    }
                    pos = e + n;
                }
            },
        }
    }
    Some(f)
}

fn push_number(out: &mut Vec<u8>, tag: u8, n: u8)
    ensures
        final(out)@ == old(out)@ + number_field(tag, n as nat),
{
    if n != 0 {
        out.push(tag);
        push_varint(out, n as usize);
    }
    assert(out@ =~= old(out)@ + number_field(tag, n as nat));
}

fn entry_encoding(k: &Vec<u8>, v: &Vec<u8>) -> (r: Vec<u8>)
    ensures
        r@ == entry_bytes(k@, v@),
{
    let mut out: Vec<u8> = Vec::new();
    if k.len() > 0 {
        push_field(&mut out, ENTRY_TAG, k);
    }
    let ghost mid = out@;
    if v.len() > 0 {
        push_field(&mut out, VALUE_TAG, v);
    }
    assert(out@ =~= entry_bytes(k@, v@));
    out
}

/// Encodes the payload of a share.
pub fn share_to_protobuf(share: &ThssShare) -> (r: Vec<u8>)
    ensures
        r@ == encode_thss(share.model()),
{
    let mut out: Vec<u8> = Vec::new();
    push_number(&mut out, ID_TAG, share.id);
    push_number(&mut out, THRESHOLD_TAG, share.threshold);
    push_number(&mut out, COUNT_TAG, share.shares_count);
    if share.data.len() > 0 {
        push_field(&mut out, DATA_TAG, &share.data);
    }
    let ghost head = out@;
    assert(head =~= number_field(ID_TAG, share.id as nat) + number_field(THRESHOLD_TAG, share.threshold as nat)
        + number_field(COUNT_TAG, share.shares_count as nat) + optional_field(DATA_TAG, share.data@));
    match &share.metadata {
        Some(m) => {
            let mut meta: Vec<u8> = Vec::new();
            let mut i: usize = 0;
            while i < m.tags.len()
                invariant
                    i <= m.tags@.len(),
                    meta@ == meta_bytes(m.pairs().take(i as int)),
                decreases m.tags.len() - i,
            {
                let e = entry_encoding(&m.tags[i].0, &m.tags[i].1);
                push_field(&mut meta, ENTRY_TAG, &e);
                assert(m.pairs().take(i + 1).drop_last() =~= m.pairs().take(i as int));
                i = i + 1;
            }
            assert(m.pairs().take(m.tags@.len() as int) =~= m.pairs());
            push_field(&mut out, META_TAG, &meta);
        },
        None => {},
    }
    assert(out@ =~= encode_thss(share.model()));
    out
}

/// Writes a share as text.
pub fn share_to_string(share: &ThssShare) -> (r: String)
    ensures
        r@ == ascii_chars(text_of(share.threshold, share.id, encode_thss(share.model()))),
{
    ascii_string(share_to_text(share))
}

/// A well-formed share: identifier and threshold within the share count, and
/// tags that fit the wire format.
pub open spec fn valid_share(s: &ThssShare) -> bool {
    &&& 1 <= s.threshold <= s.shares_count
    &&& 1 <= s.id <= s.shares_count
    &&& s.metadata matches Some(m) ==> encodable_tags(m.pairs())
}

/// Writes a share as text; a well-formed share reads back as itself.
pub fn share_to_text(share: &ThssShare) -> (r: Vec<u8>)
    ensures
        r@ == text_of(share.threshold, share.id, encode_thss(share.model())),
        forall|j: int| 0 <= j < r@.len() ==> #[trigger] r@[j] < 128,
        valid_share(share) ==> parse_thss(r@) == Ok::<ThssParsed, ErrorKind>(parsed_of(share)),
{
    let payload = share_to_protobuf(share);
    let out = format_share_for_signing(share.threshold, share.id, &payload);
    proof {
        if valid_share(share) {
            let m = share.model();
            assert(payload@.len() == payload.len());
            assert(encode_thss(m).len() > 0);
            lemma_text_parts(share.threshold, share.id, payload@);
            assert(share.data@.len() == share.data.len());
            if let Some(ts) = m.metadata {
                let mf = field(META_TAG, meta_bytes(ts));
                assert(encode_thss(m).len() >= mf.len());
            }
            lemma_decode_encode_thss(m);
            assert(parsed_of(share).tags == match raw_of(m).entries {
                Some(es) => Some(tag_map(es)),
                None => None::<Map<Seq<u8>, Seq<u8>>>,
            });
        }
    }
    out
}

/// A share as read from text: the metadata is a map.
pub struct ThssParsed {
    pub id: u8,
    pub threshold: u8,
    pub shares_count: u8,
    pub data: Seq<u8>,
    pub tags: Option<Map<Seq<u8>, Seq<u8>>>,
}

/// The payload fields of a share's text, checked against the text's threshold
/// and identifier.
pub open spec fn parse_proto(t: Seq<u8>) -> Result<ThssRaw, ErrorKind> {
    match raw_parts(t) {
        Err(e) => Err(e),
        Ok((k, i, p3)) => match decoded_base64(p3) {
            None => Err(ErrorKind::ShareParsingError(ParseFailure::Base64)),
            Some(raw) => match decode_thss(raw) {
                None => Err(ErrorKind::ShareParsingError(ParseFailure::Payload)),
                Some(f) => if f.threshold != k {
                    Err(ErrorKind::ShareParsingError(ParseFailure::ThresholdMismatch))
                } else if f.id != i {
                    Err(ErrorKind::ShareParsingError(ParseFailure::IdMismatch))
                } else {
                    Ok(f)
                },
            },
        },
    }
}

/// The share that a text denotes, or the error that reading it gives.
pub open spec fn parse_thss(t: Seq<u8>) -> Result<ThssParsed, ErrorKind> {
    match parse_proto(t) {
        Err(e) => Err(e),
        Ok(f) => if f.threshold < 1 || f.id < 1 || f.shares_count < 1 || f.shares_count > 255 || f.threshold
            > f.shares_count || f.id > f.shares_count {
            Err(ErrorKind::ShareParsingError(ParseFailure::IllegalShareInfo))
        } else {
            Ok(ThssParsed {
                id: f.id as u8,
                threshold: f.threshold as u8,
                shares_count: f.shares_count as u8,
                data: f.data,
                tags: match f.entries {
                    Some(es) => Some(tag_map(es)),
                    None => None,
                },
            })
        },
    }
}

/// Builds metadata from entries in wire order; a later key replaces an earlier one.
pub fn metadata_from_proto(entries: Vec<(Vec<u8>, Vec<u8>)>) -> (r: MetaData)
    ensures
        r.wf(),
        tag_map(r.pairs()) == tag_map(pairs_view(entries@)),
{
    let ghost es = pairs_view(entries@);
    let mut entries = entries;
    let mut rev: Vec<(Vec<u8>, Vec<u8>)> = Vec::new();
    let mut m = MetaData::new();
    let mut i: usize = 0;
    let n = entries.len();
    assert(es.take(0) =~= Seq::<(Seq<u8>, Seq<u8>)>::empty());
    assert(tag_map(m.pairs()) =~= tag_map(es.take(0)));
    while i < n
        invariant
            n == es.len(),
            i <= n,
            entries@.len() == n,
            pairs_view(entries@) == es,
            m.wf(),
            tag_map(m.pairs()) == tag_map(es.take(i as int)),
        decreases n - i,
    {
        let k = copy_range(&entries[i].0, 0, entries[i].0.len());
        let v = copy_range(&entries[i].1, 0, entries[i].1.len());
        assert(es[i as int] == (k@, v@));
        m.insert(k, v);
        assert(es.take(i + 1).drop_last() =~= es.take(i as int));
        i = i + 1;
    }
    assert(es.take(n as int) =~= es);
    m
}

/// The model of a parsed share.
pub open spec fn parsed_of(s: &ThssShare) -> ThssParsed {
    ThssParsed {
        id: s.id,
        threshold: s.threshold,
        shares_count: s.shares_count,
        data: s.data@,
        tags: match s.metadata {
            Some(m) => Some(tag_map(m.pairs())),
            None => None,
        },
    }
}

/// Reads the payload fields of a share's text and checks them against the
/// text's threshold and identifier.
pub fn parse_share_protobuf(raw: &str) -> (r: Result<ThssFields, ErrorKind>)
    ensures
        r is Ok ==> parse_proto(text_bytes(raw)) == Ok::<ThssRaw, ErrorKind>(r->Ok_0.raw()),
        r is Err ==> parse_proto(text_bytes(raw)) == Err::<ThssRaw, ErrorKind>(r->Err_0),
{
    let (k, i, p3) = parse_raw_share(raw.as_bytes())?;
    let bytes = match decode_base64(&p3) {
        Ok(v) => v,
        Err(_) => {
            assert(!exists|x: Seq<u8>| #[trigger] base64_of(x) == p3@);
            return Err(ErrorKind::ShareParsingError(ParseFailure::Base64));
        },
    };
    assert(decoded_base64(p3@) == Some(bytes@));
    let f = match decode_fields(&bytes) {
        Some(f) => f,
        None => {
            return Err(ErrorKind::ShareParsingError(ParseFailure::Payload));
        },
    };
    if f.threshold != k as usize {
        return Err(ErrorKind::ShareParsingError(ParseFailure::ThresholdMismatch));
    }
    if f.id != i as usize {
        return Err(ErrorKind::ShareParsingError(ParseFailure::IdMismatch));
    }
    Ok(f)
}

/// Reads a share from its text.
pub fn share_from_string(raw: &str) -> (r: Result<ThssShare, ErrorKind>)
    ensures
        r is Ok ==> r->Ok_0.wf() && parse_thss(text_bytes(raw)) == Ok::<ThssParsed, ErrorKind>(parsed_of(&r->Ok_0)),
        r is Err ==> parse_thss(text_bytes(raw)) == Err::<ThssParsed, ErrorKind>(r->Err_0),
{
    let f = parse_share_protobuf(raw)?;
    if f.threshold < 1 || f.id < 1 || f.shares_count < 1 || f.shares_count > 255 || f.threshold > f.shares_count
        || f.id > f.shares_count {
        return Err(ErrorKind::ShareParsingError(ParseFailure::IllegalShareInfo));
    }
    let metadata = match f.entries {
        Some(es) => Some(metadata_from_proto(es)),
        None => None,
    };
    let share = ThssShare {
        id: f.id as u8,
        threshold: f.threshold as u8,
        shares_count: f.shares_count as u8,
        data: f.data,
        metadata,
    };
    Ok(share)
}

/// A copy of metadata.
pub fn copy_metadata(m: &MetaData) -> (r: MetaData)
    ensures
        r.pairs() == m.pairs(),
{
    let mut tags: Vec<(Vec<u8>, Vec<u8>)> = Vec::new();
    let mut i: usize = 0;
    while i < m.tags.len()
        invariant
            i <= m.tags@.len(),
            pairs_view(tags@) == m.pairs().take(i as int),
        decreases m.tags.len() - i,
    {
        let k = copy_range(&m.tags[i].0, 0, m.tags[i].0.len());
        let v = copy_range(&m.tags[i].1, 0, m.tags[i].1.len());
        let ghost before = pairs_view(tags@);
        assert(m.pairs()[i as int] == (k@, v@));
        tags.push((k, v));
        assert(pairs_view(tags@) =~= before.push((k@, v@)));
        assert(pairs_view(tags@) =~= m.pairs().take(i + 1));
        i = i + 1;
    }
    assert(m.pairs().take(m.tags@.len() as int) =~= m.pairs());
    MetaData { tags }
}

/// Splits `secret` into `n` shares, any `k` of which recover it, each carrying
/// the share count and a copy of `metadata`; the polynomials' non-constant
/// coefficients come from `random`.
pub fn split_secret_with_random(
    k: u8,
    n: u8,
    secret: &Vec<u8>,
    metadata: &Option<MetaData>,
    random: &Vec<u8>,
) -> (r: Result<Vec<ThssShare>, ErrorKind>)
    requires
        metadata matches Some(m) ==> m.wf(),
    ensures
        split_error(k, n, secret@, random@) is None <==> r is Ok,
        split_error(k, n, secret@, random@) matches Some(e) ==> r == Err::<Vec<ThssShare>, ErrorKind>(e),
        r matches Ok(shares) ==> shares@.len() == n && forall|i: int|
            0 <= i < n ==> {
                &&& (#[trigger] shares@[i]).wf()
                &&& shares@[i].id == i + 1
                &&& shares@[i].threshold == k
                &&& shares@[i].shares_count == n
                &&& shares@[i].data@ == share_data(secret@, random@, k as nat, (i + 1) as u8)
                &&& shares@[i].model().metadata == match metadata {
                    Some(m) => Some(m.pairs()),
                    None => None::<Seq<(Seq<u8>, Seq<u8>)>>,
                }
            },
{
    let plain = split_with_random(k, n, secret, random)?;
    let mut shares: Vec<ThssShare> = Vec::new();
    let ghost p = plain@;
    let mut i: usize = 0;
    while i < plain.len()
        invariant
            i <= p.len(),
            p.len() == n,
            plain@ == p,
            shares@.len() == i,
            metadata matches Some(m) ==> m.wf(),
            forall|j: int|
                0 <= j < n ==> {
                    &&& (#[trigger] p[j]).id == j + 1
                    &&& p[j].threshold == k
                    &&& p[j].data@ == share_data(secret@, random@, k as nat, (j + 1) as u8)
                },
            forall|j: int|
                0 <= j < i ==> {
                    &&& (#[trigger] shares@[j]).wf()
                    &&& shares@[j].id == j + 1
                    &&& shares@[j].threshold == k
                    &&& shares@[j].shares_count == n
                    &&& shares@[j].data@ == share_data(secret@, random@, k as nat, (j + 1) as u8)
                    &&& shares@[j].model().metadata == match metadata {
                        Some(m) => Some(m.pairs()),
                        None => None::<Seq<(Seq<u8>, Seq<u8>)>>,
                    }
                },
        decreases plain.len() - i,
    {
        let data = copy_range(&plain[i].data, 0, plain[i].data.len());
        let meta = match metadata {
            Some(m) => Some(copy_metadata(m)),
            None => None,
        };
        assert(p[i as int].id == i + 1);
        shares.push(ThssShare { id: plain[i].id, threshold: k, shares_count: n, data, metadata: meta });
        i = i + 1;
    }
    Ok(shares)
}

/// The plain share that a share of this scheme stands for.
pub open spec fn as_plain(s: ThssShare) -> ShareModel {
    ShareModel { id: s.id, threshold: s.threshold, data: s.data@, signatures: Seq::empty(), proof: Seq::empty() }
}

/// The error, if any, of the share counts: they must agree, and bound the
/// identifiers.
pub open spec fn count_error(s: Seq<ThssShare>) -> Option<ErrorKind> {
    if s.len() > 0 && exists|i: int| 0 <= i < s.len() && #[trigger] s[i].shares_count != s[0].shares_count {
        Some(ErrorKind::InconsistentShareCounts)
    } else if exists|i: int| 0 <= i < s.len() && #[trigger] s[i].id > s[i].shares_count {
        Some(ErrorKind::ShareParsingError(ParseFailure::IllegalShareInfo))
    } else {
        None
    }
}

/// Recovers the secret from shares of one dealing, as the plain scheme does,
/// once their share counts agree and bound their identifiers.
pub fn recover_secret(shares: &Vec<ThssShare>) -> (r: Result<Vec<u8>, ErrorKind>)
    ensures
        count_error(shares@) matches Some(e) ==> r == Err::<Vec<u8>, ErrorKind>(e),
        count_error(shares@) is None ==> {
            &&& recover_error(shares@.map_values(|s: ThssShare| as_plain(s))) matches Some(e) ==> r == Err::<
                Vec<u8>,
                ErrorKind,
            >(e)
            &&& recover_error(shares@.map_values(|s: ThssShare| as_plain(s))) is None ==> r is Ok && r->Ok_0@
                == recovered(shares@.map_values(|s: ThssShare| as_plain(s)))
        },
{
    if shares.len() > 0 {
        let n = shares[0].shares_count;
        let mut i: usize = 0;
        while i < shares.len()
            invariant
                i <= shares@.len(),
                n == shares@[0].shares_count,
                forall|t: int| 0 <= t < i ==> #[trigger] shares@[t].shares_count == n,
            decreases shares.len() - i,
        {
            if shares[i].shares_count != n {
                assert(shares@[i as int].shares_count != shares@[0].shares_count);
                return Err(ErrorKind::InconsistentShareCounts);
            }
            i = i + 1;
        }
        let mut i: usize = 0;
        while i < shares.len()
            invariant
                i <= shares@.len(),
                n == shares@[0].shares_count,
                forall|t: int| 0 <= t < shares@.len() ==> #[trigger] shares@[t].shares_count == n,
                forall|t: int| 0 <= t < i ==> #[trigger] shares@[t].id <= n,
            decreases shares.len() - i,
        {
            if shares[i].id > n {
                assert(shares@[i as int].id > shares@[i as int].shares_count);
                return Err(ErrorKind::ShareParsingError(ParseFailure::IllegalShareInfo));
            }
            i = i + 1;
        }
    }
    let ghost target = shares@.map_values(|s: ThssShare| as_plain(s));
    let mut plain: Vec<Share> = Vec::new();
    let mut i: usize = 0;
    while i < shares.len()
        invariant
            i <= shares@.len(),
            target == shares@.map_values(|s: ThssShare| as_plain(s)),
            models(plain@) == target.take(i as int),
        decreases shares.len() - i,
    {
        let data = copy_range(&shares[i].data, 0, shares[i].data.len());
        assert(data@ =~= shares@[i as int].data@);
        let share = Share {
            id: shares[i].id,
            threshold: shares[i].threshold,
            data,
            signatures: Vec::new(),
            proof: Vec::new(),
        };
        let ghost before = plain@;
        assert(share@.signatures =~= Seq::<Seq<u8>>::empty());
        assert(target[i as int] == as_plain(shares@[i as int]));
        assert(share@ == target[i as int]);
        let ghost sv = share@;
        plain.push(share);
        assert(models(plain@) =~= models(before).push(sv));
        assert(models(plain@) =~= target.take(i + 1));
        i = i + 1;
    }
    assert(target.take(shares@.len() as int) =~= target);
    recover_from_shares(&plain)
}

proof fn lemma_header(pre: Seq<u8>, tag: u8, n: nat, rest: Seq<u8>)
    requires
        n <= usize::MAX,
    ensures
        field_header(pre + seq![tag] + varint(n) + rest, pre.len() as int) == Some(
            (tag, n, (pre.len() + 1 + varint(n).len()) as int),
        ),
{
    let b = pre + seq![tag] + varint(n) + rest;
    assert(pre.push(tag) + varint(n) + rest =~= b);
    lemma_varint_at_encoded(pre.push(tag), n, rest);
    assert(b[pre.len() as int] == tag);
}

proof fn lemma_entry(k: Seq<u8>, v: Seq<u8>)
    requires
        k.len() <= usize::MAX,
        v.len() <= usize::MAX,
    ensures
        entry_from(entry_bytes(k, v), 0, (Seq::empty(), Seq::empty())) == Some((k, v)),
{
    let b = entry_bytes(k, v);
    let ok = optional_field(ENTRY_TAG, k);
    let ov = optional_field(VALUE_TAG, v);
    let acc1 = (k, Seq::<u8>::empty());
    if k.len() > 0 {
        assert(b =~= Seq::<u8>::empty() + seq![ENTRY_TAG] + varint(k.len()) + (k + ov));
        lemma_header(Seq::empty(), ENTRY_TAG, k.len(), k + ov);
        let e = (1 + varint(k.len()).len()) as int;
        assert(b.subrange(e, e + k.len()) =~= k);
    } else {
        assert(k =~= Seq::<u8>::empty());
    }
    assert(entry_from(b, 0, (Seq::empty(), Seq::empty())) == entry_from(b, ok.len() as int, acc1));
    if v.len() > 0 {
        assert(b =~= ok + seq![VALUE_TAG] + varint(v.len()) + (v + Seq::<u8>::empty()));
        lemma_header(ok, VALUE_TAG, v.len(), v + Seq::<u8>::empty());
        let e = (ok.len() + 1 + varint(v.len()).len()) as int;
        assert(b.subrange(e, e + v.len()) =~= v);
        assert(e + v.len() == b.len());
        assert(entry_from(b, ok.len() as int, acc1) == entry_from(b, e + v.len(), (k, v)));
        assert(entry_from(b, b.len() as int, (k, v)) == Some((k, v)));
    } else {
        assert(v =~= Seq::<u8>::empty());
        assert(b =~= ok);
        assert(entry_from(b, ok.len() as int, acc1) == Some(acc1));
        assert(acc1 == (k, v));
    }
}

/// The tags fit the wire format: UTF-8 keys and values, each entry's encoding
/// within a machine length.
pub open spec fn encodable_tags(ts: Seq<(Seq<u8>, Seq<u8>)>) -> bool {
    forall|i: int|
        0 <= i < ts.len() ==> {
            &&& vstd::utf8::valid_utf8(#[trigger] ts[i].0)
            &&& vstd::utf8::valid_utf8(ts[i].1)
            &&& ts[i].0.len() <= usize::MAX
            &&& ts[i].1.len() <= usize::MAX
            &&& entry_bytes(ts[i].0, ts[i].1).len() <= usize::MAX
        }
}

proof fn lemma_entries(pre: Seq<u8>, ts: Seq<(Seq<u8>, Seq<u8>)>, rest: Seq<u8>, acc: Seq<(Seq<u8>, Seq<u8>)>)
    requires
        encodable_tags(ts),
    ensures
        entries_from(pre + meta_bytes(ts) + rest, pre.len() as int, acc) == entries_from(
            pre + meta_bytes(ts) + rest,
            (pre.len() + meta_bytes(ts).len()) as int,
            acc + ts,
        ),
    decreases ts.len(),
{
    let b = pre + meta_bytes(ts) + rest;
    if ts.len() == 0 {
        assert(acc + ts =~= acc);
        assert(b =~= pre + rest);
    } else {
        let init = ts.drop_last();
        let (k, v) = ts.last();
        let eb = entry_bytes(k, v);
        let f = field(ENTRY_TAG, eb);
        assert(encodable_tags(init)) by {
            assert forall|i: int| 0 <= i < init.len() implies init[i] == ts[i] by {}
        }
        assert(b =~= pre + meta_bytes(init) + (f + rest));
        lemma_entries(pre, init, f + rest, acc);
        let pre2 = pre + meta_bytes(init);
        assert(ts[ts.len() - 1] == (k, v));
        assert(b =~= pre2 + seq![ENTRY_TAG] + varint(eb.len()) + (eb + rest));
        lemma_header(pre2, ENTRY_TAG, eb.len(), eb + rest);
        let e = (pre2.len() + 1 + varint(eb.len()).len()) as int;
        assert(b.subrange(e, e + eb.len()) =~= eb);
        lemma_entry(k, v);
        assert((acc + init).push((k, v)) =~= acc + ts);
        assert(e + eb.len() == pre.len() + meta_bytes(ts).len());
    }
}

/// The raw fields that a share's payload encodes.
pub open spec fn raw_of(m: ThssModel) -> ThssRaw {
    ThssRaw {
        id: m.id as nat,
        threshold: m.threshold as nat,
        shares_count: m.shares_count as nat,
        data: m.data,
        entries: m.metadata,
    }
}

proof fn lemma_number(pre: Seq<u8>, tag: u8, n: u8, rest: Seq<u8>, acc: ThssRaw)
    requires
        tag == ID_TAG || tag == THRESHOLD_TAG || tag == COUNT_TAG,
        tag == ID_TAG ==> acc.id == 0,
        tag == THRESHOLD_TAG ==> acc.threshold == 0,
        tag == COUNT_TAG ==> acc.shares_count == 0,
    ensures
        thss_from(pre + number_field(tag, n as nat) + rest, pre.len() as int, acc) == thss_from(
            pre + number_field(tag, n as nat) + rest,
            (pre.len() + number_field(tag, n as nat).len()) as int,
            if tag == ID_TAG {
                ThssRaw { id: n as nat, ..acc }
            } else if tag == THRESHOLD_TAG {
                ThssRaw { threshold: n as nat, ..acc }
            } else {
                ThssRaw { shares_count: n as nat, ..acc }
            },
        ),
{
    if n != 0 {
        let b = pre + number_field(tag, n as nat) + rest;
        assert(b =~= pre + seq![tag] + varint(n as nat) + rest);
        lemma_header(pre, tag, n as nat, rest);
    } else {
        assert(pre + number_field(tag, n as nat) + rest =~= pre + rest);
    }
}

proof fn lemma_thss_data(pre: Seq<u8>, data: Seq<u8>, rest: Seq<u8>, acc: ThssRaw)
    requires
        0 < data.len() <= usize::MAX,
    ensures
        thss_from(pre + optional_field(DATA_TAG, data) + rest, pre.len() as int, acc) == thss_from(
            pre + optional_field(DATA_TAG, data) + rest,
            (pre.len() + optional_field(DATA_TAG, data).len()) as int,
            ThssRaw { data: data, ..acc },
        ),
{
    let b = pre + optional_field(DATA_TAG, data) + rest;
    assert(b =~= pre + seq![DATA_TAG] + varint(data.len()) + (data + rest));
    lemma_header(pre, DATA_TAG, data.len(), data + rest);
    let e = (pre.len() + 1 + varint(data.len()).len()) as int;
    assert(b.subrange(e, e + data.len()) =~= data);
}

proof fn lemma_thss_meta(pre: Seq<u8>, ts: Seq<(Seq<u8>, Seq<u8>)>, acc: ThssRaw)
    requires
        acc.entries is None,
        encodable_tags(ts),
        meta_bytes(ts).len() <= usize::MAX,
    ensures
        thss_from(pre + field(META_TAG, meta_bytes(ts)), pre.len() as int, acc) == Some(
            ThssRaw { entries: Some(ts), ..acc },
        ),
{
    let mb = meta_bytes(ts);
    let b = pre + field(META_TAG, mb);
    assert(b =~= pre + seq![META_TAG] + varint(mb.len()) + (mb + Seq::<u8>::empty()));
    lemma_header(pre, META_TAG, mb.len(), mb + Seq::<u8>::empty());
    let e = (pre.len() + 1 + varint(mb.len()).len()) as int;
    assert(b.subrange(e, e + mb.len()) =~= mb);
    assert(mb =~= Seq::<u8>::empty() + mb + Seq::<u8>::empty());
    lemma_entries(Seq::empty(), ts, Seq::empty(), Seq::empty());
    assert(Seq::<(Seq<u8>, Seq<u8>)>::empty() + ts =~= ts);
    assert(entries_from(mb, 0, Seq::empty()) == Some(ts));
    assert(entries_from(b.subrange(e, e + mb.len()), 0, Seq::empty()) == Some(ts));
    assert(with_entries(acc.entries, ts) == Some(ts));
    assert(e + mb.len() == b.len());
    assert(thss_from(b, pre.len() as int, acc) == thss_from(b, e + mb.len(), ThssRaw { entries: Some(ts), ..acc }));
}

/// Decoding the encoded payload of a share gives back its fields, for data and
/// tags that fit the wire format.
pub proof fn lemma_decode_encode_thss(m: ThssModel)
    requires
        m.data.len() <= usize::MAX,
        m.metadata matches Some(ts) ==> encodable_tags(ts) && meta_bytes(ts).len() <= usize::MAX,
    ensures
        decode_thss(encode_thss(m)) == Some(raw_of(m)),
{
    let n1 = number_field(ID_TAG, m.id as nat);
    let n2 = number_field(THRESHOLD_TAG, m.threshold as nat);
    let n3 = number_field(COUNT_TAG, m.shares_count as nat);
    let od = optional_field(DATA_TAG, m.data);
    let mf = match m.metadata {
        Some(ts) => field(META_TAG, meta_bytes(ts)),
        None => Seq::empty(),
    };
    let b = encode_thss(m);
    let acc0 = ThssRaw { id: 0, threshold: 0, shares_count: 0, data: Seq::empty(), entries: None };
    assert(b =~= Seq::<u8>::empty() + n1 + (n2 + n3 + od + mf));
    lemma_number(Seq::empty(), ID_TAG, m.id, n2 + n3 + od + mf, acc0);
    let acc1 = ThssRaw { id: m.id as nat, ..acc0 };
    assert(b =~= n1 + n2 + (n3 + od + mf));
    lemma_number(n1, THRESHOLD_TAG, m.threshold, n3 + od + mf, acc1);
    let acc2 = ThssRaw { threshold: m.threshold as nat, ..acc1 };
    assert(b =~= (n1 + n2) + n3 + (od + mf));
    lemma_number(n1 + n2, COUNT_TAG, m.shares_count, od + mf, acc2);
    let acc3 = ThssRaw { shares_count: m.shares_count as nat, ..acc2 };
    let p3 = (n1 + n2 + n3).len() as int;
    let acc4 = ThssRaw { data: m.data, ..acc3 };
    if m.data.len() > 0 {
        assert(b =~= (n1 + n2 + n3) + od + mf);
        lemma_thss_data(n1 + n2 + n3, m.data, mf, acc3);
    } else {
        assert(m.data =~= acc3.data);
        assert(acc4 == acc3);
    }
    let p4 = p3 + od.len();
    match m.metadata {
        Some(ts) => {
            assert(b =~= (n1 + n2 + n3 + od) + field(META_TAG, meta_bytes(ts)));
            lemma_thss_meta(n1 + n2 + n3 + od, ts, acc4);
        },
        None => {
            assert(p4 == b.len());
        },
    }
}

} // verus!
