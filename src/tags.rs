//! Metadata tags: a map from byte-string keys to byte-string values, held as
//! pairs in strictly increasing key order so that equal maps serialize alike.
use vstd::prelude::*;

verus! {

/// Lexicographic order on byte strings.
pub open spec fn bytes_lt(a: Seq<u8>, b: Seq<u8>) -> bool
    decreases a.len(),
{
    if a.len() == 0 {
        b.len() > 0
    } else if b.len() == 0 {
        false
    } else if a[0] != b[0] {
        a[0] < b[0]
    } else {
        bytes_lt(a.drop_first(), b.drop_first())
    }
}

/// The keys increase strictly.
pub open spec fn sorted_keys(tags: Seq<(Seq<u8>, Seq<u8>)>) -> bool {
    forall|i: int, j: int| 0 <= i < j < tags.len() ==> bytes_lt(#[trigger] tags[i].0, #[trigger] tags[j].0)
}

/// The map that the pairs hold.
pub open spec fn tag_map(tags: Seq<(Seq<u8>, Seq<u8>)>) -> Map<Seq<u8>, Seq<u8>>
    decreases tags.len(),
{
    if tags.len() == 0 {
        Map::empty()
    } else {
        tag_map(tags.drop_last()).insert(tags.last().0, tags.last().1)
    }
}

/// The models of a list of byte-string pairs.
pub open spec fn pairs_view(v: Seq<(Vec<u8>, Vec<u8>)>) -> Seq<(Seq<u8>, Seq<u8>)> {
    v.map_values(|p: (Vec<u8>, Vec<u8>)| (p.0@, p.1@))
}

pub proof fn lemma_lt_irreflexive(a: Seq<u8>)
    ensures
        !bytes_lt(a, a),
    decreases a.len(),
{
    if a.len() > 0 {
        lemma_lt_irreflexive(a.drop_first());
    }
}

pub proof fn lemma_lt_total(a: Seq<u8>, b: Seq<u8>)
    ensures
        a == b || bytes_lt(a, b) || bytes_lt(b, a),
        !(bytes_lt(a, b) && bytes_lt(b, a)),
    decreases a.len(),
{
    if a.len() > 0 && b.len() > 0 && a[0] == b[0] {
        lemma_lt_total(a.drop_first(), b.drop_first());
        if a.drop_first() == b.drop_first() {
            assert(a =~= seq![a[0]] + a.drop_first());
            assert(b =~= seq![b[0]] + b.drop_first());
        }
    } else if a.len() == 0 && b.len() == 0 {
        assert(a =~= b);
    }
}

pub proof fn lemma_lt_transitive(a: Seq<u8>, b: Seq<u8>, c: Seq<u8>)
    requires
        bytes_lt(a, b),
        bytes_lt(b, c),
    ensures
        bytes_lt(a, c),
    decreases a.len(),
{
    if a.len() > 0 && b.len() > 0 && c.len() > 0 && a[0] == b[0] && b[0] == c[0] {
        lemma_lt_transitive(a.drop_first(), b.drop_first(), c.drop_first());
    }
}

/// Compares two byte strings: negative, zero or positive as `a` is below,
/// equal to or above `b`.
pub fn compare_bytes(a: &Vec<u8>, b: &Vec<u8>) -> (r: i8)
    ensures
        r < 0 <==> bytes_lt(a@, b@),
        r == 0 <==> a@ == b@,
{
    let mut i: usize = 0;
    assert(a@.skip(0) =~= a@);
    assert(b@.skip(0) =~= b@);
    while i < a.len() && i < b.len() && a[i] == b[i]
        invariant
            i <= a@.len(),
            i <= b@.len(),
            a@.subrange(0, i as int) == b@.subrange(0, i as int),
            bytes_lt(a@, b@) == bytes_lt(a@.skip(i as int), b@.skip(i as int)),
            (a@ == b@) == (a@.skip(i as int) == b@.skip(i as int)),
        decreases a.len() - i,
    {
        let ghost (sa, sb) = (a@.skip(i as int), b@.skip(i as int));
        assert(sa.drop_first() =~= a@.skip(i + 1));
        assert(sb.drop_first() =~= b@.skip(i + 1));
        assert(sa =~= seq![sa[0]] + sa.drop_first());
        assert(sb =~= seq![sb[0]] + sb.drop_first());
        assert(a@.subrange(0, i + 1) =~= a@.subrange(0, i as int).push(a@[i as int]));
        assert(b@.subrange(0, i + 1) =~= b@.subrange(0, i as int).push(b@[i as int]));
        i = i + 1;
    }
    let ghost (sa, sb) = (a@.skip(i as int), b@.skip(i as int));
    proof {
        lemma_lt_irreflexive(sa);
        if sa.len() > 0 && sb.len() > 0 {
            assert(sa[0] != sb[0]);
        }
        if sa.len() == 0 && sb.len() == 0 {
            assert(sa =~= sb);
        }
    }
    if i < a.len() && i < b.len() {
        if a[i] < b[i] {
            -1
        } else {
            1
        }
    } else if i < a.len() {
        1
    } else if i < b.len() {
        -1
    } else {
        0
    }
}

/// No key occurs twice.
pub open spec fn distinct_keys(tags: Seq<(Seq<u8>, Seq<u8>)>) -> bool {
    forall|i: int, j: int| 0 <= i < j < tags.len() ==> #[trigger] tags[i].0 != #[trigger] tags[j].0
}

pub proof fn lemma_sorted_distinct(tags: Seq<(Seq<u8>, Seq<u8>)>)
    requires
        sorted_keys(tags),
    ensures
        distinct_keys(tags),
{
    assert forall|i: int, j: int| 0 <= i < j < tags.len() implies #[trigger] tags[i].0 != #[trigger] tags[j].0 by {
        assert(bytes_lt(tags[i].0, tags[j].0));
        lemma_lt_irreflexive(tags[i].0);
    }
}

pub proof fn lemma_tag_map(tags: Seq<(Seq<u8>, Seq<u8>)>)
    requires
        distinct_keys(tags),
    ensures
        forall|k: Seq<u8>| tag_map(tags).contains_key(k) <==> exists|i: int| 0 <= i < tags.len() && #[trigger] tags[i].0 == k,
        forall|i: int| 0 <= i < tags.len() ==> tag_map(tags)[#[trigger] tags[i].0] == tags[i].1,
    decreases tags.len(),
{
    if tags.len() > 0 {
        let init = tags.drop_last();
        assert forall|i: int, j: int| 0 <= i < j < init.len() implies #[trigger] init[i].0 != #[trigger] init[j].0 by {
            assert(init[i] == tags[i] && init[j] == tags[j]);
        }
        lemma_tag_map(init);
        assert(tag_map(tags) == tag_map(init).insert(tags.last().0, tags.last().1));
        assert forall|k: Seq<u8>| tag_map(tags).contains_key(k) implies exists|i: int| 0 <= i < tags.len() && #[trigger] tags[i].0 == k by {
            if k == tags.last().0 {
                assert(tags[tags.len() - 1].0 == k);
            } else {
                let i = choose|i: int| 0 <= i < init.len() && #[trigger] init[i].0 == k;
                assert(tags[i] == init[i]);
            }
        }
        assert forall|k: Seq<u8>| (exists|i: int| 0 <= i < tags.len() && #[trigger] tags[i].0 == k) implies tag_map(tags).contains_key(k) by {
            let i = choose|i: int| 0 <= i < tags.len() && #[trigger] tags[i].0 == k;
            if i < init.len() {
                assert(init[i] == tags[i]);
            }
        }
        assert forall|i: int| 0 <= i < tags.len() implies tag_map(tags)[#[trigger] tags[i].0] == tags[i].1 by {
            if i < init.len() {
                assert(init[i] == tags[i]);
                assert(tags[i].0 != tags[tags.len() - 1].0);
            }
        }
    }
}

/// Sets `key` to `value`, keeping the keys sorted.
pub fn insert_tag(tags: &mut Vec<(Vec<u8>, Vec<u8>)>, key: Vec<u8>, value: Vec<u8>)
    requires
        sorted_keys(pairs_view(old(tags)@)),
    ensures
        sorted_keys(pairs_view(final(tags)@)),
        tag_map(pairs_view(final(tags)@)) == tag_map(pairs_view(old(tags)@)).insert(key@, value@),
{
    let ghost old_v = pairs_view(tags@);
    let mut p: usize = 0;
    while p < tags.len() && compare_bytes(&tags[p].0, &key) < 0
        invariant
            p <= tags@.len(),
            old_v == pairs_view(tags@),
            forall|t: int| 0 <= t < p ==> bytes_lt(#[trigger] old_v[t].0, key@),
        decreases tags.len() - p,
    {
        p = p + 1;
    }
    let equal = p < tags.len() && compare_bytes(&tags[p].0, &key) == 0;
    let ghost kv = (key@, value@);
    proof {
        lemma_sorted_distinct(old_v);
        lemma_tag_map(old_v);
        if p < old_v.len() {
            lemma_lt_total(old_v[p as int].0, key@);
        }
    }
    if equal {
        tags.set(p, (key, value));
        let ghost nv = pairs_view(tags@);
        assert(nv =~= old_v.update(p as int, kv));
        proof {
            assert forall|i: int, j: int| 0 <= i < j < nv.len() implies bytes_lt(#[trigger] nv[i].0, #[trigger] nv[j].0) by {
                assert(bytes_lt(old_v[i].0, old_v[j].0));
            }
            lemma_sorted_distinct(nv);
            lemma_tag_map(nv);
            assert(tag_map(nv) =~= tag_map(old_v).insert(kv.0, kv.1)) by {
                assert forall|k: Seq<u8>| #[trigger] tag_map(nv).contains_key(k) == tag_map(old_v).insert(kv.0, kv.1).contains_key(k) by {
                    if tag_map(old_v).contains_key(k) {
                        let i = choose|i: int| 0 <= i < old_v.len() && #[trigger] old_v[i].0 == k;
                        assert(nv[i].0 == k);
                    }
                    if tag_map(nv).contains_key(k) {
                        let i = choose|i: int| 0 <= i < nv.len() && #[trigger] nv[i].0 == k;
                        assert(old_v[i].0 == k);
                    }
                    assert(nv[p as int].0 == kv.0);
                }
                assert forall|k: Seq<u8>| #[trigger] tag_map(nv).contains_key(k) implies tag_map(nv)[k] == tag_map(old_v).insert(kv.0, kv.1)[k] by {
                    let i = choose|i: int| 0 <= i < nv.len() && #[trigger] nv[i].0 == k;
                    if i != p {
                        assert(old_v[i] == nv[i]);
                    }
                }
            }
        }
    } else {
        tags.insert(p, (key, value));
        let ghost nv = pairs_view(tags@);
        assert(nv =~= old_v.insert(p as int, kv));
        proof {
            assert forall|i: int, j: int| 0 <= i < j < nv.len() implies bytes_lt(#[trigger] nv[i].0, #[trigger] nv[j].0) by {
                if j < p {
                    assert(bytes_lt(old_v[i].0, old_v[j].0));
                } else if j == p {
                } else if i < p {
                    assert(nv[j] == old_v[j - 1]);
                    assert(bytes_lt(old_v[i].0, kv.0));
                    assert(bytes_lt(kv.0, old_v[p as int].0));
                    if j - 1 > p {
                        assert(bytes_lt(old_v[p as int].0, old_v[j - 1].0));
                        lemma_lt_transitive(kv.0, old_v[p as int].0, old_v[j - 1].0);
                    }
                    lemma_lt_transitive(old_v[i].0, kv.0, old_v[j - 1].0);
                } else if i == p {
                    assert(nv[j] == old_v[j - 1]);
                    if j - 1 > p {
                        assert(bytes_lt(old_v[p as int].0, old_v[j - 1].0));
                        lemma_lt_transitive(kv.0, old_v[p as int].0, old_v[j - 1].0);
                    }
                } else {
                    assert(nv[i] == old_v[i - 1]);
                    assert(nv[j] == old_v[j - 1]);
                    assert(bytes_lt(old_v[i - 1].0, old_v[j - 1].0));
                }
            }
            lemma_sorted_distinct(nv);
            lemma_tag_map(nv);
            assert(tag_map(nv) =~= tag_map(old_v).insert(kv.0, kv.1)) by {
                assert forall|k: Seq<u8>| #[trigger] tag_map(nv).contains_key(k) == tag_map(old_v).insert(kv.0, kv.1).contains_key(k) by {
                    if tag_map(old_v).contains_key(k) {
                        let i = choose|i: int| 0 <= i < old_v.len() && #[trigger] old_v[i].0 == k;
                        if i < p {
                            assert(nv[i].0 == k);
                        } else {
                            assert(nv[i + 1].0 == k);
                        }
                    }
                    if tag_map(nv).contains_key(k) {
                        let i = choose|i: int| 0 <= i < nv.len() && #[trigger] nv[i].0 == k;
                        if i < p {
                            assert(old_v[i].0 == k);
                        } else if i > p {
                            assert(old_v[i - 1].0 == k);
                        }
                    }
                    assert(nv[p as int].0 == kv.0);
                }
                assert forall|k: Seq<u8>| #[trigger] tag_map(nv).contains_key(k) implies tag_map(nv)[k] == tag_map(old_v).insert(kv.0, kv.1)[k] by {
                    let i = choose|i: int| 0 <= i < nv.len() && #[trigger] nv[i].0 == k;
                    lemma_lt_irreflexive(kv.0);
                    if i < p {
                        assert(old_v[i] == nv[i]);
                        assert(bytes_lt(old_v[i].0, kv.0));
                    } else if i > p {
                        assert(old_v[i - 1] == nv[i]);
                        assert(bytes_lt(kv.0, old_v[p as int].0));
                        if i - 1 > p {
                            assert(bytes_lt(old_v[p as int].0, old_v[i - 1].0));
                            lemma_lt_transitive(kv.0, old_v[p as int].0, old_v[i - 1].0);
                        }
                    }
                }
            }
        }
    }
}

} // verus!
