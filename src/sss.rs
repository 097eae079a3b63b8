//! Shamir's secret sharing over GF(256), byte by byte.
use vstd::prelude::*;
use crate::errors::ErrorKind;
use crate::poly::{distinct, eval_poly, evaluate, interpolate, interpolate_at_zero};
use crate::random::{random_bytes_count, MAX_MESSAGE_SIZE};
use crate::text::{unsigned_unless, ascii_chars, format_share, parse_share, share_from_string, share_to_string};

verus! {

/// One share of a dealing.
#[derive(Clone, Debug)]
pub struct Share {
    /// The point at which the share's polynomials are taken, in `1..=n`.
    pub id: u8,
    /// The number of shares needed to recover the secret.
    pub threshold: u8,
    /// One byte per byte of the secret.
    pub data: Vec<u8>,
    /// The signatures over the share's text, when the dealing was signed.
    pub signatures: Vec<Vec<u8>>,
    /// The serialized Merkle proof, when the dealing was signed.
    pub proof: Vec<u8>,
}

/// What a share holds, as mathematical values.
pub struct ShareModel {
    pub id: u8,
    pub threshold: u8,
    pub data: Seq<u8>,
    pub signatures: Seq<Seq<u8>>,
    pub proof: Seq<u8>,
}

impl View for Share {
    type V = ShareModel;

    open spec fn view(&self) -> ShareModel {
        ShareModel {
            id: self.id,
            threshold: self.threshold,
            data: self.data@,
            signatures: self.signatures@.map_values(|v: Vec<u8>| v@),
            proof: self.proof@,
        }
    }
}

/// The models of a sequence of shares.
pub open spec fn models(s: Seq<Share>) -> Seq<ShareModel> {
    s.map_values(|x: Share| x@)
}

/// The coefficients of the polynomial of byte `l`: the secret byte, then the
/// `k - 1` random bytes drawn for that position.
pub open spec fn coefficients(secret: Seq<u8>, random: Seq<u8>, k: nat, l: int) -> Seq<u8> {
    seq![secret[l]] + random.subrange(l * (k - 1), l * (k - 1) + (k - 1))
}

/// Some polynomial would have a zero top coefficient, so fewer than `k` shares
/// would determine it.
pub open spec fn degenerate(random: Seq<u8>, k: nat, len: nat) -> bool {
    exists|l: int| 0 <= l < len && #[trigger] random[l * (k - 1) + (k - 2)] == 0u8
}

/// The error, if any, of a dealing with these parameters and random bytes.
pub open spec fn split_error(k: u8, n: u8, secret: Seq<u8>, random: Seq<u8>) -> Option<ErrorKind> {
    if k < 2 {
        Some(ErrorKind::ThresholdTooSmall)
    } else if n < k {
        Some(ErrorKind::ThresholdTooBig)
    } else if secret.len() < 1 {
        Some(ErrorKind::EmptySecret)
    } else if secret.len() > MAX_MESSAGE_SIZE {
        Some(ErrorKind::SecretTooBig)
    } else if random.len() < (k - 1) * secret.len() || degenerate(random, k as nat, secret.len()) {
        Some(ErrorKind::CannotGenerateRandomNumbers)
    } else {
        None
    }
}

/// Share `id` of a dealing: the value of each byte's polynomial at `id`.
pub open spec fn share_data(secret: Seq<u8>, random: Seq<u8>, k: nat, id: u8) -> Seq<u8> {
    Seq::new(secret.len(), |l: int| eval_poly(coefficients(secret, random, k, l), id))
}

proof fn lemma_row_in_bounds(l: int, len: int, k1: int)
    requires
        0 <= l < len,
        k1 >= 1,
    ensures
        l * k1 + k1 <= k1 * len,
        0 <= l * k1,
{
    assert(l * k1 + k1 <= k1 * len) by (nonlinear_arith)
        requires
            0 <= l < len,
            k1 >= 1,
    ;
    assert(0 <= l * k1) by (nonlinear_arith)
        requires
            0 <= l,
            k1 >= 1,
    ;
}

/// Whether the random bytes would give some byte a polynomial of degree below
/// `k - 1`; such bytes must be drawn again.
pub fn random_is_degenerate(k: u8, len: usize, random: &Vec<u8>) -> (r: bool)
    requires
        k >= 2,
        random@.len() >= (k - 1) * len,
    ensures
        r == degenerate(random@, k as nat, len as nat),
{
    let k1 = (k - 1) as usize;
    let rl = random.len();
    let mut l: usize = 0;
    while l < len
        invariant
            k1 == k - 1,
            k >= 2,
            rl == random@.len(),
            l <= len,
            random@.len() >= k1 * len,
            forall|t: int| 0 <= t < l ==> #[trigger] random@[t * (k - 1) + (k - 2)] != 0u8,
        decreases len - l,
    {
        proof {
            lemma_row_in_bounds(l as int, len as int, k1 as int);
        }
        assert(l * (k - 1) + (k - 2) == l * k1 + (k1 - 1));
        if random[l * k1 + (k1 - 1)] == 0 {
            return true;
        }
        l = l + 1;
    }
    false
}

/// Splits `secret` into `n` shares, any `k` of which recover it, taking the
/// polynomials' non-constant coefficients from `random`.
pub fn split_with_random(k: u8, n: u8, secret: &Vec<u8>, random: &Vec<u8>) -> (r: Result<
    Vec<Share>,
    ErrorKind,
>)
    ensures
        split_error(k, n, secret@, random@) is None <==> r is Ok,
        split_error(k, n, secret@, random@) matches Some(e) ==> r == Err::<Vec<Share>, ErrorKind>(
            e,
        ),
        r matches Ok(shares) ==> shares@.len() == n && forall|i: int|
            0 <= i < n ==> {
                &&& (#[trigger] shares@[i]).id == i + 1
                &&& shares@[i].threshold == k
                &&& shares@[i].data@ == share_data(secret@, random@, k as nat, (i + 1) as u8)
                &&& shares@[i].signatures@.len() == 0
                &&& shares@[i].proof@.len() == 0
            },
{
    if k < 2 {
        return Err(ErrorKind::ThresholdTooSmall);
    }
    if n < k {
        return Err(ErrorKind::ThresholdTooBig);
    }
    if secret.len() < 1 {
        return Err(ErrorKind::EmptySecret);
    }
    if secret.len() > MAX_MESSAGE_SIZE {
        return Err(ErrorKind::SecretTooBig);
    }
    let count = random_bytes_count(k, secret.len());
    if random.len() < count || random_is_degenerate(k, secret.len(), random) {
        return Err(ErrorKind::CannotGenerateRandomNumbers);
    }
    let len = secret.len();
    let k1 = (k - 1) as usize;
    let rl = random.len();
    let mut rows: Vec<Vec<u8>> = Vec::new();
    let mut l: usize = 0;
    while l < len
        invariant
            len == secret@.len(),
            k1 == k - 1,
            k >= 2,
            rl == random@.len(),
            random@.len() >= k1 * len,
            l <= len,
            rows@.len() == l,
            forall|t: int| 0 <= t < l ==> (#[trigger] rows@[t])@ == coefficients(secret@, random@, k as nat, t),
        decreases len - l,
    {
        proof {
            lemma_row_in_bounds(l as int, len as int, k1 as int);
        }
        let mut row: Vec<u8> = Vec::new();
        row.push(secret[l]);
        let base = l * k1;
        let mut j: usize = 0;
        while j < k1
            invariant
                l < len,
                len == secret@.len(),
                base == l * k1,
                rl == random@.len(),
                base + k1 <= random@.len(),
                j <= k1,
                row@ == seq![secret@[l as int]] + random@.subrange(base as int, base + j),
            decreases k1 - j,
        {
            row.push(random[base + j]);
            j = j + 1;
            assert(row@ =~= seq![secret@[l as int]] + random@.subrange(base as int, base + j));
        }
        rows.push(row);
        l = l + 1;
    }
    let mut shares: Vec<Share> = Vec::new();
    let mut id: u16 = 1;
    while id <= n as u16
        invariant
            1 <= id <= n + 1,
            n <= 255,
            rows@.len() == len,
            len == secret@.len(),
            forall|t: int| 0 <= t < len ==> (#[trigger] rows@[t])@ == coefficients(secret@, random@, k as nat, t),
            shares@.len() == id - 1,
            forall|i: int|
                0 <= i < id - 1 ==> {
                    &&& (#[trigger] shares@[i]).id == i + 1
                    &&& shares@[i].threshold == k
                    &&& shares@[i].data@ == share_data(secret@, random@, k as nat, (i + 1) as u8)
                    &&& shares@[i].signatures@.len() == 0
                    &&& shares@[i].proof@.len() == 0
                },
        decreases n + 1 - id,
    {
        let mut data: Vec<u8> = Vec::new();
        let mut l: usize = 0;
        while l < len
            invariant
                rows@.len() == len,
                len == secret@.len(),
                forall|t: int| 0 <= t < len ==> (#[trigger] rows@[t])@ == coefficients(secret@, random@, k as nat, t),
                l <= len,
                data@.len() == l,
                1 <= id <= 255,
                forall|t: int| 0 <= t < l ==> data@[t] == eval_poly(coefficients(secret@, random@, k as nat, t), id as u8),
            decreases len - l,
        {
            data.push(evaluate(&rows[l], id as u8));
            l = l + 1;
        }
        assert(data@ =~= share_data(secret@, random@, k as nat, id as u8));
        shares.push(
            Share { id: id as u8, threshold: k, data, signatures: Vec::new(), proof: Vec::new() },
        );
        id = id + 1;
    }
    Ok(shares)
}

/// The index of the last share with identifier `v` among the first `m`, or -1.
pub open spec fn find_id(s: Seq<ShareModel>, v: int, m: nat) -> int
    decreases m,
{
    if m == 0 {
        -1
    } else if s[m - 1].id == v {
        m - 1
    } else {
        find_id(s, v, (m - 1) as nat)
    }
}

/// The indices of the shares with identifiers below `v`, by ascending identifier.
pub open spec fn by_id(s: Seq<ShareModel>, v: nat) -> Seq<int>
    decreases v,
{
    if v == 0 {
        Seq::empty()
    } else {
        let prev = by_id(s, (v - 1) as nat);
        let f = find_id(s, v - 1, s.len());
        if f >= 0 {
            prev.push(f)
        } else {
            prev
        }
    }
}

/// The indices of the shares used for recovery: the `k` with the smallest identifiers.
pub open spec fn chosen(s: Seq<ShareModel>) -> Seq<int> {
    by_id(s, 256).take(s[0].threshold as int)
}

/// The identifiers of the chosen shares.
pub open spec fn chosen_ids(s: Seq<ShareModel>) -> Seq<u8> {
    chosen(s).map_values(|j: int| s[j].id)
}

/// Byte `l` of each chosen share.
pub open spec fn chosen_column(s: Seq<ShareModel>, l: int) -> Seq<u8> {
    chosen(s).map_values(|j: int| s[j].data[l])
}

/// The secret that the chosen shares interpolate to.
pub open spec fn recovered(s: Seq<ShareModel>) -> Seq<u8> {
    Seq::new(s[0].data.len(), |l: int| interpolate_at_zero(chosen_ids(s), chosen_column(s, l)))
}

/// The error, if any, of a recovery from these shares, in the order of the checks.
pub open spec fn recover_error(s: Seq<ShareModel>) -> Option<ErrorKind> {
    if s.len() == 0 {
        Some(ErrorKind::MissingShares)
    } else if exists|i: int| 0 <= i < s.len() && #[trigger] s[i].threshold != s[0].threshold {
        Some(ErrorKind::InconsistentThresholds)
    } else if exists|i: int, j: int| 0 <= i < j < s.len() && #[trigger] s[i].id == #[trigger] s[j].id {
        Some(ErrorKind::DuplicateShareId)
    } else if exists|i: int| 0 <= i < s.len() && #[trigger] s[i].data.len() != s[0].data.len() {
        Some(ErrorKind::InconsistentSecretLengths)
    } else if exists|i: int| 0 <= i < s.len() && #[trigger] s[i].id == 0 {
        Some(ErrorKind::ShareParsingInvalidShareId(0))
    } else if s[0].threshold < 2 {
        Some(ErrorKind::ThresholdTooSmall)
    } else if by_id(s, 256).len() < s[0].threshold {
        Some(ErrorKind::MissingShares)
    } else {
        None
    }
}

proof fn lemma_find_id(s: Seq<ShareModel>, v: int, m: nat)
    requires
        m <= s.len(),
    ensures
        -1 <= find_id(s, v, m) < m,
        find_id(s, v, m) >= 0 ==> s[find_id(s, v, m)].id == v,
        find_id(s, v, m) < 0 ==> forall|t: int| 0 <= t < m ==> s[t].id != v,
    decreases m,
{
    if m > 0 {
        lemma_find_id(s, v, (m - 1) as nat);
    }
}

proof fn lemma_by_id(s: Seq<ShareModel>, v: nat)
    ensures
        forall|t: int|
            0 <= t < by_id(s, v).len() ==> 0 <= #[trigger] by_id(s, v)[t] < s.len() && s[by_id(s, v)[t]].id < v,
        forall|a: int, b: int|
            0 <= a < b < by_id(s, v).len() ==> s[#[trigger] by_id(s, v)[a]].id < s[#[trigger] by_id(s, v)[b]].id,
    decreases v,
{
    if v > 0 {
        let prev = by_id(s, (v - 1) as nat);
        lemma_by_id(s, (v - 1) as nat);
        lemma_find_id(s, v - 1, s.len());
        let f = find_id(s, v - 1, s.len());
        if f >= 0 {
            let cur = prev.push(f);
            assert(by_id(s, v) == cur);
            assert forall|t: int| 0 <= t < cur.len() implies 0 <= #[trigger] cur[t] < s.len() && s[cur[t]].id < v by {
                if t < prev.len() {
                    assert(cur[t] == prev[t]);
                }
            }
            assert forall|a: int, b: int| 0 <= a < b < cur.len() implies s[#[trigger] cur[a]].id < s[#[trigger] cur[b]].id by {
                assert(cur[a] == prev[a]);
                if b < prev.len() {
                    assert(cur[b] == prev[b]);
                }
            }
        }
    }
}

proof fn lemma_chosen_distinct(s: Seq<ShareModel>)
    requires
        s.len() > 0,
        by_id(s, 256).len() >= s[0].threshold,
    ensures
        chosen(s).len() == s[0].threshold,
        forall|t: int| 0 <= t < chosen(s).len() ==> 0 <= #[trigger] chosen(s)[t] < s.len(),
        distinct(chosen_ids(s)),
{
    lemma_by_id(s, 256);
    let c = chosen(s);
    assert forall|a: int, b: int| 0 <= a < b < chosen_ids(s).len() implies chosen_ids(s)[a] != chosen_ids(s)[b] by {
        assert(c[a] == by_id(s, 256)[a]);
        assert(c[b] == by_id(s, 256)[b]);
    }
    assert forall|t: int| 0 <= t < c.len() implies 0 <= #[trigger] c[t] < s.len() by {
        assert(c[t] == by_id(s, 256)[t]);
    }
}

fn find_id_exec(shares: &Vec<Share>, v: u8) -> (r: Option<usize>)
    ensures
        r is None <==> find_id(models(shares@), v as int, shares@.len()) < 0,
        r matches Some(j) ==> j == find_id(models(shares@), v as int, shares@.len()),
{
    let mut r: Option<usize> = None;
    let mut j: usize = 0;
    while j < shares.len()
        invariant
            j <= shares@.len(),
            r is None <==> find_id(models(shares@), v as int, j as nat) < 0,
            r matches Some(x) ==> x == find_id(models(shares@), v as int, j as nat),
        decreases shares.len() - j,
    {
        proof {
            lemma_find_id(models(shares@), v as int, j as nat);
        }
        if shares[j].id == v {
            r = Some(j);
        }
        j = j + 1;
    }
    r
}

/// Checks the shares in the order of `recover_error`.
pub(crate) fn check_shares(shares: &Vec<Share>) -> (r: Result<(), ErrorKind>)
    ensures
        recover_error(models(shares@)) is None <==> r is Ok,
        recover_error(models(shares@)) matches Some(e) ==> r == Err::<(), ErrorKind>(e),
{
    if shares.len() == 0 {
        return Err(ErrorKind::MissingShares);
    }
    let k = shares[0].threshold;
    let mut i: usize = 0;
    while i < shares.len()
        invariant
            i <= shares@.len(),
            k == models(shares@)[0].threshold,
            forall|t: int| 0 <= t < i ==> #[trigger] models(shares@)[t].threshold == k,
        decreases shares.len() - i,
    {
        if shares[i].threshold != k {
            assert(models(shares@)[i as int].threshold != models(shares@)[0].threshold);
            return Err(ErrorKind::InconsistentThresholds);
        }
        i = i + 1;
    }
    let mut i: usize = 0;
    while i < shares.len()
        invariant
            i <= shares@.len(),
            k == models(shares@)[0].threshold,
            forall|t: int| 0 <= t < shares@.len() ==> #[trigger] models(shares@)[t].threshold == k,
            forall|a: int, b: int| 0 <= a < b < shares@.len() && a < i ==> #[trigger] models(shares@)[a].id != #[trigger] models(shares@)[b].id,
        decreases shares.len() - i,
    {
        let mut j: usize = i + 1;
        while j < shares.len()
            invariant
                i < j <= shares@.len(),
                k == models(shares@)[0].threshold,
                forall|t: int| 0 <= t < shares@.len() ==> #[trigger] models(shares@)[t].threshold == k,
                forall|a: int, b: int| 0 <= a < b < shares@.len() && a < i ==> #[trigger] models(shares@)[a].id != #[trigger] models(shares@)[b].id,
                forall|b: int| i < b < j ==> models(shares@)[i as int].id != #[trigger] models(shares@)[b].id,
            decreases shares.len() - j,
        {
            if shares[i].id == shares[j].id {
                assert(models(shares@)[i as int].id == models(shares@)[j as int].id);
                return Err(ErrorKind::DuplicateShareId);
            }
            j = j + 1;
        }
        i = i + 1;
    }
    let len = shares[0].data.len();
    let mut i: usize = 0;
    while i < shares.len()
        invariant
            i <= shares@.len(),
            len == models(shares@)[0].data.len(),
            k == models(shares@)[0].threshold,
            forall|t: int| 0 <= t < shares@.len() ==> #[trigger] models(shares@)[t].threshold == k,
            forall|a: int, b: int| 0 <= a < b < shares@.len() ==> #[trigger] models(shares@)[a].id != #[trigger] models(shares@)[b].id,
            forall|t: int| 0 <= t < i ==> #[trigger] models(shares@)[t].data.len() == len,
        decreases shares.len() - i,
    {
        if shares[i].data.len() != len {
            assert(models(shares@)[i as int].data.len() != models(shares@)[0].data.len());
            return Err(ErrorKind::InconsistentSecretLengths);
        }
        i = i + 1;
    }
    let mut i: usize = 0;
    while i < shares.len()
        invariant
            i <= shares@.len(),
            len == models(shares@)[0].data.len(),
            k == models(shares@)[0].threshold,
            forall|t: int| 0 <= t < shares@.len() ==> #[trigger] models(shares@)[t].threshold == k,
            forall|a: int, b: int| 0 <= a < b < shares@.len() ==> #[trigger] models(shares@)[a].id != #[trigger] models(shares@)[b].id,
            forall|t: int| 0 <= t < shares@.len() ==> #[trigger] models(shares@)[t].data.len() == len,
            forall|t: int| 0 <= t < i ==> #[trigger] models(shares@)[t].id != 0,
        decreases shares.len() - i,
    {
        if shares[i].id == 0 {
            assert(models(shares@)[i as int].id == 0);
            return Err(ErrorKind::ShareParsingInvalidShareId(0));
        }
        i = i + 1;
    }
    let mut i: usize = 0;
    while i < shares.len()
        invariant
            i <= shares@.len(),
            len == models(shares@)[0].data.len(),
            k == models(shares@)[0].threshold,
            forall|t: int| 0 <= t < shares@.len() ==> #[trigger] models(shares@)[t].threshold == k,
            forall|a: int, b: int| 0 <= a < b < shares@.len() ==> #[trigger] models(shares@)[a].id != #[trigger] models(shares@)[b].id,
            forall|t: int| 0 <= t < shares@.len() ==> #[trigger] models(shares@)[t].data.len() == len,
            forall|t: int| 0 <= t < i ==> #[trigger] models(shares@)[t].id != 0,
        decreases shares.len() - i,
    {
        if shares[i].id == 0 {
            assert(models(shares@)[i as int].id == 0);
            return Err(ErrorKind::ShareParsingInvalidShareId(0));
        }
        i = i + 1;
    }
    if k < 2 {
        return Err(ErrorKind::ThresholdTooSmall);
    }
    let order = ids_in_order(shares);
    if order.len() < k as usize {
        return Err(ErrorKind::MissingShares);
    }
    Ok(())
}

/// The indices of the shares by ascending identifier.
fn ids_in_order(shares: &Vec<Share>) -> (r: Vec<usize>)
    ensures
        r@.len() == by_id(models(shares@), 256).len(),
        forall|t: int| 0 <= t < r@.len() ==> r@[t] == by_id(models(shares@), 256)[t],
{
    let mut r: Vec<usize> = Vec::new();
    let mut v: u16 = 0;
    while v < 256
        invariant
            v <= 256,
            r@.len() == by_id(models(shares@), v as nat).len(),
            forall|t: int| 0 <= t < r@.len() ==> r@[t] == by_id(models(shares@), v as nat)[t],
        decreases 256 - v,
    {
        let f = find_id_exec(shares, v as u8);
        proof {
            lemma_find_id(models(shares@), v as int, shares@.len());
        }
        let ghost prev = r@;
        if let Some(j) = f {
            r.push(j);
        }
        v = v + 1;
        assert(r@.map_values(|x: usize| x as int) =~= by_id(models(shares@), v as nat)) by {
            assert(by_id(models(shares@), v as nat) == (if find_id(models(shares@), v - 1, shares@.len()) >= 0 {
                by_id(models(shares@), (v - 1) as nat).push(find_id(models(shares@), v - 1, shares@.len()))
            } else {
                by_id(models(shares@), (v - 1) as nat)
            }));
            assert(prev.map_values(|x: usize| x as int) =~= by_id(models(shares@), (v - 1) as nat));
        }
    }
    r
}

/// Recovers the secret from shares of one dealing: the `k` shares with the
/// smallest identifiers are interpolated at zero, byte by byte.
pub fn recover_from_shares(shares: &Vec<Share>) -> (r: Result<Vec<u8>, ErrorKind>)
    ensures
        recover_error(models(shares@)) is None <==> r is Ok,
        recover_error(models(shares@)) matches Some(e) ==> r == Err::<Vec<u8>, ErrorKind>(e),
        r matches Ok(secret) ==> secret@ == recovered(models(shares@)),
{
    check_shares(shares)?;
    let k = shares[0].threshold as usize;
    let order = ids_in_order(shares);
    proof {
        lemma_chosen_distinct(models(shares@));
    }
    let mut xs: Vec<u8> = Vec::new();
    let mut i: usize = 0;
    while i < k
        invariant
            k == models(shares@)[0].threshold,
            k <= order@.len(),
            order@.len() == by_id(models(shares@), 256).len(),
            forall|t: int| 0 <= t < order@.len() ==> order@[t] == by_id(models(shares@), 256)[t],
            forall|t: int| 0 <= t < chosen(models(shares@)).len() ==> 0 <= #[trigger] chosen(models(shares@))[t] < shares@.len(),
            chosen(models(shares@)).len() == k,
            i <= k,
            xs@ == chosen_ids(models(shares@)).take(i as int),
        decreases k - i,
    {
        assert(chosen(models(shares@))[i as int] == order@[i as int]);
        xs.push(shares[order[i]].id);
        i = i + 1;
        assert(xs@ =~= chosen_ids(models(shares@)).take(i as int));
    }
    assert(xs@ =~= chosen_ids(models(shares@)));
    let len = shares[0].data.len();
    let mut secret: Vec<u8> = Vec::new();
    let mut l: usize = 0;
    while l < len
        invariant
            recover_error(models(shares@)) is None,
            k == models(shares@)[0].threshold,
            k <= order@.len(),
            order@.len() == by_id(models(shares@), 256).len(),
            forall|t: int| 0 <= t < order@.len() ==> order@[t] == by_id(models(shares@), 256)[t],
            forall|t: int| 0 <= t < chosen(models(shares@)).len() ==> 0 <= #[trigger] chosen(models(shares@))[t] < shares@.len(),
            chosen(models(shares@)).len() == k,
            xs@ == chosen_ids(models(shares@)),
            distinct(xs@),
            len == models(shares@)[0].data.len(),
            l <= len,
            secret@.len() == l,
            forall|t: int| 0 <= t < l ==> secret@[t] == interpolate_at_zero(chosen_ids(models(shares@)), chosen_column(models(shares@), t)),
        decreases len - l,
    {
        let mut ys: Vec<u8> = Vec::new();
        let mut i: usize = 0;
        while i < k
            invariant
                recover_error(models(shares@)) is None,
                k == models(shares@)[0].threshold,
                k <= order@.len(),
                forall|t: int| 0 <= t < order@.len() ==> order@[t] == by_id(models(shares@), 256)[t],
                forall|t: int| 0 <= t < chosen(models(shares@)).len() ==> 0 <= #[trigger] chosen(models(shares@))[t] < shares@.len(),
                chosen(models(shares@)).len() == k,
                len == models(shares@)[0].data.len(),
                l < len,
                i <= k,
                ys@ == chosen_column(models(shares@), l as int).take(i as int),
            decreases k - i,
        {
            assert(chosen(models(shares@))[i as int] == order@[i as int]);
            let j = order[i];
            assert(models(shares@)[j as int].data.len() == len);
            ys.push(shares[j].data[l]);
            i = i + 1;
            assert(ys@ =~= chosen_column(models(shares@), l as int).take(i as int));
        }
        assert(ys@ =~= chosen_column(models(shares@), l as int));
        secret.push(interpolate(&xs, &ys));
        l = l + 1;
    }
    assert(secret@ =~= recovered(models(shares@)));
    Ok(secret)
}

/// A share read from text, with signatures demanded when `verify` holds.
pub open spec fn parse_checked(t: Seq<u8>, verify: bool) -> Result<ShareModel, ErrorKind> {
    match parse_share(t) {
        Err(e) => Err(e),
        Ok(m) => if verify && (m.signatures.len() == 0 || m.proof.len() == 0) {
            Err(ErrorKind::MissingSignatures)
        } else {
            Ok(unsigned_unless(m, verify))
        },
    }
}

/// The shares read from the texts, or the first error.
pub open spec fn parse_all(texts: Seq<Seq<u8>>, verify: bool) -> Result<Seq<ShareModel>, ErrorKind>
    decreases texts.len(),
{
    if texts.len() == 0 {
        Ok(Seq::empty())
    } else {
        match parse_all(texts.drop_last(), verify) {
            Err(e) => Err(e),
            Ok(ms) => match parse_checked(texts.last(), verify) {
                Err(e) => Err(e),
                Ok(m) => Ok(ms.push(m)),
            },
        }
    }
}

proof fn lemma_parse_all_err(texts: Seq<Seq<u8>>, verify: bool, j: int)
    requires
        0 <= j <= texts.len(),
        parse_all(texts.take(j), verify) is Err,
    ensures
        parse_all(texts, verify) == parse_all(texts.take(j), verify),
    decreases texts.len() - j,
{
    if j == texts.len() {
        assert(texts.take(j) =~= texts);
    } else {
        assert(texts.take(j + 1).drop_last() =~= texts.take(j));
        lemma_parse_all_err(texts, verify, j + 1);
    }
}

/// The UTF-8 bytes of each string.
pub open spec fn texts_of(shares: Seq<String>) -> Seq<Seq<u8>> {
    shares.map_values(|s: String| vstd::utf8::encode_utf8(s@))
}

/// What the Merkle-signature scheme found for each share, in input order:
/// the root hash of its inclusion proof, and whether that proof and the
/// share's signatures over its text verified.
pub struct SignatureChecks {
    pub roots: Vec<Vec<u8>>,
    pub verified: Vec<bool>,
}

impl SignatureChecks {
    /// The root hashes as byte strings.
    pub open spec fn roots_view(&self) -> Seq<Seq<u8>> {
        self.roots@.map_values(|v: Vec<u8>| v@)
    }

    /// One entry per share.
    pub open spec fn fits(&self, n: nat) -> bool {
        self.roots@.len() == n && self.verified@.len() == n
    }
}

/// What recovery from parsed shares gives, with or without signature checks.
pub open spec fn shares_result(ms: Seq<ShareModel>, checks: Option<SignatureChecks>) -> Result<Seq<u8>, ErrorKind> {
    match recover_error(ms) {
        Some(e) => Err(e),
        None => match checks {
            None => Ok(recovered(ms)),
            Some(c) => match signed_error(ms, c.roots_view(), c.verified@) {
                Some(e) => Err(e),
                None => Ok(recovered(ms)),
            },
        },
    }
}

/// What recovery from unsigned textual shares gives.
pub open spec fn unsigned_result(texts: Seq<Seq<u8>>) -> Result<Seq<u8>, ErrorKind> {
    match parse_all(texts, false) {
        Err(e) => Err(e),
        Ok(ms) => match recover_error(ms) {
            Some(e) => Err(e),
            None => Ok(recovered(ms)),
        },
    }
}

/// What recovery from textual shares gives: unsigned without checks, else
/// signed and decided by the checks.
pub open spec fn recover_result(texts: Seq<Seq<u8>>, checks: Option<SignatureChecks>) -> Result<Seq<u8>, ErrorKind> {
    match checks {
        None => unsigned_result(texts),
        Some(c) => signed_result(texts, c.roots_view(), c.verified@),
    }
}

/// Reads every share, as signed or not; fails with the first share's error.
fn parse_shares(shares: &Vec<String>, signed: bool) -> (r: Result<Vec<Share>, ErrorKind>)
    ensures
        parse_all(texts_of(shares@), signed) matches Err(e) ==> r == Err::<Vec<Share>, ErrorKind>(e),
        parse_all(texts_of(shares@), signed) matches Ok(ms) ==> r is Ok && models(r->Ok_0@) == ms,
        r is Ok ==> r->Ok_0@.len() == shares@.len(),
{
    let ghost texts = texts_of(shares@);
    let mut parsed: Vec<Share> = Vec::new();
    let mut i: usize = 0;
    assert(texts.take(0) =~= Seq::<Seq<u8>>::empty());
    assert(models(parsed@) =~= Seq::<ShareModel>::empty());
    while i < shares.len()
        invariant
            i <= shares@.len(),
            texts == texts_of(shares@),
            parse_all(texts.take(i as int), signed) == Ok::<Seq<ShareModel>, ErrorKind>(models(parsed@)),
            parsed@.len() == i,
        decreases shares.len() - i,
    {
        assert(texts.take(i + 1).drop_last() =~= texts.take(i as int));
        assert(texts.take(i + 1).last() == vstd::utf8::encode_utf8(shares@[i as int]@));
        let share = match share_from_string(shares[i].as_str(), signed) {
            Ok(share) => share,
            Err(e) => {
                proof {
                    lemma_parse_all_err(texts, signed, i + 1);
                }
                return Err(e);
            },
        };
        let ghost before = parsed@;
        parsed.push(share);
        assert(models(parsed@) =~= models(before).push(share@));
        i = i + 1;
    }
    assert(texts.take(shares@.len() as int) =~= texts);
    Ok(parsed)
}

/// Recovers the secret from textual shares. Without `checks` the shares are
/// read unsigned. With them every share must carry signatures and a proof,
/// and the chosen shares must share one root hash and all verify.
pub fn recover_secret(shares: &Vec<String>, checks: &Option<SignatureChecks>) -> (r: Result<Vec<u8>, ErrorKind>)
    requires
        checks matches Some(c) ==> c.fits(shares@.len()),
    ensures
        recover_result(texts_of(shares@), *checks) matches Err(e) ==> r == Err::<Vec<u8>, ErrorKind>(e),
        recover_result(texts_of(shares@), *checks) matches Ok(v) ==> r is Ok && r->Ok_0@ == v,
{
    let parsed = parse_shares(shares, checks.is_some())?;
    check_shares(&parsed)?;
    if let Some(c) = checks {
        check_signed(&parsed, &c.roots, &c.verified)?;
    }
    recover_from_shares(&parsed)
}

/// The share lacks signatures or a proof.
pub open spec fn unsigned(m: ShareModel) -> bool {
    m.signatures.len() == 0 || m.proof.len() == 0
}

/// Some chosen share lacks signatures or a proof.
pub open spec fn chosen_unsigned(s: Seq<ShareModel>) -> bool {
    exists|t: int| 0 <= t < chosen(s).len() && #[trigger] unsigned(s[chosen(s)[t]])
}

/// The error, if any, of the signature checks over the chosen shares, given
/// each share's proof root hash and whether its proof and signatures verified.
pub open spec fn signed_error(s: Seq<ShareModel>, roots: Seq<Seq<u8>>, verified: Seq<bool>) -> Option<ErrorKind> {
    if chosen_unsigned(s) {
        Some(ErrorKind::MissingSignatures)
    } else if exists|t: int| 0 <= t < chosen(s).len() && #[trigger] roots[chosen(s)[t]] != roots[chosen(s)[0]] {
        Some(ErrorKind::InconsistentRootHashes)
    } else if exists|t: int| 0 <= t < chosen(s).len() && !#[trigger] verified[chosen(s)[t]] {
        Some(ErrorKind::SignatureVerificationFailure)
    } else {
        None
    }
}

/// Whether a chosen share lacks signatures or a proof.
pub fn chosen_missing_signatures(shares: &Vec<Share>) -> (r: bool)
    requires
        recover_error(models(shares@)) is None,
    ensures
        r == chosen_unsigned(models(shares@)),
{
    let ghost s = models(shares@);
    let k = shares[0].threshold as usize;
    let order = ids_in_order(shares);
    proof {
        lemma_chosen_distinct(s);
    }
    let mut t: usize = 0;
    while t < k
        invariant
            k == s[0].threshold,
            s == models(shares@),
            k <= order@.len(),
            order@.len() == by_id(s, 256).len(),
            recover_error(s) is None,
            chosen(s).len() == k,
            forall|j: int| 0 <= j < order@.len() ==> order@[j] == by_id(s, 256)[j],
            forall|j: int| 0 <= j < chosen(s).len() ==> 0 <= #[trigger] chosen(s)[j] < shares@.len(),
            t <= k,
            forall|j: int| 0 <= j < t ==> !#[trigger] unsigned(s[chosen(s)[j]]),
        decreases k - t,
    {
        assert(chosen(s)[t as int] == order@[t as int]);
        let j = order[t];
        assert(s[j as int] == shares@[j as int]@);
        if shares[j].signatures.len() == 0 || shares[j].proof.len() == 0 {
            assert(unsigned(s[chosen(s)[t as int]]));
            return true;
        }
        t = t + 1;
    }
    false
}

pub(crate) fn check_signed(shares: &Vec<Share>, roots: &Vec<Vec<u8>>, verified: &Vec<bool>) -> (r: Result<(), ErrorKind>)
    requires
        recover_error(models(shares@)) is None,
        roots@.len() == shares@.len(),
        verified@.len() == shares@.len(),
    ensures
        signed_error(models(shares@), roots@.map_values(|v: Vec<u8>| v@), verified@) is None <==> r is Ok,
        signed_error(models(shares@), roots@.map_values(|v: Vec<u8>| v@), verified@) matches Some(e) ==> r
            == Err::<(), ErrorKind>(e),
{
    let ghost s = models(shares@);
    let ghost rv = roots@.map_values(|v: Vec<u8>| v@);
    if chosen_missing_signatures(shares) {
        return Err(ErrorKind::MissingSignatures);
    }
    let k = shares[0].threshold as usize;
    let order = ids_in_order(shares);
    proof {
        lemma_chosen_distinct(s);
    }
    assert(chosen(s)[0] == order@[0]);
    let first = order[0];
    let mut t: usize = 0;
    while t < k
        invariant
            k == s[0].threshold,
            s == models(shares@),
            rv == roots@.map_values(|v: Vec<u8>| v@),
            roots@.len() == shares@.len(),
            k <= order@.len(),
            order@.len() == by_id(s, 256).len(),
            recover_error(s) is None,
            chosen(s).len() == k,
            first == chosen(s)[0],
            !chosen_unsigned(s),
            forall|j: int| 0 <= j < order@.len() ==> order@[j] == by_id(s, 256)[j],
            forall|j: int| 0 <= j < chosen(s).len() ==> 0 <= #[trigger] chosen(s)[j] < shares@.len(),
            t <= k,
            forall|j: int| 0 <= j < t ==> #[trigger] rv[chosen(s)[j]] == rv[chosen(s)[0]],
        decreases k - t,
    {
        assert(chosen(s)[t as int] == order@[t as int]);
        let j = order[t];
        assert(rv[j as int] == roots@[j as int]@ && rv[first as int] == roots@[first as int]@);
        if crate::tags::compare_bytes(&roots[j], &roots[first]) != 0 {
            assert(rv[chosen(s)[t as int]] != rv[chosen(s)[0]]);
            return Err(ErrorKind::InconsistentRootHashes);
        }
        t = t + 1;
    }
    let mut t: usize = 0;
    while t < k
        invariant
            k == s[0].threshold,
            s == models(shares@),
            verified@.len() == shares@.len(),
            rv == roots@.map_values(|v: Vec<u8>| v@),
            roots@.len() == shares@.len(),
            k <= order@.len(),
            order@.len() == by_id(s, 256).len(),
            recover_error(s) is None,
            chosen(s).len() == k,
            forall|j: int| 0 <= j < order@.len() ==> order@[j] == by_id(s, 256)[j],
            forall|j: int| 0 <= j < chosen(s).len() ==> 0 <= #[trigger] chosen(s)[j] < shares@.len(),
            forall|j: int| 0 <= j < k ==> #[trigger] rv[chosen(s)[j]] == rv[chosen(s)[0]],
            !chosen_unsigned(s),
            t <= k,
            forall|j: int| 0 <= j < t ==> #[trigger] verified@[chosen(s)[j]],
        decreases k - t,
    {
        assert(chosen(s)[t as int] == order@[t as int]);
        let j = order[t];
        if !verified[j] {
            assert(!verified@[chosen(s)[t as int]]);
            return Err(ErrorKind::SignatureVerificationFailure);
        }
        t = t + 1;
    }
    Ok(())
}

/// What recovery from signed textual shares gives, with each share's proof
/// root hash and signature verification result.
pub open spec fn signed_result(texts: Seq<Seq<u8>>, roots: Seq<Seq<u8>>, verified: Seq<bool>) -> Result<Seq<u8>, ErrorKind> {
    match parse_all(texts, true) {
        Err(e) => Err(e),
        Ok(ms) => match recover_error(ms) {
            Some(e) => Err(e),
            None => match signed_error(ms, roots, verified) {
                Some(e) => Err(e),
                None => Ok(recovered(ms)),
            },
        },
    }
}

/// The model of share `id` of an unsigned dealing.
pub open spec fn dealt_share(k: u8, secret: Seq<u8>, random: Seq<u8>, id: u8) -> ShareModel {
    ShareModel {
        id: id,
        threshold: k,
        data: share_data(secret, random, k as nat, id),
        signatures: Seq::empty(),
        proof: Seq::empty(),
    }
}

/// Splits `secret` into `n` textual shares, any `k` of which recover it, taking
/// the polynomials' non-constant coefficients from `random`.
pub fn split_secret_with_random(k: u8, n: u8, secret: &Vec<u8>, random: &Vec<u8>) -> (r: Result<
    Vec<String>,
    ErrorKind,
>)
    ensures
        split_error(k, n, secret@, random@) is None <==> r is Ok,
        split_error(k, n, secret@, random@) matches Some(e) ==> r == Err::<Vec<String>, ErrorKind>(e),
        r matches Ok(texts) ==> texts@.len() == n && forall|i: int|
            0 <= i < n ==> (#[trigger] texts@[i])@ == ascii_chars(
                format_share(dealt_share(k, secret@, random@, (i + 1) as u8)),
            ),
{
    let shares = split_with_random(k, n, secret, random)?;
    let mut texts: Vec<String> = Vec::new();
    let mut i: usize = 0;
    while i < shares.len()
        invariant
            i <= shares@.len(),
            shares@.len() == n,
            texts@.len() == i,
            forall|j: int|
                0 <= j < n ==> {
                    &&& (#[trigger] shares@[j]).id == j + 1
                    &&& shares@[j].threshold == k
                    &&& shares@[j].data@ == share_data(secret@, random@, k as nat, (j + 1) as u8)
                    &&& shares@[j].signatures@.len() == 0
                    &&& shares@[j].proof@.len() == 0
                },
            forall|j: int|
                0 <= j < i ==> (#[trigger] texts@[j])@ == ascii_chars(
                    format_share(dealt_share(k, secret@, random@, (j + 1) as u8)),
                ),
        decreases shares.len() - i,
    {
        let ghost sh = shares@[i as int];
        assert(sh.id == i + 1);
        assert(sh@.signatures =~= Seq::<Seq<u8>>::empty());
        assert(sh@.proof =~= Seq::<u8>::empty());
        assert(sh@.data == share_data(secret@, random@, k as nat, (i + 1) as u8));
        assert(sh@ == dealt_share(k, secret@, random@, (i + 1) as u8));
        texts.push(share_to_string(&shares[i]));
        i = i + 1;
    }
    Ok(texts)
}

/// `s2` lists the shares of `s1` in the order that `perm` gives, and `inv`
/// undoes it.
pub open spec fn is_permutation(s1: Seq<ShareModel>, s2: Seq<ShareModel>, perm: Seq<int>, inv: Seq<int>) -> bool {
    &&& s1.len() == s2.len()
    &&& perm.len() == s1.len()
    &&& inv.len() == s1.len()
    &&& forall|i: int| 0 <= i < s1.len() ==> 0 <= #[trigger] perm[i] < s1.len() && inv[perm[i]] == i
    &&& forall|j: int| 0 <= j < s1.len() ==> 0 <= #[trigger] inv[j] < s1.len() && perm[inv[j]] == j
    &&& forall|i: int| 0 <= i < s1.len() ==> #[trigger] s2[i] == s1[perm[i]]
}

/// The shares that `by_id` picks.
pub open spec fn picked(s: Seq<ShareModel>, v: nat) -> Seq<ShareModel> {
    by_id(s, v).map_values(|j: int| s[j])
}

proof fn lemma_picked_permutation(s1: Seq<ShareModel>, s2: Seq<ShareModel>, perm: Seq<int>, inv: Seq<int>, v: nat)
    requires
        is_permutation(s1, s2, perm, inv),
        forall|a: int, b: int| 0 <= a < b < s1.len() ==> #[trigger] s1[a].id != #[trigger] s1[b].id,
    ensures
        picked(s1, v) == picked(s2, v),
    decreases v,
{
    if v > 0 {
        lemma_picked_permutation(s1, s2, perm, inv, (v - 1) as nat);
        let w = v - 1;
        lemma_find_id(s1, w, s1.len());
        lemma_find_id(s2, w, s2.len());
        let f1 = find_id(s1, w, s1.len());
        let f2 = find_id(s2, w, s2.len());
        let p1 = by_id(s1, (v - 1) as nat);
        let p2 = by_id(s2, (v - 1) as nat);
        if f1 >= 0 {
            assert(s2[inv[f1]] == s1[f1]);
            assert(f2 >= 0);
        }
        if f2 >= 0 {
            assert(s2[f2] == s1[perm[f2]]);
            assert(f1 >= 0);
            if perm[f2] != f1 {
                if perm[f2] < f1 {
                    assert(s1[perm[f2]].id != s1[f1].id);
                } else {
                    assert(s1[f1].id != s1[perm[f2]].id);
                }
            }
            assert(s2[f2] == s1[f1]);
            assert(picked(s1, v) =~= picked(s1, (v - 1) as nat).push(s1[f1]));
            assert(picked(s2, v) =~= picked(s2, (v - 1) as nat).push(s2[f2]));
        } else {
            assert(picked(s1, v) =~= picked(s1, (v - 1) as nat));
            assert(picked(s2, v) =~= picked(s2, (v - 1) as nat));
        }
    } else {
        assert(picked(s1, v) =~= picked(s2, v));
    }
}

/// Recovery does not depend on the order of the shares: a permutation of
/// the shares gives the same error, or the same secret.
pub proof fn lemma_recover_commutes(s1: Seq<ShareModel>, s2: Seq<ShareModel>, perm: Seq<int>, inv: Seq<int>)
    requires
        is_permutation(s1, s2, perm, inv),
    ensures
        recover_error(s1) == recover_error(s2),
        recover_error(s1) is None ==> recovered(s1) == recovered(s2),
{
    let n = s1.len();
    if n > 0 {
        let t1 = exists|i: int| 0 <= i < n && #[trigger] s1[i].threshold != s1[0].threshold;
        let t2 = exists|i: int| 0 <= i < n && #[trigger] s2[i].threshold != s2[0].threshold;
        if t1 {
            let i = choose|i: int| 0 <= i < n && #[trigger] s1[i].threshold != s1[0].threshold;
            assert(s2[inv[i]] == s1[i] && s2[inv[0]] == s1[0]);
            if s2[inv[i]].threshold == s2[0].threshold {
                assert(s2[inv[0]].threshold != s2[0].threshold);
            }
        }
        if t2 {
            let i = choose|i: int| 0 <= i < n && #[trigger] s2[i].threshold != s2[0].threshold;
            assert(s2[i] == s1[perm[i]] && s2[0] == s1[perm[0]]);
            if s1[perm[i]].threshold == s1[0].threshold {
                assert(s1[perm[0]].threshold != s1[0].threshold);
            }
        }
        assert(t1 == t2);
        let d1 = exists|i: int, j: int| 0 <= i < j < n && #[trigger] s1[i].id == #[trigger] s1[j].id;
        let d2 = exists|i: int, j: int| 0 <= i < j < n && #[trigger] s2[i].id == #[trigger] s2[j].id;
        if d1 {
            let (i, j) = choose|i: int, j: int| 0 <= i < j < n && #[trigger] s1[i].id == #[trigger] s1[j].id;
            assert(s2[inv[i]] == s1[i] && s2[inv[j]] == s1[j]);
            assert(inv[i] != inv[j]);
            if inv[i] < inv[j] {
                assert(s2[inv[i]].id == s2[inv[j]].id);
            } else {
                assert(s2[inv[j]].id == s2[inv[i]].id);
            }
        }
        if d2 {
            let (i, j) = choose|i: int, j: int| 0 <= i < j < n && #[trigger] s2[i].id == #[trigger] s2[j].id;
            assert(s2[i] == s1[perm[i]] && s2[j] == s1[perm[j]]);
            assert(perm[i] != perm[j]);
            if perm[i] < perm[j] {
                assert(s1[perm[i]].id == s1[perm[j]].id);
            } else {
                assert(s1[perm[j]].id == s1[perm[i]].id);
            }
        }
        assert(d1 == d2);
        let l1 = exists|i: int| 0 <= i < n && #[trigger] s1[i].data.len() != s1[0].data.len();
        let l2 = exists|i: int| 0 <= i < n && #[trigger] s2[i].data.len() != s2[0].data.len();
        if l1 {
            let i = choose|i: int| 0 <= i < n && #[trigger] s1[i].data.len() != s1[0].data.len();
            assert(s2[inv[i]] == s1[i] && s2[inv[0]] == s1[0]);
            if s2[inv[i]].data.len() == s2[0].data.len() {
                assert(s2[inv[0]].data.len() != s2[0].data.len());
            }
        }
        if l2 {
            let i = choose|i: int| 0 <= i < n && #[trigger] s2[i].data.len() != s2[0].data.len();
            assert(s2[i] == s1[perm[i]] && s2[0] == s1[perm[0]]);
            if s1[perm[i]].data.len() == s1[0].data.len() {
                assert(s1[perm[0]].data.len() != s1[0].data.len());
            }
        }
        assert(l1 == l2);
        let z1 = exists|i: int| 0 <= i < n && #[trigger] s1[i].id == 0;
        let z2 = exists|i: int| 0 <= i < n && #[trigger] s2[i].id == 0;
        if z1 {
            let i = choose|i: int| 0 <= i < n && #[trigger] s1[i].id == 0;
            assert(s2[inv[i]] == s1[i]);
        }
        if z2 {
            let i = choose|i: int| 0 <= i < n && #[trigger] s2[i].id == 0;
            assert(s2[i] == s1[perm[i]]);
        }
        assert(z1 == z2);
        if !t1 && !d1 && !l1 {
            assert(s2[0] == s1[perm[0]]);
            assert(s1[perm[0]].threshold == s1[0].threshold);
            assert(s1[perm[0]].data.len() == s1[0].data.len());
            assert forall|a: int, b: int| 0 <= a < b < n implies #[trigger] s1[a].id != #[trigger] s1[b].id by {
                if s1[a].id == s1[b].id {
                    assert(d1);
                }
            }
            lemma_picked_permutation(s1, s2, perm, inv, 256);
            assert(picked(s1, 256).len() == by_id(s1, 256).len());
            assert(picked(s2, 256).len() == by_id(s2, 256).len());
            let k = s1[0].threshold as int;
            if recover_error(s1) is None {
                assert(chosen_ids(s1) =~= chosen_ids(s2)) by {
                    assert forall|t: int| 0 <= t < chosen_ids(s1).len() implies chosen_ids(s1)[t] == chosen_ids(s2)[t] by {
                        assert(picked(s1, 256)[t] == picked(s2, 256)[t]);
                    }
                }
                assert forall|l: int| 0 <= l < s1[0].data.len() implies chosen_column(s1, l) == chosen_column(s2, l) by {
                    assert forall|t: int| 0 <= t < chosen_column(s1, l).len() implies chosen_column(s1, l)[t] == chosen_column(s2, l)[t] by {
                        assert(picked(s1, 256)[t] == picked(s2, 256)[t]);
                    }
                    assert(chosen_column(s1, l) =~= chosen_column(s2, l));
                }
                assert(recovered(s1) =~= recovered(s2));
            }
        }
    } else {
        assert(s2.len() == 0);
    }
}

proof fn lemma_parse_all_ok(texts: Seq<Seq<u8>>, verify: bool)
    ensures
        parse_all(texts, verify) is Ok <==> forall|i: int| 0 <= i < texts.len() ==> #[trigger] parse_checked(texts[i], verify) is Ok,
        parse_all(texts, verify) matches Ok(ms) ==> ms.len() == texts.len() && forall|i: int|
            0 <= i < texts.len() ==> parse_checked(#[trigger] texts[i], verify) == Ok::<ShareModel, ErrorKind>(ms[i]),
    decreases texts.len(),
{
    if texts.len() > 0 {
        let init = texts.drop_last();
        lemma_parse_all_ok(init, verify);
        assert forall|i: int| 0 <= i < init.len() implies init[i] == texts[i] by {}
        if !(parse_all(texts, verify) is Ok) {
            if parse_all(init, verify) is Err {
                let i = choose|i: int| 0 <= i < init.len() && !(#[trigger] parse_checked(init[i], verify) is Ok);
                assert(init[i] == texts[i]);
            } else {
                assert(!(parse_checked(texts[texts.len() - 1], verify) is Ok));
            }
        }
    }
}

/// Recovery from unsigned textual shares does not depend on their order: when
/// every share reads, a permutation of the texts gives the same secret or error.
pub proof fn lemma_recover_secret_commutes(t1: Seq<Seq<u8>>, t2: Seq<Seq<u8>>, perm: Seq<int>, inv: Seq<int>)
    requires
        t1.len() == t2.len(),
        perm.len() == t1.len(),
        inv.len() == t1.len(),
        forall|i: int| 0 <= i < t1.len() ==> 0 <= #[trigger] perm[i] < t1.len() && inv[perm[i]] == i,
        forall|j: int| 0 <= j < t1.len() ==> 0 <= #[trigger] inv[j] < t1.len() && perm[inv[j]] == j,
        forall|i: int| 0 <= i < t1.len() ==> #[trigger] t2[i] == t1[perm[i]],
        parse_all(t1, false) is Ok,
    ensures
        unsigned_result(t1) == unsigned_result(t2),
{
    let verify = false;
    lemma_parse_all_ok(t1, verify);
    lemma_parse_all_ok(t2, verify);
    assert forall|i: int| 0 <= i < t2.len() implies #[trigger] parse_checked(t2[i], verify) is Ok by {
        assert(t2[i] == t1[perm[i]]);
        assert(parse_checked(t1[perm[i]], verify) is Ok);
    }
    let ms1 = parse_all(t1, verify)->Ok_0;
    let ms2 = parse_all(t2, verify)->Ok_0;
    assert forall|i: int| 0 <= i < ms1.len() implies #[trigger] ms2[i] == ms1[perm[i]] by {
        assert(t2[i] == t1[perm[i]]);
        assert(parse_checked(t1[perm[i]], verify) == Ok::<ShareModel, ErrorKind>(ms1[perm[i]]));
        assert(parse_checked(t2[i], verify) == Ok::<ShareModel, ErrorKind>(ms2[i]));
    }
    assert(is_permutation(ms1, ms2, perm, inv));
    lemma_recover_commutes(ms1, ms2, perm, inv);
}

} // verus!
