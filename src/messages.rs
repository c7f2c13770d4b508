use vstd::prelude::*;

use crate::bytes::{append_bytes, copy_range, same_bytes};
use crate::shares::{
    block_size, codeword, concat, rs_parity, decodable_from, distinct_indices, padded_data, share_views,
    shares_agree, split_data, split_data_spec, strips, uniform, unite_data, unite_data_spec,
    DataShare,
};

verus! {

/// Length of the short hash trailer, the first bytes of a SHA-512/256 digest.
pub const SHORT_HASH_LEN: usize = 8;
/// Length of a message id (a short hash of the padded payload).
pub const MESSAGE_ID_LEN: usize = 8;
/// Length of the integrity trailer of a fragment.
pub const ECC_LEN: usize = 8;
/// Length of the nonce at the start of the padded payload.
pub const NONCE_LEN: usize = 8;
/// Length of all fragment fields but the share data.
pub const FIELDS_LEN: usize = 18;

/// The SHA-512/256 digest of `data`.
pub uninterp spec fn sha512_256(data: Seq<u8>) -> Seq<u8>;

/// Relies on `ring::digest::digest` with `SHA512_256`: a 32-byte digest that
/// depends on the input bytes alone.
#[verifier::external_body]
fn sha512_256_digest(data: &[u8]) -> (r: Vec<u8>)
    ensures
        r@ == sha512_256(data@),
        r@.len() == 32,
{
    ring::digest::digest(&ring::digest::SHA512_256, data).as_ref().to_vec()
}

/// The first eight bytes of the SHA-512/256 digest of `data`.
pub open spec fn short_hash_spec(data: Seq<u8>) -> Seq<u8> {
    Seq::new(8, |i: int| sha512_256(data)[i])
}

/// Largest message that fits in fragments of `d` bytes.
pub open spec fn max_message_spec(d: int) -> int {
    128 * (d - 18) - 9
}

/// Compute the short hash of `input_data`.
pub fn short_hash(input_data: &[u8]) -> (r: [u8; SHORT_HASH_LEN])
    ensures
        r@ == short_hash_spec(input_data@),
{
    let d = sha512_256_digest(input_data);
    let r = [d[0], d[1], d[2], d[3], d[4], d[5], d[6], d[7]];
    assert(r@ =~= short_hash_spec(input_data@));
    r
}

/// Largest message that can be sent when the underlying datagrams carry at
/// most `max_dgram_len` bytes.
pub fn max_message(max_dgram_len: usize) -> (r: Result<usize, ()>)
    requires
        max_dgram_len <= usize::MAX / 256,
    ensures
        match r {
            Ok(n) => max_dgram_len > FIELDS_LEN && n == max_message_spec(max_dgram_len as int),
            Err(()) => max_dgram_len <= FIELDS_LEN,
        },
{
    if max_dgram_len <= FIELDS_LEN {
        return Err(());
    }
    Ok((128 * (max_dgram_len - FIELDS_LEN)) - (NONCE_LEN + 1))
}

/// Number of data shares `b` for a message of `m_len` bytes in fragments of
/// `d` bytes: the padded payload needs `ceil((9 + m_len) / (d - 18))` of them.
pub open spec fn num_shares(m_len: int, d: int) -> int {
    (9 + m_len + (d - 18) - 1) / (d - 18)
}

/// Number of zero bytes that make the payload a multiple of `b` long.
pub open spec fn pad_count(m_len: int, d: int) -> int {
    let b = num_shares(m_len, d);
    (b - (9 + m_len) % b) % b
}

/// The padded payload `nonce || pad_count || m || zeros`.
pub open spec fn padded_payload(m: Seq<u8>, nonce: Seq<u8>, d: int) -> Seq<u8> {
    let pad = pad_count(m.len() as int, d);
    nonce + seq![pad as u8] + m + Seq::new(pad as nat, |i: int| 0u8)
}

/// The fragment `id || b || index || data || short_hash(id || b || index || data)`.
pub open spec fn fragment_spec(id: Seq<u8>, b: u8, index: u8, data: Seq<u8>) -> Seq<u8> {
    let head = id + seq![b, index] + data;
    head + short_hash_spec(head)
}

/// The fragments of message `m` with nonce `nonce` for datagrams of `d` bytes.
pub open spec fn split_message_spec(m: Seq<u8>, nonce: Seq<u8>, d: int) -> Seq<Seq<u8>> {
    let t = padded_payload(m, nonce, d);
    let b = num_shares(m.len() as int, d);
    let shares = split_data_spec(t, b as nat);
    Seq::new(shares.len(), |i: int| fragment_spec(short_hash_spec(t), b as u8, i as u8, shares[i]))
}

/// The views of a sequence of fragments.
pub open spec fn frag_views(s: Seq<Vec<u8>>) -> Seq<Seq<u8>> {
    Seq::new(s.len(), |i: int| s[i]@)
}

proof fn lemma_share_count(l: int, s: int, b: int)
    requires
        1 <= s,
        9 <= l <= 128 * s,
        b == (l + s - 1) / s,
    ensures
        1 <= b <= 128,
        b == l / s + if l % s != 0 {
            1int
        } else {
            0int
        },
        0 <= (b - l % b) % b < b,
{
    assert(1 <= b <= 128) by (nonlinear_arith)
        requires
            1 <= s,
            9 <= l <= 128 * s,
            b == (l + s - 1) / s,
    ;
    assert(b == l / s + if l % s != 0 {
        1int
    } else {
        0int
    }) by (nonlinear_arith)
        requires
            1 <= s,
            0 <= l,
            b == (l + s - 1) / s,
    ;
}

/// Split a message `m` into `2b - 1` fragments to be sent to the remote side;
/// any `b` of them rebuild it. Fails when `m` is too large for datagrams of
/// `max_dgram_len` bytes.
pub fn split_message(m: &[u8], nonce: &[u8; NONCE_LEN], max_dgram_len: usize) -> (r: Result<
    Vec<Vec<u8>>,
    (),
>)
    requires
        max_dgram_len <= usize::MAX / 256,
    ensures
        r is Err <==> max_dgram_len <= FIELDS_LEN || m@.len() > max_message_spec(max_dgram_len as int),
        r matches Ok(f) ==> frag_views(f@) == split_message_spec(m@, nonce@, max_dgram_len as int),
{
    let max_len = match max_message(max_dgram_len) {
        Ok(n) => n,
        Err(()) => return Err(()),
    };
    if m.len() > max_len {
        return Err(());
    }
    let ghost d = max_dgram_len as int;
    let len_without_padding = MESSAGE_ID_LEN + 1 + m.len();
    let space_in_msg = max_dgram_len - (MESSAGE_ID_LEN + 1 + 1 + ECC_LEN);
    let b: usize = len_without_padding / space_in_msg + if len_without_padding % space_in_msg != 0 {
        1
    } else {
        0
    };
    proof {
        lemma_share_count(len_without_padding as int, space_in_msg as int, num_shares(m@.len() as int, d));
    }
    assert(b == num_shares(m@.len() as int, d));
    let padding_count = (b - (len_without_padding % b)) % b;
    assert(padding_count == pad_count(m@.len() as int, d));

    let mut t: Vec<u8> = Vec::new();
    append_bytes(&mut t, nonce);
    t.push(padding_count as u8);
    append_bytes(&mut t, m);
    let ghost before_pad = t@;
    let mut k: usize = 0;
    while k < padding_count
        invariant
            k <= padding_count,
            t@ == before_pad + Seq::new(k as nat, |i: int| 0u8),
        decreases padding_count - k,
    {
        t.push(0);
        k = k + 1;
        assert(t@ =~= before_pad + Seq::new(k as nat, |i: int| 0u8));
    }
    assert(t@ =~= padded_payload(m@, nonce@, d));

    let message_id = short_hash(t.as_slice());
    let data_shares = match split_data(t.as_slice(), b as u8) {
        Ok(data_shares) => data_shares,
        Err(_) => return Err(()),
    };
    let ghost shares = split_data_spec(t@, b as nat);
    let ghost expected = split_message_spec(m@, nonce@, d);
    let mut frags: Vec<Vec<u8>> = Vec::with_capacity(data_shares.len());
    let mut i: usize = 0;
    while i < data_shares.len()
        invariant
            1 <= b <= 128,
            b == num_shares(m@.len() as int, d),
            t@ == padded_payload(m@, nonce@, d),
            message_id@ == short_hash_spec(t@),
            shares == split_data_spec(t@, b as nat),
            expected == split_message_spec(m@, nonce@, d),
            data_shares@.len() == shares.len(),
            forall|q: int| 0 <= q < data_shares@.len() ==> (#[trigger] data_shares@[q]).input == q
                && data_shares@[q].data@ == shares[q],
            i <= data_shares@.len(),
            frags@.len() == i,
            forall|q: int| 0 <= q < i ==> (#[trigger] frags@[q])@ == expected[q],
        decreases data_shares@.len() - i,
    {
        let mut fmessage: Vec<u8> = Vec::new();
        append_bytes(&mut fmessage, &message_id);
        fmessage.push(b as u8);
        fmessage.push(i as u8);
        append_bytes(&mut fmessage, data_shares[i].data.as_slice());
        let frag_hash = short_hash(fmessage.as_slice());
        let ghost head = fmessage@;
        append_bytes(&mut fmessage, &frag_hash);
        assert(head =~= message_id@ + seq![b as u8, i as u8] + shares[i as int]);
        assert(fmessage@ == expected[i as int]);
        frags.push(fmessage);
        i = i + 1;
    }
    assert(frag_views(frags@) =~= expected);
    Ok(frags)
}

/// What `unite_message` returns: the message inside the payload that the
/// shares rebuild, when its short hash is `id` and its padding count fits.
pub open spec fn unite_message_spec(id: Seq<u8>, shares: Seq<(u8, Seq<u8>)>) -> Option<Seq<u8>> {
    match unite_data_spec(shares) {
        None => None,
        Some(t) => if short_hash_spec(t) != id || t.len() < 9 || 9 + t[8] > t.len() {
            None
        } else {
            Some(t.subrange(9, t.len() - t[8]))
        },
    }
}

/// `id` and `shares` come from the fragments that `split_message` makes of
/// `m` with `nonce` for datagrams of `d` bytes: `id` is the message id they
/// carry, and `shares` are `b` of their shares, with distinct indices.
pub open spec fn shares_of_split(
    id: Seq<u8>,
    shares: Seq<(u8, Seq<u8>)>,
    m: Seq<u8>,
    nonce: Seq<u8>,
    d: int,
) -> bool {
    let frags = split_message_spec(m, nonce, d);
    &&& nonce.len() == NONCE_LEN
    &&& FIELDS_LEN < d
    &&& m.len() <= max_message_spec(d)
    &&& id == frags[0].subrange(0, 8)
    &&& shares.len() == num_shares(m.len() as int, d)
    &&& distinct_indices(shares)
    &&& forall|q: int|
        0 <= q < shares.len() ==> (#[trigger] shares[q]).0 < frags.len() && shares[q].1
            == frags[shares[q].0 as int].subrange(10, frags[shares[q].0 as int].len() - 8)
}

proof fn lemma_payload(m: Seq<u8>, nonce: Seq<u8>, d: int)
    requires
        nonce.len() == NONCE_LEN,
        FIELDS_LEN < d,
        m.len() <= max_message_spec(d),
    ensures
        ({
            let t = padded_payload(m, nonce, d);
            let b = num_shares(m.len() as int, d);
            let pad = pad_count(m.len() as int, d);
            &&& 1 <= b <= 128
            &&& 0 <= pad < b
            &&& t.len() == 9 + m.len() + pad
            &&& (t.len() as int) % b == 0
            &&& block_size(t.len(), b as nat) as int == (t.len() as int) / b
            &&& (t.len() as int) / b > 0
            &&& t[8] == pad
            &&& t.subrange(9, t.len() - pad) == m
        }),
{
    let t = padded_payload(m, nonce, d);
    let s = d - 18;
    let l = 9 + m.len() as int;
    let b = num_shares(m.len() as int, d);
    let pad = pad_count(m.len() as int, d);
    lemma_share_count(l, s, b);
    assert((l + pad) % b == 0) by (nonlinear_arith)
        requires
            1 <= b,
            0 <= l,
            pad == (b - l % b) % b,
    ;
    let n = l + pad;
    assert(block_size(n as nat, b as nat) == n / b) by (nonlinear_arith)
        requires
            1 <= b,
            0 <= n,
            n % b == 0,
    ;
    assert(n / b > 0) by (nonlinear_arith)
        requires
            1 <= b,
            9 <= n,
            n % b == 0,
    ;
    assert(t.subrange(9, t.len() - pad) =~= m);
}

proof fn lemma_concat_prefix(rows: Seq<Seq<u8>>, t: Seq<u8>, bs: int, k: int)
    requires
        0 <= k <= rows.len(),
        0 <= bs,
        forall|i: int| 0 <= i < rows.len() ==> #[trigger] rows[i] == t.subrange(i * bs, (i + 1) * bs)
            && 0 <= i * bs && (i + 1) * bs <= t.len() && i * bs + bs == (i + 1) * bs,
    ensures
        concat(rows.take(k)) == t.subrange(0, k * bs),
    decreases k,
{
    if k == 0 {
        assert(rows.take(0) =~= Seq::<Seq<u8>>::empty());
        assert(t.subrange(0, 0 * bs) =~= Seq::<u8>::empty());
    } else {
        lemma_concat_prefix(rows, t, bs, k - 1);
        assert(rows.take(k).drop_last() =~= rows.take(k - 1));
        assert(rows.take(k).last() == rows[k - 1]);
        assert(k * bs == (k - 1) * bs + bs) by (nonlinear_arith);
        let r = rows[k - 1];
        assert(r == t.subrange((k - 1) * bs, (k - 1 + 1) * bs));
        assert((k - 1 + 1) * bs == k * bs);
        assert(0 <= (k - 1) * bs && k * bs <= t.len());
        assert(concat(rows.take(k)) == concat(rows.take(k - 1)) + r);
        assert(concat(rows.take(k)) =~= t.subrange(0, k * bs));
    }
}

proof fn lemma_concat_strips(t: Seq<u8>, b: nat)
    requires
        b >= 1,
        (t.len() as int) % (b as int) == 0,
        block_size(t.len(), b) as int == (t.len() as int) / (b as int),
    ensures
        concat(strips(t, b)) == t,
        uniform(strips(t, b), block_size(t.len(), b)),
        strips(t, b).len() == b,
{
    let bs = block_size(t.len(), b) as int;
    let rows = strips(t, b);
    let tl = t.len() as int;
    let bi = b as int;
    assert(bi * bs == tl) by (nonlinear_arith)
        requires
            bi >= 1,
            tl % bi == 0,
            bs == tl / bi,
    ;
    assert(padded_data(t, b) =~= t);
    assert forall|i: int| 0 <= i < b implies #[trigger] rows[i] == t.subrange(i * bs, (i + 1) * bs)
        && 0 <= i * bs && (i + 1) * bs <= t.len() && i * bs + bs == (i + 1) * bs by {
        assert((i + 1) * bs <= b * bs && 0 <= i * bs && i * bs + bs == (i + 1) * bs) by (nonlinear_arith)
            requires
                0 <= i < b,
                0 <= bs,
        ;
    }
    lemma_concat_prefix(rows, t, bs, b as int);
    assert(rows.take(b as int) =~= rows);
    assert(t.subrange(0, b * bs) =~= t);
}

proof fn lemma_split_shares(id: Seq<u8>, shares: Seq<(u8, Seq<u8>)>, m: Seq<u8>, nonce: Seq<u8>, d: int)
    requires
        shares_of_split(id, shares, m, nonce, d),
    ensures
        ({
            let t = padded_payload(m, nonce, d);
            &&& shares.len() == 1 ==> unite_data_spec(shares) == Some(t)
            &&& shares.len() >= 2 ==> decodable_from(shares, strips(t, shares.len()))
                && concat(strips(t, shares.len())) == t
            &&& short_hash_spec(t) == id
            &&& t.len() >= 9
            &&& 9 + t[8] <= t.len()
            &&& t.subrange(9, t.len() - t[8]) == m
        }),
{
    lemma_payload(m, nonce, d);
    let t = padded_payload(m, nonce, d);
    let b = num_shares(m.len() as int, d);
    let pad = pad_count(m.len() as int, d);
    let parts = split_data_spec(t, b as nat);
    let frags = split_message_spec(m, nonce, d);
    lemma_concat_strips(t, b as nat);
    assert forall|i: int| 0 <= i < frags.len() implies #[trigger] frags[i].subrange(10, frags[i].len() - 8)
        == parts[i] by {
        assert(frags[i].subrange(10, frags[i].len() - 8) =~= parts[i]);
    }
    assert(frags[0].subrange(0, 8) =~= short_hash_spec(t));
    if b == 1 {
        assert(shares[0].0 < 1);
        assert(unite_data_spec(shares) == Some(t));
    } else {
        let rows = strips(t, b as nat);
        assert(shares_agree(shares, codeword(rows, (shares.len() - 1) as nat)));
        assert(decodable_from(shares, rows));
    }
}

/// Splitting a message of at most `max_message(d)` bytes makes `2b - 1`
/// fragments, all of one length of at most `d` bytes; exactly `d` bytes when
/// the padded payload fills `b` shares of `d - 18` bytes.
pub proof fn lemma_split_shape(m: Seq<u8>, nonce: Seq<u8>, d: int)
    requires
        nonce.len() == NONCE_LEN,
        FIELDS_LEN < d,
        m.len() <= max_message_spec(d),
    ensures
        ({
            let frags = split_message_spec(m, nonce, d);
            let b = num_shares(m.len() as int, d);
            let t = padded_payload(m, nonce, d);
            &&& frags.len() == 2 * b - 1
            &&& forall|i: int| 0 <= i < frags.len() ==> (#[trigger] frags[i]).len() == FIELDS_LEN + (t.len() as int) / b
            &&& FIELDS_LEN + (t.len() as int) / b <= d
            &&& (t.len() as int) / b > 0
            &&& 1 <= b <= 128
            &&& t.len() == b * (d - FIELDS_LEN) ==> forall|i: int| 0 <= i < frags.len() ==> (#[trigger] frags[i]).len() == d
        }),
{
    lemma_payload(m, nonce, d);
    let t = padded_payload(m, nonce, d);
    let b = num_shares(m.len() as int, d);
    let pad = pad_count(m.len() as int, d);
    let s = d - 18;
    let l = 9 + m.len() as int;
    let tl = t.len() as int;
    lemma_share_count(l, s, b);
    lemma_concat_strips(t, b as nat);
    assert(l <= b * s) by (nonlinear_arith)
        requires
            1 <= s,
            0 <= l,
            b == l / s + if l % s != 0 {
                1int
            } else {
                0int
            },
    ;
    assert(tl / b <= s) by (nonlinear_arith)
        requires
            1 <= b,
            1 <= s,
            l <= b * s,
            tl == l + pad,
            0 <= pad < b,
            tl % b == 0,
    ;
    let parts = split_data_spec(t, b as nat);
    let frags = split_message_spec(m, nonce, d);
    assert forall|i: int| 0 <= i < frags.len() implies (#[trigger] frags[i]).len() == FIELDS_LEN + tl / b by {
        if b == 1 {
            assert(tl / 1 == tl);
        } else {
            let rows = strips(t, b as nat);
            assert(rows[0].len() == tl / b);
            if i < b {
                assert(parts[i] == rows[i]);
            } else {
                assert(parts[i] == rs_parity(rows, (b - 1) as nat)[i - b]);
            }
        }
        assert(parts[i].len() == tl / b);
    }
    if tl == b * s {
        assert(tl / b == s) by (nonlinear_arith)
            requires
                1 <= b,
                tl == b * s,
        ;
    }
}

/// Rebuild a message from a list of shares: the padded payload that they
/// rebuild must hash to `message_id`.
pub fn unite_message(message_id: &[u8; MESSAGE_ID_LEN], data_shares: &[DataShare]) -> (r: Result<
    Vec<u8>,
    (),
>)
    ensures
        r is Err <==> unite_message_spec(message_id@, share_views(data_shares@)) is None,
        r matches Ok(v) ==> unite_message_spec(message_id@, share_views(data_shares@)) == Some(v@),
        forall|m: Seq<u8>, nonce: Seq<u8>, d: int|
            #[trigger] shares_of_split(message_id@, share_views(data_shares@), m, nonce, d) ==> (r matches Ok(
                v,
            ) && v@ == m),
{
    let ghost views = share_views(data_shares@);
    assert forall|m: Seq<u8>, nonce: Seq<u8>, d: int|
        #[trigger] shares_of_split(message_id@, views, m, nonce, d) implies views.len() >= 1 && (
        views.len() == 1 ==> unite_data_spec(views) == Some(padded_payload(m, nonce, d))) && (views.len() >= 2
        ==> decodable_from(views, strips(padded_payload(m, nonce, d), views.len()))) by {
        lemma_split_shares(message_id@, views, m, nonce, d);
        lemma_payload(m, nonce, d);
    }
    let b = data_shares.len();
    if b == 0 {
        return Err(());
    }
    let t = match unite_data(data_shares) {
        Ok(data) => data,
        Err(_) => {
            assert forall|m: Seq<u8>, nonce: Seq<u8>, d: int|
                #[trigger] shares_of_split(message_id@, views, m, nonce, d) implies false by {
                lemma_split_shares(message_id@, views, m, nonce, d);
            }
            return Err(());
        },
    };
    assert forall|m: Seq<u8>, nonce: Seq<u8>, d: int|
        #[trigger] shares_of_split(message_id@, views, m, nonce, d) implies t@ == padded_payload(m, nonce, d) && unite_message_spec(message_id@, views) == Some(m) by {
        lemma_split_shares(message_id@, views, m, nonce, d);
    }
    let c_message_id = short_hash(t.as_slice());
    if !same_bytes(message_id, &c_message_id) {
        return Err(());
    }
    if t.len() < NONCE_LEN + 1 {
        return Err(());
    }
    let padding_count = t[NONCE_LEN] as usize;
    if NONCE_LEN + 1 + padding_count > t.len() {
        return Err(());
    }
    let m = copy_range(t.as_slice(), NONCE_LEN + 1, t.len() - padding_count);
    Ok(m)
}

/// The trailer of `f` is the short hash of all bytes before it.
pub open spec fn hash_matches(f: Seq<u8>) -> bool {
    &&& f.len() >= SHORT_HASH_LEN
    &&& short_hash_spec(f.subrange(0, f.len() - 8)) == f.subrange(f.len() - 8, f.len() as int)
}

/// Check the short hash trailer of a fragment.
pub fn verify_frag_message(frag_message: &[u8]) -> (r: bool)
    ensures
        r == hash_matches(frag_message@),
{
    if frag_message.len() < SHORT_HASH_LEN {
        false
    } else {
        let n = frag_message.len();
        let hashed_content = copy_range(frag_message, 0, n - SHORT_HASH_LEN);
        let hash_output = short_hash(hashed_content.as_slice());
        let trailer = copy_range(frag_message, n - SHORT_HASH_LEN, n);
        same_bytes(&hash_output, trailer.as_slice())
    }
}

/// A fragment whose trailer matches and whose header is consistent:
/// `b >= 1` and `share_index < 2b - 1`.
pub open spec fn fragment_ok(f: Seq<u8>) -> bool {
    &&& f.len() >= FIELDS_LEN
    &&& hash_matches(f)
    &&& f[8] >= 1
    &&& f[9] < 2 * f[8] - 1
}

/// The fields of a fragment.
pub struct Fragment {
    pub message_id: [u8; MESSAGE_ID_LEN],
    pub b: u8,
    pub share_index: u8,
    pub share_data: Vec<u8>,
}

/// Parse a fragment, after checking its trailer: `None` when the trailer does
/// not match, the fragment is too short, or its header is inconsistent.
pub fn parse_fragment(frag: &[u8]) -> (r: Option<Fragment>)
    ensures
        r is Some <==> fragment_ok(frag@),
        r matches Some(p) ==> {
            &&& p.message_id@ == frag@.subrange(0, 8)
            &&& p.b == frag@[8]
            &&& p.share_index == frag@[9]
            &&& p.share_data@ == frag@.subrange(10, frag@.len() - 8)
        },
{
    if frag.len() < FIELDS_LEN || !verify_frag_message(frag) {
        return None;
    }
    let b = frag[MESSAGE_ID_LEN];
    let share_index = frag[MESSAGE_ID_LEN + 1];
    if b < 1 || share_index as usize >= 2 * (b as usize) - 1 {
        return None;
    }
    let message_id = [frag[0], frag[1], frag[2], frag[3], frag[4], frag[5], frag[6], frag[7]];
    assert(message_id@ =~= frag@.subrange(0, 8));
    let share_data = copy_range(frag, MESSAGE_ID_LEN + 2, frag.len() - ECC_LEN);
    Some(Fragment { message_id, b, share_index, share_data })
}

} // verus!
