use vstd::prelude::*;

verus! {

#[verifier::external_type_specification]
#[verifier::external_body]
pub struct ExRsError(reed_solomon_erasure::Error);

/// Byte `col` of parity shard `row` that Reed-Solomon coding over GF(2^8)
/// computes from the data shards `data` (all of one length), with
/// `parity_count` parity shards.
pub uninterp spec fn rs_parity_byte(data: Seq<Seq<u8>>, parity_count: nat, row: int, col: int) -> u8;

/// The parity shards computed from `data`, each as long as a data shard.
pub open spec fn rs_parity(data: Seq<Seq<u8>>, parity_count: nat) -> Seq<Seq<u8>> {
    Seq::new(
        parity_count,
        |i: int| Seq::new(data[0].len(), |j: int| rs_parity_byte(data, parity_count, i, j)),
    )
}

/// All shards that Reed-Solomon decoding rebuilds from the shards present in
/// `slots`, for a code of `data_count` data and `parity_count` parity shards.
pub uninterp spec fn rs_reconstructed(
    slots: Seq<Option<Seq<u8>>>,
    data_count: nat,
    parity_count: nat,
) -> Seq<Seq<u8>>;

/// The byte contents of each vector.
pub open spec fn rows(s: Seq<Vec<u8>>) -> Seq<Seq<u8>> {
    Seq::new(s.len(), |i: int| s[i]@)
}

/// The byte contents of each present vector.
pub open spec fn opt_rows(s: Seq<Option<Vec<u8>>>) -> Seq<Option<Seq<u8>>> {
    Seq::new(
        s.len(),
        |i: int|
            match s[i] {
                Some(v) => Some(v@),
                None => None,
            },
    )
}

/// Every row has length `len`.
pub open spec fn uniform(rows: Seq<Seq<u8>>, len: nat) -> bool {
    forall|i: int| 0 <= i < rows.len() ==> #[trigger] rows[i].len() == len
}

/// Data shards followed by the parity shards computed from them.
pub open spec fn codeword(data: Seq<Seq<u8>>, parity_count: nat) -> Seq<Seq<u8>> {
    data + rs_parity(data, parity_count)
}

/// Number of present slots.
pub open spec fn present_count(slots: Seq<Option<Seq<u8>>>) -> nat
    decreases slots.len(),
{
    if slots.len() == 0 {
        0
    } else {
        present_count(slots.drop_last()) + if slots.last() is Some {
            1nat
        } else {
            0nat
        }
    }
}

/// All present slots hold non-empty shards of one length.
pub open spec fn present_sizes_ok(slots: Seq<Option<Seq<u8>>>) -> bool {
    forall|i: int, j: int|
        0 <= i < slots.len() && 0 <= j < slots.len() && slots[i] is Some && slots[j] is Some ==> {
            &&& (#[trigger] slots[i])->0.len() > 0
            &&& slots[i]->0.len() == (#[trigger] slots[j])->0.len()
        }
}

/// Each present slot holds the shard of `full` at its index.
pub open spec fn agrees(slots: Seq<Option<Seq<u8>>>, full: Seq<Seq<u8>>) -> bool {
    &&& slots.len() == full.len()
    &&& forall|i: int| 0 <= i < slots.len() && (#[trigger] slots[i]) is Some ==> slots[i]->0 == full[i]
}

/// Relies on `reed_solomon_erasure::galois_8::ReedSolomon::new` (which fails
/// only for zero data or parity shards, or more than 256 in all) and on its
/// `encode`, which checks the shard count and sizes and then overwrites the
/// parity shards with the parity of the data shards.
#[verifier::external_body]
fn rs_encode(data_count: usize, parity_count: usize, shards: &mut Vec<Vec<u8>>) -> (r: Result<
    (),
    reed_solomon_erasure::Error,
>)
    requires
        1 <= data_count,
        1 <= parity_count,
        data_count + parity_count <= 256,
        old(shards)@.len() == data_count + parity_count,
        uniform(rows(old(shards)@), old(shards)@[0]@.len()),
    ensures
        r is Ok <==> old(shards)@[0]@.len() > 0,
        final(shards)@.len() == old(shards)@.len(),
        r is Ok ==> forall|i: int| 0 <= i < data_count ==> (#[trigger] final(shards)@[i])@ == old(shards)@[i]@,
        r is Ok ==> uniform(rows(final(shards)@), old(shards)@[0]@.len()),
        r is Ok ==> forall|i: int, j: int|
            0 <= i < parity_count && 0 <= j < old(shards)@[0]@.len() ==> (#[trigger] final(shards)@[data_count + i]@[j])
                == rs_parity_byte(rows(old(shards)@).take(data_count as int), parity_count as nat, i, j),
        r is Err ==> final(shards)@ == old(shards)@,
{
    let rs = match reed_solomon_erasure::galois_8::ReedSolomon::new(data_count, parity_count) {
        Ok(rs) => rs,
        Err(e) => return Err(e),
    };
    rs.encode(shards)
}

/// Relies on `reed_solomon_erasure::galois_8::ReedSolomon::new` and on its
/// `reconstruct`: it fails, touching nothing, unless the present shards are
/// non-empty, of one length and at least `data_count`; otherwise it fills every
/// missing shard. Since any `data_count` shards of a codeword determine it, a
/// codeword that the present shards agree with is what comes out.
#[verifier::external_body]
fn rs_reconstruct(data_count: usize, parity_count: usize, shards: &mut Vec<Option<Vec<u8>>>) -> (r:
    Result<(), reed_solomon_erasure::Error>)
    requires
        1 <= data_count,
        1 <= parity_count,
        data_count + parity_count <= 256,
        old(shards)@.len() == data_count + parity_count,
    ensures
        r is Ok <==> present_sizes_ok(opt_rows(old(shards)@)) && present_count(
            opt_rows(old(shards)@),
        ) >= data_count,
        r is Ok ==> rs_reconstructed(opt_rows(old(shards)@), data_count as nat, parity_count as nat).len()
            == old(shards)@.len(),
        r is Ok ==> final(shards)@.len() == old(shards)@.len() && (forall|i: int|
            0 <= i < final(shards)@.len() ==> (#[trigger] final(shards)@[i]) is Some),
        r is Ok ==> forall|i: int|
            0 <= i < final(shards)@.len() ==> (#[trigger] opt_rows(final(shards)@)[i]) == Some(
                rs_reconstructed(opt_rows(old(shards)@), data_count as nat, parity_count as nat)[i],
            ),
        r is Ok ==> forall|d: Seq<Seq<u8>>|
            d.len() == data_count && uniform(d, d[0].len()) && agrees(
                opt_rows(old(shards)@),
                #[trigger] codeword(d, parity_count as nat),
            ) ==> rs_reconstructed(opt_rows(old(shards)@), data_count as nat, parity_count as nat)
                == codeword(d, parity_count as nat),
        r is Err ==> final(shards)@ == old(shards)@,
{
    let rs = match reed_solomon_erasure::galois_8::ReedSolomon::new(data_count, parity_count) {
        Ok(rs) => rs,
        Err(e) => return Err(e),
    };
    rs.reconstruct(shards)
}

/// One erasure-coded share: its index and its bytes.
#[derive(Debug, PartialEq, Eq, PartialOrd, Ord)]
pub struct DataShare {
    pub input: u8,
    pub data: Vec<u8>,
}

impl View for DataShare {
    type V = (u8, Seq<u8>);

    open spec fn view(&self) -> (u8, Seq<u8>) {
        (self.input, self.data@)
    }
}

/// The views of a sequence of shares.
pub open spec fn share_views(s: Seq<DataShare>) -> Seq<(u8, Seq<u8>)> {
    Seq::new(s.len(), |i: int| s[i]@)
}

#[derive(Debug)]
pub enum SplitDataError {
    NumBlocksIsZero,
    NumBlocksTooLarge,
    ReedSolomonEncodeFailed(reed_solomon_erasure::Error),
}

#[derive(Debug)]
pub enum UniteDataError {
    NumBlocksIsZero,
    NumBlocksTooLarge,
    InvalidShareIndex,
    ReedSolomonDecodeFailed(reed_solomon_erasure::Error),
}

/// Length of each of `b` equal strips that hold `len` bytes.
pub open spec fn block_size(len: nat, b: nat) -> nat {
    ((len + b - 1) / (b as int)) as nat
}

/// `data` followed by zeros up to `b` strips of `block_size(|data|, b)`.
pub open spec fn padded_data(data: Seq<u8>, b: nat) -> Seq<u8> {
    data + Seq::new((b * block_size(data.len(), b) - data.len()) as nat, |i: int| 0u8)
}

/// `data`, zero-padded, cut into `b` strips of equal length.
pub open spec fn strips(data: Seq<u8>, b: nat) -> Seq<Seq<u8>> {
    let bs = block_size(data.len(), b);
    Seq::new(b, |i: int| padded_data(data, b).subrange(i * bs, (i + 1) * bs))
}

/// The `2b - 1` shares of `data`: `b` strips, then `b - 1` parity shards.
pub open spec fn split_data_spec(data: Seq<u8>, b: nat) -> Seq<Seq<u8>> {
    if b == 1 {
        seq![data]
    } else {
        codeword(strips(data, b), (b - 1) as nat)
    }
}

/// Shares numbered from zero, as `split_data` returns them.
pub open spec fn numbered(s: Seq<DataShare>, shards: Seq<Seq<u8>>) -> bool {
    &&& s.len() == shards.len()
    &&& forall|i: int| 0 <= i < s.len() ==> (#[trigger] s[i]).input == i && s[i].data@ == shards[i]
}

proof fn lemma_strip_bounds(i: int, j: int, bs: int, b: int)
    requires
        0 <= i < b,
        0 <= j < bs,
    ensures
        0 <= i * bs + j < b * bs,
        i * bs + j < (i + 1) * bs,
        i * bs <= i * bs + j,
        (i + 1) * bs <= b * bs,
{
    assert(i * bs + j < b * bs) by (nonlinear_arith)
        requires
            0 <= i < b,
            0 <= j < bs,
    ;
    assert((i + 1) * bs <= b * bs) by (nonlinear_arith)
        requires
            0 <= i < b,
            0 <= j < bs,
    ;
    assert(0 <= i * bs) by (nonlinear_arith)
        requires
            0 <= i,
            0 <= bs,
    ;
    assert(i * bs + bs == (i + 1) * bs) by (nonlinear_arith);
}

proof fn lemma_row_bounds(i: int, bs: int, b: int)
    requires
        0 <= i < b,
        0 <= bs,
    ensures
        0 <= i * bs,
        i * bs + bs == (i + 1) * bs,
        (i + 1) * bs <= b * bs,
{
    assert((i + 1) * bs <= b * bs) by (nonlinear_arith)
        requires
            0 <= i < b,
            0 <= bs,
    ;
    assert(0 <= i * bs) by (nonlinear_arith)
        requires
            0 <= i,
            0 <= bs,
    ;
    assert(i * bs + bs == (i + 1) * bs) by (nonlinear_arith);
}

proof fn lemma_block_size(len: nat, b: nat)
    requires
        b >= 1,
    ensures
        len <= b * block_size(len, b),
        len > 0 ==> block_size(len, b) > 0,
        len == 0 ==> block_size(len, b) == 0,
        b * block_size(len, b) < len + b,
{
    let bs = block_size(len, b);
    assert(len > 0 ==> bs > 0) by (nonlinear_arith)
        requires
            b >= 1,
            bs == (len + b - 1) / (b as int),
    ;
    assert(len == 0 ==> bs == 0) by (nonlinear_arith)
        requires
            b >= 1,
            bs == (len + b - 1) / (b as int),
    ;
    assert(len <= b * bs && b * bs < len + b) by (nonlinear_arith)
        requires
            b >= 1,
            bs == (len + b - 1) / (b as int),
    ;
}

/// Split `data` into `2b - 1` shares, of which any `b` rebuild it.
/// The strips are zero-padded to a common length when `b` does not divide
/// the length of `data`.
pub fn split_data(data: &[u8], b: u8) -> (r: Result<Vec<DataShare>, SplitDataError>)
    requires
        data@.len() + 256 <= usize::MAX,
    ensures
        match r {
            Ok(s) => 1 <= b <= 128 && (b == 1 || data@.len() > 0) && numbered(
                s@,
                split_data_spec(data@, b as nat),
            ),
            Err(SplitDataError::NumBlocksIsZero) => b == 0,
            Err(SplitDataError::NumBlocksTooLarge) => b > 128,
            Err(SplitDataError::ReedSolomonEncodeFailed(_)) => 2 <= b <= 128 && data@.len() == 0,
        },
{
    let num_blocks = b as usize;
    if num_blocks == 0 {
        return Err(SplitDataError::NumBlocksIsZero);
    }
    if 2 * num_blocks - 1 > 256 {
        return Err(SplitDataError::NumBlocksTooLarge);
    }
    if num_blocks == 1 {
        let whole = crate::bytes::copy_range(data, 0, data.len());
        assert(data@.subrange(0, data@.len() as int) =~= data@);
        let r = vec![DataShare { input: 0, data: whole }];
        assert(numbered(r@, split_data_spec(data@, 1)));
        return Ok(r);
    }
    let len = data.len();
    let bsize: usize = (len + (num_blocks - 1)) / num_blocks;
    assert(len + 256 <= usize::MAX);
    proof {
        lemma_block_size(len as nat, num_blocks as nat);
    }
    let ghost bs = bsize as int;
    let ghost n = num_blocks as int;
    let ghost padded = padded_data(data@, num_blocks as nat);
    assert(bsize == block_size(len as nat, num_blocks as nat));
    assert(padded.len() == n * bs);

    let mut shards: Vec<Vec<u8>> = Vec::new();
    let mut i: usize = 0;
    while i < num_blocks
        invariant
            2 <= num_blocks <= 128,
            n == num_blocks,
            bs == bsize,
            len == data@.len(),
            n * bs < len + n,
            len <= n * bs,
            padded == padded_data(data@, num_blocks as nat),
            padded.len() == n * bs,
            len + 256 <= usize::MAX,
            bs == block_size(len as nat, num_blocks as nat),
            i <= num_blocks,
            shards@.len() == i,
            forall|k: int| 0 <= k < i ==> (#[trigger] shards@[k])@ == strips(data@, num_blocks as nat)[k],
            forall|k: int| 0 <= k < i ==> (#[trigger] shards@[k])@.len() == bs,
        decreases num_blocks - i,
    {
        proof {
            lemma_row_bounds(i as int, bs, n);
        }
        let mut cur: Vec<u8> = Vec::with_capacity(bsize);
        let mut j: usize = 0;
        while j < bsize
            invariant
                2 <= num_blocks <= 128,
                n == num_blocks,
                bs == bsize,
                len == data@.len(),
                n * bs < len + n,
                padded == padded_data(data@, num_blocks as nat),
                padded.len() == n * bs,
                i < num_blocks,
                len + 256 <= usize::MAX,
                bs == block_size(len as nat, num_blocks as nat),
                0 <= i * bs,
                i * bs + bs <= n * bs,
                j <= bsize,
                cur@ == padded.subrange(i * bs, i * bs + j),
            decreases bsize - j,
        {
            proof {
                lemma_strip_bounds(i as int, j as int, bs, n);
            }
            let idx = i * bsize + j;
            let byte: u8 = if idx < len {
                data[idx]
            } else {
                0
            };
            cur.push(byte);
            j = j + 1;
            assert(cur@ =~= padded.subrange(i * bs, i * bs + j));
        }
        assert(strips(data@, num_blocks as nat)[i as int] == padded.subrange(i * bs, (i + 1) * bs));
        assert(cur@ == strips(data@, num_blocks as nat)[i as int]);
        shards.push(cur);
        i = i + 1;
    }
    let mut k: usize = 0;
    while k < num_blocks - 1
        invariant
            2 <= num_blocks <= 128,
            shards@.len() == num_blocks + k,
            k <= num_blocks - 1,
            forall|m: int| 0 <= m < num_blocks ==> (#[trigger] shards@[m])@ == strips(data@, num_blocks as nat)[m],
            forall|m: int| 0 <= m < num_blocks + k ==> (#[trigger] shards@[m])@.len() == bsize,
        decreases num_blocks - 1 - k,
    {
        shards.push(vec![0u8; bsize]);
        k = k + 1;
    }
    let ghost strip_rows = strips(data@, num_blocks as nat);
    assert(rows(shards@).take(n) =~= strip_rows);
    assert(uniform(rows(shards@), shards@[0]@.len()));
    match rs_encode(num_blocks, num_blocks - 1, &mut shards) {
        Ok(()) => {},
        Err(e) => {
            return Err(SplitDataError::ReedSolomonEncodeFailed(e));
        },
    }
    let ghost coded = rows(shards@);
    assert(coded =~= split_data_spec(data@, b as nat)) by {
        assert forall|q: int| num_blocks <= q < 2 * num_blocks - 1 implies #[trigger] coded[q]
            =~= split_data_spec(data@, b as nat)[q] by {
            assert(coded[q].len() == bsize);
            assert(strip_rows[0].len() == bsize);
            assert forall|c: int| 0 <= c < bsize implies coded[q][c] == split_data_spec(data@, b as nat)[q][c] by {
                assert(shards@[num_blocks + (q - num_blocks)]@[c] == coded[q][c]);
            }
        }
    }
    let mut out: Vec<DataShare> = Vec::with_capacity(shards.len());
    let mut m: usize = 0;
    while m < shards.len()
        invariant
            2 <= num_blocks <= 128,
            coded == rows(shards@),
            shards@.len() == 2 * num_blocks - 1,
            m <= shards@.len(),
            out@.len() == m,
            forall|q: int| 0 <= q < m ==> (#[trigger] out@[q]).input == q && out@[q].data@ == coded[q],
        decreases shards@.len() - m,
    {
        let data_m = crate::bytes::copy_range(shards[m].as_slice(), 0, shards[m].len());
        assert(shards@[m as int]@.subrange(0, shards@[m as int]@.len() as int) =~= shards@[m as int]@);
        out.push(DataShare { input: m as u8, data: data_m });
        m = m + 1;
    }
    assert(numbered(out@, split_data_spec(data@, b as nat)));
    Ok(out)
}


/// `total` slots holding each share at its index; of two shares at one index
/// the later one stays.
pub open spec fn placed(shares: Seq<(u8, Seq<u8>)>, total: nat) -> Seq<Option<Seq<u8>>>
    decreases shares.len(),
{
    if shares.len() == 0 {
        Seq::new(total, |i: int| None)
    } else {
        placed(shares.drop_last(), total).update(shares.last().0 as int, Some(shares.last().1))
    }
}

/// The rows, one after the other.
pub open spec fn concat(rows: Seq<Seq<u8>>) -> Seq<u8>
    decreases rows.len(),
{
    if rows.len() == 0 {
        Seq::empty()
    } else {
        concat(rows.drop_last()) + rows.last()
    }
}

/// Every share index is below `total`.
pub open spec fn indices_below(shares: Seq<(u8, Seq<u8>)>, total: nat) -> bool {
    forall|i: int| 0 <= i < shares.len() ==> (#[trigger] shares[i]).0 < total
}

/// The slots that decoding starts from when `n >= 2` shares are united.
pub open spec fn unite_slots(shares: Seq<(u8, Seq<u8>)>) -> Seq<Option<Seq<u8>>> {
    placed(shares, (2 * shares.len() - 1) as nat)
}

/// Whether decoding succeeds on the slots of `n >= 2` shares.
pub open spec fn unite_decodes(shares: Seq<(u8, Seq<u8>)>) -> bool {
    let n = shares.len();
    &&& indices_below(shares, (2 * n - 1) as nat)
    &&& present_sizes_ok(unite_slots(shares))
    &&& present_count(unite_slots(shares)) >= n
}

/// What `unite_data` returns on success: the data shares (the first `n` of
/// the `2n - 1`), rebuilt from the `n` given shares and joined.
pub open spec fn unite_data_spec(shares: Seq<(u8, Seq<u8>)>) -> Option<Seq<u8>> {
    let n = shares.len();
    if n == 0 || n > 128 {
        None
    } else if n == 1 {
        Some(shares[0].1)
    } else if unite_decodes(shares) {
        Some(
            concat(
                rs_reconstructed(unite_slots(shares), n, (n - 1) as nat).take(n as int),
            ),
        )
    } else {
        None
    }
}

/// No two shares carry the same index.
pub open spec fn distinct_indices(shares: Seq<(u8, Seq<u8>)>) -> bool {
    forall|i: int, j: int|
        0 <= i < shares.len() && 0 <= j < shares.len() && i != j ==> (#[trigger] shares[i]).0
            != (#[trigger] shares[j]).0
}

/// Each share is the shard of `full` at its index.
pub open spec fn shares_agree(shares: Seq<(u8, Seq<u8>)>, full: Seq<Seq<u8>>) -> bool {
    forall|q: int|
        0 <= q < shares.len() ==> (#[trigger] shares[q]).0 < full.len() && shares[q].1
            == full[shares[q].0 as int]
}

/// The `n >= 2` shares are `n` distinct shares of the codeword whose data
/// shards are `d` (non-empty, of one length).
pub open spec fn decodable_from(shares: Seq<(u8, Seq<u8>)>, d: Seq<Seq<u8>>) -> bool {
    &&& 2 <= shares.len() <= 128
    &&& d.len() == shares.len()
    &&& d[0].len() > 0
    &&& uniform(d, d[0].len())
    &&& distinct_indices(shares)
    &&& shares_agree(shares, codeword(d, (shares.len() - 1) as nat))
}

pub proof fn lemma_present_count_empty(n: nat)
    ensures
        present_count(Seq::new(n, |i: int| None::<Seq<u8>>)) == 0,
    decreases n,
{
    if n > 0 {
        assert(Seq::new(n, |i: int| None::<Seq<u8>>).drop_last() =~= Seq::new(
            (n - 1) as nat,
            |i: int| None::<Seq<u8>>,
        ));
        lemma_present_count_empty((n - 1) as nat);
    }
}

pub proof fn lemma_present_count_fill(slots: Seq<Option<Seq<u8>>>, i: int, d: Seq<u8>)
    requires
        0 <= i < slots.len(),
        slots[i] is None,
    ensures
        present_count(slots.update(i, Some(d))) == present_count(slots) + 1,
    decreases slots.len(),
{
    let t = slots.update(i, Some(d));
    if i == slots.len() - 1 {
        assert(t.drop_last() =~= slots.drop_last());
    } else {
        assert(t.drop_last() =~= slots.drop_last().update(i, Some(d)));
        lemma_present_count_fill(slots.drop_last(), i, d);
    }
}

proof fn lemma_placed_len(s: Seq<(u8, Seq<u8>)>, total: nat)
    requires
        indices_below(s, total),
    ensures
        placed(s, total).len() == total,
    decreases s.len(),
{
    if s.len() > 0 {
        assert(s[s.len() - 1] == s.last());
        lemma_placed_len(s.drop_last(), total);
    }
}

proof fn lemma_placed_none(s: Seq<(u8, Seq<u8>)>, total: nat, j: int)
    requires
        0 <= j < total,
        indices_below(s, total),
        forall|q: int| 0 <= q < s.len() ==> (#[trigger] s[q]).0 != j,
    ensures
        placed(s, total)[j] is None,
    decreases s.len(),
{
    lemma_placed_len(s, total);
    if s.len() > 0 {
        let r = s.drop_last();
        assert forall|q: int| 0 <= q < r.len() implies (#[trigger] r[q]).0 != j && r[q].0 < total by {
            assert(s[q] == r[q]);
        }
        lemma_placed_none(r, total, j);
        lemma_placed_len(r, total);
        assert(s[s.len() - 1].0 != j);
        assert(s[s.len() - 1] == s.last());
    }
}

proof fn lemma_placed_count(s: Seq<(u8, Seq<u8>)>, total: nat)
    requires
        distinct_indices(s),
        indices_below(s, total),
    ensures
        present_count(placed(s, total)) == s.len(),
    decreases s.len(),
{
    if s.len() == 0 {
        lemma_present_count_empty(total);
    } else {
        let r = s.drop_last();
        let last = s.last();
        assert(distinct_indices(r));
        assert(indices_below(r, total));
        lemma_placed_count(r, total);
        lemma_placed_len(r, total);
        assert forall|q: int| 0 <= q < r.len() implies (#[trigger] r[q]).0 != last.0 by {
            assert(s[q] == r[q]);
            assert(s[s.len() - 1] == last);
        }
        assert(s[s.len() - 1] == last);
        lemma_placed_none(r, total, last.0 as int);
        lemma_present_count_fill(placed(r, total), last.0 as int, last.1);
    }
}

proof fn lemma_placed_agrees(s: Seq<(u8, Seq<u8>)>, full: Seq<Seq<u8>>)
    requires
        shares_agree(s, full),
    ensures
        agrees(placed(s, full.len()), full),
    decreases s.len(),
{
    assert(indices_below(s, full.len()));
    lemma_placed_len(s, full.len());
    if s.len() > 0 {
        let r = s.drop_last();
        assert(shares_agree(r, full)) by {
            assert forall|q: int| 0 <= q < r.len() implies (#[trigger] r[q]).0 < full.len() && r[q].1
                == full[r[q].0 as int] by {
                assert(s[q] == r[q]);
            }
        }
        lemma_placed_agrees(r, full);
        assert(s[s.len() - 1] == s.last());
    }
}

proof fn lemma_decodable(shares: Seq<(u8, Seq<u8>)>, d: Seq<Seq<u8>>)
    requires
        decodable_from(shares, d),
    ensures
        unite_decodes(shares),
        agrees(unite_slots(shares), codeword(d, (shares.len() - 1) as nat)),
{
    let n = shares.len();
    let full = codeword(d, (n - 1) as nat);
    assert(full.len() == 2 * n - 1);
    assert(indices_below(shares, (2 * n - 1) as nat)) by {
        assert forall|q: int| 0 <= q < shares.len() implies (#[trigger] shares[q]).0 < (2 * n - 1) as nat by {
            assert(shares_agree(shares, full));
        }
    }
    lemma_placed_agrees(shares, full);
    lemma_placed_count(shares, (2 * n - 1) as nat);
    let slots = unite_slots(shares);
    assert(uniform(full, d[0].len()));
    assert forall|i: int, j: int|
        0 <= i < slots.len() && 0 <= j < slots.len() && slots[i] is Some && slots[j] is Some implies {
        &&& (#[trigger] slots[i])->0.len() > 0
        &&& slots[i]->0.len() == (#[trigger] slots[j])->0.len()
    } by {
        assert(slots[i]->0 == full[i]);
        assert(slots[j]->0 == full[j]);
    }
}

/// Rebuild the data from `b` shares (`b` being their number), possibly with
/// trailing zero padding.
pub fn unite_data(data_shares: &[DataShare]) -> (r: Result<Vec<u8>, UniteDataError>)
    ensures
        match r {
            Ok(v) => unite_data_spec(share_views(data_shares@)) == Some(v@),
            Err(UniteDataError::NumBlocksIsZero) => data_shares@.len() == 0,
            Err(UniteDataError::NumBlocksTooLarge) => data_shares@.len() > 128,
            Err(UniteDataError::InvalidShareIndex) => 2 <= data_shares@.len() <= 128
                && !indices_below(share_views(data_shares@), (2 * data_shares@.len() - 1) as nat),
            Err(UniteDataError::ReedSolomonDecodeFailed(_)) => 2 <= data_shares@.len() <= 128
                && indices_below(share_views(data_shares@), (2 * data_shares@.len() - 1) as nat)
                && !unite_decodes(share_views(data_shares@)),
        },
        r is Err <==> unite_data_spec(share_views(data_shares@)) is None,
        forall|d: Seq<Seq<u8>>|
            #[trigger] decodable_from(share_views(data_shares@), d) ==> (r matches Ok(v) && v@
                == concat(d)),
{
    let ghost views = share_views(data_shares@);
    let num_blocks = data_shares.len();
    if num_blocks == 0 {
        return Err(UniteDataError::NumBlocksIsZero);
    }
    if num_blocks > 128 {
        return Err(UniteDataError::NumBlocksTooLarge);
    }
    if num_blocks == 1 {
        let d = crate::bytes::copy_range(data_shares[0].data.as_slice(), 0, data_shares[0].data.len());
        assert(data_shares@[0].data@.subrange(0, data_shares@[0].data@.len() as int)
            =~= data_shares@[0].data@);
        return Ok(d);
    }
    let total = 2 * num_blocks - 1;
    let mut slots: Vec<Option<Vec<u8>>> = Vec::with_capacity(total);
    let mut k: usize = 0;
    while k < total
        invariant
            k <= total,
            slots@.len() == k,
            forall|q: int| 0 <= q < k ==> (#[trigger] slots@[q]) is None,
        decreases total - k,
    {
        slots.push(None);
        k = k + 1;
    }
    assert(opt_rows(slots@) =~= placed(views.take(0), total as nat));
    let mut i: usize = 0;
    while i < num_blocks
        invariant
            2 <= num_blocks <= 128,
            num_blocks == data_shares@.len(),
            views == share_views(data_shares@),
            total == 2 * num_blocks - 1,
            i <= num_blocks,
            slots@.len() == total,
            opt_rows(slots@) == placed(views.take(i as int), total as nat),
            indices_below(views.take(i as int), total as nat),
        decreases num_blocks - i,
    {
        let idx = data_shares[i].input as usize;
        if idx >= total {
            assert(views[i as int].0 >= total);
            assert forall|d: Seq<Seq<u8>>| #[trigger] decodable_from(views, d) implies false by {
                lemma_decodable(views, d);
            }
            return Err(UniteDataError::InvalidShareIndex);
        }
        let d = crate::bytes::copy_range(data_shares[i].data.as_slice(), 0, data_shares[i].data.len());
        assert(data_shares@[i as int].data@.subrange(0, data_shares@[i as int].data@.len() as int)
            =~= data_shares@[i as int].data@);
        slots.set(idx, Some(d));
        assert(views.take(i + 1).drop_last() =~= views.take(i as int));
        assert(opt_rows(slots@) =~= placed(views.take(i + 1), total as nat));
        i = i + 1;
    }
    assert(views.take(num_blocks as int) =~= views);
    let ghost start = opt_rows(slots@);
    match rs_reconstruct(num_blocks, num_blocks - 1, &mut slots) {
        Ok(()) => {},
        Err(e) => {
            assert forall|d: Seq<Seq<u8>>| #[trigger] decodable_from(views, d) implies false by {
                lemma_decodable(views, d);
            }
            return Err(UniteDataError::ReedSolomonDecodeFailed(e));
        },
    }
    assert(start == unite_slots(views));
    let ghost rebuilt = rs_reconstructed(start, num_blocks as nat, (num_blocks - 1) as nat);
    let mut res: Vec<u8> = Vec::new();
    let mut j: usize = 0;
    while j < num_blocks
        invariant
            2 <= num_blocks <= 128,
            j <= num_blocks,
            slots@.len() == 2 * num_blocks - 1,
            rebuilt.len() == slots@.len(),
            forall|q: int| 0 <= q < slots@.len() ==> (#[trigger] opt_rows(slots@)[q]) == Some(rebuilt[q]),
            res@ == concat(rebuilt.take(j as int)),
        decreases num_blocks - j,
    {
        assert(opt_rows(slots@)[j as int] == Some(rebuilt[j as int]));
        match &slots[j] {
            Some(v) => {
                crate::bytes::append_bytes(&mut res, v.as_slice());
            },
            None => {},
        }
        assert(rebuilt.take(j + 1).drop_last() =~= rebuilt.take(j as int));
        j = j + 1;
    }
    assert forall|d: Seq<Seq<u8>>| #[trigger] decodable_from(views, d) implies res@ == concat(d) by {
        lemma_decodable(views, d);
        assert(agrees(start, codeword(d, (num_blocks - 1) as nat)));
        assert(rebuilt == codeword(d, (num_blocks - 1) as nat));
        assert(rebuilt.take(num_blocks as int) =~= d);
    }
    Ok(res)
}

} // verus!
