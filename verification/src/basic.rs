//! Basic run-length encoding: `[(count, byte)]` pairs.
use vstd::prelude::*;

verus! {

/// A run-length pair: `(count, byte_value)`.
pub type RlePair = (usize, u8);

/// `n` copies of `b`.
pub open spec fn repeat(b: u8, n: nat) -> Seq<u8> {
    Seq::new(n, |_k: int| b)
}

/// The maximal runs of `data`, from first to last: each pair holds the length
/// of a run and the byte it repeats.
pub open spec fn runs(data: Seq<u8>) -> Seq<RlePair>
    decreases data.len(),
{
    if data.len() == 0 {
        seq![]
    } else {
        let prev = runs(data.drop_last());
        let b = data.last();
        if prev.len() > 0 && prev.last().1 == b {
            prev.update(prev.len() - 1, ((prev.last().0 + 1) as usize, b))
        } else {
            prev.push((1usize, b))
        }
    }
}

/// The bytes that a list of pairs stands for: each pair's byte, repeated its count.
pub open spec fn expand(pairs: Seq<RlePair>) -> Seq<u8>
    decreases pairs.len(),
{
    if pairs.len() == 0 {
        seq![]
    } else {
        expand(pairs.drop_last()) + repeat(pairs.last().1, pairs.last().0 as nat)
    }
}

/// The sum of the counts of `pairs`.
pub open spec fn total(pairs: Seq<RlePair>) -> nat
    decreases pairs.len(),
{
    if pairs.len() == 0 {
        0
    } else {
        total(pairs.drop_last()) + pairs.last().0 as nat
    }
}

/// Every count is at least one and no two neighbouring pairs repeat the same byte:
/// the form in which `encode` gives its pairs.
pub open spec fn is_run_list(pairs: Seq<RlePair>) -> bool {
    &&& forall|k: int| 0 <= k < pairs.len() ==> #[trigger] pairs[k].0 >= 1
    &&& forall|k: int, j: int|
        0 <= k && j == k + 1 && j < pairs.len() ==> #[trigger] pairs[k].1 != #[trigger] pairs[j].1
}

/// What `runs` gives is a run list that expands back to the data, with no more
/// pairs than bytes, each count at most the length, and the last byte last.
pub proof fn lemma_runs(data: Seq<u8>)
    requires
        data.len() <= usize::MAX,
    ensures
        is_run_list(runs(data)),
        expand(runs(data)) == data,
        runs(data).len() <= data.len(),
        forall|k: int| 0 <= k < runs(data).len() ==> #[trigger] runs(data)[k].0 <= data.len(),
        data.len() > 0 ==> runs(data).len() > 0 && runs(data).last().1 == data.last(),
    decreases data.len(),
{
    if data.len() > 0 {
        let d0 = data.drop_last();
        lemma_runs(d0);
        let prev = runs(d0);
        let b = data.last();
        if prev.len() > 0 && prev.last().1 == b {
            let c = prev.last().0;
            let r = runs(data);
            assert(r.drop_last() =~= prev.drop_last());
            assert(repeat(b, (c + 1) as nat) =~= repeat(b, c as nat).push(b));
            assert(expand(prev) == expand(prev.drop_last()) + repeat(b, c as nat));
            assert(data =~= d0.push(b));
            assert(expand(r) =~= data);
        } else {
            let r = runs(data);
            assert(r.drop_last() =~= prev);
            assert(repeat(b, 1) =~= seq![b]);
            assert(data =~= d0 + seq![b]);
        }
    }
}

/// Encode data into basic RLE pairs.
///
/// Consecutive identical bytes are grouped into `(count, byte)` pairs.
pub fn encode(data: &[u8]) -> (pairs: Vec<RlePair>)
    ensures
        pairs@ == runs(data@),
{
    if data.len() == 0 {
        return Vec::new();
    }
    let mut pairs: Vec<RlePair> = Vec::new();
    let mut current: u8 = data[0];
    let mut count: usize = 1;
    let mut i: usize = 1;
    proof {
        assert(data@.take(1).drop_last() =~= Seq::<u8>::empty());
        assert(data@.take(1).last() == data[0]);
        assert(runs(data@.take(1).drop_last()) =~= Seq::<RlePair>::empty());
        assert(pairs@.push((count, current)) =~= runs(data@.take(1)));
    }
    while i < data.len()
        invariant
            1 <= i <= data.len(),
            1 <= count <= i,
            pairs@.push((count, current)) == runs(data@.take(i as int)),
        decreases data.len() - i,
    {
        let byte = data[i];
        proof {
            assert(data@.take(i + 1).drop_last() =~= data@.take(i as int));
        }
        if byte == current {
            proof {
                let prev = pairs@.push((count, current));
                assert(prev.update(prev.len() - 1, ((count + 1) as usize, current))
                    =~= pairs@.push(((count + 1) as usize, current)));
            }
            count += 1;
        } else {
            pairs.push((count, current));
            current = byte;
            count = 1;
        }
        i += 1;
    }
    pairs.push((count, current));
    proof {
        assert(data@.take(data.len() as int) =~= data@);
    }
    pairs
}

/// `runs` of `x` followed by `k` copies of a byte that does not end `x`'s last run:
/// the runs of `x` with one run of `k` appended.
proof fn lemma_runs_append_repeat(x: Seq<u8>, b: u8, k: nat)
    requires
        1 <= k <= usize::MAX,
        runs(x).len() == 0 || runs(x).last().1 != b,
    ensures
        runs(x + repeat(b, k)) == runs(x).push((k as usize, b)),
    decreases k,
{
    let y = x + repeat(b, k);
    if k == 1 {
        assert(y.drop_last() =~= x);
    } else {
        lemma_runs_append_repeat(x, b, (k - 1) as nat);
        assert(y.drop_last() =~= x + repeat(b, (k - 1) as nat));
        let prev = runs(x).push(((k - 1) as usize, b));
        assert(prev.update(prev.len() - 1, (k as usize, b)) =~= runs(x).push((k as usize, b)));
    }
}

/// Encoding what a run list stands for gives that run list back: `encode`
/// inverts `decode` on every run list.
pub proof fn law_runs_of_expand(pairs: Seq<RlePair>)
    requires
        is_run_list(pairs),
    ensures
        runs(expand(pairs)) == pairs,
    decreases pairs.len(),
{
    if pairs.len() > 0 {
        let q = pairs.drop_last();
        let (c, b) = pairs.last();
        assert(is_run_list(q)) by {
            assert forall|k: int, j: int|
                0 <= k && j == k + 1 && j < q.len() implies #[trigger] q[k].1 != #[trigger] q[j].1 by {
                assert(q[k] == pairs[k] && q[j] == pairs[j]);
            }
            assert forall|k: int| 0 <= k < q.len() implies #[trigger] q[k].0 >= 1 by {
                assert(q[k] == pairs[k]);
            }
        }
        law_runs_of_expand(q);
        assert(pairs[pairs.len() - 1].0 >= 1);
        if q.len() > 0 {
            assert(pairs[q.len() - 1].1 != pairs[pairs.len() - 1].1);
        }
        lemma_runs_append_repeat(expand(q), b, c as nat);
        assert(q.push((c, b)) =~= pairs);
    }
}

/// The sum of the counts of a prefix is at most the sum of all counts.
proof fn lemma_total_prefix(pairs: Seq<RlePair>, n: int)
    requires
        0 <= n <= pairs.len(),
    ensures
        total(pairs.take(n)) <= total(pairs),
    decreases pairs.len(),
{
    if n < pairs.len() {
        assert(pairs.take(n) =~= pairs.drop_last().take(n));
        lemma_total_prefix(pairs.drop_last(), n);
    } else {
        assert(pairs.take(n) =~= pairs);
    }
}

/// Decode basic RLE pairs back into bytes.
pub fn decode(pairs: &[RlePair]) -> (out: Vec<u8>)
    requires
        total(pairs@) <= usize::MAX,
    ensures
        out@ == expand(pairs@),
{
    let mut sum: usize = 0;
    let mut i: usize = 0;
    while i < pairs.len()
        invariant
            i <= pairs.len(),
            sum == total(pairs@.take(i as int)),
            total(pairs@) <= usize::MAX,
        decreases pairs.len() - i,
    {
        proof {
            lemma_total_prefix(pairs@, i + 1);
            assert(pairs@.take(i + 1).drop_last() =~= pairs@.take(i as int));
        }
        sum = sum + pairs[i].0;
        i += 1;
    }
    let mut out: Vec<u8> = Vec::with_capacity(sum);
    let mut i: usize = 0;
    proof {
        assert(expand(pairs@.take(0)) =~= Seq::<u8>::empty());
    }
    while i < pairs.len()
        invariant
            i <= pairs.len(),
            out@ == expand(pairs@.take(i as int)),
        decreases pairs.len() - i,
    {
        let (count, byte) = pairs[i];
        let mut j: usize = 0;
        proof {
            assert(out@ =~= out@ + repeat(byte, 0));
        }
        while j < count
            invariant
                j <= count,
                out@ == expand(pairs@.take(i as int)) + repeat(byte, j as nat),
            decreases count - j,
        {
            out.push(byte);
            proof {
                assert(repeat(byte, (j + 1) as nat) =~= repeat(byte, j as nat).push(byte));
            }
            j += 1;
        }
        proof {
            assert(pairs@.take(i + 1).drop_last() =~= pairs@.take(i as int));
        }
        i += 1;
    }
    proof {
        assert(pairs@.take(pairs.len() as int) =~= pairs@);
    }
    out
}

/// The compact bytes of one run: chunks of at most 255, each as `[chunk, byte]`.
pub open spec fn compact_run(count: nat, b: u8) -> Seq<u8>
    decreases count,
{
    if count == 0 {
        seq![]
    } else if count > 255 {
        seq![255u8, b] + compact_run((count - 255) as nat, b)
    } else {
        seq![count as u8, b]
    }
}

/// The compact bytes of a list of pairs: the compact bytes of each run, in order.
pub open spec fn compact(pairs: Seq<RlePair>) -> Seq<u8>
    decreases pairs.len(),
{
    if pairs.len() == 0 {
        seq![]
    } else {
        compact(pairs.drop_last()) + compact_run(pairs.last().0 as nat, pairs.last().1)
    }
}

/// The pairs that compact bytes stand for, read two bytes at a time
/// (a last odd byte is not part of any pair).
pub open spec fn compact_pairs(bytes: Seq<u8>) -> Seq<RlePair> {
    Seq::new(bytes.len() / 2, |k: int| (bytes[2 * k] as usize, bytes[2 * k + 1]))
}

/// Encode into a compact byte format: `[count_byte, value_byte, ...]`.
///
/// Each run uses 2 bytes. Runs longer than 255 are split into multiple pairs.
pub fn encode_compact(data: &[u8]) -> (out: Vec<u8>)
    requires
        2 * runs(data@).len() <= usize::MAX,
    ensures
        out@ == compact(runs(data@)),
{
    let pairs = encode(data);
    let mut out: Vec<u8> = Vec::with_capacity(pairs.len() * 2);
    let mut i: usize = 0;
    proof {
        assert(compact(pairs@.take(0)) =~= Seq::<u8>::empty());
    }
    while i < pairs.len()
        invariant
            i <= pairs.len(),
            out@ == compact(pairs@.take(i as int)),
        decreases pairs.len() - i,
    {
        let (mut count, byte) = pairs[i];
        proof {
            assert(pairs@.take(i + 1).drop_last() =~= pairs@.take(i as int));
        }
        while count > 0
            invariant
                out@ + compact_run(count as nat, byte) == compact(pairs@.take(i + 1)),
            decreases count,
        {
            let chunk: usize = if count < 255 { count } else { 255 };
            let ghost before = out@;
            out.push(chunk as u8);
            out.push(byte);
            proof {
                assert(compact_run(count as nat, byte) =~= seq![chunk as u8, byte]
                    + compact_run((count - chunk) as nat, byte));
                assert(out@ =~= before + seq![chunk as u8, byte]);
            }
            count -= chunk;
        }
        proof {
            assert(out@ =~= out@ + compact_run(0, byte));
        }
        i += 1;
    }
    proof {
        assert(pairs@.take(pairs.len() as int) =~= pairs@);
    }
    out
}

/// Decode from compact byte format.
///
/// Returns `None` if the input has odd length (malformed).
pub fn decode_compact(data: &[u8]) -> (res: Option<Vec<u8>>)
    ensures
        match res {
            Some(v) => data@.len() % 2 == 0 && v@ == expand(compact_pairs(data@)),
            None => data@.len() % 2 == 1,
        },
{
    if data.len() % 2 != 0 {
        return None;
    }
    let ghost cp = compact_pairs(data@);
    let mut out: Vec<u8> = Vec::new();
    let mut i: usize = 0;
    let ghost mut k: int = 0;
    proof {
        assert(expand(cp.take(0)) =~= Seq::<u8>::empty());
    }
    while i < data.len()
        invariant
            data.len() % 2 == 0,
            cp == compact_pairs(data@),
            i == 2 * k,
            i <= data.len(),
            out@ == expand(cp.take(k)),
        decreases data.len() - i,
    {
        let count = data[i] as usize;
        let byte = data[i + 1];
        let mut j: usize = 0;
        proof {
            assert(out@ =~= out@ + repeat(byte, 0));
        }
        while j < count
            invariant
                j <= count,
                out@ == expand(cp.take(k)) + repeat(byte, j as nat),
            decreases count - j,
        {
            out.push(byte);
            proof {
                assert(repeat(byte, (j + 1) as nat) =~= repeat(byte, j as nat).push(byte));
            }
            j += 1;
        }
        proof {
            assert(cp.take(k + 1).drop_last() =~= cp.take(k));
            assert(cp[k] == (count, byte));
            k = k + 1;
        }
        i += 2;
    }
    proof {
        assert(cp.take(k) =~= cp);
    }
    Some(out)
}

/// Compute the compression ratio for basic RLE.
///
/// Returns `(encoded_size, original_size)` in bytes.
pub fn compression_ratio(data: &[u8]) -> (r: (usize, usize))
    requires
        2 * runs(data@).len() <= usize::MAX,
    ensures
        r.0 == 2 * runs(data@).len(),
        r.1 == data.len(),
{
    let pairs = encode(data);
    (pairs.len() * 2, data.len())
}

/// Count the number of runs in the data.
pub fn run_count(data: &[u8]) -> (r: usize)
    ensures
        r == runs(data@).len(),
{
    if data.len() == 0 {
        return 0;
    }
    let mut count: usize = 1;
    let mut i: usize = 1;
    proof {
        assert(data@.take(1).drop_last() =~= Seq::<u8>::empty());
        assert(runs(data@.take(1).drop_last()) =~= Seq::<RlePair>::empty());
    }
    while i < data.len()
        invariant
            1 <= i <= data.len(),
            count <= i,
            count == runs(data@.take(i as int)).len(),
        decreases data.len() - i,
    {
        proof {
            lemma_runs(data@.take(i as int));
            assert(data@.take(i + 1).drop_last() =~= data@.take(i as int));
        }
        if data[i] != data[i - 1] {
            count += 1;
        }
        i += 1;
    }
    proof {
        assert(data@.take(data.len() as int) =~= data@);
    }
    count
}

/// Expanding a concatenation expands each part.
pub proof fn lemma_expand_concat(p: Seq<RlePair>, q: Seq<RlePair>)
    ensures
        expand(p + q) == expand(p) + expand(q),
    decreases q.len(),
{
    if q.len() == 0 {
        assert(p + q =~= p);
        assert(expand(p) + expand(q) =~= expand(p));
    } else {
        lemma_expand_concat(p, q.drop_last());
        assert((p + q).drop_last() =~= p + q.drop_last());
        assert(expand(p + q) =~= expand(p) + expand(q));
    }
}

/// A single pair expands to its byte repeated its count.
proof fn lemma_expand_single(p: Seq<RlePair>)
    requires
        p.len() == 1,
    ensures
        expand(p) == repeat(p[0].1, p[0].0 as nat),
{
    assert(p.drop_last() =~= Seq::<RlePair>::empty());
    assert(expand(p.drop_last()) == Seq::<u8>::empty());
    assert(expand(p) =~= repeat(p[0].1, p[0].0 as nat));
}

/// Reading pairs from a concatenation whose first part has even length reads
/// the pairs of each part.
proof fn lemma_compact_pairs_concat(a: Seq<u8>, b: Seq<u8>)
    requires
        a.len() % 2 == 0,
    ensures
        compact_pairs(a + b) == compact_pairs(a) + compact_pairs(b),
{
    let l = compact_pairs(a + b);
    let r = compact_pairs(a) + compact_pairs(b);
    assert(l.len() == r.len());
    assert forall|k: int| 0 <= k < l.len() implies l[k] == r[k] by {
        if k < a.len() / 2 {
            assert((a + b)[2 * k] == a[2 * k]);
            assert((a + b)[2 * k + 1] == a[2 * k + 1]);
        } else {
            let m = k - a.len() / 2;
            assert((a + b)[2 * k] == b[2 * m]);
            assert((a + b)[2 * k + 1] == b[2 * m + 1]);
        }
    }
    assert(l =~= r);
}

/// The compact bytes of one run have even length and read back as that run.
proof fn lemma_compact_run(count: nat, b: u8)
    ensures
        compact_run(count, b).len() % 2 == 0,
        expand(compact_pairs(compact_run(count, b))) == repeat(b, count),
    decreases count,
{
    if count == 0 {
        assert(compact_pairs(compact_run(count, b)) =~= Seq::<RlePair>::empty());
        assert(repeat(b, 0) =~= Seq::<u8>::empty());
    } else if count > 255 {
        let rest = compact_run((count - 255) as nat, b);
        lemma_compact_run((count - 255) as nat, b);
        lemma_compact_pairs_concat(seq![255u8, b], rest);
        let head = compact_pairs(seq![255u8, b]);
        assert(head =~= seq![(255usize, b)]);
        lemma_expand_concat(head, compact_pairs(rest));
        lemma_expand_single(head);
        assert(repeat(b, 255) + repeat(b, (count - 255) as nat) =~= repeat(b, count));
    } else {
        let cp = compact_pairs(compact_run(count, b));
        assert(cp =~= seq![(count as usize, b)]);
        lemma_expand_single(cp);
    }
}

/// The compact bytes of any pair list have even length and read back as the
/// same bytes as the pairs themselves.
pub proof fn law_compact_preserves_expansion(pairs: Seq<RlePair>)
    ensures
        compact(pairs).len() % 2 == 0,
        expand(compact_pairs(compact(pairs))) == expand(pairs),
    decreases pairs.len(),
{
    if pairs.len() > 0 {
        let q = pairs.drop_last();
        let (c, b) = pairs.last();
        law_compact_preserves_expansion(q);
        lemma_compact_run(c as nat, b);
        lemma_compact_pairs_concat(compact(q), compact_run(c as nat, b));
        lemma_expand_concat(compact_pairs(compact(q)), compact_pairs(compact_run(c as nat, b)));
    } else {
        assert(compact_pairs(compact(pairs)) =~= Seq::<RlePair>::empty());
    }
}

/// Decoding the compact encoding of `data` gives `data` back: the compact
/// bytes have even length and read back as `data`.
pub proof fn law_compact_roundtrip(data: Seq<u8>)
    requires
        data.len() <= usize::MAX,
    ensures
        compact(runs(data)).len() % 2 == 0,
        expand(compact_pairs(compact(runs(data)))) == data,
{
    lemma_runs(data);
    law_compact_preserves_expansion(runs(data));
}

/// Appending a run of `n` copies of a byte that differs from the last byte of
/// `x` appends one pair `(n, b)` to the encoding of `x`.
pub proof fn law_encode_append_run(x: Seq<u8>, b: u8, n: nat)
    requires
        x.len() <= usize::MAX,
        1 <= n <= usize::MAX,
        x.len() == 0 || x.last() != b,
    ensures
        runs(x + Seq::new(n, |_i: int| b)) == runs(x).push((n as usize, b)),
{
    lemma_runs(x);
    assert(Seq::new(n, |_i: int| b) =~= repeat(b, n));
    lemma_runs_append_repeat(x, b, n);
}

/// A run of `n >= 1` copies of one byte encodes as the single pair `(n, b)`.
pub proof fn law_encode_single_run(b: u8, n: nat)
    requires
        1 <= n <= usize::MAX,
    ensures
        runs(Seq::new(n, |_i: int| b)) == seq![(n as usize, b)],
{
    let e = Seq::<u8>::empty();
    assert(runs(e) =~= Seq::<RlePair>::empty());
    law_encode_append_run(e, b, n);
    assert(e + Seq::new(n, |_i: int| b) =~= Seq::new(n, |_i: int| b));
    assert(runs(e).push((n as usize, b)) =~= seq![(n as usize, b)]);
}

/// Reading one more pair `[c, b]` of compact bytes appends `c` copies of `b`;
/// in particular `[c, b]` alone reads as `c` copies of `b`, for every byte `c`.
pub proof fn law_compact_decode_pair(prefix: Seq<u8>, c: u8, b: u8)
    requires
        prefix.len() % 2 == 0,
    ensures
        expand(compact_pairs(prefix + seq![c, b])) == expand(compact_pairs(prefix)) + Seq::new(
            c as nat,
            |_i: int| b,
        ),
        expand(compact_pairs(seq![c, b])) == Seq::new(c as nat, |_i: int| b),
{
    lemma_compact_pairs_concat(prefix, seq![c, b]);
    let one = compact_pairs(seq![c, b]);
    assert(one =~= seq![(c as usize, b)]);
    lemma_expand_concat(compact_pairs(prefix), one);
    lemma_expand_single(one);
    assert(repeat(b, c as nat) =~= Seq::new(c as nat, |_i: int| b));
}

/// A single pair compacts as its run.
proof fn lemma_compact_single(b: u8, n: nat)
    requires
        n <= usize::MAX,
    ensures
        compact(seq![(n as usize, b)]) == compact_run(n, b),
{
    let p = seq![(n as usize, b)];
    assert(p.drop_last() =~= Seq::<RlePair>::empty());
    assert(compact(p.drop_last()) == Seq::<u8>::empty());
    assert(compact(p) =~= compact_run(n, b));
}

/// The compact encoding of a run of `n` bytes `b`, `1 <= n <= 255`, is `[n, b]`.
pub proof fn law_compact_encode_short_run(b: u8, n: nat)
    requires
        1 <= n <= 255,
    ensures
        compact(runs(Seq::new(n, |_i: int| b))) == seq![n as u8, b],
{
    law_encode_single_run(b, n);
    let p = seq![(n as usize, b)];
    lemma_compact_single(b, n);
}

/// A run longer than 255 bytes is compacted as `[255, b]` followed by the
/// compact encoding of the remaining `n - 255` bytes.
pub proof fn law_compact_encode_long_run(b: u8, n: nat)
    requires
        255 < n <= usize::MAX,
    ensures
        compact(runs(Seq::new(n, |_i: int| b))) == seq![255u8, b] + compact(
            runs(Seq::new((n - 255) as nat, |_i: int| b)),
        ),
{
    law_encode_single_run(b, n);
    law_encode_single_run(b, (n - 255) as nat);
    let p = seq![(n as usize, b)];
    let q = seq![((n - 255) as usize, b)];
    lemma_compact_single(b, n);
    lemma_compact_single(b, (n - 255) as nat);
}

/// Appending a run whose byte differs from the last byte of `x` appends that
/// run's compact encoding to the compact encoding of `x`.
pub proof fn law_compact_encode_append_run(x: Seq<u8>, b: u8, n: nat)
    requires
        x.len() <= usize::MAX,
        1 <= n <= usize::MAX,
        x.len() == 0 || x.last() != b,
    ensures
        compact(runs(x + Seq::new(n, |_i: int| b))) == compact(runs(x)) + compact(
            runs(Seq::new(n, |_i: int| b)),
        ),
{
    law_encode_append_run(x, b, n);
    law_encode_single_run(b, n);
    let p = seq![(n as usize, b)];
    lemma_compact_single(b, n);
    assert(runs(x).push((n as usize, b)).drop_last() =~= runs(x));
}

/// Decoding no pairs gives no bytes; decoding one pair `(c, b)` gives `c`
/// copies of `b`; decoding pairs one after another appends their bytes.
pub proof fn law_decode_pairs(pairs: Seq<RlePair>, c: usize, b: u8)
    ensures
        expand(Seq::<RlePair>::empty()) == Seq::<u8>::empty(),
        expand(seq![(c, b)]) == Seq::new(c as nat, |_i: int| b),
        expand(pairs.push((c, b))) == expand(pairs) + Seq::new(c as nat, |_i: int| b),
{
    lemma_expand_single(seq![(c, b)]);
    assert(repeat(b, c as nat) =~= Seq::new(c as nat, |_i: int| b));
    lemma_expand_concat(pairs, seq![(c, b)]);
    assert(pairs + seq![(c, b)] =~= pairs.push((c, b)));
}

} // verus!
