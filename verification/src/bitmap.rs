//! Modified RLE for 1-bit bitmap rows.
//!
//! Each scanline is encoded as a sequence of alternating runs of 0s and 1s,
//! starting with a run of 0s. If the scanline starts with 1s, a leading
//! 0-length run of 0s is emitted. Runs are stored as single bytes (max 255).
use vstd::prelude::*;
use crate::basic;
use crate::basic::{RlePair, repeat, expand, lemma_runs, law_encode_append_run, law_encode_single_run};

verus! {

/// The run lengths that one run of `count` pixels is written as: a run longer
/// than 255 becomes 255, then a 0-length run of the other value, then the rest.
pub open spec fn split_run(count: nat) -> Seq<u8>
    decreases count,
{
    if count > 255 {
        seq![255u8, 0u8] + split_run((count - 255) as nat)
    } else if count > 0 {
        seq![count as u8]
    } else {
        seq![]
    }
}

/// The run lengths of a list of runs, each split at 255, in order.
pub open spec fn split_runs(pairs: Seq<RlePair>) -> Seq<u8>
    decreases pairs.len(),
{
    if pairs.len() == 0 {
        seq![]
    } else {
        split_runs(pairs.drop_last()) + split_run(pairs.last().0 as nat)
    }
}

/// The encoding of a scanline: a 0-length run of 0s first when the scanline
/// starts with a 1, then the length of each maximal run of equal pixels,
/// split at 255.
pub open spec fn scanline_encode(scanline: Seq<u8>) -> Seq<u8> {
    (if scanline.len() > 0 && scanline[0] == 1 {
        seq![0u8]
    } else {
        seq![]
    }) + split_runs(basic::runs(scanline))
}

/// The other pixel value: 1 after 0, 0 after anything else.
pub open spec fn flip(v: u8) -> u8 {
    if v == 0 {
        1
    } else {
        0
    }
}

/// The pixels that alternating run lengths stand for, the first run having
/// pixel value `v`.
pub open spec fn expand_alternating(v: u8, lengths: Seq<u8>) -> Seq<u8>
    decreases lengths.len(),
{
    if lengths.len() == 0 {
        seq![]
    } else {
        repeat(v, lengths[0] as nat) + expand_alternating(flip(v), lengths.skip(1))
    }
}

/// Flush a run, splitting at 255.
fn flush_run(runs: &mut Vec<u8>, count: usize)
    ensures
        final(runs)@ == old(runs)@ + split_run(count as nat),
{
    let ghost target = runs@ + split_run(count as nat);
    let mut count = count;
    while count > 255
        invariant
            runs@ + split_run(count as nat) == target,
        decreases count,
    {
        let ghost before = runs@;
        runs.push(255);
        runs.push(0);
        proof {
            assert(split_run(count as nat) == seq![255u8, 0u8] + split_run((count - 255) as nat));
            assert(before + split_run(count as nat) =~= runs@ + split_run((count - 255) as nat));
        }
        count -= 255;
    }
    let ghost before = runs@;
    if count > 0 {
        runs.push(count as u8);
        proof {
            assert(before + split_run(count as nat) =~= runs@);
        }
    } else {
        proof {
            assert(before + split_run(count as nat) =~= runs@);
        }
    }
}

/// Encode a single scanline using modified bitmap RLE.
///
/// The output alternates between counts of 0-bits and 1-bits, starting with
/// 0-bits. Each count is stored as a `u8` (1–255).
pub fn encode_scanline(scanline: &[u8]) -> (out: Vec<u8>)
    ensures
        out@ == scanline_encode(scanline@),
{
    if scanline.len() == 0 {
        return Vec::new();
    }
    let mut runs: Vec<u8> = Vec::new();
    let first_val = scanline[0];
    let mut current_val: u8 = 0;
    let mut count: usize = 0;
    if first_val == 1 {
        runs.push(0u8);
        current_val = 1;
    }
    let ghost prefix = runs@;
    let ghost mut done: Seq<RlePair> = seq![];
    let mut i: usize = 0;
    proof {
        assert(prefix =~= (if scanline@[0] == 1 { seq![0u8] } else { Seq::<u8>::empty() }));
        assert(runs@ =~= prefix + split_runs(done));
    }
    while i < scanline.len()
        invariant
            0 < scanline.len(),
            first_val == scanline@[0],
            prefix == (if scanline@[0] == 1 { seq![0u8] } else { Seq::<u8>::empty() }),
            i <= scanline.len(),
            count <= i,
            runs@ == prefix + split_runs(done),
            i == 0 ==> count == 0 && done == Seq::<RlePair>::empty() && current_val == (if first_val
                == 1 {
                1u8
            } else {
                0u8
            }),
            i > 0 ==> count >= 1 && done.push((count, current_val)) == basic::runs(scanline@.take(i as int)),
        decreases scanline.len() - i,
    {
        let pixel = scanline[i];
        proof {
            assert(scanline@.take(i + 1).drop_last() =~= scanline@.take(i as int));
            if i == 0 {
                assert(basic::runs(scanline@.take(0)) =~= Seq::<RlePair>::empty());
            }
        }
        if pixel == current_val {
            proof {
                if i > 0 {
                    let prev = done.push((count, current_val));
                    assert(prev.update(prev.len() - 1, ((count + 1) as usize, current_val))
                        =~= done.push(((count + 1) as usize, current_val)));
                } else {
                    assert(done.push((1usize, pixel)) =~= basic::runs(scanline@.take(1)));
                }
            }
            count += 1;
        } else {
            let ghost before = runs@;
            flush_run(&mut runs, count);
            proof {
                if i > 0 {
                    let d2 = done.push((count, current_val));
                    assert(d2.drop_last() =~= done);
                    assert(runs@ =~= prefix + split_runs(d2));
                    done = d2;
                } else {
                    assert(split_run(0) =~= Seq::<u8>::empty());
                    assert(runs@ =~= before);
                    assert(done.push((1usize, pixel)) =~= basic::runs(scanline@.take(1)));
                }
            }
            current_val = pixel;
            count = 1;
        }
        i += 1;
    }
    let ghost before = runs@;
    flush_run(&mut runs, count);
    proof {
        let d2 = done.push((count, current_val));
        assert(scanline@.take(scanline.len() as int) =~= scanline@);
        assert(d2.drop_last() =~= done);
        assert(runs@ =~= prefix + split_runs(d2));
    }
    runs
}

/// Decode a modified bitmap RLE scanline.
///
/// `width` is the expected scanline width in pixels.
/// Returns `None` if the encoded data doesn't match the expected width.
pub fn decode_scanline(runs: &[u8], width: usize) -> (res: Option<Vec<u8>>)
    ensures
        match res {
            Some(v) => v@ == expand_alternating(0, runs@) && v@.len() == width,
            None => expand_alternating(0, runs@).len() != width,
        },
{
    let mut out: Vec<u8> = Vec::with_capacity(width);
    let mut current_val: u8 = 0;
    let mut i: usize = 0;
    proof {
        assert(runs@.skip(0) =~= runs@);
        assert(out@ + expand_alternating(0, runs@) =~= expand_alternating(0, runs@));
    }
    while i < runs.len()
        invariant
            i <= runs.len(),
            out@ + expand_alternating(current_val, runs@.skip(i as int)) == expand_alternating(
                0,
                runs@,
            ),
        decreases runs.len() - i,
    {
        let count = runs[i];
        let ghost before = out@;
        let mut k: u8 = 0;
        proof {
            assert(before =~= before + repeat(current_val, 0));
        }
        while k < count
            invariant
                k <= count,
                out@ == before + repeat(current_val, k as nat),
            decreases count - k,
        {
            out.push(current_val);
            proof {
                assert(repeat(current_val, (k + 1) as nat) =~= repeat(current_val, k as nat).push(
                    current_val,
                ));
            }
            k += 1;
        }
        proof {
            let t = runs@.skip(i as int);
            assert(t.skip(1) =~= runs@.skip(i + 1));
            assert(expand_alternating(current_val, t) == repeat(current_val, count as nat)
                + expand_alternating(flip(current_val), t.skip(1)));
            assert(before + expand_alternating(current_val, t) =~= out@ + expand_alternating(
                flip(current_val),
                runs@.skip(i + 1),
            ));
        }
        current_val = if current_val == 0 {
            1
        } else {
            0
        };
        i += 1;
    }
    proof {
        assert(runs@.skip(runs.len() as int) =~= Seq::<u8>::empty());
        assert(out@ + Seq::<u8>::empty() =~= out@);
    }
    if out.len() != width {
        return None;
    }
    Some(out)
}

/// Two bytes, big-endian, holding `n` modulo 65536.
pub open spec fn be16(n: nat) -> Seq<u8> {
    seq![((n % 65536) / 256) as u8, (n % 256) as u8]
}

/// The big-endian 16-bit number in `s[pos]` and `s[pos + 1]`.
pub open spec fn read_be16(s: Seq<u8>, pos: int) -> nat {
    s[pos] as nat * 256 + s[pos + 1] as nat
}

/// One scanline as stored in a bitmap: the length of its encoding, then the encoding.
pub open spec fn line_record(line: Seq<u8>) -> Seq<u8> {
    be16(scanline_encode(line).len()) + scanline_encode(line)
}

/// The scanlines held by a slice of vectors.
pub open spec fn lines_view(lines: Seq<Vec<u8>>) -> Seq<Seq<u8>> {
    lines.map_values(|v: Vec<u8>| v@)
}

/// The record of each scanline.
pub open spec fn line_records(lines: Seq<Seq<u8>>) -> Seq<Seq<u8>> {
    lines.map_values(|l: Seq<u8>| line_record(l))
}

/// The encoding of a bitmap: the number of scanlines, then each scanline's record.
pub open spec fn bitmap_encode(lines: Seq<Seq<u8>>) -> Seq<u8> {
    be16(lines.len()) + line_records(lines).flatten()
}

/// Reading `n` scanline records from `s` at `pos`, or `None` where a record
/// runs past the end of `s`.
pub open spec fn parse_lines(s: Seq<u8>, pos: nat, n: nat) -> Option<Seq<Seq<u8>>>
    decreases n,
{
    if n == 0 {
        Some(seq![])
    } else if pos + 2 > s.len() {
        None
    } else {
        let l = read_be16(s, pos as int);
        if pos + 2 + l > s.len() {
            None
        } else {
            match parse_lines(s, pos + 2 + l, (n - 1) as nat) {
                Some(rest) => Some(
                    seq![expand_alternating(0, s.subrange(pos + 2 as int, pos + 2 + l as int))] + rest,
                ),
                None => None,
            }
        }
    }
}

/// What bitmap bytes decode to: the scanline count, then that many records,
/// or `None` where the bytes end too early.
pub open spec fn bitmap_decode(s: Seq<u8>) -> Option<Seq<Seq<u8>>> {
    if s.len() < 2 {
        None
    } else {
        parse_lines(s, 2, read_be16(s, 0))
    }
}

/// The two bytes that the shifts and masks of a 16-bit number give are its
/// big-endian bytes.
proof fn lemma_u16_bytes(c: u16)
    ensures
        (c >> 8) as u8 == (c / 256) as u8,
        (c & 0xFF) as u8 == (c % 256) as u8,
{
    assert((c >> 8) as u8 == (c / 256) as u8) by (bit_vector);
    assert((c & 0xFF) as u8 == (c % 256) as u8) by (bit_vector);
}

/// Writing a length as 16 bits gives `be16` of it.
proof fn lemma_usize_be16(x: usize)
    ensures
        seq![((x as u16) >> 8) as u8, ((x as u16) & 0xFF) as u8] == be16(x as nat),
{
    let c = x as u16;
    lemma_u16_bytes(c);
    assert((x as u16) == x % 65536) by (bit_vector);
    assert((x % 65536) % 256 == x % 256) by (bit_vector);
    assert(seq![(c >> 8) as u8, (c & 0xFF) as u8] =~= be16(x as nat));
}

/// Joining two bytes with a shift and a bitwise or reads them big-endian.
proof fn lemma_join_bytes(a: u8, b: u8)
    ensures
        (((a as u16) << 8) | (b as u16)) as nat == a as nat * 256 + b as nat,
{
    assert((((a as u16) << 8) | (b as u16)) == (a as u16) * 256 + (b as u16)) by (bit_vector);
}

/// Encode a full bitmap (multiple scanlines).
///
/// Each scanline is encoded independently. The output format:
/// `[scanline_count_u16, [scanline_len_u16, scanline_bytes], ...]`
pub fn encode_bitmap(bitmap: &[Vec<u8>]) -> (out: Vec<u8>)
    ensures
        out@ == bitmap_encode(lines_view(bitmap@)),
{
    let ghost lines = lines_view(bitmap@);
    let mut out: Vec<u8> = Vec::new();
    let count = bitmap.len() as u16;
    out.push((count >> 8) as u8);
    out.push((count & 0xFF) as u8);
    proof {
        lemma_usize_be16(bitmap.len());
        assert(line_records(lines.take(0)) =~= Seq::<Seq<u8>>::empty());
        assert(out@ =~= be16(lines.len()) + line_records(lines.take(0)).flatten());
    }
    let mut i: usize = 0;
    while i < bitmap.len()
        invariant
            i <= bitmap.len(),
            lines == lines_view(bitmap@),
            out@ == be16(lines.len()) + line_records(lines.take(i as int)).flatten(),
        decreases bitmap.len() - i,
    {
        let ghost before = out@;
        let mut encoded = encode_scanline(bitmap[i].as_slice());
        let len = encoded.len() as u16;
        out.push((len >> 8) as u8);
        out.push((len & 0xFF) as u8);
        proof {
            lemma_usize_be16(encoded.len());
        }
        let ghost enc = encoded@;
        out.append(&mut encoded);
        proof {
            assert(lines[i as int] == bitmap@[i as int]@);
            assert(out@ =~= before + line_record(lines[i as int]));
            let line = lines[i as int];
            assert(line_records(lines.take(i + 1)) =~= line_records(lines.take(i as int)).push(
                line_record(line),
            ));
            line_records(lines.take(i as int)).lemma_flatten_push(line_record(line));
            assert(out@ =~= be16(lines.len()) + line_records(lines.take(i + 1)).flatten());
        }
        i += 1;
    }
    proof {
        assert(lines.take(bitmap.len() as int) =~= lines);
    }
    out
}

/// Decode a full bitmap.
///
/// Returns `None` if the data is malformed.
pub fn decode_bitmap(data: &[u8]) -> (res: Option<Vec<Vec<u8>>>)
    ensures
        match res {
            Some(v) => bitmap_decode(data@) == Some(lines_view(v@)),
            None => bitmap_decode(data@) is None,
        },
{
    if data.len() < 2 {
        return None;
    }
    let count: u16 = ((data[0] as u16) << 8) | (data[1] as u16);
    proof {
        lemma_join_bytes(data[0], data[1]);
    }
    let mut bitmap: Vec<Vec<u8>> = Vec::with_capacity(count as usize);
    let mut pos: usize = 2;
    let mut k: u16 = 0;
    proof {
        assert(lines_view(bitmap@) =~= Seq::<Seq<u8>>::empty());
        if let Some(rest) = parse_lines(data@, 2, count as nat) {
            assert(lines_view(bitmap@) + rest =~= rest);
        }
    }
    while k < count
        invariant
            2 <= data.len(),
            count as nat == read_be16(data@, 0),
            pos <= data.len(),
            k <= count,
            match parse_lines(data@, pos as nat, (count - k) as nat) {
                Some(rest) => bitmap_decode(data@) == Some(lines_view(bitmap@) + rest),
                None => bitmap_decode(data@) is None,
            },
        decreases count - k,
    {
        if data.len() - pos < 2 {
            return None;
        }
        let len: u16 = ((data[pos] as u16) << 8) | (data[pos + 1] as u16);
        proof {
            lemma_join_bytes(data[pos as int], data[pos + 1]);
        }
        pos += 2;
        if len as usize > data.len() - pos {
            return None;
        }
        let end = pos + len as usize;
        let mut scanline: Vec<u8> = Vec::new();
        let mut current_val = 0u8;
        let mut j: usize = pos;
        let ghost whole = data@.subrange(pos as int, end as int);
        proof {
            assert(data@.subrange(pos as int, end as int) =~= whole);
            assert(scanline@ + expand_alternating(0, whole) =~= expand_alternating(0, whole));
        }
        while j < end
            invariant
                pos <= j <= end <= data.len(),
                whole == data@.subrange(pos as int, end as int),
                scanline@ + expand_alternating(current_val, data@.subrange(j as int, end as int))
                    == expand_alternating(0, whole),
            decreases end - j,
        {
            let run = data[j];
            let ghost before = scanline@;
            let mut n: u8 = 0;
            proof {
                assert(before =~= before + repeat(current_val, 0));
            }
            while n < run
                invariant
                    n <= run,
                    scanline@ == before + repeat(current_val, n as nat),
                decreases run - n,
            {
                scanline.push(current_val);
                proof {
                    assert(repeat(current_val, (n + 1) as nat) =~= repeat(current_val, n as nat).push(
                        current_val,
                    ));
                }
                n += 1;
            }
            proof {
                let t = data@.subrange(j as int, end as int);
                assert(t.skip(1) =~= data@.subrange(j + 1, end as int));
                assert(t[0] == run);
                assert(before + expand_alternating(current_val, t) =~= scanline@
                    + expand_alternating(flip(current_val), data@.subrange(j + 1, end as int)));
            }
            current_val = if current_val == 0 {
                1
            } else {
                0
            };
            j += 1;
        }
        proof {
            assert(data@.subrange(end as int, end as int) =~= Seq::<u8>::empty());
            assert(scanline@ + Seq::<u8>::empty() =~= scanline@);
        }
        let ghost line = scanline@;
        let ghost old_lines = lines_view(bitmap@);
        bitmap.push(scanline);
        proof {
            assert(lines_view(bitmap@) =~= old_lines.push(line));
            let p0 = (pos - 2) as nat;
            assert(read_be16(data@, p0 as int) == len as nat);
            if let Some(rest) = parse_lines(data@, end as nat, (count - k - 1) as nat) {
                assert(old_lines + (seq![line] + rest) =~= lines_view(bitmap@) + rest);
            }
        }
        pos = end;
        k += 1;
    }
    proof {
        assert(lines_view(bitmap@) + Seq::<Seq<u8>>::empty() =~= lines_view(bitmap@));
    }
    Some(bitmap)
}

/// Every pixel is 0 or 1.
pub open spec fn is_binary(pixels: Seq<u8>) -> bool {
    forall|j: int| 0 <= j < pixels.len() ==> #[trigger] pixels[j] <= 1
}

/// The pixel value of the `k`-th of alternating runs whose first has value `v`.
pub open spec fn alt(v: u8, k: int) -> u8 {
    if k % 2 == 0 {
        v
    } else {
        flip(v)
    }
}

/// Expanding concatenated run lengths expands each part, the second starting
/// with the value that the parity of the first part's length gives.
proof fn lemma_expand_alternating_concat(v: u8, a: Seq<u8>, b: Seq<u8>)
    requires
        v <= 1,
    ensures
        expand_alternating(v, a + b) == expand_alternating(v, a) + expand_alternating(
            alt(v, a.len() as int),
            b,
        ),
    decreases a.len(),
{
    if a.len() == 0 {
        assert(a + b =~= b);
        assert(expand_alternating(v, a) =~= Seq::<u8>::empty());
        assert(expand_alternating(v, a) + expand_alternating(v, b) =~= expand_alternating(v, b));
    } else {
        assert((a + b).skip(1) =~= a.skip(1) + b);
        assert((a + b)[0] == a[0]);
        lemma_expand_alternating_concat(flip(v), a.skip(1), b);
        assert(alt(flip(v), a.len() - 1) == alt(v, a.len() as int));
        assert(expand_alternating(v, a + b) =~= expand_alternating(v, a) + expand_alternating(
            alt(v, a.len() as int),
            b,
        ));
    }
}

/// A single run length expands to that many pixels of the given value.
proof fn lemma_expand_alternating_single(v: u8, n: u8)
    ensures
        expand_alternating(v, seq![n]) == repeat(v, n as nat),
{
    assert(seq![n].skip(1) =~= Seq::<u8>::empty());
    assert(expand_alternating(flip(v), Seq::<u8>::empty()) == Seq::<u8>::empty());
    assert(expand_alternating(v, seq![n]) =~= repeat(v, n as nat));
}

/// The lengths that one run is split into are odd in number and expand back to the run.
proof fn lemma_split_run(count: nat, v: u8)
    requires
        1 <= count,
        v <= 1,
    ensures
        split_run(count).len() % 2 == 1,
        expand_alternating(v, split_run(count)) == repeat(v, count),
    decreases count,
{
    if count > 255 {
        let rest = split_run((count - 255) as nat);
        lemma_split_run((count - 255) as nat, v);
        let head = seq![255u8, 0u8];
        lemma_expand_alternating_concat(v, head, rest);
        assert(expand_alternating(v, head) =~= repeat(v, 255)) by {
            assert(head.skip(1) =~= seq![0u8]);
            lemma_expand_alternating_single(flip(v), 0);
        }
        assert(repeat(v, 255) + repeat(v, (count - 255) as nat) =~= repeat(v, count));
    } else {
        lemma_expand_alternating_single(v, count as u8);
    }
}

/// Splitting a list of runs whose values alternate from `v` gives run lengths
/// of the same parity in number, which expand back to what the runs stand for.
proof fn lemma_split_runs(pairs: Seq<RlePair>, v: u8)
    requires
        v <= 1,
        forall|k: int| 0 <= k < pairs.len() ==> #[trigger] pairs[k].0 >= 1 && pairs[k].1 == alt(v, k),
    ensures
        split_runs(pairs).len() % 2 == pairs.len() % 2,
        expand_alternating(v, split_runs(pairs)) == expand(pairs),
    decreases pairs.len(),
{
    if pairs.len() == 0 {
        assert(expand_alternating(v, split_runs(pairs)) =~= Seq::<u8>::empty());
    } else {
        let q = pairs.drop_last();
        let (c, b) = pairs.last();
        assert forall|k: int| 0 <= k < q.len() implies #[trigger] q[k].0 >= 1 && q[k].1 == alt(v, k) by {
            assert(q[k] == pairs[k]);
        }
        lemma_split_runs(q, v);
        assert(pairs[q.len() as int] == (c, b));
        lemma_split_run(c as nat, b);
        lemma_expand_alternating_concat(v, split_runs(q), split_run(c as nat));
        assert(alt(v, split_runs(q).len() as int) == b);
    }
}

/// The runs of a nonempty scanline of 0s and 1s alternate in value,
/// starting with its first pixel.
proof fn lemma_runs_alternate(s: Seq<u8>)
    requires
        0 < s.len() <= usize::MAX,
        is_binary(s),
    ensures
        forall|k: int| 0 <= k < basic::runs(s).len() ==> #[trigger] basic::runs(s)[k].1 == alt(s[0], k),
    decreases s.len(),
{
    let d = s.drop_last();
    let prev = basic::runs(d);
    let b = s.last();
    let r = basic::runs(s);
    assert(s[s.len() - 1] <= 1);
    if d.len() == 0 {
        assert(basic::runs(d) =~= Seq::<RlePair>::empty());
        assert(r =~= seq![(1usize, b)]);
    } else {
        assert(is_binary(d)) by {
            assert forall|j: int| 0 <= j < d.len() implies #[trigger] d[j] <= 1 by {
                assert(d[j] == s[j]);
            }
        }
        assert(d[0] == s[0]);
        lemma_runs_alternate(d);
        lemma_runs(d);
        if prev.last().1 == b {
            assert forall|k: int| 0 <= k < r.len() implies #[trigger] r[k].1 == alt(s[0], k) by {
                assert(r[k].1 == prev[k].1);
            }
        } else {
            let x = prev[prev.len() - 1].1;
            assert(x == alt(s[0], prev.len() - 1));
            assert(b == alt(s[0], prev.len() as int));
            assert forall|k: int| 0 <= k < r.len() implies #[trigger] r[k].1 == alt(s[0], k) by {
                if k < prev.len() {
                    assert(r[k] == prev[k]);
                }
            }
        }
    }
}

/// Decoding the encoding of a scanline of 0s and 1s gives the scanline back.
pub proof fn law_scanline_roundtrip(s: Seq<u8>)
    requires
        s.len() <= usize::MAX,
        is_binary(s),
    ensures
        expand_alternating(0, scanline_encode(s)) == s,
{
    if s.len() == 0 {
        assert(basic::runs(s) =~= Seq::<RlePair>::empty());
        assert(scanline_encode(s) =~= Seq::<u8>::empty());
    } else {
        lemma_runs(s);
        lemma_runs_alternate(s);
        let r = basic::runs(s);
        assert(s[0] <= 1);
        if s[0] == 0 {
            assert(scanline_encode(s) =~= split_runs(r));
            lemma_split_runs(r, 0);
        } else {
            lemma_split_runs(r, 1);
            lemma_expand_alternating_concat(0, seq![0u8], split_runs(r));
            lemma_expand_alternating_single(0, 0);
        }
    }
}

/// A scanline that a bitmap can hold and give back: pixels 0 and 1 only, and
/// an encoding shorter than 65536 bytes.
pub open spec fn is_storable_line(line: Seq<u8>) -> bool {
    &&& line.len() <= usize::MAX
    &&& is_binary(line)
    &&& scanline_encode(line).len() < 65536
}

/// Reading the records of `lines`, placed after any prefix, gives `lines` back.
proof fn lemma_parse_records(pre: Seq<u8>, lines: Seq<Seq<u8>>)
    requires
        forall|i: int| 0 <= i < lines.len() ==> is_storable_line(#[trigger] lines[i]),
    ensures
        parse_lines(pre + line_records(lines).flatten(), pre.len(), lines.len()) == Some(lines),
    decreases lines.len(),
{
    if lines.len() == 0 {
        assert(lines =~= Seq::<Seq<u8>>::empty());
    } else {
        let line = lines[0];
        assert(is_storable_line(line));
        let e = scanline_encode(line);
        let n = e.len();
        let rec = line_record(line);
        let tail = lines.skip(1);
        assert(line_records(lines).drop_first() =~= line_records(tail));
        assert(line_records(lines).first() == rec);
        let s = pre + line_records(lines).flatten();
        assert(s =~= (pre + rec) + line_records(tail).flatten());
        let p = pre.len() as int;
        assert(s[p] == rec[0] && s[p + 1] == rec[1]);
        assert(read_be16(s, p) == n);
        assert(s.subrange(p + 2, p + 2 + n) =~= e);
        law_scanline_roundtrip(line);
        assert forall|i: int| 0 <= i < tail.len() implies is_storable_line(#[trigger] tail[i]) by {
            assert(tail[i] == lines[i + 1]);
        }
        lemma_parse_records(pre + rec, tail);
        assert((pre + rec).len() == p + 2 + n);
        assert(seq![line] + tail =~= lines);
    }
}

/// Decoding the encoding of a bitmap gives the bitmap back, when it has fewer
/// than 65536 scanlines and each scanline can be stored.
pub proof fn law_bitmap_roundtrip(lines: Seq<Seq<u8>>)
    requires
        lines.len() < 65536,
        forall|i: int| 0 <= i < lines.len() ==> is_storable_line(#[trigger] lines[i]),
    ensures
        bitmap_decode(bitmap_encode(lines)) == Some(lines),
{
    let s = bitmap_encode(lines);
    assert(read_be16(s, 0) == lines.len());
    lemma_parse_records(be16(lines.len()), lines);
}

/// One pair of runs splits as its run.
proof fn lemma_split_runs_single(n: nat, v: u8)
    requires
        n <= usize::MAX,
    ensures
        split_runs(seq![(n as usize, v)]) == split_run(n),
{
    let p = seq![(n as usize, v)];
    assert(p.drop_last() =~= Seq::<RlePair>::empty());
    assert(split_runs(p.drop_last()) == Seq::<u8>::empty());
    assert(split_runs(p) =~= split_run(n));
}

/// A scanline that is one run of `n` pixels of value `v`, `1 <= n <= 255`, is
/// written as the single length `n`, after a 0-length run of 0s when `v` is 1.
pub proof fn law_scanline_single_run(v: u8, n: nat)
    requires
        1 <= n <= 255,
    ensures
        scanline_encode(Seq::new(n, |_i: int| v)) == (if v == 1 {
            seq![0u8, n as u8]
        } else {
            seq![n as u8]
        }),
{
    law_encode_single_run(v, n);
    lemma_split_runs_single(n, v);
    let s = Seq::new(n, |_i: int| v);
    assert(s[0] == v);
    if v == 1 {
        assert(scanline_encode(s) =~= seq![0u8, n as u8]);
    } else {
        assert(scanline_encode(s) =~= seq![n as u8]);
    }
}

/// A run of more than 255 pixels is written as 255, then a 0-length run of the
/// other value, then the encoding of the remaining `n - 255` pixels (whose
/// own leading 0-length run, for value 1, is shared with the whole).
pub proof fn law_scanline_long_run(v: u8, n: nat)
    requires
        255 < n <= usize::MAX,
    ensures
        scanline_encode(Seq::new(n, |_i: int| v)) == (if v == 1 {
            seq![0u8, 255u8] + scanline_encode(Seq::new((n - 255) as nat, |_i: int| v))
        } else {
            seq![255u8, 0u8] + scanline_encode(Seq::new((n - 255) as nat, |_i: int| v))
        }),
{
    let m = (n - 255) as nat;
    law_encode_single_run(v, n);
    law_encode_single_run(v, m);
    lemma_split_runs_single(n, v);
    lemma_split_runs_single(m, v);
    let s = Seq::new(n, |_i: int| v);
    let t = Seq::new(m, |_i: int| v);
    assert(s[0] == v && t[0] == v);
    if v == 1 {
        assert(scanline_encode(s) =~= seq![0u8, 255u8] + scanline_encode(t));
    } else {
        assert(scanline_encode(s) =~= seq![255u8, 0u8] + scanline_encode(t));
    }
}

/// Appending a run of `n` pixels, `1 <= n <= 255`, whose value differs from the
/// last pixel of a nonempty scanline appends the single length `n` to its encoding.
pub proof fn law_scanline_append_run(x: Seq<u8>, v: u8, n: nat)
    requires
        0 < x.len(),
        x.len() + n <= usize::MAX,
        1 <= n <= 255,
        x.last() != v,
    ensures
        scanline_encode(x + Seq::new(n, |_i: int| v)) == scanline_encode(x) + seq![n as u8],
{
    let y = x + Seq::new(n, |_i: int| v);
    law_encode_append_run(x, v, n);
    let p = basic::runs(x).push((n as usize, v));
    assert(p.drop_last() =~= basic::runs(x));
    assert(split_runs(p) == split_runs(basic::runs(x)) + split_run(n));
    assert(y[0] == x[0]);
    assert(scanline_encode(y) =~= scanline_encode(x) + seq![n as u8]);
}

/// Decoding one more run length `n` appends `n` pixels, of value 0 after an
/// even number of lengths and 1 after an odd number.
pub proof fn law_scanline_decode_append(lengths: Seq<u8>, n: u8)
    ensures
        expand_alternating(0, Seq::<u8>::empty()) == Seq::<u8>::empty(),
        expand_alternating(0, lengths.push(n)) == expand_alternating(0, lengths) + Seq::new(
            n as nat,
            |_i: int| if lengths.len() % 2 == 0 { 0u8 } else { 1u8 },
        ),
{
    assert(lengths.push(n) =~= lengths + seq![n]);
    lemma_expand_alternating_concat(0, lengths, seq![n]);
    let v = alt(0, lengths.len() as int);
    lemma_expand_alternating_single(v, n);
    assert(repeat(v, n as nat) =~= Seq::new(
        n as nat,
        |_i: int| if lengths.len() % 2 == 0 { 0u8 } else { 1u8 },
    ));
}

/// A bitmap's encoding starts with its scanline count as two big-endian bytes
/// (modulo 65536); adding a scanline appends its encoding's length as two
/// big-endian bytes (modulo 65536), then its encoding.
pub proof fn law_bitmap_encode_layout(lines: Seq<Seq<u8>>, line: Seq<u8>)
    ensures
        bitmap_encode(lines).len() >= 2,
        bitmap_encode(lines)[0] == ((lines.len() % 65536) / 256) as u8,
        bitmap_encode(lines)[1] == (lines.len() % 256) as u8,
        bitmap_encode(lines.push(line)).skip(2) == bitmap_encode(lines).skip(2) + seq![
            ((scanline_encode(line).len() % 65536) / 256) as u8,
            (scanline_encode(line).len() % 256) as u8,
        ] + scanline_encode(line),
{
    assert(bitmap_encode(lines).skip(2) =~= line_records(lines).flatten());
    assert(bitmap_encode(lines.push(line)).skip(2) =~= line_records(lines.push(line)).flatten());
    assert(line_records(lines.push(line)) =~= line_records(lines).push(line_record(line)));
    line_records(lines).lemma_flatten_push(line_record(line));
    assert(line_records(lines).flatten() + line_record(line) =~= line_records(lines).flatten()
        + seq![
        ((scanline_encode(line).len() % 65536) / 256) as u8,
        (scanline_encode(line).len() % 256) as u8,
    ] + scanline_encode(line));
}

/// Bytes `[0, 0]` decode to no scanlines; fewer than two bytes are malformed;
/// a count of one followed by a record `[hi, lo]` and `hi * 256 + lo` run
/// lengths decodes to the one scanline those lengths stand for.
pub proof fn law_bitmap_decode_records(lengths: Seq<u8>, hi: u8, lo: u8, extra: Seq<u8>)
    requires
        lengths.len() == hi as nat * 256 + lo as nat,
    ensures
        bitmap_decode(seq![0u8, 0u8] + extra) == Some(Seq::<Seq<u8>>::empty()),
        bitmap_decode(seq![hi]) is None,
        bitmap_decode(Seq::<u8>::empty()) is None,
        bitmap_decode(seq![0u8, 1u8, hi, lo] + lengths + extra) == Some(
            seq![expand_alternating(0, lengths)],
        ),
{
    let z = seq![0u8, 0u8] + extra;
    assert(z[0] == 0 && z[1] == 0);
    assert(read_be16(z, 0) == 0);
    let s = seq![0u8, 1u8, hi, lo] + lengths + extra;
    assert(s[0] == 0 && s[1] == 1 && s[2] == hi && s[3] == lo);
    assert(read_be16(s, 0) == 1);
    assert(read_be16(s, 2) == lengths.len());
    let l = lengths.len() as int;
    assert(s.subrange(4, 4 + l) =~= lengths);
    assert(parse_lines(s, (4 + l) as nat, 0) == Some(Seq::<Seq<u8>>::empty()));
    assert(seq![expand_alternating(0, lengths)] + Seq::<Seq<u8>>::empty() =~= seq![
        expand_alternating(0, lengths),
    ]);
}

} // verus!
