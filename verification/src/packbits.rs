//! PackBits encoding as specified by Apple / TIFF.
//!
//! PackBits uses a header byte:
//! - `0..=127`: copy the next `n+1` literal bytes
//! - `129..=255`: repeat the next byte `257-n` times
//! - `128`: no operation (nop)
use vstd::prelude::*;
use crate::basic::repeat;

verus! {

/// Scanning `s` from position `k`: the position of the first byte that differs
/// from `s[0]`, or the end of `s`, or `cap`, whichever comes first.
/// From `k == 1` this is the length of the run that starts `s`, at most `cap`.
pub open spec fn run_from(s: Seq<u8>, k: nat, cap: nat) -> nat
    decreases s.len() - k,
{
    if k < s.len() && k < cap && s[k as int] == s[0] {
        run_from(s, k + 1, cap)
    } else {
        k
    }
}

/// Scanning `s` for the end of a literal block from position `e`: the first
/// position at which a run of three equal bytes starts, or the end of `s`,
/// or 128 bytes.
pub open spec fn literal_from(s: Seq<u8>, e: nat) -> nat
    decreases s.len() - e,
{
    if e < s.len() && run_from(s.skip(e as int), 1, 3) < 3 {
        if e + 1 >= 128 {
            e + 1
        } else {
            literal_from(s, e + 1)
        }
    } else {
        e
    }
}

/// The bounds of `run_from`, and that every byte it passes equals `s[0]`.
pub proof fn lemma_run_from(s: Seq<u8>, k: nat, cap: nat)
    requires
        1 <= k <= s.len(),
        forall|j: int| 0 <= j < k ==> #[trigger] s[j] == s[0],
    ensures
        k <= run_from(s, k, cap) <= s.len(),
        run_from(s, k, cap) == k || run_from(s, k, cap) <= cap,
        forall|j: int| 0 <= j < run_from(s, k, cap) ==> #[trigger] s[j] == s[0],
    decreases s.len() - k,
{
    if k < s.len() && k < cap && s[k as int] == s[0] {
        assert forall|j: int| 0 <= j < k + 1 implies #[trigger] s[j] == s[0] by {
            if j < k {
            }
        }
        lemma_run_from(s, k + 1, cap);
    }
}

/// A smaller cap stops the scan no later.
pub proof fn lemma_run_from_cap(s: Seq<u8>, k: nat, c1: nat, c2: nat)
    requires
        c1 <= c2,
    ensures
        run_from(s, k, c1) <= run_from(s, k, c2),
    decreases s.len() - k,
{
    if k < s.len() && k < c1 && s[k as int] == s[0] {
        lemma_run_from_cap(s, k + 1, c1, c2);
    } else if k < s.len() && k < c2 && s[k as int] == s[0] {
        lemma_run_from_ge(s, k + 1, c2);
    }
}

/// The scan never ends before where it starts.
proof fn lemma_run_from_ge(s: Seq<u8>, k: nat, cap: nat)
    ensures
        k <= run_from(s, k, cap),
    decreases s.len() - k,
{
    if k < s.len() && k < cap && s[k as int] == s[0] {
        lemma_run_from_ge(s, k + 1, cap);
    }
}

/// The bounds of `literal_from`: it advances past `e` when no run of three
/// starts at `e`, and never passes the end of `s` or 128 bytes.
pub proof fn lemma_literal_from(s: Seq<u8>, e: nat)
    requires
        e <= s.len(),
        e < 128,
    ensures
        e <= literal_from(s, e) <= s.len(),
        literal_from(s, e) <= 128,
        e < s.len() && run_from(s.skip(e as int), 1, 3) < 3 ==> literal_from(s, e) >= e + 1,
    decreases s.len() - e,
{
    if e < s.len() && run_from(s.skip(e as int), 1, 3) < 3 {
        if e + 1 < 128 {
            lemma_literal_from(s, e + 1);
        }
    }
}

/// The PackBits encoding of `s`: repeatedly, a run of three to 128 equal bytes
/// becomes `[257 - length, byte]`; otherwise the bytes up to the next run of
/// three (at most 128 of them) become `[length - 1]` followed by those bytes.
pub open spec fn packbits_encode(s: Seq<u8>) -> Seq<u8>
    decreases s.len(),
{
    if s.len() == 0 {
        seq![]
    } else {
        let r = run_from(s, 1, 128);
        proof {
            lemma_run_from(s, 1, 128);
        }
        if r > 2 {
            seq![(257 - r) as u8, s[0]] + packbits_encode(s.skip(r as int))
        } else {
            let l = literal_from(s, 0);
            proof {
                lemma_run_from_cap(s, 1, 3, 128);
                assert(s.skip(0) =~= s);
                lemma_literal_from(s, 0);
            }
            seq![(l - 1) as u8] + s.take(l as int) + packbits_encode(s.skip(l as int))
        }
    }
}

/// What PackBits bytes decode to, or `None` where a header asks for bytes past
/// the end.
pub open spec fn packbits_decode(s: Seq<u8>) -> Option<Seq<u8>>
    decreases s.len(),
{
    if s.len() == 0 {
        Some(seq![])
    } else {
        let h = s[0];
        if h <= 127 {
            let n = h as int + 1;
            if 1 + n > s.len() {
                None
            } else {
                match packbits_decode(s.skip(1 + n)) {
                    Some(rest) => Some(s.subrange(1, 1 + n) + rest),
                    None => None,
                }
            }
        } else if h > 128 {
            if s.len() < 2 {
                None
            } else {
                match packbits_decode(s.skip(2)) {
                    Some(rest) => Some(repeat(s[1], (257 - h) as nat) + rest),
                    None => None,
                }
            }
        } else {
            packbits_decode(s.skip(1))
        }
    }
}

/// Decoding the PackBits encoding of any data gives that data back.
pub proof fn law_packbits_roundtrip(s: Seq<u8>)
    ensures
        packbits_decode(packbits_encode(s)) == Some(s),
    decreases s.len(),
{
    if s.len() > 0 {
        let r = run_from(s, 1, 128);
        lemma_run_from(s, 1, 128);
        let e = packbits_encode(s);
        if r > 2 {
            let t = s.skip(r as int);
            law_packbits_roundtrip(t);
            let h = (257 - r) as u8;
            assert(e == seq![h, s[0]] + packbits_encode(t));
            assert(e.skip(2) =~= packbits_encode(t));
            assert(h as int == 257 - r);
            assert(repeat(s[0], (257 - h) as nat) =~= s.take(r as int));
            assert(s.take(r as int) + t =~= s);
        } else {
            lemma_run_from_cap(s, 1, 3, 128);
            assert(s.skip(0) =~= s);
            lemma_literal_from(s, 0);
            let l = literal_from(s, 0);
            let t = s.skip(l as int);
            law_packbits_roundtrip(t);
            assert(e == seq![(l - 1) as u8] + s.take(l as int) + packbits_encode(t));
            assert(e[0] as int == l - 1);
            assert(e.subrange(1, 1 + l as int) =~= s.take(l as int));
            assert(e.skip(1 + l as int) =~= packbits_encode(t));
            assert(s.take(l as int) + t =~= s);
        }
    }
}

/// Encode data using PackBits.
///
/// # Format
///
/// Each run starts with a header byte:
/// - Header `0..127`: Copy the next `header + 1` literal bytes.
/// - Header `129..255`: Repeat the next byte `257 - header` times.
/// - Header `128`: No-op (skipped).
pub fn encode(data: &[u8]) -> (out: Vec<u8>)
    ensures
        out@ == packbits_encode(data@),
{
    if data.len() == 0 {
        return Vec::new();
    }
    let mut out: Vec<u8> = Vec::new();
    let mut i: usize = 0;
    proof {
        assert(data@.skip(0) =~= data@);
        assert(out@ + packbits_encode(data@) =~= packbits_encode(data@));
    }
    while i < data.len()
        invariant
            i <= data.len(),
            packbits_encode(data@) == out@ + packbits_encode(data@.skip(i as int)),
        decreases data.len() - i,
    {
        let ghost s = data@.skip(i as int);
        let ghost before = out@;
        let byte = data[i];
        let mut run_len: usize = 1;
        while i + run_len < data.len() && data[i + run_len] == byte && run_len < 128
            invariant
                i < data.len(),
                s == data@.skip(i as int),
                byte == s[0],
                1 <= run_len <= 128,
                i + run_len <= data.len(),
                run_from(s, run_len as nat, 128) == run_from(s, 1, 128),
            decreases data.len() - (i + run_len),
        {
            run_len += 1;
        }
        proof {
            lemma_run_from(s, 1, 128);
        }
        if run_len > 2 {
            out.push((257 - run_len) as u8);
            out.push(byte);
            proof {
                assert(s.skip(run_len as int) =~= data@.skip(i + run_len));
                assert(out@ =~= before + seq![(257 - run_len) as u8, s[0]]);
                assert(packbits_encode(s) == seq![(257 - run_len) as u8, s[0]] + packbits_encode(
                    s.skip(run_len as int),
                ));
                assert(before + packbits_encode(s) =~= out@ + packbits_encode(s.skip(run_len as int)));
            }
            i += run_len;
        } else {
            let literal_start = i;
            let mut literal_end = i;
            while literal_end < data.len()
                invariant_except_break
                    literal_end - literal_start < 128,
                    literal_from(s, (literal_end - literal_start) as nat) == literal_from(s, 0),
                invariant
                    literal_start == i,
                    i < data.len(),
                    i <= literal_end <= data.len(),
                    s == data@.skip(i as int),
                ensures
                    literal_end - literal_start == literal_from(s, 0),
                decreases data.len() - literal_end,
            {
                let b = data[literal_end];
                let mut ahead: usize = 1;
                let ghost t = data@.skip(literal_end as int);
                while literal_end + ahead < data.len() && data[literal_end + ahead] == b && ahead < 3
                    invariant
                        literal_end < data.len(),
                        t == data@.skip(literal_end as int),
                        b == t[0],
                        1 <= ahead <= 3,
                        literal_end + ahead <= data.len(),
                        run_from(t, ahead as nat, 3) == run_from(t, 1, 3),
                    decreases data.len() - (literal_end + ahead),
                {
                    ahead += 1;
                }
                proof {
                    assert(s.skip(literal_end - literal_start) =~= t);
                }
                if ahead >= 3 {
                    break;
                }
                literal_end += 1;
                if literal_end - literal_start >= 128 {
                    break;
                }
            }
            let literal_len = literal_end - literal_start;
            proof {
                lemma_run_from_cap(s, 1, 3, 128);
                assert(s.skip(0) =~= s);
                lemma_literal_from(s, 0);
            }
            if literal_len > 0 {
                out.push((literal_len - 1) as u8);
                let mut k: usize = literal_start;
                while k < literal_end
                    invariant
                        literal_start <= k <= literal_end <= data.len(),
                        out@ == before + seq![(literal_len - 1) as u8] + data@.subrange(
                            literal_start as int,
                            k as int,
                        ),
                    decreases literal_end - k,
                {
                    out.push(data[k]);
                    proof {
                        assert(data@.subrange(literal_start as int, k + 1) =~= data@.subrange(
                            literal_start as int,
                            k as int,
                        ).push(data@[k as int]));
                    }
                    k += 1;
                }
                proof {
                    let l = literal_len as int;
                    assert(data@.subrange(literal_start as int, literal_end as int) =~= s.take(l));
                    assert(s.skip(l) =~= data@.skip(literal_end as int));
                    assert(packbits_encode(s) == seq![(l - 1) as u8] + s.take(l) + packbits_encode(
                        s.skip(l),
                    ));
                    assert(before + packbits_encode(s) =~= out@ + packbits_encode(s.skip(l)));
                }
                i = literal_end;
            }
        }
    }
    proof {
        assert(data@.skip(data.len() as int) =~= Seq::<u8>::empty());
        assert(out@ + packbits_encode(Seq::<u8>::empty()) =~= out@);
    }
    out
}

/// Decode PackBits-encoded data.
///
/// Returns `None` if the input is malformed (truncated).
pub fn decode(data: &[u8]) -> (res: Option<Vec<u8>>)
    ensures
        match res {
            Some(v) => packbits_decode(data@) == Some(v@),
            None => packbits_decode(data@) is None,
        },
{
    let mut out: Vec<u8> = Vec::new();
    let mut i: usize = 0;
    proof {
        assert(data@.skip(0) =~= data@);
    }
    while i < data.len()
        invariant
            i <= data.len(),
            match packbits_decode(data@.skip(i as int)) {
                Some(rest) => packbits_decode(data@) == Some(out@ + rest),
                None => packbits_decode(data@) is None,
            },
        decreases data.len() - i,
    {
        let ghost s = data@.skip(i as int);
        let ghost before = out@;
        let header = data[i];
        i += 1;
        if header <= 127 {
            let count = (header as usize) + 1;
            if count > data.len() - i {
                return None;
            }
            let mut k: usize = 0;
            while k < count
                invariant
                    k <= count,
                    i + count <= data.len(),
                    out@ == before + data@.subrange(i as int, i + k),
                decreases count - k,
            {
                out.push(data[i + k]);
                proof {
                    assert(data@.subrange(i as int, i + k + 1) =~= data@.subrange(i as int, i + k).push(
                        data@[i + k],
                    ));
                }
                k += 1;
            }
            proof {
                assert(s.subrange(1, 1 + count) =~= data@.subrange(i as int, i + count));
                assert(s.skip(1 + count) =~= data@.skip(i + count));
                if let Some(rest) = packbits_decode(s.skip(1 + count)) {
                    assert(before + (s.subrange(1, 1 + count) + rest) =~= out@ + rest);
                }
            }
            i += count;
        } else if header > 128 {
            let count = 257 - header as usize;
            if i >= data.len() {
                return None;
            }
            let byte = data[i];
            let mut k: usize = 0;
            proof {
                assert(before =~= before + repeat(byte, 0));
            }
            while k < count
                invariant
                    k <= count,
                    out@ == before + repeat(byte, k as nat),
                decreases count - k,
            {
                out.push(byte);
                proof {
                    assert(repeat(byte, (k + 1) as nat) =~= repeat(byte, k as nat).push(byte));
                }
                k += 1;
            }
            proof {
                assert(s.skip(2) =~= data@.skip(i + 1));
                assert(s[1] == byte);
                if let Some(rest) = packbits_decode(s.skip(2)) {
                    assert(before + (repeat(byte, count as nat) + rest) =~= out@ + rest);
                }
            }
            i += 1;
        } else {
            proof {
                assert(s.skip(1) =~= data@.skip(i as int));
            }
        }
    }
    proof {
        assert(data@.skip(data.len() as int) =~= Seq::<u8>::empty());
        assert(out@ + Seq::<u8>::empty() =~= out@);
    }
    Some(out)
}

/// Compute the encoded size without actually encoding.
pub fn encoded_size(data: &[u8]) -> (size: usize)
    ensures
        size == packbits_encode(data@).len(),
{
    encode(data).len()
}

/// A run packet `[h, b]` with header `h` in `129..=255` stands for `257 - h`
/// copies of `b`, followed by whatever the rest decodes to.
pub proof fn law_packbits_run_packet(h: u8, b: u8, rest: Seq<u8>)
    requires
        h > 128,
    ensures
        packbits_decode(seq![h, b] + rest) == (match packbits_decode(rest) {
            Some(r) => Some(Seq::new((257 - h) as nat, |_i: int| b) + r),
            None => None,
        }),
        packbits_decode(seq![h, b]) == Some(Seq::new((257 - h) as nat, |_i: int| b)),
{
    let s = seq![h, b] + rest;
    assert(s[0] == h && s[1] == b);
    assert(s.skip(2) =~= rest);
    assert(repeat(b, (257 - h) as nat) =~= Seq::new((257 - h) as nat, |_i: int| b));
    if let Some(r) = packbits_decode(rest) {
        assert(repeat(b, (257 - h) as nat) + r == Seq::new((257 - h) as nat, |_i: int| b) + r);
    }
    let t = seq![h, b];
    assert(t.skip(2) =~= Seq::<u8>::empty());
    assert(packbits_decode(t.skip(2)) == Some(Seq::<u8>::empty()));
    assert(Seq::new((257 - h) as nat, |_i: int| b) + Seq::<u8>::empty() =~= Seq::new(
        (257 - h) as nat,
        |_i: int| b,
    ));
}

/// A literal packet, header `h <= 127` followed by `h + 1` bytes, stands for
/// exactly those bytes, followed by whatever the rest decodes to.
pub proof fn law_packbits_literal_packet(bytes: Seq<u8>, rest: Seq<u8>)
    requires
        1 <= bytes.len() <= 128,
    ensures
        packbits_decode(seq![(bytes.len() - 1) as u8] + bytes + rest) == (match packbits_decode(
            rest,
        ) {
            Some(r) => Some(bytes + r),
            None => None,
        }),
        packbits_decode(seq![(bytes.len() - 1) as u8] + bytes) == Some(bytes),
{
    let h = (bytes.len() - 1) as u8;
    let n = bytes.len() as int;
    let s = seq![h] + bytes + rest;
    assert(s[0] == h);
    assert(s.subrange(1, 1 + n) =~= bytes);
    assert(s.skip(1 + n) =~= rest);
    let t = seq![h] + bytes;
    assert(t[0] == h);
    assert(t.subrange(1, 1 + n) =~= bytes);
    assert(t.skip(1 + n) =~= Seq::<u8>::empty());
    assert(packbits_decode(t.skip(1 + n)) == Some(Seq::<u8>::empty()));
    assert(bytes + Seq::<u8>::empty() =~= bytes);
}

/// Header 128 is skipped; a packet cut short decodes to `None`.
pub proof fn law_packbits_nop_and_truncation(h: u8, rest: Seq<u8>)
    ensures
        packbits_decode(seq![128u8] + rest) == packbits_decode(rest),
        h <= 127 && rest.len() <= h ==> packbits_decode(seq![h] + rest) is None,
        h > 128 ==> packbits_decode(seq![h]) is None,
{
    assert((seq![128u8] + rest).skip(1) =~= rest);
    assert((seq![h] + rest)[0] == h);
}

/// Scanning a run of exactly `n` equal bytes (stopped by the end, a different
/// byte or the cap) from any point inside it ends at `n`.
proof fn lemma_run_from_exact(s: Seq<u8>, k: nat, n: nat, cap: nat)
    requires
        1 <= k <= n <= s.len(),
        n <= cap,
        forall|j: int| 0 <= j < n ==> #[trigger] s[j] == s[0],
        n == cap || n == s.len() || s[n as int] != s[0],
    ensures
        run_from(s, k, cap) == n,
    decreases n - k,
{
    if k < n {
        assert(s[k as int] == s[0]);
        lemma_run_from_exact(s, k + 1, n, cap);
    }
}

/// A data stream that starts with a maximal run of `n` equal bytes,
/// `3 <= n <= 128` (ended by a different byte, the end, or 128 bytes), is
/// encoded as the run packet `[257 - n, byte]` followed by the encoding of the rest.
pub proof fn law_packbits_encode_run(s: Seq<u8>, n: nat)
    requires
        3 <= n <= 128,
        n <= s.len(),
        forall|j: int| 0 <= j < n ==> #[trigger] s[j] == s[0],
        n == 128 || n == s.len() || s[n as int] != s[0],
    ensures
        packbits_encode(s) == seq![(257 - n) as u8, s[0]] + packbits_encode(s.skip(n as int)),
{
    lemma_run_from_exact(s, 1, n, 128);
}

/// A run of `n` copies of `b`, `3 <= n <= 128`, is encoded as `[257 - n, b]`.
pub proof fn law_packbits_encode_single_run(b: u8, n: nat)
    requires
        3 <= n <= 128,
    ensures
        packbits_encode(Seq::new(n, |_i: int| b)) == seq![(257 - n) as u8, b],
{
    let s = Seq::new(n, |_i: int| b);
    law_packbits_encode_run(s, n);
    assert(s.skip(n as int) =~= Seq::<u8>::empty());
    assert(packbits_encode(s.skip(n as int)) == Seq::<u8>::empty());
    assert(seq![(257 - n) as u8, s[0]] + Seq::<u8>::empty() =~= seq![(257 - n) as u8, b]);
}

/// Three equal bytes in a row start at position `i` of `s`.
pub open spec fn triple_at(s: Seq<u8>, i: int) -> bool {
    0 <= i && i + 2 < s.len() && s[i] == s[i + 1] && s[i + 1] == s[i + 2]
}

/// With no three equal bytes in a row starting before `l`, the literal scan
/// from `e <= l` stops at `l` when `l` is the end, 128, or the start of three
/// equal bytes.
proof fn lemma_literal_to(s: Seq<u8>, e: nat, l: nat)
    requires
        e <= l <= s.len(),
        e < 128,
        l <= 128,
        forall|i: int| 0 <= i < l ==> !#[trigger] triple_at(s, i),
        l == s.len() || l == 128 || triple_at(s, l as int),
    ensures
        literal_from(s, e) == l,
    decreases l - e,
{
    let t = s.skip(e as int);
    if e < l {
        lemma_run_from(t, 1, 3);
        if run_from(t, 1, 3) >= 3 {
            assert(t[1] == t[0] && t[2] == t[0]);
            assert(s[e as int] == t[0] && s[e + 1 as int] == t[1] && s[e + 2 as int] == t[2]);
            assert(triple_at(s, e as int));
            assert(false);
        }
        if e + 1 < 128 {
            lemma_literal_to(s, e + 1, l);
        }
    } else if l < s.len() && l < 128 {
        assert(triple_at(s, l as int));
        assert(t[0] == s[l as int] && t[1] == s[l + 1 as int] && t[2] == s[l + 2 as int]);
        lemma_run_from_exact(t, 1, 3, 3);
    }
}

/// Up to 128 bytes without three equal bytes in a row, ended by the end of the
/// data, by 128 bytes or by three equal bytes, are encoded as one literal
/// packet, header `count - 1` followed by the bytes, then the encoding of the rest.
pub proof fn law_packbits_encode_literal(s: Seq<u8>, l: nat)
    requires
        1 <= l <= 128,
        l <= s.len(),
        forall|i: int| 0 <= i < l ==> !#[trigger] triple_at(s, i),
        l == s.len() || l == 128 || triple_at(s, l as int),
    ensures
        packbits_encode(s) == seq![(l - 1) as u8] + s.take(l as int) + packbits_encode(
            s.skip(l as int),
        ),
        l == s.len() ==> packbits_encode(s) == seq![(l - 1) as u8] + s,
{
    lemma_run_from(s, 1, 128);
    if run_from(s, 1, 128) >= 3 {
        assert(s[1] == s[0] && s[2] == s[0]);
        assert(triple_at(s, 0));
        assert(false);
    }
    lemma_literal_to(s, 0, l);
    assert(s.skip(0) =~= s);
    if l == s.len() {
        assert(s.take(l as int) =~= s);
        assert(s.skip(l as int) =~= Seq::<u8>::empty());
        assert(packbits_encode(s.skip(l as int)) == Seq::<u8>::empty());
        assert(seq![(l - 1) as u8] + s + Seq::<u8>::empty() =~= seq![(l - 1) as u8] + s);
    }
}

} // verus!
