//! The block decoders and the stream driver.
use crate::bits::{bit_len, bits_value, lemma_bits_value_bound, BitCursor, InflateError};
use crate::huffman::{construct, decode, lemma_decode_advances, lengths_in_range, Huffman};
use crate::stream::{
    blocks_spec, cl_lengths, codes_spec, dynamic_spec, fixed_dist_lengths, fixed_lit_lengths,
    fixed_spec, inflate_spec, lemma_block_advances, read_lengths, stored_spec,
};
use crate::tables::{
    cl_order_of, dist_base, dist_base_of, dist_extra, dist_extra_of, length_base_of, length_extra,
    length_extra_of,
};
use crate::window::{Sink, WINDOW_SIZE};
use vstd::arithmetic::power2::{lemma2_to64, pow2};
use vstd::prelude::*;

verus! {

proof fn lemma_dist_max(i: int)
    requires
        0 <= i < 30,
    ensures
        1 <= dist_base(i),
        dist_base(i) + pow2(dist_extra(i) as nat) <= WINDOW_SIZE + 1,
{
    lemma2_to64();
}

/// Decodes the symbols of a fixed or dynamic block up to its end-of-block symbol,
/// emitting literals and back-references into `out`.
pub fn codes(s: &mut BitCursor, out: &mut Sink, lc: &Huffman, dc: &Huffman) -> (r: Result<
    (),
    InflateError,
>)
    requires
        old(s).wf(),
        old(out).wf(),
        lc.wf(),
        dc.wf(),
    ensures
        final(s).wf(),
        final(out).wf(),
        final(s).data() == old(s).data(),
        match r {
            Ok(_) => codes_spec(lc@, dc@, old(s).data(), old(s).pos(), old(out)@) == Ok::<
                (int, Seq<u8>),
                InflateError,
            >((final(s).pos(), final(out)@)),
            Err(e) => codes_spec(lc@, dc@, old(s).data(), old(s).pos(), old(out)@) == Err::<
                (int, Seq<u8>),
                InflateError,
            >(e),
        },
{
    let ghost d = s.data();
    loop
        invariant
            s.wf(),
            out.wf(),
            lc.wf(),
            dc.wf(),
            s.data() == d,
            d == old(s).data(),
            codes_spec(lc@, dc@, d, old(s).pos(), old(out)@) == codes_spec(
                lc@,
                dc@,
                d,
                s.pos(),
                out@,
            ),
        decreases bit_len(d) - s.pos(),
    {
        let ghost p = s.pos();
        proof {
            lemma_decode_advances(lc@, d, p);
            s.lemma_pos_bound();
        }
        let sym = match decode(s, lc) {
            Ok(v) => v,
            Err(e) => {
                return Err(e);
            },
        };
        if sym < 256 {
            out.output(sym as u8);
        } else if sym == 256 {
            return Ok(());
        } else if sym > 285 {
            return Err(InflateError::InvalidSymbol);
        } else {
            let li = (sym - 257) as usize;
            let extra = match s.bits(length_extra_of(li)) {
                Ok(v) => v,
                Err(e) => {
                    return Err(e);
                },
            };
            let ghost p2 = s.pos();
            proof {
                let le = length_extra(li as int);
                lemma_bits_value_bound(d, p2 - le, le as nat);
                lemma2_to64();
                lemma_decode_advances(dc@, d, p2);
            }
            let len = length_base_of(li) as usize + extra as usize;
            let dsym = match decode(s, dc) {
                Ok(v) => v,
                Err(e) => {
                    return Err(e);
                },
            };
            if dsym > 29 {
                return Err(InflateError::InvalidSymbol);
            }
            let dex = match s.bits(dist_extra_of(dsym as usize)) {
                Ok(v) => v,
                Err(e) => {
                    return Err(e);
                },
            };
            proof {
                lemma_dist_max(dsym as int);
                let de = dist_extra(dsym as int);
                lemma_bits_value_bound(d, s.pos() - de, de as nat);
            }
            let dist = dist_base_of(dsym as usize) as usize + dex as usize;
            if dist > out.len() {
                return Err(InflateError::DistanceTooFar);
            }
            out.copy(dist, len);
        }
    }
}

/// Decodes a stored block: after the header, up to the next byte boundary, a
/// 16-bit length and its complement, then that many raw bytes.
pub fn stored(s: &mut BitCursor, out: &mut Sink) -> (r: Result<(), InflateError>)
    requires
        old(s).wf(),
        old(out).wf(),
    ensures
        final(s).wf(),
        final(out).wf(),
        final(s).data() == old(s).data(),
        match r {
            Ok(_) => stored_spec(old(s).data(), old(s).pos(), old(out)@) == Ok::<
                (int, Seq<u8>),
                InflateError,
            >((final(s).pos(), final(out)@)),
            Err(e) => stored_spec(old(s).data(), old(s).pos(), old(out)@) == Err::<
                (int, Seq<u8>),
                InflateError,
            >(e),
        },
{
    let ghost d = s.data();
    let ghost o0 = out@;
    proof {
        s.lemma_pos_bound();
    }
    s.align();
    let ghost p = s.pos();
    let n = match s.bits(16) {
        Ok(v) => v,
        Err(e) => {
            return Err(e);
        },
    };
    match s.bits(16) {
        Ok(_) => {},
        Err(e) => {
            return Err(e);
        },
    }
    let ghost start = (p + 32) / 8;
    let mut k: u32 = 0;
    proof {
        assert(start <= d.len());
        assert(o0 + d.subrange(start, start) =~= o0);
    }
    while k < n
        invariant
            s.wf(),
            out.wf(),
            s.data() == d,
            d == old(s).data(),
            o0 == old(out)@,
            p == crate::bits::align_up(old(s).pos()),
            p % 8 == 0,
            p + 32 <= bit_len(d),
            start == (p + 32) / 8,
            0 <= p,
            n as nat == bits_value(d, p, 16),
            k <= n,
            s.pos() == p + 32 + 8 * k,
            start + k <= d.len(),
            out@ == o0 + d.subrange(start, start + k),
        decreases n - k,
    {
        let ghost q = s.pos();
        proof {
            assert(q / 8 == start + k);
        }
        let c = match s.next_byte() {
            Ok(c) => c,
            Err(e) => {
                return Err(e);
            },
        };
        out.output(c);
        proof {
            assert(out@ =~= o0 + d.subrange(start, start + k + 1));
        }
        k = k + 1;
    }
    Ok(())
}

/// Decodes a block coded with the fixed tables.
pub fn fixed(s: &mut BitCursor, out: &mut Sink) -> (r: Result<(), InflateError>)
    requires
        old(s).wf(),
        old(out).wf(),
    ensures
        final(s).wf(),
        final(out).wf(),
        final(s).data() == old(s).data(),
        match r {
            Ok(_) => fixed_spec(old(s).data(), old(s).pos(), old(out)@) == Ok::<
                (int, Seq<u8>),
                InflateError,
            >((final(s).pos(), final(out)@)),
            Err(e) => fixed_spec(old(s).data(), old(s).pos(), old(out)@) == Err::<
                (int, Seq<u8>),
                InflateError,
            >(e),
        },
{
    let mut lit: Vec<u16> = Vec::new();
    let mut i: usize = 0;
    while i < 288
        invariant
            i <= 288,
            lit@.len() == i,
            forall|j: int| 0 <= j < i ==> #[trigger] lit@[j] == fixed_lit_lengths()[j],
        decreases 288 - i,
    {
        let v: u16 = if i < 144 {
            8
        } else if i < 256 {
            9
        } else if i < 280 {
            7
        } else {
            8
        };
        lit.push(v);
        i = i + 1;
    }
    let mut dist: Vec<u16> = Vec::new();
    let mut i: usize = 0;
    while i < 30
        invariant
            i <= 30,
            dist@.len() == i,
            forall|j: int| 0 <= j < i ==> #[trigger] dist@[j] == fixed_dist_lengths()[j],
        decreases 30 - i,
    {
        dist.push(5);
        i = i + 1;
    }
    assert(lit@ =~= fixed_lit_lengths());
    assert(dist@ =~= fixed_dist_lengths());
    let lc = match construct(lit.as_slice()) {
        Ok(h) => h,
        Err(e) => {
            return Err(e);
        },
    };
    let dc = match construct(dist.as_slice()) {
        Ok(h) => h,
        Err(e) => {
            return Err(e);
        },
    };
    codes(s, out, &lc, &dc)
}

/// Reads the `ncode` 3-bit lengths of the code-length code, each into its place
/// in the permutation.
fn read_cl_lengths(s: &mut BitCursor, ncode: usize) -> (r: Result<Vec<u16>, InflateError>)
    requires
        old(s).wf(),
        ncode <= 19,
    ensures
        final(s).wf(),
        final(s).data() == old(s).data(),
        match r {
            Ok(cl) => old(s).pos() + 3 * ncode <= bit_len(old(s).data()) && final(s).pos()
                == old(s).pos() + 3 * ncode && cl@ == cl_lengths(
                old(s).data(),
                old(s).pos(),
                ncode as int,
            ) && lengths_in_range(cl@) && cl@.len() == 19,
            Err(e) => old(s).pos() + 3 * ncode > bit_len(old(s).data()) && e
                == InflateError::Truncated,
        },
{
    let ghost d = s.data();
    let ghost p = s.pos();
    let mut cl: Vec<u16> = Vec::new();
    let mut k: usize = 0;
    while k < 19
        invariant
            k <= 19,
            cl@.len() == k,
            forall|j: int| 0 <= j < k ==> #[trigger] cl@[j] == 0u16,
        decreases 19 - k,
    {
        cl.push(0);
        k = k + 1;
    }
    proof {
        assert(cl@ =~= cl_lengths(d, p, 0));
    }
    let mut k: usize = 0;
    while k < ncode
        invariant
            s.wf(),
            s.data() == d,
            d == old(s).data(),
            p == old(s).pos(),
            ncode <= 19,
            k <= ncode,
            s.pos() == p + 3 * k,
            cl@ == cl_lengths(d, p, k as int),
            cl@.len() == 19,
            lengths_in_range(cl@),
        decreases ncode - k,
    {
        let v = match s.bits(3) {
            Ok(v) => v,
            Err(e) => {
                return Err(e);
            },
        };
        proof {
            lemma_bits_value_bound(d, p + 3 * k, 3);
            lemma2_to64();
        }
        cl.set(cl_order_of(k), v as u16);
        k = k + 1;
    }
    proof {
        s.lemma_pos_bound();
    }
    Ok(cl)
}

/// Decodes `total` code lengths with the code-length code `clh`, expanding the
/// run-length symbols 16, 17 and 18.
fn read_code_lengths(s: &mut BitCursor, clh: &Huffman, total: usize) -> (r: Result<
    Vec<u16>,
    InflateError,
>)
    requires
        old(s).wf(),
        clh.wf(),
        clh@.len() == 19,
        total <= 316,
    ensures
        final(s).wf(),
        final(s).data() == old(s).data(),
        match r {
            Ok(v) => read_lengths(clh@, old(s).data(), old(s).pos(), total as int, Seq::empty())
                == Ok::<(int, Seq<u16>), InflateError>((final(s).pos(), v@)) && lengths_in_range(
                v@,
            ) && v@.len() == total,
            Err(e) => read_lengths(clh@, old(s).data(), old(s).pos(), total as int, Seq::empty())
                == Err::<(int, Seq<u16>), InflateError>(e),
        },
{
    let ghost d = s.data();
    let ghost q = s.pos();
    let mut lengths: Vec<u16> = Vec::new();
    while lengths.len() < total
        invariant
            s.wf(),
            clh.wf(),
            clh@.len() == 19,
            s.data() == d,
            d == old(s).data(),
            q == old(s).pos(),
            total <= 316,
            lengths@.len() <= total,
            lengths_in_range(lengths@),
            read_lengths(clh@, d, q, total as int, Seq::empty()) == read_lengths(
                clh@,
                d,
                s.pos(),
                total as int,
                lengths@,
            ),
        decreases total - lengths@.len(),
    {
        let sym = match decode(s, clh) {
            Ok(v) => v,
            Err(e) => {
                return Err(e);
            },
        };
        if sym < 16 {
            lengths.push(sym);
        } else {
            if sym == 16 && lengths.len() == 0 {
                return Err(InflateError::InvalidLengths);
            }
            let ghost before = s.pos();
            let eb: u32 = if sym == 16 {
                2
            } else if sym == 17 {
                3
            } else {
                7
            };
            let extra = match s.bits(eb) {
                Ok(v) => v,
                Err(e) => {
                    return Err(e);
                },
            };
            proof {
                lemma_bits_value_bound(d, before, eb as nat);
                lemma2_to64();
            }
            let rep: usize = if sym == 18 {
                11 + extra as usize
            } else {
                3 + extra as usize
            };
            let val: u16 = if sym == 16 {
                lengths[lengths.len() - 1]
            } else {
                0
            };
            if lengths.len() + rep > total {
                return Err(InflateError::InvalidLengths);
            }
            let ghost base = lengths@;
            let mut j: usize = 0;
            while j < rep
                invariant
                    j <= rep,
                    lengths@ == base + Seq::new(j as nat, |i: int| val),
                    base.len() + rep <= total,
                    lengths_in_range(base),
                    val <= 15,
                decreases rep - j,
            {
                lengths.push(val);
                j = j + 1;
                proof {
                    assert(lengths@ =~= base + Seq::new(j as nat, |i: int| val));
                }
            }
        }
    }
    Ok(lengths)
}

/// The entries `from..to` of `v`.
fn slice_of(v: &Vec<u16>, from: usize, to: usize) -> (r: Vec<u16>)
    requires
        from <= to <= v@.len(),
    ensures
        r@ == v@.subrange(from as int, to as int),
{
    let mut r: Vec<u16> = Vec::new();
    let mut i: usize = from;
    while i < to
        invariant
            from <= i <= to <= v@.len(),
            r@ == v@.subrange(from as int, i as int),
        decreases to - i,
    {
        r.push(v[i]);
        i = i + 1;
        proof {
            assert(r@ =~= v@.subrange(from as int, i as int));
        }
    }
    r
}

/// Decodes a dynamic block: its header, the code lengths it transmits with the
/// code-length code, and then its symbols.
pub fn dynamic(s: &mut BitCursor, out: &mut Sink) -> (r: Result<(), InflateError>)
    requires
        old(s).wf(),
        old(out).wf(),
    ensures
        final(s).wf(),
        final(out).wf(),
        final(s).data() == old(s).data(),
        match r {
            Ok(_) => dynamic_spec(old(s).data(), old(s).pos(), old(out)@) == Ok::<
                (int, Seq<u8>),
                InflateError,
            >((final(s).pos(), final(out)@)),
            Err(e) => dynamic_spec(old(s).data(), old(s).pos(), old(out)@) == Err::<
                (int, Seq<u8>),
                InflateError,
            >(e),
        },
{
    let ghost d = s.data();
    let ghost p = s.pos();
    let hlit = match s.bits(5) {
        Ok(v) => v,
        Err(e) => {
            return Err(e);
        },
    };
    let hdist = match s.bits(5) {
        Ok(v) => v,
        Err(e) => {
            return Err(e);
        },
    };
    let hclen = match s.bits(4) {
        Ok(v) => v,
        Err(e) => {
            return Err(e);
        },
    };
    proof {
        lemma_bits_value_bound(d, p, 5);
        lemma_bits_value_bound(d, p + 5, 5);
        lemma_bits_value_bound(d, p + 10, 4);
        lemma2_to64();
    }
    let nlen = hlit as usize + 257;
    let ndist = hdist as usize + 1;
    let ncode = hclen as usize + 4;
    if nlen > 286 || ndist > 30 {
        return Err(InflateError::InvalidLengths);
    }
    let cl = match read_cl_lengths(s, ncode) {
        Ok(v) => v,
        Err(e) => {
            return Err(e);
        },
    };
    let clh = match construct(cl.as_slice()) {
        Ok(h) => h,
        Err(e) => {
            return Err(e);
        },
    };
    let total = nlen + ndist;
    let lengths = match read_code_lengths(s, &clh, total) {
        Ok(v) => v,
        Err(e) => {
            return Err(e);
        },
    };
    let lit = slice_of(&lengths, 0, nlen);
    let dist = slice_of(&lengths, nlen, total);
    let lc = match construct(lit.as_slice()) {
        Ok(h) => h,
        Err(e) => {
            return Err(e);
        },
    };
    let dc = match construct(dist.as_slice()) {
        Ok(h) => h,
        Err(e) => {
            return Err(e);
        },
    };
    codes(s, out, &lc, &dc)
}

/// Decodes a whole DEFLATE stream: blocks in order, up to and including the one
/// marked final.
pub fn inflate(input: &[u8]) -> (r: Result<Vec<u8>, InflateError>)
    ensures
        match r {
            Ok(v) => inflate_spec(input@) == Ok::<Seq<u8>, InflateError>(v@),
            Err(e) => inflate_spec(input@) == Err::<Seq<u8>, InflateError>(e),
        },
{
    let mut s = BitCursor::new(input);
    let mut out = Sink::new();
    loop
        invariant
            s.wf(),
            out.wf(),
            s.data() == input@,
            inflate_spec(input@) == blocks_spec(input@, s.pos(), out@),
        decreases bit_len(input@) - s.pos(),
    {
        let ghost p = s.pos();
        let ghost o = out@;
        proof {
            s.lemma_pos_bound();
        }
        let last = match s.bits(1) {
            Ok(v) => v,
            Err(e) => {
                return Err(e);
            },
        };
        let kind = match s.bits(2) {
            Ok(v) => v,
            Err(e) => {
                return Err(e);
            },
        };
        proof {
            lemma_block_advances(input@, p, o);
        }
        let res = if kind == 0 {
            stored(&mut s, &mut out)
        } else if kind == 1 {
            fixed(&mut s, &mut out)
        } else if kind == 2 {
            dynamic(&mut s, &mut out)
        } else {
            Err(InflateError::InvalidBlockType)
        };
        match res {
            Ok(_) => {},
            Err(e) => {
                return Err(e);
            },
        }
        if last == 1 {
            return Ok(out.into_vec());
        }
    }
}

} // verus!
