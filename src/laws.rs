//! Properties of the decoder stated over the model of the format.
use crate::bits::{align_up, bit_at, bit_len, bits_value, InflateError};
use crate::huffman::{huff_decode, lemma_decode_advances, over_subscribed};
use crate::stream::{
    block_spec, blocks_spec, cl_lengths, codes_spec, coded_block, fixed_dist_lengths,
    fixed_lit_lengths, inflate_spec, lemma_block_advances, read_lengths, run_count, run_extra,
    stored_spec,
};
use crate::tables::{dist_base, dist_extra, length_base, length_extra};
use crate::window::copy_back;
use vstd::arithmetic::power2::{lemma2_to64, lemma_pow2_adds, pow2};
use vstd::prelude::*;

verus! {

proof fn lemma_bits_step(inp: Seq<u8>, pos: int, n: nat)
    ensures
        bits_value(inp, pos, 0) == 0,
        bits_value(inp, pos, n + 1) == bits_value(inp, pos, n) + pow2(n) * bit_at(inp, pos + n),
{
    assert(((n + 1) - 1) as nat == n);
}

/// Eight bits read from a byte boundary give that byte.
pub proof fn lemma_byte_bits(inp: Seq<u8>, k: int)
    requires
        0 <= k < inp.len(),
    ensures
        bits_value(inp, 8 * k, 8) == inp[k] as nat,
{
    lemma2_to64();
    let b = inp[k];
    assert forall|j: int| 0 <= j < 8 implies #[trigger] bit_at(inp, 8 * k + j) == ((b >> (j as u8))
        & 1u8) as nat by {
        assert((8 * k + j) / 8 == k);
        assert((8 * k + j) % 8 == j);
    }
    let x0 = (b >> 0u8) & 1u8;
    let x1 = (b >> 1u8) & 1u8;
    let x2 = (b >> 2u8) & 1u8;
    let x3 = (b >> 3u8) & 1u8;
    let x4 = (b >> 4u8) & 1u8;
    let x5 = (b >> 5u8) & 1u8;
    let x6 = (b >> 6u8) & 1u8;
    let x7 = (b >> 7u8) & 1u8;
    assert(b as int == x0 as int + 2 * x1 as int + 4 * x2 as int + 8 * x3 as int + 16 * x4 as int
        + 32 * x5 as int + 64 * x6 as int + 128 * x7 as int) by (bit_vector)
        requires
            x0 == (b >> 0u8) & 1u8,
            x1 == (b >> 1u8) & 1u8,
            x2 == (b >> 2u8) & 1u8,
            x3 == (b >> 3u8) & 1u8,
            x4 == (b >> 4u8) & 1u8,
            x5 == (b >> 5u8) & 1u8,
            x6 == (b >> 6u8) & 1u8,
            x7 == (b >> 7u8) & 1u8,
    ;
    assert(bit_at(inp, 8 * k + 0) == x0 as nat);
    assert(bit_at(inp, 8 * k + 1) == x1 as nat);
    assert(bit_at(inp, 8 * k + 2) == x2 as nat);
    assert(bit_at(inp, 8 * k + 3) == x3 as nat);
    assert(bit_at(inp, 8 * k + 4) == x4 as nat);
    assert(bit_at(inp, 8 * k + 5) == x5 as nat);
    assert(bit_at(inp, 8 * k + 6) == x6 as nat);
    assert(bit_at(inp, 8 * k + 7) == x7 as nat);
    let p = 8 * k;
    lemma_bits_step(inp, p, 0);
    lemma_bits_step(inp, p, 1);
    lemma_bits_step(inp, p, 2);
    lemma_bits_step(inp, p, 3);
    lemma_bits_step(inp, p, 4);
    lemma_bits_step(inp, p, 5);
    lemma_bits_step(inp, p, 6);
    lemma_bits_step(inp, p, 7);
    assert(bits_value(inp, p, 1) == x0 as nat);
    assert(bits_value(inp, p, 2) == x0 as nat + 2 * x1 as nat);
    assert(bits_value(inp, p, 3) == x0 as nat + 2 * x1 as nat + 4 * x2 as nat);
    assert(bits_value(inp, p, 4) == x0 as nat + 2 * x1 as nat + 4 * x2 as nat + 8 * x3 as nat);
    assert(bits_value(inp, p, 5) == x0 as nat + 2 * x1 as nat + 4 * x2 as nat + 8 * x3 as nat
        + 16 * x4 as nat);
    assert(bits_value(inp, p, 6) == x0 as nat + 2 * x1 as nat + 4 * x2 as nat + 8 * x3 as nat
        + 16 * x4 as nat + 32 * x5 as nat);
    assert(bits_value(inp, p, 7) == x0 as nat + 2 * x1 as nat + 4 * x2 as nat + 8 * x3 as nat
        + 16 * x4 as nat + 32 * x5 as nat + 64 * x6 as nat);
    assert(bits_value(inp, p, 8) == x0 as nat + 2 * x1 as nat + 4 * x2 as nat + 8 * x3 as nat
        + 16 * x4 as nat + 32 * x5 as nat + 64 * x6 as nat + 128 * x7 as nat);
}

/// A field of `a + b` bits is its first `a` bits plus the next `b` bits shifted up by `a`.
pub proof fn lemma_bits_split(inp: Seq<u8>, pos: int, a: nat, b: nat)
    ensures
        bits_value(inp, pos, a + b) == bits_value(inp, pos, a) + pow2(a) * bits_value(
            inp,
            pos + a,
            b,
        ),
    decreases b,
{
    if b > 0 {
        lemma_bits_split(inp, pos, a, (b - 1) as nat);
        lemma_pow2_adds(a, (b - 1) as nat);
        let x = bits_value(inp, pos + a, (b - 1) as nat);
        let w = pow2((b - 1) as nat);
        let t = bit_at(inp, pos + a + b - 1);
        let pa = pow2(a);
        assert(pa * x + (pa * w) * t == pa * (x + w * t)) by (nonlinear_arith);
        let m = (a + b - 1) as nat;
        assert(m == a + (b - 1) as nat);
        assert(pow2(m) == pa * w);
        assert(bits_value(inp, pos, a + b) == bits_value(inp, pos, m) + pow2(m) * t);
        assert(bits_value(inp, pos + a, b) == x + w * t);
        assert(bits_value(inp, pos, a + b) == bits_value(inp, pos, a) + pa * x + (pa * w) * t);
    } else {
        assert(a + b == a);
        assert(bits_value(inp, pos + a, b) == 0);
        assert(pow2(a) * 0 == 0) by (nonlinear_arith);
    }
}

/// The stream of a single final stored block holding `data`: header bits
/// `BFINAL = 1, BTYPE = 0`, then the length and its complement, then the bytes.
pub open spec fn stored_stream(data: Seq<u8>) -> Seq<u8> {
    let n = data.len();
    seq![
        1u8,
        (n % 256) as u8,
        (n / 256) as u8,
        (255 - n % 256) as u8,
        (255 - n / 256) as u8,
    ] + data
}

/// A single final stored block decodes to exactly the bytes it holds.
pub proof fn stored_block_identity(data: Seq<u8>)
    requires
        data.len() < 65536,
    ensures
        inflate_spec(stored_stream(data)) == Ok::<Seq<u8>, InflateError>(data),
{
    let inp = stored_stream(data);
    let n = data.len();
    lemma2_to64();
    lemma_bits_step(inp, 0, 0);
    lemma_bits_step(inp, 1, 0);
    lemma_bits_step(inp, 1, 1);
    assert(inp[0] == 1u8);
    assert((1u8 >> 0u8) & 1u8 == 1u8) by (bit_vector);
    assert((1u8 >> 1u8) & 1u8 == 0u8) by (bit_vector);
    assert((1u8 >> 2u8) & 1u8 == 0u8) by (bit_vector);
    assert(bit_at(inp, 0) == 1);
    assert(bit_at(inp, 1) == 0);
    assert(bit_at(inp, 2) == 0);
    assert(bits_value(inp, 0, 1) == 1);
    assert(bits_value(inp, 1, 2) == 0);
    assert(align_up(3) == 8);
    lemma_byte_bits(inp, 1);
    lemma_byte_bits(inp, 2);
    lemma_bits_split(inp, 8, 8, 8);
    assert(bits_value(inp, 8, 16) == n);
    assert(inp.subrange(5, 5 + n as int) =~= data);
    assert(stored_spec(inp, 3, Seq::empty()) == Ok::<(int, Seq<u8>), InflateError>(
        (40 + 8 * n as int, data),
    ));
    assert(Seq::<u8>::empty() + data =~= data);
}

/// The repeat counts of the code-length run symbols: 3 to 6 for 16, 3 to 10
/// for 17 and 11 to 138 for 18, the ends reached at the smallest and largest
/// extra values.
pub proof fn run_count_ranges(sym: int, extra: int)
    requires
        16 <= sym <= 18,
        0 <= extra < pow2(run_extra(sym) as nat),
    ensures
        sym == 16 ==> 3 <= run_count(sym, extra) <= 6,
        sym == 17 ==> 3 <= run_count(sym, extra) <= 10,
        sym == 18 ==> 11 <= run_count(sym, extra) <= 138,
        extra == 0 ==> run_count(sym, extra) == if sym == 18 {
            11int
        } else {
            3int
        },
        extra == pow2(run_extra(sym) as nat) - 1 ==> run_count(sym, extra) == if sym == 16 {
            6int
        } else if sym == 17 {
            10int
        } else {
            138int
        },
{
    lemma2_to64();
}

/// A back-reference of distance 1 repeats the last byte `len` times.
pub proof fn distance_one_repeats_last(out: Seq<u8>, len: nat)
    requires
        out.len() >= 1,
    ensures
        copy_back(out, 1, len) == out + Seq::new(len, |i: int| out.last()),
    decreases len,
{
    if len > 0 {
        let next = out.push(out[out.len() - 1]);
        distance_one_repeats_last(next, (len - 1) as nat);
        assert(next.last() == out.last());
        assert(next + Seq::new((len - 1) as nat, |i: int| next.last()) =~= out + Seq::new(
            len,
            |i: int| out.last(),
        ));
    }
}

/// A block whose literal/length or distance code lengths are over-subscribed
/// fails with that error and yields no output.
pub proof fn over_subscribed_block_fails(
    lit: Seq<u16>,
    dist: Seq<u16>,
    inp: Seq<u8>,
    pos: int,
    out: Seq<u8>,
)
    requires
        over_subscribed(lit) || over_subscribed(dist),
    ensures
        coded_block(lit, dist, inp, pos, out) == Err::<(int, Seq<u8>), InflateError>(
            InflateError::OverSubscribed,
        ),
{
}

/// `o` begins with `out`.
pub open spec fn extends(o: Seq<u8>, out: Seq<u8>) -> bool {
    out.len() <= o.len() && o.subrange(0, out.len() as int) == out
}

proof fn lemma_extends_trans(a: Seq<u8>, b: Seq<u8>, c: Seq<u8>)
    requires
        extends(a, b),
        extends(b, c),
    ensures
        extends(a, c),
{
    assert(a.subrange(0, c.len() as int) =~= b.subrange(0, c.len() as int));
}

proof fn lemma_push_extends(out: Seq<u8>, c: u8)
    ensures
        extends(out.push(c), out),
{
    assert(out.push(c).subrange(0, out.len() as int) =~= out);
}

proof fn lemma_copy_back_extends(out: Seq<u8>, d: int, len: nat)
    ensures
        extends(copy_back(out, d, len), out),
    decreases len,
{
    if len == 0 {
        assert(out.subrange(0, out.len() as int) =~= out);
    } else {
        let next = out.push(out[out.len() - d]);
        lemma_push_extends(out, out[out.len() - d]);
        lemma_copy_back_extends(next, d, (len - 1) as nat);
        lemma_extends_trans(copy_back(out, d, len), next, out);
    }
}

proof fn lemma_codes_extends(lit: Seq<u16>, dist: Seq<u16>, inp: Seq<u8>, pos: int, out: Seq<u8>)
    ensures
        codes_spec(lit, dist, inp, pos, out) matches Ok((p2, o2)) ==> extends(o2, out),
    decreases bit_len(inp) - pos,
{
    lemma_decode_advances(lit, inp, pos);
    assert(out.subrange(0, out.len() as int) =~= out);
    if let Ok((sym, p1)) = huff_decode(lit, inp, pos) {
        if sym < 256 {
            let next = out.push(sym as u8);
            lemma_push_extends(out, sym as u8);
            lemma_codes_extends(lit, dist, inp, p1, next);
            if let Ok((p2, o2)) = codes_spec(lit, dist, inp, p1, next) {
                lemma_extends_trans(o2, next, out);
            }
        } else if 256 < sym <= 285 {
            let le = length_extra(sym - 257);
            let len = length_base(sym - 257) + bits_value(inp, p1, le as nat);
            lemma_decode_advances(dist, inp, p1 + le);
            if let Ok((dsym, p3)) = huff_decode(dist, inp, p1 + le) {
                let de = dist_extra(dsym);
                let d = dist_base(dsym) + bits_value(inp, p3, de as nat);
                if dsym <= 29 && p3 + de <= bit_len(inp) && d <= out.len() {
                    let next = copy_back(out, d, len as nat);
                    lemma_copy_back_extends(out, d, len as nat);
                    lemma_codes_extends(lit, dist, inp, p3 + de, next);
                    if let Ok((p2, o2)) = codes_spec(lit, dist, inp, p3 + de, next) {
                        lemma_extends_trans(o2, next, out);
                    }
                }
            }
        }
    }
}

proof fn lemma_block_extends(inp: Seq<u8>, pos: int, out: Seq<u8>)
    ensures
        block_spec(inp, pos, out) matches Ok((p2, o2)) ==> extends(o2, out),
{
    let kind = bits_value(inp, pos + 1, 2);
    if kind == 0 {
        if let Ok((p2, o2)) = stored_spec(inp, pos + 3, out) {
            assert(o2.subrange(0, out.len() as int) =~= out);
        }
    } else if kind == 1 {
        lemma_codes_extends(fixed_lit_lengths(), fixed_dist_lengths(), inp, pos + 3, out);
    } else if kind == 2 {
        let p = pos + 3;
        let nlen = bits_value(inp, p, 5) + 257int;
        let ndist = bits_value(inp, p + 5, 5) + 1int;
        let ncode = bits_value(inp, p + 10, 4) + 4int;
        let cl = cl_lengths(inp, p + 14, ncode);
        let start = p + 14 + 3 * ncode;
        if let Ok((p2, lens)) = read_lengths(cl, inp, start, nlen + ndist, Seq::empty()) {
            lemma_codes_extends(
                lens.subrange(0, nlen as int),
                lens.subrange(nlen as int, nlen + ndist),
                inp,
                p2,
                out,
            );
        }
    }
}

/// Blocks are decoded in stream order: what they produce is appended to what
/// the earlier blocks produced, which stays as it was.
pub proof fn blocks_append_in_order(inp: Seq<u8>, pos: int, out: Seq<u8>)
    ensures
        blocks_spec(inp, pos, out) matches Ok(o) ==> extends(o, out),
    decreases bit_len(inp) - pos,
{
    if 0 <= pos && pos + 3 <= bit_len(inp) {
        lemma_block_advances(inp, pos, out);
        lemma_block_extends(inp, pos, out);
        if let Ok((p2, o2)) = block_spec(inp, pos, out) {
            if bits_value(inp, pos, 1) != 1 {
                blocks_append_in_order(inp, p2, o2);
                if let Ok(o) = blocks_spec(inp, p2, o2) {
                    lemma_extends_trans(o, o2, out);
                }
            }
        }
    }
}

/// A first block that is stored and not final contributes its bytes, and the
/// rest of the stream decodes on from the output it leaves, so later blocks may
/// refer back to those bytes.
pub proof fn stored_block_then_rest(inp: Seq<u8>, pos: int, out: Seq<u8>)
    requires
        0 <= pos,
        pos + 3 <= bit_len(inp),
        bits_value(inp, pos, 1) == 0,
        bits_value(inp, pos + 1, 2) == 0,
        stored_spec(inp, pos + 3, out) is Ok,
    ensures
        ({
            let (p2, o2) = stored_spec(inp, pos + 3, out)->Ok_0;
            let p = align_up(pos + 3);
            let n = bits_value(inp, p, 16) as int;
            &&& o2 == out + inp.subrange((p + 32) / 8, (p + 32) / 8 + n)
            &&& blocks_spec(inp, pos, out) == blocks_spec(inp, p2, o2)
        }),
{
}

} // verus!
