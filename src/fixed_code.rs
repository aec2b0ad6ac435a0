//! The fixed literal/length code: which symbols get which canonical codes, and
//! what a run of fixed-coded literals decodes to.
use crate::bits::{bit_at, bit_len, bits_value, lemma_bit_at_bound, InflateError};
use crate::huffman::{
    canon_upto, canonical_order, count_len, decode_from, huff_decode, over_subscribed, space_left,
    syms_with,
};
use crate::stream::{codes_spec, fixed_dist_lengths, fixed_lit_lengths, inflate_spec};
use vstd::prelude::*;

verus! {

/// The symbols with code length `len` among the first `n` fixed literal/length
/// symbols, in ascending order.
pub open spec fn fixed_syms(len: int, n: int) -> Seq<int> {
    if len == 7 {
        let k: nat = if n <= 256 {
            0
        } else if n <= 280 {
            (n - 256) as nat
        } else {
            24
        };
        Seq::new(k, |i: int| 256 + i)
    } else if len == 8 {
        if n <= 144 {
            Seq::new(if n < 0 { 0 } else { n as nat }, |i: int| i)
        } else if n <= 280 {
            Seq::new(144, |i: int| i)
        } else {
            Seq::new((144 + n - 280) as nat, |i: int| if i < 144 { i } else { 280 + i - 144 })
        }
    } else if len == 9 {
        let k: nat = if n <= 144 {
            0
        } else if n <= 256 {
            (n - 144) as nat
        } else {
            112
        };
        Seq::new(k, |i: int| 144 + i)
    } else {
        Seq::empty()
    }
}

proof fn lemma_fixed_syms(len: int, n: int)
    requires
        0 <= n <= 288,
    ensures
        syms_with(fixed_lit_lengths(), len, n) == fixed_syms(len, n),
    decreases n,
{
    if n > 0 {
        lemma_fixed_syms(len, n - 1);
        assert(syms_with(fixed_lit_lengths(), len, n) =~= fixed_syms(len, n));
    } else {
        assert(syms_with(fixed_lit_lengths(), len, n) =~= fixed_syms(len, n));
    }
}

proof fn lemma_fixed_canon_tail(len: int)
    requires
        9 <= len <= 15,
    ensures
        canon_upto(fixed_lit_lengths(), len) == canon_upto(fixed_lit_lengths(), 9),
    decreases len,
{
    if len > 9 {
        lemma_fixed_canon_tail(len - 1);
        lemma_fixed_syms(len, 288);
        assert(canon_upto(fixed_lit_lengths(), len) =~= canon_upto(fixed_lit_lengths(), len - 1));
    }
}

proof fn lemma_fixed_canon_head(len: int)
    requires
        0 <= len <= 6,
    ensures
        canon_upto(fixed_lit_lengths(), len) == Seq::<int>::empty(),
    decreases len,
{
    if len > 0 {
        lemma_fixed_canon_head(len - 1);
        lemma_fixed_syms(len, 288);
        assert(canon_upto(fixed_lit_lengths(), len) =~= Seq::<int>::empty());
    }
}

/// The counts and the canonical order of the fixed literal/length code.
pub proof fn lemma_fixed_table()
    ensures
        forall|len: int|
            1 <= len <= 6 ==> #[trigger] count_len(fixed_lit_lengths(), len) == 0,
        count_len(fixed_lit_lengths(), 7) == 24,
        count_len(fixed_lit_lengths(), 8) == 152,
        count_len(fixed_lit_lengths(), 9) == 112,
        canonical_order(fixed_lit_lengths()).len() == 288,
        forall|k: int|
            0 <= k < 24 ==> #[trigger] canonical_order(fixed_lit_lengths())[k] == 256 + k,
        forall|k: int|
            24 <= k < 168 ==> #[trigger] canonical_order(fixed_lit_lengths())[k] == k - 24,
        forall|k: int|
            168 <= k < 176 ==> #[trigger] canonical_order(fixed_lit_lengths())[k] == 280 + k - 168,
        forall|k: int|
            176 <= k < 288 ==> #[trigger] canonical_order(fixed_lit_lengths())[k] == 144 + k - 176,
{
    let f = fixed_lit_lengths();
    assert forall|len: int| 1 <= len <= 6 implies #[trigger] count_len(f, len) == 0 by {
        lemma_fixed_syms(len, 288);
    }
    lemma_fixed_syms(7, 288);
    lemma_fixed_syms(8, 288);
    lemma_fixed_syms(9, 288);
    lemma_fixed_canon_head(6);
    lemma_fixed_canon_tail(15);
    let s7 = fixed_syms(7, 288);
    let s8 = fixed_syms(8, 288);
    let s9 = fixed_syms(9, 288);
    assert(canon_upto(f, 7) =~= s7);
    assert(canon_upto(f, 8) =~= s7 + s8);
    assert(canon_upto(f, 9) =~= s7 + s8 + s9);
}

/// The `n` bits from `pos` read as a Huffman code, the first bit most significant.
pub open spec fn code_value(inp: Seq<u8>, pos: int, n: nat) -> nat
    decreases n,
{
    if n == 0 {
        0
    } else {
        2 * code_value(inp, pos, (n - 1) as nat) + bit_at(inp, pos + n - 1)
    }
}

/// The fixed code of literal/length symbol `v`.
pub open spec fn fixed_code(v: int) -> int {
    if v < 144 {
        0x30 + v
    } else if v < 256 {
        0x190 + v - 144
    } else if v < 280 {
        v - 256
    } else {
        0xc0 + v - 280
    }
}

/// The length of the fixed code of literal/length symbol `v`.
pub open spec fn fixed_code_len(v: int) -> nat {
    if v < 144 {
        8
    } else if v < 256 {
        9
    } else if v < 280 {
        7
    } else {
        8
    }
}

/// The fixed code of symbol `v` stands in the stream at bit `pos`.
pub open spec fn fixed_code_at(inp: Seq<u8>, pos: int, v: int) -> bool {
    &&& 0 <= pos
    &&& pos + fixed_code_len(v) <= bit_len(inp)
    &&& code_value(inp, pos, fixed_code_len(v)) == fixed_code(v)
}

proof fn lemma_code_value_halves(inp: Seq<u8>, pos: int, n: nat)
    requires
        n >= 1,
    ensures
        code_value(inp, pos, (n - 1) as nat) == code_value(inp, pos, n) / 2,
{
    lemma_bit_at_bound(inp, pos + n - 1);
}

proof fn lemma_leading_steps(inp: Seq<u8>, pos: int, len: int)
    requires
        1 <= len <= 7,
        0 <= pos,
        pos + 6 < bit_len(inp),
    ensures
        huff_decode(fixed_lit_lengths(), inp, pos) == decode_from(
            fixed_lit_lengths(),
            inp,
            pos + len - 1,
            len,
            2 * code_value(inp, pos, (len - 1) as nat) as int,
            0,
            0,
        ),
    decreases len,
{
    lemma_fixed_table();
    if len > 1 {
        lemma_leading_steps(inp, pos, len - 1);
        let f = fixed_lit_lengths();
        let l = len - 1;
        assert(count_len(f, l) == 0);
        assert(code_value(inp, pos, l as nat) == 2 * code_value(inp, pos, (l - 1) as nat)
            + bit_at(inp, pos + l - 1));
    }
}

/// Reading the fixed code of a symbol decodes that symbol and consumes its code.
pub proof fn lemma_fixed_decode(inp: Seq<u8>, pos: int, v: int)
    requires
        0 <= v < 288,
        fixed_code_at(inp, pos, v),
    ensures
        huff_decode(fixed_lit_lengths(), inp, pos) == Ok::<(int, int), InflateError>(
            (v, pos + fixed_code_len(v)),
        ),
{
    let f = fixed_lit_lengths();
    lemma_fixed_table();
    lemma_leading_steps(inp, pos, 7);
    let n = fixed_code_len(v);
    let c7 = code_value(inp, pos, 7);
    assert(c7 == 2 * code_value(inp, pos, 6) + bit_at(inp, pos + 6));
    if n == 7 {
        assert(c7 < 24);
        assert(canonical_order(f)[c7 as int] == v);
        assert(decode_from(f, inp, pos + 6, 7, 2 * code_value(inp, pos, 6) as int, 0, 0) == Ok::<
            (int, int),
            InflateError,
        >((v, pos + 7)));
    } else if n == 8 {
        lemma_code_value_halves(inp, pos, 8);
        let c8 = code_value(inp, pos, 8);
        assert(c7 >= 24);
        assert(c8 == 2 * c7 + bit_at(inp, pos + 7));
        assert(48 <= c8 < 200);
        if v < 144 {
            assert(canonical_order(f)[24 + c8 - 48] == v);
        } else {
            assert(canonical_order(f)[24 + c8 - 48] == v);
        }
        assert(decode_from(f, inp, pos + 7, 8, 2 * c7 as int, 48, 24) == Ok::<
            (int, int),
            InflateError,
        >((v, pos + 8)));
        assert(decode_from(f, inp, pos + 6, 7, 2 * code_value(inp, pos, 6) as int, 0, 0)
            == decode_from(f, inp, pos + 7, 8, 2 * c7 as int, 48, 24));
    } else {
        lemma_code_value_halves(inp, pos, 9);
        lemma_code_value_halves(inp, pos, 8);
        let c8 = code_value(inp, pos, 8);
        let c9 = code_value(inp, pos, 9);
        assert(c7 >= 24);
        assert(c8 == 2 * c7 + bit_at(inp, pos + 7));
        assert(c8 >= 200);
        assert(c9 == 2 * c8 + bit_at(inp, pos + 8));
        assert(canonical_order(f)[176 + c9 - 400] == v);
        assert(decode_from(f, inp, pos + 8, 9, 2 * c8 as int, 400, 176) == Ok::<
            (int, int),
            InflateError,
        >((v, pos + 9)));
        assert(decode_from(f, inp, pos + 7, 8, 2 * c7 as int, 48, 24) == decode_from(
            f,
            inp,
            pos + 8,
            9,
            2 * c8 as int,
            400,
            176,
        ));
        assert(decode_from(f, inp, pos + 6, 7, 2 * code_value(inp, pos, 6) as int, 0, 0)
            == decode_from(f, inp, pos + 7, 8, 2 * c7 as int, 48, 24));
    }
}

proof fn lemma_fixed_dist_syms(len: int, n: int)
    requires
        0 <= n <= 30,
    ensures
        syms_with(fixed_dist_lengths(), len, n) == if len == 5 {
            Seq::new(n as nat, |i: int| i)
        } else {
            Seq::<int>::empty()
        },
    decreases n,
{
    if n > 0 {
        lemma_fixed_dist_syms(len, n - 1);
    }
    assert(syms_with(fixed_dist_lengths(), len, n) =~= if len == 5 {
        Seq::new(n as nat, |i: int| i)
    } else {
        Seq::<int>::empty()
    });
}

/// Neither fixed code is over-subscribed.
pub proof fn lemma_fixed_codes_fit()
    ensures
        !over_subscribed(fixed_lit_lengths()),
        !over_subscribed(fixed_dist_lengths()),
{
    let f = fixed_lit_lengths();
    let d = fixed_dist_lengths();
    lemma_fixed_table();
    assert forall|len: int| 10 <= len <= 15 implies #[trigger] count_len(f, len) == 0 by {
        lemma_fixed_syms(len, 288);
    }
    assert forall|len: int| 1 <= len <= 15 implies #[trigger] count_len(d, len) == if len == 5 {
        30int
    } else {
        0int
    } by {
        lemma_fixed_dist_syms(len, 30);
    }
    assert(space_left(f, 0) == 1);
    assert(space_left(f, 1) == 2);
    assert(space_left(f, 2) == 4);
    assert(space_left(f, 3) == 8);
    assert(space_left(f, 4) == 16);
    assert(space_left(f, 5) == 32);
    assert(space_left(f, 6) == 64);
    assert(space_left(f, 7) == 104);
    assert(space_left(f, 8) == 56);
    assert(space_left(f, 9) == 0);
    assert(space_left(f, 10) == 0);
    assert(space_left(f, 11) == 0);
    assert(space_left(f, 12) == 0);
    assert(space_left(f, 13) == 0);
    assert(space_left(f, 14) == 0);
    assert(space_left(f, 15) == 0);
    assert(space_left(d, 0) == 1);
    assert(space_left(d, 1) == 2);
    assert(space_left(d, 2) == 4);
    assert(space_left(d, 3) == 8);
    assert(space_left(d, 4) == 16);
    assert(space_left(d, 5) == 2);
    assert(space_left(d, 6) == 4);
    assert(space_left(d, 7) == 8);
    assert(space_left(d, 8) == 16);
    assert(space_left(d, 9) == 32);
    assert(space_left(d, 10) == 64);
    assert(space_left(d, 11) == 128);
    assert(space_left(d, 12) == 256);
    assert(space_left(d, 13) == 512);
    assert(space_left(d, 14) == 1024);
    assert(space_left(d, 15) == 2048);
    assert forall|len: int| 1 <= len <= 15 implies #[trigger] space_left(f, len) >= 0 by {}
    assert forall|len: int| 1 <= len <= 15 implies #[trigger] space_left(d, len) >= 0 by {}
}

/// `data` as fixed-coded literals from bit `pos`, then the end-of-block code.
pub open spec fn fixed_literals_at(inp: Seq<u8>, pos: int, data: Seq<u8>) -> bool
    decreases data.len(),
{
    if data.len() == 0 {
        fixed_code_at(inp, pos, 256)
    } else {
        fixed_code_at(inp, pos, data[0] as int) && fixed_literals_at(
            inp,
            pos + fixed_code_len(data[0] as int),
            data.drop_first(),
        )
    }
}

/// Number of bits that `data` takes as fixed-coded literals with the end-of-block code.
pub open spec fn fixed_literals_bits(data: Seq<u8>) -> nat
    decreases data.len(),
{
    if data.len() == 0 {
        7
    } else {
        fixed_code_len(data[0] as int) + fixed_literals_bits(data.drop_first())
    }
}

/// Fixed-coded literals followed by the end-of-block code decode to those bytes,
/// whatever the distance code.
pub proof fn fixed_literal_run(
    inp: Seq<u8>,
    pos: int,
    data: Seq<u8>,
    dist: Seq<u16>,
    out: Seq<u8>,
)
    requires
        fixed_literals_at(inp, pos, data),
    ensures
        codes_spec(fixed_lit_lengths(), dist, inp, pos, out) == Ok::<
            (int, Seq<u8>),
            InflateError,
        >((pos + fixed_literals_bits(data), out + data)),
    decreases data.len(),
{
    if data.len() == 0 {
        lemma_fixed_decode(inp, pos, 256);
        assert(out + data =~= out);
    } else {
        let v = data[0];
        lemma_fixed_decode(inp, pos, v as int);
        fixed_literal_run(
            inp,
            pos + fixed_code_len(v as int),
            data.drop_first(),
            dist,
            out.push(v),
        );
        assert(out.push(v) + data.drop_first() =~= out + data);
    }
}

/// A stream of one final fixed block that holds only literals decodes to those
/// bytes.
pub proof fn fixed_block_literals(inp: Seq<u8>, data: Seq<u8>)
    requires
        bits_value(inp, 0, 1) == 1,
        bits_value(inp, 1, 2) == 1,
        fixed_literals_at(inp, 3, data),
    ensures
        inflate_spec(inp) == Ok::<Seq<u8>, InflateError>(data),
{
    lemma_fixed_codes_fit();
    fixed_literal_run(inp, 3, data, fixed_dist_lengths(), Seq::empty());
    assert(Seq::<u8>::empty() + data =~= data);
    if data.len() == 0 {
        assert(fixed_code_at(inp, 3, 256));
    } else {
        assert(fixed_code_at(inp, 3, data[0] as int));
    }
}

} // verus!
