//! What a DEFLATE stream decodes to: blocks, symbols and back-references, stated
//! over the bits of the input.
use crate::bits::{align_up, bit_len, bits_value, InflateError};
use crate::huffman::{huff_decode, lemma_decode_advances, over_subscribed};
use crate::tables::{cl_order, dist_base, dist_extra, length_base, length_extra};
use crate::window::copy_back;
use vstd::prelude::*;

verus! {

/// Symbols of a fixed or dynamic block from bit `pos` up to and including the
/// end-of-block symbol, appended to `out`; with the position after the block.
pub open spec fn codes_spec(
    lit: Seq<u16>,
    dist: Seq<u16>,
    inp: Seq<u8>,
    pos: int,
    out: Seq<u8>,
) -> Result<(int, Seq<u8>), InflateError>
    decreases bit_len(inp) - pos,
{
    match huff_decode(lit, inp, pos) {
        Err(e) => Err(e),
        Ok((sym, p1)) => {
            proof {
                lemma_decode_advances(lit, inp, pos);
            }
            if sym < 256 {
                codes_spec(lit, dist, inp, p1, out.push(sym as u8))
            } else if sym == 256 {
                Ok((p1, out))
            } else if sym > 285 {
                Err(InflateError::InvalidSymbol)
            } else {
                let le = length_extra(sym - 257);
                if p1 + le > bit_len(inp) {
                    Err(InflateError::Truncated)
                } else {
                    let len = length_base(sym - 257) + bits_value(inp, p1, le as nat);
                    match huff_decode(dist, inp, p1 + le) {
                        Err(e) => Err(e),
                        Ok((dsym, p3)) => {
                            proof {
                                lemma_decode_advances(dist, inp, p1 + le);
                            }
                            if dsym > 29 {
                                Err(InflateError::InvalidSymbol)
                            } else {
                                let de = dist_extra(dsym);
                                if p3 + de > bit_len(inp) {
                                    Err(InflateError::Truncated)
                                } else {
                                    let d = dist_base(dsym) + bits_value(inp, p3, de as nat);
                                    if d > out.len() {
                                        Err(InflateError::DistanceTooFar)
                                    } else {
                                        codes_spec(
                                            lit,
                                            dist,
                                            inp,
                                            p3 + de,
                                            copy_back(out, d, len as nat),
                                        )
                                    }
                                }
                            }
                        },
                    }
                }
            }
        },
    }
}

/// A block coded with the tables of lengths `lit` and `dist`.
pub open spec fn coded_block(
    lit: Seq<u16>,
    dist: Seq<u16>,
    inp: Seq<u8>,
    pos: int,
    out: Seq<u8>,
) -> Result<(int, Seq<u8>), InflateError> {
    if over_subscribed(lit) || over_subscribed(dist) {
        Err(InflateError::OverSubscribed)
    } else {
        codes_spec(lit, dist, inp, pos, out)
    }
}

/// A stored block whose header ends at bit `pos`.
pub open spec fn stored_spec(inp: Seq<u8>, pos: int, out: Seq<u8>) -> Result<
    (int, Seq<u8>),
    InflateError,
> {
    let p = align_up(pos);
    if p + 32 > bit_len(inp) {
        Err(InflateError::Truncated)
    } else {
        let n = bits_value(inp, p, 16) as int;
        let start = (p + 32) / 8;
        if start + n > inp.len() {
            Err(InflateError::Truncated)
        } else {
            Ok((p + 32 + 8 * n, out + inp.subrange(start, start + n)))
        }
    }
}

/// Code lengths of the fixed literal/length code.
pub open spec fn fixed_lit_lengths() -> Seq<u16> {
    Seq::new(
        288,
        |i: int|
            if i < 144 {
                8u16
            } else if i < 256 {
                9u16
            } else if i < 280 {
                7u16
            } else {
                8u16
            },
    )
}

/// Code lengths of the fixed distance code.
pub open spec fn fixed_dist_lengths() -> Seq<u16> {
    Seq::new(30, |i: int| 5u16)
}

/// A block coded with the fixed tables.
pub open spec fn fixed_spec(inp: Seq<u8>, pos: int, out: Seq<u8>) -> Result<
    (int, Seq<u8>),
    InflateError,
> {
    coded_block(fixed_lit_lengths(), fixed_dist_lengths(), inp, pos, out)
}

/// The code-length code's lengths after the first `k` 3-bit fields from `pos`,
/// each stored at its place in the permutation.
pub open spec fn cl_lengths(inp: Seq<u8>, pos: int, k: int) -> Seq<u16>
    decreases k,
{
    if k <= 0 {
        Seq::new(19, |i: int| 0u16)
    } else {
        cl_lengths(inp, pos, k - 1).update(
            cl_order(k - 1),
            bits_value(inp, pos + 3 * (k - 1), 3) as u16,
        )
    }
}

/// Extra bits after code-length symbol 16, 17 or 18.
pub open spec fn run_extra(sym: int) -> int {
    if sym == 16 {
        2
    } else if sym == 17 {
        3
    } else {
        7
    }
}

/// How many times code-length symbol 16, 17 or 18 with extra value `extra` repeats.
pub open spec fn run_count(sym: int, extra: int) -> int {
    if sym == 18 {
        11 + extra
    } else {
        3 + extra
    }
}

/// Code lengths of a dynamic block, decoded with the code-length code `cl` from
/// bit `pos` and appended to `acc` until `total` of them are known; with the
/// position after them.
pub open spec fn read_lengths(
    cl: Seq<u16>,
    inp: Seq<u8>,
    pos: int,
    total: int,
    acc: Seq<u16>,
) -> Result<(int, Seq<u16>), InflateError>
    decreases total - acc.len(),
{
    if acc.len() >= total {
        Ok((pos, acc))
    } else {
        match huff_decode(cl, inp, pos) {
            Err(e) => Err(e),
            Ok((sym, p1)) => {
                if sym < 16 {
                    read_lengths(cl, inp, p1, total, acc.push(sym as u16))
                } else if sym == 16 && acc.len() == 0 {
                    Err(InflateError::InvalidLengths)
                } else if p1 + run_extra(sym) > bit_len(inp) {
                    Err(InflateError::Truncated)
                } else {
                    let rep = run_count(sym, bits_value(inp, p1, run_extra(sym) as nat) as int);
                    let val = if sym == 16 {
                        acc.last()
                    } else {
                        0u16
                    };
                    if acc.len() + rep > total {
                        Err(InflateError::InvalidLengths)
                    } else {
                        read_lengths(
                            cl,
                            inp,
                            p1 + run_extra(sym),
                            total,
                            acc + Seq::new(rep as nat, |i: int| val),
                        )
                    }
                }
            },
        }
    }
}

/// A dynamic block whose header ends at bit `pos`.
pub open spec fn dynamic_spec(inp: Seq<u8>, pos: int, out: Seq<u8>) -> Result<
    (int, Seq<u8>),
    InflateError,
> {
    if pos + 14 > bit_len(inp) {
        Err(InflateError::Truncated)
    } else {
        let nlen = bits_value(inp, pos, 5) + 257int;
        let ndist = bits_value(inp, pos + 5, 5) + 1int;
        let ncode = bits_value(inp, pos + 10, 4) + 4int;
        if nlen > 286 || ndist > 30 {
            Err(InflateError::InvalidLengths)
        } else if pos + 14 + 3 * ncode > bit_len(inp) {
            Err(InflateError::Truncated)
        } else {
            let cl = cl_lengths(inp, pos + 14, ncode);
            if over_subscribed(cl) {
                Err(InflateError::OverSubscribed)
            } else {
                match read_lengths(cl, inp, pos + 14 + 3 * ncode, nlen + ndist, Seq::empty()) {
                    Err(e) => Err(e),
                    Ok((p2, lens)) => coded_block(
                        lens.subrange(0, nlen as int),
                        lens.subrange(nlen as int, nlen + ndist),
                        inp,
                        p2,
                        out,
                    ),
                }
            }
        }
    }
}

/// One block, its header starting at bit `pos`: the position after it and the
/// output so far.
pub open spec fn block_spec(inp: Seq<u8>, pos: int, out: Seq<u8>) -> Result<
    (int, Seq<u8>),
    InflateError,
> {
    let kind = bits_value(inp, pos + 1, 2);
    if kind == 0 {
        stored_spec(inp, pos + 3, out)
    } else if kind == 1 {
        fixed_spec(inp, pos + 3, out)
    } else if kind == 2 {
        dynamic_spec(inp, pos + 3, out)
    } else {
        Err(InflateError::InvalidBlockType)
    }
}

/// The blocks from bit `pos` up to and including the final one, appended to `out`.
pub open spec fn blocks_spec(inp: Seq<u8>, pos: int, out: Seq<u8>) -> Result<
    Seq<u8>,
    InflateError,
>
    decreases bit_len(inp) - pos,
{
    if pos < 0 || pos + 3 > bit_len(inp) {
        Err(InflateError::Truncated)
    } else {
        match block_spec(inp, pos, out) {
            Err(e) => Err(e),
            Ok((p2, o2)) => {
                proof {
                    lemma_block_advances(inp, pos, out);
                }
                if bits_value(inp, pos, 1) == 1 {
                    Ok(o2)
                } else {
                    blocks_spec(inp, p2, o2)
                }
            },
        }
    }
}

/// What a whole stream decodes to.
pub open spec fn inflate_spec(inp: Seq<u8>) -> Result<Seq<u8>, InflateError> {
    blocks_spec(inp, 0, Seq::empty())
}

pub proof fn lemma_codes_advances(
    lit: Seq<u16>,
    dist: Seq<u16>,
    inp: Seq<u8>,
    pos: int,
    out: Seq<u8>,
)
    ensures
        codes_spec(lit, dist, inp, pos, out) matches Ok((p2, o2)) ==> pos < p2 <= bit_len(inp),
    decreases bit_len(inp) - pos,
{
    lemma_decode_advances(lit, inp, pos);
    if let Ok((sym, p1)) = huff_decode(lit, inp, pos) {
        if sym < 256 {
            lemma_codes_advances(lit, dist, inp, p1, out.push(sym as u8));
        } else if 256 < sym <= 285 {
            let le = length_extra(sym - 257);
            let len = length_base(sym - 257) + bits_value(inp, p1, le as nat);
            lemma_decode_advances(dist, inp, p1 + le);
            if let Ok((dsym, p3)) = huff_decode(dist, inp, p1 + le) {
                let de = dist_extra(dsym);
                let d = dist_base(dsym) + bits_value(inp, p3, de as nat);
                if dsym <= 29 && p3 + de <= bit_len(inp) && d <= out.len() {
                    lemma_codes_advances(lit, dist, inp, p3 + de, copy_back(out, d, len as nat));
                }
            }
        }
    }
}

pub proof fn lemma_read_lengths_advances(
    cl: Seq<u16>,
    inp: Seq<u8>,
    pos: int,
    total: int,
    acc: Seq<u16>,
)
    requires
        pos <= bit_len(inp),
    ensures
        read_lengths(cl, inp, pos, total, acc) matches Ok((p2, l)) ==> pos <= p2 <= bit_len(inp),
    decreases total - acc.len(),
{
    if acc.len() < total {
        lemma_decode_advances(cl, inp, pos);
        if let Ok((sym, p1)) = huff_decode(cl, inp, pos) {
            if sym < 16 {
                lemma_read_lengths_advances(cl, inp, p1, total, acc.push(sym as u16));
            } else if !(sym == 16 && acc.len() == 0) && p1 + run_extra(sym) <= bit_len(inp) {
                let rep = run_count(sym, bits_value(inp, p1, run_extra(sym) as nat) as int);
                let val = if sym == 16 {
                    acc.last()
                } else {
                    0u16
                };
                if acc.len() + rep <= total {
                    lemma_read_lengths_advances(
                        cl,
                        inp,
                        p1 + run_extra(sym),
                        total,
                        acc + Seq::new(rep as nat, |i: int| val),
                    );
                }
            }
        }
    }
}

/// A decoded block takes at least its three header bits, and no bit past the end.
pub proof fn lemma_block_advances(inp: Seq<u8>, pos: int, out: Seq<u8>)
    requires
        0 <= pos,
        pos + 3 <= bit_len(inp),
    ensures
        block_spec(inp, pos, out) matches Ok((p2, o2)) ==> pos < p2 <= bit_len(inp),
{
    let kind = bits_value(inp, pos + 1, 2);
    if kind == 1 {
        lemma_codes_advances(fixed_lit_lengths(), fixed_dist_lengths(), inp, pos + 3, out);
    } else if kind == 2 {
        let p = pos + 3;
        if p + 14 <= bit_len(inp) {
            let nlen = bits_value(inp, p, 5) + 257int;
            let ndist = bits_value(inp, p + 5, 5) + 1int;
            let ncode = bits_value(inp, p + 10, 4) + 4int;
            let cl = cl_lengths(inp, p + 14, ncode);
            if p + 14 + 3 * ncode <= bit_len(inp) {
                let start = p + 14 + 3 * ncode;
                lemma_read_lengths_advances(cl, inp, start, nlen + ndist, Seq::empty());
                if let Ok((p2, lens)) = read_lengths(
                    cl,
                    inp,
                    p + 14 + 3 * ncode,
                    nlen + ndist,
                    Seq::empty(),
                ) {
                    lemma_codes_advances(
                        lens.subrange(0, nlen as int),
                        lens.subrange(nlen as int, nlen + ndist),
                        inp,
                        p2,
                        out,
                    );
                }
            }
        }
    } else if kind == 0 {
        let p = align_up(pos + 3);
        assert(p <= pos + 3 + 7);
    }
}

} // verus!
