//! Canonical Huffman tables: building them from code lengths, and decoding
//! symbols with them.
use crate::bits::{bit_at, bit_len, lemma_bit_at_bound, BitCursor, InflateError};
use vstd::arithmetic::power2::{lemma2_to64, lemma_pow2_strictly_increases, lemma_pow2_unfold, pow2};
use vstd::prelude::*;

verus! {

/// The longest code length.
pub const MAXBITS: usize = 15;

/// In ascending order, the symbols among the first `n` of `lens` whose code length is `len`.
pub open spec fn syms_with(lens: Seq<u16>, len: int, n: int) -> Seq<int>
    decreases n,
{
    if n <= 0 {
        Seq::empty()
    } else {
        syms_with(lens, len, n - 1) + if lens[n - 1] as int == len {
            seq![n - 1]
        } else {
            Seq::empty()
        }
    }
}

/// Number of symbols whose code length is `len`.
pub open spec fn count_len(lens: Seq<u16>, len: int) -> int {
    syms_with(lens, len, lens.len() as int).len() as int
}

/// The symbols of code lengths 1 to `len`, shorter codes first, ties by symbol value.
pub open spec fn canon_upto(lens: Seq<u16>, len: int) -> Seq<int>
    decreases len,
{
    if len <= 0 {
        Seq::empty()
    } else {
        canon_upto(lens, len - 1) + syms_with(lens, len, lens.len() as int)
    }
}

/// All used symbols in the order of their canonical codes.
pub open spec fn canonical_order(lens: Seq<u16>) -> Seq<int> {
    canon_upto(lens, MAXBITS as int)
}

/// How many codes of length `len` are still free once the codes of lengths
/// 1 to `len` are given out (negative when more were asked for than exist).
pub open spec fn space_left(lens: Seq<u16>, len: int) -> int
    decreases len,
{
    if len <= 0 {
        1
    } else {
        2 * space_left(lens, len - 1) - count_len(lens, len)
    }
}

/// The lengths ask for more codes of some length than that length allows.
pub open spec fn over_subscribed(lens: Seq<u16>) -> bool {
    exists|len: int| 1 <= len <= MAXBITS && #[trigger] space_left(lens, len) < 0
}

/// Every code length lies in 0 to 15.
pub open spec fn lengths_in_range(lens: Seq<u16>) -> bool {
    forall|i: int| 0 <= i < lens.len() ==> lens[i] <= MAXBITS
}

/// Canonical decoding, one bit at a time. `code` holds the code bits read so far
/// (the first most significant), shifted left once; `first` is the first code of
/// length `len` and `index` the number of symbols with shorter codes.
pub open spec fn decode_from(
    lens: Seq<u16>,
    inp: Seq<u8>,
    pos: int,
    len: int,
    code: int,
    first: int,
    index: int,
) -> Result<(int, int), InflateError>
    decreases 16 - len,
{
    if len > MAXBITS {
        Err(InflateError::InvalidCode)
    } else if pos >= bit_len(inp) {
        Err(InflateError::Truncated)
    } else {
        let c = code + bit_at(inp, pos);
        let count = count_len(lens, len);
        if c < first + count {
            Ok((canonical_order(lens)[index + c - first], pos + 1))
        } else {
            decode_from(lens, inp, pos + 1, len + 1, 2 * c, 2 * (first + count), index + count)
        }
    }
}

/// The symbol whose code starts at bit `pos`, and the position after that code.
pub open spec fn huff_decode(lens: Seq<u16>, inp: Seq<u8>, pos: int) -> Result<
    (int, int),
    InflateError,
> {
    decode_from(lens, inp, pos, 1, 0, 0, 0)
}

pub proof fn lemma_decode_from_advances(
    lens: Seq<u16>,
    inp: Seq<u8>,
    pos: int,
    len: int,
    code: int,
    first: int,
    index: int,
)
    ensures
        decode_from(lens, inp, pos, len, code, first, index) matches Ok((s, p2)) ==> pos < p2
            <= bit_len(inp),
    decreases 16 - len,
{
    if len <= MAXBITS && pos < bit_len(inp) {
        let c = code + bit_at(inp, pos);
        let count = count_len(lens, len);
        lemma_decode_from_advances(
            lens,
            inp,
            pos + 1,
            len + 1,
            2 * c,
            2 * (first + count),
            index + count,
        );
    }
}

/// A decoded code takes at least one bit, and no bit past the end.
pub proof fn lemma_decode_advances(lens: Seq<u16>, inp: Seq<u8>, pos: int)
    ensures
        huff_decode(lens, inp, pos) matches Ok((s, p2)) ==> pos < p2 <= bit_len(inp),
{
    lemma_decode_from_advances(lens, inp, pos, 1, 0, 0, 0);
}

pub proof fn lemma_syms_with(lens: Seq<u16>, len: int, n: int)
    requires
        0 <= n <= lens.len(),
    ensures
        syms_with(lens, len, n).len() <= n,
        forall|k: int|
            0 <= k < syms_with(lens, len, n).len() ==> 0 <= #[trigger] syms_with(lens, len, n)[k]
                < n,
    decreases n,
{
    if n > 0 {
        lemma_syms_with(lens, len, n - 1);
    }
}

pub proof fn lemma_canon_upto(lens: Seq<u16>, len: int)
    requires
        0 <= len <= MAXBITS,
    ensures
        canon_upto(lens, len).len() <= canonical_order(lens).len(),
        canonical_order(lens).len() <= MAXBITS * lens.len(),
    decreases MAXBITS - len,
{
    if len < MAXBITS {
        lemma_canon_upto(lens, len + 1);
    } else {
        lemma_canon_len(lens, len);
    }
}

proof fn lemma_canon_len(lens: Seq<u16>, len: int)
    requires
        0 <= len <= MAXBITS,
    ensures
        canon_upto(lens, len).len() <= len * lens.len(),
        forall|k: int|
            0 <= k < canon_upto(lens, len).len() ==> 0 <= #[trigger] canon_upto(lens, len)[k]
                < lens.len(),
    decreases len,
{
    if len > 0 {
        lemma_canon_len(lens, len - 1);
        lemma_syms_with(lens, len, lens.len() as int);
        let a = canon_upto(lens, len - 1);
        let b = syms_with(lens, len, lens.len() as int);
        assert forall|k: int|
            0 <= k < canon_upto(lens, len).len() implies 0 <= #[trigger] canon_upto(lens, len)[k]
                < lens.len() by {
            if k < a.len() {
                assert(canon_upto(lens, len)[k] == a[k]);
            } else {
                assert(canon_upto(lens, len)[k] == b[k - a.len()]);
            }
        }
        assert((len - 1) * lens.len() + lens.len() == len * lens.len()) by (nonlinear_arith);
    }
}

/// Every symbol of the canonical order is a position of the length list.
pub proof fn lemma_canonical_symbols(lens: Seq<u16>)
    ensures
        forall|k: int|
            0 <= k < canonical_order(lens).len() ==> 0 <= #[trigger] canonical_order(lens)[k]
                < lens.len(),
{
    lemma_canon_len(lens, MAXBITS as int);
}

/// A decoding table: the number of codes of each length, and the symbols in
/// canonical order.
pub struct Huffman {
    count: Vec<u16>,
    symbol: Vec<u16>,
    lens: Ghost<Seq<u16>>,
}

impl View for Huffman {
    type V = Seq<u16>;

    /// The code lengths the table was built from.
    closed spec fn view(&self) -> Seq<u16> {
        self.lens@
    }
}

impl Huffman {
    pub closed spec fn wf(&self) -> bool {
        &&& self.count@.len() == MAXBITS + 1
        &&& self.lens@.len() <= 65535
        &&& forall|len: int|
            1 <= len <= MAXBITS ==> #[trigger] self.count@[len] as int == count_len(self.lens@, len)
        &&& self.symbol@.len() == canonical_order(self.lens@).len()
        &&& forall|k: int|
            0 <= k < self.symbol@.len() ==> #[trigger] self.symbol@[k] as int == canonical_order(
                self.lens@,
            )[k]
    }
}

/// Builds the decoding table of the canonical code with the given code lengths
/// (0 for a symbol that is not used). Fails when the lengths are over-subscribed;
/// an incomplete code is accepted.
pub fn construct(length: &[u16]) -> (r: Result<Huffman, InflateError>)
    requires
        length@.len() <= 65535,
        lengths_in_range(length@),
    ensures
        match r {
            Ok(h) => !over_subscribed(length@) && h@ == length@ && h.wf(),
            Err(e) => over_subscribed(length@) && e == InflateError::OverSubscribed,
        },
{
    let ghost lens = length@;
    let n = length.len();
    let mut count: Vec<u16> = vec![0u16];
    let mut symbol: Vec<u16> = Vec::new();
    let mut len: usize = 1;
    while len <= MAXBITS
        invariant
            1 <= len <= MAXBITS + 1,
            n == lens.len(),
            lens == length@,
            n <= 65535,
            count@.len() == len,
            forall|l: int| 1 <= l < len ==> #[trigger] count@[l] as int == count_len(lens, l),
            symbol@.len() == canon_upto(lens, len - 1).len(),
            forall|k: int|
                0 <= k < symbol@.len() ==> #[trigger] symbol@[k] as int == canon_upto(
                    lens,
                    len - 1,
                )[k],
        decreases MAXBITS + 1 - len,
    {
        let ghost prefix = canon_upto(lens, len - 1);
        let mut c: u16 = 0;
        let mut sym: usize = 0;
        while sym < n
            invariant
                1 <= len <= MAXBITS,
                n == lens.len(),
                lens == length@,
                n <= 65535,
                sym <= n,
                c as int == syms_with(lens, len as int, sym as int).len(),
                symbol@.len() == prefix.len() + c,
                forall|k: int|
                    0 <= k < symbol@.len() ==> #[trigger] symbol@[k] as int == (prefix
                        + syms_with(lens, len as int, sym as int))[k],
            decreases n - sym,
        {
            proof {
                lemma_syms_with(lens, len as int, sym as int);
            }
            let ghost before = symbol@;
            if length[sym] as usize == len {
                symbol.push(sym as u16);
                c = c + 1;
            }
            proof {
                let s0 = syms_with(lens, len as int, sym as int);
                let s1 = syms_with(lens, len as int, sym + 1);
                assert forall|k: int|
                    0 <= k < symbol@.len() implies #[trigger] symbol@[k] as int == (prefix
                        + s1)[k] by {
                    if k < before.len() {
                        assert(symbol@[k] == before[k]);
                        assert((prefix + s1)[k] == (prefix + s0)[k]);
                    }
                }
            }
            sym = sym + 1;
        }
        proof {
            assert(canon_upto(lens, len as int) == prefix + syms_with(
                lens,
                len as int,
                n as int,
            ));
        }
        count.push(c);
        len = len + 1;
    }
    let mut left: i32 = 1;
    let mut len: usize = 1;
    proof {
        lemma2_to64();
    }
    while len <= MAXBITS
        invariant
            1 <= len <= MAXBITS + 1,
            count@.len() == MAXBITS + 1,
            forall|l: int| 1 <= l <= MAXBITS ==> #[trigger] count@[l] as int == count_len(lens, l),
            left as int == space_left(lens, len - 1),
            0 <= left <= pow2((len - 1) as nat),
            pow2(14) == 16384,
            lens == length@,
            forall|l: int| 1 <= l < len ==> #[trigger] space_left(lens, l) >= 0,
        decreases MAXBITS + 1 - len,
    {
        proof {
            if len - 1 < 14 {
                lemma_pow2_strictly_increases((len - 1) as nat, 14);
            }
            lemma_pow2_unfold(len as nat);
            assert(count@[len as int] as int == count_len(lens, len as int));
        }
        left = 2 * left - count[len] as i32;
        proof {
            assert(left as int == space_left(lens, len as int));
        }
        if left < 0 {
            proof {
                assert(space_left(lens, len as int) < 0);
            }
            return Err(InflateError::OverSubscribed);
        }
        len = len + 1;
    }
    Ok(Huffman { count, symbol, lens: Ghost(lens) })
}

/// Decodes one symbol with table `h`, reading its code bit by bit.
pub fn decode(s: &mut BitCursor, h: &Huffman) -> (r: Result<u16, InflateError>)
    requires
        old(s).wf(),
        h.wf(),
    ensures
        final(s).wf(),
        final(s).data() == old(s).data(),
        match r {
            Ok(sym) => huff_decode(h@, old(s).data(), old(s).pos()) == Ok::<
                (int, int),
                InflateError,
            >((sym as int, final(s).pos())) && (sym as int) < h@.len(),
            Err(e) => huff_decode(h@, old(s).data(), old(s).pos()) == Err::<
                (int, int),
                InflateError,
            >(e),
        },
{
    let ghost lens = h@;
    let ghost d = s.data();
    let ghost p0 = s.pos();
    let mut len: usize = 1;
    let mut code: u32 = 0;
    let mut first: u32 = 0;
    let mut index: u32 = 0;
    proof {
        lemma2_to64();
        lemma_canon_upto(lens, 0);
        assert(MAXBITS * lens.len() <= 65535 * MAXBITS) by (nonlinear_arith)
            requires
                lens.len() <= 65535,
        ;
    }
    while len <= MAXBITS
        invariant
            s.wf(),
            h.wf(),
            lens == h@,
            s.data() == d,
            d == old(s).data(),
            p0 == old(s).pos(),
            1 <= len <= MAXBITS + 1,
            huff_decode(lens, d, p0) == decode_from(
                lens,
                d,
                s.pos(),
                len as int,
                code as int,
                first as int,
                index as int,
            ),
            first <= code,
            code + 2 <= pow2(len as nat),
            pow2(16) == 65536,
            index as int == canon_upto(lens, len - 1).len(),
            index <= canonical_order(lens).len(),
            canonical_order(lens).len() <= 65535 * MAXBITS,
        decreases MAXBITS + 1 - len,
    {
        let ghost before = s.pos();
        let b = match s.next_bit() {
            Ok(b) => b,
            Err(e) => {
                return Err(e);
            },
        };
        proof {
            lemma_bit_at_bound(d, before);
            if len < 16 {
                lemma_pow2_strictly_increases(len as nat, 16);
            }
            lemma_pow2_unfold((len + 1) as nat);
            lemma_canon_upto(lens, len as int);
        }
        let c: u32 = code + b;
        let count: u32 = h.count[len] as u32;
        if c < first + count {
            let k = (index + (c - first)) as usize;
            proof {
                lemma_canonical_symbols(lens);
            }
            return Ok(h.symbol[k]);
        }
        index = index + count;
        first = 2 * (first + count);
        code = 2 * c;
        len = len + 1;
    }
    Err(InflateError::InvalidCode)
}

} // verus!
