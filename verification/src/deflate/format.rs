//! What a DEFLATE stream means.
//!
//! [`inflate`] gives the bytes that a stream stands for and how it ends. It
//! is defined over the bits of the stream alone: fields are read least
//! significant bit first, Huffman codes by [`decode_symbol`].
use crate::bits::{bit_count, lemma_field_fits, lemma_lsb_first_bound, lsb_first};
use crate::deflate::huffman::{
    code_ends, code_goes_on, count_len, covers, decode_from, decode_symbol, has_code, symbol_ending,
};
use crate::error::InflateError;
use vstd::arithmetic::power2::{lemma2_to64, lemma_pow2_strictly_increases, pow2};
use vstd::prelude::*;

verus! {

/// How far back a back-reference can reach.
pub const WINDOW_SIZE: usize = 32768;

/// The bits that the table of the code-length code reads at a time.
pub const CODE_LENGTH_BITS: u8 = 7;

/// The bits that the table of a literal/length code reads at a time.
pub const LITLEN_BITS: u8 = 10;

/// The bits that the table of a distance code reads at a time.
pub const DIST_BITS: u8 = 8;

/// What a stream stands for: the bytes that come out, and the error that
/// ends them, if the stream does not end with its final block.
pub struct Inflated {
    pub data: Seq<u8>,
    pub end: Option<InflateError>,
}

/// The three kinds of block, with the length of a stored one.
pub enum Kind {
    Stored(nat),
    Fixed,
    Dynamic,
}

/// What is left of a block: the bytes still to come of a stored one, or the
/// code lengths of the two codes of a Huffman one. A block without a
/// distance code has `dist` empty.
pub enum Body {
    Stored(nat),
    Coded { litlen: Seq<u8>, dist: Option<Seq<u8>> },
}

/// A block under way.
pub struct Block {
    pub last: bool,
    pub body: Body,
}

/// A place in a stream: the next bit, the output so far, and the block under
/// way, if one is.
pub struct Progress {
    pub pos: nat,
    pub out: Seq<u8>,
    pub block: Option<Block>,
}

/// A field of `n` bits at `pos`: its value and the position behind it.
pub open spec fn field(input: Seq<u8>, pos: nat, n: nat) -> Result<(nat, nat), InflateError> {
    if pos + n > bit_count(input) {
        Err(InflateError::UnexpectedEnd)
    } else {
        Ok((lsb_first(input, pos, n), pos + n))
    }
}

/// The next byte boundary at or behind `pos`.
pub open spec fn align(pos: nat) -> nat {
    ((pos + 7) / 8 * 8) as nat
}

/// A block header: whether the block is the last one, its kind, and the
/// position behind the header. The header of a stored block goes on, from the
/// next byte boundary, with the length of the block and its complement.
pub open spec fn header(input: Seq<u8>, pos: nat) -> Result<(bool, Kind, nat), InflateError> {
    match field(input, pos, 1) {
        Err(e) => Err(e),
        Ok((last, pos1)) => match field(input, pos1, 2) {
            Err(e) => Err(e),
            Ok((kind, pos2)) => if kind == 0 {
                match field(input, align(pos2), 16) {
                    Err(e) => Err(e),
                    Ok((len, pos3)) => match field(input, pos3, 16) {
                        Err(e) => Err(e),
                        Ok((nlen, pos4)) => if len + nlen == 0xFFFF {
                            Ok((last == 1, Kind::Stored(len), pos4))
                        } else {
                            Err(InflateError::CorruptStoredLength)
                        },
                    },
                }
            } else if kind == 1 {
                Ok((last == 1, Kind::Fixed, pos2))
            } else if kind == 2 {
                Ok((last == 1, Kind::Dynamic, pos2))
            } else {
                Err(InflateError::InvalidBlockType)
            },
        },
    }
}

/// The code lengths of the literal/length code of a fixed block.
pub open spec fn fixed_litlen_lengths() -> Seq<u8> {
    Seq::new(
        288,
        |i: int|
            if i < 144 {
                8u8
            } else if i < 256 {
                9u8
            } else if i < 280 {
                7u8
            } else {
                8u8
            },
    )
}

/// The code lengths of the distance code of a fixed block.
pub open spec fn fixed_dist_lengths() -> Seq<u8> {
    Seq::new(32, |i: int| 5u8)
}

/// The order in which a dynamic block gives the lengths of the code-length
/// code.
pub open spec fn code_length_order() -> Seq<int> {
    seq![16, 17, 18, 0, 8, 7, 9, 6, 10, 5, 11, 4, 12, 3, 13, 2, 14, 1, 15]
}

/// The lengths of the code-length code: `count` fields of three bits, for
/// the symbols that `code_length_order` names; the other symbols have
/// length 0.
pub open spec fn code_length_lengths(input: Seq<u8>, pos: nat, count: nat) -> Result<
    (Seq<u8>, nat),
    InflateError,
>
    decreases count,
{
    if count == 0 {
        Ok((Seq::new(19, |i: int| 0u8), pos))
    } else {
        match code_length_lengths(input, pos, (count - 1) as nat) {
            Err(e) => Err(e),
            Ok((lengths, p)) => match field(input, p, 3) {
                Err(e) => Err(e),
                Ok((len, next)) => Ok(
                    (lengths.update(code_length_order()[count - 1], len as u8), next),
                ),
            },
        }
    }
}

/// `lengths` with `count` times `len` behind it, if that stays within
/// `total` lengths.
pub open spec fn repeated(lengths: Seq<u8>, len: u8, count: nat, total: nat) -> Result<
    Seq<u8>,
    InflateError,
> {
    if lengths.len() + count > total {
        Err(InflateError::CodeLengthOverrun)
    } else {
        Ok(lengths + Seq::new(count, |i: int| len))
    }
}

/// The code lengths of a dynamic block, `sofar` being those read before
/// `pos`. They are coded with the code-length code `cl`: symbols up to 15
/// are lengths, 16 repeats the length before it three to six times, 17 and 18
/// stand for three to ten and for 11 to 138 zeros.
pub open spec fn code_lengths(
    cl: Seq<u8>,
    input: Seq<u8>,
    pos: nat,
    total: nat,
    sofar: Seq<u8>,
) -> Result<(Seq<u8>, nat), InflateError>
    decreases total - sofar.len(),
{
    if sofar.len() >= total {
        Ok((sofar, pos))
    } else {
        match decode_symbol(cl, CODE_LENGTH_BITS as nat, input, pos) {
            Err(e) => Err(e),
            Ok((sym, p)) => if sym <= 15 {
                code_lengths(cl, input, p, total, sofar.push(sym as u8))
            } else if sym == 16 && sofar.len() == 0 {
                Err(InflateError::InvalidCodeLengthRepeat)
            } else {
                let bits: nat = if sym == 16 {
                    2
                } else if sym == 17 {
                    3
                } else {
                    7
                };
                let least: nat = if sym == 18 {
                    11
                } else {
                    3
                };
                let len: u8 = if sym == 16 {
                    sofar.last()
                } else {
                    0
                };
                match field(input, p, bits) {
                    Err(e) => Err(e),
                    Ok((extra, next)) => match repeated(sofar, len, least + extra, total) {
                        Err(e) => Err(e),
                        Ok(lengths) => code_lengths(cl, input, next, total, lengths),
                    },
                }
            },
        }
    }
}

/// The distance code that a dynamic block declares with the lengths
/// `lengths`. A single length of 0 declares none. Where one code of one bit
/// is all there is, the code is filled up to 32 symbols with a second code of
/// one bit for the last symbol.
pub open spec fn declared_distance_code(lengths: Seq<u8>) -> Option<Seq<u8>> {
    if lengths.len() == 1 && lengths[0] == 0 {
        None
    } else if count_len(lengths, 1, lengths.len()) == 1 && forall|i: int|
        0 <= i < lengths.len() ==> lengths[i] <= 1 {
        Some(
            Seq::new(
                32,
                |i: int|
                    if i == 31 {
                        1u8
                    } else if i < lengths.len() {
                        lengths[i]
                    } else {
                        0u8
                    },
            ),
        )
    } else {
        Some(lengths)
    }
}

/// The two codes that the header of a dynamic block declares, by their
/// lengths, and the position behind them.
pub open spec fn dynamic_trees(input: Seq<u8>, pos: nat) -> Result<
    (Seq<u8>, Option<Seq<u8>>, nat),
    InflateError,
> {
    match field(input, pos, 5) {
        Err(e) => Err(e),
        Ok((hlit, pos1)) => match field(input, pos1, 5) {
            Err(e) => Err(e),
            Ok((hdist, pos2)) => match field(input, pos2, 4) {
                Err(e) => Err(e),
                Ok((hclen, pos3)) => match code_length_lengths(input, pos3, hclen + 4) {
                    Err(e) => Err(e),
                    Ok((cl, pos4)) => match code_lengths(
                        cl,
                        input,
                        pos4,
                        hlit + 257 + hdist + 1,
                        Seq::empty(),
                    ) {
                        Err(e) => Err(e),
                        Ok((all, pos5)) => Ok(
                            (
                                all.subrange(0, hlit + 257 as int),
                                declared_distance_code(
                                    all.subrange(hlit + 257 as int, hlit + 257 + hdist + 1 as int),
                                ),
                                pos5,
                            ),
                        ),
                    },
                },
            },
        },
    }
}

/// The start of a block: its header and, for a dynamic block, its codes.
#[verifier::opaque]
pub open spec fn block_start(input: Seq<u8>, pos: nat) -> Result<(Block, nat), InflateError> {
    match header(input, pos) {
        Err(e) => Err(e),
        Ok((last, kind, p)) => match kind {
            Kind::Stored(len) => Ok((Block { last, body: Body::Stored(len) }, p)),
            Kind::Fixed => Ok(
                (
                    Block {
                        last,
                        body: Body::Coded {
                            litlen: fixed_litlen_lengths(),
                            dist: Some(fixed_dist_lengths()),
                        },
                    },
                    p,
                ),
            ),
            Kind::Dynamic => match dynamic_trees(input, p) {
                Err(e) => Err(e),
                Ok((litlen, dist, next)) => Ok(
                    (Block { last, body: Body::Coded { litlen, dist } }, next),
                ),
            },
        },
    }
}

/// The number of extra bits behind the length symbol `sym`, one of 257 to
/// 285.
pub open spec fn length_extra_bits(sym: nat) -> nat {
    if sym <= 264 || sym == 285 {
        0
    } else {
        ((sym - 261) / 4) as nat
    }
}

/// The shortest run that the length symbol `sym`, one of 257 to 285, stands
/// for.
pub open spec fn length_base(sym: nat) -> nat {
    if sym <= 264 {
        (sym - 254) as nat
    } else if sym == 285 {
        258
    } else {
        (((sym - 265) % 4 + 4) * pow2(length_extra_bits(sym)) + 3) as nat
    }
}

/// The number of extra bits behind the distance symbol `sym`, one of 0 to
/// 29.
pub open spec fn distance_extra_bits(sym: nat) -> nat {
    if sym <= 3 {
        0
    } else {
        (sym / 2 - 1) as nat
    }
}

/// The shortest distance that the distance symbol `sym`, one of 0 to 29,
/// stands for.
pub open spec fn distance_base(sym: nat) -> nat {
    if sym <= 3 {
        sym + 1
    } else {
        ((sym % 2 + 2) * pow2(distance_extra_bits(sym)) + 1) as nat
    }
}

/// The length of the run that length symbol `sym`, one of 257 to 285, and
/// its extra bits at `pos` stand for.
pub open spec fn run_length(input: Seq<u8>, pos: nat, sym: nat) -> Result<
    (nat, nat),
    InflateError,
> {
    if length_extra_bits(sym) == 0 {
        Ok((length_base(sym), pos))
    } else {
        match field(input, pos, length_extra_bits(sym)) {
            Err(e) => Err(e),
            Ok((more, next)) => Ok((length_base(sym) + more, next)),
        }
    }
}

/// The distance that distance symbol `sym`, one of 0 to 29, and its extra
/// bits at `pos` stand for.
pub open spec fn distance(input: Seq<u8>, pos: nat, sym: nat) -> Result<
    (nat, nat),
    InflateError,
> {
    if distance_extra_bits(sym) == 0 {
        Ok((distance_base(sym), pos))
    } else {
        match field(input, pos, distance_extra_bits(sym)) {
            Err(e) => Err(e),
            Ok((more, next)) => Ok((distance_base(sym) + more, next)),
        }
    }
}

/// `out` with a run of `length` bytes behind it, each the byte `distance`
/// places before it. A run longer than its distance repeats itself.
pub open spec fn copy_back(out: Seq<u8>, distance: nat, length: nat) -> Seq<u8>
    decreases length,
{
    if length == 0 {
        out
    } else {
        copy_back(out.push(out[out.len() - distance]), distance, (length - 1) as nat)
    }
}

/// A back-reference in a block with the distance code `dist`, behind the
/// length symbol `sym`: the output with the run behind it, and the position
/// behind the reference.
pub open spec fn back_reference(
    input: Seq<u8>,
    pos: nat,
    out: Seq<u8>,
    dist: Option<Seq<u8>>,
    sym: nat,
) -> Result<(Seq<u8>, nat), InflateError> {
    match dist {
        None => Err(InflateError::MissingDistanceTable),
        Some(lengths) => match run_length(input, pos, sym) {
            Err(e) => Err(e),
            Ok((length, pos1)) => match decode_symbol(lengths, DIST_BITS as nat, input, pos1) {
                Err(e) => Err(e),
                Ok((dsym, pos2)) => if dsym >= 30 {
                    Err(InflateError::InvalidDistanceCode)
                } else {
                    match distance(input, pos2, dsym as nat) {
                        Err(e) => Err(e),
                        Ok((d, next)) => if d > out.len() || d > WINDOW_SIZE {
                            Err(InflateError::DistanceOutOfRange)
                        } else {
                            Ok((copy_back(out, d, length), next))
                        },
                    }
                },
            },
        },
    }
}

/// The stream from `at` on: the output that it ends with, and how it ends.
/// A stored block hands on its bytes. A Huffman block is a row of symbols:
/// those below 256 are bytes, 256 ends the block, 257 to 285 begin a
/// back-reference, and the two above stand for nothing. The stream ends with
/// the block that is marked as the last one.
#[verifier::opaque]
pub open spec fn run(input: Seq<u8>, at: Progress) -> Inflated
    decreases bit_count(input) - at.pos, (if at.block is Some { 1nat } else { 0nat }),
    via run_decreases
{
    match at.block {
        None => match block_start(input, at.pos) {
            Err(e) => Inflated { data: at.out, end: Some(e) },
            Ok((block, next)) => run(
                input,
                Progress { pos: next, out: at.out, block: Some(block) },
            ),
        },
        Some(block) => match block.body {
            Body::Stored(left) => if left == 0 {
                if block.last {
                    Inflated { data: at.out, end: None }
                } else {
                    run(input, Progress { pos: at.pos, out: at.out, block: None })
                }
            } else {
                match field(input, at.pos, 8) {
                    Err(e) => Inflated { data: at.out, end: Some(e) },
                    Ok((byte, next)) => run(
                        input,
                        Progress {
                            pos: next,
                            out: at.out.push(byte as u8),
                            block: Some(
                                Block { last: block.last, body: Body::Stored((left - 1) as nat) },
                            ),
                        },
                    ),
                }
            },
            Body::Coded { litlen, dist } => match decode_symbol(
                litlen,
                LITLEN_BITS as nat,
                input,
                at.pos,
            ) {
                Err(e) => Inflated { data: at.out, end: Some(e) },
                Ok((sym, next)) => if sym < 256 {
                    run(input, Progress { pos: next, out: at.out.push(sym as u8), block: at.block })
                } else if sym == 256 {
                    if block.last {
                        Inflated { data: at.out, end: None }
                    } else {
                        run(input, Progress { pos: next, out: at.out, block: None })
                    }
                } else if sym > 285 {
                    Inflated { data: at.out, end: Some(InflateError::InvalidCode) }
                } else {
                    match back_reference(input, next, at.out, dist, sym as nat) {
                        Err(e) => Inflated { data: at.out, end: Some(e) },
                        Ok((out, after)) => run(
                            input,
                            Progress { pos: after, out: out, block: at.block },
                        ),
                    }
                },
            },
        },
    }
}

/// What the stream `input` stands for.
pub open spec fn inflate(input: Seq<u8>) -> Inflated {
    run(input, Progress { pos: 0, out: Seq::empty(), block: None })
}

/// Decoding a symbol moves on, by no more than the stream holds.
pub proof fn lemma_decode_advances(
    lengths: Seq<u8>,
    bits: nat,
    input: Seq<u8>,
    pos: nat,
    depth: nat,
)
    ensures
        match decode_from(lengths, bits, input, pos, depth) {
            Ok((sym, next)) => pos < next <= bit_count(input),
            Err(_) => true,
        },
    decreases 256 - depth,
{
    reveal_with_fuel(decode_from, 1);
    let width = depth + bits;
    let path = crate::bits::msb_first(input, pos, width);
    if pos + width <= bit_count(input) {
        if code_ends(lengths, depth, width, path) {
            let sym = symbol_ending(lengths, depth, width, path);
            assert(covers(lengths, sym, width, path));
        } else if bits > 0 && code_goes_on(lengths, width, path) {
            lemma_decode_advances(lengths, bits, input, pos, width);
        }
    }
}

/// A symbol that was decoded has a code, and the position has moved on by
/// the length of that code.
pub proof fn lemma_decode_gives_code(
    lengths: Seq<u8>,
    bits: nat,
    input: Seq<u8>,
    pos: nat,
    depth: nat,
)
    requires
        lengths.len() <= 0x10000,
    ensures
        match decode_from(lengths, bits, input, pos, depth) {
            Ok((sym, next)) => has_code(lengths, sym as nat) && next == pos
                + lengths[sym as int],
            Err(_) => true,
        },
    decreases 256 - depth,
{
    reveal_with_fuel(decode_from, 1);
    let width = depth + bits;
    let path = crate::bits::msb_first(input, pos, width);
    if pos + width <= bit_count(input) {
        if code_ends(lengths, depth, width, path) {
            let sym = symbol_ending(lengths, depth, width, path);
            assert(covers(lengths, sym, width, path));
        } else if bits > 0 && code_goes_on(lengths, width, path) {
            lemma_decode_gives_code(lengths, bits, input, pos, width);
        }
    }
}

/// The order of the code-length code names symbols of that code. From its
/// fifth place on, it takes them in turn from above and from below 7.
pub proof fn lemma_code_length_order(k: int)
    requires
        0 <= k < 19,
    ensures
        0 <= code_length_order()[k] < 19,
        k < 3 ==> code_length_order()[k] == 16 + k,
        k == 3 ==> code_length_order()[k] == 0,
        k >= 4 && (k - 4) % 2 == 0 ==> code_length_order()[k] == 8 + (k - 4) / 2,
        k >= 4 && (k - 4) % 2 == 1 ==> code_length_order()[k] == 7 - (k - 4) / 2,
{
    let order = code_length_order();
    assert(order[0] == 16 && order[1] == 17 && order[2] == 18 && order[3] == 0);
    assert(order[4] == 8 && order[5] == 7 && order[6] == 9 && order[7] == 6);
    assert(order[8] == 10 && order[9] == 5 && order[10] == 11 && order[11] == 4);
    assert(order[12] == 12 && order[13] == 3 && order[14] == 13 && order[15] == 2);
    assert(order[16] == 14 && order[17] == 1 && order[18] == 15);
}

/// The lengths of the code-length code are 19 lengths of at most 7, and
/// take three bits each.
pub proof fn lemma_code_length_lengths(input: Seq<u8>, pos: nat, count: nat)
    requires
        count <= 19,
    ensures
        match code_length_lengths(input, pos, count) {
            Ok((lengths, next)) => {
                &&& next == pos + 3 * count
                &&& count > 0 ==> next <= bit_count(input)
                &&& lengths.len() == 19
                &&& forall|i: int| 0 <= i < 19 ==> lengths[i] <= 7
            },
            Err(e) => e == InflateError::UnexpectedEnd,
        },
    decreases count,
{
    if count > 0 {
        lemma_code_length_lengths(input, pos, (count - 1) as nat);
        match code_length_lengths(input, pos, (count - 1) as nat) {
            Ok((lengths, p)) => {
                crate::bits::lemma_field_fits(input, p, 3);
                vstd::arithmetic::power2::lemma2_to64();
                lemma_code_length_order((count - 1) as int);
            },
            Err(_) => {},
        }
    }
}

/// The code lengths of a dynamic block are as many as announced, none above
/// 15, and end within the stream.
pub proof fn lemma_code_lengths(
    cl: Seq<u8>,
    input: Seq<u8>,
    pos: nat,
    total: nat,
    sofar: Seq<u8>,
)
    requires
        sofar.len() <= total,
        forall|i: int| 0 <= i < sofar.len() ==> sofar[i] <= 15,
    ensures
        match code_lengths(cl, input, pos, total, sofar) {
            Ok((lengths, next)) => {
                &&& lengths.len() == total
                &&& forall|i: int| 0 <= i < total ==> lengths[i] <= 15
                &&& pos <= next
                &&& pos <= bit_count(input) ==> next <= bit_count(input)
            },
            Err(_) => true,
        },
    decreases total - sofar.len(),
{
    if sofar.len() < total {
        lemma_decode_advances(cl, CODE_LENGTH_BITS as nat, input, pos, 0);
        match decode_symbol(cl, CODE_LENGTH_BITS as nat, input, pos) {
            Err(e) => {},
            Ok((sym, p)) => {
                if sym <= 15 {
                    lemma_code_lengths(cl, input, p, total, sofar.push(sym as u8));
                } else if sym == 16 && sofar.len() == 0 {
                } else {
                    let bits: nat = if sym == 16 {
                        2
                    } else if sym == 17 {
                        3
                    } else {
                        7
                    };
                    let least: nat = if sym == 18 {
                        11
                    } else {
                        3
                    };
                    let len: u8 = if sym == 16 {
                        sofar.last()
                    } else {
                        0
                    };
                    match field(input, p, bits) {
                        Err(e) => {},
                        Ok((extra, next)) => match repeated(sofar, len, least + extra, total) {
                            Err(e) => {},
                            Ok(lengths) => {
                                lemma_code_lengths(cl, input, next, total, lengths);
                            },
                        },
                    }
                }
            },
        }
    }
}

/// The codes of a dynamic block: at most 288 and 32 lengths, none above 15,
/// read within the stream.
pub proof fn lemma_dynamic_trees(input: Seq<u8>, pos: nat)
    ensures
        match dynamic_trees(input, pos) {
            Ok((litlen, dist, next)) => {
                &&& pos < next <= bit_count(input)
                &&& 257 <= litlen.len() <= 288
                &&& forall|i: int| 0 <= i < litlen.len() ==> litlen[i] <= 15
                &&& match dist {
                    Some(lengths) => 1 <= lengths.len() <= 32 && forall|i: int|
                        0 <= i < lengths.len() ==> lengths[i] <= 15,
                    None => true,
                }
            },
            Err(_) => true,
        },
{
    vstd::arithmetic::power2::lemma2_to64();
    match field(input, pos, 5) {
        Err(e) => {},
        Ok((hlit, pos1)) => match field(input, pos1, 5) {
            Err(e) => {},
            Ok((hdist, pos2)) => match field(input, pos2, 4) {
                Err(e) => {},
                Ok((hclen, pos3)) => {
                    crate::bits::lemma_lsb_first_bound(input, pos, 5);
                    crate::bits::lemma_lsb_first_bound(input, pos1, 5);
                    crate::bits::lemma_lsb_first_bound(input, pos2, 4);
                    lemma_code_length_lengths(input, pos3, hclen + 4);
                    match code_length_lengths(input, pos3, hclen + 4) {
                        Err(e) => {},
                        Ok((cl, pos4)) => {
                            let total = hlit + 257 + hdist + 1;
                            lemma_code_lengths(cl, input, pos4, total, Seq::empty());
                            match code_lengths(cl, input, pos4, total, Seq::empty()) {
                                Err(e) => {},
                                Ok((all, pos5)) => {
                                    let litlen = all.subrange(0, hlit + 257 as int);
                                    let d = all.subrange(hlit + 257 as int, total as int);
                                    assert(forall|i: int|
                                        0 <= i < litlen.len() ==> litlen[i] == all[i]);
                                    assert(forall|i: int|
                                        0 <= i < d.len() ==> d[i] == all[hlit + 257 + i]);
                                },
                            }
                        },
                    }
                },
            },
        },
    }
}

/// A block start moves on, within the stream.
pub proof fn lemma_block_start_advances(input: Seq<u8>, pos: nat)
    ensures
        match block_start(input, pos) {
            Ok((block, next)) => pos < next <= bit_count(input),
            Err(_) => true,
        },
{
    reveal(block_start);
    lemma_header_advances(input, pos);
    match header(input, pos) {
        Ok((last, kind, p)) => {
            lemma_dynamic_trees(input, p);
        },
        Err(_) => {},
    }
}

/// A header takes at least three bits of the stream.
pub proof fn lemma_header_advances(input: Seq<u8>, pos: nat)
    ensures
        match header(input, pos) {
            Ok((last, kind, next)) => pos + 3 <= next <= bit_count(input) && match kind {
                Kind::Stored(len) => len <= 0xFFFF,
                _ => true,
            },
            Err(_) => true,
        },
{
}

/// A run is three to 258 bytes long.
pub proof fn lemma_run_length(input: Seq<u8>, pos: nat, sym: nat)
    requires
        257 <= sym <= 285,
    ensures
        match run_length(input, pos, sym) {
            Ok((length, next)) => 3 <= length <= 258 && pos <= next && (pos <= bit_count(input)
                ==> next <= bit_count(input)),
            Err(_) => true,
        },
{
    lemma2_to64();
    if 265 <= sym <= 284 {
        let extra = ((sym - 261) / 4) as nat;
        let base = ((sym - 265) % 4 + 4) as nat;
        let more = lsb_first(input, pos, extra);
        lemma_lsb_first_bound(input, pos, extra);
        if extra < 5 {
            lemma_pow2_strictly_increases(extra, 5);
        }
        assert(0 <= base * pow2(extra) && base * pow2(extra) + 3 + more <= 258)
            by (nonlinear_arith)
            requires
                base <= 7,
                more < pow2(extra) <= 32,
        ;
    }
}

/// A distance is 1 to 32768 bytes.
pub proof fn lemma_distance(input: Seq<u8>, pos: nat, sym: nat)
    requires
        sym <= 29,
    ensures
        match distance(input, pos, sym) {
            Ok((d, next)) => 1 <= d <= 32768 && pos <= next && (pos <= bit_count(input) ==> next
                <= bit_count(input)),
            Err(_) => true,
        },
{
    lemma2_to64();
    if sym >= 4 {
        let extra = (sym / 2 - 1) as nat;
        let base = (sym % 2 + 2) as nat;
        let more = lsb_first(input, pos, extra);
        lemma_lsb_first_bound(input, pos, extra);
        if extra < 13 {
            lemma_pow2_strictly_increases(extra, 13);
        }
        assert(0 <= base * pow2(extra) && base * pow2(extra) + 1 + more <= 32768)
            by (nonlinear_arith)
            requires
                base <= 3,
                more < pow2(extra) <= 8192,
        ;
    }
}

/// A back-reference moves on, within the stream, and leaves the output so
/// far in place.
pub proof fn lemma_back_reference(
    input: Seq<u8>,
    pos: nat,
    out: Seq<u8>,
    dist: Option<Seq<u8>>,
    sym: nat,
)
    requires
        257 <= sym <= 285,
    ensures
        match back_reference(input, pos, out, dist, sym) {
            Ok((more, next)) => pos < next <= bit_count(input) && out.len() < more.len()
                && more.subrange(0, out.len() as int) == out,
            Err(_) => true,
        },
{
    match dist {
        None => {},
        Some(lengths) => {
            lemma_run_length(input, pos, sym);
            match run_length(input, pos, sym) {
                Err(e) => {},
                Ok((length, pos1)) => {
                    lemma_decode_advances(lengths, DIST_BITS as nat, input, pos1, 0);
                    match decode_symbol(lengths, DIST_BITS as nat, input, pos1) {
                        Err(e) => {},
                        Ok((dsym, pos2)) => {
                            if dsym < 30 {
                                lemma_distance(input, pos2, dsym as nat);
                                match distance(input, pos2, dsym as nat) {
                                    Err(e) => {},
                                    Ok((d, next)) => {
                                        lemma_copy_back_extends(out, d, length);
                                    },
                                }
                            }
                        },
                    }
                },
            }
        },
    }
}

/// A run is added behind the output: it is `length` bytes long and leaves
/// what was there in place.
pub proof fn lemma_copy_back_extends(out: Seq<u8>, distance: nat, length: nat)
    ensures
        copy_back(out, distance, length).len() == out.len() + length,
        copy_back(out, distance, length).subrange(0, out.len() as int) == out,
    decreases length,
{
    if length > 0 {
        let next = out.push(out[out.len() - distance]);
        lemma_copy_back_extends(next, distance, (length - 1) as nat);
        let all = copy_back(out, distance, length);
        assert(all.subrange(0, out.len() as int) =~= all.subrange(0, next.len() as int).subrange(
            0,
            out.len() as int,
        ));
        assert(next.subrange(0, out.len() as int) =~= out);
    } else {
        assert(out.subrange(0, out.len() as int) =~= out);
    }
}

/// A run at distance 1 repeats the last byte of the output.
pub proof fn lemma_copy_back_repeats(out: Seq<u8>, length: nat)
    requires
        out.len() > 0,
    ensures
        copy_back(out, 1, length) == out + Seq::new(length, |i: int| out.last()),
    decreases length,
{
    if length == 0 {
        assert(out + Seq::new(0, |i: int| out.last()) =~= out);
    } else {
        let next = out.push(out.last());
        lemma_copy_back_repeats(next, (length - 1) as nat);
        assert(next + Seq::new((length - 1) as nat, |i: int| next.last()) =~= out + Seq::new(
            length,
            |i: int| out.last(),
        ));
    }
}

#[via_fn]
proof fn run_decreases(input: Seq<u8>, at: Progress) {
    lemma_block_start_advances(input, at.pos);
    match at.block {
        Some(block) => match block.body {
            Body::Coded { litlen, dist } => {
                lemma_decode_advances(litlen, LITLEN_BITS as nat, input, at.pos, 0);
                match decode_symbol(litlen, LITLEN_BITS as nat, input, at.pos) {
                    Ok((sym, next)) => {
                        if 257 <= sym <= 285 {
                            lemma_back_reference(input, next, at.out, dist, sym as nat);
                        }
                    },
                    Err(_) => {},
                }
            },
            _ => {},
        },
        None => {},
    }
}

/// The output that a stream ends with begins with the output so far.
pub proof fn lemma_run_extends(input: Seq<u8>, at: Progress)
    ensures
        at.out.len() <= run(input, at).data.len(),
        run(input, at).data.subrange(0, at.out.len() as int) == at.out,
    decreases bit_count(input) - at.pos, (if at.block is Some { 1nat } else { 0nat }),
{
    reveal_with_fuel(run, 1);
    let whole = run(input, at).data;
    let n = at.out.len() as int;
    assert(at.out.subrange(0, n) =~= at.out);
    lemma_block_start_advances(input, at.pos);
    match at.block {
        None => match block_start(input, at.pos) {
            Err(e) => {},
            Ok((block, next)) => {
                lemma_run_extends(input, Progress { pos: next, out: at.out, block: Some(block) });
            },
        },
        Some(block) => match block.body {
            Body::Stored(left) => if left == 0 {
                if !block.last {
                    lemma_run_extends(input, Progress { pos: at.pos, out: at.out, block: None });
                }
            } else {
                match field(input, at.pos, 8) {
                    Err(e) => {},
                    Ok((byte, next)) => {
                        let more = at.out.push(byte as u8);
                        lemma_run_extends(
                            input,
                            Progress {
                                pos: next,
                                out: more,
                                block: Some(
                                    Block {
                                        last: block.last,
                                        body: Body::Stored((left - 1) as nat),
                                    },
                                ),
                            },
                        );
                        assert(whole.subrange(0, n) =~= whole.subrange(0, n + 1).subrange(0, n));
                        assert(more.subrange(0, n) =~= at.out);
                    },
                }
            },
            Body::Coded { litlen, dist } => {
                lemma_decode_advances(litlen, LITLEN_BITS as nat, input, at.pos, 0);
                match decode_symbol(litlen, LITLEN_BITS as nat, input, at.pos) {
                    Err(e) => {},
                    Ok((sym, next)) => if sym < 256 {
                        let more = at.out.push(sym as u8);
                        lemma_run_extends(
                            input,
                            Progress { pos: next, out: more, block: at.block },
                        );
                        assert(whole.subrange(0, n) =~= whole.subrange(0, n + 1).subrange(0, n));
                        assert(more.subrange(0, n) =~= at.out);
                    } else if sym == 256 {
                        if !block.last {
                            lemma_run_extends(
                                input,
                                Progress { pos: next, out: at.out, block: None },
                            );
                        }
                    } else if sym > 285 {
                    } else {
                        lemma_back_reference(input, next, at.out, dist, sym as nat);
                        match back_reference(input, next, at.out, dist, sym as nat) {
                            Err(e) => {},
                            Ok((out, after)) => {
                                lemma_run_extends(
                                    input,
                                    Progress { pos: after, out: out, block: at.block },
                                );
                                assert(whole.subrange(0, n) =~= whole.subrange(
                                    0,
                                    out.len() as int,
                                ).subrange(0, n));
                            },
                        }
                    },
                }
            },
        },
    }
}

} // verus!
