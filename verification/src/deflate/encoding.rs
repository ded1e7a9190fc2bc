//! Streams as an encoder writes them, and the law that inflating gives back
//! what was encoded.
//!
//! An encoder cuts its data into chunks and writes one block for each. A
//! chunk is written as it stands, or as a row of tokens: bytes, and matches
//! that repeat what came a given distance before.
//!
//! The decoder reads its Huffman codes some bits at a time, and reads no
//! symbol where fewer bits are left. So a stream is described twice here: as
//! it stands for its data, and with the further claim that the bytes go on
//! behind every code as far as the decoder looks. The second is always so
//! where the stream stands in a frame that ends with a checksum. Inflating
//! gives the data of exactly the streams of the second kind, and of the
//! others a beginning of their data.
use crate::bits::{bit_count, lsb_first, msb_first};
use crate::deflate::format::{
    back_reference, block_start, copy_back, distance, distance_base, distance_extra_bits, field,
    inflate, lemma_back_reference, lemma_block_start_advances, lemma_copy_back_extends,
    lemma_decode_advances, lemma_distance, lemma_dynamic_trees, lemma_run_length, length_base,
    length_extra_bits, run, run_length, Block, Body, Inflated, Progress, DIST_BITS, LITLEN_BITS,
    WINDOW_SIZE,
};
use crate::deflate::huffman::{
    code_of, decode_symbol, has_code, lemma_decode_code, lemma_decoded_stands, looked_at,
};
use crate::error::InflateError;
use vstd::prelude::*;

verus! {

/// What an encoder writes into a Huffman block.
pub enum Token {
    /// One byte.
    Literal(u8),
    /// `length` bytes, each the byte `distance` places before it.
    Match { length: nat, distance: nat },
}

/// What an encoder writes as one block.
pub enum Chunk {
    /// Bytes as they are.
    Stored(Seq<u8>),
    /// Tokens, coded with the codes of the block.
    Coded(Seq<Token>),
}

/// `out` with the bytes behind it that `tokens` stand for.
pub open spec fn expand(out: Seq<u8>, tokens: Seq<Token>) -> Seq<u8>
    decreases tokens.len(),
{
    if tokens.len() == 0 {
        out
    } else {
        expand(
            match tokens[0] {
                Token::Literal(byte) => out.push(byte),
                Token::Match { length, distance } => copy_back(out, distance, length),
            },
            tokens.drop_first(),
        )
    }
}

/// `out` with the bytes behind it that `chunks` stand for.
pub open spec fn unpack(out: Seq<u8>, chunks: Seq<Chunk>) -> Seq<u8>
    decreases chunks.len(),
{
    if chunks.len() == 0 {
        out
    } else {
        unpack(
            match chunks[0] {
                Chunk::Stored(bytes) => out + bytes,
                Chunk::Coded(tokens) => expand(out, tokens),
            },
            chunks.drop_first(),
        )
    }
}

/// `whole` begins with `part`.
pub open spec fn begins(whole: Seq<u8>, part: Seq<u8>) -> bool {
    &&& part.len() <= whole.len()
    &&& whole.subrange(0, part.len() as int) == part
}

/// The code of `sym` stands at `pos`. With `sure`, the stream also goes on
/// as far as a table of `bits` bits looks to read it.
pub open spec fn symbol_at(
    lengths: Seq<u8>,
    bits: nat,
    sym: nat,
    input: Seq<u8>,
    pos: nat,
    sure: bool,
) -> bool {
    let len = lengths[sym as int] as nat;
    &&& has_code(lengths, sym)
    &&& pos + len <= bit_count(input)
    &&& msb_first(input, pos, len) == code_of(lengths, sym)
    &&& sure ==> pos + looked_at(len, bits) <= bit_count(input)
}

/// The `n` bits at `pos` are the field `value`.
pub open spec fn field_at(input: Seq<u8>, pos: nat, n: nat, value: int) -> bool {
    &&& pos + n <= bit_count(input)
    &&& lsb_first(input, pos, n) == value
}

/// A match stands at `pos`, written with the length symbol `sym` and the
/// distance symbol `dsym`, and ends at `end`: the code of `sym`, the extra
/// bits that bring its base up to `length`, and the same for the distance.
pub open spec fn match_coded(
    input: Seq<u8>,
    pos: nat,
    litlen: Seq<u8>,
    dist: Seq<u8>,
    length: nat,
    distance: nat,
    end: nat,
    sym: nat,
    dsym: nat,
    sure: bool,
) -> bool {
    let pos1 = (pos + litlen[sym as int]) as nat;
    let pos2 = pos1 + length_extra_bits(sym);
    let pos3 = (pos2 + dist[dsym as int]) as nat;
    &&& 257 <= sym <= 285
    &&& dsym <= 29
    &&& symbol_at(litlen, LITLEN_BITS as nat, sym, input, pos, sure)
    &&& field_at(input, pos1, length_extra_bits(sym), length - length_base(sym))
    &&& symbol_at(dist, DIST_BITS as nat, dsym, input, pos2, sure)
    &&& field_at(input, pos3, distance_extra_bits(dsym), distance - distance_base(dsym))
    &&& end == pos3 + distance_extra_bits(dsym)
}

/// `tokens` stand at `pos`, coded with the codes `litlen` and `dist`, and
/// behind them the symbol that ends the block; `end` is the position behind
/// it. A match reaches no further back than the output goes, `out_len` bytes
/// before the first token, and no further than the window; it is written
/// with one of the symbols that can stand for it.
pub open spec fn tokens_at(
    input: Seq<u8>,
    pos: nat,
    litlen: Seq<u8>,
    dist: Option<Seq<u8>>,
    out_len: nat,
    tokens: Seq<Token>,
    end: nat,
    sure: bool,
) -> bool
    decreases tokens.len(),
{
    if tokens.len() == 0 {
        symbol_at(litlen, LITLEN_BITS as nat, 256, input, pos, sure) && end == pos + litlen[256]
    } else {
        match tokens[0] {
            Token::Literal(byte) => {
                &&& symbol_at(litlen, LITLEN_BITS as nat, byte as nat, input, pos, sure)
                &&& tokens_at(
                    input,
                    (pos + litlen[byte as int]) as nat,
                    litlen,
                    dist,
                    out_len + 1,
                    tokens.drop_first(),
                    end,
                    sure,
                )
            },
            Token::Match { length, distance } => {
                let rest = tokens.drop_first();
                let lengths = dist->0;
                &&& dist is Some
                &&& 1 <= distance <= out_len
                &&& distance <= WINDOW_SIZE
                &&& exists|sym: nat, dsym: nat, next: nat|
                    {
                        &&& #[trigger] match_coded(
                            input,
                            pos,
                            litlen,
                            lengths,
                            length,
                            distance,
                            next,
                            sym,
                            dsym,
                            sure,
                        )
                        &&& tokens_at(
                            input,
                            next,
                            litlen,
                            dist,
                            out_len + length,
                            rest,
                            end,
                            sure,
                        )
                    }
            },
        }
    }
}

/// `bytes` stand at `pos` as they are, one byte in eight bits each.
pub open spec fn stored_at(input: Seq<u8>, pos: nat, bytes: Seq<u8>) -> bool {
    forall|i: int|
        0 <= i < bytes.len() ==> #[trigger] field_at(
            input,
            (pos + 8 * i) as nat,
            8,
            bytes[i] as int,
        )
}

/// `chunk` stands at `pos` as the body of a block and ends at `end`.
pub open spec fn chunk_at(
    input: Seq<u8>,
    pos: nat,
    body: Body,
    out_len: nat,
    chunk: Chunk,
    end: nat,
    sure: bool,
) -> bool {
    match chunk {
        Chunk::Stored(bytes) => {
            &&& body == Body::Stored(bytes.len())
            &&& stored_at(input, pos, bytes)
            &&& end == pos + 8 * bytes.len()
        },
        Chunk::Coded(tokens) => {
            &&& body matches Body::Coded { litlen, dist }
            &&& tokens_at(input, pos, litlen, dist, out_len, tokens, end, sure)
        },
    }
}

/// The block `block` starts at `pos`, marked as the last one if it is the
/// only one of `count` blocks to come, and `chunk` stands as its body from
/// `start` to `end`.
pub open spec fn block_at(
    input: Seq<u8>,
    pos: nat,
    out_len: nat,
    chunk: Chunk,
    count: nat,
    block: Block,
    start: nat,
    end: nat,
    sure: bool,
) -> bool {
    &&& block_start(input, pos) == Ok::<(Block, nat), InflateError>((block, start))
    &&& block.last == (count == 1)
    &&& chunk_at(input, start, block.body, out_len, chunk, end, sure)
}

/// `chunks` stand at `pos`, one block each and one behind the other, the
/// last of them in the block that is marked as the last one. Each block
/// begins with a header that says what the block is.
pub open spec fn chunks_at(
    input: Seq<u8>,
    pos: nat,
    out: Seq<u8>,
    chunks: Seq<Chunk>,
    sure: bool,
) -> bool
    decreases chunks.len(),
{
    let rest = chunks.drop_first();
    let more = unpack(out, chunks.take(1));
    &&& chunks.len() > 0
    &&& exists|block: Block, start: nat, end: nat|
        {
            &&& #[trigger] block_at(
                input,
                pos,
                out.len(),
                chunks[0],
                chunks.len(),
                block,
                start,
                end,
                sure,
            )
            &&& chunks.len() > 1 ==> chunks_at(input, end, more, rest, sure)
        }
}

/// `input` is a stream that stands for `data`: blocks that hold the chunks
/// of some way to cut `data` up.
pub open spec fn encodes(input: Seq<u8>, data: Seq<u8>) -> bool {
    exists|chunks: Seq<Chunk>|
        #[trigger] chunks_at(input, 0, Seq::empty(), chunks, false) && unpack(
            Seq::empty(),
            chunks,
        ) == data
}

/// `input` is a stream that stands for `data`, and it goes on behind each
/// of its codes as far as the decoder looks.
pub open spec fn encodes_amply(input: Seq<u8>, data: Seq<u8>) -> bool {
    exists|chunks: Seq<Chunk>|
        #[trigger] chunks_at(input, 0, Seq::empty(), chunks, true) && unpack(
            Seq::empty(),
            chunks,
        ) == data
}

/// What comes of a block that has ended: the end of the stream after the
/// last block, else what comes of the stream behind it.
pub open spec fn after_block(input: Seq<u8>, last: bool, end: nat, out: Seq<u8>) -> Inflated {
    if last {
        Inflated { data: out, end: None }
    } else {
        run(input, Progress { pos: end, out: out, block: None })
    }
}

/// The stream came to an end before a symbol of it was read, with a
/// beginning of `whole` as its output.
pub open spec fn cut_short(r: Inflated, whole: Seq<u8>) -> bool {
    &&& r.end == Some(InflateError::UnexpectedEnd)
    &&& begins(whole, r.data)
}

/// What begins with a sequence begins with every beginning of it.
pub proof fn lemma_begins_on(whole: Seq<u8>, part: Seq<u8>, less: Seq<u8>)
    requires
        begins(whole, part),
        begins(part, less),
    ensures
        begins(whole, less),
{
    assert(whole.subrange(0, less.len() as int) =~= whole.subrange(
        0,
        part.len() as int,
    ).subrange(0, less.len() as int));
}

/// Tokens add to the output.
pub proof fn lemma_expand_extends(out: Seq<u8>, tokens: Seq<Token>)
    ensures
        begins(expand(out, tokens), out),
    decreases tokens.len(),
{
    if tokens.len() == 0 {
        assert(out.subrange(0, out.len() as int) =~= out);
    } else {
        let next = match tokens[0] {
            Token::Literal(byte) => out.push(byte),
            Token::Match { length, distance } => copy_back(out, distance, length),
        };
        match tokens[0] {
            Token::Literal(byte) => {
                assert(next.subrange(0, out.len() as int) =~= out);
            },
            Token::Match { length, distance } => {
                lemma_copy_back_extends(out, distance, length);
            },
        }
        lemma_expand_extends(next, tokens.drop_first());
        lemma_begins_on(expand(out, tokens), next, out);
    }
}

/// Chunks add to the output.
pub proof fn lemma_unpack_extends(out: Seq<u8>, chunks: Seq<Chunk>)
    ensures
        begins(unpack(out, chunks), out),
    decreases chunks.len(),
{
    if chunks.len() == 0 {
        assert(out.subrange(0, out.len() as int) =~= out);
    } else {
        let next = match chunks[0] {
            Chunk::Stored(bytes) => out + bytes,
            Chunk::Coded(tokens) => expand(out, tokens),
        };
        match chunks[0] {
            Chunk::Stored(bytes) => {
                assert(next.subrange(0, out.len() as int) =~= out);
            },
            Chunk::Coded(tokens) => {
                lemma_expand_extends(out, tokens);
            },
        }
        lemma_unpack_extends(next, chunks.drop_first());
        lemma_begins_on(unpack(out, chunks), next, out);
    }
}

/// A stored block hands on the bytes that stand in it.
pub proof fn lemma_stored_inflates(
    input: Seq<u8>,
    pos: nat,
    last: bool,
    out: Seq<u8>,
    bytes: Seq<u8>,
)
    requires
        stored_at(input, pos, bytes),
    ensures
        run(
            input,
            Progress {
                pos: pos,
                out: out,
                block: Some(Block { last: last, body: Body::Stored(bytes.len()) }),
            },
        ) == after_block(input, last, pos + 8 * bytes.len(), out + bytes),
    decreases bytes.len(),
{
    reveal_with_fuel(run, 1);
    if bytes.len() == 0 {
        assert(out + bytes =~= out);
    } else {
        let rest = bytes.drop_first();
        assert(field_at(input, (pos + 8 * 0) as nat, 8, bytes[0] as int));
        assert forall|i: int| 0 <= i < rest.len() implies #[trigger] field_at(
            input,
            (pos + 8 + 8 * i) as nat,
            8,
            rest[i] as int,
        ) by {
            assert(field_at(input, (pos + 8 * (i + 1)) as nat, 8, bytes[i + 1] as int));
        }
        lemma_stored_inflates(input, pos + 8, last, out.push(bytes[0]), rest);
        assert(out.push(bytes[0]) + rest =~= out + bytes);
    }
}

/// A Huffman block hands on what its tokens stand for, unless the stream
/// ends before the decoder has read them.
pub proof fn lemma_tokens_inflate(
    input: Seq<u8>,
    pos: nat,
    last: bool,
    litlen: Seq<u8>,
    dist: Option<Seq<u8>>,
    out: Seq<u8>,
    tokens: Seq<Token>,
    end: nat,
    sure: bool,
)
    requires
        litlen.len() <= 0x10000,
        dist matches Some(lengths) ==> lengths.len() <= 0x10000,
        tokens_at(input, pos, litlen, dist, out.len(), tokens, end, sure),
    ensures
        ({
            let r = run(
                input,
                Progress {
                    pos: pos,
                    out: out,
                    block: Some(
                        Block { last: last, body: Body::Coded { litlen: litlen, dist: dist } },
                    ),
                },
            );
            let whole = expand(out, tokens);
            r == after_block(input, last, end, whole) || (!sure && cut_short(r, whole))
        }),
    decreases tokens.len(),
{
    reveal_with_fuel(run, 1);
    let bits = LITLEN_BITS as nat;
    let whole = expand(out, tokens);
    assert(0 * bits == 0) by (nonlinear_arith);
    assert(0 * (DIST_BITS as nat) == 0) by (nonlinear_arith);
    lemma_expand_extends(out, tokens);
    if tokens.len() == 0 {
        lemma_decode_code(litlen, bits, input, pos, 256, 0);
    } else {
        let rest = tokens.drop_first();
        match tokens[0] {
            Token::Literal(byte) => {
                lemma_decode_code(litlen, bits, input, pos, byte as nat, 0);
                lemma_tokens_inflate(
                    input,
                    (pos + litlen[byte as int]) as nat,
                    last,
                    litlen,
                    dist,
                    out.push(byte),
                    rest,
                    end,
                    sure,
                );
            },
            Token::Match { length, distance: d } => {
                let lengths = dist->0;
                let (sym, dsym, next) = choose|sym: nat, dsym: nat, next: nat|
                    {
                        &&& #[trigger] match_coded(
                            input,
                            pos,
                            litlen,
                            lengths,
                            length,
                            d,
                            next,
                            sym,
                            dsym,
                            sure,
                        )
                        &&& tokens_at(
                            input,
                            next,
                            litlen,
                            dist,
                            out.len() + length,
                            rest,
                            end,
                            sure,
                        )
                    };
                let pos1 = (pos + litlen[sym as int]) as nat;
                let pos2 = pos1 + length_extra_bits(sym);
                let pos3 = (pos2 + lengths[dsym as int]) as nat;
                lemma_decode_code(litlen, bits, input, pos, sym, 0);
                lemma_decode_code(lengths, DIST_BITS as nat, input, pos2, dsym, 0);
                assert(run_length(input, pos1, sym) == Ok::<(nat, nat), InflateError>(
                    (length, pos2),
                )) by {
                    reveal_with_fuel(lsb_first, 1);
                }
                assert(distance(input, pos3, dsym) == Ok::<(nat, nat), InflateError>((d, next)))
                    by {
                    reveal_with_fuel(lsb_first, 1);
                }
                let more = copy_back(out, d, length);
                lemma_copy_back_extends(out, d, length);
                lemma_tokens_inflate(input, next, last, litlen, dist, more, rest, end, sure);
            },
        }
    }
}

/// Blocks hand on what their chunks stand for, and the stream ends with the
/// last of them, unless it ends before the decoder has read all of them.
pub proof fn lemma_chunks_inflate(
    input: Seq<u8>,
    pos: nat,
    out: Seq<u8>,
    chunks: Seq<Chunk>,
    sure: bool,
)
    requires
        chunks_at(input, pos, out, chunks, sure),
    ensures
        ({
            let r = run(input, Progress { pos: pos, out: out, block: None });
            let whole = unpack(out, chunks);
            r == (Inflated { data: whole, end: None }) || (!sure && cut_short(r, whole))
        }),
    decreases chunks.len(),
{
    reveal_with_fuel(run, 1);
    reveal_with_fuel(unpack, 2);
    let last = chunks.len() == 1;
    let rest = chunks.drop_first();
    let first = chunks.take(1);
    let (block, start, end) = choose|block: Block, start: nat, end: nat|
        {
            &&& #[trigger] block_at(
                input,
                pos,
                out.len(),
                chunks[0],
                chunks.len(),
                block,
                start,
                end,
                sure,
            )
            &&& chunks.len() > 1 ==> chunks_at(input, end, unpack(out, first), rest, sure)
        };
    assert(first.drop_first() =~= Seq::<Chunk>::empty());
    assert(first[0] == chunks[0]);
    let more = unpack(out, first);
    let whole = unpack(out, chunks);
    assert(whole == unpack(more, rest));
    lemma_unpack_extends(more, rest);
    let r = run(input, Progress { pos: pos, out: out, block: None });
    match chunks[0] {
        Chunk::Stored(bytes) => {
            lemma_stored_inflates(input, start, last, out, bytes);
            assert(more == out + bytes);
        },
        Chunk::Coded(tokens) => {
            lemma_block_codes(input, pos);
            match block.body {
                Body::Coded { litlen, dist } => {
                    lemma_tokens_inflate(
                        input,
                        start,
                        last,
                        litlen,
                        dist,
                        out,
                        tokens,
                        end,
                        sure,
                    );
                },
                _ => {},
            }
            assert(more == expand(out, tokens));
            if !sure && cut_short(r, more) {
                lemma_begins_on(whole, more, r.data);
            }
        },
    }
    if last {
        assert(rest =~= Seq::<Chunk>::empty());
    } else {
        lemma_chunks_inflate(input, end, more, rest, sure);
    }
}

/// The codes of a block have at most 288 and 32 symbols.
proof fn lemma_block_codes(input: Seq<u8>, pos: nat)
    ensures
        match block_start(input, pos) {
            Ok((block, next)) => match block.body {
                Body::Coded { litlen, dist } => litlen.len() <= 288 && (dist matches Some(lengths)
                    ==> lengths.len() <= 32),
                _ => true,
            },
            Err(_) => true,
        },
{
    reveal(block_start);
    match crate::deflate::format::header(input, pos) {
        Ok((last, kind, next)) => {
            lemma_dynamic_trees(input, next);
        },
        Err(_) => {},
    }
}

/// Inflating inverts encoding: a stream that stands for `data`, and goes on
/// as far as the decoder looks, inflates to `data` and ends without an
/// error.
pub proof fn lemma_inflate_inverts_encoding(input: Seq<u8>, data: Seq<u8>)
    requires
        encodes_amply(input, data),
    ensures
        inflate(input) == (Inflated { data: data, end: None }),
{
    let chunks = choose|chunks: Seq<Chunk>|
        #[trigger] chunks_at(input, 0, Seq::empty(), chunks, true) && unpack(
            Seq::empty(),
            chunks,
        ) == data;
    lemma_chunks_inflate(input, 0, Seq::empty(), chunks, true);
}

/// Inflating never gives other bytes than were encoded: a stream that
/// stands for `data` inflates to `data`, or to a beginning of `data` where
/// the stream ends before the decoder has read a symbol. No other error
/// comes of it.
pub proof fn lemma_inflate_follows_encoding(input: Seq<u8>, data: Seq<u8>)
    requires
        encodes(input, data),
    ensures
        begins(data, inflate(input).data),
        inflate(input).end is None ==> inflate(input).data == data,
        inflate(input).end is Some ==> inflate(input).end == Some(InflateError::UnexpectedEnd),
{
    let chunks = choose|chunks: Seq<Chunk>|
        #[trigger] chunks_at(input, 0, Seq::empty(), chunks, false) && unpack(
            Seq::empty(),
            chunks,
        ) == data;
    lemma_chunks_inflate(input, 0, Seq::empty(), chunks, false);
    assert(data.subrange(0, data.len() as int) =~= data);
}

/// Inflating what an encoder makes of the output of a stream gives that
/// output again, whatever the encoder, if only its stream stands for the
/// data that it is given and goes on as far as the decoder looks.
pub proof fn lemma_inflate_encode_inflate(
    encoder: spec_fn(Seq<u8>) -> Seq<u8>,
    input: Seq<u8>,
)
    requires
        encodes_amply(encoder(inflate(input).data), inflate(input).data),
    ensures
        inflate(encoder(inflate(input).data)).data == inflate(input).data,
        (inflate(encoder(inflate(input).data)).end is None),
{
    lemma_inflate_inverts_encoding(encoder(inflate(input).data), inflate(input).data);
}


/// The place in the block `body` at `pos`, behind the output `out`.
pub open spec fn within(pos: nat, out: Seq<u8>, last: bool, body: Body) -> Progress {
    Progress { pos: pos, out: out, block: Some(Block { last: last, body: body }) }
}

/// The place between two blocks at `pos`, behind the output `out`.
pub open spec fn between(pos: nat, out: Seq<u8>) -> Progress {
    Progress { pos: pos, out: out, block: None }
}

/// What the decoder reads of a stored block without an error are the
/// bytes that stand in it.
pub proof fn lemma_stored_is_encoded(
    input: Seq<u8>,
    pos: nat,
    last: bool,
    left: nat,
    out: Seq<u8>,
) -> (bytes: Seq<u8>)
    requires
        pos <= bit_count(input),
        run(input, within(pos, out, last, Body::Stored(left))).end is None,
    ensures
        bytes.len() == left,
        pos + 8 * left <= bit_count(input),
        stored_at(input, pos, bytes),
        run(input, within(pos, out, last, Body::Stored(left))) == after_block(
            input,
            last,
            pos + 8 * left,
            out + bytes,
        ),
    decreases left,
{
    reveal_with_fuel(run, 1);
    if left == 0 {
        let bytes = Seq::<u8>::empty();
        assert(out + bytes =~= out);
        bytes
    } else {
        match field(input, pos, 8) {
            Err(e) => Seq::empty(),
            Ok((byte, next)) => {
                crate::bits::lemma_field_fits(input, pos, 8);
                vstd::arithmetic::power2::lemma2_to64();
                let rest = lemma_stored_is_encoded(
                    input,
                    next,
                    last,
                    (left - 1) as nat,
                    out.push(byte as u8),
                );
                let bytes = seq![byte as u8] + rest;
                assert(out.push(byte as u8) + rest =~= out + bytes);
                assert forall|i: int| 0 <= i < bytes.len() implies #[trigger] field_at(
                    input,
                    (pos + 8 * i) as nat,
                    8,
                    bytes[i] as int,
                ) by {
                    if i > 0 {
                        assert(field_at(input, (next + 8 * (i - 1)) as nat, 8, rest[i - 1] as int));
                    }
                }
                bytes
            },
        }
    }
}

/// What the decoder reads of a Huffman block without an error are tokens
/// that stand in it.
pub proof fn lemma_block_is_encoded(
    input: Seq<u8>,
    pos: nat,
    last: bool,
    litlen: Seq<u8>,
    dist: Option<Seq<u8>>,
    out: Seq<u8>,
) -> (found: (Seq<Token>, nat))
    requires
        litlen.len() <= 0x10000,
        dist matches Some(lengths) ==> lengths.len() <= 0x10000,
        run(input, within(pos, out, last, Body::Coded { litlen: litlen, dist: dist })).end is None,
    ensures
        pos < found.1 <= bit_count(input),
        tokens_at(input, pos, litlen, dist, out.len(), found.0, found.1, true),
        run(input, within(pos, out, last, Body::Coded { litlen: litlen, dist: dist }))
            == after_block(input, last, found.1, expand(out, found.0)),
    decreases bit_count(input) - pos,
{
    reveal_with_fuel(run, 1);
    let bits = LITLEN_BITS as nat;
    assert(0 * bits == 0) by (nonlinear_arith);
    assert(0 * (DIST_BITS as nat) == 0) by (nonlinear_arith);
    lemma_decode_advances(litlen, bits, input, pos, 0);
    lemma_decoded_stands(litlen, bits, input, pos, 0);
    match decode_symbol(litlen, bits, input, pos) {
        Err(e) => (Seq::empty(), 0),
        Ok((sym, next)) => {
            if sym < 256 {
                let byte = sym as u8;
                let (rest, end) = lemma_block_is_encoded(
                    input,
                    next,
                    last,
                    litlen,
                    dist,
                    out.push(byte),
                );
                let tokens = seq![Token::Literal(byte)] + rest;
                assert(tokens.drop_first() =~= rest);
                (tokens, end)
            } else if sym == 256 {
                (Seq::empty(), next)
            } else if sym > 285 {
                (Seq::empty(), 0)
            } else {
                lemma_back_reference(input, next, out, dist, sym as nat);
                match back_reference(input, next, out, dist, sym as nat) {
                    Err(e) => (Seq::empty(), 0),
                    Ok((more, after)) => {
                        let lengths = dist->0;
                        lemma_run_length(input, next, sym as nat);
                        let (length, pos2) = run_length(input, next, sym as nat)->Ok_0;
                        lemma_decoded_stands(lengths, DIST_BITS as nat, input, pos2, 0);
                        let (dsym, pos3) = decode_symbol(
                            lengths,
                            DIST_BITS as nat,
                            input,
                            pos2,
                        )->Ok_0;
                        lemma_distance(input, pos3, dsym as nat);
                        let (d, behind) = distance(input, pos3, dsym as nat)->Ok_0;
                        assert(behind == after && more == copy_back(out, d, length));
                        assert(field_at(
                            input,
                            next,
                            length_extra_bits(sym as nat),
                            length - length_base(sym as nat),
                        )) by {
                            reveal_with_fuel(lsb_first, 1);
                        }
                        assert(field_at(
                            input,
                            pos3,
                            distance_extra_bits(dsym as nat),
                            d - distance_base(dsym as nat),
                        )) by {
                            reveal_with_fuel(lsb_first, 1);
                        }
                        assert(match_coded(
                            input,
                            pos,
                            litlen,
                            lengths,
                            length,
                            d,
                            after,
                            sym as nat,
                            dsym as nat,
                            true,
                        ));
                        lemma_copy_back_extends(out, d, length);
                        let (rest, end) = lemma_block_is_encoded(
                            input,
                            after,
                            last,
                            litlen,
                            dist,
                            more,
                        );
                        let tokens = seq![Token::Match { length: length, distance: d }] + rest;
                        assert(tokens.drop_first() =~= rest);
                        (tokens, end)
                    },
                }
            }
        },
    }
}

/// What the decoder reads of a stream without an error are chunks that
/// stand in it.
pub proof fn lemma_stream_is_encoded(input: Seq<u8>, pos: nat, out: Seq<u8>) -> (chunks: Seq<
    Chunk,
>)
    requires
        run(input, between(pos, out)).end is None,
    ensures
        chunks_at(input, pos, out, chunks, true),
        run(input, between(pos, out)).data == unpack(out, chunks),
    decreases bit_count(input) - pos,
{
    reveal_with_fuel(run, 1);
    reveal_with_fuel(unpack, 2);
    lemma_block_start_advances(input, pos);
    lemma_block_codes(input, pos);
    match block_start(input, pos) {
        Err(e) => Seq::empty(),
        Ok((block, start)) => {
            let (chunk, end) = match block.body {
                Body::Stored(left) => {
                    let bytes = lemma_stored_is_encoded(input, start, block.last, left, out);
                    (Chunk::Stored(bytes), start + 8 * left)
                },
                Body::Coded { litlen, dist } => {
                    let (tokens, end) = lemma_block_is_encoded(
                        input,
                        start,
                        block.last,
                        litlen,
                        dist,
                        out,
                    );
                    (Chunk::Coded(tokens), end)
                },
            };
            let more = unpack(out, seq![chunk]);
            assert(seq![chunk].drop_first() =~= Seq::<Chunk>::empty());
            assert(run(input, between(pos, out)) == after_block(input, block.last, end, more));
            let rest = if block.last {
                Seq::<Chunk>::empty()
            } else {
                lemma_stream_is_encoded(input, end, more)
            };
            let chunks = seq![chunk] + rest;
            assert(chunks.drop_first() =~= rest);
            assert(chunks.take(1) =~= seq![chunk]);
            assert(chunk_at(input, start, block.body, out.len(), chunks[0], end, true));
            assert(block_at(
                input,
                pos,
                out.len(),
                chunks[0],
                chunks.len(),
                block,
                start,
                end,
                true,
            ));
            chunks
        },
    }
}

/// Inflating accepts nothing but encodings: a stream that inflates
/// without an error stands for the data that comes out of it.
pub proof fn lemma_inflated_is_encoded(input: Seq<u8>)
    requires
        inflate(input).end is None,
    ensures
        encodes_amply(input, inflate(input).data),
{
    let chunks = lemma_stream_is_encoded(input, 0, Seq::empty());
}


/// The streams that inflate to `data` without an error are those that
/// stand for `data` and go on as far as the decoder looks.
pub proof fn lemma_inflates_iff_encoded(input: Seq<u8>, data: Seq<u8>)
    ensures
        inflate(input) == (Inflated { data: data, end: None }) <==> encodes_amply(input, data),
{
    if encodes_amply(input, data) {
        lemma_inflate_inverts_encoding(input, data);
    }
    if inflate(input) == (Inflated { data: data, end: None }) {
        lemma_inflated_is_encoded(input);
    }
}

} // verus!
