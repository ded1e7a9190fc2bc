//! The decoder: a pull-style state machine over a DEFLATE stream.
use crate::bits::{bit_count, lemma_field_fits, lemma_lsb_first_bound};
use crate::deflate::format::{
    align, back_reference, block_start, code_length_lengths, code_length_order, code_lengths,
    copy_back, declared_distance_code, distance, dynamic_trees, field, fixed_dist_lengths,
    fixed_litlen_lengths, header, inflate, lemma_back_reference, lemma_block_start_advances,
    lemma_code_length_lengths, lemma_code_length_order, lemma_code_lengths, lemma_copy_back_extends,
    lemma_decode_advances, lemma_decode_gives_code, lemma_distance, lemma_header_advances,
    lemma_run_extends, lemma_run_length, repeated, run, run_length, Block as BlockView, Body,
    Inflated, Kind, Progress, CODE_LENGTH_BITS, DIST_BITS, LITLEN_BITS, WINDOW_SIZE,
};
use crate::deflate::huffman::{count_len, decode_symbol, make_table, Table};
use crate::deflate::window::{lemma_pushed_shows, shows, Window};
use crate::error::InflateError;
use crate::reader::BitReader;
use vstd::arithmetic::power2::{lemma2_to64, lemma_pow2_strictly_increases, pow2};
use vstd::bits::lemma_u16_shl_is_mul;
use vstd::prelude::*;

verus! {

/// The header of the block under way.
#[derive(Clone, Copy, Debug)]
struct Block {
    bfinal: bool,
    btype: BlockType,
}

/// The kind of a block. A stored block counts the bytes that it has still
/// to hand out.
#[derive(Clone, Copy, Debug)]
enum BlockType {
    NoCompression(u16),
    FixedHuffman,
    DynamicHuffman,
}

/// What a step of the decoder comes to.
enum Step {
    /// A byte to hand out.
    Byte(u8),
    /// The end of the stream.
    End,
    /// Nothing yet: a block has begun or ended, or a run is under way.
    Again,
}

/// How a call of `read` ended.
#[derive(Clone, Copy, Debug, PartialEq, Eq, Structural)]
pub enum Status {
    /// The buffer is full.
    Filled,
    /// The stream has ended with its final block.
    EndOfStream,
    /// The stream is malformed.
    Failed(InflateError),
}

/// A decoder over the bytes of a DEFLATE stream. It hands out the bytes
/// that the stream stands for, one at a time or a buffer at a time.
///
/// The bytes may go on behind the stream, as they do where the stream
/// stands in a gzip or zlib frame. The tables look at up to ten bits at a
/// time, so a symbol is only read where that many bits are left, be it in
/// the stream or behind it.
pub struct Inflater<'a> {
    reader: BitReader<'a>,
    lookback: Window,
    block: Option<Block>,
    litlentable: Option<Table>,
    disttable: Option<Table>,
    fixed: Option<(Table, Table)>,
    backread: Option<(usize, usize)>,
    done: bool,
    failed: Option<InflateError>,
    out: Ghost<Seq<u8>>,
    codes: Ghost<(Seq<u8>, Option<Seq<u8>>)>,
}

spec fn block_type(kind: Kind) -> BlockType {
    match kind {
        Kind::Stored(len) => BlockType::NoCompression(len as u16),
        Kind::Fixed => BlockType::FixedHuffman,
        Kind::Dynamic => BlockType::DynamicHuffman,
    }
}

impl<'a> Inflater<'a> {
    /// The stream that is being decoded.
    pub closed spec fn input(&self) -> Seq<u8> {
        self.reader.bytes()
    }

    /// The bytes that have been handed out so far.
    pub closed spec fn produced(&self) -> Seq<u8> {
        self.out@
    }

    /// The code lengths of the literal/length code in force.
    spec fn litlen_lengths(&self) -> Seq<u8> {
        match self.block {
            Some(Block { btype: BlockType::FixedHuffman, .. }) => fixed_litlen_lengths(),
            _ => self.codes@.0,
        }
    }

    /// The code lengths of the distance code in force.
    spec fn dist_lengths(&self) -> Option<Seq<u8>> {
        match self.block {
            Some(Block { btype: BlockType::FixedHuffman, .. }) => Some(fixed_dist_lengths()),
            _ => self.codes@.1,
        }
    }

    /// The block under way.
    spec fn block_view(&self) -> Option<BlockView> {
        match self.block {
            None => None,
            Some(block) => Some(
                BlockView {
                    last: block.bfinal,
                    body: match block.btype {
                        BlockType::NoCompression(left) => Body::Stored(left as nat),
                        _ => Body::Coded {
                            litlen: self.litlen_lengths(),
                            dist: self.dist_lengths(),
                        },
                    },
                },
            ),
        }
    }

    /// The tables of a dynamic block are those of its codes.
    spec fn dynamic_ready(&self) -> bool {
        &&& self.codes@.0.len() <= 288
        &&& self.litlentable matches Some(table) && table.bits == LITLEN_BITS && table.holds(
            self.codes@.0,
        )
        &&& match self.codes@.1 {
            Some(lengths) => {
                &&& lengths.len() <= 32
                &&& self.disttable matches Some(table)
                &&& table.bits == DIST_BITS
                &&& table.holds(lengths)
            },
            None => self.disttable is None,
        }
    }

    /// The tables of a fixed block, once built, are those of the fixed codes.
    spec fn fixed_ready(&self) -> bool {
        self.fixed matches Some(tables) ==> tables.0.bits == LITLEN_BITS && tables.0.holds(
            fixed_litlen_lengths(),
        ) && tables.1.bits == DIST_BITS && tables.1.holds(fixed_dist_lengths())
    }

    /// The tables that the block under way reads with are there.
    spec fn tables_ready(&self) -> bool {
        &&& self.fixed_ready()
        &&& match self.block {
            Some(Block { btype: BlockType::FixedHuffman, .. }) => self.fixed is Some,
            Some(Block { btype: BlockType::DynamicHuffman, .. }) => self.dynamic_ready(),
            _ => true,
        }
    }

    /// A Huffman block is under way.
    spec fn coded(&self) -> bool {
        self.block matches Some(block) && !(block.btype is NoCompression)
    }

    /// The reader and the window are in order.
    spec fn steady(&self) -> bool {
        &&& self.reader.wf()
        &&& shows(self.lookback@, self.out@)
    }

    /// Nothing but the reader's position has changed since `before`.
    spec fn only_reader_moved(&self, before: &Self) -> bool {
        &&& self.reader.bytes() == before.reader.bytes()
        &&& self.lookback == before.lookback
        &&& self.block == before.block
        &&& self.litlentable == before.litlentable
        &&& self.disttable == before.disttable
        &&& self.fixed == before.fixed
        &&& self.backread == before.backread
        &&& self.done == before.done
        &&& self.failed == before.failed
        &&& self.out == before.out
        &&& self.codes == before.codes
    }

    /// Where the decoder stands in the stream. The bytes of a run under way
    /// count as output.
    spec fn ahead(&self) -> Progress {
        Progress {
            pos: self.reader.position(),
            out: match self.backread {
                Some((dist, run)) => copy_back(self.out@, dist as nat, run as nat),
                None => self.out@,
            },
            block: self.block_view(),
        }
    }

    /// The decoder is in step with its stream: what it has handed out, and
    /// what is still to come from where it stands, is what the stream stands
    /// for.
    pub closed spec fn wf(&self) -> bool {
        &&& self.steady()
        &&& match self.failed {
            Some(e) => inflate(self.input()) == Inflated { data: self.out@, end: Some(e) },
            None => if self.done {
                inflate(self.input()) == Inflated { data: self.out@, end: None }
            } else {
                &&& self.tables_ready()
                &&& self.backread matches Some((dist, run)) ==> {
                    &&& 1 <= dist <= self.out@.len()
                    &&& dist <= WINDOW_SIZE
                    &&& 1 <= run
                    &&& self.coded()
                }
                &&& inflate(self.input()) == run(self.input(), self.ahead())
            },
        }
    }

    /// What has been handed out is the beginning of what the stream stands
    /// for.
    pub proof fn lemma_produced_is_prefix(&self)
        requires
            self.wf(),
        ensures
            self.produced().len() <= inflate(self.input()).data.len(),
            inflate(self.input()).data.subrange(0, self.produced().len() as int)
                == self.produced(),
    {
        let whole = inflate(self.input()).data;
        let n = self.out@.len() as int;
        if self.failed is None && !self.done {
            lemma_run_extends(self.input(), self.ahead());
            match self.backread {
                Some((dist, run)) => {
                    let more = copy_back(self.out@, dist as nat, run as nat);
                    lemma_copy_back_extends(self.out@, dist as nat, run as nat);
                    assert(whole.subrange(0, n) =~= whole.subrange(0, more.len() as int).subrange(
                        0,
                        n,
                    ));
                },
                None => {},
            }
        } else {
            assert(whole.subrange(0, n) =~= whole);
        }
    }

    /// A decoder at the start of the stream `reader`.
    pub fn new(reader: &'a [u8]) -> (r: Self)
        ensures
            r.wf(),
            r.input() == reader@,
            r.produced() == Seq::<u8>::empty(),
    {
        Inflater {
            reader: BitReader::new(reader),
            lookback: Window::new(),
            block: None,
            litlentable: None,
            disttable: None,
            fixed: None,
            backread: None,
            done: false,
            failed: None,
            out: Ghost(Seq::empty()),
            codes: Ghost((Seq::empty(), None)),
        }
    }

    /// Reads a block header and makes the block the one under way.
    fn read_header(&mut self) -> (r: Result<(), InflateError>)
        requires
            old(self).reader.wf(),
        ensures
            final(self).reader.wf(),
            final(self).only_reader_moved(
                &Inflater { reader: final(self).reader, block: final(self).block, ..*old(self) },
            ),
            final(self).input() == old(self).input(),
            match header(old(self).input(), old(self).reader.position()) {
                Ok((last, kind, next)) => r is Ok && final(self).reader.position() == next
                    && final(self).block == Some(Block { bfinal: last, btype: block_type(kind) }),
                Err(e) => r == Err::<(), InflateError>(e) && final(self).block == old(self).block,
            },
    {
        let ghost input = self.input();
        let ghost pos = self.reader.position();
        proof {
            lemma2_to64();
            lemma_lsb_first_bound(input, pos, 1);
            lemma_lsb_first_bound(input, pos + 1, 2);
        }
        let bfinal = match self.reader.read_u8(1) {
            Ok(bit) => bit == 1,
            Err(e) => {
                return Err(e);
            },
        };
        let kind = match self.reader.read_u8(2) {
            Ok(kind) => kind,
            Err(e) => {
                return Err(e);
            },
        };
        let btype = if kind == 0 {
            self.reader.jump_to_byte_boundary();
            let ghost start = self.reader.position();
            assert(start == align(pos + 3));
            proof {
                lemma_field_fits(input, start, 16);
                lemma_field_fits(input, start + 16, 16);
            }
            let len = match self.reader.read_u16(16) {
                Ok(len) => len,
                Err(e) => {
                    return Err(e);
                },
            };
            let nlen = match self.reader.read_u16(16) {
                Ok(nlen) => nlen,
                Err(e) => {
                    return Err(e);
                },
            };
            assert((!len != nlen) <==> (len + nlen != 0xFFFF)) by (bit_vector);
            if !len != nlen {
                return Err(InflateError::CorruptStoredLength);
            }
            BlockType::NoCompression(len)
        } else if kind == 1 {
            BlockType::FixedHuffman
        } else if kind == 2 {
            BlockType::DynamicHuffman
        } else {
            return Err(InflateError::InvalidBlockType);
        };
        self.block = Some(Block { bfinal: bfinal, btype: btype });
        Ok(())
    }

    /// The length of the run that the length symbol `sym` begins: its base,
    /// and what its extra bits add.
    fn decode_run_length(&mut self, sym: u16) -> (r: Result<u16, InflateError>)
        requires
            old(self).reader.wf(),
            257 <= sym <= 285,
        ensures
            final(self).reader.wf(),
            final(self).only_reader_moved(old(self)),
            match run_length(old(self).input(), old(self).reader.position(), sym as nat) {
                Ok((length, next)) => {
                    &&& r == Ok::<u16, InflateError>(length as u16)
                    &&& final(self).reader.position() == next
                },
                Err(e) => r == Err::<u16, InflateError>(e),
            },
    {
        proof {
            lemma_run_length(self.input(), self.reader.position(), sym as nat);
        }
        if sym <= 264 {
            Ok(sym - 254)
        } else if sym == 285 {
            Ok(258)
        } else {
            let extra_bits = (sym - 261) / 4;
            proof {
                lemma2_to64();
                if extra_bits < 5 {
                    lemma_pow2_strictly_increases(extra_bits as nat, 5);
                }
                assert(((sym - 265) % 4 + 4) * pow2(extra_bits as nat) <= 7 * 32)
                    by (nonlinear_arith)
                    requires
                        (sym - 265) % 4 + 4 <= 7,
                        pow2(extra_bits as nat) <= 32,
                ;
                lemma_u16_shl_is_mul(((sym - 265) % 4 + 4) as u16, extra_bits);
                lemma_field_fits(self.input(), self.reader.position(), extra_bits as nat);
            }
            let base = (((sym - 265) % 4 + 4) << extra_bits) + 3;
            match self.reader.read_u16(extra_bits as usize) {
                Ok(more) => Ok(base + more),
                Err(e) => Err(e),
            }
        }
    }

    /// The distance that the distance symbol `sym` stands for: its base, and
    /// what its extra bits add.
    fn decode_distance(&mut self, sym: u16) -> (r: Result<u16, InflateError>)
        requires
            old(self).reader.wf(),
        ensures
            final(self).reader.wf(),
            final(self).only_reader_moved(old(self)),
            sym >= 30 ==> r == Err::<u16, InflateError>(InflateError::InvalidDistanceCode),
            sym < 30 ==> match distance(
                old(self).input(),
                old(self).reader.position(),
                sym as nat,
            ) {
                Ok((d, next)) => {
                    &&& r == Ok::<u16, InflateError>(d as u16)
                    &&& final(self).reader.position() == next
                },
                Err(e) => r == Err::<u16, InflateError>(e),
            },
    {
        if sym <= 3 {
            Ok(sym + 1)
        } else if sym <= 29 {
            let extra_bits = sym / 2 - 1;
            proof {
                lemma_distance(self.input(), self.reader.position(), sym as nat);
                lemma2_to64();
                if extra_bits < 13 {
                    lemma_pow2_strictly_increases(extra_bits as nat, 13);
                }
                assert((sym % 2 + 2) * pow2(extra_bits as nat) <= 3 * 8192) by (nonlinear_arith)
                    requires
                        sym % 2 + 2 <= 3,
                        pow2(extra_bits as nat) <= 8192,
                ;
                lemma_u16_shl_is_mul((sym % 2 + 2) as u16, extra_bits);
                lemma_field_fits(self.input(), self.reader.position(), extra_bits as nat);
            }
            let base = ((sym % 2 + 2) << extra_bits) + 1;
            match self.reader.read_u16(extra_bits as usize) {
                Ok(more) => Ok(base + more),
                Err(e) => Err(e),
            }
        } else {
            Err(InflateError::InvalidDistanceCode)
        }
    }

    /// Reads the next symbol of the literal/length code in force.
    fn read_literal_or_length(&mut self) -> (r: Result<u16, InflateError>)
        requires
            old(self).reader.wf(),
            old(self).tables_ready(),
            old(self).coded(),
        ensures
            final(self).reader.wf(),
            final(self).only_reader_moved(old(self)),
            match decode_symbol(
                old(self).litlen_lengths(),
                LITLEN_BITS as nat,
                old(self).input(),
                old(self).reader.position(),
            ) {
                Ok((sym, next)) => {
                    &&& r == Ok::<u16, InflateError>(sym)
                    &&& final(self).reader.position() == next
                    &&& sym < old(self).litlen_lengths().len()
                },
                Err(e) => r == Err::<u16, InflateError>(e),
            },
    {
        let ghost lengths = self.litlen_lengths();
        proof {
            lemma_decode_gives_code(
                lengths,
                LITLEN_BITS as nat,
                self.input(),
                self.reader.position(),
                0,
            );
        }
        let fixed = match self.block {
            Some(Block { btype: BlockType::FixedHuffman, .. }) => true,
            _ => false,
        };
        if fixed {
            let tables = self.fixed.as_ref().unwrap();
            proof {
                tables.0.lemma_holds_wf(lengths);
                tables.0.lemma_decode(lengths, self.input(), self.reader.position());
            }
            self.reader.read_table(&tables.0)
        } else {
            let table = self.litlentable.as_ref().unwrap();
            proof {
                table.lemma_holds_wf(lengths);
                table.lemma_decode(lengths, self.input(), self.reader.position());
            }
            self.reader.read_table(table)
        }
    }

    /// Reads the next symbol of the distance code in force.
    fn read_distance_code(&mut self) -> (r: Result<u16, InflateError>)
        requires
            old(self).reader.wf(),
            old(self).tables_ready(),
            old(self).coded(),
            old(self).dist_lengths() is Some,
        ensures
            final(self).reader.wf(),
            final(self).only_reader_moved(old(self)),
            match decode_symbol(
                old(self).dist_lengths()->0,
                DIST_BITS as nat,
                old(self).input(),
                old(self).reader.position(),
            ) {
                Ok((sym, next)) => {
                    &&& r == Ok::<u16, InflateError>(sym)
                    &&& final(self).reader.position() == next
                },
                Err(e) => r == Err::<u16, InflateError>(e),
            },
    {
        let ghost lengths = self.dist_lengths()->0;
        let fixed = match self.block {
            Some(Block { btype: BlockType::FixedHuffman, .. }) => true,
            _ => false,
        };
        if fixed {
            let tables = self.fixed.as_ref().unwrap();
            proof {
                tables.1.lemma_holds_wf(lengths);
                tables.1.lemma_decode(lengths, self.input(), self.reader.position());
            }
            self.reader.read_table(&tables.1)
        } else {
            let table = self.disttable.as_ref().unwrap();
            proof {
                table.lemma_holds_wf(lengths);
                table.lemma_decode(lengths, self.input(), self.reader.position());
            }
            self.reader.read_table(table)
        }
    }

    /// Reads `lengths` code lengths, coded with the code-length code of
    /// `codelengthtable`.
    #[verifier::loop_isolation(false)]
    fn read_codelengths(
        &mut self,
        lengths: usize,
        codelengthtable: &Table,
        Ghost(cl): Ghost<Seq<u8>>,
    ) -> (r: Result<Vec<u8>, InflateError>)
        requires
            old(self).reader.wf(),
            codelengthtable.bits == CODE_LENGTH_BITS,
            codelengthtable.holds(cl),
            cl.len() == 19,
            lengths <= 320,
        ensures
            final(self).reader.wf(),
            final(self).only_reader_moved(old(self)),
            match code_lengths(
                cl,
                old(self).input(),
                old(self).reader.position(),
                lengths as nat,
                Seq::empty(),
            ) {
                Ok((all, next)) => r matches Ok(v) && v@ == all && final(self).reader.position()
                    == next,
                Err(e) => r matches Err(x) && x == e,
            },
    {
        let ghost input = self.input();
        let ghost start = self.reader.position();
        let ghost total = lengths as nat;
        let ghost whole = code_lengths(cl, input, start, total, Seq::empty());
        let mut codelengths: Vec<u8> = Vec::with_capacity(lengths);
        proof {
            codelengthtable.lemma_holds_wf(cl);
            lemma2_to64();
        }
        while codelengths.len() < lengths
            invariant
                self.reader.wf(),
                self.only_reader_moved(old(self)),
                codelengths@.len() <= lengths,
                whole == code_lengths(cl, input, self.reader.position(), total, codelengths@),
            decreases lengths - codelengths@.len(),
        {
            let ghost pos = self.reader.position();
            let ghost sofar = codelengths@;
            let ghost decoded = decode_symbol(cl, CODE_LENGTH_BITS as nat, input, pos);
            proof {
                codelengthtable.lemma_decode(cl, input, pos);
            }
            let sym = match self.reader.read_table(codelengthtable) {
                Ok(sym) => sym,
                Err(e) => {
                    assert(decoded == Err::<(u16, nat), InflateError>(e));
                    assert(whole == Err::<(Seq<u8>, nat), InflateError>(e));
                    return Err(e);
                },
            };
            let ghost p = self.reader.position();
            assert(decoded == Ok::<(u16, nat), InflateError>((sym, p)));
            if sym <= 15 {
                codelengths.push(sym as u8);
                assert(whole == code_lengths(cl, input, p, total, sofar.push(sym as u8)));
            } else {
                if sym == 16 && codelengths.len() == 0 {
                    assert(whole == Err::<(Seq<u8>, nat), InflateError>(
                        InflateError::InvalidCodeLengthRepeat,
                    ));
                    return Err(InflateError::InvalidCodeLengthRepeat);
                }
                let bits: usize = if sym == 16 {
                    2
                } else if sym == 17 {
                    3
                } else {
                    7
                };
                let least: usize = if sym == 18 {
                    11
                } else {
                    3
                };
                let len: u8 = if sym == 16 {
                    codelengths[codelengths.len() - 1]
                } else {
                    0
                };
                proof {
                    lemma_lsb_first_bound(input, p, bits as nat);
                }
                let extra = match self.reader.read_u8(bits) {
                    Ok(extra) => extra,
                    Err(e) => {
                        assert(field(input, p, bits as nat) == Err::<(nat, nat), InflateError>(e));
                        assert(whole == Err::<(Seq<u8>, nat), InflateError>(e));
                        return Err(e);
                    },
                };
                let ghost next = self.reader.position();
                assert(field(input, p, bits as nat) == Ok::<(nat, nat), InflateError>(
                    (extra as nat, next),
                ));
                let count: usize = least + extra as usize;
                if codelengths.len() + count > lengths {
                    assert(repeated(sofar, len, count as nat, total) == Err::<
                        Seq<u8>,
                        InflateError,
                    >(InflateError::CodeLengthOverrun));
                    assert(whole == Err::<(Seq<u8>, nat), InflateError>(
                        InflateError::CodeLengthOverrun,
                    ));
                    return Err(InflateError::CodeLengthOverrun);
                }
                let mut k: usize = 0;
                while k < count
                    invariant
                        k <= count,
                        codelengths@ == sofar + Seq::new(k as nat, |i: int| len),
                    decreases count - k,
                {
                    codelengths.push(len);
                    k += 1;
                    assert(codelengths@ =~= sofar + Seq::new(k as nat, |i: int| len));
                }
                assert(repeated(sofar, len, count as nat, total) == Ok::<Seq<u8>, InflateError>(
                    codelengths@,
                ));
                assert(whole == code_lengths(cl, input, next, total, codelengths@));
            }
        }
        Ok(codelengths)
    }

    /// Reads the `count` lengths that a dynamic block gives of its
    /// code-length code, each to its place among the 19.
    #[verifier::loop_isolation(false)]
    fn read_code_length_code(&mut self, count: usize) -> (r: Result<Vec<u8>, InflateError>)
        requires
            old(self).reader.wf(),
            4 <= count <= 19,
        ensures
            final(self).reader.wf(),
            final(self).only_reader_moved(old(self)),
            match code_length_lengths(
                old(self).input(),
                old(self).reader.position(),
                count as nat,
            ) {
                Ok((lengths, next)) => {
                    &&& r matches Ok(v)
                    &&& v@ == lengths
                    &&& final(self).reader.position() == next
                },
                Err(e) => r matches Err(x) && x == e,
            },
    {
        let ghost input = self.input();
        let ghost start = self.reader.position();
        let mut codelencodelen: Vec<u8> = Vec::with_capacity(19);
        let mut i: usize = 0;
        while i < 19
            invariant
                i <= 19,
                codelencodelen@ == Seq::new(i as nat, |j: int| 0u8),
            decreases 19 - i,
        {
            codelencodelen.push(0);
            i += 1;
            assert(codelencodelen@ =~= Seq::new(i as nat, |j: int| 0u8));
        }
        proof {
            lemma2_to64();
            lemma_code_length_lengths(input, start, count as nat);
        }
        let mut k: usize = 0;
        while k < count
            invariant
                k <= count,
                self.reader.wf(),
                self.only_reader_moved(old(self)),
                codelencodelen@.len() == 19,
                code_length_lengths(input, start, k as nat) == Ok::<(Seq<u8>, nat), InflateError>(
                    (codelencodelen@, self.reader.position()),
                ),
            decreases count - k,
        {
            let ghost before = codelencodelen@;
            let ghost pos = self.reader.position();
            proof {
                lemma_lsb_first_bound(input, pos, 3);
                lemma_code_length_order(k as int);
                lemma_code_length_lengths(input, start, k as nat);
            }
            let len = match self.reader.read_u8(3) {
                Ok(len) => len,
                Err(e) => {
                    return Err(e);
                },
            };
            let index: usize = if k < 3 {
                16 + k
            } else if k == 3 {
                0
            } else if (k - 4) % 2 == 0 {
                8 + (k - 4) / 2
            } else {
                7 - (k - 4) / 2
            };
            codelencodelen[index] = len;
            k += 1;
            assert(index == code_length_order()[k - 1]);
            assert(field(input, pos, 3) == Ok::<(nat, nat), InflateError>(
                (len as nat, self.reader.position()),
            ));
            assert(codelencodelen@ == before.update(index as int, len));
        }
        Ok(codelencodelen)
    }

    /// Builds the table of the distance code that a dynamic block declares
    /// with `distlengths`, if it declares one.
    #[verifier::loop_isolation(false)]
    fn make_distance_table(distlengths: &[u8]) -> (r: Option<Table>)
        requires
            1 <= distlengths@.len() <= 32,
            forall|i: int| 0 <= i < distlengths@.len() ==> distlengths@[i] <= 15,
        ensures
            match declared_distance_code(distlengths@) {
                Some(lengths) => {
                    &&& lengths.len() <= 32
                    &&& r matches Some(table)
                    &&& table.bits == DIST_BITS
                    &&& table.holds(lengths)
                },
                None => r is None,
            },
    {
        let ghost declared = distlengths@;
        let distance_code_count = distlengths.len();
        if distance_code_count == 1 && distlengths[0] == 0 {
            None
        } else {
            let mut one_count: usize = 0;
            let mut other_positive_count: usize = 0;
            let mut j: usize = 0;
            while j < distance_code_count
                invariant
                    j <= distance_code_count,
                    one_count == count_len(declared, 1, j as nat),
                    one_count <= j,
                    other_positive_count <= j,
                    other_positive_count == 0 <==> forall|m: int|
                        0 <= m < j ==> declared[m] <= 1,
                decreases distance_code_count - j,
            {
                let x = distlengths[j];
                if x == 1 {
                    one_count += 1;
                } else if x > 1 {
                    other_positive_count += 1;
                }
                j += 1;
            }
            if one_count == 1 && other_positive_count == 0 {
                let ghost padded = Seq::new(
                    32,
                    |i: int|
                        if i == 31 {
                            1u8
                        } else if i < declared.len() {
                            declared[i]
                        } else {
                            0u8
                        },
                );
                let mut dummy_dist_lengths: Vec<u8> = Vec::with_capacity(32);
                let mut m: usize = 0;
                while m < 32
                    invariant
                        m <= 32,
                        dummy_dist_lengths@.len() == m,
                        forall|i: int| 0 <= i < m ==> dummy_dist_lengths@[i] == padded[i],
                    decreases 32 - m,
                {
                    let x = if m == 31 {
                        1
                    } else if m < distlengths.len() {
                        distlengths[m]
                    } else {
                        0
                    };
                    dummy_dist_lengths.push(x);
                    m += 1;
                }
                assert(dummy_dist_lengths@ =~= padded);
                Some(make_table(DIST_BITS, dummy_dist_lengths.as_slice()))
            } else {
                Some(make_table(DIST_BITS, distlengths))
            }
        }
    }

    /// Reads the codes that the header of a dynamic block declares, and
    /// builds their tables.
    fn read_dynamic_trees(&mut self) -> (r: Result<(), InflateError>)
        requires
            old(self).reader.wf(),
        ensures
            final(self).reader.wf(),
            final(self).only_reader_moved(
                &Inflater {
                    reader: final(self).reader,
                    litlentable: final(self).litlentable,
                    disttable: final(self).disttable,
                    codes: final(self).codes,
                    ..*old(self)
                },
            ),
            final(self).input() == old(self).input(),
            match dynamic_trees(old(self).input(), old(self).reader.position()) {
                Ok((litlen, dist, next)) => r is Ok && final(self).reader.position() == next
                    && final(self).codes@ == (litlen, dist) && final(self).dynamic_ready(),
                Err(e) => r == Err::<(), InflateError>(e),
            },
    {
        let ghost input = self.input();
        let ghost pos = self.reader.position();
        let ghost whole = dynamic_trees(input, pos);
        proof {
            lemma2_to64();
            lemma_lsb_first_bound(input, pos, 5);
            lemma_lsb_first_bound(input, pos + 5, 5);
            lemma_lsb_first_bound(input, pos + 10, 4);
        }
        let hlit = match self.reader.read_u8(5) {
            Ok(hlit) => hlit,
            Err(e) => {
                assert(field(input, pos, 5) == Err::<(nat, nat), InflateError>(e));
                return Err(e);
            },
        };
        assert(field(input, pos, 5) == Ok::<(nat, nat), InflateError>((hlit as nat, pos + 5)));
        let hdist = match self.reader.read_u8(5) {
            Ok(hdist) => hdist,
            Err(e) => {
                assert(field(input, pos + 5, 5) == Err::<(nat, nat), InflateError>(e));
                return Err(e);
            },
        };
        assert(field(input, pos + 5, 5) == Ok::<(nat, nat), InflateError>(
            (hdist as nat, pos + 10),
        ));
        let hclen = match self.reader.read_u8(4) {
            Ok(hclen) => hclen,
            Err(e) => {
                assert(field(input, pos + 10, 4) == Err::<(nat, nat), InflateError>(e));
                return Err(e);
            },
        };
        assert(field(input, pos + 10, 4) == Ok::<(nat, nat), InflateError>(
            (hclen as nat, pos + 14),
        ));
        let lit_len_code_count: usize = hlit as usize + 257;
        let distance_code_count: usize = hdist as usize + 1;
        let code_len_code_count: usize = hclen as usize + 4;
        let total = lit_len_code_count + distance_code_count;
        let ghost pos3 = pos + 14;
        let ghost first = code_length_lengths(input, pos3, code_len_code_count as nat);
        assert(whole == match first {
            Err(e) => Err::<(Seq<u8>, Option<Seq<u8>>, nat), InflateError>(e),
            Ok((cl, pos4)) => match code_lengths(cl, input, pos4, total as nat, Seq::empty()) {
                Err(e) => Err(e),
                Ok((all, pos5)) => Ok(
                    (
                        all.subrange(0, lit_len_code_count as int),
                        declared_distance_code(
                            all.subrange(lit_len_code_count as int, total as int),
                        ),
                        pos5,
                    ),
                ),
            },
        });
        proof {
            lemma_code_length_lengths(input, pos3, code_len_code_count as nat);
        }
        let codelencodelen = match self.read_code_length_code(code_len_code_count) {
            Ok(codelencodelen) => codelencodelen,
            Err(e) => {
                return Err(e);
            },
        };
        let ghost cl = codelencodelen@;
        let ghost pos4 = self.reader.position();
        let codelentable = make_table(CODE_LENGTH_BITS, codelencodelen.as_slice());
        let ghost second = code_lengths(cl, input, pos4, total as nat, Seq::empty());
        proof {
            lemma_code_lengths(cl, input, pos4, total as nat, Seq::empty());
        }
        let codelengths = match self.read_codelengths(total, &codelentable, Ghost(cl)) {
            Ok(codelengths) => codelengths,
            Err(e) => {
                return Err(e);
            },
        };
        let ghost all = codelengths@;
        let ghost pos5 = self.reader.position();
        assert(second == Ok::<(Seq<u8>, nat), InflateError>((all, pos5)));
        let (litlenlengths, distlengths) = codelengths.as_slice().split_at(lit_len_code_count);
        let ghost litlen = litlenlengths@;
        let ghost declared = distlengths@;
        assert(forall|j: int| 0 <= j < litlen.len() ==> litlen[j] == all[j]);
        assert(forall|j: int|
            0 <= j < declared.len() ==> declared[j] == all[lit_len_code_count + j]);

        let litlentable = make_table(LITLEN_BITS, litlenlengths);
        let disttable = Self::make_distance_table(distlengths);
        self.litlentable = Some(litlentable);
        self.disttable = disttable;
        self.codes = Ghost((litlen, declared_distance_code(declared)));
        assert(whole == Ok::<(Seq<u8>, Option<Seq<u8>>, nat), InflateError>(
            (litlen, declared_distance_code(declared), pos5),
        ));
        Ok(())
    }

    /// Builds the two tables of the fixed codes, unless they are there.
    fn build_fixed_tables(&mut self)
        requires
            old(self).fixed_ready(),
        ensures
            final(self).fixed is Some,
            final(self).fixed_ready(),
            final(self).only_reader_moved(&Inflater { fixed: final(self).fixed, ..*old(self) }),
            final(self).reader == old(self).reader,
    {
        if self.fixed.is_none() {
            let mut litlen: Vec<u8> = Vec::with_capacity(288);
            let mut i: usize = 0;
            while i < 288
                invariant
                    i <= 288,
                    litlen@.len() == i,
                    forall|j: int| 0 <= j < i ==> litlen@[j] == fixed_litlen_lengths()[j],
                decreases 288 - i,
            {
                let len: u8 = if i < 144 {
                    8
                } else if i < 256 {
                    9
                } else if i < 280 {
                    7
                } else {
                    8
                };
                litlen.push(len);
                i += 1;
            }
            let mut dist: Vec<u8> = Vec::with_capacity(32);
            let mut j: usize = 0;
            while j < 32
                invariant
                    j <= 32,
                    dist@.len() == j,
                    forall|m: int| 0 <= m < j ==> dist@[m] == 5,
                decreases 32 - j,
            {
                dist.push(5);
                j += 1;
            }
            assert(litlen@ =~= fixed_litlen_lengths());
            assert(dist@ =~= fixed_dist_lengths());
            let litlentable = make_table(LITLEN_BITS, litlen.as_slice());
            let disttable = make_table(DIST_BITS, dist.as_slice());
            self.fixed = Some((litlentable, disttable));
        }
    }

    /// Reads the start of a block: its header, and what the kind of the
    /// block needs before its first symbol.
    fn begin_block(&mut self) -> (r: Result<(), InflateError>)
        requires
            old(self).reader.wf(),
            old(self).fixed_ready(),
        ensures
            final(self).reader.wf(),
            final(self).input() == old(self).input(),
            final(self).lookback == old(self).lookback,
            final(self).out == old(self).out,
            final(self).backread == old(self).backread,
            final(self).done == old(self).done,
            final(self).failed == old(self).failed,
            match block_start(old(self).input(), old(self).reader.position()) {
                Ok((block, next)) => {
                    &&& r is Ok
                    &&& final(self).reader.position() == next
                    &&& final(self).block_view() == Some(block)
                    &&& final(self).tables_ready()
                },
                Err(e) => r == Err::<(), InflateError>(e),
            },
    {
        proof {
            reveal(block_start);
            lemma_header_advances(self.input(), self.reader.position());
        }
        match self.read_header() {
            Ok(()) => {},
            Err(e) => {
                return Err(e);
            },
        }
        match self.block {
            Some(Block { btype: BlockType::DynamicHuffman, .. }) => {
                match self.read_dynamic_trees() {
                    Ok(()) => {},
                    Err(e) => {
                        return Err(e);
                    },
                }
            },
            Some(Block { btype: BlockType::FixedHuffman, .. }) => {
                self.build_fixed_tables();
            },
            _ => {},
        }
        Ok(())
    }

    /// Hands `byte` out: it enters the window and counts as produced.
    fn emit(&mut self, byte: u8)
        requires
            shows(old(self).lookback@, old(self).out@),
        ensures
            shows(final(self).lookback@, final(self).out@),
            final(self).out@ == old(self).out@.push(byte),
            final(self).reader == old(self).reader,
            final(self).only_reader_moved(
                &Inflater { lookback: final(self).lookback, out: final(self).out, ..*old(self) },
            ),
    {
        proof {
            lemma_pushed_shows(self.lookback@, self.out@, byte);
        }
        self.lookback.push(byte);
        self.out = Ghost(self.out@.push(byte));
    }

    /// The decoder has gone one step on from `before`, with the outcome `r`: it
    /// is in step with its stream again, or the stream has failed where it
    /// stood.
    spec fn stepped(&self, before: &Self, r: Result<Step, InflateError>) -> bool {
        &&& self.steady()
        &&& self.input() == before.input()
        &&& self.failed is None
        &&& match r {
            Ok(Step::Byte(byte)) => self.wf() && !self.done && self.out@ == before.out@.push(
                byte,
            ),
            Ok(Step::End) => self.wf() && self.done && self.out@ == before.out@,
            Ok(Step::Again) => self.wf() && !self.done && self.out@ == before.out@
                && self.nearer(before),
            Err(e) => self.out@ == before.out@ && inflate(before.input()) == Inflated {
                data: before.out@,
                end: Some(e),
            },
        }
    }

    /// The decoder is nearer to the end of its stream than `before`: it has
    /// read on, or it has left a block that it stood at the end of.
    spec fn nearer(&self, before: &Self) -> bool {
        &&& self.reader.position() <= bit_count(self.input())
        &&& self.reader.position() > before.reader.position() || (self.reader.position()
            == before.reader.position() && before.block is Some && self.block is None)
    }

    /// The decoder is in step with its stream, and the stream goes on.
    spec fn running(&self) -> bool {
        &&& self.wf()
        &&& self.failed is None
        &&& !self.done
    }

    /// Hands out the next byte of the run under way.
    fn serve_run(&mut self) -> (r: Result<Step, InflateError>)
        requires
            old(self).running(),
            old(self).backread is Some,
        ensures
            final(self).stepped(old(self), r),
    {
        let ghost out = self.out@;
        let ghost here = self.ahead();
        let (dist, run) = self.backread.unwrap();
        let byte = match self.lookback.at(dist) {
            Ok(byte) => byte,
            Err(e) => {
                return Err(e);
            },
        };
        self.backread = if run == 1 {
            None
        } else {
            Some((dist, run - 1))
        };
        self.emit(byte);
        proof {
            assert(byte == out[out.len() - dist]);
            assert(copy_back(out, dist as nat, run as nat) == copy_back(
                out.push(byte),
                dist as nat,
                (run - 1) as nat,
            ));
            assert(copy_back(out.push(byte), dist as nat, 0) == out.push(byte));
            assert(self.ahead() == here);
        }
        Ok(Step::Byte(byte))
    }

    /// Begins the next block.
    fn start_step(&mut self) -> (r: Result<Step, InflateError>)
        requires
            old(self).running(),
            old(self).backread is None,
            old(self).block is None,
        ensures
            final(self).stepped(old(self), r),
    {
        reveal_with_fuel(run, 1);
        let ghost input = self.input();
        let ghost here = self.ahead();
        proof {
            lemma_block_start_advances(input, self.reader.position());
        }
        match self.begin_block() {
            Ok(()) => {},
            Err(e) => {
                assert(run(input, here) == Inflated { data: self.out@, end: Some(e) });
                return Err(e);
            },
        }
        assert(run(input, here) == run(input, self.ahead()));
        Ok(Step::Again)
    }

    /// Hands out the next byte of a stored block, or ends the block.
    fn stored_step(&mut self, block: Block, left: u16) -> (r: Result<Step, InflateError>)
        requires
            old(self).running(),
            old(self).backread is None,
            old(self).block == Some(block),
            block.btype == BlockType::NoCompression(left),
        ensures
            final(self).stepped(old(self), r),
    {
        let ghost input = self.input();
        let ghost here = self.ahead();
        let ghost out = self.out@;
        let ghost pos = self.reader.position();
        proof {
            self.reader.lemma_position_bound();
            lemma2_to64();
            lemma_lsb_first_bound(input, pos, 8);
        }
        assert(here == Progress {
            pos: pos,
            out: out,
            block: Some(BlockView { last: block.bfinal, body: Body::Stored(left as nat) }),
        });
        if left == 0 {
            if block.bfinal {
                self.done = true;
                assert(run(input, here) == Inflated { data: out, end: None }) by {
                    reveal_with_fuel(run, 1);
                }
                return Ok(Step::End);
            }
            self.block = None;
            let ghost target = Progress { pos: pos, out: out, block: None };
            assert(self.ahead() == target);
            assert(run(input, here) == run(input, target)) by {
                reveal_with_fuel(run, 1);
            }
            return Ok(Step::Again);
        }
        let byte = match self.reader.read_u8(8) {
            Ok(byte) => byte,
            Err(e) => {
                assert(field(input, pos, 8) == Err::<(nat, nat), InflateError>(e));
                assert(run(input, here) == Inflated { data: out, end: Some(e) }) by {
                    reveal_with_fuel(run, 1);
                }
                return Err(e);
            },
        };
        assert(field(input, pos, 8) == Ok::<(nat, nat), InflateError>((byte as nat, pos + 8)));
        self.block = Some(
            Block { bfinal: block.bfinal, btype: BlockType::NoCompression(left - 1) },
        );
        self.emit(byte);
        let ghost target = Progress {
            pos: pos + 8,
            out: out.push(byte),
            block: Some(
                BlockView { last: block.bfinal, body: Body::Stored((left - 1) as nat) },
            ),
        };
        assert(self.ahead() == target);
        assert(run(input, here) == run(input, target)) by {
            reveal_with_fuel(run, 1);
        }
        Ok(Step::Byte(byte))
    }

    /// Reads the next symbol of a Huffman block: a byte to hand out, the
    /// end of the block, or a back-reference.
    fn coded_step(&mut self, block: Block) -> (r: Result<Step, InflateError>)
        requires
            old(self).running(),
            old(self).backread is None,
            old(self).block == Some(block),
            old(self).coded(),
        ensures
            final(self).stepped(old(self), r),
    {
        reveal_with_fuel(run, 1);
        let ghost input = self.input();
        let ghost here = self.ahead();
        let ghost out = self.out@;
        let ghost pos = self.reader.position();
        let ghost litlen = self.litlen_lengths();
        let ghost dist_code = self.dist_lengths();
        let ghost decoded = decode_symbol(litlen, LITLEN_BITS as nat, input, pos);
        assert(here.block == Some(
            BlockView { last: block.bfinal, body: Body::Coded { litlen: litlen, dist: dist_code } },
        ));
        proof {
            lemma_decode_advances(litlen, LITLEN_BITS as nat, input, pos, 0);
        }
        let sym = match self.read_literal_or_length() {
            Ok(sym) => sym,
            Err(e) => {
                assert(decoded == Err::<(u16, nat), InflateError>(e));
                assert(run(input, here) == Inflated { data: out, end: Some(e) });
                return Err(e);
            },
        };
        let ghost next = self.reader.position();
        assert(decoded == Ok::<(u16, nat), InflateError>((sym, next)));
        if sym < 256 {
            self.emit(sym as u8);
            assert(run(input, here) == run(input, self.ahead()));
            Ok(Step::Byte(sym as u8))
        } else if sym == 256 {
            if block.bfinal {
                self.done = true;
            }
            self.block = None;
            self.litlentable = None;
            self.disttable = None;
            if self.done {
                assert(run(input, here) == Inflated { data: out, end: None });
                return Ok(Step::End);
            }
            assert(run(input, here) == run(input, self.ahead()));
            Ok(Step::Again)
        } else if sym > 285 {
            assert(run(input, here) == Inflated {
                data: out,
                end: Some(InflateError::InvalidCode),
            });
            Err(InflateError::InvalidCode)
        } else {
            let ghost reference = back_reference(input, next, out, dist_code, sym as nat);
            proof {
                lemma_back_reference(input, next, out, dist_code, sym as nat);
            }
            assert(run(input, here) == match reference {
                Err(e) => Inflated { data: out, end: Some(e) },
                Ok((more, after)) => run(
                    input,
                    Progress { pos: after, out: more, block: here.block },
                ),
            });
            match self.read_back_reference(sym) {
                Ok(()) => {},
                Err(e) => {
                    return Err(e);
                },
            }
            assert(run(input, here) == run(input, self.ahead()));
            Ok(Step::Again)
        }
    }

    /// Goes one step on in the stream.
    fn step(&mut self) -> (r: Result<Step, InflateError>)
        requires
            old(self).running(),
        ensures
            final(self).stepped(old(self), r),
    {
        if self.backread.is_some() {
            return self.serve_run();
        }
        match self.block {
            None => self.start_step(),
            Some(block) => match block.btype {
                BlockType::NoCompression(left) => self.stored_step(block, left),
                _ => self.coded_step(block),
            },
        }
    }

    /// Runs the state machine until a byte comes out or the stream ends.
    fn advance(&mut self) -> (r: Result<Option<u8>, InflateError>)
        requires
            old(self).running(),
        ensures
            final(self).steady(),
            final(self).input() == old(self).input(),
            final(self).failed is None,
            match r {
                Ok(Some(byte)) => final(self).wf() && !final(self).done && final(self).out@
                    == old(self).out@.push(byte),
                Ok(None) => {
                    &&& final(self).wf()
                    &&& final(self).done
                    &&& final(self).out@ == old(self).out@
                },
                Err(e) => final(self).out@ == old(self).out@ && inflate(old(self).input())
                    == Inflated { data: old(self).out@, end: Some(e) },
            },
    {
        loop
            invariant
                self.running(),
                self.input() == old(self).input(),
                self.out@ == old(self).out@,
            decreases
                    bit_count(self.input()) - self.reader.position(),
                    (if self.block is Some {
                        1nat
                    } else {
                        0nat
                    }),
        {
            proof {
                self.reader.lemma_position_bound();
            }
            match self.step() {
                Ok(Step::Byte(byte)) => {
                    return Ok(Some(byte));
                },
                Ok(Step::End) => {
                    return Ok(None);
                },
                Ok(Step::Again) => {},
                Err(e) => {
                    return Err(e);
                },
            }
        }
    }

    /// Reads what stands behind the length symbol `sym`: the extra bits of
    /// the length, and the distance. The run that they give is then under
    /// way.
    fn read_back_reference(&mut self, sym: u16) -> (r: Result<(), InflateError>)
        requires
            old(self).steady(),
            old(self).tables_ready(),
            old(self).coded(),
            old(self).backread is None,
            257 <= sym <= 285,
        ensures
            final(self).reader.wf(),
            final(self).only_reader_moved(
                &Inflater {
                    reader: final(self).reader,
                    backread: final(self).backread,
                    ..*old(self)
                },
            ),
            final(self).input() == old(self).input(),
            match back_reference(
                old(self).input(),
                old(self).reader.position(),
                old(self).out@,
                old(self).dist_lengths(),
                sym as nat,
            ) {
                Ok((more, next)) => {
                    &&& r is Ok
                    &&& final(self).reader.position() == next
                    &&& final(self).backread matches Some((dist, run))
                    &&& 1 <= dist <= old(self).out@.len()
                    &&& dist <= WINDOW_SIZE
                    &&& 1 <= run
                    &&& more == copy_back(old(self).out@, dist as nat, run as nat)
                },
                Err(e) => r == Err::<(), InflateError>(e),
            },
    {
        let ghost input = self.input();
        let ghost pos = self.reader.position();
        let ghost out = self.out@;
        let ghost lengths = self.dist_lengths();
        let ghost whole = back_reference(input, pos, out, lengths, sym as nat);
        let has_distance_code = match self.block {
            Some(Block { btype: BlockType::FixedHuffman, .. }) => true,
            _ => self.disttable.is_some(),
        };
        if !has_distance_code {
            return Err(InflateError::MissingDistanceTable);
        }
        proof {
            lemma_run_length(input, pos, sym as nat);
        }
        let run = match self.decode_run_length(sym) {
            Ok(run) => run,
            Err(e) => {
                return Err(e);
            },
        };
        let ghost pos1 = self.reader.position();
        assert(run_length(input, pos, sym as nat) == Ok::<(nat, nat), InflateError>(
            (run as nat, pos1),
        ));
        let dist_code = match self.read_distance_code() {
            Ok(dist_code) => dist_code,
            Err(e) => {
                return Err(e);
            },
        };
        let ghost pos2 = self.reader.position();
        assert(decode_symbol(lengths->0, DIST_BITS as nat, input, pos1) == Ok::<
            (u16, nat),
            InflateError,
        >((dist_code, pos2)));
        proof {
            if dist_code < 30 {
                lemma_distance(input, pos2, dist_code as nat);
            }
        }
        let dist = match self.decode_distance(dist_code) {
            Ok(dist) => dist,
            Err(e) => {
                return Err(e);
            },
        };
        let ghost pos3 = self.reader.position();
        assert(distance(input, pos2, dist_code as nat) == Ok::<(nat, nat), InflateError>(
            (dist as nat, pos3),
        ));
        if dist as usize > self.lookback.len() {
            return Err(InflateError::DistanceOutOfRange);
        }
        self.backread = Some((dist as usize, run as usize));
        assert(whole == Ok::<(Seq<u8>, nat), InflateError>(
            (copy_back(out, dist as nat, run as nat), pos3),
        ));
        Ok(())
    }

    /// The next byte of what the stream stands for; none once the stream
    /// has ended with its final block; the error that ends the output of a
    /// malformed stream, at that point and from then on.
    pub fn next_byte(&mut self) -> (r: Result<Option<u8>, InflateError>)
        requires
            old(self).wf(),
        ensures
            final(self).wf(),
            final(self).input() == old(self).input(),
            old(self).produced().len() < inflate(old(self).input()).data.len() ==> {
                let byte = inflate(old(self).input()).data[old(self).produced().len() as int];
                &&& r == Ok::<Option<u8>, InflateError>(Some(byte))
                &&& final(self).produced() == old(self).produced().push(byte)
            },
            old(self).produced().len() >= inflate(old(self).input()).data.len() ==> {
                &&& final(self).produced() == old(self).produced()
                &&& inflate(old(self).input()).data == old(self).produced()
                &&& r == match inflate(old(self).input()).end {
                    None => Ok::<Option<u8>, InflateError>(None),
                    Some(e) => Err::<Option<u8>, InflateError>(e),
                }
            },
    {
        proof {
            self.lemma_produced_is_prefix();
        }
        if let Some(e) = self.failed {
            return Err(e);
        }
        if self.done {
            return Ok(None);
        }
        match self.advance() {
            Ok(byte) => {
                proof {
                    self.lemma_produced_is_prefix();
                    let whole = inflate(self.input()).data;
                    match byte {
                        Some(b) => {
                            let shown = whole.subrange(0, self.out@.len() as int);
                            assert(shown[old(self).out@.len() as int] == b);
                        },
                        None => {},
                    }
                }
                Ok(byte)
            },
            Err(e) => {
                self.failed = Some(e);
                Err(e)
            },
        }
    }

    /// Fills `buf` with the next bytes of what the stream stands for, as
    /// far as they go, and says how many they are and why there are no
    /// more.
    pub fn read(&mut self, buf: &mut [u8]) -> (r: (usize, Status))
        requires
            old(self).wf(),
        ensures
            final(self).wf(),
            final(self).input() == old(self).input(),
            final(buf)@.len() == old(buf)@.len(),
            r.0 <= old(buf)@.len(),
            r.0 <= inflate(old(self).input()).data.len() - old(self).produced().len(),
            final(self).produced() == old(self).produced() + final(buf)@.subrange(0, r.0 as int),
            forall|i: int|
                0 <= i < r.0 ==> final(buf)@[i] == inflate(
                    old(self).input(),
                ).data[old(self).produced().len() + i],
            forall|i: int| r.0 <= i < old(buf)@.len() ==> final(buf)@[i] == old(buf)@[i],
            r.1 == if r.0 == old(buf)@.len() {
                Status::Filled
            } else {
                match inflate(old(self).input()).end {
                    None => Status::EndOfStream,
                    Some(e) => Status::Failed(e),
                }
            },
            r.0 < old(buf)@.len() ==> final(self).produced() == inflate(old(self).input()).data,
    {
        let ghost before = self.produced();
        let ghost whole = inflate(self.input()).data;
        let mut i: usize = 0;
        proof {
            self.lemma_produced_is_prefix();
            assert(buf@.subrange(0, 0) =~= Seq::<u8>::empty());
            assert(before + Seq::<u8>::empty() =~= before);
        }
        while i < buf.len()
            invariant
                self.wf(),
                self.input() == old(self).input(),
                buf@.len() == old(buf)@.len(),
                i <= buf@.len(),
                self.produced() == before + buf@.subrange(0, i as int),
                before == old(self).produced(),
                self.produced().len() <= inflate(self.input()).data.len(),
                forall|j: int| i <= j < buf@.len() ==> buf@[j] == old(buf)@[j],
                whole == inflate(self.input()).data,
                whole.subrange(0, self.produced().len() as int) == self.produced(),
                forall|j: int| 0 <= j < i ==> buf@[j] == whole[before.len() + j],
            decreases buf@.len() - i,
        {
            let ghost sofar = buf@;
            match self.next_byte() {
                Ok(Some(data)) => {
                    buf[i] = data;
                    i += 1;
                    proof {
                        assert(buf@.subrange(0, i as int) =~= sofar.subrange(0, i - 1).push(data));
                        assert(before + sofar.subrange(0, i - 1).push(data) =~= (before
                            + sofar.subrange(0, i - 1)).push(data));
                        self.lemma_produced_is_prefix();
                        assert forall|j: int| 0 <= j < i implies buf@[j] == whole[before.len()
                            + j] by {
                            let shown = whole.subrange(0, self.produced().len() as int);
                            assert(shown[before.len() + j] == buf@.subrange(0, i as int)[j]);
                        }
                    }
                },
                Ok(None) => {
                    return (i, Status::EndOfStream);
                },
                Err(e) => {
                    return (i, Status::Failed(e));
                },
            }
        }
        (i, Status::Filled)
    }
}

} // verus!
