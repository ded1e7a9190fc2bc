//! Reads a byte slice as a stream of bits.
use crate::bits::{
    bit_count, lemma_field_fits, lemma_lsb_first_bound, lemma_msb_first_bound, lemma_pow2_double,
    lemma_read_splits, lemma_reverse_field, lemma_whole_byte, lsb_first, reverse_low,
};
use crate::deflate::huffman::{entries_wf, walk, Table, TableEntry};
use crate::error::InflateError;
use vstd::arithmetic::power2::{lemma2_to64, lemma_pow2_pos, lemma_pow2_strictly_increases, pow2};
use vstd::bits::{
    lemma_u16_shl_is_mul, lemma_u32_low_bits_mask_is_mod, lemma_u32_shl_is_mul,
    lemma_u32_shr_is_div, low_bits_mask,
};
use vstd::prelude::*;

verus! {

/// A cursor over the bits of a byte slice. Whole bytes are pulled into a
/// 32-bit buffer whose bit 0 is the next bit of the stream. Reads that find
/// too few bits left fail and leave the cursor where it was.
pub struct BitReader<'a> {
    reader: &'a [u8],
    bitbuf: u32,
    bitbuf_remaining: usize,
    bytes_read: usize,
}

/// The four width-halving swaps that reverse the bits of a 16-bit word.
spec fn swap16(x: u16) -> u16 {
    let a = ((x >> 1) & 0x5555) | ((x & 0x5555) << 1);
    let b = ((a >> 2) & 0x3333) | ((a & 0x3333) << 2);
    let c = ((b >> 4) & 0x0F0F) | ((b & 0x0F0F) << 4);
    ((c >> 8) & 0x00FF) | ((c & 0x00FF) << 8)
}

/// The swaps bring the low `n` bits of a word, reversed, to its top.
proof fn lemma_swap16_reverses(x: u16, n: u16)
    requires
        1 <= n <= 15,
        x < pow2(n as nat),
    ensures
        swap16(x) >> ((16 - n) as u16) == reverse_low(x as nat, n as nat),
    decreases n,
{
    lemma2_to64();
    lemma_u16_shl_is_mul(1, n);
    assert(x < (1u16 << n));
    if n == 1 {
        reveal_with_fuel(reverse_low, 2);
        assert(swap16(x) >> 15u16 == x) by (bit_vector)
            requires
                x < (1u16 << 1u16),
        ;
        assert((x as nat % 2) * pow2(0) == x) by (nonlinear_arith)
            requires
                x < 2,
                pow2(0) == 1,
        ;
    } else {
        let m = (n - 1) as u16;
        let half = x / 2;
        lemma_pow2_double(m as nat, 1);
        assert(half < pow2(m as nat));
        lemma_swap16_reverses(half, m);
        lemma_u16_shl_is_mul(1, m);
        assert(swap16(x) >> ((16 - n) as u16) == (x % 2) * (1u16 << m) + (swap16(half) >> ((16
            - m) as u16))) by (bit_vector)
            requires
                2 <= n <= 15,
                m == (n - 1) as u16,
                half == x / 2,
                x < (1u16 << n),
        ;
        assert(half as nat == x as nat / 2);
        assert((16 - m) as u16 == (17 - n) as u16);
        assert((1u16 << m) == pow2((n - 1) as nat));
        assert(reverse_low(x as nat, n as nat) == (x as nat % 2) * pow2((n - 1) as nat)
            + reverse_low(x as nat / 2, (n - 1) as nat));
    }
}

/// Reverses the low `bits` bits of `value`.
fn reverse_bits(value: u16, bits: u8) -> (r: u16)
    requires
        1 <= bits <= 15,
        value < pow2(bits as nat),
    ensures
        r == reverse_low(value as nat, bits as nat),
{
    let mut lookup = value;
    lookup = ((lookup >> 1) & 0x5555) | ((lookup & 0x5555) << 1);
    lookup = ((lookup >> 2) & 0x3333) | ((lookup & 0x3333) << 2);
    lookup = ((lookup >> 4) & 0x0F0F) | ((lookup & 0x0F0F) << 4);
    lookup = ((lookup >> 8) & 0x00FF) | ((lookup & 0x00FF) << 8);
    proof {
        lemma_swap16_reverses(value, bits as u16);
    }
    lookup >> (16 - bits as u16)
}

impl<'a> BitReader<'a> {
    /// The bytes that the reader was made over.
    pub closed spec fn bytes(&self) -> Seq<u8> {
        self.reader@
    }

    /// The index in the stream of the next bit to be read.
    pub closed spec fn position(&self) -> nat {
        (8 * self.bytes_read - self.bitbuf_remaining) as nat
    }

    /// The buffer holds the bits of the stream from `position()` up to the
    /// last byte pulled, and nothing above them.
    pub closed spec fn wf(&self) -> bool {
        &&& self.bytes_read <= self.reader@.len()
        &&& self.bitbuf_remaining <= 32
        &&& self.bitbuf_remaining <= 8 * self.bytes_read
        &&& self.bitbuf == lsb_first(self.reader@, self.position(), self.bitbuf_remaining as nat)
    }

    /// A reader never stands behind the end of its bytes.
    pub proof fn lemma_position_bound(&self)
        requires
            self.wf(),
        ensures
            self.position() <= bit_count(self.bytes()),
    {
    }

    /// A reader at the first bit of `reader`.
    pub fn new(reader: &'a [u8]) -> (r: Self)
        ensures
            r.wf(),
            r.bytes() == reader@,
            r.position() == 0,
    {
        BitReader { reader: reader, bitbuf: 0, bitbuf_remaining: 0, bytes_read: 0 }
    }

    /// The number of bits read so far.
    pub fn bit_position(&self) -> (p: usize)
        requires
            self.wf(),
            self.position() <= usize::MAX,
        ensures
            p == self.position(),
    {
        let whole: usize = (self.bitbuf_remaining + 7) / 8;
        (self.bytes_read - whole) * 8 + (whole * 8 - self.bitbuf_remaining)
    }

    /// Reads the next `bits` bits as a number, least significant bit first,
    /// and keeps its low eight bits.
    pub fn read_u8(&mut self, bits: usize) -> (r: Result<u8, InflateError>)
        requires
            old(self).wf(),
            bits <= 16,
        ensures
            final(self).wf(),
            final(self).bytes() == old(self).bytes(),
            old(self).position() + bits <= bit_count(old(self).bytes()) ==> r == Ok::<
                u8,
                InflateError,
            >((lsb_first(old(self).bytes(), old(self).position(), bits as nat) % 256) as u8)
                && final(self).position() == old(self).position() + bits,
            old(self).position() + bits > bit_count(old(self).bytes()) ==> r == Err::<
                u8,
                InflateError,
            >(InflateError::UnexpectedEnd) && final(self).position() == old(self).position(),
    {
        proof {
            lemma_field_fits(self.bytes(), self.position(), bits as nat);
        }
        match self.read_u16(bits) {
            Ok(c) => {
                assert(c as u8 == c % 256) by (bit_vector);
                Ok(#[verifier::truncate] (c as u8))
            },
            Err(e) => Err(e),
        }
    }

    /// Reads the next `bits` bits as a number, least significant bit first:
    /// the first bit of the stream is bit 0 of the result.
    pub fn read_u16(&mut self, bits: usize) -> (r: Result<u16, InflateError>)
        requires
            old(self).wf(),
            bits <= 16,
        ensures
            final(self).wf(),
            final(self).bytes() == old(self).bytes(),
            old(self).position() + bits <= bit_count(old(self).bytes()) ==> r == Ok::<
                u16,
                InflateError,
            >(lsb_first(old(self).bytes(), old(self).position(), bits as nat) as u16)
                && final(self).position() == old(self).position() + bits,
            old(self).position() + bits > bit_count(old(self).bytes()) ==> r == Err::<
                u16,
                InflateError,
            >(InflateError::UnexpectedEnd) && final(self).position() == old(self).position(),
    {
        let num = match self.peek(bits) {
            Ok(num) => num,
            Err(e) => {
                return Err(e);
            },
        };
        self.skip(bits);
        Ok(num)
    }

    /// The value that `read_u16` would return, without moving on.
    pub fn peek_u16(&mut self, bits: usize) -> (r: Result<u16, InflateError>)
        requires
            old(self).wf(),
            bits <= 16,
        ensures
            final(self).wf(),
            final(self).bytes() == old(self).bytes(),
            final(self).position() == old(self).position(),
            old(self).position() + bits <= bit_count(old(self).bytes()) ==> r == Ok::<
                u16,
                InflateError,
            >(lsb_first(old(self).bytes(), old(self).position(), bits as nat) as u16),
            old(self).position() + bits > bit_count(old(self).bytes()) ==> r == Err::<
                u16,
                InflateError,
            >(InflateError::UnexpectedEnd),
    {
        self.peek(bits)
    }

    /// Fills the buffer to `bits` bits and returns them.
    fn peek(&mut self, bits: usize) -> (r: Result<u16, InflateError>)
        requires
            old(self).wf(),
            bits <= 16,
        ensures
            final(self).wf(),
            final(self).bytes() == old(self).bytes(),
            final(self).position() == old(self).position(),
            old(self).position() + bits <= bit_count(old(self).bytes()) ==> r == Ok::<
                u16,
                InflateError,
            >(lsb_first(old(self).bytes(), old(self).position(), bits as nat) as u16)
                && final(self).bitbuf_remaining >= bits,
            old(self).position() + bits > bit_count(old(self).bytes()) ==> r == Err::<
                u16,
                InflateError,
            >(InflateError::UnexpectedEnd),
            lsb_first(old(self).bytes(), old(self).position(), bits as nat) < pow2(bits as nat)
                <= 0x10000,
    {
        proof {
            lemma_field_fits(self.bytes(), self.position(), bits as nat);
            lemma_u32_shl_is_mul(1, bits as u32);
        }
        match self.need(bits) {
            Ok(()) => {},
            Err(e) => {
                return Err(e);
            },
        }
        let mask: u32 = (1u32 << (bits as u32)) - 1;
        let low: u32 = self.bitbuf & mask;
        proof {
            let rest = (self.bitbuf_remaining - bits) as nat;
            lemma_u32_shl_is_mul(1, bits as u32);
            assert(mask == low_bits_mask(bits as nat));
            lemma_u32_low_bits_mask_is_mod(self.bitbuf, bits as nat);
            lemma_read_splits(self.bytes(), self.position(), bits as nat, rest);
            assert(bits as nat + rest == self.bitbuf_remaining as nat);
        }
        Ok(low as u16)
    }

    /// Drops `bits` bits that are in the buffer.
    fn skip(&mut self, bits: usize)
        requires
            old(self).wf(),
            bits <= old(self).bitbuf_remaining,
            bits < 32,
        ensures
            final(self).wf(),
            final(self).bytes() == old(self).bytes(),
            final(self).position() == old(self).position() + bits,
            final(self).bitbuf_remaining == old(self).bitbuf_remaining - bits,
    {
        proof {
            let rest = (self.bitbuf_remaining - bits) as nat;
            lemma_u32_shr_is_div(self.bitbuf, bits as u32);
            lemma_read_splits(self.bytes(), self.position(), bits as nat, rest);
            assert(bits as nat + rest == self.bitbuf_remaining as nat);
        }
        self.bitbuf = self.bitbuf >> (bits as u32);
        self.bitbuf_remaining -= bits;
    }

    /// Pulls bytes until the buffer holds `bits` bits.
    fn need(&mut self, bits: usize) -> (r: Result<(), InflateError>)
        requires
            old(self).wf(),
            bits <= 24,
        ensures
            final(self).wf(),
            final(self).bytes() == old(self).bytes(),
            final(self).position() == old(self).position(),
            r is Ok <==> old(self).position() + bits <= bit_count(old(self).bytes()),
            r is Ok ==> final(self).bitbuf_remaining >= bits,
            r is Err ==> r == Err::<(), InflateError>(InflateError::UnexpectedEnd),
    {
        while self.bitbuf_remaining < bits
            invariant
                self.wf(),
                bits <= 24,
                self.bytes() == old(self).bytes(),
                self.position() == old(self).position(),
            decreases self.reader@.len() - self.bytes_read,
        {
            let ghost before = *self;
            let byte = match self.read_buf_byte() {
                Ok(byte) => byte,
                Err(e) => {
                    return Err(e);
                },
            };
            let shifted: u32 = (byte as u32) << (self.bitbuf_remaining as u32);
            proof {
                let r = before.bitbuf_remaining as nat;
                let pos = before.position();
                lemma2_to64();
                lemma_pow2_pos(r);
                if r < 24 {
                    lemma_pow2_strictly_increases(r, 24);
                }
                assert(byte * pow2(r) <= 255 * pow2(24)) by (nonlinear_arith)
                    requires
                        byte <= 255,
                        pow2(r) <= pow2(24),
                ;
                lemma_u32_shl_is_mul(byte as u32, r as u32);
                lemma_u32_shl_is_mul(1, r as u32);
                lemma_lsb_first_bound(self.bytes(), pos, r);
                let buf = self.bitbuf;
                let sh = r as u32;
                assert(buf | shifted == buf + shifted) by (bit_vector)
                    requires
                        sh <= 24,
                        buf < (1u32 << sh),
                        shifted == (byte as u32) << sh,
                ;
                lemma_read_splits(self.bytes(), pos, r, 8);
                lemma_whole_byte(self.bytes(), before.bytes_read as nat);
                assert(pos + r == 8 * before.bytes_read);
                assert(pow2(r) * byte == byte * pow2(r)) by (nonlinear_arith);
            }
            self.bitbuf = self.bitbuf | shifted;
            self.bitbuf_remaining += 8;
        }
        Ok(())
    }

    /// Pulls the next byte of the slice.
    fn read_buf_byte(&mut self) -> (r: Result<u8, InflateError>)
        requires
            old(self).bytes_read <= old(self).reader@.len(),
        ensures
            final(self).reader == old(self).reader,
            final(self).bitbuf == old(self).bitbuf,
            final(self).bitbuf_remaining == old(self).bitbuf_remaining,
            old(self).bytes_read < old(self).reader@.len() ==> r == Ok::<u8, InflateError>(
                old(self).reader@[old(self).bytes_read as int],
            ) && final(self).bytes_read == old(self).bytes_read + 1,
            old(self).bytes_read >= old(self).reader@.len() ==> r == Err::<u8, InflateError>(
                InflateError::UnexpectedEnd,
            ) && final(self).bytes_read == old(self).bytes_read,
    {
        if self.bytes_read >= self.reader.len() {
            return Err(InflateError::UnexpectedEnd);
        }
        let byte = self.reader[self.bytes_read];
        self.bytes_read += 1;
        Ok(byte)
    }

    /// Drops the bits up to the next byte boundary, none if the reader
    /// stands on one.
    pub fn jump_to_byte_boundary(&mut self)
        requires
            old(self).wf(),
        ensures
            final(self).wf(),
            final(self).bytes() == old(self).bytes(),
            final(self).position() % 8 == 0,
            old(self).position() <= final(self).position() < old(self).position() + 8,
    {
        let skip_bits = self.bitbuf_remaining % 8;
        self.skip(skip_bits);
    }

    /// Reads one Huffman-coded symbol through `table`. Where there is none
    /// the reader stays where it was.
    pub fn read_table(&mut self, table: &Table) -> (r: Result<u16, InflateError>)
        requires
            old(self).wf(),
            table.wf(),
        ensures
            final(self).wf(),
            final(self).bytes() == old(self).bytes(),
            match table.decode(old(self).bytes(), old(self).position()) {
                Ok((sym, pos)) => r == Ok::<u16, InflateError>(sym) && final(self).position()
                    == pos,
                Err(e) => {
                    &&& r == Err::<u16, InflateError>(e)
                    &&& final(self).position() == old(self).position()
                },
            },
    {
        let bitbuf = self.bitbuf;
        let bitbuf_remaining = self.bitbuf_remaining;
        let bytes_read = self.bytes_read;
        proof {
            table.lemma_wf_entries();
        }
        let r = self.read_table_contents(table.bits, table.contents.as_slice());
        if r.is_err() {
            self.bitbuf = bitbuf;
            self.bitbuf_remaining = bitbuf_remaining;
            self.bytes_read = bytes_read;
        }
        r
    }

    /// Walks one level of a table and goes on in the next where the code
    /// does.
    fn read_table_contents(&mut self, bits: u8, contents: &[TableEntry]) -> (r: Result<
        u16,
        InflateError,
    >)
        requires
            old(self).wf(),
            1 <= bits <= 15,
            entries_wf(contents@, bits as nat),
        ensures
            final(self).wf(),
            final(self).bytes() == old(self).bytes(),
            final(self).reader == old(self).reader,
            match walk(contents@, bits as nat, old(self).bytes(), old(self).position()) {
                Ok((sym, pos)) => r == Ok::<u16, InflateError>(sym) && final(self).position()
                    == pos,
                Err(e) => r == Err::<u16, InflateError>(e),
            },
        decreases contents@,
    {
        let ghost pos = self.position();
        proof {
            reveal_with_fuel(entries_wf, 1);
        }
        let lookup = match self.peek(bits as usize) {
            Ok(lookup) => lookup,
            Err(e) => {
                return Err(e);
            },
        };
        proof {
            lemma_reverse_field(self.bytes(), pos, bits as nat);
            lemma_msb_first_bound(self.bytes(), pos, bits as nat);
        }
        let index = reverse_bits(lookup, bits) as usize;
        match &contents[index] {
            TableEntry::Symbol(code, len) => {
                self.skip(*len as usize);
                Ok(*code)
            },
            TableEntry::Table(subcontents) => {
                self.skip(bits as usize);
                self.read_table_contents(bits, subcontents.as_slice())
            },
            TableEntry::Empty => Err(InflateError::InvalidCode),
        }
    }
}

} // verus!
