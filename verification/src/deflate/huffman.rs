//! Canonical Huffman codes, and the lookup table that decodes them.
//!
//! A code is given by one length per symbol; length 0 means that the symbol
//! has no code. Codes are handed out in order of length, and among equal
//! lengths in order of symbol. The codes that fit into their length are free
//! of prefixes whatever the lengths are, and only those enter a table.
use crate::bits::{
    bit_count, lemma_code_splits, lemma_div_pow2_twice, lemma_join_split, lemma_msb_first_bound,
    lemma_pow2_double, lemma_split_join, msb_first,
};
use crate::error::InflateError;
use vstd::arithmetic::div_mod::{lemma_div_is_ordered, lemma_fundamental_div_mod_converse};
use vstd::arithmetic::power2::{
    lemma2_to64, lemma_pow2_adds, lemma_pow2_pos, lemma_pow2_strictly_increases, pow2,
};
use vstd::bits::{
    lemma_u16_low_bits_mask_is_mod, lemma_u16_shl_is_mul, lemma_u16_shr_is_div,
    lemma_u32_shl_is_mul, lemma_usize_shl_is_mul, low_bits_mask,
};
use vstd::prelude::*;

verus! {

/// A Huffman code as a binary tree: the left branch is bit 0.
#[derive(Debug, PartialEq, Eq)]
pub enum Tree {
    Node(u16),
    Tree(Box<Tree>, Box<Tree>),
}

/// A lookup table for one Huffman code, indexed by `bits` bits of the
/// stream at a time.
#[derive(Debug)]
pub struct Table {
    pub bits: u8,
    pub contents: Vec<TableEntry>,
}

/// One slot of a table.
#[derive(Debug)]
pub enum TableEntry {
    /// A symbol, and the number of bits of its code that this level holds.
    Symbol(u16, u8),
    /// The codes that go on behind the bits of this slot.
    Table(Vec<TableEntry>),
    /// No code begins with the bits of this slot.
    Empty,
}

impl Clone for Tree {
    /// A copy of the tree.
    fn clone(&self) -> (copy: Self)
        ensures
            copy == *self,
    {
        self.duplicate()
    }
}

/// Two slots hold the same, down to the tables behind them.
pub open spec fn alike(a: TableEntry, b: TableEntry) -> bool
    decreases a,
{
    match a {
        TableEntry::Symbol(symbol, length) => b == TableEntry::Symbol(symbol, length),
        TableEntry::Table(contents) => b matches TableEntry::Table(others) && all_alike(
            contents@,
            others@,
        ),
        TableEntry::Empty => b is Empty,
    }
}

/// Two table levels hold the same, slot by slot.
pub open spec fn all_alike(a: Seq<TableEntry>, b: Seq<TableEntry>) -> bool
    decreases a,
{
    &&& a.len() == b.len()
    &&& forall|i: int| 0 <= i < a.len() ==> alike(#[trigger] a[i], b[i])
}

impl Clone for TableEntry {
    /// A copy of the slot, with a copy of the table behind it.
    fn clone(&self) -> (copy: Self)
        ensures
            alike(*self, copy),
    {
        copy_entry(self)
    }
}

impl Clone for Table {
    /// A copy of the table.
    fn clone(&self) -> (copy: Self)
        ensures
            copy.bits == self.bits,
            all_alike(self.contents@, copy.contents@),
    {
        Table { bits: self.bits, contents: copy_entries(&self.contents) }
    }
}

/// A copy of a slot, with a copy of the table behind it.
fn copy_entry(entry: &TableEntry) -> (copy: TableEntry)
    ensures
        alike(*entry, copy),
    decreases entry,
{
    match entry {
        TableEntry::Symbol(symbol, length) => TableEntry::Symbol(*symbol, *length),
        TableEntry::Table(contents) => TableEntry::Table(copy_entries(contents)),
        TableEntry::Empty => TableEntry::Empty,
    }
}

/// A copy of a table level.
fn copy_entries(contents: &Vec<TableEntry>) -> (copy: Vec<TableEntry>)
    ensures
        all_alike(contents@, copy@),
    decreases contents,
{
    let mut copy: Vec<TableEntry> = Vec::with_capacity(contents.len());
    let mut i: usize = 0;
    while i < contents.len()
        invariant
            i <= contents.len(),
            copy@.len() == i,
            forall|j: int| 0 <= j < i ==> alike(#[trigger] contents@[j], copy@[j]),
        decreases contents.len() - i,
    {
        copy.push(copy_entry(&contents[i]));
        i += 1;
    }
    copy
}

/// The longest code that DEFLATE allows.
pub const MAX_CODE_LENGTH: u8 = 15;

/// How many of the symbols below `upto` have a code of `len` bits.
pub open spec fn count_len(lengths: Seq<u8>, len: nat, upto: nat) -> nat
    decreases upto,
{
    if upto == 0 {
        0
    } else {
        count_len(lengths, len, (upto - 1) as nat) + if lengths[upto - 1] as nat == len {
            1nat
        } else {
            0nat
        }
    }
}

/// The code of the first symbol whose code has `len` bits: one past the last
/// code of the length before, with a zero bit appended.
pub open spec fn first_code(lengths: Seq<u8>, len: nat) -> nat
    decreases len,
{
    if len <= 1 {
        0
    } else {
        2 * (first_code(lengths, (len - 1) as nat) + count_len(
            lengths,
            (len - 1) as nat,
            lengths.len(),
        ))
    }
}

/// The canonical code of `sym`, as a number of `lengths[sym]` bits.
pub open spec fn code_of(lengths: Seq<u8>, sym: nat) -> nat {
    first_code(lengths, lengths[sym as int] as nat) + count_len(
        lengths,
        lengths[sym as int] as nat,
        sym,
    )
}

/// `sym` has a code: its length is not 0 and its code fits into that length.
/// With lengths that are not oversubscribed every symbol of nonzero length
/// has one.
pub open spec fn has_code(lengths: Seq<u8>, sym: nat) -> bool {
    &&& sym < lengths.len()
    &&& lengths[sym as int] > 0
    &&& code_of(lengths, sym) < pow2(lengths[sym as int] as nat)
}

/// The code of `sym` and the `width` bits `path` agree as far as both go:
/// the code begins with `path`, or `path` begins with the code.
pub open spec fn covers(lengths: Seq<u8>, sym: nat, width: nat, path: nat) -> bool {
    let len = lengths[sym as int] as nat;
    &&& has_code(lengths, sym)
    &&& if len <= width {
        code_of(lengths, sym) == path / pow2((width - len) as nat)
    } else {
        code_of(lengths, sym) / pow2((len - width) as nat) == path
    }
}

/// Among more symbols there are no fewer of a length, and no more than
/// were added.
pub proof fn lemma_count_len_monotone(lengths: Seq<u8>, len: nat, a: nat, b: nat)
    requires
        a <= b,
    ensures
        count_len(lengths, len, a) <= count_len(lengths, len, b) <= count_len(lengths, len, a) + (b
            - a),
    decreases b,
{
    if a < b {
        lemma_count_len_monotone(lengths, len, a, (b - 1) as nat);
    }
}

/// A symbol counts among those of its own length.
proof fn lemma_count_len_strict(lengths: Seq<u8>, a: nat, b: nat)
    requires
        a < b,
    ensures
        count_len(lengths, lengths[a as int] as nat, a) < count_len(
            lengths,
            lengths[a as int] as nat,
            b,
        ),
{
    lemma_count_len_monotone(lengths, lengths[a as int] as nat, a + 1, b);
}

/// A first code is at least the codes of every shorter length, padded.
proof fn lemma_first_code_grows(lengths: Seq<u8>, a: nat, b: nat)
    requires
        1 <= a < b,
    ensures
        first_code(lengths, b) >= pow2((b - a) as nat) * (first_code(lengths, a) + count_len(
            lengths,
            a,
            lengths.len(),
        )),
    decreases b,
{
    let x = first_code(lengths, a) + count_len(lengths, a, lengths.len());
    lemma2_to64();
    if b == a + 1 {
        assert(pow2(1) * x == 2 * x) by (nonlinear_arith)
            requires
                pow2(1) == 2,
        ;
    } else {
        let b1 = (b - 1) as nat;
        lemma_first_code_grows(lengths, a, b1);
        lemma_pow2_double((b1 - a) as nat, x as int);
        assert((b1 - a) as nat + 1 == (b - a) as nat);
    }
}

/// What a first code can come to with `lengths.len()` symbols.
pub proof fn lemma_first_code_bound(lengths: Seq<u8>, len: nat)
    requires
        len >= 1,
    ensures
        first_code(lengths, len) <= (pow2(len) - 2) * lengths.len(),
    decreases len,
{
    let n = lengths.len();
    lemma2_to64();
    if len == 1 {
        assert((pow2(1) - 2) * n == 0) by (nonlinear_arith)
            requires
                pow2(1) == 2,
        ;
    } else {
        let l1 = (len - 1) as nat;
        lemma_first_code_bound(lengths, l1);
        lemma_count_len_monotone(lengths, l1, 0, n);
        lemma_pow2_double(l1, 1);
        let f = first_code(lengths, l1);
        let c = count_len(lengths, l1, n);
        let p = pow2(l1);
        assert(2 * (f + c) <= (2 * p - 2) * n) by (nonlinear_arith)
            requires
                f <= (p - 2) * n,
                c <= n,
        ;
    }
}

/// No code is the beginning of another one.
pub proof fn lemma_codes_prefix_free(lengths: Seq<u8>, a: nat, b: nat)
    requires
        a != b,
        a < lengths.len(),
        b < lengths.len(),
        1 <= lengths[a as int] <= lengths[b as int],
    ensures
        code_of(lengths, b) / pow2((lengths[b as int] - lengths[a as int]) as nat) != code_of(
            lengths,
            a,
        ),
{
    let la = lengths[a as int] as nat;
    let lb = lengths[b as int] as nat;
    let n = lengths.len();
    let code_a = code_of(lengths, a);
    let code_b = code_of(lengths, b);
    let d = (lb - la) as nat;
    lemma2_to64();
    if la == lb {
        if a < b {
            lemma_count_len_strict(lengths, a, b);
        } else {
            lemma_count_len_strict(lengths, b, a);
        }
        assert(code_a != code_b);
        assert(pow2(d) == 1);
        assert(code_b / 1 == code_b);
    } else {
        let x = first_code(lengths, la) + count_len(lengths, la, n);
        lemma_first_code_grows(lengths, la, lb);
        lemma_count_len_strict(lengths, a, n);
        assert(code_a < x);
        lemma_pow2_pos(d);
        assert(pow2(d) * x == x * pow2(d)) by (nonlinear_arith);
        assert(code_b >= x * pow2(d));
        lemma_join_split(x, 0, d);
        assert((x * pow2(d)) / pow2(d) == x);
        lemma_div_is_ordered((x * pow2(d)) as int, code_b as int, pow2(d) as int);
        assert(code_b / pow2(d) >= x);
    }
}

/// What agrees with a path agrees with every beginning of it.
pub proof fn lemma_covers_truncates(lengths: Seq<u8>, sym: nat, width: nat, cut: nat, path: nat)
    requires
        covers(lengths, sym, width + cut, path),
    ensures
        covers(lengths, sym, width, path / pow2(cut)),
{
    let len = lengths[sym as int] as nat;
    let code = code_of(lengths, sym);
    if len <= width {
        // code == path / 2^(width + cut - len)
        lemma_div_pow2_twice(path, cut, (width - len) as nat);
        assert(cut + (width - len) as nat == (width + cut - len) as nat);
    } else if len <= width + cut {
        // code == path / 2^(width + cut - len), wanted: code / 2^(len - width) == path / 2^cut
        lemma_div_pow2_twice(path, (width + cut - len) as nat, (len - width) as nat);
        assert((width + cut - len) as nat + (len - width) as nat == cut);
    } else {
        // code / 2^(len - width - cut) == path
        lemma_div_pow2_twice(code, (len - width - cut) as nat, cut);
        assert((len - width - cut) as nat + cut == (len - width) as nat);
    }
}

/// Two symbols cannot both agree with a path that one of their codes ends in.
pub proof fn lemma_covers_unique(lengths: Seq<u8>, a: nat, b: nat, width: nat, path: nat)
    requires
        covers(lengths, a, width, path),
        covers(lengths, b, width, path),
        lengths[a as int] <= width,
    ensures
        a == b,
{
    if a != b {
        let la = lengths[a as int] as nat;
        let lb = lengths[b as int] as nat;
        if lb < la {
            // both end in the path, b first
            lemma_div_pow2_twice(path, (width - la) as nat, (la - lb) as nat);
            assert((width - la) as nat + (la - lb) as nat == (width - lb) as nat);
            lemma_codes_prefix_free(lengths, b, a);
        } else if lb <= width {
            lemma_div_pow2_twice(path, (width - lb) as nat, (lb - la) as nat);
            assert((width - lb) as nat + (lb - la) as nat == (width - la) as nat);
            lemma_codes_prefix_free(lengths, a, b);
        } else {
            lemma_div_pow2_twice(code_of(lengths, b), (lb - width) as nat, (width - la) as nat);
            assert((lb - width) as nat + (width - la) as nat == (lb - la) as nat);
            lemma_codes_prefix_free(lengths, a, b);
        }
    }
}


/// What a slot holds when the table has taken in the codes of the symbols
/// below `n`. The slot is reached by the `depth + bits` bits `path`, of
/// which the tables above have used up `depth`.
#[verifier::opaque]
pub open spec fn slot_holds(
    entry: TableEntry,
    bits: nat,
    lengths: Seq<u8>,
    n: nat,
    depth: nat,
    path: nat,
) -> bool
    decreases entry,
{
    let width = depth + bits;
    match entry {
        TableEntry::Symbol(sym, len) => {
            &&& sym < n
            &&& 1 <= len <= bits
            &&& lengths[sym as int] == depth + len
            &&& covers(lengths, sym as nat, width, path)
        },
        TableEntry::Table(sub) => {
            &&& exists|s: nat|
                s < n && lengths[s as int] > width && #[trigger] covers(lengths, s, width, path)
            &&& entries_hold(sub@, bits, lengths, n, width, path)
        },
        TableEntry::Empty => forall|s: nat|
            s < n && lengths[s as int] > depth ==> !#[trigger] covers(lengths, s, width, path),
    }
}

/// `contents` is the table behind the `depth` bits `prefix`, for the codes of
/// the symbols below `n`: it has a slot for each value of the next `bits`
/// bits, and every slot holds what the codes say.
#[verifier::opaque]
pub open spec fn entries_hold(
    contents: Seq<TableEntry>,
    bits: nat,
    lengths: Seq<u8>,
    n: nat,
    depth: nat,
    prefix: nat,
) -> bool
    decreases contents,
{
    &&& contents.len() == pow2(bits)
    &&& forall|i: int|
        0 <= i < contents.len() ==> slot_holds(
            #[trigger] contents[i],
            bits,
            lengths,
            n,
            depth,
            (prefix * pow2(bits) + i) as nat,
        )
}

/// The shape that lets a table be walked: full levels, and in every symbol
/// slot a number of bits that the level has.
#[verifier::opaque]
pub open spec fn entries_wf(contents: Seq<TableEntry>, bits: nat) -> bool
    decreases contents,
{
    &&& contents.len() == pow2(bits)
    &&& forall|i: int|
        0 <= i < contents.len() ==> match #[trigger] contents[i] {
            TableEntry::Symbol(_, len) => 1 <= len <= bits,
            TableEntry::Table(sub) => entries_wf(sub@, bits),
            TableEntry::Empty => true,
        }
}

impl Table {
    /// The table can be walked.
    pub open spec fn wf(&self) -> bool {
        &&& 1 <= self.bits <= MAX_CODE_LENGTH
        &&& entries_wf(self.contents@, self.bits as nat)
    }

    /// The table is the one of the canonical code with these lengths: a
    /// slot holds a symbol where the code of that symbol ends with the bits
    /// that lead to the slot, a further table where codes go on behind them,
    /// and is empty where no code begins with them.
    pub open spec fn holds(&self, lengths: Seq<u8>) -> bool {
        &&& 1 <= self.bits <= MAX_CODE_LENGTH
        &&& entries_hold(self.contents@, self.bits as nat, lengths, lengths.len(), 0, 0)
    }

    /// A table that can be walked has full levels, and in every symbol slot
    /// a number of bits that a level has.
    pub proof fn lemma_wf_entries(&self)
        requires
            self.wf(),
        ensures
            1 <= self.bits <= MAX_CODE_LENGTH,
            entries_wf(self.contents@, self.bits as nat),
    {
    }

    /// The table of a code can be walked.
    pub proof fn lemma_holds_wf(&self, lengths: Seq<u8>)
        requires
            self.holds(lengths),
        ensures
            self.wf(),
    {
        lemma_entries_hold_wf(self.contents@, self.bits as nat, lengths, lengths.len(), 0, 0);
    }
}

/// A table that holds the codes of some symbols can be walked.
pub proof fn lemma_entries_hold_wf(
    contents: Seq<TableEntry>,
    bits: nat,
    lengths: Seq<u8>,
    n: nat,
    depth: nat,
    prefix: nat,
)
    requires
        entries_hold(contents, bits, lengths, n, depth, prefix),
    ensures
        entries_wf(contents, bits),
    decreases contents,
{
    reveal_with_fuel(entries_wf, 1);
    reveal_with_fuel(entries_hold, 1);
    reveal_with_fuel(slot_holds, 1);
    assert forall|i: int| 0 <= i < contents.len() implies match #[trigger] contents[i] {
        TableEntry::Symbol(_, len) => 1 <= len <= bits,
        TableEntry::Table(sub) => entries_wf(sub@, bits),
        TableEntry::Empty => true,
    } by {
        let path = (prefix * pow2(bits) + i) as nat;
        assert(slot_holds(contents[i], bits, lengths, n, depth, path));
        match contents[i] {
            TableEntry::Table(sub) => {
                lemma_entries_hold_wf(sub@, bits, lengths, n, depth + bits, path);
            },
            _ => {},
        }
    }
}

/// What the table of a code holds in each slot. In the table behind the
/// `depth` bits `prefix`, the slot `index` is reached by the bits `prefix`
/// and `index`. It holds the symbol whose code ends with these bits, and how
/// many of them belong to this level; or the table of the codes that go on
/// behind them; or nothing, where no code agrees with them.
pub proof fn lemma_slot_is(
    contents: Seq<TableEntry>,
    bits: nat,
    lengths: Seq<u8>,
    depth: nat,
    prefix: nat,
    index: int,
)
    requires
        entries_hold(contents, bits, lengths, lengths.len(), depth, prefix),
        0 <= index < pow2(bits),
    ensures
        contents.len() == pow2(bits),
        forall|sym: nat|
            depth < lengths[sym as int] <= depth + bits && #[trigger] covers(
                lengths,
                sym,
                depth + bits,
                (prefix * pow2(bits) + index) as nat,
            ) ==> contents[index] == TableEntry::Symbol(
                sym as u16,
                (lengths[sym as int] - depth) as u8,
            ),
        forall|sym: nat|
            lengths[sym as int] > depth + bits && #[trigger] covers(
                lengths,
                sym,
                depth + bits,
                (prefix * pow2(bits) + index) as nat,
            ) ==> contents[index] is Table && entries_hold(
                contents[index]->Table_0@,
                bits,
                lengths,
                lengths.len(),
                depth + bits,
                (prefix * pow2(bits) + index) as nat,
            ),
        (forall|sym: nat|
            lengths[sym as int] > depth ==> !#[trigger] covers(
                lengths,
                sym,
                depth + bits,
                (prefix * pow2(bits) + index) as nat,
            )) ==> contents[index] is Empty,
{
    reveal_with_fuel(entries_hold, 1);
    reveal_with_fuel(slot_holds, 1);
    let width = depth + bits;
    let path = (prefix * pow2(bits) + index) as nat;
    let n = lengths.len();
    assert(slot_holds(contents[index], bits, lengths, n, depth, path));
    assert forall|sym: nat|
        depth < lengths[sym as int] <= width && #[trigger] covers(
            lengths,
            sym,
            width,
            path,
        ) implies contents[index] == TableEntry::Symbol(
        sym as u16,
        (lengths[sym as int] - depth) as u8,
    ) by {
        match contents[index] {
            TableEntry::Symbol(s, l) => {
                lemma_covers_unique(lengths, s as nat, sym, width, path);
            },
            TableEntry::Table(sub) => {
                let t = choose|t: nat|
                    t < n && lengths[t as int] > width && #[trigger] covers(
                        lengths,
                        t,
                        width,
                        path,
                    );
                lemma_covers_unique(lengths, sym, t, width, path);
            },
            TableEntry::Empty => {},
        }
    }
    assert forall|sym: nat|
        lengths[sym as int] > width && #[trigger] covers(
            lengths,
            sym,
            width,
            path,
        ) implies contents[index] is Table by {
        match contents[index] {
            TableEntry::Symbol(s, l) => {
                lemma_covers_unique(lengths, s as nat, sym, width, path);
            },
            _ => {},
        }
    }
}

/// A slot that the code of symbol `n` does not touch holds for `n + 1` too.
proof fn lemma_slot_holds_next(
    entry: TableEntry,
    bits: nat,
    lengths: Seq<u8>,
    n: nat,
    depth: nat,
    path: nat,
)
    requires
        slot_holds(entry, bits, lengths, n, depth, path),
        !covers(lengths, n, depth + bits, path),
    ensures
        slot_holds(entry, bits, lengths, n + 1, depth, path),
    decreases entry,
{
    reveal_with_fuel(entries_hold, 1);
    reveal_with_fuel(slot_holds, 1);
    match entry {
        TableEntry::Table(sub) => {
            lemma_entries_hold_next(sub@, bits, lengths, n, depth + bits, path);
        },
        _ => {},
    }
}

/// A table that the code of symbol `n` does not pass through holds for
/// `n + 1` too.
proof fn lemma_entries_hold_next(
    contents: Seq<TableEntry>,
    bits: nat,
    lengths: Seq<u8>,
    n: nat,
    depth: nat,
    prefix: nat,
)
    requires
        entries_hold(contents, bits, lengths, n, depth, prefix),
        !covers(lengths, n, depth, prefix),
    ensures
        entries_hold(contents, bits, lengths, n + 1, depth, prefix),
    decreases contents,
{
    reveal_with_fuel(entries_hold, 1);
    reveal_with_fuel(slot_holds, 1);
    assert forall|i: int| 0 <= i < contents.len() implies slot_holds(
        #[trigger] contents[i],
        bits,
        lengths,
        n + 1,
        depth,
        (prefix * pow2(bits) + i) as nat,
    ) by {
        let path = (prefix * pow2(bits) + i) as nat;
        lemma_join_split(prefix, i as nat, bits);
        if covers(lengths, n, depth + bits, path) {
            lemma_covers_truncates(lengths, n, depth, bits, path);
        }
        lemma_slot_holds_next(contents[i], bits, lengths, n, depth, path);
    }
}

/// A table of empty slots holds where no code so far goes on behind `prefix`.
proof fn lemma_empty_entries_hold(
    contents: Seq<TableEntry>,
    bits: nat,
    lengths: Seq<u8>,
    n: nat,
    depth: nat,
    prefix: nat,
)
    requires
        contents.len() == pow2(bits),
        forall|i: int| 0 <= i < contents.len() ==> contents[i] is Empty,
        forall|s: nat| s < n && lengths[s as int] > depth ==> !covers(lengths, s, depth, prefix),
    ensures
        entries_hold(contents, bits, lengths, n, depth, prefix),
{
    reveal_with_fuel(entries_hold, 1);
    reveal_with_fuel(slot_holds, 1);
    assert forall|i: int| 0 <= i < contents.len() implies slot_holds(
        #[trigger] contents[i],
        bits,
        lengths,
        n,
        depth,
        (prefix * pow2(bits) + i) as nat,
    ) by {
        let path = (prefix * pow2(bits) + i) as nat;
        lemma_join_split(prefix, i as nat, bits);
        assert forall|s: nat| s < n && lengths[s as int] > depth implies !#[trigger] covers(
            lengths,
            s,
            depth + bits,
            path,
        ) by {
            if covers(lengths, s, depth + bits, path) {
                lemma_covers_truncates(lengths, s, depth, bits, path);
            }
        }
    }
}

/// A table level of `2^bits` empty slots.
fn empty_entries(bits: u8) -> (contents: Vec<TableEntry>)
    requires
        bits <= MAX_CODE_LENGTH,
    ensures
        contents@.len() == pow2(bits as nat),
        forall|i: int| 0 <= i < contents@.len() ==> contents@[i] is Empty,
{
    proof {
        lemma2_to64();
        if bits < 15 {
            lemma_pow2_strictly_increases(bits as nat, 15);
        }
        lemma_usize_shl_is_mul(1, bits as usize);
    }
    let size: usize = 1usize << (bits as usize);
    let mut contents: Vec<TableEntry> = Vec::with_capacity(size);
    let mut i: usize = 0;
    while i < size
        invariant
            i <= size,
            contents@.len() == i,
            forall|j: int| 0 <= j < i ==> contents@[j] is Empty,
        decreases size - i,
    {
        contents.push(TableEntry::Empty);
        i += 1;
    }
    contents
}


/// Where the code of `symbol` lies in the table behind `prefix`: `code` is
/// what is left of it below the `depth` bits used up so far.
spec fn insert_pre(
    bits: u8,
    code: u16,
    symbol: u16,
    length: u8,
    lengths: Seq<u8>,
    depth: nat,
    prefix: nat,
) -> bool {
    &&& 1 <= bits <= MAX_CODE_LENGTH
    &&& 1 <= length <= MAX_CODE_LENGTH
    &&& has_code(lengths, symbol as nat)
    &&& lengths[symbol as int] == depth + length
    &&& code < pow2(length as nat)
    &&& code_of(lengths, symbol as nat) == prefix * pow2(length as nat) + code
}

/// The slots that a code shorter than the level fills: those whose index
/// begins with what is left of the code.
proof fn lemma_insert_leaf(
    old_contents: Seq<TableEntry>,
    new_contents: Seq<TableEntry>,
    bits: u8,
    code: u16,
    symbol: u16,
    length: u8,
    lengths: Seq<u8>,
    depth: nat,
    prefix: nat,
)
    requires
        insert_pre(bits, code, symbol, length, lengths, depth, prefix),
        length <= bits,
        entries_hold(old_contents, bits as nat, lengths, symbol as nat, depth, prefix),
        new_contents.len() == old_contents.len(),
        forall|j: int|
            0 <= j < new_contents.len() ==> #[trigger] new_contents[j] == if code * pow2(
                (bits - length) as nat,
            ) <= j < (code + 1) * pow2((bits - length) as nat) {
                TableEntry::Symbol(symbol, length)
            } else {
                old_contents[j]
            },
    ensures
        entries_hold(new_contents, bits as nat, lengths, symbol as nat + 1, depth, prefix),
{
    reveal_with_fuel(entries_hold, 1);
    reveal_with_fuel(slot_holds, 1);
    let shift = (bits - length) as nat;
    let n = symbol as nat;
    let full = code_of(lengths, n);
    let width = depth + bits as nat;
    lemma_pow2_adds(length as nat, shift);
    lemma_pow2_pos(shift);
    assert(full * pow2(shift) == prefix * pow2(bits as nat) + code * pow2(shift))
        by (nonlinear_arith)
        requires
            full == prefix * pow2(length as nat) + code,
            pow2(bits as nat) == pow2(length as nat) * pow2(shift),
    ;
    assert forall|j: int| 0 <= j < new_contents.len() implies slot_holds(
        #[trigger] new_contents[j],
        bits as nat,
        lengths,
        n + 1,
        depth,
        (prefix * pow2(bits as nat) + j) as nat,
    ) by {
        let path = (prefix * pow2(bits as nat) + j) as nat;
        assert(slot_holds(old_contents[j], bits as nat, lengths, n, depth, path));
        assert((code + 1) * pow2(shift) == code * pow2(shift) + pow2(shift))
            by (nonlinear_arith);
        if code * pow2(shift) <= j < (code + 1) * pow2(shift) {
            let low = (j - code * pow2(shift)) as nat;
            assert(path == full * pow2(shift) + low);
            lemma_join_split(full, low, shift);
            assert((width - lengths[n as int]) as nat == shift);
        } else {
            assert(!covers(lengths, n, width, path)) by {
                // a path that begins with the code lies among the slots filled
                assert((width - lengths[n as int]) as nat == shift);
                lemma_split_join(path, shift);
            }
            lemma_slot_holds_next(old_contents[j], bits as nat, lengths, n, depth, path);
        }
    }
}

/// Where a code longer than the level goes on: in the table behind the
/// slot that its next `bits` bits pick.
proof fn lemma_insert_descend(
    bits: u8,
    code: u16,
    symbol: u16,
    length: u8,
    lengths: Seq<u8>,
    depth: nat,
    prefix: nat,
    index: nat,
    low: nat,
)
    requires
        insert_pre(bits, code, symbol, length, lengths, depth, prefix),
        length > bits,
        index == code as nat / pow2((length - bits) as nat),
        low == code as nat % pow2((length - bits) as nat),
    ensures
        index < pow2(bits as nat),
        low < pow2((length - bits) as nat),
        low <= code,
        code_of(lengths, symbol as nat) == (prefix * pow2(bits as nat) + index) * pow2(
            (length - bits) as nat,
        ) + low,
        covers(
            lengths,
            symbol as nat,
            depth + bits as nat,
            prefix * pow2(bits as nat) + index,
        ),
{
    let rest = (length - bits) as nat;
    let full = code_of(lengths, symbol as nat);
    let path = prefix * pow2(bits as nat) + index;
    lemma_pow2_adds(bits as nat, rest);
    lemma_pow2_pos(rest);
    lemma_pow2_pos(bits as nat);
    lemma_split_join(code as nat, rest);
    assert(index < pow2(bits as nat)) by (nonlinear_arith)
        requires
            code as nat == index * pow2(rest) + low,
            code < pow2(bits as nat) * pow2(rest),
            pow2(rest) > 0,
    ;
    assert(low <= code) by (nonlinear_arith)
        requires
            code as nat == index * pow2(rest) + low,
            pow2(rest) > 0,
    ;
    assert(full == path * pow2(rest) + low) by (nonlinear_arith)
        requires
            full == prefix * pow2(length as nat) + code,
            pow2(length as nat) == pow2(bits as nat) * pow2(rest),
            code as nat == index * pow2(rest) + low,
            path == prefix * pow2(bits as nat) + index,
    ;
    lemma_join_split(path, low, rest);
    assert((lengths[symbol as int] - (depth + bits)) as nat == rest);
}

/// The table after the code went into the table behind slot `index`.
proof fn lemma_insert_joined(
    old_contents: Seq<TableEntry>,
    new_contents: Seq<TableEntry>,
    bits: u8,
    symbol: u16,
    lengths: Seq<u8>,
    depth: nat,
    prefix: nat,
    index: nat,
)
    requires
        entries_hold(old_contents, bits as nat, lengths, symbol as nat, depth, prefix),
        index < old_contents.len(),
        new_contents.len() == old_contents.len(),
        forall|j: int|
            0 <= j < new_contents.len() && j != index ==> new_contents[j] == old_contents[j],
        lengths[symbol as int] > depth + bits,
        covers(
            lengths,
            symbol as nat,
            depth + bits as nat,
            prefix * pow2(bits as nat) + index,
        ),
        new_contents[index as int] is Table,
        entries_hold(
            new_contents[index as int]->Table_0@,
            bits as nat,
            lengths,
            symbol as nat + 1,
            depth + bits as nat,
            prefix * pow2(bits as nat) + index,
        ),
    ensures
        entries_hold(new_contents, bits as nat, lengths, symbol as nat + 1, depth, prefix),
{
    reveal_with_fuel(entries_hold, 1);
    reveal_with_fuel(slot_holds, 1);
    let n = symbol as nat;
    let width = depth + bits as nat;
    assert forall|j: int| 0 <= j < new_contents.len() implies slot_holds(
        #[trigger] new_contents[j],
        bits as nat,
        lengths,
        n + 1,
        depth,
        (prefix * pow2(bits as nat) + j) as nat,
    ) by {
        let path = (prefix * pow2(bits as nat) + j) as nat;
        if j != index {
            assert(slot_holds(old_contents[j], bits as nat, lengths, n, depth, path));
            lemma_slot_holds_next(old_contents[j], bits as nat, lengths, n, depth, path);
        }
    }
}

/// Puts the code of `symbol` into the table `contents`: into every slot that
/// begins with it where it is no longer than the level, else into the table
/// behind the slot that its first `bits` bits pick.
fn insert_in_table(
    contents: &mut Vec<TableEntry>,
    bits: u8,
    code: u16,
    symbol: u16,
    length: u8,
    Ghost(lengths): Ghost<Seq<u8>>,
    Ghost(depth): Ghost<nat>,
    Ghost(prefix): Ghost<nat>,
)
    requires
        insert_pre(bits, code, symbol, length, lengths, depth, prefix),
        entries_hold(old(contents)@, bits as nat, lengths, symbol as nat, depth, prefix),
    ensures
        entries_hold(final(contents)@, bits as nat, lengths, symbol as nat + 1, depth, prefix),
    decreases length,
{
    proof {
        reveal_with_fuel(entries_hold, 1);
        reveal_with_fuel(slot_holds, 1);
        lemma2_to64();
        if bits < 15 {
            lemma_pow2_strictly_increases(bits as nat, 15);
        }
        if length < 15 {
            lemma_pow2_strictly_increases(length as nat, 15);
        }
    }
    if length <= bits {
        let shift: u16 = (bits - length) as u16;
        proof {
            lemma_pow2_adds(length as nat, shift as nat);
            lemma_pow2_pos(shift as nat);
            assert((code + 1) * pow2(shift as nat) <= pow2(bits as nat)) by (nonlinear_arith)
                requires
                    code + 1 <= pow2(length as nat),
                    pow2(bits as nat) == pow2(length as nat) * pow2(shift as nat),
            ;
            assert((code + 1) * pow2(shift as nat) == code * pow2(shift as nat) + pow2(
                shift as nat,
            )) by (nonlinear_arith);
            lemma_u16_shl_is_mul(code, shift);
            lemma_u16_shl_is_mul(1, shift);
        }
        let base: u16 = code << shift;
        let count: u16 = 1u16 << shift;
        let mut i: u16 = 0;
        while i < count
            invariant
                i <= count,
                base == code * pow2(shift as nat),
                count == pow2(shift as nat),
                base + count <= pow2(bits as nat) <= 0x8000,
                contents@.len() == old(contents)@.len() == pow2(bits as nat),
                forall|j: int|
                    0 <= j < contents@.len() ==> #[trigger] contents@[j] == if base <= j < base
                        + i {
                        TableEntry::Symbol(symbol, length)
                    } else {
                        old(contents)@[j]
                    },
            decreases count - i,
        {
            contents[(base + i) as usize] = TableEntry::Symbol(symbol, length);
            i += 1;
        }
        proof {
            lemma_insert_leaf(
                old(contents)@,
                contents@,
                bits,
                code,
                symbol,
                length,
                lengths,
                depth,
                prefix,
            );
        }
    } else {
        let rest: u8 = length - bits;
        proof {
            lemma_u16_shr_is_div(code, rest as u16);
            lemma_u16_shl_is_mul(1, rest as u16);
            if rest < 15 {
                lemma_pow2_strictly_increases(rest as nat, 15);
            }
            lemma_u16_low_bits_mask_is_mod(code, rest as nat);
            lemma_insert_descend(
                bits,
                code,
                symbol,
                length,
                lengths,
                depth,
                prefix,
                code as nat / pow2(rest as nat),
                code as nat % pow2(rest as nat),
            );
        }
        let index: usize = (code >> (rest as u16)) as usize;
        let mask: u16 = (1u16 << (rest as u16)) - 1;
        assert(mask == low_bits_mask(rest as nat));
        let low: u16 = code & mask;
        let ghost path = prefix * pow2(bits as nat) + index as nat;
        let ghost width = depth + bits as nat;
        assert(slot_holds(
            old(contents)@[index as int],
            bits as nat,
            lengths,
            symbol as nat,
            depth,
            path,
        ));
        let absent = match &contents[index] {
            TableEntry::Table(_) => false,
            _ => true,
        };
        if absent {
            let sub = empty_entries(bits);
            proof {
                match old(contents)@[index as int] {
                    TableEntry::Symbol(s, l) => {
                        lemma_covers_unique(lengths, s as nat, symbol as nat, width, path);
                    },
                    _ => {},
                }
                lemma_empty_entries_hold(sub@, bits as nat, lengths, symbol as nat, width, path);
            }
            contents[index] = TableEntry::Table(sub);
        }
        match &mut contents[index] {
            TableEntry::Table(sub) => {
                insert_in_table(
                    sub,
                    bits,
                    low,
                    symbol,
                    rest,
                    Ghost(lengths),
                    Ghost(width),
                    Ghost(path),
                );
            },
            _ => {},
        }
        proof {
            lemma_insert_joined(
                old(contents)@,
                contents@,
                bits,
                symbol,
                lengths,
                depth,
                prefix,
                index as nat,
            );
        }
    }
}

/// Counts the symbols of each code length from 1 to 15.
fn count_lengths(lengths: &[u8]) -> (bl_count: [u32; 16])
    requires
        lengths@.len() <= 0x10000,
    ensures
        bl_count[0] == 0,
        forall|l: int|
            1 <= l < 16 ==> bl_count[l] == count_len(lengths@, l as nat, lengths@.len()),
{
    let n = lengths.len();
    let mut bl_count: [u32; 16] = [0; 16];
    let mut i: usize = 0;
    while i < n
        invariant
            i <= n,
            n == lengths@.len(),
            n <= 0x10000,
            bl_count[0] == 0,
            forall|l: int| 1 <= l < 16 ==> bl_count[l] == count_len(lengths@, l as nat, i as nat),
        decreases n - i,
    {
        let length = lengths[i];
        if length != 0 && length < 16 {
            proof {
                lemma_count_len_monotone(lengths@, length as nat, 0, i as nat);
            }
            let count = bl_count[length as usize];
            bl_count[length as usize] = count + 1;
        }
        i += 1;
    }
    bl_count
}

/// Builds the lookup table of the canonical Huffman code that gives symbol
/// `i` a code of `lengths[i]` bits, or none where that is 0. The table reads
/// `bits` bits of the stream at a time. A code that does not fit into its
/// length, as happens with oversubscribed lengths, is left out.
pub fn make_table(bits: u8, lengths: &[u8]) -> (table: Table)
    requires
        1 <= bits <= MAX_CODE_LENGTH,
        lengths@.len() <= 0x10000,
        forall|i: int| 0 <= i < lengths@.len() ==> lengths@[i] <= MAX_CODE_LENGTH,
    ensures
        table.bits == bits,
        table.holds(lengths@),
{
    let n = lengths.len();
    let bl_count = count_lengths(lengths);

    let mut next_code: [u32; 16] = [0; 16];
    let mut code: u32 = 0;
    let mut len: usize = 1;
    while len < 16
        invariant
            1 <= len <= 16,
            n == lengths@.len(),
            n <= 0x10000,
            bl_count[0] == 0,
            forall|l: int| 1 <= l < 16 ==> bl_count[l] == count_len(lengths@, l as nat, n as nat),
            code == first_code(lengths@, (len - 1) as nat),
            forall|l: int| 1 <= l < len ==> next_code[l] == first_code(lengths@, l as nat),
        decreases 16 - len,
    {
        proof {
            lemma_first_code_bound(lengths@, len as nat);
            lemma2_to64();
            if len < 15 {
                lemma_pow2_strictly_increases(len as nat, 15);
            }
            assert((pow2(len as nat) - 2) * n <= 0x7FFE * 0x10000) by (nonlinear_arith)
                requires
                    2 <= pow2(len as nat) <= 0x8000,
                    n <= 0x10000,
            ;
        }
        code = (code + bl_count[len - 1]) * 2;
        next_code[len] = code;
        len += 1;
    }

    let mut contents = empty_entries(bits);
    proof {
        lemma_empty_entries_hold(contents@, bits as nat, lengths@, 0, 0, 0);
    }
    let mut symbol: usize = 0;
    while symbol < n
        invariant
            symbol <= n,
            n == lengths@.len(),
            n <= 0x10000,
            1 <= bits <= MAX_CODE_LENGTH,
            forall|k: int| 0 <= k < lengths@.len() ==> lengths@[k] <= MAX_CODE_LENGTH,
            forall|l: int|
                1 <= l < 16 ==> next_code[l] == first_code(lengths@, l as nat) + count_len(
                    lengths@,
                    l as nat,
                    symbol as nat,
                ),
            entries_hold(contents@, bits as nat, lengths@, symbol as nat, 0, 0),
        decreases n - symbol,
    {
        let length = lengths[symbol];
        let mut inserted = false;
        if length != 0 {
            proof {
                lemma_first_code_bound(lengths@, length as nat);
                lemma_count_len_monotone(lengths@, length as nat, 0, symbol as nat);
                lemma2_to64();
                if length < 15 {
                    lemma_pow2_strictly_increases(length as nat, 15);
                }
                assert((pow2(length as nat) - 2) * n <= 0x7FFE * 0x10000) by (nonlinear_arith)
                    requires
                        2 <= pow2(length as nat) <= 0x8000,
                        n <= 0x10000,
                ;
                lemma_u32_shl_is_mul(1, length as u32);
            }
            let code = next_code[length as usize];
            next_code[length as usize] = code + 1;
            if code < (1u32 << (length as u32)) {
                proof {
                    assert(0 * pow2(length as nat) + code == code) by (nonlinear_arith);
                }
                insert_in_table(
                    &mut contents,
                    bits,
                    code as u16,
                    symbol as u16,
                    length,
                    Ghost(lengths@),
                    Ghost(0),
                    Ghost(0),
                );
                inserted = true;
            }
        }
        proof {
            if !inserted {
                lemma_entries_hold_next(contents@, bits as nat, lengths@, symbol as nat, 0, 0);
            }
        }
        symbol += 1;
    }

    Table { bits: bits, contents: contents }
}


/// What walking a table along the bits from `pos` on comes to: each level
/// looks at the next `bits` bits, most significant first, and either ends
/// with a symbol, the position moving on by the bits of the code, or goes on
/// in the table behind the slot, or fails on an empty slot or on a stream
/// that ends before the `bits` bits do.
pub open spec fn walk(contents: Seq<TableEntry>, bits: nat, input: Seq<u8>, pos: nat) -> Result<
    (u16, nat),
    InflateError,
>
    decreases contents,
{
    let index = msb_first(input, pos, bits) as int;
    if pos + bits > bit_count(input) {
        Err(InflateError::UnexpectedEnd)
    } else if index >= contents.len() {
        Err(InflateError::InvalidCode)
    } else {
        match contents[index] {
            TableEntry::Symbol(sym, len) => Ok((sym, pos + len as nat)),
            TableEntry::Table(sub) => walk(sub@, bits, input, pos + bits),
            TableEntry::Empty => Err(InflateError::InvalidCode),
        }
    }
}

/// Some code ends within the last `width - depth` bits of `path`.
pub open spec fn code_ends(lengths: Seq<u8>, depth: nat, width: nat, path: nat) -> bool {
    exists|s: nat| depth < lengths[s as int] <= width && #[trigger] covers(lengths, s, width, path)
}

/// The symbol whose code ends within the last `width - depth` bits of `path`.
pub open spec fn symbol_ending(lengths: Seq<u8>, depth: nat, width: nat, path: nat) -> nat {
    choose|s: nat| depth < lengths[s as int] <= width && #[trigger] covers(lengths, s, width, path)
}

/// Some code begins with `path` and goes on behind it.
pub open spec fn code_goes_on(lengths: Seq<u8>, width: nat, path: nat) -> bool {
    exists|s: nat| lengths[s as int] > width && #[trigger] covers(lengths, s, width, path)
}

/// Decoding one symbol of the canonical code `lengths` at `pos`, `bits`
/// bits at a time, `depth` bits having been looked at already. The stream
/// must hold every group of `bits` bits that is looked at, also where the
/// code itself ends before the group does.
#[verifier::opaque]
pub open spec fn decode_from(
    lengths: Seq<u8>,
    bits: nat,
    input: Seq<u8>,
    pos: nat,
    depth: nat,
) -> Result<(u16, nat), InflateError>
    decreases 256 - depth,
{
    let width = depth + bits;
    let path = msb_first(input, pos, width);
    if pos + width > bit_count(input) {
        Err(InflateError::UnexpectedEnd)
    } else if code_ends(lengths, depth, width, path) {
        let sym = symbol_ending(lengths, depth, width, path);
        Ok((sym as u16, pos + lengths[sym as int] as nat))
    } else if bits > 0 && code_goes_on(lengths, width, path) {
        decode_from(lengths, bits, input, pos, width)
    } else {
        Err(InflateError::InvalidCode)
    }
}

/// Decoding one symbol of the canonical code `lengths` at `pos`: the symbol
/// and the position behind its code, or why there is none.
pub open spec fn decode_symbol(lengths: Seq<u8>, bits: nat, input: Seq<u8>, pos: nat) -> Result<
    (u16, nat),
    InflateError,
> {
    decode_from(lengths, bits, input, pos, 0)
}

impl Table {
    /// What reading one symbol through this table at `pos` comes to.
    pub open spec fn decode(&self, input: Seq<u8>, pos: nat) -> Result<(u16, nat), InflateError> {
        walk(self.contents@, self.bits as nat, input, pos)
    }
}

/// Walking the table of a code is decoding the code.
pub proof fn lemma_walk_decodes(
    contents: Seq<TableEntry>,
    bits: nat,
    lengths: Seq<u8>,
    input: Seq<u8>,
    pos: nat,
    depth: nat,
)
    requires
        bits >= 1,
        lengths.len() <= 0x10000,
        entries_hold(contents, bits, lengths, lengths.len(), depth, msb_first(input, pos, depth)),
    ensures
        walk(contents, bits, input, pos + depth) == decode_from(lengths, bits, input, pos, depth),
    decreases contents,
{
    reveal_with_fuel(entries_hold, 1);
    reveal_with_fuel(slot_holds, 1);
    reveal_with_fuel(decode_from, 1);
    let width = depth + bits;
    let path = msb_first(input, pos, width);
    let prefix = msb_first(input, pos, depth);
    let index = msb_first(input, pos + depth, bits);
    let n = lengths.len();
    if pos + width <= bit_count(input) {
        lemma_code_splits(input, pos, depth, bits);
        lemma_msb_first_bound(input, pos + depth, bits);
        assert(path == prefix * pow2(bits) + index);
        assert(slot_holds(contents[index as int], bits, lengths, n, depth, path));
        match contents[index as int] {
            TableEntry::Symbol(sym, len) => {
                assert(covers(lengths, sym as nat, width, path));
                assert(code_ends(lengths, depth, width, path));
                let chosen = symbol_ending(lengths, depth, width, path);
                lemma_covers_unique(lengths, sym as nat, chosen, width, path);
            },
            TableEntry::Table(sub) => {
                let s = choose|s: nat|
                    s < n && lengths[s as int] > width && #[trigger] covers(
                        lengths,
                        s,
                        width,
                        path,
                    );
                assert(code_goes_on(lengths, width, path));
                if code_ends(lengths, depth, width, path) {
                    let t = symbol_ending(lengths, depth, width, path);
                    lemma_covers_unique(lengths, t, s, width, path);
                }
                lemma_walk_decodes(sub@, bits, lengths, input, pos, width);
            },
            TableEntry::Empty => {
                assert(!code_ends(lengths, depth, width, path));
                assert(!code_goes_on(lengths, width, path));
            },
        }
    }
}


/// The Kraft sum of the codes of at most `len` bits, counted in units of
/// `2^-15`: a code of `l` bits weighs `2^(15 - l)`.
pub open spec fn kraft_sum(lengths: Seq<u8>, len: nat) -> nat
    decreases len,
{
    if len == 0 {
        0
    } else {
        kraft_sum(lengths, (len - 1) as nat) + count_len(lengths, len, lengths.len()) * pow2(
            (15 - len) as nat,
        )
    }
}

/// The lengths claim no more than the code space there is. Kraft's equality
/// is the case of a complete code, where the two sides are equal.
pub open spec fn kraft_holds(lengths: Seq<u8>) -> bool {
    &&& forall|i: int| 0 <= i < lengths.len() ==> lengths[i] <= MAX_CODE_LENGTH
    &&& kraft_sum(lengths, 15) <= pow2(15)
}

/// The Kraft sum grows with the lengths that it takes in.
proof fn lemma_kraft_sum_monotone(lengths: Seq<u8>, a: nat, b: nat)
    requires
        a <= b,
    ensures
        kraft_sum(lengths, a) <= kraft_sum(lengths, b),
    decreases b,
{
    if a < b {
        lemma_kraft_sum_monotone(lengths, a, (b - 1) as nat);
    }
}

/// The codes up to a length take up the Kraft sum up to that length.
proof fn lemma_kraft_sum_is_code_space(lengths: Seq<u8>, len: nat)
    requires
        1 <= len <= 15,
    ensures
        (first_code(lengths, len) + count_len(lengths, len, lengths.len())) * pow2(
            (15 - len) as nat,
        ) == kraft_sum(lengths, len),
    decreases len,
{
    let n = lengths.len();
    let c = count_len(lengths, len, n);
    let p = pow2((15 - len) as nat);
    if len == 1 {
        reveal_with_fuel(kraft_sum, 2);
    } else {
        let l1 = (len - 1) as nat;
        lemma_kraft_sum_is_code_space(lengths, l1);
        lemma_pow2_double((15 - len) as nat, 1);
        assert((15 - len) as nat + 1 == (15 - l1) as nat);
        let f1 = first_code(lengths, l1);
        let c1 = count_len(lengths, l1, n);
        assert((2 * (f1 + c1) + c) * p == (f1 + c1) * (2 * p) + c * p) by (nonlinear_arith);
    }
}

/// Under lengths that are not oversubscribed every symbol of nonzero length
/// has a code.
pub proof fn lemma_kraft_gives_codes(lengths: Seq<u8>, sym: nat)
    requires
        kraft_holds(lengths),
        sym < lengths.len(),
        lengths[sym as int] > 0,
    ensures
        has_code(lengths, sym),
{
    let len = lengths[sym as int] as nat;
    let n = lengths.len();
    let rest = (15 - len) as nat;
    lemma_kraft_sum_is_code_space(lengths, len);
    lemma_kraft_sum_monotone(lengths, len, 15);
    lemma_count_len_strict(lengths, sym, n);
    lemma_pow2_adds(len, rest);
    lemma_pow2_pos(rest);
    let code = code_of(lengths, sym);
    let top = first_code(lengths, len) + count_len(lengths, len, n);
    assert(code < pow2(len)) by (nonlinear_arith)
        requires
            code + 1 <= top,
            top * pow2(rest) <= pow2(len) * pow2(rest),
            pow2(rest) > 0,
    ;
}

/// The bits that a table looks at while it reads a code of `len` bits: whole
/// groups of `bits` bits.
pub open spec fn looked_at(len: nat, bits: nat) -> nat {
    ((len + bits - 1) / bits as int) as nat * bits
}

/// The codes of `syms` stand one behind the other from `pos` on, and behind
/// each the stream goes on as far as a table of `bits` bits looks.
pub open spec fn encoded_at(
    lengths: Seq<u8>,
    bits: nat,
    syms: Seq<u16>,
    input: Seq<u8>,
    pos: nat,
) -> bool
    decreases syms.len(),
{
    syms.len() > 0 ==> {
        let sym = syms[0] as nat;
        let len = lengths[sym as int] as nat;
        &&& sym < lengths.len()
        &&& len > 0
        &&& msb_first(input, pos, len) == code_of(lengths, sym)
        &&& pos + looked_at(len, bits) <= bit_count(input)
        &&& encoded_at(lengths, bits, syms.drop_first(), input, pos + len)
    }
}

/// The number of bits in the codes of `syms`.
pub open spec fn encoded_len(lengths: Seq<u8>, syms: Seq<u16>) -> nat
    decreases syms.len(),
{
    if syms.len() == 0 {
        0
    } else {
        lengths[syms[0] as int] as nat + encoded_len(lengths, syms.drop_first())
    }
}

impl Table {
    /// What reading `count` symbols in a row through this table comes to.
    pub open spec fn decode_all(&self, input: Seq<u8>, pos: nat, count: nat) -> Result<
        (Seq<u16>, nat),
        InflateError,
    >
        decreases count,
    {
        if count == 0 {
            Ok((Seq::empty(), pos))
        } else {
            match self.decode(input, pos) {
                Err(e) => Err(e),
                Ok((sym, next)) => match self.decode_all(input, next, (count - 1) as nat) {
                    Err(e) => Err(e),
                    Ok((rest, end)) => Ok((seq![sym] + rest, end)),
                },
            }
        }
    }

    /// The table of a code reads what the code says.
    pub proof fn lemma_decode(&self, lengths: Seq<u8>, input: Seq<u8>, pos: nat)
        requires
            self.holds(lengths),
            lengths.len() <= 0x10000,
        ensures
            self.decode(input, pos) == decode_symbol(lengths, self.bits as nat, input, pos),
    {
        reveal_with_fuel(msb_first, 1);
        lemma_walk_decodes(self.contents@, self.bits as nat, lengths, input, pos, 0);
    }
}

/// A code that stands at `pos` decodes to its symbol, and the position moves
/// on by its length, where the stream goes on as far as the table looks.
/// Where it does not, the stream may end before the symbol is read, and
/// nothing else can go wrong.
pub proof fn lemma_decode_code(
    lengths: Seq<u8>,
    bits: nat,
    input: Seq<u8>,
    pos: nat,
    sym: nat,
    level: nat,
)
    requires
        bits >= 1,
        lengths.len() <= 0x10000,
        has_code(lengths, sym),
        level * bits < lengths[sym as int],
        msb_first(input, pos, lengths[sym as int] as nat) == code_of(lengths, sym),
    ensures
        pos + looked_at(lengths[sym as int] as nat, bits) <= bit_count(input) ==> decode_from(
            lengths,
            bits,
            input,
            pos,
            level * bits,
        ) == Ok::<(u16, nat), InflateError>((sym as u16, pos + lengths[sym as int] as nat)),
        decode_from(lengths, bits, input, pos, level * bits) == Ok::<(u16, nat), InflateError>(
            (sym as u16, pos + lengths[sym as int] as nat),
        ) || decode_from(lengths, bits, input, pos, level * bits) == Err::<
            (u16, nat),
            InflateError,
        >(InflateError::UnexpectedEnd),
    decreases lengths[sym as int] - level * bits,
{
    reveal_with_fuel(decode_from, 1);
    let len = lengths[sym as int] as nat;
    let depth = level * bits;
    let width = depth + bits;
    let path = msb_first(input, pos, width);
    assert(width == (level + 1) * bits) by (nonlinear_arith)
        requires
            width == level * bits + bits,
    ;
    assert(looked_at(len, bits) >= width) by {
        let groups = (len + bits - 1) / bits as int;
        vstd::arithmetic::div_mod::lemma_div_multiples_vanish((level + 1) as int, bits as int);
        lemma_div_is_ordered(((level + 1) * bits) as int, (len + bits - 1) as int, bits as int);
        assert(((level + 1) * bits) as int / bits as int == level + 1) by {
            assert((level + 1) * bits == bits * (level + 1)) by (nonlinear_arith);
        }
        assert(groups * bits >= (level + 1) * bits) by (nonlinear_arith)
            requires
                groups >= level + 1,
                bits >= 1,
        ;
    }
    if pos + width > bit_count(input) {
        // the stream ends within the bits that this level looks at
    } else if len <= width {
        lemma_code_splits(input, pos, len, (width - len) as nat);
        assert(len + (width - len) as nat == width);
        assert(covers(lengths, sym, width, path));
        assert(code_ends(lengths, depth, width, path));
        lemma_covers_unique(lengths, sym, symbol_ending(lengths, depth, width, path), width, path);
    } else {
        lemma_code_splits(input, pos, width, (len - width) as nat);
        assert(width + (len - width) as nat == len);
        assert(covers(lengths, sym, width, path));
        if code_ends(lengths, depth, width, path) {
            lemma_covers_unique(
                lengths,
                symbol_ending(lengths, depth, width, path),
                sym,
                width,
                path,
            );
        }
        assert(code_goes_on(lengths, width, path));
        lemma_decode_code(lengths, bits, input, pos, sym, level + 1);
    }
}

/// A symbol that was decoded has its code standing at `pos`, and the stream
/// goes on as far as the table looked to read it.
pub proof fn lemma_decoded_stands(
    lengths: Seq<u8>,
    bits: nat,
    input: Seq<u8>,
    pos: nat,
    level: nat,
)
    requires
        bits >= 1,
        lengths.len() <= 0x10000,
    ensures
        match decode_from(lengths, bits, input, pos, level * bits) {
            Ok((sym, next)) => {
                let len = lengths[sym as int] as nat;
                &&& has_code(lengths, sym as nat)
                &&& level * bits < len
                &&& next == pos + len
                &&& msb_first(input, pos, len) == code_of(lengths, sym as nat)
                &&& pos + looked_at(len, bits) <= bit_count(input)
            },
            Err(_) => true,
        },
    decreases 256 - level * bits,
{
    reveal_with_fuel(decode_from, 1);
    let depth = level * bits;
    let width = depth + bits;
    let path = msb_first(input, pos, width);
    assert(width == (level + 1) * bits) by (nonlinear_arith)
        requires
            width == level * bits + bits,
    ;
    if pos + width <= bit_count(input) {
        if code_ends(lengths, depth, width, path) {
            let sym = symbol_ending(lengths, depth, width, path);
            let len = lengths[sym as int] as nat;
            assert(covers(lengths, sym, width, path));
            lemma_code_splits(input, pos, len, (width - len) as nat);
            assert(len + (width - len) as nat == width);
            assert(looked_at(len, bits) == width) by {
                let over = (len - 1 - depth) as int;
                assert(len + bits - 1 == (level + 1) * bits + over);
                lemma_fundamental_div_mod_converse(
                    (len + bits - 1) as int,
                    bits as int,
                    (level + 1) as int,
                    over,
                );
            }
        } else if code_goes_on(lengths, width, path) {
            lemma_decoded_stands(lengths, bits, input, pos, level + 1);
        }
    }
}

/// Decoding inverts encoding. For lengths that are not oversubscribed, the
/// table built from them reads the codes of any sequence of symbols, put one
/// behind the other, back as that sequence, and ends behind the last code.
pub proof fn lemma_round_trip(
    table: Table,
    lengths: Seq<u8>,
    syms: Seq<u16>,
    input: Seq<u8>,
    pos: nat,
)
    requires
        table.holds(lengths),
        lengths.len() <= 0x10000,
        kraft_holds(lengths),
        encoded_at(lengths, table.bits as nat, syms, input, pos),
    ensures
        table.decode_all(input, pos, syms.len()) == Ok::<(Seq<u16>, nat), InflateError>(
            (syms, pos + encoded_len(lengths, syms)),
        ),
    decreases syms.len(),
{
    if syms.len() > 0 {
        let sym = syms[0] as nat;
        let len = lengths[sym as int] as nat;
        let rest = syms.drop_first();
        lemma_kraft_gives_codes(lengths, sym);
        table.lemma_decode(lengths, input, pos);
        assert(0 * table.bits as nat == 0) by (nonlinear_arith);
        lemma_decode_code(lengths, table.bits as nat, input, pos, sym, 0);
        lemma_round_trip(table, lengths, rest, input, pos + len);
        assert(seq![syms[0]] + rest =~= syms);
    } else {
        assert(syms =~= Seq::<u16>::empty());
    }
}


/// The leaves at depth `level` of the code tree, among the symbols below
/// `upto`: the symbols whose codes have `level` bits, in rising order.
pub open spec fn leaves(lengths: Seq<u8>, level: nat, upto: nat) -> Seq<Tree>
    decreases upto,
{
    if upto == 0 {
        Seq::empty()
    } else {
        let before = leaves(lengths, level, (upto - 1) as nat);
        if lengths[upto - 1] as nat == level {
            before.push(Tree::Node((upto - 1) as u16))
        } else {
            before
        }
    }
}

/// The nodes that join the nodes of the level below two by two.
pub open spec fn paired(nodes: Seq<Tree>) -> Seq<Tree> {
    Seq::new(
        nodes.len() / 2,
        |i: int| Tree::Tree(Box::new(nodes[2 * i]), Box::new(nodes[2 * i + 1])),
    )
}

/// The nodes at depth `level` of the code tree, from left to right: first
/// the leaves, then the nodes above the level below. The root is the one
/// node at depth 0.
pub open spec fn level_nodes(lengths: Seq<u8>, level: nat) -> Seq<Tree>
    decreases 16 - level,
{
    if level >= 16 {
        Seq::empty()
    } else if level == 0 {
        paired(level_nodes(lengths, 1))
    } else {
        leaves(lengths, level, lengths.len()) + paired(level_nodes(lengths, level + 1))
    }
}

/// The lengths are those of a full binary tree: the nodes of every level can
/// be joined two by two, and one node is left at the top.
pub open spec fn tree_shaped(lengths: Seq<u8>) -> bool {
    &&& forall|level: nat| 1 <= level <= 15 ==> #[trigger] level_nodes(lengths, level).len() % 2
        == 0
    &&& level_nodes(lengths, 0).len() == 1
}

impl Tree {
    /// A copy of the tree.
    pub fn duplicate(&self) -> (copy: Tree)
        ensures
            copy == *self,
        decreases self,
    {
        match self {
            Tree::Node(symbol) => Tree::Node(*symbol),
            Tree::Tree(zero, one) => Tree::Tree(
                Box::new(zero.duplicate()),
                Box::new(one.duplicate()),
            ),
        }
    }
}

/// Builds the tree of the canonical Huffman code that gives symbol `i` a code
/// of `lengths[i]` bits, or none where that is 0: level by level from the
/// longest codes up, the leaves of a level standing before the nodes that
/// join the level below. The lengths must be those of a full tree.
pub fn make_tree(lengths: &[u8]) -> (tree: Tree)
    requires
        lengths@.len() <= 0x10000,
        tree_shaped(lengths@),
    ensures
        tree == level_nodes(lengths@, 0)[0],
{
    let mut nodes: Vec<Tree> = Vec::new();
    let mut i: u8 = 16;
    while i > 0
        invariant
            i <= 16,
            lengths@.len() <= 0x10000,
            tree_shaped(lengths@),
            nodes@ == level_nodes(lengths@, i as nat),
        decreases i,
    {
        i -= 1;
        let ghost below = nodes@;
        assert(below.len() % 2 == 0);
        let mut new_nodes: Vec<Tree> = Vec::new();
        if i > 0 {
            let mut symbol: usize = 0;
            while symbol < lengths.len()
                invariant
                    symbol <= lengths@.len() <= 0x10000,
                    new_nodes@ == leaves(lengths@, i as nat, symbol as nat),
                decreases lengths@.len() - symbol,
            {
                if lengths[symbol] == i {
                    new_nodes.push(Tree::Node(symbol as u16));
                }
                symbol += 1;
            }
        }
        let ghost first = new_nodes@;
        let mut j: usize = 0;
        while j < nodes.len()
            invariant
                j <= nodes@.len(),
                j % 2 == 0,
                nodes@ == below,
                below.len() % 2 == 0,
                new_nodes@ == first + paired(below).subrange(0, j as int / 2),
            decreases nodes@.len() - j,
        {
            let zero = nodes[j].duplicate();
            let one = nodes[j + 1].duplicate();
            new_nodes.push(Tree::Tree(Box::new(zero), Box::new(one)));
            j += 2;
            assert(new_nodes@ =~= first + paired(below).subrange(0, j as int / 2));
        }
        assert(paired(below).subrange(0, j as int / 2) =~= paired(below));
        nodes = new_nodes;
    }
    nodes[0].duplicate()
}


/// The node that is reached from `tree` along the `len` bits of `code`,
/// the most significant bit first, bit 0 leading to the first child.
pub open spec fn descend(tree: Tree, code: nat, len: nat) -> Tree
    decreases len,
{
    if len == 0 {
        tree
    } else {
        match descend(tree, code / 2, (len - 1) as nat) {
            Tree::Tree(zero, one) => if code % 2 == 0 {
                *zero
            } else {
                *one
            },
            Tree::Node(symbol) => Tree::Node(symbol),
        }
    }
}

/// The leaves of a level are the symbols of that length, each at the place
/// that its rank among them gives.
proof fn lemma_leaves(lengths: Seq<u8>, level: nat, upto: nat, sym: nat)
    requires
        upto <= lengths.len(),
    ensures
        leaves(lengths, level, upto).len() == count_len(lengths, level, upto),
        sym < upto && lengths[sym as int] as nat == level ==> leaves(
            lengths,
            level,
            upto,
        )[count_len(lengths, level, sym) as int] == Tree::Node(sym as u16),
    decreases upto,
{
    if upto > 0 {
        lemma_leaves(lengths, level, (upto - 1) as nat, sym);
        if sym + 1 < upto && lengths[sym as int] as nat == level {
            lemma_count_len_strict(lengths, sym, (upto - 1) as nat);
        }
    }
}

/// The node at place `i` of a level is reached from the root along the code
/// that lies `i` behind the first code of the level.
proof fn lemma_level_node(lengths: Seq<u8>, level: nat, i: nat)
    requires
        tree_shaped(lengths),
        level <= 15,
        i < level_nodes(lengths, level).len(),
    ensures
        descend(level_nodes(lengths, 0)[0], first_code(lengths, level) + i, level) == level_nodes(
            lengths,
            level,
        )[i as int],
    decreases level,
{
    if level > 0 {
        let above = (level - 1) as nat;
        let n = lengths.len();
        let nodes = level_nodes(lengths, level);
        let pairs = paired(nodes);
        assert(nodes.len() % 2 == 0);
        lemma_leaves(lengths, above, n, 0);
        let before: nat = if above == 0 {
            0
        } else {
            count_len(lengths, above, n)
        };
        let parent = before + i / 2;
        assert(level_nodes(lengths, above).len() == before + pairs.len());
        assert(level_nodes(lengths, above)[parent as int] == pairs[i as int / 2]);
        lemma_level_node(lengths, above, parent);
        let code = first_code(lengths, level) + i;
        assert(first_code(lengths, level) == 2 * (first_code(lengths, above) + before));
        assert(code / 2 == first_code(lengths, above) + parent);
        assert(code % 2 == i % 2);
        assert(2 * (i as int / 2) + i % 2 == i);
    }
}

/// The tree of a code follows the code: the bits of the code of a symbol
/// lead from the root to the leaf of that symbol.
pub proof fn lemma_tree_follows_codes(lengths: Seq<u8>, sym: nat)
    requires
        tree_shaped(lengths),
        sym < lengths.len() <= 0x10000,
        1 <= lengths[sym as int] <= MAX_CODE_LENGTH,
    ensures
        descend(
            level_nodes(lengths, 0)[0],
            code_of(lengths, sym),
            lengths[sym as int] as nat,
        ) == Tree::Node(sym as u16),
{
    let level = lengths[sym as int] as nat;
    let n = lengths.len();
    let i = count_len(lengths, level, sym);
    lemma_leaves(lengths, level, n, sym);
    lemma_count_len_strict(lengths, sym, n);
    lemma_level_node(lengths, level, i);
}


/// A level holds its leaves and half as many nodes as the level below.
proof fn lemma_level_len(lengths: Seq<u8>, level: nat)
    requires
        1 <= level <= 15,
    ensures
        level_nodes(lengths, level).len() == count_len(lengths, level, lengths.len())
            + level_nodes(lengths, level + 1).len() / 2,
        level_nodes(lengths, 0).len() == level_nodes(lengths, 1).len() / 2,
        level_nodes(lengths, 16).len() == 0,
{
    lemma_leaves(lengths, level, lengths.len(), 0);
}

/// Whether the lengths are those of a full binary tree, as `make_tree` needs
/// them.
pub fn is_tree_shaped(lengths: &[u8]) -> (shaped: bool)
    requires
        lengths@.len() <= 0x10000,
    ensures
        shaped == tree_shaped(lengths@),
{
    let bl_count = count_lengths(lengths);
    let mut nodes: u32 = 0;
    let mut level: usize = 16;
    proof {
        lemma_level_len(lengths@, 1);
    }
    while level > 1
        invariant
            1 <= level <= 16,
            lengths@.len() <= 0x10000,
            bl_count[0] == 0,
            forall|l: int|
                1 <= l < 16 ==> bl_count[l] == count_len(lengths@, l as nat, lengths@.len()),
            nodes == level_nodes(lengths@, level as nat).len(),
            nodes <= 0x20000,
            forall|l: nat|
                level <= l <= 15 ==> #[trigger] level_nodes(lengths@, l).len() % 2 == 0,
        decreases level,
    {
        level -= 1;
        proof {
            lemma_level_len(lengths@, level as nat);
            lemma_count_len_monotone(lengths@, level as nat, 0, lengths@.len());
        }
        nodes = bl_count[level] + nodes / 2;
        if nodes % 2 != 0 {
            assert(level_nodes(lengths@, level as nat).len() % 2 != 0);
            return false;
        }
    }
    nodes == 2
}

} // verus!
