//! Forward CRC32: the 256-entry transition table and the table-driven
//! left-to-right computation over a byte buffer.

use vstd::prelude::*;

verus! {

/// One round of the table-entry recurrence: shift right one bit, and xor in
/// the polynomial if the shifted-out bit was set.
pub open spec fn entry_round(poly: u32, v: u32) -> u32 {
    if v & 1 == 1 {
        (v >> 1) ^ poly
    } else {
        v >> 1
    }
}

/// `n` rounds of the table-entry recurrence applied to `v`.
pub open spec fn entry_rounds(poly: u32, v: u32, n: nat) -> u32
    decreases n,
{
    if n == 0 {
        v
    } else {
        entry_round(poly, entry_rounds(poly, v, (n - 1) as nat))
    }
}

/// The forward-table entry for input byte `i`: eight rounds of the recurrence
/// starting from `i` itself.
pub open spec fn table_entry(poly: u32, i: u32) -> u32 {
    entry_rounds(poly, i, 8)
}

/// A sequence is the forward CRC32 transition table for `poly`.
pub open spec fn is_table(t: Seq<u32>, poly: u32) -> bool {
    &&& t.len() == 256
    &&& forall|i: int| 0 <= i < 256 ==> t[i] == table_entry(poly, i as u32)
}

/// One byte-at-a-time transition of the internal CRC register.
pub open spec fn crc_step(t: Seq<u32>, reg: u32, b: u8) -> u32
    recommends
        t.len() == 256,
{
    t[((reg ^ (b as u32)) & 0xFF) as int] ^ (reg >> 8)
}

/// The internal register after processing `data` left to right from `reg`.
pub open spec fn crc_regs(t: Seq<u32>, data: Seq<u8>, reg: u32) -> u32
    recommends
        t.len() == 256,
    decreases data.len(),
{
    if data.len() == 0 {
        reg
    } else {
        crc_regs(t, data.drop_first(), crc_step(t, reg, data[0]))
    }
}

/// The live CRC32 of `data` from accumulator `accum`: complement on entry and
/// on exit, with the register transitions in between.
pub open spec fn crc_of(t: Seq<u32>, data: Seq<u8>, accum: u32) -> u32 {
    !crc_regs(t, data, !accum)
}

/// Masking to the low byte stays below 256.
pub proof fn lemma_low_byte_bound(x: u32)
    by (bit_vector)
    ensures
        x & 0xFF < 256,
{
}

/// Dropping the low 8 bits of a 32-bit value leaves no bit above 24, so the
/// explicit mask in the computation is redundant.
pub proof fn lemma_shr8_mask(x: u32)
    by (bit_vector)
    ensures
        (x >> 8) & 0x00FFFFFF == x >> 8,
        x >> 8 < 0x1000000,
{
}

/// The forward CRC32 table and the computation it drives.
pub struct CRC32 {
    pub table: Vec<u32>,
}

impl CRC32 {
    /// Build the 256-entry forward transition table for `poly`.
    pub fn new(poly: u32) -> (r: CRC32)
        ensures
            is_table(r.table@, poly),
    {
        let mut table: Vec<u32> = Vec::new();
        for i in 0..256usize
            invariant
                table@.len() == i,
                forall|k: int| 0 <= k < i ==> table@[k] == table_entry(poly, k as u32),
        {
            let mut v: u32 = i as u32;
            for r in 0..8usize
                invariant
                    v == entry_rounds(poly, i as u32, r as nat),
            {
                v = if v & 1 == 1 {
                    (v >> 1) ^ poly
                } else {
                    v >> 1
                };
            }
            table.push(v);
        }
        CRC32 { table }
    }

    /// Table-driven CRC32 of `data` starting from accumulator `accum`.
    pub fn _calc(&self, data: &[u8], accum: u32) -> (r: u32)
        requires
            self.table@.len() == 256,
        ensures
            r == crc_of(self.table@, data@, accum),
    {
        let ghost t = self.table@;
        let mut a: u32 = !accum;
        proof {
            assert(data@.skip(0) =~= data@);
        }
        for k in 0..data.len()
            invariant
                self.table@ == t,
                t.len() == 256,
                crc_regs(t, data@.skip(k as int), a) == crc_regs(t, data@, !accum),
        {
            let b = data[k];
            proof {
                lemma_low_byte_bound(a ^ (b as u32));
                lemma_shr8_mask(a);
                assert(data@.skip(k as int).drop_first() =~= data@.skip(k as int + 1));
                assert(data@.skip(k as int)[0] == b);
            }
            a = self.table[((a ^ b as u32) & 0xFF) as usize] ^ ((a >> 8) & 0x00FFFFFF);
        }
        proof {
            assert(data@.skip(data@.len() as int) =~= Seq::<u8>::empty());
        }
        !a
    }
}

/// The forward table of the reflected IEEE polynomial, the default CRC32
/// variant.
pub open spec fn ieee_table() -> Seq<u32> {
    Seq::new(256, |i: int| table_entry(0xEDB88320u32, i as u32))
}

pub proof fn lemma_is_table_ieee(t: Seq<u32>)
    requires
        is_table(t, 0xEDB88320u32),
    ensures
        t == ieee_table(),
{
    assert(t =~= ieee_table());
}

/// Processing a concatenation folds the registers of its parts in order.
pub proof fn lemma_crc_regs_concat(t: Seq<u32>, x: Seq<u8>, y: Seq<u8>, r: u32)
    ensures
        crc_regs(t, x + y, r) == crc_regs(t, y, crc_regs(t, x, r)),
    decreases x.len(),
{
    if x.len() == 0 {
        assert(x + y =~= y);
    } else {
        assert((x + y).drop_first() =~= x.drop_first() + y);
        assert((x + y)[0] == x[0]);
        assert((x + y).len() > 0);
        assert(crc_regs(t, x + y, r) == crc_regs(
            t,
            (x + y).drop_first(),
            crc_step(t, r, (x + y)[0]),
        ));
        lemma_crc_regs_concat(t, x.drop_first(), y, crc_step(t, r, x[0]));
    }
}

/// Building the table is deterministic: two tables for the same polynomial
/// are bit-identical.
pub proof fn lemma_build_deterministic(poly: u32, t1: Seq<u32>, t2: Seq<u32>)
    requires
        is_table(t1, poly),
        is_table(t2, poly),
    ensures
        t1 == t2,
{
    assert(t1 =~= t2);
}

} // verus!
