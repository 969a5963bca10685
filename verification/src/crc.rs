//! The CRC engine: a 256-entry lookup table derived from the generator
//! polynomial, a table-driven `calculate`, and the bit-by-bit reference
//! `calculate_old` that defines what both must compute.

use vstd::prelude::*;

verus! {

/// Number of significant bits in the CRC register.
pub const CAN_WIDTH: u8 = 15;

/// The generator polynomial, unshifted (its implicit leading 1 bit dropped).
pub const CAN_POLY: u16 = 0x4599;

/// Initial register value.
pub const CAN_INIT: u16 = 0x0000;

/// One round of polynomial division on a 16-bit working register: shift left,
/// and where the bit pushed out of position 15 was set, fold the left-aligned
/// polynomial back in.
pub open spec fn div_round(value: u16, poly: u16) -> u16 {
    (value << 1u16) ^ (if (value >> 15u16) & 1 == 1 {
        poly
    } else {
        0u16
    })
}

/// `n` such rounds in a row.
pub open spec fn div_rounds(value: u16, n: nat, poly: u16) -> u16
    decreases n,
{
    if n == 0 {
        value
    } else {
        div_round(div_rounds(value, (n - 1) as nat, poly), poly)
    }
}

/// What feeding one byte value through eight division rounds yields, the byte
/// placed in the high half of the working register: the meaning of one lookup
/// table entry for the polynomial `poly` (already left-aligned).
pub open spec fn spec_crc16(poly: u16, value: u16) -> u16 {
    div_rounds(value << 8u16, 8, poly)
}

/// A polynomial of `width` significant bits, left-aligned to the top of a
/// 16-bit working register.
pub open spec fn aligned_poly(width: u8, poly: u16) -> u16
    recommends
        1 <= width <= 16,
{
    poly << ((16 - width) as u16)
}

/// One entry of the table this engine is built with: the CAN polynomial,
/// left-aligned, fed the index byte.
pub open spec fn table_entry(index: u16) -> u16 {
    spec_crc16(aligned_poly(CAN_WIDTH, CAN_POLY), index)
}

/// One round of the bit-by-bit reference update on a 15-bit register: the bit
/// about to be shifted out, XORed with the incoming data bit, decides whether
/// the polynomial is applied after the shift.
pub open spec fn ref_round(reg: u16, data_bit: u16) -> u16 {
    ((reg << 1u16) & 0x7FFF) ^ (if ((reg >> 14u16) ^ data_bit) & 1 == 1 {
        CAN_POLY
    } else {
        0u16
    })
}

/// Data bit `j` of a byte, most significant first (`j` in `0..8`).
pub open spec fn data_bit(byte: u8, j: u16) -> u16 {
    ((byte >> ((7 - j) as u8)) & 1) as u16
}

/// The reference register after consuming the first `n` bits of `byte`.
pub open spec fn ref_bits(reg: u16, byte: u8, n: nat) -> u16
    decreases n,
{
    if n == 0 {
        reg
    } else {
        ref_round(ref_bits(reg, byte, (n - 1) as nat), data_bit(byte, (n - 1) as u16))
    }
}

/// The reference register after one whole byte.
pub open spec fn ref_byte(reg: u16, byte: u8) -> u16 {
    ref_bits(reg, byte, 8)
}

/// The reference register after a whole message, front to back.
pub open spec fn ref_crc_from(reg: u16, s: Seq<u8>) -> u16
    decreases s.len(),
{
    if s.len() == 0 {
        reg
    } else {
        ref_crc_from(ref_byte(reg, s[0]), s.drop_first())
    }
}

/// The CAN CRC of a byte sequence: the defining, bit-by-bit model that both
/// engines are proved against.
pub open spec fn spec_crc(s: Seq<u8>) -> u16 {
    ref_crc_from(0, s)
}

/// The table slot that one update step reads, given the 16-bit working
/// register and the next input byte.
pub open spec fn table_index(reg: u16, byte: u8) -> u16 {
    ((reg >> 8u16) ^ (byte as u16)) & 0xFF
}

/// One byte-wise step of the table-driven engine on the 16-bit working
/// register.
pub open spec fn table_step(reg: u16, t: Seq<u16>, byte: u8) -> u16 {
    t[table_index(reg, byte) as int] ^ (reg << 8u16)
}

/// The table-driven working register after a whole message, front to back.
pub open spec fn table_run(reg: u16, t: Seq<u16>, s: Seq<u8>) -> u16
    decreases s.len(),
{
    if s.len() == 0 {
        reg
    } else {
        table_run(table_step(reg, t, s[0]), t, s.drop_first())
    }
}

/// The heart of the table's correctness: one table lookup on a left-aligned
/// register advances it exactly as eight reference rounds advance the 15-bit
/// register, and the 15-bit register stays within its width.
proof fn lemma_byte_equiv(r: u16, b: u8)
    by (bit_vector)
    requires
        r < 0x8000,
    ensures
        table_entry(table_index((r << 1u16) as u16, b)) ^ (((r << 1u16) as u16) << 8u16) == (
        ref_byte(r, b) << 1u16) as u16,
        ref_byte(r, b) < 0x8000,
{
}

/// Every reference round keeps the register inside its 15-bit width.
proof fn lemma_ref_round_bound(reg: u16, data_bit: u16)
    by (bit_vector)
    ensures
        ref_round(reg, data_bit) < 0x8000,
{
}

/// The reference register stays inside its 15-bit width over any number of
/// bits of one byte.
proof fn lemma_ref_bits_bound(reg: u16, byte: u8, n: nat)
    requires
        reg < 0x8000,
    ensures
        ref_bits(reg, byte, n) < 0x8000,
    decreases n,
{
    if n > 0 {
        lemma_ref_bits_bound(reg, byte, (n - 1) as nat);
        lemma_ref_round_bound(ref_bits(reg, byte, (n - 1) as nat), data_bit(byte, (n - 1) as u16));
    }
}

/// The reference register stays inside its 15-bit width over a whole message.
proof fn lemma_crc_from_bound(reg: u16, s: Seq<u8>)
    requires
        reg < 0x8000,
    ensures
        ref_crc_from(reg, s) < 0x8000,
    decreases s.len(),
{
    if s.len() > 0 {
        lemma_ref_bits_bound(reg, s[0], 8);
        lemma_crc_from_bound(ref_byte(reg, s[0]), s.drop_first());
    }
}

/// The checksum never exceeds `2^15 - 1`, for every byte sequence.
pub proof fn lemma_crc_fits_width(s: Seq<u8>)
    ensures
        spec_crc(s) <= 0x7FFF,
{
    lemma_crc_from_bound(0, s);
}

/// The empty message leaves the register at its initial value: its CRC is 0.
pub proof fn lemma_crc_empty()
    ensures
        spec_crc(Seq::<u8>::empty()) == 0,
{
}

/// Table entry 0 is 0: a zero byte over an empty register never sets the bit
/// that applies the polynomial.
pub proof fn lemma_table_entry_zero()
    ensures
        table_entry(0) == 0,
{
    assert(table_entry(0) == 0) by (bit_vector);
}

/// The defining law of the lookup table: over any byte sequence, the
/// table-driven working register (held left-aligned, one spare low bit) tracks
/// the bit-by-bit reference register exactly.
pub proof fn lemma_table_matches_reference(t: Seq<u16>, reg: u16, s: Seq<u8>)
    requires
        t.len() == 256,
        forall|i: int| 0 <= i < 256 ==> t[i] == table_entry(i as u16),
        reg < 0x8000,
    ensures
        table_run((reg << 1u16) as u16, t, s) == (ref_crc_from(reg, s) << 1u16) as u16,
    decreases s.len(),
{
    if s.len() > 0 {
        let b = s[0];
        let w = (reg << 1u16) as u16;
        assert(table_index(w, b) < 256) by (bit_vector);
        lemma_byte_equiv(reg, b);
        assert(table_step(w, t, b) == (ref_byte(reg, b) << 1u16) as u16);
        lemma_ref_bits_bound(reg, b, 8);
        lemma_table_matches_reference(t, ref_byte(reg, b), s.drop_first());
    }
}

/// The table-driven engine: an immutable 256-entry lookup table, a pure
/// function of the polynomial and the register width.
pub struct CRC {
    data: Vec<u16>,
}

impl CRC {
    /// The table holds exactly the 256 per-byte division results.
    pub closed spec fn wf(self) -> bool {
        &&& self.data@.len() == 256
        &&& forall|i: int| 0 <= i < 256 ==> self.data@[i] == table_entry(i as u16)
    }

    /// Builds the engine for the CAN variant.
    pub fn new() -> (r: Self)
        ensures
            r.wf(),
    {
        let table = Self::generate_table(CAN_WIDTH, CAN_POLY);
        proof {
            assert(aligned_poly(CAN_WIDTH, CAN_POLY) == 0x8B32) by {
                assert(0x4599u16 << 1u16 == 0x8B32) by (bit_vector);
            }
        }
        Self { data: table }
    }

    /// Derives the 256-entry lookup table for a register of `width` bits and
    /// the given unshifted polynomial.
    pub fn generate_table(width: u8, poly: u16) -> (t: Vec<u16>)
        requires
            1 <= width <= 16,
        ensures
            t@.len() == 256,
            forall|i: int| 0 <= i < 256 ==> t@[i] == spec_crc16(aligned_poly(width, poly), i as u16),
    {
        let poly: u16 = poly << (16 - width) as u16;

        let mut table: Vec<u16> = Vec::new();
        let mut i: usize = 0;
        while i < 256
            invariant
                i <= 256,
                table@.len() == i,
                forall|j: int| 0 <= j < i ==> table@[j] == spec_crc16(poly, j as u16),
            decreases 256 - i,
        {
            table.push(Self::crc16(poly, i as u16));
            i += 1;
        }
        table
    }

    /// Eight division rounds on one byte value: computes one table entry.
    fn crc16(poly: u16, value: u16) -> (r: u16)
        ensures
            r == spec_crc16(poly, value),
    {
        let mut value: u16 = value << 8;

        let ghost start = value;
        let mut i: usize = 0;
        while i < 8
            invariant
                i <= 8,
                value == div_rounds(start, i as nat, poly),
            decreases 8 - i,
        {
            value = (value << 1) ^ (if (value >> 15) & 1 == 1 {
                poly
            } else {
                0
            });
            i += 1;
        }

        value
    }

    /// The table-driven checksum of `crc_seq`, equal on every input to the
    /// bit-by-bit reference and at most `0x7FFF`.
    pub fn calculate(&self, crc_seq: &[u8]) -> (r: u16)
        requires
            self.wf(),
        ensures
            r == spec_crc(crc_seq@),
            r <= 0x7FFF,
    {
        let mut crc = Self::init(CAN_INIT);
        crc = self.update(crc, crc_seq);
        proof {
            assert(0u16 << 1u16 == 0u16 && 0u16 << ((16 - 15) as u16) == 0u16) by (bit_vector);
            lemma_table_matches_reference(self.data@, 0, crc_seq@);
            lemma_crc_from_bound(0, crc_seq@);
            let c = spec_crc(crc_seq@);
            assert(((c << 1u16) as u16) >> ((16 - 15) as u16) == c) by (bit_vector)
                requires
                    c < 0x8000,
            ;
        }
        Self::finalize(crc)
    }

    /// The register a calculation starts from: the initial value left-aligned
    /// into the 16-bit working register.
    fn init(initial: u16) -> (r: u16)
        ensures
            r == (initial << ((16 - CAN_WIDTH) as u16)) as u16,
    {
        initial << (16 - CAN_WIDTH) as u16
    }

    /// Folds `bytes` into the working register through this engine's table.
    fn update(&self, crc: u16, bytes: &[u8]) -> (r: u16)
        requires
            self.wf(),
        ensures
            r == table_run(crc, self.data@, bytes@),
    {
        Self::update_bytewise(crc, &self.data, bytes)
    }

    /// One table lookup per input byte: the table absorbs eight rounds of
    /// division, the `crc << 8` term re-injects the register's low byte.
    fn update_bytewise(crc: u16, table: &Vec<u16>, bytes: &[u8]) -> (r: u16)
        requires
            table@.len() == 256,
        ensures
            r == table_run(crc, table@, bytes@),
    {
        let mut crc = crc;
        let ghost start = crc;
        let mut i: usize = 0;

        proof {
            assert(bytes@.skip(0) =~= bytes@);
        }
        while i < bytes.len()
            invariant
                i <= bytes@.len(),
                table@.len() == 256,
                table_run(start, table@, bytes@) == table_run(crc, table@, bytes@.skip(i as int)),
            decreases bytes@.len() - i,
        {
            proof {
                let b = bytes@[i as int];
                assert(table_index(crc, b) < 256) by (bit_vector);
                assert(bytes@.skip(i as int).drop_first() =~= bytes@.skip(i as int + 1));
            }
            let table_index = (((crc >> 8) ^ bytes[i] as u16) & 0xFF) as usize;
            crc = table[table_index] ^ (crc << 8);
            i += 1;
        }

        crc
    }

    /// Narrows the working register to the final result: the top `CAN_WIDTH`
    /// bits, right-aligned.
    fn finalize(crc: u16) -> (r: u16)
        ensures
            r == crc >> ((16 - CAN_WIDTH) as u16),
    {
        crc >> (16 - CAN_WIDTH) as u16
    }

    /// The bit-by-bit reference engine: no table, one round per input bit on a
    /// 15-bit register. Agrees with [`CRC::calculate`] on every sequence of
    /// byte-range values.
    pub fn calculate_old(crc_seq: &[usize]) -> (r: usize)
        requires
            forall|i: int| 0 <= i < crc_seq@.len() ==> crc_seq@[i] <= 255,
        ensures
            r == spec_crc(crc_seq@.map_values(|v: usize| v as u8)) as usize,
    {
        let mut crc_rg: usize = 0;
        let polynomial: usize = 0x4599;

        let ghost m = crc_seq@.map_values(|v: usize| v as u8);

        let mut i: usize = 0;
        proof {
            assert(m.skip(0) =~= m);
        }
        while i < crc_seq.len()
            invariant
                i <= crc_seq@.len(),
                polynomial == 0x4599,
                forall|k: int| 0 <= k < crc_seq@.len() ==> crc_seq@[k] <= 255,
                m == crc_seq@.map_values(|v: usize| v as u8),
                crc_rg < 0x8000,
                ref_crc_from(0, m) == ref_crc_from(crc_rg as u16, m.skip(i as int)),
            decreases crc_seq@.len() - i,
        {
            let byte = crc_seq[i];
            let ghost b = m[i as int];
            let ghost entry = crc_rg as u16;

            let mut bit: usize = 0;
            while bit < 8
                invariant
                    bit <= 8,
                    byte <= 255,
                    polynomial == 0x4599,
                    b == byte as u8,
                    crc_rg < 0x8000,
                    crc_rg as u16 == ref_bits(entry, b, bit as nat),
                decreases 8 - bit,
            {
                let next_bit = (byte >> (7 - bit)) & 1;
                let crc_next = (crc_rg >> 14) ^ next_bit;
                let ghost before = crc_rg;
                crc_rg = (crc_rg << 1) & 0x7FFF;

                if crc_next == 1 {
                    crc_rg ^= polynomial;
                }

                proof {
                    let j = bit;
                    assert(next_bit == (byte >> ((7 - j) as usize)) & 1);
                    assert(crc_next == (before >> 14) ^ next_bit);
                    assert(crc_rg == (if crc_next == 1 {
                        ((before << 1) & 0x7FFF) ^ 0x4599usize
                    } else {
                        (before << 1) & 0x7FFF
                    }));
                    assert(crc_rg == ref_round(before as u16, data_bit(b, j as u16)) as usize
                        && crc_rg < 0x8000) by (bit_vector)
                        requires
                            before < 0x8000,
                            byte <= 255,
                            b == byte as u8,
                            j < 8,
                            next_bit == (byte >> ((7 - j) as usize)) & 1,
                            crc_next == (before >> 14) ^ next_bit,
                            crc_rg == (if crc_next == 1 {
                                ((before << 1) & 0x7FFF) ^ 0x4599usize
                            } else {
                                (before << 1) & 0x7FFF
                            }),
                    ;
                }
                bit += 1;
            }

            proof {
                assert(m.skip(i as int).drop_first() =~= m.skip(i as int + 1));
                assert(m.skip(i as int)[0] == b);
            }
            i += 1;
        }

        crc_rg
    }
}

} // verus!
