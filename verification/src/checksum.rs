//! The checksum of stored records: CRC-32 with the reflected polynomial
//! `0xedb88320`.
use vstd::prelude::*;

verus! {

/// The state after one bit has been shifted out.
pub open spec fn crc_bit(crc: u32) -> u32 {
    if crc & 1 == 1 {
        (crc >> 1) ^ 0xedb8_8320
    } else {
        crc >> 1
    }
}

/// The state after `bits` bits have been shifted out.
pub open spec fn crc_bits(crc: u32, bits: nat) -> u32
    decreases bits,
{
    if bits == 0 {
        crc
    } else {
        crc_bit(crc_bits(crc, (bits - 1) as nat))
    }
}

/// The state after one more byte.
pub open spec fn crc_byte(crc: u32, byte: u8) -> u32 {
    crc_bits(crc ^ byte as u32, 8)
}

/// The state after all of `bytes`.
pub open spec fn crc_state(bytes: Seq<u8>) -> u32
    decreases bytes.len(),
{
    if bytes.len() == 0 {
        0xffff_ffff
    } else {
        crc_byte(crc_state(bytes.drop_last()), bytes.last())
    }
}

/// The CRC-32 of `bytes`.
pub open spec fn crc32(bytes: Seq<u8>) -> u32 {
    !crc_state(bytes)
}

proof fn lemma_bit_keeps_apart(a: u32, b: u32)
    requires
        a != b,
    ensures
        crc_bit(a) != crc_bit(b),
{
    assert(a != b ==> (if a & 1 == 1 {
        (a >> 1) ^ 0xedb8_8320u32
    } else {
        a >> 1
    }) != (if b & 1 == 1 {
        (b >> 1) ^ 0xedb8_8320u32
    } else {
        b >> 1
    })) by (bit_vector);
}

proof fn lemma_bits_keep_apart(a: u32, b: u32, bits: nat)
    requires
        a != b,
    ensures
        crc_bits(a, bits) != crc_bits(b, bits),
    decreases bits,
{
    if bits > 0 {
        lemma_bits_keep_apart(a, b, (bits - 1) as nat);
        lemma_bit_keeps_apart(crc_bits(a, (bits - 1) as nat), crc_bits(b, (bits - 1) as nat));
    }
}

/// The same bytes lead from different states to different states.
proof fn lemma_states_stay_apart(a: Seq<u8>, b: Seq<u8>, from: int)
    requires
        a.len() == b.len(),
        0 <= from <= a.len(),
        crc_state(a.take(from)) != crc_state(b.take(from)),
        forall|i: int| from <= i < a.len() ==> a[i] == b[i],
    ensures
        crc_state(a) != crc_state(b),
    decreases a.len() - from,
{
    if from == a.len() {
        assert(a.take(from) =~= a);
        assert(b.take(from) =~= b);
    } else {
        let x = crc_state(a.take(from));
        let y = crc_state(b.take(from));
        let byte = a[from];
        assert(a.take(from + 1).drop_last() =~= a.take(from));
        assert(b.take(from + 1).drop_last() =~= b.take(from));
        assert(x != y ==> x ^ (byte as u32) != y ^ (byte as u32)) by (bit_vector);
        lemma_bits_keep_apart(x ^ byte as u32, y ^ byte as u32, 8);
        lemma_states_stay_apart(a, b, from + 1);
    }
}

/// Byte strings that differ in exactly one byte have different checksums.
pub proof fn law_one_changed_byte_changes_the_checksum(a: Seq<u8>, b: Seq<u8>, index: int)
    requires
        a.len() == b.len(),
        0 <= index < a.len(),
        a[index] != b[index],
        forall|i: int| 0 <= i < a.len() && i != index ==> a[i] == b[i],
    ensures
        crc32(a) != crc32(b),
{
    let before = crc_state(a.take(index));
    assert(a.take(index) =~= b.take(index));
    assert(a.take(index + 1).drop_last() =~= a.take(index));
    assert(b.take(index + 1).drop_last() =~= b.take(index));
    let x = a[index];
    let y = b[index];
    assert(x != y ==> before ^ (x as u32) != before ^ (y as u32)) by (bit_vector);
    lemma_bits_keep_apart(before ^ x as u32, before ^ y as u32, 8);
    lemma_states_stay_apart(a, b, index + 1);
    let s = crc_state(a);
    let t = crc_state(b);
    assert(s != t ==> !s != !t) by (bit_vector);
}

proof fn lemma_bit_adds(a: u32, b: u32)
    ensures
        crc_bit(a ^ b) == crc_bit(a) ^ crc_bit(b),
{
    let c = a ^ b;
    assert((if c & 1 == 1 {
        (c >> 1) ^ 0xedb8_8320u32
    } else {
        c >> 1
    }) == (if a & 1 == 1 {
        (a >> 1) ^ 0xedb8_8320u32
    } else {
        a >> 1
    }) ^ (if b & 1 == 1 {
        (b >> 1) ^ 0xedb8_8320u32
    } else {
        b >> 1
    })) by (bit_vector)
        requires
            c == a ^ b,
    ;
}

proof fn lemma_bits_add(a: u32, b: u32, bits: nat)
    ensures
        crc_bits(a ^ b, bits) == crc_bits(a, bits) ^ crc_bits(b, bits),
    decreases bits,
{
    if bits > 0 {
        lemma_bits_add(a, b, (bits - 1) as nat);
        lemma_bit_adds(crc_bits(a, (bits - 1) as nat), crc_bits(b, (bits - 1) as nat));
    }
}

proof fn lemma_states_add(a: Seq<u8>, b: Seq<u8>, c: Seq<u8>, d: Seq<u8>)
    requires
        a.len() == b.len() == c.len() == d.len(),
        forall|i: int| 0 <= i < a.len() ==> #[trigger] d[i] == a[i] ^ b[i] ^ c[i],
    ensures
        crc_state(d) == crc_state(a) ^ crc_state(b) ^ crc_state(c),
    decreases a.len(),
{
    if a.len() == 0 {
        assert(0xffff_ffffu32 == 0xffff_ffffu32 ^ 0xffff_ffffu32 ^ 0xffff_ffffu32) by (bit_vector);
    } else {
        lemma_states_add(a.drop_last(), b.drop_last(), c.drop_last(), d.drop_last());
        let (p, q, r, s) = (
            crc_state(a.drop_last()),
            crc_state(b.drop_last()),
            crc_state(c.drop_last()),
            crc_state(d.drop_last()),
        );
        let (w, x, y, z) = (a.last(), b.last(), c.last(), d.last());
        assert(s ^ z as u32 == (p ^ w as u32) ^ (q ^ x as u32) ^ (r ^ y as u32)) by (bit_vector)
            requires
                s == p ^ q ^ r,
                z == w ^ x ^ y,
        ;
        lemma_bits_add(p ^ w as u32, q ^ x as u32, 8);
        lemma_bits_add((p ^ w as u32) ^ (q ^ x as u32), r ^ y as u32, 8);
    }
}

/// Checksums add up as their byte strings do, bit by bit without a carry, where
/// an odd number of them is added.
pub proof fn law_checksums_add_up(a: Seq<u8>, b: Seq<u8>, c: Seq<u8>, d: Seq<u8>)
    requires
        a.len() == b.len() == c.len() == d.len(),
        forall|i: int| 0 <= i < a.len() ==> #[trigger] d[i] == a[i] ^ b[i] ^ c[i],
    ensures
        crc32(d) == crc32(a) ^ crc32(b) ^ crc32(c),
{
    lemma_states_add(a, b, c, d);
    let (p, q, r) = (crc_state(a), crc_state(b), crc_state(c));
    assert(!(p ^ q ^ r) == (!p) ^ (!q) ^ (!r)) by (bit_vector);
}

/// The state after one more byte.
pub fn step(crc: u32, byte: u8) -> (next: u32)
    ensures
        next == crc_byte(crc, byte),
{
    let start: u32 = crc ^ (byte as u32);
    let mut state: u32 = start;
    let mut bits: u32 = 0;
    while bits < 8
        invariant
            bits <= 8,
            state == crc_bits(start, bits as nat),
        decreases 8 - bits,
    {
        let lowest: u32 = state & 1;
        assert(lowest == 0 || lowest == 1) by (bit_vector)
            requires
                lowest == state & 1,
        ;
        let mask: u32 = 0u32.wrapping_sub(lowest);
        assert(mask == if lowest == 1 {
            0xffff_ffffu32
        } else {
            0
        });
        assert((state >> 1) ^ (0xedb8_8320u32 & 0xffff_ffffu32) == (state >> 1) ^ 0xedb8_8320u32)
            by (bit_vector);
        assert((state >> 1) ^ (0xedb8_8320u32 & 0u32) == state >> 1) by (bit_vector);
        state = (state >> 1) ^ (0xedb8_8320 & mask);
        bits += 1;
    }
    state
}

} // verus!
