//! Bit-level packing: a '0'/'1' character string becomes a byte buffer
//! headed by its exact bit count (4 bytes, big-endian), bits placed
//! most-significant-bit first, the final byte zero-padded. Unpacking reads
//! the header, unrolls the bytes and truncates to the recorded count, so
//! the padding never reaches the decoder.

use vstd::prelude::*;

verus! {

/// The numeric value (0 or 1) of bit `i` of a bit string; positions past
/// the end count as 0, which models the zero padding.
pub open spec fn bit_val(bits: Seq<char>, i: int) -> u8 {
    if 0 <= i < bits.len() && bits[i] == '1' {
        1
    } else {
        0
    }
}

/// Byte `k` of the packed body: bits `8k..8k+8`, most significant first.
pub open spec fn pack_byte(bits: Seq<char>, k: int) -> u8 {
    (bit_val(bits, 8 * k) * 128 + bit_val(bits, 8 * k + 1) * 64 + bit_val(bits, 8 * k + 2) * 32
        + bit_val(bits, 8 * k + 3) * 16 + bit_val(bits, 8 * k + 4) * 8 + bit_val(bits, 8 * k + 5)
        * 4 + bit_val(bits, 8 * k + 6) * 2 + bit_val(bits, 8 * k + 7)) as u8
}

/// The four big-endian bytes of a 32-bit value.
pub open spec fn spec_be32(n: u32) -> Seq<u8> {
    seq![(n >> 24) as u8, (n >> 16) as u8, (n >> 8) as u8, n as u8]
}

/// The 32-bit value read from four big-endian bytes.
pub open spec fn spec_from_be32(b: Seq<u8>) -> u32
    recommends
        b.len() == 4,
{
    ((b[0] as int) * 0x1000000 + (b[1] as int) * 0x10000 + (b[2] as int) * 0x100 + (
    b[3] as int)) as u32
}

/// The full packed form: bit-count header, then the packed body of
/// `ceil(len / 8)` bytes.
pub open spec fn spec_pack(bits: Seq<char>, n: u32) -> Seq<u8> {
    spec_be32(n) + Seq::new(((bits.len() + 7) / 8) as nat, |k: int| pack_byte(bits, k))
}

/// The character of bit `j` (0 = most significant) of a byte.
pub open spec fn byte_bit(b: u8, j: int) -> char
    recommends
        0 <= j < 8,
{
    if (b >> ((7 - j) as u8)) & 1 == 1 {
        '1'
    } else {
        '0'
    }
}

/// The bit string recovered from a packed buffer: every data bit in
/// order, truncated to the count the header records (or to the data that
/// is really there, where a corrupt header claims more).
pub open spec fn spec_unpack(bytes: Seq<u8>) -> Seq<char>
    recommends
        bytes.len() >= 4,
{
    let n = spec_from_be32(bytes.take(4)) as int;
    let avail = 8 * (bytes.len() - 4);
    let m = if n <= avail {
        n
    } else {
        avail
    };
    Seq::new(m as nat, |i: int| byte_bit(bytes[4 + i / 8], i % 8))
}

/// Every character is '0' or '1'.
pub open spec fn is_bit_string(s: Seq<char>) -> bool {
    forall|i: int| 0 <= i < s.len() ==> (#[trigger] s[i]) == '0' || s[i] == '1'
}

/// The value of bit `base + off` of `bit_str`, 0 past the end.
fn read_bit(bit_str: &str, n: usize, base: usize, off: usize) -> (r: u8)
    requires
        n == bit_str@.len(),
        base <= n,
    ensures
        r == bit_val(bit_str@, base + off),
{
    if n - base > off {
        let c = bit_str.get_char(base + off);
        if c == '1' {
            1
        } else {
            0
        }
    } else {
        0
    }
}

/// Packs a '0'/'1' string into bytes behind a 4-byte big-endian header
/// holding `length`, the exact number of meaningful bits. The output is
/// `4 + ceil(length / 8)` bytes; the final byte's unused low bits are 0.
pub fn pack_bits(bit_str: &str, length: usize) -> (r: Vec<u8>)
    requires
        length == bit_str@.len(),
        length <= u32::MAX,
    ensures
        r@ == spec_pack(bit_str@, length as u32),
        r@.len() == 4 + (length + 7) / 8,
{
    let n32: u32 = length as u32;
    let mut bytes: Vec<u8> = Vec::new();
    bytes.push(#[verifier::truncate] ((n32 >> 24) as u8));
    bytes.push(#[verifier::truncate] ((n32 >> 16) as u8));
    bytes.push(#[verifier::truncate] ((n32 >> 8) as u8));
    bytes.push(#[verifier::truncate] (n32 as u8));
    let num_bytes: usize = length / 8 + if length % 8 != 0 {
        1
    } else {
        0
    };
    proof {
        assert(bytes@.take(4) =~= spec_be32(n32));
    }
    let mut k: usize = 0;
    while k < num_bytes
        invariant
            n32 == length as u32,
            num_bytes == (length + 7) / 8,
            length == bit_str@.len(),
            length <= u32::MAX,
            k <= num_bytes,
            bytes@.len() == 4 + k,
            bytes@.take(4) == spec_be32(n32),
            forall|q: int| 0 <= q < k ==> bytes@[4 + q] == pack_byte(bit_str@, q),
        decreases num_bytes - k,
    {
        let base: usize = 8 * k;
        let b0 = read_bit(bit_str, length, base, 0);
        let b1 = read_bit(bit_str, length, base, 1);
        let b2 = read_bit(bit_str, length, base, 2);
        let b3 = read_bit(bit_str, length, base, 3);
        let b4 = read_bit(bit_str, length, base, 4);
        let b5 = read_bit(bit_str, length, base, 5);
        let b6 = read_bit(bit_str, length, base, 6);
        let b7 = read_bit(bit_str, length, base, 7);
        let byte: u8 = b0 * 128 + b1 * 64 + b2 * 32 + b3 * 16 + b4 * 8 + b5 * 4 + b6 * 2 + b7;
        bytes.push(byte);
        k += 1;
    }
    proof {
        assert(bytes@ =~= spec_pack(bit_str@, length as u32));
    }
    bytes
}

/// Reads the 4-byte big-endian header and unpacks the remaining bytes
/// most-significant-bit first, truncated to the recorded bit count.
/// Returns the bit string and the recorded count.
pub fn unpack_bits(packed_bytes: &[u8]) -> (r: (String, usize))
    requires
        packed_bytes@.len() >= 4,
    ensures
        r.0@ == spec_unpack(packed_bytes@),
        r.1 == spec_from_be32(packed_bytes@.take(4)),
{
    let b0 = packed_bytes[0];
    let b1 = packed_bytes[1];
    let b2 = packed_bytes[2];
    let b3 = packed_bytes[3];
    let n: u32 = (b0 as u32) * 0x1000000 + (b1 as u32) * 0x10000 + (b2 as u32) * 0x100 + (
    b3 as u32);
    proof {
        assert(packed_bytes@.take(4)[0] == packed_bytes@[0]);
        assert(packed_bytes@.take(4)[1] == packed_bytes@[1]);
        assert(packed_bytes@.take(4)[2] == packed_bytes@[2]);
        assert(packed_bytes@.take(4)[3] == packed_bytes@[3]);
        assert(n == spec_from_be32(packed_bytes@.take(4)));
    }
    let data_len: usize = packed_bytes.len() - 4;
    // the number of bits really present, capped by the header's count
    let need_bytes: usize = (n / 8) as usize + if n % 8 != 0 {
        1
    } else {
        0
    };
    let m: usize = if data_len >= need_bytes {
        n as usize
    } else {
        8 * data_len
    };
    proof {
        let avail = 8 * (packed_bytes@.len() - 4);
        assert(m == if n <= avail {
            n as int
        } else {
            avail
        });
    }
    let mut bit_str = String::new();
    let mut i: usize = 0;
    while i < m
        invariant
            m == spec_unpack(packed_bytes@).len(),
            packed_bytes@.len() >= 4,
            8 * ((m - 1) / 8) < 8 * (packed_bytes@.len() - 4),
            i <= m,
            bit_str@ == spec_unpack(packed_bytes@).take(i as int),
        decreases m - i,
    {
        let byte = packed_bytes[4 + i / 8];
        let j: u8 = (i % 8) as u8;
        let bit = (byte >> ((7 - j) as u8)) & 1;
        if bit == 1 {
            bit_str.append("1");
        } else {
            bit_str.append("0");
        }
        proof {
            reveal_strlit("0");
            reveal_strlit("1");
            assert(byte_bit(packed_bytes@[4 + i / 8], i as int % 8) == if bit == 1 {
                '1'
            } else {
                '0'
            });
            assert(bit_str@ =~= spec_unpack(packed_bytes@).take(i + 1));
        }
        i += 1;
    }
    proof {
        assert(spec_unpack(packed_bytes@).take(m as int) =~= spec_unpack(packed_bytes@));
    }
    (bit_str, n as usize)
}

/// Each bit written into a packed byte is read back from its position.
proof fn lemma_byte_bits(v0: u8, v1: u8, v2: u8, v3: u8, v4: u8, v5: u8, v6: u8, v7: u8, b: u8)
    requires
        v0 <= 1 && v1 <= 1 && v2 <= 1 && v3 <= 1 && v4 <= 1 && v5 <= 1 && v6 <= 1 && v7 <= 1,
        b == v0 * 128 + v1 * 64 + v2 * 32 + v3 * 16 + v4 * 8 + v5 * 4 + v6 * 2 + v7,
    ensures
        (b >> 7u8) & 1 == v0,
        (b >> 6u8) & 1 == v1,
        (b >> 5u8) & 1 == v2,
        (b >> 4u8) & 1 == v3,
        (b >> 3u8) & 1 == v4,
        (b >> 2u8) & 1 == v5,
        (b >> 1u8) & 1 == v6,
        (b >> 0u8) & 1 == v7,
{
    assert((b >> 7u8) & 1 == v0 && (b >> 6u8) & 1 == v1 && (b >> 5u8) & 1 == v2 && (b >> 4u8) & 1
        == v3 && (b >> 3u8) & 1 == v4 && (b >> 2u8) & 1 == v5 && (b >> 1u8) & 1 == v6 && (b >> 0u8)
        & 1 == v7) by (bit_vector)
        requires
            v0 <= 1 && v1 <= 1 && v2 <= 1 && v3 <= 1 && v4 <= 1 && v5 <= 1 && v6 <= 1 && v7 <= 1,
            b == v0 * 128 + v1 * 64 + v2 * 32 + v3 * 16 + v4 * 8 + v5 * 4 + v6 * 2 + v7,
    ;
}

/// The header's four big-endian bytes read back as the value written.
pub proof fn lemma_be32_roundtrip(n: u32)
    ensures
        spec_from_be32(spec_be32(n)) == n,
{
    let b0 = (n >> 24) as u8;
    let b1 = (n >> 16) as u8;
    let b2 = (n >> 8) as u8;
    let b3 = n as u8;
    assert((b0 as int) * 0x1000000 + (b1 as int) * 0x10000 + (b2 as int) * 0x100 + (b3 as int)
        == n) by (bit_vector)
        requires
            b0 == (n >> 24) as u8 && b1 == (n >> 16) as u8 && b2 == (n >> 8) as u8 && b3
                == n as u8,
    ;
}

/// Round trip: unpacking a packed bit string returns the same bits and
/// the same count, for every '0'/'1' string whose length fits the header,
/// including lengths that are not byte multiples and length 0.
pub proof fn lemma_pack_unpack_roundtrip(bits: Seq<char>)
    requires
        bits.len() <= u32::MAX,
        is_bit_string(bits),
    ensures
        spec_unpack(spec_pack(bits, bits.len() as u32)) == bits,
        spec_from_be32(spec_pack(bits, bits.len() as u32).take(4)) == bits.len(),
{
    let n = bits.len() as u32;
    let packed = spec_pack(bits, n);
    assert(packed.take(4) =~= spec_be32(n));
    lemma_be32_roundtrip(n);
    let body_len = ((bits.len() + 7) / 8) as int;
    assert(packed.len() - 4 == body_len);
    assert(bits.len() <= 8 * body_len);
    let u = spec_unpack(packed);
    assert(u.len() == bits.len());
    assert forall|i: int| 0 <= i < bits.len() implies u[i] == bits[i] by {
        let k = i / 8;
        let j = i % 8;
        assert(packed[4 + k] == pack_byte(bits, k));
        lemma_byte_bits(
            bit_val(bits, 8 * k),
            bit_val(bits, 8 * k + 1),
            bit_val(bits, 8 * k + 2),
            bit_val(bits, 8 * k + 3),
            bit_val(bits, 8 * k + 4),
            bit_val(bits, 8 * k + 5),
            bit_val(bits, 8 * k + 6),
            bit_val(bits, 8 * k + 7),
            pack_byte(bits, k),
        );
        assert(8 * k + j == i);
        assert(u[i] == byte_bit(pack_byte(bits, k), j));
        assert((pack_byte(bits, k) >> ((7 - j) as u8)) & 1 == bit_val(bits, i));
    }
    assert(u =~= bits);
}

} // verus!
