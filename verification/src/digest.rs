//! Content digests: BLAKE3 (content comparison, archive signatures) and
//! CRC-32 (archive entries), with lower-case hexadecimal encoding.
use vstd::prelude::*;
use crate::text::push_char;

verus! {

/// What `blake3::hash` returns for some bytes (a 32-byte digest).
pub uninterp spec fn blake3_of(data: Seq<u8>) -> Seq<u8>;

/// `blake3::hash`: the BLAKE3 digest of the bytes, which depends on them alone.
#[verifier::external_body]
fn blake3_digest(data: &[u8]) -> (r: [u8; 32])
    ensures
        r@ == blake3_of(data@),
{
    *blake3::hash(data).as_bytes()
}

/// What `crc32fast::hash` returns for some bytes (their CRC-32).
pub uninterp spec fn crc32_of(data: Seq<u8>) -> u32;

/// `crc32fast::hash`: the CRC-32 of the bytes, which depends on them alone.
#[verifier::external_body]
fn crc32_checksum(data: &[u8]) -> (r: u32)
    ensures
        r == crc32_of(data@),
{
    crc32fast::hash(data)
}

/// The BLAKE3 digest of some content.
pub fn content_digest(data: &[u8]) -> (r: [u8; 32])
    ensures
        r@ == blake3_of(data@),
{
    blake3_digest(data)
}

/// The CRC-32 of some content.
pub fn content_crc(data: &[u8]) -> (r: u32)
    ensures
        r == crc32_of(data@),
{
    crc32_checksum(data)
}

/// The lower-case hexadecimal digit of `d < 16`.
pub open spec fn hex_digit(d: int) -> char {
    if d < 10 {
        ((d + 48) as u32) as char
    } else {
        ((d + 87) as u32) as char
    }
}

/// Bytes in lower-case hexadecimal, two digits per byte, high nibble first.
pub open spec fn hex_of(data: Seq<u8>) -> Seq<char>
    decreases data.len(),
{
    if data.len() == 0 {
        seq![]
    } else {
        hex_of(data.drop_last()).push(hex_digit(data.last() as int / 16)).push(hex_digit(data.last() as int % 16))
    }
}

/// The hexadecimal digit of a nibble.
fn nibble(d: u8) -> (c: char)
    requires
        d < 16,
    ensures
        c == hex_digit(d as int),
{
    match d {
        0 => '0',
        1 => '1',
        2 => '2',
        3 => '3',
        4 => '4',
        5 => '5',
        6 => '6',
        7 => '7',
        8 => '8',
        9 => '9',
        10 => 'a',
        11 => 'b',
        12 => 'c',
        13 => 'd',
        14 => 'e',
        _ => 'f',
    }
}

/// Bytes in lower-case hexadecimal (what `blake3::Hash::to_hex` writes).
pub fn hex_lower(data: &[u8]) -> (r: String)
    ensures
        r@ == hex_of(data@),
{
    let mut r = String::new();
    let n = data.len();
    for i in 0..n
        invariant
            n == data@.len(),
            r@ == hex_of(data@.take(i as int)),
    {
        let b = data[i];
        push_char(&mut r, nibble(b / 16));
        push_char(&mut r, nibble(b % 16));
        assert(data@.take(i + 1).drop_last() =~= data@.take(i as int));
    }
    assert(data@.take(n as int) =~= data@);
    r
}

/// The little-endian bytes of the low `n` bytes of `v`.
pub open spec fn le_bytes(v: nat, n: nat) -> Seq<u8>
    decreases n,
{
    if n == 0 {
        seq![]
    } else {
        seq![(v % 256) as u8] + le_bytes(v / 256, (n - 1) as nat)
    }
}

/// `le_bytes` has `n` bytes.
proof fn lemma_le_bytes_len(v: nat, n: nat)
    ensures
        le_bytes(v, n).len() == n,
    decreases n,
{
    if n > 0 {
        lemma_le_bytes_len(v / 256, (n - 1) as nat);
    }
}

/// Appends the eight little-endian bytes of `v` (`u64::to_le_bytes`).
pub fn push_le_u64(out: &mut Vec<u8>, v: u64)
    ensures
        final(out)@ == old(out)@ + le_bytes(v as nat, 8),
{
    let ghost start = out@;
    let mut x = v;
    let mut k: u64 = 0;
    proof {
        lemma_le_bytes_len(v as nat, 8);
        assert(le_bytes(v as nat, 8).skip(0) =~= le_bytes(v as nat, 8));
        assert(le_bytes(v as nat, 8).take(0) =~= Seq::<u8>::empty());
        assert(out@ =~= start + le_bytes(v as nat, 8).take(0));
    }
    while k < 8
        invariant
            k <= 8,
            le_bytes(v as nat, 8).len() == 8,
            out@ == start + le_bytes(v as nat, 8).take(k as int),
            le_bytes(v as nat, 8).skip(k as int) == le_bytes(x as nat, (8 - k) as nat),
        decreases 8 - k,
    {
        let ghost tail = le_bytes(x as nat, (8 - k) as nat);
        proof {
            assert(tail == seq![(x % 256) as u8] + le_bytes(x as nat / 256, (8 - k - 1) as nat));
            assert(tail[0] == (x % 256) as u8);
            assert(le_bytes(v as nat, 8)[k as int] == le_bytes(v as nat, 8).skip(k as int)[0]);
            assert(le_bytes(v as nat, 8).skip(k + 1) =~= tail.skip(1));
            assert(tail.skip(1) =~= le_bytes(x as nat / 256, (8 - k - 1) as nat));
        }
        out.push((x % 256) as u8);
        proof {
            assert(le_bytes(v as nat, 8).take(k + 1) =~= le_bytes(v as nat, 8).take(k as int).push((x % 256) as u8));
        }
        x = x / 256;
        k = k + 1;
    }
    assert(le_bytes(v as nat, 8).take(8) =~= le_bytes(v as nat, 8));
}

} // verus!
