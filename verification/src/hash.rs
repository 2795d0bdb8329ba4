//! Content hashes for output file names: 64-bit FNV-1a, as 16 lowercase hex digits.
use vstd::prelude::*;

use crate::text::string_push;

verus! {

pub open spec fn fnv_offset() -> u64 {
    0xcbf29ce484222325
}

pub open spec fn fnv_prime() -> u64 {
    0x0100_0000_01b3
}

/// FNV-1a over `bytes`: xor each byte in, then multiply by the prime, modulo 2^64.
pub open spec fn fnv1a(bytes: Seq<u8>) -> u64
    decreases bytes.len(),
{
    if bytes.len() == 0 {
        fnv_offset()
    } else {
        vstd::wrapping::u64_specs::wrapping_mul(
            fnv1a(bytes.drop_last()) ^ (bytes.last() as u64),
            fnv_prime(),
        )
    }
}

/// The lowercase hex digit for `d < 16`.
pub open spec fn hex_digit(d: u64) -> char {
    if d < 10 {
        (48 + d) as char
    } else {
        (87 + d) as char
    }
}

/// `format!("{h:016x}")`: the 16 hex digits of `h`, most significant first.
pub open spec fn hex16(h: u64) -> Seq<char> {
    Seq::new(16, |i: int| hex_digit((h >> ((60 - 4 * i) as u64)) & 0xf))
}

pub open spec fn is_lower_hex(c: char) -> bool {
    ('0' <= c && c <= '9') || ('a' <= c && c <= 'f')
}

fn hex_digit_char(d: u64) -> (c: char)
    requires
        d < 16,
    ensures
        c == hex_digit(d),
        is_lower_hex(c),
{
    let b: u8 = d as u8;
    if b < 10 {
        (48 + b) as char
    } else {
        (87 + b) as char
    }
}

/// std-only FNV-1a 64-bit hash, formatted as 16 hex chars.
pub fn hash_create(bytes: &[u8]) -> (r: String)
    ensures
        r@ == hex16(fnv1a(bytes@)),
        r@.len() == 16,
        forall|i: int| 0 <= i < 16 ==> is_lower_hex(#[trigger] r@[i]),
{
    let mut hash: u64 = 0xcbf29ce484222325;
    let mut i: usize = 0;
    while i < bytes.len()
        invariant
            i <= bytes@.len(),
            hash == fnv1a(bytes@.take(i as int)),
        decreases bytes.len() - i,
    {
        assert(bytes@.take(i + 1).drop_last() =~= bytes@.take(i as int));
        hash = hash ^ (bytes[i] as u64);
        hash = hash.wrapping_mul(0x0100_0000_01b3);
        i = i + 1;
    }
    assert(bytes@.take(bytes@.len() as int) =~= bytes@);
    let mut r = String::new();
    let mut k: usize = 0;
    while k < 16
        invariant
            k <= 16,
            r@ == hex16(hash).take(k as int),
            forall|j: int| 0 <= j < k ==> is_lower_hex(#[trigger] r@[j]),
        decreases 16 - k,
    {
        let shift: u64 = 60 - 4 * (k as u64);
        let d = (hash >> shift) & 0xf;
        assert(d < 16) by (bit_vector)
            requires
                d == (hash >> shift) & 0xf,
        ;
        let c = hex_digit_char(d);
        string_push(&mut r, c);
        k = k + 1;
        assert(r@ =~= hex16(hash).take(k as int));
    }
    assert(hex16(hash).take(16) =~= hex16(hash));
    r
}

} // verus!
