//! Anonymization hash used when personal data is redacted from log lines.
//!
//! The hash must be deterministic so that the same user or id always maps to
//! the same redacted tag, and it is rendered as eight lowercase hex digits.

use vstd::prelude::*;
use vstd::string::StringSliceAdditionalSpecFns;

verus! {

/// One round of the 33-based string hash: `h * 33 + b`, wrapping at 2^32.
pub open spec fn hash_step(h: u32, b: u8) -> u32 {
    (((h << 5) + h + b) % 0x1_0000_0000) as u32
}

/// The hash of the first `n` bytes of `bytes`, starting from the fixed seed.
pub open spec fn hash_of_prefix(bytes: Seq<u8>, n: int) -> u32
    decreases n,
{
    if n <= 0 {
        5381u32
    } else {
        hash_step(hash_of_prefix(bytes, n - 1), bytes[n - 1])
    }
}

/// The hash of a whole byte string.
pub open spec fn hash_of(bytes: Seq<u8>) -> u32 {
    hash_of_prefix(bytes, bytes.len() as int)
}

/// The lowercase hex digit for a value below 16.
pub open spec fn hex_digit(v: u32) -> char {
    if v == 0 { '0' }
    else if v == 1 { '1' }
    else if v == 2 { '2' }
    else if v == 3 { '3' }
    else if v == 4 { '4' }
    else if v == 5 { '5' }
    else if v == 6 { '6' }
    else if v == 7 { '7' }
    else if v == 8 { '8' }
    else if v == 9 { '9' }
    else if v == 10 { 'a' }
    else if v == 11 { 'b' }
    else if v == 12 { 'c' }
    else if v == 13 { 'd' }
    else if v == 14 { 'e' }
    else { 'f' }
}

/// Eight hex digits of `h`, most significant nibble first.
pub open spec fn hex8(h: u32) -> Seq<char> {
    Seq::new(8, |i: int| hex_digit((h >> (((7 - i) * 4) as u32)) & 0xf))
}

fn hex_digit_str(v: u32) -> (r: &'static str)
    requires
        v < 16,
    ensures
        r@ =~= seq![hex_digit(v)],
{
    proof {
        reveal_strlit("0");
        reveal_strlit("1");
        reveal_strlit("2");
        reveal_strlit("3");
        reveal_strlit("4");
        reveal_strlit("5");
        reveal_strlit("6");
        reveal_strlit("7");
        reveal_strlit("8");
        reveal_strlit("9");
        reveal_strlit("a");
        reveal_strlit("b");
        reveal_strlit("c");
        reveal_strlit("d");
        reveal_strlit("e");
        reveal_strlit("f");
    }
    if v == 0 { "0" }
    else if v == 1 { "1" }
    else if v == 2 { "2" }
    else if v == 3 { "3" }
    else if v == 4 { "4" }
    else if v == 5 { "5" }
    else if v == 6 { "6" }
    else if v == 7 { "7" }
    else if v == 8 { "8" }
    else if v == 9 { "9" }
    else if v == 10 { "a" }
    else if v == 11 { "b" }
    else if v == 12 { "c" }
    else if v == 13 { "d" }
    else if v == 14 { "e" }
    else { "f" }
}

/// Renders `h` as exactly eight lowercase hex digits, zero-padded.
pub fn format_hex8(h: u32) -> (r: String)
    ensures
        r@ == hex8(h),
{
    let mut out = String::new();
    let mut i: usize = 0;
    while i < 8
        invariant
            i <= 8,
            out@ =~= hex8(h).take(i as int),
        decreases 8 - i,
    {
        let shift: u32 = (7 - i as u32) * 4;
        let nib: u32 = (h >> shift) & 0xf;
        assert(nib < 16) by (bit_vector)
            requires
                nib == (h >> shift) & 0xf,
        ;
        out.append(hex_digit_str(nib));
        assert(out@ =~= hex8(h).take(i + 1));
        i = i + 1;
    }
    assert(hex8(h).take(8) =~= hex8(h));
    out
}

/// Deterministic anonymization hash: the same input always yields the same
/// eight-hex-digit tag, so redacted log lines stay correlatable.
pub fn simple_hash(input: &str) -> (r: String)
    ensures
        r@ == hex8(hash_of(input.spec_bytes())),
{
    let bytes = input.as_bytes();
    let mut hash: u32 = 5381;
    let mut i: usize = 0;
    while i < bytes.len()
        invariant
            i <= bytes.len(),
            bytes@ == input.spec_bytes(),
            hash == hash_of_prefix(bytes@, i as int),
        decreases bytes.len() - i,
    {
        let b: u8 = bytes[i];
        let shifted: u32 = hash << 5u32;
        let wide: u64 = shifted as u64 + hash as u64 + b as u64;
        let next: u32 = (wide % 0x1_0000_0000) as u32;
        assert(next == hash_step(hash, b));
        hash = next;
        i = i + 1;
    }
    format_hex8(hash)
}

} // verus!
