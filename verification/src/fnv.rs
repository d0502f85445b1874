//! The FNV-1a hash.

use vstd::prelude::*;

verus! {

/// The hash of no bytes.
pub const FNV_BASIS: u64 = 0xcbf2_9ce4_8422_2325;

/// The multiplier of each step.
pub const FNV_PRIME: u64 = 0x0000_0100_0000_01b3;

/// One step: the byte is xored in, then the hash is multiplied, modulo 2^64.
pub open spec fn fnv_step(h: u64, b: u8) -> u64 {
    ((h ^ (b as u64)) as int * FNV_PRIME as int % 0x1_0000_0000_0000_0000) as u64
}

/// The FNV-1a hash of the bytes.
pub open spec fn fnv(bytes: Seq<u8>) -> u64
    decreases bytes.len(),
{
    if bytes.len() == 0 {
        FNV_BASIS
    } else {
        fnv_step(fnv(bytes.drop_last()), bytes.last())
    }
}

/// Computes [`fnv_step`].
pub fn fnv_eat(h: u64, b: u8) -> (r: u64)
    ensures
        r == fnv_step(h, b),
{
    (h ^ (b as u64)).wrapping_mul(FNV_PRIME)
}

/// The FNV-1a hash of a byte slice.
pub fn fnv_bytes(bytes: &[u8]) -> (r: u64)
    ensures
        r == fnv(bytes@),
{
    let mut h: u64 = FNV_BASIS;
    let mut i: usize = 0;
    while i < bytes.len()
        invariant
            i <= bytes@.len(),
            h == fnv(bytes@.take(i as int)),
        decreases bytes@.len() - i,
    {
        h = fnv_eat(h, bytes[i]);
        i = i + 1;
        assert(bytes@.take(i as int).drop_last() =~= bytes@.take(i - 1));
    }
    assert(bytes@.take(bytes@.len() as int) =~= bytes@);
    h
}

/// The FNV-1a hash of a string's UTF-8 bytes.
pub fn fnv1a64(s: &str) -> (r: u64)
    ensures
        r == fnv(vstd::utf8::encode_utf8(s@)),
{
    fnv_bytes(s.as_bytes())
}

/// The 4 bytes of `x`, low byte first.
pub open spec fn le4(x: u32) -> Seq<u8> {
    seq![
        (x % 0x100) as u8,
        (x / 0x100 % 0x100) as u8,
        (x / 0x1_0000 % 0x100) as u8,
        (x / 0x100_0000) as u8,
    ]
}

/// Appends the 4 bytes of `x`, low byte first.
pub fn push_le4(out: &mut Vec<u8>, x: u32)
    ensures
        final(out)@ == old(out)@ + le4(x),
{
    out.push((x % 0x100) as u8);
    out.push((x / 0x100 % 0x100) as u8);
    out.push((x / 0x1_0000 % 0x100) as u8);
    out.push((x / 0x100_0000) as u8);
    assert(out@ =~= old(out)@ + le4(x));
}

/// Four bytes determine the number.
pub proof fn lemma_le4_injective(x: u32, y: u32)
    requires
        le4(x) == le4(y),
    ensures
        x == y,
{
    assert(le4(x)[0] == le4(y)[0]);
    assert(le4(x)[1] == le4(y)[1]);
    assert(le4(x)[2] == le4(y)[2]);
    assert(le4(x)[3] == le4(y)[3]);
}

/// The character of a hexadecimal digit, lower case.
pub open spec fn hex_digit(d: int) -> char {
    if d < 10 {
        (48 + d) as char
    } else {
        (87 + d) as char
    }
}

/// The `n` lowest hexadecimal digits of `x`, most significant first.
pub open spec fn hex(x: int, n: nat) -> Seq<char>
    decreases n,
{
    if n == 0 {
        Seq::empty()
    } else {
        hex(x / 16, (n - 1) as nat).push(hex_digit(x % 16))
    }
}

fn hex_char(d: u64) -> (r: char)
    requires
        d < 16,
    ensures
        r == hex_digit(d as int),
{
    if d < 10 {
        let n: u8 = 48 + d as u8;
        n as char
    } else {
        let n: u8 = 87 + d as u8;
        n as char
    }
}

/// Writes the `n` lowest hexadecimal digits of `x`.
pub fn hex_text(x: u64, n: usize) -> (r: String)
    ensures
        r@ == hex(x as int, n as nat),
    decreases n,
{
    if n == 0 {
        String::new()
    } else {
        let mut out = hex_text(x / 16, n - 1);
        out.push(hex_char(x % 16));
        out
    }
}

/// The configuration hash of a text: the 8 hexadecimal digits of the upper half
/// of its FNV-1a hash.
pub open spec fn hash8_of(bytes: Seq<u8>) -> Seq<char> {
    hex(fnv(bytes) as int / 0x1_0000_0000, 8)
}

/// Computes [`hash8_of`] on the UTF-8 bytes of `s`.
pub fn hash8_text(s: &str) -> (r: String)
    ensures
        r@ == hash8_of(vstd::utf8::encode_utf8(s@)),
{
    let h: u64 = fnv1a64(s);
    hex_text(h / 0x1_0000_0000, 8)
}

/// A key has eight digits.
pub proof fn keys_have_eight_digits(bytes: Seq<u8>)
    ensures
        hash8_of(bytes).len() == 8,
{
    lemma_hex_len(fnv(bytes) as int / 0x1_0000_0000, 8);
}

proof fn lemma_hex_len(x: int, n: nat)
    ensures
        hex(x, n).len() == n,
    decreases n,
{
    if n > 0 {
        lemma_hex_len(x / 16, (n - 1) as nat);
    }
}

/// Different numbers that fit have different digits.
pub proof fn digits_tell_numbers_apart(x: int, y: int, n: nat)
    requires
        0 <= x < vstd::arithmetic::power::pow(16, n),
        0 <= y < vstd::arithmetic::power::pow(16, n),
        hex(x, n) == hex(y, n),
    ensures
        x == y,
    decreases n,
{
    if n == 0 {
        vstd::arithmetic::power::lemma_pow0(16);
    } else {
        let m = (n - 1) as nat;
        reveal(vstd::arithmetic::power::pow);
        assert(vstd::arithmetic::power::pow(16, n) == 16 * vstd::arithmetic::power::pow(16, m));
        let (a, b) = (hex(x, n), hex(y, n));
        assert(a.last() == hex_digit(x % 16) && b.last() == hex_digit(y % 16));
        assert(a.drop_last() =~= hex(x / 16, m));
        assert(b.drop_last() =~= hex(y / 16, m));
        digits_tell_numbers_apart(x / 16, y / 16, m);
        assert(hex_digit(x % 16) as int == hex_digit(y % 16) as int);
    }
}

/// Hashing more bytes goes on from the hash of those before.
pub proof fn hashing_goes_on(a: Seq<u8>, b: u8)
    ensures
        fnv(a.push(b)) == fnv_step(fnv(a), b),
        fnv(Seq::<u8>::empty()) == 0xcbf2_9ce4_8422_2325,
{
    assert(a.push(b).drop_last() =~= a);
}

} // verus!
