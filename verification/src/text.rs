//! Character-level string helpers: truncation, hashing and number formatting.

use vstd::prelude::*;
use vstd::string::*;

verus! {

/// Appending one character to a `String` extends its character sequence by that character.
pub assume_specification[ String::push ](string: &mut String, ch: char)
    ensures
        final(string)@ == old(string)@.push(ch),
;

/// The first `max` characters of `s`, or all of `s` when it is shorter.
pub open spec fn trunc(s: Seq<char>, max: nat) -> Seq<char> {
    if s.len() <= max {
        s
    } else {
        s.take(max as int)
    }
}

/// The characters of `s`, in order.
pub fn chars_of(s: &str) -> (v: Vec<char>)
    ensures
        v@ == s@,
{
    broadcast use vstd::string::group_string_axioms;
    let mut v: Vec<char> = Vec::new();
    for c in it: s.chars()
        invariant
            it.seq() == s@,
            v@ == it.seq().take(it.index() as int),
    {
        v.push(c);
        assert(v@ =~= it.seq().take(it.index() + 1));
    }
    assert(v@ =~= s@);
    v
}

/// A `String` holding the given characters.
pub fn string_of(v: &[char]) -> (s: String)
    ensures
        s@ == v@,
{
    let mut s = String::new();
    let mut i: usize = 0;
    while i < v.len()
        invariant
            i <= v.len(),
            s@ == v@.take(i as int),
        decreases v.len() - i,
    {
        s.push(v[i]);
        i = i + 1;
        assert(s@ =~= v@.take(i as int));
    }
    assert(v@.take(i as int) =~= v@);
    s
}

/// Whether `a` holds exactly the characters of `b`.
pub fn eq_str(a: &String, b: &str) -> (r: bool)
    ensures
        r == (a@ == b@),
{
    let t: String = b.to_owned();
    a.eq(&t)
}

/// Keep at most `max` characters of `s` (the cap applied to every stored text field).
pub fn truncate(s: &str, max: usize) -> (r: String)
    ensures
        r@ == trunc(s@, max as nat),
{
    let n = s.unicode_len();
    if n <= max {
        s.to_owned()
    } else {
        s.substring_char(0, max).to_owned()
    }
}

/// Offset basis of 64-bit FNV-1a.
pub const FNV_OFFSET: u64 = 0xcbf2_9ce4_8422_2325;

/// Prime of 64-bit FNV-1a.
pub const FNV_PRIME: u64 = 0x100_0000_01b3;

/// 64-bit FNV-1a over a byte sequence: xor each byte in, then multiply by the prime modulo 2^64.
pub open spec fn fnv1a(bytes: Seq<u8>) -> u64
    decreases bytes.len(),
{
    if bytes.len() == 0 {
        FNV_OFFSET
    } else {
        (fnv1a(bytes.drop_last()) ^ (bytes.last() as u64)).wrapping_mul(FNV_PRIME)
    }
}

/// FNV-1a hash of the UTF-8 encoding of `s`.
pub fn simple_hash(s: &str) -> (h: u64)
    ensures
        h == fnv1a(s.spec_bytes()),
{
    let bytes = s.as_bytes();
    let mut h: u64 = FNV_OFFSET;
    let mut i: usize = 0;
    while i < bytes.len()
        invariant
            i <= bytes@.len(),
            bytes@ == s.spec_bytes(),
            h == fnv1a(bytes@.take(i as int)),
        decreases bytes@.len() - i,
    {
        let b: u8 = bytes[i];
        assert(bytes@.take(i + 1).drop_last() =~= bytes@.take(i as int));
        h = (h ^ (b as u64)).wrapping_mul(FNV_PRIME);
        i = i + 1;
    }
    assert(bytes@.take(i as int) =~= bytes@);
    h
}

/// The ASCII character of a digit below 16: `0`-`9`, then `a`-`f`.
pub open spec fn digit_char(d: nat) -> char {
    if d < 10 {
        ((d + 48) as u8) as char
    } else {
        ((d + 87) as u8) as char
    }
}

fn digit_char_exec(d: u64) -> (c: char)
    requires
        d < 16,
    ensures
        c == digit_char(d as nat),
{
    if d < 10 {
        ((d as u8) + 48u8) as char
    } else {
        ((d as u8) + 87u8) as char
    }
}

/// Decimal digits of `n`, most significant first, without leading zeros.
pub open spec fn decimal(n: nat) -> Seq<char>
    decreases n,
{
    if n < 10 {
        seq![digit_char(n)]
    } else {
        decimal(n / 10).push(digit_char(n % 10))
    }
}

fn decimal_chars(n: u64) -> (v: Vec<char>)
    ensures
        v@ == decimal(n as nat),
    decreases n,
{
    if n < 10 {
        let mut v: Vec<char> = Vec::new();
        v.push(digit_char_exec(n));
        assert(v@ =~= seq![digit_char(n as nat)]);
        v
    } else {
        let mut v = decimal_chars(n / 10);
        v.push(digit_char_exec(n % 10));
        v
    }
}

/// The decimal text of `n`.
pub fn u64_to_decimal(n: u64) -> (s: String)
    ensures
        s@ == decimal(n as nat),
{
    let v = decimal_chars(n);
    string_of(v.as_slice())
}

/// The lowest `width` hexadecimal digits of `n`, zero-padded, most significant first.
pub open spec fn hex_width(n: nat, width: nat) -> Seq<char>
    decreases width,
{
    if width == 0 {
        Seq::empty()
    } else {
        hex_width(n / 16, (width - 1) as nat).push(digit_char(n % 16))
    }
}

/// `hex_width(n, w)` has exactly `w` digits.
pub proof fn lemma_hex_width_len(n: nat, w: nat)
    ensures
        hex_width(n, w).len() == w,
    decreases w,
{
    if w > 0 {
        lemma_hex_width_len(n / 16, (w - 1) as nat);
    }
}

fn hex_chars(n: u64, width: usize) -> (v: Vec<char>)
    ensures
        v@ == hex_width(n as nat, width as nat),
    decreases width,
{
    if width == 0 {
        Vec::new()
    } else {
        let mut v = hex_chars(n / 16, width - 1);
        v.push(digit_char_exec(n % 16));
        v
    }
}

/// `n` as sixteen lowercase hexadecimal digits.
pub fn hex16(n: u64) -> (s: String)
    ensures
        s@ == hex_width(n as nat, 16),
{
    let v = hex_chars(n, 16);
    string_of(v.as_slice())
}

} // verus!
