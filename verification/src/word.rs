//! Payloads as 64-bit words: the big-endian reading of eight bytes.

use vstd::prelude::*;

verus! {

/// The eight bytes of `x`, most significant first.
pub open spec fn be_seq(x: u64) -> Seq<u8> {
    seq![
        (x >> 56) as u8,
        (x >> 48) as u8,
        (x >> 40) as u8,
        (x >> 32) as u8,
        (x >> 24) as u8,
        (x >> 16) as u8,
        (x >> 8) as u8,
        x as u8,
    ]
}

/// The word that eight bytes spell, most significant first.
pub open spec fn be_word(s: Seq<u8>) -> u64
    recommends
        s.len() == 8,
{
    (s[0] as u64) << 56 | (s[1] as u64) << 48 | (s[2] as u64) << 40 | (s[3] as u64) << 32 | (
    s[4] as u64) << 24 | (s[5] as u64) << 16 | (s[6] as u64) << 8 | (s[7] as u64)
}

/// Byte by byte exclusive or of two strings of equal length.
pub open spec fn xor_bytes(a: Seq<u8>, b: Seq<u8>) -> Seq<u8>
    recommends
        a.len() == b.len(),
{
    Seq::new(a.len(), |i: int| a[i] ^ b[i])
}

/// Reading back the bytes of a word gives the word.
pub proof fn lemma_word_of_bytes(x: u64)
    ensures
        be_seq(x).len() == 8,
        be_word(be_seq(x)) == x,
{
    let s = be_seq(x);
    assert(((x >> 56) as u8 as u64) << 56 | ((x >> 48) as u8 as u64) << 48 | ((x >> 40) as u8 as u64)
        << 40 | ((x >> 32) as u8 as u64) << 32 | ((x >> 24) as u8 as u64) << 24 | ((x >> 16) as u8 as u64)
        << 16 | ((x >> 8) as u8 as u64) << 8 | (x as u8 as u64) == x) by (bit_vector);
}

/// Writing out the word that eight bytes spell gives the bytes.
pub proof fn lemma_bytes_of_word(s: Seq<u8>)
    requires
        s.len() == 8,
    ensures
        be_seq(be_word(s)) == s,
{
    let (a, b, c, d, e, f, g, h) = (s[0], s[1], s[2], s[3], s[4], s[5], s[6], s[7]);
    let x = be_word(s);
    assert(x == (a as u64) << 56 | (b as u64) << 48 | (c as u64) << 40 | (d as u64) << 32 | (
    e as u64) << 24 | (f as u64) << 16 | (g as u64) << 8 | (h as u64));
    assert({
        let x = (a as u64) << 56 | (b as u64) << 48 | (c as u64) << 40 | (d as u64) << 32 | (
        e as u64) << 24 | (f as u64) << 16 | (g as u64) << 8 | (h as u64);
        &&& (x >> 56) as u8 == a
        &&& (x >> 48) as u8 == b
        &&& (x >> 40) as u8 == c
        &&& (x >> 32) as u8 == d
        &&& (x >> 24) as u8 == e
        &&& (x >> 16) as u8 == f
        &&& (x >> 8) as u8 == g
        &&& x as u8 == h
    }) by (bit_vector);
    assert(be_seq(x) =~= s);
}

/// The bytes of an exclusive or are the exclusive or of the bytes.
pub proof fn lemma_xor_bytes(x: u64, y: u64)
    ensures
        be_seq(x ^ y) == xor_bytes(be_seq(x), be_seq(y)),
{
    assert({
        &&& ((x ^ y) >> 56) as u8 == ((x >> 56) as u8) ^ ((y >> 56) as u8)
        &&& ((x ^ y) >> 48) as u8 == ((x >> 48) as u8) ^ ((y >> 48) as u8)
        &&& ((x ^ y) >> 40) as u8 == ((x >> 40) as u8) ^ ((y >> 40) as u8)
        &&& ((x ^ y) >> 32) as u8 == ((x >> 32) as u8) ^ ((y >> 32) as u8)
        &&& ((x ^ y) >> 24) as u8 == ((x >> 24) as u8) ^ ((y >> 24) as u8)
        &&& ((x ^ y) >> 16) as u8 == ((x >> 16) as u8) ^ ((y >> 16) as u8)
        &&& ((x ^ y) >> 8) as u8 == ((x >> 8) as u8) ^ ((y >> 8) as u8)
        &&& (x ^ y) as u8 == (x as u8) ^ (y as u8)
    }) by (bit_vector);
    assert(be_seq(x ^ y) =~= xor_bytes(be_seq(x), be_seq(y)));
}

/// The eight bytes of `x`, most significant first.
pub fn word_to_be(x: u64) -> (out: Vec<u8>)
    ensures
        out@ == be_seq(x),
        out@.len() == 8,
{
    let mut out: Vec<u8> = Vec::with_capacity(8);
    out.push((x >> 56) as u8);
    out.push((x >> 48) as u8);
    out.push((x >> 40) as u8);
    out.push((x >> 32) as u8);
    out.push((x >> 24) as u8);
    out.push((x >> 16) as u8);
    out.push((x >> 8) as u8);
    out.push(x as u8);
    assert(out@ =~= be_seq(x));
    out
}

/// The word that the eight bytes of `data` spell, most significant first.
pub fn word_from_be(data: &Vec<u8>) -> (x: u64)
    requires
        data@.len() == 8,
    ensures
        x == be_word(data@),
{
    (data[0] as u64) << 56 | (data[1] as u64) << 48 | (data[2] as u64) << 40 | (data[3] as u64)
        << 32 | (data[4] as u64) << 24 | (data[5] as u64) << 16 | (data[6] as u64) << 8 | (
    data[7] as u64)
}


/// The character of a decimal digit.
pub open spec fn digit(d: nat) -> char
    recommends
        d < 10,
{
    if d == 0 {
        '0'
    } else if d == 1 {
        '1'
    } else if d == 2 {
        '2'
    } else if d == 3 {
        '3'
    } else if d == 4 {
        '4'
    } else if d == 5 {
        '5'
    } else if d == 6 {
        '6'
    } else if d == 7 {
        '7'
    } else if d == 8 {
        '8'
    } else {
        '9'
    }
}

/// A number in decimal, without leading zeros.
pub open spec fn decimal(n: nat) -> Seq<char>
    decreases n,
{
    if n < 10 {
        seq![digit(n)]
    } else {
        decimal(n / 10).push(digit(n % 10))
    }
}

/// The text of a decimal digit.
fn digit_text(d: u64) -> (text: &'static str)
    requires
        d < 10,
    ensures
        text@ == seq![digit(d as nat)],
{
    proof {
        reveal_strlit("0");
        reveal_strlit("1");
        reveal_strlit("2");
        reveal_strlit("3");
        reveal_strlit("4");
        reveal_strlit("5");
        reveal_strlit("6");
        reveal_strlit("7");
        reveal_strlit("8");
        reveal_strlit("9");
    }
    let text = if d == 0 {
        "0"
    } else if d == 1 {
        "1"
    } else if d == 2 {
        "2"
    } else if d == 3 {
        "3"
    } else if d == 4 {
        "4"
    } else if d == 5 {
        "5"
    } else if d == 6 {
        "6"
    } else if d == 7 {
        "7"
    } else if d == 8 {
        "8"
    } else {
        "9"
    };
    assert(text@ =~= seq![digit(d as nat)]);
    text
}

/// Writes `n` in decimal at the end of `s`.
pub fn push_decimal(s: &mut String, n: u64)
    ensures
        final(s)@ == old(s)@ + decimal(n as nat),
    decreases n,
{
    if n >= 10 {
        push_decimal(s, n / 10);
    }
    let ghost before = s@;
    vstd::string::StringExecFns::append(s, digit_text(n % 10));
    proof {
        if n >= 10 {
            assert(s@ =~= old(s)@ + decimal((n / 10) as nat).push(digit((n % 10) as nat)));
        } else {
            assert(s@ =~= old(s)@ + seq![digit(n as nat)]);
        }
    }
}

} // verus!
