//! A demonstration string digest.
//!
//! The digest is an illustration only. It has no salt and resists neither
//! brute force nor constructed collisions: it must never stand in for a
//! password hash on a real authentication path.

use vstd::arithmetic::div_mod::{lemma_breakdown, lemma_small_mod};
use vstd::arithmetic::power::{lemma_pow_positive, pow};
use vstd::prelude::*;
use vstd::utf8::encode_utf8;

verus! {

/// One update of the accumulator: times 31, plus the byte, plus the byte's
/// position, modulo 2^64.
pub open spec fn absorb_byte(accumulator: u64, byte: u8, position: nat) -> u64 {
    ((accumulator * 31 + byte + position) % 0x1_0000_0000_0000_0000) as u64
}

/// The accumulator after the first `count` bytes of `bytes` have been
/// absorbed in order.
pub open spec fn absorb_prefix(accumulator: u64, bytes: Seq<u8>, count: nat) -> u64
    decreases count,
{
    if count == 0 {
        accumulator
    } else {
        absorb_byte(
            absorb_prefix(accumulator, bytes, (count - 1) as nat),
            bytes[count - 1],
            (count - 1) as nat,
        )
    }
}

/// The accumulator after `iterations` passes over `bytes`, starting from 0.
pub open spec fn accumulate(bytes: Seq<u8>, iterations: nat) -> u64
    decreases iterations,
{
    if iterations == 0 {
        0
    } else {
        absorb_prefix(accumulate(bytes, (iterations - 1) as nat), bytes, bytes.len())
    }
}

/// The lowercase hexadecimal digit for a value below 16.
pub open spec fn hex_digit(digit: nat) -> char {
    seq!['0', '1', '2', '3', '4', '5', '6', '7', '8', '9', 'a', 'b', 'c', 'd', 'e', 'f'][digit as int]
}

/// Whether `c` is one of `0`-`9` or `a`-`f`.
pub open spec fn is_lower_hex(c: char) -> bool {
    ('0' <= c && c <= '9') || ('a' <= c && c <= 'f')
}

/// `value` written in base 16 with exactly `width` lowercase digits, most
/// significant first: padded with zeros on the left, and cut to its low
/// `width` digits where it has more.
pub open spec fn hex_digits(value: nat, width: nat) -> Seq<char>
    decreases width,
{
    if width == 0 {
        Seq::empty()
    } else {
        hex_digits(value / 16, (width - 1) as nat).push(hex_digit(value % 16))
    }
}

/// The digest text of a password given by its characters: the accumulator
/// over the password's UTF-8 bytes, in 16 lowercase hexadecimal digits.
pub open spec fn password_digest(password: Seq<char>, iterations: nat) -> Seq<char> {
    hex_digits(accumulate(encode_utf8(password), iterations) as nat, 16)
}

/// The value of one lowercase hexadecimal digit.
pub open spec fn digit_value(c: char) -> nat {
    if '0' <= c && c <= '9' {
        (c as nat - '0' as nat) as nat
    } else {
        (c as nat - 'a' as nat + 10) as nat
    }
}

/// The number that a sequence of lowercase hexadecimal digits denotes.
pub open spec fn hex_value(digits: Seq<char>) -> nat
    decreases digits.len(),
{
    if digits.len() == 0 {
        0
    } else {
        16 * hex_value(digits.drop_last()) + digit_value(digits.last())
    }
}

/// The digest of `password` after `iterations` passes: the accumulator over
/// the password's UTF-8 bytes, written as 16 lowercase hexadecimal digits.
///
/// The digest is a function of the two arguments and of nothing else, so the
/// same password and count always give the same text. An empty password or a
/// count of 0 gives sixteen zeros.
///
/// This is a demonstration, not a security primitive: never use it to store
/// or check real passwords.
pub fn hash_password(password: String, iterations: u32) -> (digest: String)
    ensures
        digest@ == password_digest(password@, iterations as nat),
        digest@.len() == 16,
        forall|i: int| 0 <= i < 16 ==> is_lower_hex(#[trigger] digest@[i]),
        password@.len() == 0 || iterations == 0 ==> digest@ == "0000000000000000"@,
{
    let accumulator: u64 = hash_bytes(password.as_str().as_bytes(), iterations);
    proof {
        if password@.len() == 0 || iterations == 0 {
            lemma_nothing_absorbed(encode_utf8(password@), iterations as nat);
            lemma_zero_text();
        }
    }
    to_hex(accumulator)
}

/// Runs `iterations` passes over `bytes`, each absorbing every byte with its
/// position into a 64-bit accumulator that starts at 0 and wraps on overflow.
pub fn hash_bytes(bytes: &[u8], iterations: u32) -> (accumulator: u64)
    ensures
        accumulator == accumulate(bytes@, iterations as nat),
{
    let mut hash: u64 = 0;
    let mut round: u32 = 0;
    while round < iterations
        invariant
            round <= iterations,
            hash == accumulate(bytes@, round as nat),
        decreases iterations - round,
    {
        let ghost start = hash;
        let mut position: usize = 0;
        while position < bytes.len()
            invariant
                position <= bytes.len(),
                hash == absorb_prefix(start, bytes@, position as nat),
            decreases bytes.len() - position,
        {
            hash = absorb(hash, bytes[position], position);
            position += 1;
        }
        round += 1;
    }
    hash
}

/// Absorbs one byte: the multiplication and both additions each wrap on
/// overflow.
fn absorb(accumulator: u64, byte: u8, position: usize) -> (next: u64)
    ensures
        next == absorb_byte(accumulator, byte, position as nat),
{
    let scaled: u64 = accumulator.wrapping_mul(31);
    let with_byte: u64 = scaled.wrapping_add(byte as u64);
    let next: u64 = with_byte.wrapping_add(position as u64);
    proof {
        assert(scaled == (accumulator * 31) % 0x1_0000_0000_0000_0000);
        assert(with_byte == (scaled + byte) % 0x1_0000_0000_0000_0000);
        assert(next == (with_byte + position) % 0x1_0000_0000_0000_0000);
        lemma_stepwise_reduction(accumulator as int, byte as int, position as int);
    }
    next
}

/// `value` as exactly 16 lowercase hexadecimal digits, padded with zeros on
/// the left.
pub fn to_hex(value: u64) -> (text: String)
    ensures
        text@ == hex_digits(value as nat, 16),
        text@.len() == 16,
        forall|i: int| 0 <= i < 16 ==> is_lower_hex(#[trigger] text@[i]),
{
    let mut text = String::new();
    append_hex(&mut text, value, 16);
    proof {
        lemma_hex_digits_shape(value as nat, 16);
        assert(text@ =~= hex_digits(value as nat, 16));
    }
    text
}

/// Appends the low `width` hexadecimal digits of `value` to `text`, most
/// significant first.
fn append_hex(text: &mut String, value: u64, width: u32)
    ensures
        final(text)@ == old(text)@ + hex_digits(value as nat, width as nat),
    decreases width,
{
    if width > 0 {
        append_hex(text, value / 16, width - 1);
        text.append(hex_digit_text((value % 16) as u8));
        assert(final(text)@ =~= old(text)@ + hex_digits(value as nat, width as nat));
    } else {
        assert(text@ =~= old(text)@ + hex_digits(value as nat, width as nat));
    }
}

/// The one-character text of the hexadecimal digit for `digit`.
fn hex_digit_text(digit: u8) -> (text: &'static str)
    requires
        digit < 16,
    ensures
        text@ == seq![hex_digit(digit as nat)],
{
    let text = match digit {
        0 => "0",
        1 => "1",
        2 => "2",
        3 => "3",
        4 => "4",
        5 => "5",
        6 => "6",
        7 => "7",
        8 => "8",
        9 => "9",
        10 => "a",
        11 => "b",
        12 => "c",
        13 => "d",
        14 => "e",
        _ => "f",
    };
    proof {
        reveal_strlit("0");
        reveal_strlit("1");
        reveal_strlit("2");
        reveal_strlit("3");
        reveal_strlit("4");
        reveal_strlit("5");
        reveal_strlit("6");
        reveal_strlit("7");
        reveal_strlit("8");
        reveal_strlit("9");
        reveal_strlit("a");
        reveal_strlit("b");
        reveal_strlit("c");
        reveal_strlit("d");
        reveal_strlit("e");
        reveal_strlit("f");
        assert(text@ =~= seq![hex_digit(digit as nat)]);
    }
    text
}

/// Reducing modulo 2^64 after each of the three operations of an update gives
/// the same as reducing once at the end.
pub proof fn lemma_stepwise_reduction(accumulator: int, byte: int, position: int)
    ensures
        (((accumulator * 31) % 0x1_0000_0000_0000_0000 + byte) % 0x1_0000_0000_0000_0000
            + position) % 0x1_0000_0000_0000_0000 == (accumulator * 31 + byte + position)
            % 0x1_0000_0000_0000_0000,
{
}

/// With no bytes or no passes the accumulator stays at 0.
pub proof fn lemma_nothing_absorbed(bytes: Seq<u8>, iterations: nat)
    requires
        bytes.len() == 0 || iterations == 0,
    ensures
        accumulate(bytes, iterations) == 0,
    decreases iterations,
{
    if iterations > 0 {
        lemma_nothing_absorbed(bytes, (iterations - 1) as nat);
    }
}

/// Zero is written as sixteen zeros.
pub proof fn lemma_zero_text()
    ensures
        hex_digits(0, 16) == "0000000000000000"@,
{
    reveal_strlit("0000000000000000");
    reveal_with_fuel(hex_digits, 17);
    assert(hex_digits(0, 16) =~= "0000000000000000"@);
}

/// Every digit that `hex_digit` gives is a lowercase hexadecimal digit, and
/// denotes the value it was made from.
pub proof fn lemma_hex_digit(digit: nat)
    requires
        digit < 16,
    ensures
        is_lower_hex(hex_digit(digit)),
        digit_value(hex_digit(digit)) == digit,
{
}

/// `hex_digits(value, width)` has `width` characters, each a lowercase
/// hexadecimal digit.
pub proof fn lemma_hex_digits_shape(value: nat, width: nat)
    ensures
        hex_digits(value, width).len() == width,
        forall|i: int| 0 <= i < width ==> is_lower_hex(#[trigger] hex_digits(value, width)[i]),
    decreases width,
{
    if width > 0 {
        lemma_hex_digits_shape(value / 16, (width - 1) as nat);
        lemma_hex_digit(value % 16);
    }
}

/// Read back as a number, `hex_digits(value, width)` is `value` modulo
/// `16^width`: the digits lose nothing but what does not fit in `width` places.
pub proof fn lemma_hex_digits_denote(value: nat, width: nat)
    ensures
        pow(16, width) > 0,
        hex_value(hex_digits(value, width)) == value % (pow(16, width) as nat),
    decreases width,
{
    reveal(pow);
    lemma_pow_positive(16, width);
    if width > 0 {
        let shorter = (width - 1) as nat;
        let text = hex_digits(value, width);
        assert(text.drop_last() =~= hex_digits(value / 16, shorter));
        assert(text.last() == hex_digit(value % 16));
        lemma_hex_digit(value % 16);
        lemma_hex_digits_denote(value / 16, shorter);
        lemma_breakdown(value as int, 16, pow(16, shorter));
    }
}

/// A 64-bit value is read back whole from its 16 digits, so distinct values
/// have distinct texts.
pub proof fn lemma_hex_round_trip(value: u64)
    ensures
        hex_value(hex_digits(value as nat, 16)) == value,
{
    lemma_hex_digits_denote(value as nat, 16);
    assert(pow(16, 16) == 0x1_0000_0000_0000_0000) by {
        reveal_with_fuel(pow, 17);
    }
    lemma_small_mod(value as nat, pow(16, 16) as nat);
}

} // verus!
