use vstd::prelude::*;

verus! {

// ============================================================
// Hexadecimal text. Scripts are held in memory as hex strings;
// these spec functions fix what such a string means, and the two
// trusted functions below carry the conversions out.
// ============================================================

/// The sixteen lowercase hex digits, in value order.
pub open spec fn hex_digits() -> Seq<char> {
    seq!['0', '1', '2', '3', '4', '5', '6', '7', '8', '9', 'a', 'b', 'c', 'd', 'e', 'f']
}

/// True for `0`-`9`, `a`-`f` and `A`-`F`.
pub open spec fn is_hex_digit(c: char) -> bool {
    ('0' <= c && c <= '9') || ('a' <= c && c <= 'f') || ('A' <= c && c <= 'F')
}

/// The numeric value of a hex digit (0 for any other character).
pub open spec fn hex_digit_value(c: char) -> nat {
    if '0' <= c && c <= '9' {
        (c as nat - '0' as nat) as nat
    } else if 'a' <= c && c <= 'f' {
        (c as nat - 'a' as nat + 10) as nat
    } else if 'A' <= c && c <= 'F' {
        (c as nat - 'A' as nat + 10) as nat
    } else {
        0
    }
}

/// A string that hex-decodes to bytes: even length, digits throughout.
pub open spec fn valid_hex(s: Seq<char>) -> bool {
    s.len() % 2 == 0 && (forall|i: int| 0 <= i < s.len() ==> is_hex_digit(s[i]))
}

/// The bytes a hex string stands for, two digits to a byte.
pub open spec fn bytes_of_hex(s: Seq<char>) -> Seq<u8>
    decreases s.len(),
{
    if s.len() < 2 {
        Seq::empty()
    } else {
        seq![(hex_digit_value(s[0]) * 16 + hex_digit_value(s[1])) as u8] + bytes_of_hex(s.skip(2))
    }
}

/// The lowercase hex spelling of a byte sequence.
/// `hex_of_bytes(bytes_of_hex(s)) == s` holds exactly for the strings
/// this function produces, which makes `canonical_hex` below exact.
pub open spec fn hex_of_bytes(b: Seq<u8>) -> Seq<char>
    decreases b.len(),
{
    if b.len() == 0 {
        Seq::empty()
    } else {
        seq![hex_digits()[b[0] as int / 16], hex_digits()[b[0] as int % 16]] + hex_of_bytes(
            b.drop_first(),
        )
    }
}

/// The string is the canonical spelling of its own bytes: valid hex,
/// all lowercase. Exactly the strings the decoder produces.
pub open spec fn canonical_hex(s: Seq<char>) -> bool {
    s == hex_of_bytes(bytes_of_hex(s))
}

pub proof fn lemma_hex_digit_round_trip(v: nat)
    requires
        v < 16,
    ensures
        is_hex_digit(hex_digits()[v as int]),
        hex_digit_value(hex_digits()[v as int]) == v,
{
}

/// The spelling of any byte sequence is a valid hex string of twice
/// its length.
pub proof fn lemma_hex_of_bytes_valid(b: Seq<u8>)
    ensures
        valid_hex(hex_of_bytes(b)),
        hex_of_bytes(b).len() == 2 * b.len(),
    decreases b.len(),
{
    if b.len() > 0 {
        lemma_hex_of_bytes_valid(b.drop_first());
        let s = hex_of_bytes(b);
        let rest = hex_of_bytes(b.drop_first());
        lemma_hex_digit_round_trip((b[0] as int / 16) as nat);
        lemma_hex_digit_round_trip((b[0] as int % 16) as nat);
        assert forall|i: int| 0 <= i < s.len() implies is_hex_digit(s[i]) by {
            if i >= 2 {
                assert(s[i] == rest[i - 2]);
            }
        }
    }
}

/// Spelling bytes as hex and reading the digits back yields the bytes.
pub proof fn lemma_hex_round_trip(b: Seq<u8>)
    ensures
        bytes_of_hex(hex_of_bytes(b)) == b,
    decreases b.len(),
{
    if b.len() == 0 {
        assert(bytes_of_hex(hex_of_bytes(b)) =~= b);
    } else {
        lemma_hex_round_trip(b.drop_first());
        let s = hex_of_bytes(b);
        lemma_hex_digit_round_trip((b[0] as int / 16) as nat);
        lemma_hex_digit_round_trip((b[0] as int % 16) as nat);
        assert(s.skip(2) =~= hex_of_bytes(b.drop_first()));
        assert(hex_digit_value(s[0]) * 16 + hex_digit_value(s[1]) == b[0]) by {
            vstd::arithmetic::div_mod::lemma_fundamental_div_mod(b[0] as int, 16);
        }
        assert(bytes_of_hex(s) =~= b);
    }
}

/// Relies on hex::encode: every byte becomes exactly two lowercase
/// hex digits, in order.
#[verifier::external_body]
pub fn hex_encode(b: &[u8]) -> (r: String)
    ensures
        r@ == hex_of_bytes(b@),
{
    hex::encode(b)
}

/// Relies on hex::decode: a string of hex digits with even length
/// decodes to the bytes it spells (upper and lower case both
/// accepted); any other string is rejected.
#[verifier::external_body]
pub fn hex_decode(s: &str) -> (r: Result<Vec<u8>, hex::FromHexError>)
    ensures
        match r {
            Ok(b) => valid_hex(s@) && b@ == bytes_of_hex(s@),
            Err(_) => !valid_hex(s@),
        },
{
    hex::decode(s)
}

/// The error hex::decode reports for text that is not valid hex.
#[verifier::external_type_specification]
#[verifier::external_body]
pub struct ExFromHexError(hex::FromHexError);

} // verus!
