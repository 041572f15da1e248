//! Job ids. A job is known by a 128-bit number; clients see it as text, in
//! the hyphenated form of a UUID. Minting, printing and parsing are the
//! `uuid` crate's work, behind the three functions at the end of this file.

use vstd::prelude::*;

verus! {

/// The sixteen hexadecimal digits, lower case.
pub open spec fn hex_digits() -> Seq<char> {
    seq!['0', '1', '2', '3', '4', '5', '6', '7', '8', '9', 'a', 'b', 'c', 'd', 'e', 'f']
}

/// Sixteen to the power of `e`.
pub open spec fn pow16(e: nat) -> nat
    decreases e,
{
    if e == 0 {
        1
    } else {
        16 * pow16((e - 1) as nat)
    }
}

/// Digit `k` of the 32 hexadecimal digits of `id`, counted from the most
/// significant one.
pub open spec fn digit(id: u128, k: int) -> int {
    (id as int / pow16((31 - k) as nat) as int) % 16
}

/// How many hyphens of the hyphenated form stand before place `i`.
pub open spec fn hyphens_before(i: int) -> int {
    if i < 8 {
        0
    } else if i < 13 {
        1
    } else if i < 18 {
        2
    } else if i < 23 {
        3
    } else {
        4
    }
}

/// The hyphenated form of `id`: its 32 hexadecimal digits in lower case,
/// most significant first, in groups of 8, 4, 4, 4 and 12 with a hyphen
/// between two groups.
pub open spec fn hyphenated(id: u128) -> Seq<char> {
    Seq::new(
        36,
        |i: int|
            if i == 8 || i == 13 || i == 18 || i == 23 {
                '-'
            } else {
                hex_digits()[digit(id, i - hyphens_before(i))]
            },
    )
}

/// Whether `id` has the marks of a random UUID: version 4 in the thirteenth
/// digit, and the two highest bits of the seventeenth set to one and zero.
pub open spec fn is_random_id(id: u128) -> bool {
    id & 0x0000_0000_0000_f000_c000_0000_0000_0000 == 0x0000_0000_0000_4000_8000_0000_0000_0000
}

/// The id that `uuid::Uuid::parse_str` reads from a text, or `None` where it
/// reads none. It reads the hyphenated form, the same without hyphens, and
/// either in braces or behind `urn:uuid:`, in digits of either case.
pub uninterp spec fn parsed_id(text: Seq<char>) -> Option<u128>;

/// Whether a text is as long as one of the four forms of an id: 32
/// characters without hyphens, 36 with them, 38 in braces, 45 behind
/// `urn:uuid:`.
pub open spec fn has_id_length(text: Seq<char>) -> bool {
    text.len() == 32 || text.len() == 36 || text.len() == 38 || text.len() == 45
}

/// `uuid::Uuid::parse_str`, with the id as a number (`Uuid::as_u128`). The
/// answer depends on the text alone, and the hyphenated form of an id is
/// read as that id. No id is read from a text of another length than the
/// four forms have: the parser looks at the length first, and what it reads
/// has one byte to the character.
#[verifier::external_body]
pub(crate) fn parse_id(text: &str) -> (id: Option<u128>)
    ensures
        id == parsed_id(text@),
        forall|v: u128| text@ == #[trigger] hyphenated(v) ==> id == Some(v),
        id is Some ==> has_id_length(text@),
{
    match uuid::Uuid::parse_str(text) {
        Ok(parsed) => Some(parsed.as_u128()),
        Err(_) => None,
    }
}

/// `uuid::Uuid::to_string` of `Uuid::from_u128(id)`: the hyphenated form in
/// lower case.
#[verifier::external_body]
pub(crate) fn print_id(id: u128) -> (text: String)
    ensures
        text@ == hyphenated(id),
{
    uuid::Uuid::from_u128(id).to_string()
}

/// `uuid::Uuid::new_v4`, as a number: 122 bits from the operating system's
/// random source and the six marks of a random UUID. Nothing else is known
/// of the outcome. It stops the program where the operating system gives
/// no random bytes.
#[verifier::external_body]
pub(crate) fn mint_id() -> (id: u128)
    ensures
        is_random_id(id),
{
    uuid::Uuid::new_v4().as_u128()
}

} // verus!
