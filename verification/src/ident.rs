//! Correlation identifiers: 128-bit values, written as hyphenated lower-case
//! hexadecimal text.

use vstd::prelude::*;

verus! {

/// The identifier that binds a request to its response.
#[derive(Clone, Copy, Debug, PartialEq, Eq, Hash, Structural)]
pub struct RequestId(pub u128);

/// The lower-case hexadecimal digit for a value below sixteen.
pub open spec fn hex_char(value: int) -> char {
    if value < 10 {
        (48 + value) as char
    } else {
        (87 + value) as char
    }
}

/// Which of the 32 hexadecimal digits, counted from the most significant,
/// stands at position `at` of the hyphenated text.
pub open spec fn digit_index(at: int) -> int {
    if at < 8 {
        at
    } else if at < 13 {
        at - 1
    } else if at < 18 {
        at - 2
    } else if at < 23 {
        at - 3
    } else {
        at - 4
    }
}

/// The hexadecimal digit of `bits` with the given index, counted from the
/// most significant.
pub open spec fn digit(bits: u128, index: int) -> int {
    (bits as int / vstd::arithmetic::power::pow(16, (31 - index) as nat)) % 16
}

/// The hyphenated text of an identifier: 36 characters in groups of 8, 4, 4,
/// 4 and 12 lower-case hexadecimal digits, most significant first.
pub open spec fn id_text(bits: u128) -> Seq<char> {
    Seq::new(
        36,
        |at: int|
            if at == 8 || at == 13 || at == 18 || at == 23 {
                '-'
            } else {
                hex_char(digit(bits, digit_index(at)))
            },
    )
}

/// The identifier that `uuid::Uuid::parse_str` reads a text as, if it reads
/// it as one.
pub uninterp spec fn uuid_parse(text: Seq<char>) -> Option<u128>;

/// The bits that mark an identifier as random: version 4, variant 1.
pub open spec fn is_random(bits: u128) -> bool {
    bits & 0x0000_0000_0000_f000_c000_0000_0000_0000u128
        == 0x0000_0000_0000_4000_8000_0000_0000_0000u128
}

/// The bits of the identifier that follows from drawn bits where the bits
/// `taken` are in use: the drawn bits, with the lowest one flipped if they are
/// the taken ones.
pub open spec fn settled(taken: u128, drawn: u128) -> u128 {
    if drawn == taken {
        drawn ^ 1u128
    } else {
        drawn
    }
}

/// A random identifier.
///
/// Calls `uuid::Uuid::new_v4` and `as_u128`: whatever the random number, its
/// version digit is 4 and its variant bits are 10.
#[verifier::external_body]
fn random_bits() -> (bits: u128)
    ensures
        is_random(bits),
{
    uuid::Uuid::new_v4().as_u128()
}

/// The hyphenated text of an identifier.
///
/// Calls `uuid::Uuid::from_u128` and the `Display` of its `hyphenated` form:
/// the result is the lower-case hyphenated text, and `uuid::Uuid::parse_str`
/// reads that text as the same identifier.
#[verifier::external_body]
fn hyphenated(bits: u128) -> (text: String)
    ensures
        text@ == id_text(bits),
        uuid_parse(text@) == Some(bits),
{
    uuid::Uuid::from_u128(bits).hyphenated().to_string()
}

/// Reads an identifier from text.
///
/// Calls `uuid::Uuid::parse_str`, which depends on the text alone.
#[verifier::external_body]
fn parse_bits(text: &str) -> (bits: Option<u128>)
    ensures
        bits == uuid_parse(text@),
{
    match uuid::Uuid::parse_str(text) {
        Ok(id) => Some(id.as_u128()),
        Err(_) => None,
    }
}

impl RequestId {
    /// A fresh random identifier.
    pub fn new_v4() -> (id: RequestId)
        ensures
            is_random(id.0),
    {
        RequestId(random_bits())
    }

    /// The identifier made of drawn bits so that it differs from this one:
    /// the drawn bits themselves, or, where they are this identifier's own,
    /// those bits with the lowest one flipped.
    pub fn apart(&self, drawn: u128) -> (id: RequestId)
        ensures
            id.0 == settled(self.0, drawn),
            id != *self,
            is_random(drawn) ==> is_random(id.0),
    {
        if drawn == self.0 {
            let flipped = drawn ^ 1u128;
            assert(flipped != drawn && (is_random(drawn) ==> is_random(flipped))) by (bit_vector)
                requires
                    flipped == drawn ^ 1u128,
            ;
            RequestId(flipped)
        } else {
            RequestId(drawn)
        }
    }

    /// A fresh random identifier that differs from this one.
    pub fn another(&self) -> (id: RequestId)
        ensures
            id != *self,
            is_random(id.0),
    {
        self.apart(random_bits())
    }

    /// Reads an identifier from text, in any of the spellings that
    /// `uuid_parse` accepts.
    pub fn parse_str(text: &str) -> (id: Option<RequestId>)
        ensures
            id == match uuid_parse(text@) {
                Some(bits) => Some(RequestId(bits)),
                None => None,
            },
    {
        match parse_bits(text) {
            Some(bits) => Some(RequestId(bits)),
            None => None,
        }
    }

    /// The hyphenated text of this identifier, which reads back as the same
    /// identifier.
    pub fn to_text(&self) -> (text: String)
        ensures
            text@ == id_text(self.0),
            uuid_parse(text@) == Some(self.0),
    {
        hyphenated(self.0)
    }
}

} // verus!
