//! Item identifiers. An identifier is the 128-bit value of a UUID; the `uuid`
//! crate makes fresh ones and writes them as text.

use uuid::Uuid;
use vstd::prelude::*;

verus! {

/// The lower-case hexadecimal digit for a value below 16.
pub open spec fn hex_digit(value: int) -> char {
    if value < 10 {
        (value + 48) as u8 as char
    } else {
        (value + 87) as u8 as char
    }
}

/// The `k`-th hexadecimal digit of `id`, counted from the most significant, as a
/// value below 16.
pub open spec fn nibble(id: u128, k: int) -> int {
    (id as int / vstd::arithmetic::power::pow(16, (31 - k) as nat)) % 16
}

/// How many hyphens stand before position `i` of the hyphenated form.
pub open spec fn hyphens_before(i: int) -> int {
    if i < 8 {
        0
    } else if i < 13 {
        1
    } else if i < 18 {
        2
    } else if i < 23 {
        3
    } else {
        4
    }
}

/// The hyphenated form of an identifier: 32 lower-case hexadecimal digits, most
/// significant first, in groups of 8, 4, 4, 4 and 12 with a hyphen between them.
pub open spec fn hyphenated(id: u128) -> Seq<char> {
    Seq::new(
        36,
        |i: int|
            if i == 8 || i == 13 || i == 18 || i == 23 {
                '-'
            } else {
                hex_digit(nibble(id, i - hyphens_before(i)))
            },
    )
}

/// An identifier carries the marks of one that was made at random: version 4
/// and the variant of RFC 9562.
pub open spec fn made_at_random(id: u128) -> bool {
    (id >> 76) & 0xf == 4 && (id >> 62) & 0x3 == 2
}

/// `Uuid::new_v4`: the value of a random UUID. All that is known of it is that
/// it carries the version and the variant that the call sets.
#[verifier::external_body]
pub(crate) fn fresh_id() -> (id: u128)
    ensures
        made_at_random(id),
{
    Uuid::new_v4().as_u128()
}

/// `Uuid::to_string`, on the UUID with this value: its hyphenated lower-case form.
#[verifier::external_body]
pub(crate) fn id_text(id: u128) -> (text: String)
    ensures
        text@ == hyphenated(id),
{
    Uuid::from_u128(id).to_string()
}

/// The first `index` characters of the hyphenated form of `id`.
pub fn clip_uuid(id: u128, index: usize) -> (text: String)
    requires
        index <= 36,
    ensures
        text@ == hyphenated(id).subrange(0, index as int),
{
    let full = id_text(id);
    let head = full.as_str().substring_char(0, index);
    String::from_str(head)
}

} // verus!
