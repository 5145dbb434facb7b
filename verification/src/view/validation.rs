//! Checks on what was entered into a form, before it reaches the inventory.

use crate::error::InventoryError;
use vstd::prelude::*;

verus! {

/// A unit in which a mass is entered.
#[derive(Clone, Copy, Debug, PartialEq, Eq, Structural)]
pub enum MassUnit {
    Gram,
    Kilogram,
}

/// The words for grams.
pub open spec fn names_gram(word: Seq<char>) -> bool {
    word == "g"@ || word == "grama"@ || word == "gramas"@
}

/// The words for kilograms.
pub open spec fn names_kilogram(word: Seq<char>) -> bool {
    word == "kg"@ || word == "kilo"@ || word == "kilos"@
}

/// The unit that a word names, if it names one.
pub open spec fn unit_named(word: Seq<char>) -> Option<MassUnit> {
    if names_gram(word) {
        Some(MassUnit::Gram)
    } else if names_kilogram(word) {
        Some(MassUnit::Kilogram)
    } else {
        None
    }
}

/// Whether a character is white space, as `char::is_whitespace` tells it.
pub uninterp spec fn is_white(c: char) -> bool;

/// `char::is_whitespace`: whether the character is white space.
#[verifier::external_body]
fn char_is_white(c: char) -> (white: bool)
    ensures
        white == is_white(c),
{
    c.is_whitespace()
}

/// The place of the first blank at or behind `from`; the length of the text
/// where there is none.
pub open spec fn blank_from(text: Seq<char>, from: int) -> int
    decreases text.len() - from,
{
    if from < 0 || from >= text.len() {
        text.len() as int
    } else if text[from] == ' ' {
        from
    } else {
        blank_from(text, from + 1)
    }
}

/// The place of the first character at or behind `from` that is no white
/// space; the length of the text where there is none.
pub open spec fn word_from(text: Seq<char>, from: int) -> int
    decreases text.len() - from,
{
    if from < 0 || from >= text.len() {
        text.len() as int
    } else if is_white(text[from]) {
        word_from(text, from + 1)
    } else {
        from
    }
}

/// A mass as it is entered, in its two parts: the text before the first blank,
/// which is the value, and the unit that the rest names once the white space
/// before it is skipped. Nothing where there is no blank or no such unit.
pub open spec fn mass_parts(text: Seq<char>) -> Option<(Seq<char>, MassUnit)> {
    let cut = blank_from(text, 0);
    if cut >= text.len() {
        None
    } else {
        match unit_named(text.subrange(word_from(text, cut), text.len() as int)) {
            Some(unit) => Some((text.subrange(0, cut), unit)),
            None => None,
        }
    }
}

/// A name is accepted as it is, unless it is empty.
pub fn name_validation(text: String) -> (checked: Result<String, InventoryError>)
    ensures
        text@.len() == 0 ==> checked == Err::<String, InventoryError>(InventoryError::EmptyName),
        text@.len() > 0 ==> checked == Ok::<String, InventoryError>(text),
{
    if text.as_str().is_empty() {
        Err(InventoryError::EmptyName)
    } else {
        Ok(text)
    }
}

/// A price that was entered is accepted as it is, unless it is zero or less.
pub fn price_validation(price: i64) -> (checked: Result<i64, InventoryError>)
    ensures
        price <= 0 ==> checked == Err::<i64, InventoryError>(InventoryError::InvalidPrice),
        price > 0 ==> checked == Ok::<i64, InventoryError>(price),
{
    if price <= 0 {
        Err(InventoryError::InvalidPrice)
    } else {
        Ok(price)
    }
}

/// Whether two texts are the same.
fn same_text(one: &str, other: &str) -> (same: bool)
    ensures
        same == (one@ == other@),
{
    let n = one.unicode_len();
    if n != other.unicode_len() {
        return false;
    }
    let mut i: usize = 0;
    while i < n
        invariant
            n == one@.len(),
            n == other@.len(),
            i <= n,
            forall|j: int| 0 <= j < i ==> one@[j] == other@[j],
        decreases n - i,
    {
        if one.get_char(i) != other.get_char(i) {
            return false;
        }
        i += 1;
    }
    proof {
        assert(one@ =~= other@);
    }
    true
}

/// The unit that a word names, if it names one.
pub fn mass_unit(word: &str) -> (unit: Option<MassUnit>)
    ensures
        unit == unit_named(word@),
{
    if same_text(word, "g") || same_text(word, "grama") || same_text(word, "gramas") {
        Some(MassUnit::Gram)
    } else if same_text(word, "kg") || same_text(word, "kilo") || same_text(word, "kilos") {
        Some(MassUnit::Kilogram)
    } else {
        None
    }
}

/// Cuts a mass as it is entered into the text of its value and its unit.
pub fn split_mass(text: &str) -> (parts: Option<(String, MassUnit)>)
    ensures
        match parts {
            Some((value, unit)) => mass_parts(text@) == Some((value@, unit)),
            None => mass_parts(text@) is None,
        },
{
    let n = text.unicode_len();
    let mut cut: usize = 0;
    while cut < n && text.get_char(cut) != ' '
        invariant
            n == text@.len(),
            cut <= n,
            blank_from(text@, 0) == blank_from(text@, cut as int),
        decreases n - cut,
    {
        cut += 1;
    }
    if cut >= n {
        return None;
    }
    let mut start: usize = cut;
    while start < n && char_is_white(text.get_char(start))
        invariant
            n == text@.len(),
            cut <= start <= n,
            word_from(text@, cut as int) == word_from(text@, start as int),
        decreases n - start,
    {
        start += 1;
    }
    let word = text.substring_char(start, n);
    match mass_unit(word) {
        Some(unit) => Some((String::from_str(text.substring_char(0, cut)), unit)),
        None => None,
    }
}

} // verus!
