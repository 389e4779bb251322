//! The saved-progress record: the index of the highest level reached,
//! written as a decimal number.

use vstd::prelude::*;
use crate::text::{
    chars_of, decimal, decimal_chars, lemma_decimal_trimmed, lemma_parse_decimal_roundtrip,
    parse_unsigned, parse_usize, string_from_chars, trim_chars, trimmed,
};

verus! {

/// Reads a saved record: the text trimmed, then parsed as an unsigned
/// decimal number; `None` when it is not one.
pub fn parse_level_record(content: &str) -> (res: Option<usize>)
    ensures
        match res {
            Some(n) => parse_unsigned(trimmed(content@)) == Some(n as nat),
            None => parse_unsigned(trimmed(content@)) is None,
        },
{
    let t = trim_chars(&chars_of(content));
    parse_usize(&t)
}

/// The text of the record for level index `level`.
pub fn level_record_text(level: usize) -> (s: String)
    ensures
        s@ == decimal(level as nat),
{
    let v = decimal_chars(level);
    string_from_chars(&v)
}

/// The level index to record when `level_idx` is reached and
/// `current_highest` was recorded before: the record never goes down.
pub fn level_to_save(level_idx: usize, current_highest: usize) -> (highest: usize)
    ensures
        highest == if level_idx >= current_highest {
            level_idx
        } else {
            current_highest
        },
        highest >= level_idx,
        highest >= current_highest,
{
    if level_idx >= current_highest {
        level_idx
    } else {
        current_highest
    }
}

/// A record written for a level reads back as that level: the text of
/// [`level_record_text`] parses, under [`parse_level_record`], to the level.
pub proof fn lemma_record_round_trip(level: usize)
    ensures
        parse_unsigned(trimmed(decimal(level as nat))) == Some(level as nat),
{
    lemma_decimal_trimmed(level as nat);
    lemma_parse_decimal_roundtrip(level);
}

} // verus!
