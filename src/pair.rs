//! Reading two values written on either side of a separator, such as
//! image dimensions `"800x600"`.
use vstd::prelude::*;
use vstd::string::*;
use crate::text::{chars_of, find_char, first_index, lemma_first_index, parse_decimal, parse_unsigned};

verus! {

/// The text before and after the first `separator` of `s`, if it has one.
pub open spec fn spec_split_pair(s: Seq<char>, separator: char) -> Option<(Seq<char>, Seq<char>)> {
    match first_index(s, separator) {
        Some(i) => Some((s.subrange(0, i), s.subrange(i + 1, s.len() as int))),
        None => None,
    }
}

/// The two unsigned numbers written before and after the first
/// `separator` of `s`, when both halves are numbers that fit in a `usize`.
pub open spec fn spec_parse_pair(s: Seq<char>, separator: char) -> Option<(nat, nat)> {
    match spec_split_pair(s, separator) {
        Some((l, r)) => match (parse_unsigned(l, usize::MAX as nat), parse_unsigned(r, usize::MAX as nat)) {
            (Some(a), Some(b)) => Some((a, b)),
            _ => None,
        },
        None => None,
    }
}

/// Splits `s` at its first `separator`.
pub fn split_pair(s: &str, separator: char) -> (r: Option<(String, String)>)
    ensures
        match spec_split_pair(s@, separator) {
            Some((a, b)) => r matches Some((x, y)) && x@ == a && y@ == b,
            None => r is None,
        },
{
    let cs = chars_of(s);
    let n = cs.len();
    proof {
        assert(cs@.subrange(0, n as int) =~= s@);
        lemma_first_index(s@, separator);
    }
    match find_char(&cs, 0, n, separator) {
        None => None,
        Some(i) => {
            let left = String::from_str(s.substring_char(0, i));
            let right = String::from_str(s.substring_char(i + 1, n));
            Some((left, right))
        },
    }
}

/// Reads two unsigned numbers written before and after the first
/// `separator` of `s`, such as the width and height in `"800x600"`.
pub fn parse_pair(s: &str, separator: char) -> (r: Option<(usize, usize)>)
    ensures
        match spec_parse_pair(s@, separator) {
            Some((a, b)) => r == Some((a as usize, b as usize)),
            None => r is None,
        },
{
    let cs = chars_of(s);
    let n = cs.len();
    proof {
        assert(cs@.subrange(0, n as int) =~= s@);
        lemma_first_index(s@, separator);
    }
    match find_char(&cs, 0, n, separator) {
        None => None,
        Some(i) => {
            proof {
                assert(cs@.subrange(0, i as int) =~= s@.subrange(0, i as int));
                assert(cs@.subrange(i + 1, n as int) =~= s@.subrange(i + 1, s@.len() as int));
            }
            match (parse_decimal(&cs, 0, i, usize::MAX), parse_decimal(&cs, i + 1, n, usize::MAX)) {
                (Some(a), Some(b)) => Some((a, b)),
                _ => None,
            }
        },
    }
}

} // verus!
