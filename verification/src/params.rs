//! Reading the parameter payload of a node.

use vstd::prelude::*;
use vstd::string::StringExecFns;
use crate::models::{ParamNumber, ParamValue};
use crate::text::{parse_u64, parsed_u64, trim, trimmed};

verus! {

/// The value of the last entry with the given name.
pub open spec fn entry_of(entries: Seq<(String, ParamValue)>, key: Seq<char>) -> Option<ParamValue>
    decreases entries.len(),
{
    if entries.len() == 0 {
        None
    } else if entries.last().0@ == key {
        Some(entries.last().1)
    } else {
        entry_of(entries.drop_last(), key)
    }
}

/// The parameter with the given name: an entry of a record, and nothing
/// where the payload is no record.
pub open spec fn param(params: ParamValue, key: Seq<char>) -> Option<ParamValue> {
    match params {
        ParamValue::Record(entries) => entry_of(entries@, key),
        _ => None,
    }
}

/// The text that a value holds, if it is a text.
pub open spec fn text_in(value: Option<ParamValue>) -> Option<Seq<char>> {
    match value {
        Some(ParamValue::Text(s)) => Some(s@),
        _ => None,
    }
}

/// The list that a value holds, if it is a list.
pub open spec fn list_in(value: Option<ParamValue>) -> Option<Seq<ParamValue>> {
    match value {
        Some(ParamValue::List(items)) => Some(items@),
        _ => None,
    }
}

/// A text without the white space around it, unless nothing is left of it.
pub open spec fn filled(text: Option<Seq<char>>) -> Option<Seq<char>> {
    match text {
        Some(s) => if trimmed(s).len() > 0 {
            Some(trimmed(s))
        } else {
            None
        },
        None => None,
    }
}

/// The text parameter with the given name, without the white space around
/// it, unless nothing is left of it.
pub open spec fn text_param(params: ParamValue, key: Seq<char>) -> Option<Seq<char>> {
    filled(text_in(param(params, key)))
}

/// A span of time in milliseconds as a value states it: a whole number that
/// is not below zero, a number with a fraction by its nearest whole number,
/// or a text that reads as an unsigned number once the white space around it
/// is gone.
pub open spec fn millis_in(value: ParamValue) -> Option<u64> {
    match value {
        ParamValue::Number(ParamNumber::Unsigned(n)) => Some(n),
        ParamValue::Number(ParamNumber::Signed(n)) => if n >= 0 {
            Some(n as u64)
        } else {
            None
        },
        ParamValue::Number(ParamNumber::Fraction(rounded)) => rounded,
        ParamValue::Text(s) => parsed_u64(trimmed(s@)),
        _ => None,
    }
}

/// The view of a text that may be there.
pub open spec fn text_view(text: Option<String>) -> Option<Seq<char>> {
    match text {
        Some(s) => Some(s@),
        None => None,
    }
}

/// The parameter with the given name.
pub fn get<'a>(params: &'a ParamValue, key: &str) -> (r: Option<&'a ParamValue>)
    ensures
        match r {
            Some(value) => param(*params, key@) == Some(*value),
            None => param(*params, key@) is None,
        },
{
    match params {
        ParamValue::Record(entries) => {
            let name = String::from_str(key);
            let mut i: usize = entries.len();
            assert(entries@.take(i as int) =~= entries@);
            while i > 0
                invariant
                    i <= entries.len(),
                    name@ == key@,
                    param(*params, key@) == entry_of(entries@, key@),
                    entry_of(entries@, key@) == entry_of(entries@.take(i as int), key@),
                decreases i,
            {
                assert(entries@.take(i as int).drop_last() =~= entries@.take(i as int - 1));
                assert(entries@.take(i as int).last() == entries@[i as int - 1]);
                if entries[i - 1].0 == name {
                    return Some(&entries[i - 1].1);
                }
                i = i - 1;
            }
            None
        },
        _ => None,
    }
}

/// The text that a value holds, without the white space around it, unless
/// the value is no text or nothing is left of it.
pub fn filled_text(value: Option<&ParamValue>) -> (r: Option<String>)
    ensures
        text_view(r) == filled(
            text_in(
                match value {
                    Some(v) => Some(*v),
                    None => None,
                },
            ),
        ),
{
    match value {
        Some(ParamValue::Text(s)) => {
            let t = trim(s.as_str());
            if t.as_str().unicode_len() > 0 {
                Some(t)
            } else {
                None
            }
        },
        _ => None,
    }
}

/// The text parameter with the given name, without the white space around
/// it, unless nothing is left of it.
pub fn get_text(params: &ParamValue, key: &str) -> (r: Option<String>)
    ensures
        text_view(r) == text_param(*params, key@),
{
    filled_text(get(params, key))
}

/// The span of time in milliseconds that a value states.
pub fn millis(value: &ParamValue) -> (r: Option<u64>)
    ensures
        r == millis_in(*value),
{
    match value {
        ParamValue::Number(ParamNumber::Unsigned(n)) => Some(*n),
        ParamValue::Number(ParamNumber::Signed(n)) => if *n >= 0 {
            Some(*n as u64)
        } else {
            None
        },
        ParamValue::Number(ParamNumber::Fraction(rounded)) => *rounded,
        ParamValue::Text(s) => {
            let t = trim(s.as_str());
            parse_u64(t.as_str())
        },
        _ => None,
    }
}

} // verus!
