//! The grammar, as functions from a text to what a parser makes of it.
//!
//! Each function describes one position of the grammar. It takes the input
//! from that position on and gives the value or the failure together with
//! the input that is left. The parser is proved to compute exactly these
//! functions.

use crate::error::ParseError;
use crate::value::JsonValue;
use vstd::prelude::*;

verus! {

/// What a sub-parser makes of an input: the value or the failure, and the
/// input that it leaves unconsumed.
pub ghost struct Parsed {
    pub result: Result<JsonValue, ParseError>,
    pub rest: Seq<char>,
}

/// Space, tab, carriage return and line feed.
pub open spec fn is_whitespace(c: char) -> bool {
    c == ' ' || c == '\t' || c == '\r' || c == '\n'
}

/// The ASCII digits.
pub open spec fn is_digit(c: char) -> bool {
    '0' <= c && c <= '9'
}

/// The number that an ASCII digit stands for.
pub open spec fn digit_value(c: char) -> nat {
    (c as nat - '0' as nat) as nat
}

/// `s` without its leading run of whitespace.
pub open spec fn skip_whitespace(s: Seq<char>) -> Seq<char>
    decreases s.len(),
{
    if s.len() > 0 && is_whitespace(s[0]) {
        skip_whitespace(s.drop_first())
    } else {
        s
    }
}

/// How many leading characters of `s` agree with `spelling`.
pub open spec fn matched_len(spelling: Seq<char>, s: Seq<char>) -> nat
    decreases spelling.len(),
{
    if spelling.len() > 0 && s.len() > 0 && spelling[0] == s[0] {
        1 + matched_len(spelling.drop_first(), s.drop_first())
    } else {
        0
    }
}

/// The value that a fully matched spelling stands for.
pub open spec fn literal_value(spelling: Seq<char>) -> Result<JsonValue, ParseError> {
    if spelling == "null"@ {
        Ok(JsonValue::Null)
    } else if spelling == "true"@ {
        Ok(JsonValue::True)
    } else if spelling == "false"@ {
        Ok(JsonValue::False)
    } else {
        Err(ParseError::InvalidLiteral)
    }
}

/// A literal: the characters of `s` are consumed as long as they agree with
/// `spelling`; the first disagreement, or the end of `s`, is a failure.
pub open spec fn spec_literal(spelling: Seq<char>, s: Seq<char>) -> Parsed {
    let n = matched_len(spelling, s);
    Parsed {
        result: if n == spelling.len() {
            literal_value(spelling)
        } else {
            Err(ParseError::InvalidLiteral)
        },
        rest: s.skip(n as int),
    }
}

/// The length of the leading run of digits of `s`.
pub open spec fn digits_len(s: Seq<char>) -> nat
    decreases s.len(),
{
    if s.len() > 0 && is_digit(s[0]) {
        1 + digits_len(s.drop_first())
    } else {
        0
    }
}

/// One more than the largest number that a parsed value holds.
pub open spec fn number_modulus() -> nat {
    0x1_0000_0000
}

/// The number that a run of digits accumulates to, most significant digit
/// first. Each step wraps around at `number_modulus()`.
pub open spec fn number_value(digits: Seq<char>) -> nat
    decreases digits.len(),
{
    if digits.len() == 0 {
        0
    } else {
        (number_value(digits.drop_last()) * 10 + digit_value(digits.last())) % number_modulus()
    }
}

/// A number: the longest run of digits at the start of `s`. An empty run is
/// the number zero.
pub open spec fn spec_number(s: Seq<char>) -> Parsed {
    let n = digits_len(s);
    Parsed {
        result: Ok(JsonValue::Number(number_value(s.take(n as int)))),
        rest: s.skip(n as int),
    }
}

/// The length of the longest prefix of `s` that holds no quote.
pub open spec fn unquoted_len(s: Seq<char>) -> nat
    decreases s.len(),
{
    if s.len() > 0 && s[0] != '"' {
        1 + unquoted_len(s.drop_first())
    } else {
        0
    }
}

/// A string: the first character of `s` opens it, the next quote closes it,
/// and what stands between them is its text, taken as it is. Without a
/// closing quote the whole input is consumed and the parse fails.
pub open spec fn spec_string(s: Seq<char>) -> Parsed
    recommends
        s.len() > 0,
        s[0] == '"',
{
    let body = s.drop_first();
    let n = unquoted_len(body);
    if n < body.len() {
        Parsed { result: Ok(JsonValue::String(body.take(n as int))), rest: body.skip(n as int + 1) }
    } else {
        Parsed { result: Err(ParseError::InvalidValue), rest: Seq::empty() }
    }
}

/// Skipping whitespace never lengthens the input.
pub proof fn lemma_skip_whitespace_len(s: Seq<char>)
    ensures
        skip_whitespace(s).len() <= s.len(),
    decreases s.len(),
{
    if s.len() > 0 && is_whitespace(s[0]) {
        lemma_skip_whitespace_len(s.drop_first());
    }
}

/// The closing quote of a string lies within its input.
pub proof fn lemma_unquoted_len_bound(s: Seq<char>)
    ensures
        unquoted_len(s) <= s.len(),
    decreases s.len(),
{
    if s.len() > 0 && s[0] != '"' {
        lemma_unquoted_len_bound(s.drop_first());
    }
}

/// A value, chosen by the first character of `s` alone.
pub open spec fn spec_value(s: Seq<char>) -> Parsed
    decreases s.len(), 0nat,
{
    if s.len() == 0 {
        Parsed { result: Err(ParseError::ExpectValue), rest: s }
    } else if s[0] == 'n' {
        spec_literal("null"@, s)
    } else if s[0] == 't' {
        spec_literal("true"@, s)
    } else if s[0] == 'f' {
        spec_literal("false"@, s)
    } else if s[0] == '"' {
        spec_string(s)
    } else if s[0] == '[' {
        spec_elements(s.drop_first(), Seq::empty())
    } else if s[0] == '{' {
        spec_members(s.drop_first(), Map::empty())
    } else if is_digit(s[0]) {
        spec_number(s)
    } else {
        Parsed { result: Err(ParseError::InvalidValue), rest: s }
    }
}

/// The elements of an array from one of them on, `items` being those before
/// it: whitespace, a value, and then what may follow an element. The first
/// failure of an element is the failure of the array.
///
/// The comparison of lengths after the element makes the recursion
/// well-founded and nothing else: a parsed value has consumed at least one
/// character, as `lemma_value_rest` shows.
pub open spec fn spec_elements(s: Seq<char>, items: Seq<JsonValue>) -> Parsed
    decreases s.len(), 1nat,
{
    let s1 = skip_whitespace(s);
    proof {
        lemma_skip_whitespace_len(s);
    }
    let element = spec_value(s1);
    match element.result {
        Err(e) => Parsed { result: Err(e), rest: element.rest },
        Ok(v) => if element.rest.len() < s.len() {
            spec_after_element(element.rest, items.push(v))
        } else {
            Parsed { result: Err(ParseError::InvalidArray), rest: element.rest }
        },
    }
}

/// What follows an element of an array, `items` being the elements so far:
/// whitespace, then `]` to end the array or `,` and further elements.
pub open spec fn spec_after_element(s: Seq<char>, items: Seq<JsonValue>) -> Parsed
    decreases s.len(), 1nat,
{
    let s1 = skip_whitespace(s);
    proof {
        lemma_skip_whitespace_len(s);
    }
    if s1.len() > 0 && s1[0] == ']' {
        Parsed { result: Ok(JsonValue::Array(items)), rest: s1.drop_first() }
    } else if s1.len() > 0 && s1[0] == ',' {
        spec_elements(s1.drop_first(), items)
    } else {
        Parsed { result: Err(ParseError::InvalidArray), rest: s1 }
    }
}

/// The members of an object from one of them on, `members` being the mapping
/// that those before it made: whitespace, a quoted key, and then what may
/// follow a key. A key that fails is the failure of the object.
pub open spec fn spec_members(s: Seq<char>, members: Map<Seq<char>, JsonValue>) -> Parsed
    decreases s.len(), 1nat,
{
    let s1 = skip_whitespace(s);
    proof {
        lemma_skip_whitespace_len(s);
        lemma_unquoted_len_bound(s1.drop_first());
    }
    if s1.len() == 0 || s1[0] != '"' {
        Parsed { result: Err(ParseError::InvalidObject), rest: s1 }
    } else {
        let key = spec_string(s1);
        match key.result {
            Ok(JsonValue::String(k)) => spec_after_key(key.rest, k, members),
            _ => Parsed { result: key.result, rest: key.rest },
        }
    }
}

/// What follows the key of a member: whitespace, `:`, and the member's
/// value.
pub open spec fn spec_after_key(
    s: Seq<char>,
    key: Seq<char>,
    members: Map<Seq<char>, JsonValue>,
) -> Parsed
    decreases s.len(), 1nat,
{
    let s1 = skip_whitespace(s);
    proof {
        lemma_skip_whitespace_len(s);
    }
    if s1.len() == 0 || s1[0] != ':' {
        Parsed { result: Err(ParseError::InvalidObject), rest: s1 }
    } else {
        spec_member_value(s1.drop_first(), key, members)
    }
}

/// The value of the member with the key `key`: whitespace, a value, and
/// then what may follow a member. The value replaces one that `key` had
/// before. A value that fails is the failure of the object.
///
/// The comparison of lengths after the value makes the recursion
/// well-founded and nothing else: a parsed value has consumed at least one
/// character, as `lemma_value_rest` shows.
pub open spec fn spec_member_value(
    s: Seq<char>,
    key: Seq<char>,
    members: Map<Seq<char>, JsonValue>,
) -> Parsed
    decreases s.len(), 1nat,
{
    let s1 = skip_whitespace(s);
    proof {
        lemma_skip_whitespace_len(s);
    }
    let member = spec_value(s1);
    match member.result {
        Err(e) => Parsed { result: Err(e), rest: member.rest },
        Ok(v) => if member.rest.len() < s.len() {
            spec_after_member(member.rest, members.insert(key, v))
        } else {
            Parsed { result: Err(ParseError::InvalidObject), rest: member.rest }
        },
    }
}

/// What follows a member of an object, `members` being the mapping so far:
/// whitespace, then `,` and further members or `}` to end the object.
pub open spec fn spec_after_member(s: Seq<char>, members: Map<Seq<char>, JsonValue>) -> Parsed
    decreases s.len(), 1nat,
{
    let s1 = skip_whitespace(s);
    proof {
        lemma_skip_whitespace_len(s);
    }
    if s1.len() > 0 && s1[0] == ',' {
        spec_members(s1.drop_first(), members)
    } else if s1.len() > 0 && s1[0] == '}' {
        Parsed { result: Ok(JsonValue::Object(members)), rest: s1.drop_first() }
    } else {
        Parsed { result: Err(ParseError::InvalidObject), rest: s1 }
    }
}

/// An array: `[`, then its elements.
pub open spec fn spec_array(s: Seq<char>) -> Parsed
    recommends
        s.len() > 0,
        s[0] == '[',
{
    spec_elements(s.drop_first(), Seq::empty())
}

/// An object: `{`, then its members.
pub open spec fn spec_object(s: Seq<char>) -> Parsed
    recommends
        s.len() > 0,
        s[0] == '{',
{
    spec_members(s.drop_first(), Map::empty())
}

/// A whole text: whitespace, then one value. What follows the value is not
/// looked at.
pub open spec fn spec_parse(text: Seq<char>) -> Result<JsonValue, ParseError> {
    spec_value(skip_whitespace(text)).result
}

} // verus!
