//! Every sub-parser leaves a suffix of its input, and a value that was
//! parsed has consumed something.

use crate::error::ParseError;
use crate::grammar::{
    digits_len, is_digit, is_whitespace, lemma_unquoted_len_bound, matched_len, skip_whitespace,
    spec_after_element, spec_after_key, spec_after_member, spec_elements, spec_literal,
    spec_member_value, spec_members, spec_number, spec_string, spec_value, unquoted_len,
};
use crate::value::JsonValue;
use vstd::prelude::*;

verus! {

/// `rest` is what remains of `s` after some of its first characters are
/// taken away.
pub open spec fn is_suffix(rest: Seq<char>, s: Seq<char>) -> bool {
    rest.len() <= s.len() && rest == s.skip(s.len() - rest.len())
}

/// A suffix of a suffix is a suffix.
pub proof fn lemma_suffix_trans(a: Seq<char>, b: Seq<char>, c: Seq<char>)
    requires
        is_suffix(a, b),
        is_suffix(b, c),
    ensures
        is_suffix(a, c),
{
    assert(a =~= c.skip(c.len() - a.len()));
}

/// What stays when the first `n` characters go is a suffix.
pub proof fn lemma_skip_is_suffix(s: Seq<char>, n: int)
    requires
        0 <= n <= s.len(),
    ensures
        is_suffix(s.skip(n), s),
{
}

/// Skipping whitespace leaves a suffix that does not start with whitespace.
pub proof fn lemma_skip_whitespace(s: Seq<char>)
    ensures
        is_suffix(skip_whitespace(s), s),
        skip_whitespace(s).len() > 0 ==> !is_whitespace(skip_whitespace(s)[0]),
    decreases s.len(),
{
    if s.len() > 0 && is_whitespace(s[0]) {
        lemma_skip_whitespace(s.drop_first());
        lemma_skip_is_suffix(s, 1);
        lemma_suffix_trans(skip_whitespace(s), s.drop_first(), s);
    } else {
        assert(s =~= s.skip(0));
    }
}

/// No more characters agree with a spelling than it or the input has.
pub proof fn lemma_matched_len_bound(spelling: Seq<char>, s: Seq<char>)
    ensures
        matched_len(spelling, s) <= spelling.len(),
        matched_len(spelling, s) <= s.len(),
    decreases spelling.len(),
{
    if spelling.len() > 0 && s.len() > 0 && spelling[0] == s[0] {
        lemma_matched_len_bound(spelling.drop_first(), s.drop_first());
    }
}

/// A run of digits lies within its input.
pub proof fn lemma_digits_len_bound(s: Seq<char>)
    ensures
        digits_len(s) <= s.len(),
        s.len() > 0 && is_digit(s[0]) ==> digits_len(s) > 0,
    decreases s.len(),
{
    if s.len() > 0 && is_digit(s[0]) {
        lemma_digits_len_bound(s.drop_first());
    }
}

/// A literal leaves a suffix of its input.
pub proof fn lemma_literal_rest(spelling: Seq<char>, s: Seq<char>)
    ensures
        is_suffix(spec_literal(spelling, s).rest, s),
        spec_literal(spelling, s).result is Ok ==> spelling.len() > 0,
        spec_literal(spelling, s).result is Ok ==> spec_literal(spelling, s).rest.len() < s.len(),
{
    lemma_matched_len_bound(spelling, s);
    lemma_skip_is_suffix(s, matched_len(spelling, s) as int);
    reveal_strlit("null");
    reveal_strlit("true");
    reveal_strlit("false");
}

/// A string leaves a suffix of its input, and a shorter one.
pub proof fn lemma_string_rest(s: Seq<char>)
    requires
        s.len() > 0,
    ensures
        is_suffix(spec_string(s).rest, s),
        spec_string(s).rest.len() < s.len(),
        spec_string(s).result is Ok ==> spec_string(s).result->Ok_0 is String,
        spec_string(s).result is Err ==> spec_string(s).result->Err_0 == ParseError::InvalidValue,
{
    let body = s.drop_first();
    let n = unquoted_len(body);
    lemma_unquoted_len_bound(body);
    if n < body.len() {
        assert(body.skip(n as int + 1) =~= s.skip(n as int + 2));
    } else {
        assert(Seq::<char>::empty() =~= s.skip(s.len() as int));
    }
}

/// A number leaves a suffix of its input.
pub proof fn lemma_number_rest(s: Seq<char>)
    ensures
        is_suffix(spec_number(s).rest, s),
        s.len() > 0 && is_digit(s[0]) ==> spec_number(s).rest.len() < s.len(),
{
    lemma_digits_len_bound(s);
    lemma_skip_is_suffix(s, digits_len(s) as int);
}

/// Every value leaves a suffix of its input, and a value that was parsed has
/// consumed at least one character.
pub proof fn lemma_value_rest(s: Seq<char>)
    ensures
        is_suffix(spec_value(s).rest, s),
        spec_value(s).result is Ok ==> spec_value(s).rest.len() < s.len(),
    decreases s.len(), 0nat,
{
    if s.len() == 0 {
        assert(s =~= s.skip(0));
    } else if s[0] == 'n' {
        lemma_literal_rest("null"@, s);
    } else if s[0] == 't' {
        lemma_literal_rest("true"@, s);
    } else if s[0] == 'f' {
        lemma_literal_rest("false"@, s);
    } else if s[0] == '"' {
        lemma_string_rest(s);
    } else if s[0] == '[' {
        lemma_elements_rest(s.drop_first(), Seq::empty());
        lemma_skip_is_suffix(s, 1);
        lemma_suffix_trans(spec_value(s).rest, s.drop_first(), s);
    } else if s[0] == '{' {
        lemma_members_rest(s.drop_first(), Map::empty());
        lemma_skip_is_suffix(s, 1);
        lemma_suffix_trans(spec_value(s).rest, s.drop_first(), s);
    } else if is_digit(s[0]) {
        lemma_number_rest(s);
    } else {
        assert(s =~= s.skip(0));
    }
}

/// An element that was parsed is always followed up: the comparison of
/// lengths in `spec_elements` never fails.
pub proof fn lemma_elements_step(s: Seq<char>, items: Seq<JsonValue>)
    ensures
        spec_elements(s, items) == match spec_value(skip_whitespace(s)).result {
            Err(e) => spec_value(skip_whitespace(s)),
            Ok(v) => spec_after_element(spec_value(skip_whitespace(s)).rest, items.push(v)),
        },
{
    lemma_skip_whitespace(s);
    lemma_value_rest(skip_whitespace(s));
}

/// A member's value that was parsed is always followed up: the comparison
/// of lengths in `spec_member_value` never fails.
pub proof fn lemma_member_value_step(
    s: Seq<char>,
    key: Seq<char>,
    members: Map<Seq<char>, JsonValue>,
)
    ensures
        spec_member_value(s, key, members) == match spec_value(skip_whitespace(s)).result {
            Err(e) => spec_value(skip_whitespace(s)),
            Ok(v) => spec_after_member(
                spec_value(skip_whitespace(s)).rest,
                members.insert(key, v),
            ),
        },
{
    lemma_skip_whitespace(s);
    lemma_value_rest(skip_whitespace(s));
}

/// The elements of an array leave a suffix of their input.
pub proof fn lemma_elements_rest(s: Seq<char>, items: Seq<JsonValue>)
    ensures
        is_suffix(spec_elements(s, items).rest, s),
    decreases s.len(), 1nat,
{
    let s1 = skip_whitespace(s);
    lemma_skip_whitespace(s);
    lemma_value_rest(s1);
    let element = spec_value(s1);
    lemma_suffix_trans(element.rest, s1, s);
    match element.result {
        Err(e) => {},
        Ok(v) => {
            lemma_after_element_rest(element.rest, items.push(v));
            lemma_suffix_trans(spec_after_element(element.rest, items.push(v)).rest, element.rest, s);
        },
    }
}

/// What follows an element leaves a suffix of its input.
pub proof fn lemma_after_element_rest(s: Seq<char>, items: Seq<JsonValue>)
    ensures
        is_suffix(spec_after_element(s, items).rest, s),
    decreases s.len(), 1nat,
{
    let s1 = skip_whitespace(s);
    lemma_skip_whitespace(s);
    if s1.len() > 0 && (s1[0] == ']' || s1[0] == ',') {
        lemma_skip_is_suffix(s1, 1);
        lemma_suffix_trans(s1.drop_first(), s1, s);
        if s1[0] == ',' {
            lemma_elements_rest(s1.drop_first(), items);
            lemma_suffix_trans(spec_elements(s1.drop_first(), items).rest, s1.drop_first(), s);
        }
    }
}

/// The members of an object leave a suffix of their input.
pub proof fn lemma_members_rest(s: Seq<char>, members: Map<Seq<char>, JsonValue>)
    ensures
        is_suffix(spec_members(s, members).rest, s),
    decreases s.len(), 1nat,
{
    let s1 = skip_whitespace(s);
    lemma_skip_whitespace(s);
    if s1.len() == 0 || s1[0] != '"' {
    } else {
        let key = spec_string(s1);
        lemma_string_rest(s1);
        lemma_suffix_trans(key.rest, s1, s);
        match key.result {
            Ok(JsonValue::String(k)) => {
                lemma_after_key_rest(key.rest, k, members);
                lemma_suffix_trans(spec_after_key(key.rest, k, members).rest, key.rest, s);
            },
            _ => {},
        }
    }
}

/// What follows a key leaves a suffix of its input.
pub proof fn lemma_after_key_rest(
    s: Seq<char>,
    key: Seq<char>,
    members: Map<Seq<char>, JsonValue>,
)
    ensures
        is_suffix(spec_after_key(s, key, members).rest, s),
    decreases s.len(), 1nat,
{
    let s1 = skip_whitespace(s);
    lemma_skip_whitespace(s);
    if s1.len() == 0 || s1[0] != ':' {
    } else {
        lemma_skip_is_suffix(s1, 1);
        lemma_suffix_trans(s1.drop_first(), s1, s);
        lemma_member_value_rest(s1.drop_first(), key, members);
        lemma_suffix_trans(
            spec_member_value(s1.drop_first(), key, members).rest,
            s1.drop_first(),
            s,
        );
    }
}

/// The value of a member leaves a suffix of its input.
pub proof fn lemma_member_value_rest(
    s: Seq<char>,
    key: Seq<char>,
    members: Map<Seq<char>, JsonValue>,
)
    ensures
        is_suffix(spec_member_value(s, key, members).rest, s),
    decreases s.len(), 1nat,
{
    let s1 = skip_whitespace(s);
    lemma_skip_whitespace(s);
    lemma_value_rest(s1);
    let member = spec_value(s1);
    lemma_suffix_trans(member.rest, s1, s);
    match member.result {
        Err(e) => {},
        Ok(v) => {
            lemma_after_member_rest(member.rest, members.insert(key, v));
            lemma_suffix_trans(
                spec_after_member(member.rest, members.insert(key, v)).rest,
                member.rest,
                s,
            );
        },
    }
}

/// What follows a member leaves a suffix of its input.
pub proof fn lemma_after_member_rest(s: Seq<char>, members: Map<Seq<char>, JsonValue>)
    ensures
        is_suffix(spec_after_member(s, members).rest, s),
    decreases s.len(), 1nat,
{
    let s1 = skip_whitespace(s);
    lemma_skip_whitespace(s);
    if s1.len() > 0 && (s1[0] == '}' || s1[0] == ',') {
        lemma_skip_is_suffix(s1, 1);
        lemma_suffix_trans(s1.drop_first(), s1, s);
        if s1[0] == ',' {
            lemma_members_rest(s1.drop_first(), members);
            lemma_suffix_trans(spec_members(s1.drop_first(), members).rest, s1.drop_first(), s);
        }
    }
}

} // verus!
