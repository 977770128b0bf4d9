//! Texts that are put together by the rules of the grammar parse to the
//! values that are put together alongside.

use crate::grammar::{
    is_digit, is_whitespace, number_modulus, number_value, skip_whitespace, spec_after_key,
    spec_after_member, spec_elements, spec_member_value, spec_members, spec_number, spec_string,
    spec_value, unquoted_len, Parsed,
};
use crate::laws::{
    decimal, lemma_decimal_round_trip, lemma_digits_len_run, lemma_literals, lemma_unquoted_run,
};
use crate::progress::lemma_value_rest;
use crate::value::JsonValue;
use crate::whitespace::is_structural;
use vstd::prelude::*;

verus! {

/// What may stand directly behind a value: nothing, whitespace or a
/// structural character.
pub open spec fn ends_value(tail: Seq<char>) -> bool {
    tail.len() == 0 || is_whitespace(tail[0]) || is_structural(tail[0])
}

/// `text` spells `value`: whatever stands behind it, `text` is consumed, no
/// more and no less, and parses to `value`.
pub open spec fn is_text_of(text: Seq<char>, value: JsonValue) -> bool {
    forall|tail: Seq<char>|
        ends_value(tail) ==> #[trigger] spec_value(text + tail) == (Parsed {
            result: Ok(value),
            rest: tail,
        })
}

/// The spellings of the elements of an array, with `,` between them and `]`
/// behind the last.
pub open spec fn elements_text(texts: Seq<Seq<char>>) -> Seq<char>
    decreases texts.len(),
{
    if texts.len() == 0 {
        Seq::empty()
    } else if texts.len() == 1 {
        texts[0] + seq![']']
    } else {
        texts[0] + seq![','] + elements_text(texts.drop_first())
    }
}

/// The spelling of a key: its characters between quotes.
pub open spec fn key_text(key: Seq<char>) -> Seq<char> {
    seq!['"'] + key + seq!['"']
}

/// The spellings of the members of an object, each a key, `:` and a value,
/// with `,` between them and `}` behind the last.
pub open spec fn members_text(keys: Seq<Seq<char>>, texts: Seq<Seq<char>>) -> Seq<char>
    decreases keys.len(),
{
    if keys.len() == 0 || texts.len() == 0 {
        Seq::empty()
    } else if keys.len() == 1 {
        key_text(keys[0]) + seq![':'] + texts[0] + seq!['}']
    } else {
        key_text(keys[0]) + seq![':'] + texts[0] + seq![','] + members_text(
            keys.drop_first(),
            texts.drop_first(),
        )
    }
}

/// The mapping that members make when they are added to `members` in their
/// order.
pub open spec fn members_map(
    members: Map<Seq<char>, JsonValue>,
    keys: Seq<Seq<char>>,
    values: Seq<JsonValue>,
) -> Map<Seq<char>, JsonValue>
    decreases keys.len(),
{
    if keys.len() == 0 || values.len() == 0 {
        members
    } else {
        members_map(members.insert(keys[0], values[0]), keys.drop_first(), values.drop_first())
    }
}

/// The literals spell their values.
pub proof fn lemma_literal_texts()
    ensures
        is_text_of("null"@, JsonValue::Null),
        is_text_of("true"@, JsonValue::True),
        is_text_of("false"@, JsonValue::False),
{
    assert forall|tail: Seq<char>| ends_value(tail) implies #[trigger] spec_value("null"@ + tail)
        == (Parsed { result: Ok(JsonValue::Null), rest: tail }) by {
        lemma_literals(tail);
    }
    assert forall|tail: Seq<char>| ends_value(tail) implies #[trigger] spec_value("true"@ + tail)
        == (Parsed { result: Ok(JsonValue::True), rest: tail }) by {
        lemma_literals(tail);
    }
    assert forall|tail: Seq<char>| ends_value(tail) implies #[trigger] spec_value(
        "false"@ + tail,
    ) == (Parsed { result: Ok(JsonValue::False), rest: tail }) by {
        lemma_literals(tail);
    }
}

/// A run of digits spells the number that it accumulates to.
pub proof fn lemma_digits_text(digits: Seq<char>)
    requires
        digits.len() > 0,
        forall|i: int| 0 <= i < digits.len() ==> is_digit(#[trigger] digits[i]),
    ensures
        is_text_of(digits, JsonValue::Number(number_value(digits))),
{
    assert forall|tail: Seq<char>| ends_value(tail) implies #[trigger] spec_value(digits + tail)
        == (Parsed { result: Ok(JsonValue::Number(number_value(digits))), rest: tail }) by {
        let s = digits + tail;
        lemma_digits_len_run(digits, tail);
        assert(s[0] == digits[0]);
        assert(is_digit(digits[0]));
        assert(s.take(digits.len() as int) =~= digits);
        assert(s.skip(digits.len() as int) =~= tail);
        assert(spec_value(s) == spec_number(s));
    }
}

/// The decimal spelling of a number that fits spells that number.
pub proof fn lemma_decimal_text(n: nat)
    requires
        n < number_modulus(),
    ensures
        is_text_of(decimal(n), JsonValue::Number(n)),
{
    assert forall|tail: Seq<char>| ends_value(tail) implies #[trigger] spec_value(
        decimal(n) + tail,
    ) == (Parsed { result: Ok(JsonValue::Number(n)), rest: tail }) by {
        lemma_decimal_round_trip(n, tail);
    }
}

/// Characters without a quote among them, put between quotes, spell the
/// string of these characters.
pub proof fn lemma_string_text(text: Seq<char>)
    requires
        forall|i: int| 0 <= i < text.len() ==> #[trigger] text[i] != '"',
    ensures
        is_text_of(key_text(text), JsonValue::String(text)),
{
    assert forall|tail: Seq<char>| ends_value(tail) implies #[trigger] spec_value(
        key_text(text) + tail,
    ) == (Parsed { result: Ok(JsonValue::String(text)), rest: tail }) by {
        lemma_quoted(text, tail);
    }
}

/// A quoted text is consumed up to its closing quote, whatever follows.
pub proof fn lemma_quoted(text: Seq<char>, tail: Seq<char>)
    requires
        forall|i: int| 0 <= i < text.len() ==> #[trigger] text[i] != '"',
    ensures
        spec_string(key_text(text) + tail) == (Parsed {
            result: Ok(JsonValue::String(text)),
            rest: tail,
        }),
        spec_value(key_text(text) + tail) == spec_string(key_text(text) + tail),
{
    let s = key_text(text) + tail;
    let body = s.drop_first();
    assert(body =~= text + (seq!['"'] + tail));
    lemma_unquoted_run(body);
    let n = unquoted_len(body) as int;
    assert(n == text.len()) by {
        if n < text.len() {
            assert(body[n] == text[n]);
        }
        if n > text.len() {
            assert(body[text.len() as int] == '"');
        }
    }
    assert(body.take(n) =~= text);
    assert(body.skip(n + 1) =~= tail);
    assert(s[0] == '"');
}

/// What spells a value starts with a character that is no whitespace.
pub proof fn lemma_text_starts(text: Seq<char>, value: JsonValue)
    requires
        is_text_of(text, value),
    ensures
        text.len() > 0,
        !is_whitespace(text[0]),
{
    let empty = Seq::<char>::empty();
    assert(ends_value(empty));
    assert(text + empty =~= text);
    assert(spec_value(text + empty).result is Ok);
}

/// The spellings of values, put together as the elements of an array, are
/// parsed to these values in their order, behind the elements `items` that
/// came before them.
pub proof fn lemma_elements_text(
    texts: Seq<Seq<char>>,
    values: Seq<JsonValue>,
    items: Seq<JsonValue>,
    tail: Seq<char>,
)
    requires
        texts.len() > 0,
        texts.len() == values.len(),
        forall|i: int| 0 <= i < texts.len() ==> is_text_of(#[trigger] texts[i], values[i]),
    ensures
        spec_elements(elements_text(texts) + tail, items) == (Parsed {
            result: Ok(JsonValue::Array(items + values)),
            rest: tail,
        }),
    decreases texts.len(),
{
    let s = elements_text(texts) + tail;
    let first = texts[0];
    assert(is_text_of(first, values[0]));
    lemma_text_starts(first, values[0]);
    let after = if texts.len() == 1 {
        seq![']'] + tail
    } else {
        seq![','] + (elements_text(texts.drop_first()) + tail)
    };
    assert(s =~= first + after);
    assert(s[0] == first[0]);
    assert(skip_whitespace(s) == s);
    assert(ends_value(after));
    assert(spec_value(first + after) == (Parsed { result: Ok(values[0]), rest: after }));
    lemma_value_rest(s);
    assert(skip_whitespace(after) == after);
    let pushed = items.push(values[0]);
    if texts.len() == 1 {
        assert(after.drop_first() =~= tail);
        assert(pushed =~= items + values);
    } else {
        assert(after.drop_first() =~= elements_text(texts.drop_first()) + tail);
        assert forall|i: int| 0 <= i < texts.drop_first().len() implies is_text_of(
            #[trigger] texts.drop_first()[i],
            values.drop_first()[i],
        ) by {
            assert(texts.drop_first()[i] == texts[i + 1]);
            assert(values.drop_first()[i] == values[i + 1]);
        }
        lemma_elements_text(texts.drop_first(), values.drop_first(), pushed, tail);
        assert(pushed + values.drop_first() =~= items + values);
    }
}

/// An array of spelt values spells the array of these values.
pub proof fn lemma_array_text(texts: Seq<Seq<char>>, values: Seq<JsonValue>)
    requires
        texts.len() > 0,
        texts.len() == values.len(),
        forall|i: int| 0 <= i < texts.len() ==> is_text_of(#[trigger] texts[i], values[i]),
    ensures
        is_text_of(seq!['['] + elements_text(texts), JsonValue::Array(values)),
{
    assert forall|tail: Seq<char>| ends_value(tail) implies #[trigger] spec_value(
        seq!['['] + elements_text(texts) + tail,
    ) == (Parsed { result: Ok(JsonValue::Array(values)), rest: tail }) by {
        let s = seq!['['] + elements_text(texts) + tail;
        assert(s.drop_first() =~= elements_text(texts) + tail);
        lemma_elements_text(texts, values, Seq::empty(), tail);
        assert(Seq::<JsonValue>::empty() + values =~= values);
    }
}

/// The spellings of keys and values, put together as the members of an
/// object, are parsed to the mapping that these members make in their order
/// when they are added to `members`.
pub proof fn lemma_members_text(
    keys: Seq<Seq<char>>,
    texts: Seq<Seq<char>>,
    values: Seq<JsonValue>,
    members: Map<Seq<char>, JsonValue>,
    tail: Seq<char>,
)
    requires
        keys.len() > 0,
        keys.len() == texts.len(),
        keys.len() == values.len(),
        forall|i: int, j: int|
            0 <= i < keys.len() && 0 <= j < keys[i].len() ==> #[trigger] keys[i][j] != '"',
        forall|i: int| 0 <= i < texts.len() ==> is_text_of(#[trigger] texts[i], values[i]),
    ensures
        spec_members(members_text(keys, texts) + tail, members) == (Parsed {
            result: Ok(JsonValue::Object(members_map(members, keys, values))),
            rest: tail,
        }),
    decreases keys.len(),
{
    let s = members_text(keys, texts) + tail;
    let key = keys[0];
    let text = texts[0];
    assert(is_text_of(text, values[0]));
    lemma_text_starts(text, values[0]);
    let after = if keys.len() == 1 {
        seq!['}'] + tail
    } else {
        seq![','] + (members_text(keys.drop_first(), texts.drop_first()) + tail)
    };
    let from_colon = seq![':'] + (text + after);
    assert(s =~= key_text(key) + from_colon);
    assert(s[0] == '"');
    assert(skip_whitespace(s) == s);
    assert forall|j: int| 0 <= j < key.len() implies #[trigger] key[j] != '"' by {
        assert(keys[0][j] != '"');
    }
    lemma_quoted(key, from_colon);
    // Behind the key: the colon, then the value.
    assert(skip_whitespace(from_colon) == from_colon);
    assert(from_colon.drop_first() =~= text + after);
    assert((text + after)[0] == text[0]);
    assert(skip_whitespace(text + after) == text + after);
    assert(ends_value(after));
    assert(spec_value(text + after) == (Parsed { result: Ok(values[0]), rest: after }));
    lemma_value_rest(text + after);
    // Behind the value: the end of the object, or the next member.
    assert(skip_whitespace(after) == after);
    let bound = members.insert(key, values[0]);
    assert(spec_member_value(text + after, key, members) == spec_after_member(after, bound));
    assert(spec_after_key(from_colon, key, members) == spec_after_member(after, bound));
    assert(spec_members(s, members) == spec_after_member(after, bound));
    if keys.len() == 1 {
        assert(after.drop_first() =~= tail);
        assert(members_map(bound, keys.drop_first(), values.drop_first()) == bound);
    } else {
        assert(after.drop_first() =~= members_text(keys.drop_first(), texts.drop_first()) + tail);
        assert forall|i: int| 0 <= i < texts.drop_first().len() implies is_text_of(
            #[trigger] texts.drop_first()[i],
            values.drop_first()[i],
        ) by {
            assert(texts.drop_first()[i] == texts[i + 1]);
            assert(values.drop_first()[i] == values[i + 1]);
        }
        assert forall|i: int, j: int|
            0 <= i < keys.drop_first().len() && 0 <= j < keys.drop_first()[i].len()
            implies #[trigger] keys.drop_first()[i][j] != '"' by {
            assert(keys.drop_first()[i] == keys[i + 1]);
            assert(keys[i + 1][j] != '"');
        }
        lemma_members_text(
            keys.drop_first(),
            texts.drop_first(),
            values.drop_first(),
            bound,
            tail,
        );
    }
}

/// An object of keys and spelt values spells the mapping that its members
/// make in their order, a later one replacing an earlier one with its key.
pub proof fn lemma_object_text(
    keys: Seq<Seq<char>>,
    texts: Seq<Seq<char>>,
    values: Seq<JsonValue>,
)
    requires
        keys.len() > 0,
        keys.len() == texts.len(),
        keys.len() == values.len(),
        forall|i: int, j: int|
            0 <= i < keys.len() && 0 <= j < keys[i].len() ==> #[trigger] keys[i][j] != '"',
        forall|i: int| 0 <= i < texts.len() ==> is_text_of(#[trigger] texts[i], values[i]),
    ensures
        is_text_of(
            seq!['{'] + members_text(keys, texts),
            JsonValue::Object(members_map(Map::empty(), keys, values)),
        ),
{
    assert forall|tail: Seq<char>| ends_value(tail) implies #[trigger] spec_value(
        seq!['{'] + members_text(keys, texts) + tail,
    ) == (Parsed {
        result: Ok(JsonValue::Object(members_map(Map::empty(), keys, values))),
        rest: tail,
    }) by {
        let s = seq!['{'] + members_text(keys, texts) + tail;
        assert(s.drop_first() =~= members_text(keys, texts) + tail);
        lemma_members_text(keys, texts, values, Map::empty(), tail);
    }
}

} // verus!
