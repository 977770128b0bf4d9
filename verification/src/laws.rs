//! What holds of the grammar: how literals, numbers and strings consume
//! their input, which texts fail and how, and that numbers and nested arrays
//! are read back from their spelling.

use crate::error::ParseError;
use crate::grammar::{
    digit_value, digits_len, is_digit, is_whitespace, matched_len, number_modulus, number_value,
    skip_whitespace, spec_elements, spec_literal, spec_number, spec_parse, spec_string,
    spec_value, unquoted_len, Parsed,
};
use crate::progress::lemma_skip_whitespace;
use crate::value::JsonValue;
use vstd::prelude::*;

verus! {

/// Skipping whitespace a second time changes nothing.
pub proof fn lemma_skip_whitespace_idempotent(s: Seq<char>)
    ensures
        skip_whitespace(skip_whitespace(s)) == skip_whitespace(s),
{
    lemma_skip_whitespace(s);
}

/// A text that starts with a spelling matches all of it.
pub proof fn lemma_matched_len_exact(spelling: Seq<char>, tail: Seq<char>)
    ensures
        matched_len(spelling, spelling + tail) == spelling.len(),
    decreases spelling.len(),
{
    if spelling.len() > 0 {
        assert((spelling + tail).drop_first() =~= spelling.drop_first() + tail);
        lemma_matched_len_exact(spelling.drop_first(), tail);
    }
}

/// The characters that agree with a spelling are its first ones.
pub proof fn lemma_matched_prefix(spelling: Seq<char>, s: Seq<char>)
    ensures
        matched_len(spelling, s) <= spelling.len(),
        matched_len(spelling, s) <= s.len(),
        s.take(matched_len(spelling, s) as int) == spelling.take(matched_len(spelling, s) as int),
    decreases spelling.len(),
{
    let n = matched_len(spelling, s) as int;
    if spelling.len() > 0 && s.len() > 0 && spelling[0] == s[0] {
        lemma_matched_prefix(spelling.drop_first(), s.drop_first());
        let m = n - 1;
        assert(s.take(n) =~= seq![s[0]] + s.drop_first().take(m));
        assert(spelling.take(n) =~= seq![spelling[0]] + spelling.drop_first().take(m));
    } else {
        assert(s.take(n) =~= spelling.take(n));
    }
}

/// A literal that was parsed has consumed exactly its spelling: the input
/// was the spelling and then what is left.
pub proof fn lemma_literal_consumed(spelling: Seq<char>, s: Seq<char>)
    requires
        spec_literal(spelling, s).result is Ok,
    ensures
        s == spelling + spec_literal(spelling, s).rest,
        spec_literal(spelling, s).rest == s.skip(spelling.len() as int),
{
    lemma_matched_prefix(spelling, s);
    let n = spelling.len() as int;
    assert(spelling.take(n) =~= spelling);
    assert(s =~= s.take(n) + s.skip(n));
}

/// A number consumes digits and nothing else, and as many as there are:
/// what it leaves does not start with a digit.
pub proof fn lemma_number_consumed(s: Seq<char>)
    ensures
        digits_len(s) <= s.len(),
        forall|i: int| 0 <= i < digits_len(s) ==> is_digit(#[trigger] s[i]),
        s == s.take(digits_len(s) as int) + spec_number(s).rest,
        spec_number(s).rest.len() > 0 ==> !is_digit(spec_number(s).rest[0]),
    decreases s.len(),
{
    let n = digits_len(s) as int;
    if s.len() > 0 && is_digit(s[0]) {
        let t = s.drop_first();
        lemma_number_consumed(t);
        assert forall|i: int| 0 <= i < n implies is_digit(#[trigger] s[i]) by {
            if i > 0 {
                assert(t[i - 1] == s[i]);
            }
        }
        assert(s.skip(n) =~= t.skip(n - 1));
    } else {
        assert(s.skip(0) =~= s);
    }
    assert(s =~= s.take(n) + s.skip(n));
}

/// A string that was parsed has consumed its opening quote, its text, which
/// holds no quote, and its closing quote.
pub proof fn lemma_string_consumed(s: Seq<char>)
    requires
        s.len() > 0,
        spec_string(s).result is Ok,
    ensures
        spec_string(s).result->Ok_0 is String,
        forall|i: int|
            0 <= i < spec_string(s).result->Ok_0->String_0.len() ==> #[trigger] spec_string(
                s,
            ).result->Ok_0->String_0[i] != '"',
        s == seq![s[0]] + spec_string(s).result->Ok_0->String_0 + seq!['"'] + spec_string(s).rest,
{
    let body = s.drop_first();
    lemma_unquoted_run(body);
    let n = unquoted_len(body) as int;
    let text = body.take(n);
    assert(s =~= seq![s[0]] + text + seq!['"'] + body.skip(n + 1));
}

/// The text of a string holds no quote, and a quote follows it where the
/// input goes on.
pub proof fn lemma_unquoted_run(s: Seq<char>)
    ensures
        unquoted_len(s) <= s.len(),
        forall|i: int| 0 <= i < unquoted_len(s) ==> #[trigger] s[i] != '"',
        unquoted_len(s) < s.len() ==> s[unquoted_len(s) as int] == '"',
    decreases s.len(),
{
    if s.len() > 0 && s[0] != '"' {
        let t = s.drop_first();
        lemma_unquoted_run(t);
        assert forall|i: int| 0 <= i < unquoted_len(s) implies #[trigger] s[i] != '"' by {
            if i > 0 {
                assert(t[i - 1] == s[i]);
            }
        }
        if unquoted_len(s) < s.len() {
            assert(t[unquoted_len(t) as int] == s[unquoted_len(s) as int]);
        }
    }
}

/// Each of the literals `null`, `true` and `false`, spelt exactly, parses to
/// its value, consumes its own characters and leaves what follows them.
pub proof fn lemma_literals(tail: Seq<char>)
    ensures
        spec_value("null"@ + tail) == (Parsed { result: Ok(JsonValue::Null), rest: tail }),
        spec_value("true"@ + tail) == (Parsed { result: Ok(JsonValue::True), rest: tail }),
        spec_value("false"@ + tail) == (Parsed { result: Ok(JsonValue::False), rest: tail }),
        spec_parse("null"@) == Ok::<JsonValue, ParseError>(JsonValue::Null),
        spec_parse("true"@) == Ok::<JsonValue, ParseError>(JsonValue::True),
        spec_parse("false"@) == Ok::<JsonValue, ParseError>(JsonValue::False),
{
    reveal_strlit("null");
    reveal_strlit("true");
    reveal_strlit("false");
    let empty = Seq::<char>::empty();
    lemma_matched_len_exact("null"@, tail);
    lemma_matched_len_exact("true"@, tail);
    lemma_matched_len_exact("false"@, tail);
    lemma_matched_len_exact("null"@, empty);
    lemma_matched_len_exact("true"@, empty);
    lemma_matched_len_exact("false"@, empty);
    assert(("null"@ + tail).skip(4) =~= tail);
    assert(("true"@ + tail).skip(4) =~= tail);
    assert(("false"@ + tail).skip(5) =~= tail);
    assert("null"@ + empty =~= "null"@);
    assert("true"@ + empty =~= "true"@);
    assert("false"@ + empty =~= "false"@);
}

/// A text of nothing but whitespace, the empty text among them, fails for
/// want of a value.
pub proof fn lemma_blank_text(text: Seq<char>)
    requires
        forall|i: int| 0 <= i < text.len() ==> is_whitespace(#[trigger] text[i]),
    ensures
        spec_parse(text) == Err::<JsonValue, ParseError>(ParseError::ExpectValue),
    decreases text.len(),
{
    if text.len() > 0 {
        assert(is_whitespace(text[0]));
        assert forall|i: int| 0 <= i < text.drop_first().len() implies is_whitespace(
            #[trigger] text.drop_first()[i],
        ) by {
            assert(text.drop_first()[i] == text[i + 1]);
        }
        lemma_blank_text(text.drop_first());
    }
}

/// The characters that a value can start with.
pub open spec fn starts_value(c: char) -> bool {
    c == 'n' || c == 't' || c == 'f' || c == '"' || c == '[' || c == '{' || is_digit(c)
}

/// A text whose first character after the whitespace starts no value is an
/// invalid value, whatever follows.
pub proof fn lemma_unrecognized_start(text: Seq<char>)
    requires
        skip_whitespace(text).len() > 0,
        !starts_value(skip_whitespace(text)[0]),
    ensures
        spec_parse(text) == Err::<JsonValue, ParseError>(ParseError::InvalidValue),
{
}

/// A string without a closing quote is an invalid value.
pub proof fn lemma_unterminated_string(body: Seq<char>)
    requires
        forall|i: int| 0 <= i < body.len() ==> #[trigger] body[i] != '"',
    ensures
        spec_parse(seq!['"'] + body) == Err::<JsonValue, ParseError>(ParseError::InvalidValue),
{
    let s = seq!['"'] + body;
    assert(s.drop_first() =~= body);
    lemma_unquoted_run(body);
}

/// The digit that stands for a number below ten.
pub open spec fn digit_char(d: nat) -> char
    recommends
        d < 10,
{
    (d + '0' as nat) as u8 as char
}

/// The canonical decimal spelling of a number: no sign, no leading zero but
/// for zero itself.
pub open spec fn decimal(n: nat) -> Seq<char>
    decreases n,
{
    if n < 10 {
        seq![digit_char(n)]
    } else {
        decimal(n / 10).push(digit_char(n % 10))
    }
}

/// A decimal spelling holds digits only, and at least one.
pub proof fn lemma_decimal_digits(n: nat)
    ensures
        decimal(n).len() > 0,
        forall|i: int| 0 <= i < decimal(n).len() ==> is_digit(#[trigger] decimal(n)[i]),
    decreases n,
{
    if n >= 10 {
        lemma_decimal_digits(n / 10);
    }
}

/// A run of digits that is followed by no digit is read as a whole.
pub proof fn lemma_digits_len_run(digits: Seq<char>, tail: Seq<char>)
    requires
        forall|i: int| 0 <= i < digits.len() ==> is_digit(#[trigger] digits[i]),
        tail.len() > 0 ==> !is_digit(tail[0]),
    ensures
        digits_len(digits + tail) == digits.len(),
    decreases digits.len(),
{
    if digits.len() > 0 {
        assert((digits + tail).drop_first() =~= digits.drop_first() + tail);
        assert forall|i: int| 0 <= i < digits.drop_first().len() implies is_digit(
            #[trigger] digits.drop_first()[i],
        ) by {
            assert(digits.drop_first()[i] == digits[i + 1]);
        }
        lemma_digits_len_run(digits.drop_first(), tail);
        assert((digits + tail)[0] == digits[0]);
    } else {
        assert(digits + tail =~= tail);
    }
}

/// The digits of a number that fits accumulate to that number.
pub proof fn lemma_number_value_decimal(n: nat)
    requires
        n < number_modulus(),
    ensures
        number_value(decimal(n)) == n,
    decreases n,
{
    if n < 10 {
        assert(decimal(n).drop_last() =~= Seq::<char>::empty());
        assert(number_value(decimal(n).drop_last()) == 0);
        assert(digit_value(decimal(n).last()) == n);
    } else {
        lemma_number_value_decimal(n / 10);
        assert(decimal(n).drop_last() =~= decimal(n / 10));
        assert(digit_value(decimal(n).last()) == n % 10);
    }
}

/// Every number that fits is parsed back from its canonical decimal
/// spelling: the spelling is consumed and what follows it is left, as long
/// as that is no further digit.
pub proof fn lemma_decimal_round_trip(n: nat, tail: Seq<char>)
    requires
        n < number_modulus(),
        tail.len() > 0 ==> !is_digit(tail[0]),
    ensures
        spec_number(decimal(n) + tail) == (Parsed { result: Ok(JsonValue::Number(n)), rest: tail }),
        spec_value(decimal(n) + tail) == (Parsed { result: Ok(JsonValue::Number(n)), rest: tail }),
        spec_parse(decimal(n)) == Ok::<JsonValue, ParseError>(JsonValue::Number(n)),
{
    let digits = decimal(n);
    let empty = Seq::<char>::empty();
    lemma_decimal_digits(n);
    lemma_number_value_decimal(n);
    lemma_digits_len_run(digits, tail);
    lemma_digits_len_run(digits, empty);
    assert((digits + tail).take(digits.len() as int) =~= digits);
    assert((digits + tail).skip(digits.len() as int) =~= tail);
    assert((digits + tail)[0] == digits[0]);
    assert(digits + empty =~= digits);
    assert(digits.take(digits.len() as int) =~= digits);
    assert(is_digit(digits[0]));
    assert(skip_whitespace(digits) == digits);
    assert(spec_value(digits) == spec_number(digits));
}

/// `depth` opening brackets, `null`, and `depth` closing brackets.
pub open spec fn nested_text(depth: nat) -> Seq<char>
    decreases depth,
{
    if depth == 0 {
        "null"@
    } else {
        seq!['['] + nested_text((depth - 1) as nat) + seq![']']
    }
}

/// `null` inside `depth` arrays of one element each.
pub open spec fn nested_value(depth: nat) -> JsonValue
    decreases depth,
{
    if depth == 0 {
        JsonValue::Null
    } else {
        JsonValue::Array(seq![nested_value((depth - 1) as nat)])
    }
}

/// Arrays nested to any depth parse to the tree of that depth, and leave
/// what follows the last closing bracket.
pub proof fn lemma_nested_arrays(depth: nat, tail: Seq<char>)
    ensures
        spec_value(nested_text(depth) + tail) == (Parsed {
            result: Ok(nested_value(depth)),
            rest: tail,
        }),
    decreases depth,
{
    if depth == 0 {
        lemma_literals(tail);
    } else {
        let inner = nested_text((depth - 1) as nat);
        let s = nested_text(depth) + tail;
        let after = seq![']'] + tail;
        lemma_nested_arrays((depth - 1) as nat, after);
        assert(s.drop_first() =~= inner + after);
        assert(inner.len() > 0 && !is_whitespace(inner[0])) by {
            reveal_strlit("null");
        }
        assert((inner + after)[0] == inner[0]);
        assert(after.drop_first() =~= tail);
        assert(Seq::<JsonValue>::empty().push(nested_value((depth - 1) as nat)) =~= seq![
            nested_value((depth - 1) as nat),
        ]);
        assert(spec_value(s) == spec_elements(s.drop_first(), Seq::empty()));
    }
}

} // verus!
