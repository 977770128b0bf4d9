//! The parser: one method for each position of the grammar.

use crate::cursor::Cursor;
use crate::error::ParseError;
use crate::grammar::{
    digit_value, digits_len, matched_len, number_modulus, number_value, skip_whitespace,
    spec_array, spec_elements, spec_literal, spec_members, spec_number, spec_object, spec_parse,
    spec_string, spec_value, unquoted_len,
};
use crate::progress::{lemma_skip_whitespace, lemma_string_rest, lemma_value_rest};
use crate::text::{chars_of, collect_chars, same_text};
use crate::value::{items_view, Json, JsonValue, Object};
use vstd::prelude::*;
use vstd::std_specs::iter::IteratorSpec;

verus! {

/// What a sub-parser returned, with the tree replaced by the value that it
/// stands for.
pub open spec fn outcome(r: Result<Json, ParseError>) -> Result<JsonValue, ParseError> {
    match r {
        Ok(json) => Ok(json@),
        Err(e) => Err(e),
    }
}

/// A recursive-descent parser over one input.
pub struct Parser {
    cursor: Cursor,
}

impl Parser {
    /// The input that has not been consumed, the lookahead first.
    pub closed spec fn view(&self) -> Seq<char> {
        self.cursor@
    }

    /// A parser over the characters that `input` yields, with the first of
    /// them as its lookahead. The input has to come to an end: the parser
    /// reads all of it at once.
    pub fn new<T: Iterator<Item = char>>(input: T) -> (parser: Parser)
        requires
            input.obeys_prophetic_iter_laws(),
            input.decrease() is Some,
        ensures
            parser@ == input.remaining(),
    {
        Parser { cursor: Cursor::new(collect_chars(input)) }
    }

    /// The lookahead, or `None` where the input is exhausted.
    pub fn current(&self) -> (ch: Option<char>)
        ensures
            ch == (if self@.len() > 0 {
                Some(self@[0])
            } else {
                None
            }),
    {
        self.cursor.current()
    }

    /// Consumes the lookahead. On exhausted input nothing changes.
    pub fn next_char(&mut self)
        ensures
            old(self)@.len() > 0 ==> final(self)@ == old(self)@.drop_first(),
            old(self)@.len() == 0 ==> final(self)@ == old(self)@,
    {
        self.cursor.advance();
    }

    /// Consumes whitespace up to the first character that is none, or to the
    /// end of the input.
    pub fn parse_whitespace(&mut self)
        ensures
            final(self)@ == skip_whitespace(old(self)@),
    {
        loop
            invariant
                skip_whitespace(self@) == skip_whitespace(old(self)@),
            ensures
                self@ == skip_whitespace(old(self)@),
            decreases self@.len(),
        {
            match self.current() {
                Some(c) => {
                    if c == ' ' || c == '\n' || c == '\r' || c == '\t' {
                        self.next_char();
                    } else {
                        break ;
                    }
                },
                None => {
                    break ;
                },
            }
        }
    }

    /// Parses a run of digits into the number that it spells. The run may be
    /// empty, and the number wraps around where it does not fit.
    pub fn parse_number(&mut self) -> (r: Result<Json, ParseError>)
        ensures
            outcome(r) == spec_number(old(self)@).result,
            final(self)@ == spec_number(old(self)@).rest,
    {
        let mut num: u32 = 0;
        let ghost start = self@;
        let ghost mut taken: int = 0;
        proof {
            assert(start.skip(0) =~= start);
        }
        loop
            invariant
                0 <= taken <= start.len(),
                self@ == start.skip(taken),
                num == number_value(start.take(taken)),
                taken + digits_len(self@) == digits_len(start),
            ensures
                digits_len(self@) == 0,
            decreases self@.len(),
        {
            match self.current() {
                Some(ch) => {
                    if '0' <= ch && ch <= '9' {
                        let digit: u32 = ch as u32 - '0' as u32;
                        proof {
                            lemma_number_step(start.take(taken + 1));
                            assert(start.take(taken + 1).drop_last() =~= start.take(taken));
                            assert(start.skip(taken).drop_first() =~= start.skip(taken + 1));
                            lemma_wrapping_step(num, digit);
                            taken = taken + 1;
                        }
                        num = num.wrapping_mul(10).wrapping_add(digit);
                        self.next_char();
                    } else {
                        break ;
                    }
                },
                None => {
                    break ;
                },
            }
        }
        Ok(Json::Number(num))
    }

    /// Parses the literal that `s` spells: consumes the input while it agrees
    /// with `s`, and fails at the first character that does not, or where the
    /// input ends before `s` does. A spelling other than `null`, `true` and
    /// `false` is consumed like these and then fails.
    pub fn parse_literals(&mut self, s: &str) -> (r: Result<Json, ParseError>)
        ensures
            outcome(r) == spec_literal(s@, old(self)@).result,
            final(self)@ == spec_literal(s@, old(self)@).rest,
    {
        let spelling = chars_of(s);
        let ghost start = self@;
        let mut i: usize = 0;
        proof {
            assert(start.skip(0) =~= start);
            assert(spelling@.skip(0) =~= spelling@);
        }
        while i < spelling.len()
            invariant
                spelling@ == s@,
                start == old(self)@,
                i <= spelling.len(),
                i <= start.len(),
                self@ == start.skip(i as int),
                matched_len(spelling@, start) == i + matched_len(
                    spelling@.skip(i as int),
                    self@,
                ),
            decreases spelling.len() - i,
        {
            proof {
                assert(spelling@.skip(i as int).drop_first() =~= spelling@.skip(i + 1));
                assert(spelling@.skip(i as int)[0] == spelling@[i as int]);
            }
            match self.current() {
                Some(y) => {
                    if spelling[i] != y {
                        return Err(ParseError::InvalidLiteral);
                    }
                    proof {
                        assert(start.skip(i as int).drop_first() =~= start.skip(i + 1));
                    }
                    self.next_char();
                },
                None => {
                    return Err(ParseError::InvalidLiteral);
                },
            }
            i += 1;
        }
        if same_text(s, "null") {
            Ok(Json::Null)
        } else if same_text(s, "true") {
            Ok(Json::True)
        } else if same_text(s, "false") {
            Ok(Json::False)
        } else {
            Err(ParseError::InvalidLiteral)
        }
    }

    /// Parses a string: consumes the opening quote, takes every character up
    /// to the next quote as it is, and consumes that quote too. Input that
    /// ends before the closing quote is consumed whole, and the parse fails.
    pub fn parse_string(&mut self) -> (r: Result<Json, ParseError>)
        requires
            old(self)@.len() > 0,
            old(self)@[0] == '"',
        ensures
            outcome(r) == spec_string(old(self)@).result,
            final(self)@ == spec_string(old(self)@).rest,
    {
        let mut s = String::new();
        self.next_char();
        let ghost body = self@;
        let ghost mut taken: int = 0;
        proof {
            assert(body.skip(0) =~= body);
            assert(body.take(0) =~= Seq::<char>::empty());
        }
        loop
            invariant
                body == old(self)@.drop_first(),
                0 <= taken <= body.len(),
                self@ == body.skip(taken),
                s@ == body.take(taken),
                unquoted_len(body) == taken + unquoted_len(self@),
            decreases self@.len(),
        {
            match self.current() {
                Some(x) => {
                    if x == '"' {
                        self.next_char();
                        proof {
                            assert(body.skip(taken).drop_first() =~= body.skip(taken + 1));
                        }
                        return Ok(Json::String(s));
                    }
                    s.push(x);
                    self.next_char();
                    proof {
                        assert(body.take(taken + 1) =~= body.take(taken).push(body[taken]));
                        assert(body.skip(taken).drop_first() =~= body.skip(taken + 1));
                        taken = taken + 1;
                    }
                },
                None => {
                    proof {
                        assert(self@ =~= Seq::<char>::empty());
                    }
                    return Err(ParseError::InvalidValue);
                },
            }
        }
    }

    /// Parses the value that the lookahead announces, without looking at more
    /// than that one character to choose: `n`, `t` and `f` start a literal,
    /// a quote a string, `[` an array, `{` an object and a digit a number.
    /// Exhausted input and any other character are failures.
    pub fn parse_value(&mut self) -> (r: Result<Json, ParseError>)
        ensures
            outcome(r) == spec_value(old(self)@).result,
            final(self)@ == spec_value(old(self)@).rest,
        decreases old(self)@.len(), 1nat,
    {
        match self.current() {
            None => Err(ParseError::ExpectValue),
            Some(c) => {
                if c == 'n' {
                    self.parse_literals("null")
                } else if c == 't' {
                    self.parse_literals("true")
                } else if c == 'f' {
                    self.parse_literals("false")
                } else if c == '"' {
                    self.parse_string()
                } else if c == '[' {
                    self.parse_array()
                } else if c == '{' {
                    self.parse_object()
                } else if '0' <= c && c <= '9' {
                    self.parse_number()
                } else {
                    Err(ParseError::InvalidValue)
                }
            },
        }
    }

    /// Parses an array: consumes `[`, then element after element, each with
    /// whitespace around it, up to the `]` that follows one of them. The
    /// first element that fails ends the parse with its failure; an element
    /// followed by neither `,` nor `]` ends it with `InvalidArray`.
    pub fn parse_array(&mut self) -> (r: Result<Json, ParseError>)
        requires
            old(self)@.len() > 0,
            old(self)@[0] == '[',
        ensures
            outcome(r) == spec_array(old(self)@).result,
            final(self)@ == spec_array(old(self)@).rest,
        decreases old(self)@.len(), 0nat,
    {
        let mut arr: Vec<Json> = Vec::new();
        self.next_char();
        loop
            invariant
                self@.len() < old(self)@.len(),
                spec_elements(self@, items_view(arr@)) == spec_array(old(self)@),
            decreases self@.len(),
        {
            let ghost s = self@;
            let ghost items = items_view(arr@);
            self.parse_whitespace();
            proof {
                lemma_skip_whitespace(s);
                lemma_value_rest(self@);
            }
            let res = self.parse_value();
            match res {
                Ok(x) => {
                    proof {
                        lemma_skip_whitespace(self@);
                        assert(arr@.push(x).drop_last() =~= arr@);
                    }
                    arr.push(x);
                    self.parse_whitespace();
                    match self.current() {
                        Some(c) => {
                            if c == ']' {
                                self.next_char();
                                return Ok(Json::Array(arr));
                            } else if c == ',' {
                                self.next_char();
                            } else {
                                return Err(ParseError::InvalidArray);
                            }
                        },
                        None => {
                            return Err(ParseError::InvalidArray);
                        },
                    }
                },
                Err(e) => {
                    return Err(e);
                },
            }
        }
    }

    /// Parses an object: consumes `{`, then member after member up to the
    /// `}` that follows one of them. A member is a quoted key, `:` and a
    /// value, with whitespace around each. A key that occurs again replaces
    /// the value that it had. A key or a value that fails ends the parse with
    /// its failure; a missing quote or `:`, and a member followed by neither
    /// `,` nor `}`, end it with `InvalidObject`.
    pub fn parse_object(&mut self) -> (r: Result<Json, ParseError>)
        requires
            old(self)@.len() > 0,
            old(self)@[0] == '{',
        ensures
            outcome(r) == spec_object(old(self)@).result,
            final(self)@ == spec_object(old(self)@).rest,
        decreases old(self)@.len(), 0nat,
    {
        let mut h = Object::new();
        self.next_char();
        loop
            invariant
                self@.len() < old(self)@.len(),
                spec_members(self@, h@) == spec_object(old(self)@),
            decreases self@.len(),
        {
            let ghost s = self@;
            self.parse_whitespace();
            proof {
                lemma_skip_whitespace(s);
            }
            match self.current() {
                Some(q) => {
                    if q != '"' {
                        return Err(ParseError::InvalidObject);
                    }
                },
                None => {
                    return Err(ParseError::InvalidObject);
                },
            }
            proof {
                lemma_string_rest(self@);
            }
            let k = match self.parse_string() {
                Ok(k) => k,
                Err(e) => {
                    return Err(e);
                },
            };
            proof {
                lemma_skip_whitespace(self@);
            }
            self.parse_whitespace();
            match self.current() {
                Some(x) => {
                    if x == ':' {
                        self.next_char();
                        proof {
                            lemma_skip_whitespace(self@);
                        }
                        self.parse_whitespace();
                        proof {
                            lemma_value_rest(self@);
                        }
                        let v = match self.parse_value() {
                            Ok(v) => v,
                            Err(e) => {
                                return Err(e);
                            },
                        };
                        // What `parse_string` returns is always a string.
                        if let Json::String(x) = k {
                            h.insert(x, v);
                        } else {
                            return Err(ParseError::InvalidObject);
                        }
                        proof {
                            lemma_skip_whitespace(self@);
                        }
                        self.parse_whitespace();
                        match self.current() {
                            Some(c) => {
                                if c == ',' {
                                    self.next_char();
                                } else if c == '}' {
                                    self.next_char();
                                    return Ok(Json::Object(h));
                                } else {
                                    return Err(ParseError::InvalidObject);
                                }
                            },
                            None => {
                                return Err(ParseError::InvalidObject);
                            },
                        }
                    } else {
                        return Err(ParseError::InvalidObject);
                    }
                },
                None => {
                    return Err(ParseError::InvalidObject);
                },
            }
        }
    }
}

/// Parses a text into the value that it starts with: whitespace, then one
/// value. What follows the value is not looked at.
pub fn parse(s: &String) -> (r: Result<Json, ParseError>)
    ensures
        outcome(r) == spec_parse(s@),
{
    let mut parser = Parser::new(s.as_str().chars());
    parser.parse_whitespace();
    parser.parse_value()
}

/// The number of a non-empty run of digits, from the number of the run
/// without its last digit.
proof fn lemma_number_step(digits: Seq<char>)
    requires
        digits.len() > 0,
    ensures
        number_value(digits) == (number_value(digits.drop_last()) * 10 + digit_value(
            digits.last(),
        )) % number_modulus(),
        number_value(digits) < number_modulus(),
{
}

/// Wrapping multiplication and addition of 32-bit numbers compute the
/// accumulation step.
proof fn lemma_wrapping_step(num: u32, digit: u32)
    requires
        digit <= 9,
    ensures
        num.wrapping_mul(10).wrapping_add(digit) == (num * 10 + digit) % 0x1_0000_0000,
{
    let m: int = 0x1_0000_0000;
    let p: int = (num * 10) % m;
    assert(num.wrapping_mul(10) == p);
    vstd::arithmetic::div_mod::lemma_add_mod_noop(num * 10, digit as int, m);
    vstd::arithmetic::div_mod::lemma_small_mod(digit as nat, m as nat);
    assert((p + digit) % m == (num * 10 + digit) % m);
    if p + digit >= m {
        vstd::arithmetic::div_mod::lemma_mod_sub_multiples_vanish(p + digit, m);
        vstd::arithmetic::div_mod::lemma_small_mod((p + digit - m) as nat, m as nat);
    } else {
        vstd::arithmetic::div_mod::lemma_small_mod((p + digit) as nat, m as nat);
    }
}

} // verus!
