//! Whitespace between the tokens of a text does not change what the text
//! parses to.

use crate::grammar::{
    digits_len, is_digit, is_whitespace, matched_len, skip_whitespace, spec_after_element,
    spec_after_key, spec_after_member, spec_elements, spec_literal, spec_member_value,
    spec_members, spec_number, spec_parse, spec_string, spec_value, unquoted_len, Parsed,
};
use crate::laws::lemma_unquoted_run;
use crate::progress::{lemma_skip_whitespace, lemma_string_rest, lemma_value_rest};
use crate::value::JsonValue;
use vstd::prelude::*;

verus! {

/// A run of whitespace, possibly empty.
pub open spec fn all_whitespace(ws: Seq<char>) -> bool {
    forall|i: int| 0 <= i < ws.len() ==> is_whitespace(#[trigger] ws[i])
}

/// The characters that are tokens by themselves.
pub open spec fn is_structural(c: char) -> bool {
    c == ':' || c == ',' || c == '[' || c == ']' || c == '{' || c == '}'
}

/// Whether `s` holds an odd number of quotes. As there are no escape
/// sequences, a text that is read from its start up to such an `s` ends
/// inside a string.
pub open spec fn odd_quotes(s: Seq<char>) -> bool
    decreases s.len(),
{
    if s.len() == 0 {
        false
    } else {
        (s[0] == '"') != odd_quotes(s.drop_first())
    }
}

/// Where whitespace may stand between `before` and `after`: behind the whole
/// text, or outside of any string and either at the very start, directly
/// behind a structural character or directly in front of one.
pub open spec fn gap_allowed(before: Seq<char>, after: Seq<char>) -> bool {
    after.len() == 0 || (!odd_quotes(before) && (before.len() == 0 || is_structural(
        before.last(),
    ) || is_structural(after[0])))
}

/// `x` and `y` are what is left of the two texts from position `k` of `a`
/// on, and whitespace may stand at the end of `a`.
spec fn at_gap(
    x: Seq<char>,
    y: Seq<char>,
    a: Seq<char>,
    ws: Seq<char>,
    b: Seq<char>,
    k: int,
) -> bool {
    &&& 0 <= k <= a.len()
    &&& x == a.skip(k) + b
    &&& y == a.skip(k) + ws + b
    &&& gap_allowed(a.skip(k), b)
}

/// `x` and `y` are the same, or they differ by `ws` at the end of `a`.
spec fn related(x: Seq<char>, y: Seq<char>, a: Seq<char>, ws: Seq<char>, b: Seq<char>) -> bool {
    x == y || exists|k: int| at_gap(x, y, a, ws, b, k)
}

/// Two sub-parsers agree: on the failure, or on the value and, up to `ws`,
/// on what they leave.
spec fn same_outcome(p: Parsed, q: Parsed, a: Seq<char>, ws: Seq<char>, b: Seq<char>) -> bool {
    p.result == q.result && (p.result is Ok ==> related(p.rest, q.rest, a, ws, b))
}

/// No character of `s` is whitespace, structural or a quote.
spec fn plain(s: Seq<char>) -> bool {
    forall|i: int|
        0 <= i < s.len() ==> !is_whitespace(#[trigger] s[i]) && !is_structural(s[i]) && s[i]
            != '"'
}

/// What is skipped is a run of whitespace, and the whole of it: the input is
/// that run and then what is left, which does not start with whitespace.
pub proof fn lemma_skip_whitespace_split(s: Seq<char>)
    ensures
        skip_whitespace(s).len() <= s.len(),
        all_whitespace(s.take(s.len() - skip_whitespace(s).len())),
        s == s.take(s.len() - skip_whitespace(s).len()) + skip_whitespace(s),
        skip_whitespace(s).len() > 0 ==> !is_whitespace(skip_whitespace(s)[0]),
    decreases s.len(),
{
    lemma_skip_whitespace(s);
    let n = s.len() - skip_whitespace(s).len();
    if s.len() > 0 && is_whitespace(s[0]) {
        let t = s.drop_first();
        lemma_skip_whitespace_split(t);
        assert forall|i: int| 0 <= i < n implies is_whitespace(#[trigger] s.take(n)[i]) by {
            if i > 0 {
                assert(s.take(n)[i] == t.take(n - 1)[i - 1]);
            }
        }
    }
    assert(s =~= s.take(n) + s.skip(n));
}

/// Whitespace in front of a text is skipped with the text's own.
pub proof fn lemma_skip_leading_whitespace(ws: Seq<char>, s: Seq<char>)
    requires
        all_whitespace(ws),
    ensures
        skip_whitespace(ws + s) == skip_whitespace(s),
    decreases ws.len(),
{
    if ws.len() == 0 {
        assert(ws + s =~= s);
    } else {
        assert((ws + s).drop_first() =~= ws.drop_first() + s);
        assert(is_whitespace(ws[0]));
        assert((ws + s)[0] == ws[0]);
        assert forall|i: int| 0 <= i < ws.drop_first().len() implies is_whitespace(
            #[trigger] ws.drop_first()[i],
        ) by {
            assert(ws.drop_first()[i] == ws[i + 1]);
        }
        lemma_skip_leading_whitespace(ws.drop_first(), s);
    }
}

/// A quote changes whether the number of quotes is odd; another character
/// does not.
proof fn lemma_parity_step(a: Seq<char>, k: int)
    requires
        0 <= k < a.len(),
    ensures
        odd_quotes(a.skip(k)) == ((a[k] == '"') != odd_quotes(a.skip(k + 1))),
{
    assert(a.skip(k).drop_first() =~= a.skip(k + 1));
}

/// A stretch without quotes does not change whether their number is odd.
proof fn lemma_parity_run(a: Seq<char>, k: int, n: int)
    requires
        0 <= k,
        0 <= n,
        k + n <= a.len(),
        forall|i: int| k <= i < k + n ==> a[i] != '"',
    ensures
        odd_quotes(a.skip(k + n)) == odd_quotes(a.skip(k)),
    decreases n,
{
    if n > 0 {
        lemma_parity_step(a, k);
        lemma_parity_run(a, k + 1, n - 1);
    }
}

/// Whitespace may stand at the end of a shorter rest of `a` as well, as long
/// as as many quotes were left behind as make no difference.
proof fn lemma_gap_step(a: Seq<char>, b: Seq<char>, k: int, n: int)
    requires
        0 <= k,
        0 <= n,
        k + n <= a.len(),
        gap_allowed(a.skip(k), b),
        odd_quotes(a.skip(k + n)) == odd_quotes(a.skip(k)),
    ensures
        gap_allowed(a.skip(k + n), b),
{
    if b.len() > 0 && k + n < a.len() {
        assert(a.skip(k + n).last() == a.skip(k).last());
    }
}

/// Stepping over a character that is no quote keeps the two texts related.
proof fn lemma_gap_advance(a: Seq<char>, ws: Seq<char>, b: Seq<char>, k: int)
    requires
        0 <= k < a.len(),
        gap_allowed(a.skip(k), b),
        a[k] != '"',
    ensures
        at_gap(
            (a.skip(k) + b).drop_first(),
            (a.skip(k) + ws + b).drop_first(),
            a,
            ws,
            b,
            k + 1,
        ),
{
    lemma_parity_step(a, k);
    lemma_gap_step(a, b, k, 1);
    assert((a.skip(k) + b).drop_first() =~= a.skip(k + 1) + b);
    assert((a.skip(k) + ws + b).drop_first() =~= a.skip(k + 1) + ws + b);
}

/// Skipping whitespace keeps the two texts related, and where they still
/// differ, a character of `a` that is no whitespace comes next in both.
proof fn lemma_gap_skip_at(a: Seq<char>, ws: Seq<char>, b: Seq<char>, k: int)
    requires
        all_whitespace(ws),
        0 <= k <= a.len(),
        gap_allowed(a.skip(k), b),
    ensures
        skip_whitespace(a.skip(k) + b) == skip_whitespace(a.skip(k) + ws + b) || exists|j: int|
            #[trigger] at_gap(
                skip_whitespace(a.skip(k) + b),
                skip_whitespace(a.skip(k) + ws + b),
                a,
                ws,
                b,
                j,
            ) && j < a.len() && !is_whitespace(a[j]),
    decreases a.len() - k,
{
    let x = a.skip(k) + b;
    let y = a.skip(k) + ws + b;
    if k == a.len() {
        assert(x =~= b);
        assert(y =~= ws + b);
        lemma_skip_leading_whitespace(ws, b);
    } else if is_whitespace(a[k]) {
        assert(x[0] == a[k]);
        assert(y[0] == a[k]);
        lemma_gap_advance(a, ws, b, k);
        lemma_gap_skip_at(a, ws, b, k + 1);
    } else {
        assert(x[0] == a[k]);
        assert(y[0] == a[k]);
        assert(at_gap(skip_whitespace(x), skip_whitespace(y), a, ws, b, k));
    }
}

/// Skipping whitespace keeps two related texts related.
proof fn lemma_gap_skip(x: Seq<char>, y: Seq<char>, a: Seq<char>, ws: Seq<char>, b: Seq<char>)
    requires
        all_whitespace(ws),
        related(x, y, a, ws, b),
    ensures
        skip_whitespace(x) == skip_whitespace(y) || exists|j: int|
            #[trigger] at_gap(skip_whitespace(x), skip_whitespace(y), a, ws, b, j) && j < a.len()
                && !is_whitespace(a[j]),
{
    if x != y {
        let k = choose|k: int| at_gap(x, y, a, ws, b, k);
        lemma_gap_skip_at(a, ws, b, k);
    }
}

/// A spelling of plain characters is matched alike in both texts, and
/// within `head`.
proof fn lemma_gap_matched_len(spelling: Seq<char>, head: Seq<char>, ws: Seq<char>, b: Seq<char>)
    requires
        plain(spelling),
        all_whitespace(ws),
        ws.len() > 0,
        head.len() > 0,
        b.len() == 0 || is_structural(b[0]) || is_structural(head.last()),
    ensures
        matched_len(spelling, head + ws + b) == matched_len(spelling, head + b),
        matched_len(spelling, head + b) <= head.len(),
        forall|i: int| 0 <= i < matched_len(spelling, head + b) ==> head[i] != '"',
    decreases spelling.len(),
{
    let x = head + b;
    let y = head + ws + b;
    assert(x[0] == head[0]);
    assert(y[0] == head[0]);
    if spelling.len() > 0 && spelling[0] == head[0] {
        let rest = spelling.drop_first();
        assert(plain(rest)) by {
            assert forall|i: int| 0 <= i < rest.len() implies !is_whitespace(#[trigger] rest[i])
                && !is_structural(rest[i]) && rest[i] != '"' by {
                assert(rest[i] == spelling[i + 1]);
            }
        }
        if head.len() == 1 {
            assert(x.drop_first() =~= b);
            assert(y.drop_first() =~= ws + b);
            assert((ws + b)[0] == ws[0]);
            assert(is_whitespace(ws[0]));
            assert(head.last() == spelling[0]);
            assert(matched_len(rest, ws + b) == 0);
            assert(matched_len(rest, b) == 0);
        } else {
            assert(x.drop_first() =~= head.drop_first() + b);
            assert(y.drop_first() =~= head.drop_first() + ws + b);
            assert(head.drop_first().last() == head.last());
            lemma_gap_matched_len(rest, head.drop_first(), ws, b);
            assert forall|i: int| 0 <= i < matched_len(spelling, x) implies head[i] != '"' by {
                if i > 0 {
                    assert(head.drop_first()[i - 1] == head[i]);
                }
            }
        }
    }
}

/// A literal is parsed alike in both texts.
proof fn lemma_gap_literal(
    spelling: Seq<char>,
    a: Seq<char>,
    ws: Seq<char>,
    b: Seq<char>,
    k: int,
)
    requires
        plain(spelling),
        all_whitespace(ws),
        ws.len() > 0,
        0 <= k < a.len(),
        gap_allowed(a.skip(k), b),
    ensures
        same_outcome(
            spec_literal(spelling, a.skip(k) + b),
            spec_literal(spelling, a.skip(k) + ws + b),
            a,
            ws,
            b,
        ),
{
    let head = a.skip(k);
    let x = head + b;
    let y = head + ws + b;
    lemma_gap_matched_len(spelling, head, ws, b);
    let n = matched_len(spelling, x) as int;
    if n == spelling.len() {
        assert forall|i: int| k <= i < k + n implies a[i] != '"' by {
            assert(head[i - k] == a[i]);
        }
        lemma_parity_run(a, k, n);
        lemma_gap_step(a, b, k, n);
        assert(x.skip(n) =~= a.skip(k + n) + b);
        assert(y.skip(n) =~= a.skip(k + n) + ws + b);
        assert(at_gap(x.skip(n), y.skip(n), a, ws, b, k + n));
    }
}

/// A run of digits is as long in one text as in the other, and ends within
/// `head`.
proof fn lemma_gap_digits_len(head: Seq<char>, ws: Seq<char>, b: Seq<char>)
    requires
        all_whitespace(ws),
        ws.len() > 0,
        head.len() > 0,
        b.len() == 0 || is_structural(b[0]) || is_structural(head.last()),
    ensures
        digits_len(head + ws + b) == digits_len(head + b),
        digits_len(head + b) <= head.len(),
        forall|i: int| 0 <= i < digits_len(head + b) ==> head[i] != '"',
    decreases head.len(),
{
    let x = head + b;
    let y = head + ws + b;
    assert(x[0] == head[0]);
    assert(y[0] == head[0]);
    if is_digit(head[0]) {
        if head.len() == 1 {
            assert(x.drop_first() =~= b);
            assert(y.drop_first() =~= ws + b);
            assert((ws + b)[0] == ws[0]);
            assert(is_whitespace(ws[0]));
            assert(digits_len(ws + b) == 0);
            assert(digits_len(b) == 0);
        } else {
            assert(x.drop_first() =~= head.drop_first() + b);
            assert(y.drop_first() =~= head.drop_first() + ws + b);
            assert(head.drop_first().last() == head.last());
            lemma_gap_digits_len(head.drop_first(), ws, b);
            assert forall|i: int| 0 <= i < digits_len(x) implies head[i] != '"' by {
                if i > 0 {
                    assert(head.drop_first()[i - 1] == head[i]);
                }
            }
        }
    }
}

/// A number is parsed alike in both texts.
proof fn lemma_gap_number(a: Seq<char>, ws: Seq<char>, b: Seq<char>, k: int)
    requires
        all_whitespace(ws),
        ws.len() > 0,
        0 <= k < a.len(),
        gap_allowed(a.skip(k), b),
    ensures
        same_outcome(
            spec_number(a.skip(k) + b),
            spec_number(a.skip(k) + ws + b),
            a,
            ws,
            b,
        ),
{
    let head = a.skip(k);
    let x = head + b;
    let y = head + ws + b;
    lemma_gap_digits_len(head, ws, b);
    let n = digits_len(x) as int;
    assert forall|i: int| k <= i < k + n implies a[i] != '"' by {
        assert(head[i - k] == a[i]);
    }
    lemma_parity_run(a, k, n);
    lemma_gap_step(a, b, k, n);
    assert(x.take(n) =~= y.take(n));
    assert(x.skip(n) =~= a.skip(k + n) + b);
    assert(y.skip(n) =~= a.skip(k + n) + ws + b);
    assert(at_gap(x.skip(n), y.skip(n), a, ws, b, k + n));
}

/// The text of a string ends at the first quote of `body`, or, where it has
/// none, goes on into `tail`.
proof fn lemma_unquoted_len_concat(body: Seq<char>, tail: Seq<char>)
    ensures
        unquoted_len(body + tail) == if unquoted_len(body) < body.len() {
            unquoted_len(body)
        } else {
            body.len() + unquoted_len(tail)
        },
    decreases body.len(),
{
    lemma_unquoted_run(body);
    if body.len() == 0 {
        assert(body + tail =~= tail);
    } else {
        assert((body + tail)[0] == body[0]);
        if body[0] != '"' {
            assert((body + tail).drop_first() =~= body.drop_first() + tail);
            lemma_unquoted_len_concat(body.drop_first(), tail);
        }
    }
}

/// A string is parsed alike in both texts.
proof fn lemma_gap_string(a: Seq<char>, ws: Seq<char>, b: Seq<char>, k: int)
    requires
        all_whitespace(ws),
        ws.len() > 0,
        0 <= k < a.len(),
        a[k] == '"',
        gap_allowed(a.skip(k), b),
    ensures
        same_outcome(
            spec_string(a.skip(k) + b),
            spec_string(a.skip(k) + ws + b),
            a,
            ws,
            b,
        ),
{
    let x = a.skip(k) + b;
    let y = a.skip(k) + ws + b;
    let body = a.skip(k + 1);
    assert(x.drop_first() =~= body + b);
    assert(y.drop_first() =~= body + (ws + b));
    lemma_unquoted_run(body);
    lemma_unquoted_len_concat(body, b);
    lemma_unquoted_len_concat(body, ws + b);
    let n = unquoted_len(body) as int;
    lemma_parity_step(a, k);
    assert forall|i: int| k + 1 <= i < k + 1 + n implies a[i] != '"' by {
        assert(body[i - (k + 1)] == a[i]);
    }
    lemma_parity_run(a, k + 1, n);
    if n < body.len() {
        // The closing quote stands in `a`.
        assert(a[k + 1 + n] == body[n]);
        lemma_parity_step(a, k + 1 + n);
        lemma_gap_step(a, b, k, n + 2);
        assert((body + b).take(n) =~= (body + (ws + b)).take(n));
        assert((body + b).skip(n + 1) =~= a.skip(k + n + 2) + b);
        assert((body + (ws + b)).skip(n + 1) =~= a.skip(k + n + 2) + ws + b);
        assert(at_gap(spec_string(x).rest, spec_string(y).rest, a, ws, b, k + n + 2));
    } else {
        // The string is open at the end of `a`, so `b` is empty, and the
        // whitespace does not close the string either.
        assert(a.skip(k + 1 + n) =~= Seq::<char>::empty());
        assert(odd_quotes(a.skip(k)));
        lemma_unquoted_run(ws);
        lemma_unquoted_len_concat(ws, b);
        assert(unquoted_len(ws) == ws.len()) by {
            if unquoted_len(ws) < ws.len() {
                assert(is_whitespace(ws[unquoted_len(ws) as int]));
            }
        }
    }
}

/// A value is parsed alike in both texts.
proof fn lemma_gap_value(a: Seq<char>, ws: Seq<char>, b: Seq<char>, k: int)
    requires
        all_whitespace(ws),
        ws.len() > 0,
        0 <= k < a.len(),
        gap_allowed(a.skip(k), b),
    ensures
        same_outcome(spec_value(a.skip(k) + b), spec_value(a.skip(k) + ws + b), a, ws, b),
    decreases a.len() - k + b.len(), 0nat,
{
    let x = a.skip(k) + b;
    let y = a.skip(k) + ws + b;
    assert(x[0] == a[k]);
    assert(y[0] == a[k]);
    let c = a[k];
    if c == 'n' {
        reveal_strlit("null");
        lemma_gap_literal("null"@, a, ws, b, k);
    } else if c == 't' {
        reveal_strlit("true");
        lemma_gap_literal("true"@, a, ws, b, k);
    } else if c == 'f' {
        reveal_strlit("false");
        lemma_gap_literal("false"@, a, ws, b, k);
    } else if c == '"' {
        lemma_gap_string(a, ws, b, k);
    } else if c == '[' {
        lemma_gap_advance(a, ws, b, k);
        lemma_gap_elements(x.drop_first(), y.drop_first(), a, ws, b, Seq::empty());
    } else if c == '{' {
        lemma_gap_advance(a, ws, b, k);
        lemma_gap_members(x.drop_first(), y.drop_first(), a, ws, b, Map::empty());
    } else if is_digit(c) {
        lemma_gap_number(a, ws, b, k);
    } else {
    }
}

/// The elements of an array are parsed alike in two related texts.
proof fn lemma_gap_elements(
    x: Seq<char>,
    y: Seq<char>,
    a: Seq<char>,
    ws: Seq<char>,
    b: Seq<char>,
    items: Seq<JsonValue>,
)
    requires
        all_whitespace(ws),
        ws.len() > 0,
        related(x, y, a, ws, b),
    ensures
        same_outcome(spec_elements(x, items), spec_elements(y, items), a, ws, b),
    decreases x.len(), 1nat,
{
    if x != y {
        let x1 = skip_whitespace(x);
        let y1 = skip_whitespace(y);
        lemma_gap_skip(x, y, a, ws, b);
        lemma_skip_whitespace(x);
        lemma_skip_whitespace(y);
        lemma_value_rest(x1);
        lemma_value_rest(y1);
        if x1 != y1 {
            let k = choose|k: int|
                #[trigger] at_gap(x1, y1, a, ws, b, k) && k < a.len() && !is_whitespace(a[k]);
            lemma_gap_value(a, ws, b, k);
        }
        let p = spec_value(x1);
        let q = spec_value(y1);
        assert(same_outcome(p, q, a, ws, b));
        match p.result {
            Err(e) => {},
            Ok(v) => {
                lemma_gap_after_element(p.rest, q.rest, a, ws, b, items.push(v));
            },
        }
    }
}

/// What follows an element is parsed alike in two related texts.
proof fn lemma_gap_after_element(
    x: Seq<char>,
    y: Seq<char>,
    a: Seq<char>,
    ws: Seq<char>,
    b: Seq<char>,
    items: Seq<JsonValue>,
)
    requires
        all_whitespace(ws),
        ws.len() > 0,
        related(x, y, a, ws, b),
    ensures
        same_outcome(spec_after_element(x, items), spec_after_element(y, items), a, ws, b),
    decreases x.len(), 1nat,
{
    if x != y {
        let x1 = skip_whitespace(x);
        let y1 = skip_whitespace(y);
        lemma_gap_skip(x, y, a, ws, b);
        lemma_skip_whitespace(x);
        if x1 != y1 {
            let k = choose|k: int|
                #[trigger] at_gap(x1, y1, a, ws, b, k) && k < a.len() && !is_whitespace(a[k]);
            assert(x1[0] == a[k]);
            assert(y1[0] == a[k]);
            if a[k] == ']' || a[k] == ',' {
                lemma_gap_advance(a, ws, b, k);
                if a[k] == ',' {
                    lemma_gap_elements(x1.drop_first(), y1.drop_first(), a, ws, b, items);
                }
            }
        }
    }
}

/// The members of an object are parsed alike in two related texts.
proof fn lemma_gap_members(
    x: Seq<char>,
    y: Seq<char>,
    a: Seq<char>,
    ws: Seq<char>,
    b: Seq<char>,
    members: Map<Seq<char>, JsonValue>,
)
    requires
        all_whitespace(ws),
        ws.len() > 0,
        related(x, y, a, ws, b),
    ensures
        same_outcome(spec_members(x, members), spec_members(y, members), a, ws, b),
    decreases x.len(), 1nat,
{
    if x != y {
        let x1 = skip_whitespace(x);
        let y1 = skip_whitespace(y);
        lemma_gap_skip(x, y, a, ws, b);
        lemma_skip_whitespace(x);
        if x1 != y1 {
            let k = choose|k: int|
                #[trigger] at_gap(x1, y1, a, ws, b, k) && k < a.len() && !is_whitespace(a[k]);
            assert(x1[0] == a[k]);
            assert(y1[0] == a[k]);
            if a[k] == '"' {
                lemma_gap_string(a, ws, b, k);
                lemma_string_rest(x1);
                let p = spec_string(x1);
                let q = spec_string(y1);
                match p.result {
                    Ok(JsonValue::String(key)) => {
                        lemma_gap_after_key(p.rest, q.rest, a, ws, b, key, members);
                    },
                    _ => {},
                }
            }
        }
    }
}

/// What follows a key is parsed alike in two related texts.
proof fn lemma_gap_after_key(
    x: Seq<char>,
    y: Seq<char>,
    a: Seq<char>,
    ws: Seq<char>,
    b: Seq<char>,
    key: Seq<char>,
    members: Map<Seq<char>, JsonValue>,
)
    requires
        all_whitespace(ws),
        ws.len() > 0,
        related(x, y, a, ws, b),
    ensures
        same_outcome(
            spec_after_key(x, key, members),
            spec_after_key(y, key, members),
            a,
            ws,
            b,
        ),
    decreases x.len(), 1nat,
{
    if x != y {
        let x1 = skip_whitespace(x);
        let y1 = skip_whitespace(y);
        lemma_gap_skip(x, y, a, ws, b);
        lemma_skip_whitespace(x);
        if x1 != y1 {
            let k = choose|k: int|
                #[trigger] at_gap(x1, y1, a, ws, b, k) && k < a.len() && !is_whitespace(a[k]);
            assert(x1[0] == a[k]);
            assert(y1[0] == a[k]);
            if a[k] == ':' {
                lemma_gap_advance(a, ws, b, k);
                lemma_gap_member_value(
                    x1.drop_first(),
                    y1.drop_first(),
                    a,
                    ws,
                    b,
                    key,
                    members,
                );
            }
        }
    }
}

/// The value of a member is parsed alike in two related texts.
proof fn lemma_gap_member_value(
    x: Seq<char>,
    y: Seq<char>,
    a: Seq<char>,
    ws: Seq<char>,
    b: Seq<char>,
    key: Seq<char>,
    members: Map<Seq<char>, JsonValue>,
)
    requires
        all_whitespace(ws),
        ws.len() > 0,
        related(x, y, a, ws, b),
    ensures
        same_outcome(
            spec_member_value(x, key, members),
            spec_member_value(y, key, members),
            a,
            ws,
            b,
        ),
    decreases x.len(), 1nat,
{
    if x != y {
        let x1 = skip_whitespace(x);
        let y1 = skip_whitespace(y);
        lemma_gap_skip(x, y, a, ws, b);
        lemma_skip_whitespace(x);
        lemma_skip_whitespace(y);
        lemma_value_rest(x1);
        lemma_value_rest(y1);
        if x1 != y1 {
            let k = choose|k: int|
                #[trigger] at_gap(x1, y1, a, ws, b, k) && k < a.len() && !is_whitespace(a[k]);
            lemma_gap_value(a, ws, b, k);
        }
        let p = spec_value(x1);
        let q = spec_value(y1);
        assert(same_outcome(p, q, a, ws, b));
        match p.result {
            Err(e) => {},
            Ok(v) => {
                lemma_gap_after_member(p.rest, q.rest, a, ws, b, members.insert(key, v));
            },
        }
    }
}

/// What follows a member is parsed alike in two related texts.
proof fn lemma_gap_after_member(
    x: Seq<char>,
    y: Seq<char>,
    a: Seq<char>,
    ws: Seq<char>,
    b: Seq<char>,
    members: Map<Seq<char>, JsonValue>,
)
    requires
        all_whitespace(ws),
        ws.len() > 0,
        related(x, y, a, ws, b),
    ensures
        same_outcome(spec_after_member(x, members), spec_after_member(y, members), a, ws, b),
    decreases x.len(), 1nat,
{
    if x != y {
        let x1 = skip_whitespace(x);
        let y1 = skip_whitespace(y);
        lemma_gap_skip(x, y, a, ws, b);
        lemma_skip_whitespace(x);
        if x1 != y1 {
            let k = choose|k: int|
                #[trigger] at_gap(x1, y1, a, ws, b, k) && k < a.len() && !is_whitespace(a[k]);
            assert(x1[0] == a[k]);
            assert(y1[0] == a[k]);
            if a[k] == '}' || a[k] == ',' {
                lemma_gap_advance(a, ws, b, k);
                if a[k] == ',' {
                    lemma_gap_members(x1.drop_first(), y1.drop_first(), a, ws, b, members);
                }
            }
        }
    }
}

/// Whitespace between two parts of a text does not change what the text
/// parses to, value or failure, wherever `gap_allowed` lets it stand:
/// around the whole text, and in front of and behind each of the structural
/// characters `:`, `,`, `[`, `]`, `{` and `}` that stand outside of strings.
pub proof fn lemma_whitespace_between(before: Seq<char>, ws: Seq<char>, after: Seq<char>)
    requires
        all_whitespace(ws),
        gap_allowed(before, after),
    ensures
        spec_parse(before + ws + after) == spec_parse(before + after),
{
    let x = before + after;
    let y = before + ws + after;
    if ws.len() == 0 {
        assert(y =~= x);
    } else {
        assert(before.skip(0) =~= before);
        assert(at_gap(x, y, before, ws, after, 0));
        lemma_gap_skip(x, y, before, ws, after);
        let x1 = skip_whitespace(x);
        let y1 = skip_whitespace(y);
        if x1 != y1 {
            let k = choose|k: int|
                #[trigger] at_gap(x1, y1, before, ws, after, k) && k < before.len()
                    && !is_whitespace(before[k]);
            lemma_gap_value(before, ws, after, k);
        }
    }
}

/// Whitespace in front of a text does not change what it parses to.
pub proof fn lemma_whitespace_before(ws: Seq<char>, text: Seq<char>)
    requires
        all_whitespace(ws),
    ensures
        spec_parse(ws + text) == spec_parse(text),
{
    lemma_skip_leading_whitespace(ws, text);
}

/// Whitespace behind a text does not change what it parses to.
pub proof fn lemma_whitespace_after(text: Seq<char>, ws: Seq<char>)
    requires
        all_whitespace(ws),
    ensures
        spec_parse(text + ws) == spec_parse(text),
{
    let empty = Seq::<char>::empty();
    lemma_whitespace_between(text, ws, empty);
    assert(text + ws + empty =~= text + ws);
    assert(text + empty =~= text);
}

} // verus!
