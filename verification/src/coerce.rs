//! Coercion of a raw string token into a typed leaf of the value tree.

use crate::number::decimal_literal;
use crate::number::decimal_text;
use crate::number::has_sign;
use crate::number::integer_of;
use crate::number::is_decimal_literal;
use crate::number::is_digit;
use crate::number::lemma_decimal_text;
use crate::number::lemma_literal_chars;
use crate::number::parse_integer;
use crate::number::unsigned_part;
use crate::text::chars_of;
use crate::text::find_char;
use crate::text::first_index;
use crate::text::lemma_first_index;
use crate::text::same_text;
use crate::tree::lemma_array_view;
use crate::tree::nodes_of;
use crate::tree::Item;
use crate::tree::Node;
use vstd::prelude::*;

verus! {

/// The pieces into which the separator `sep` cuts `s`, the empty ones
/// included: one more than `s` has separators.
pub open spec fn segments(s: Seq<char>, sep: char) -> Seq<Seq<char>>
    decreases s.len(),
    via segments_decreases
{
    match first_index(s, sep) {
        None => seq![s],
        Some(i) => seq![s.subrange(0, i)] + segments(s.subrange(i + 1, s.len() as int), sep),
    }
}

#[via_fn]
proof fn segments_decreases(s: Seq<char>, sep: char) {
    lemma_first_index(s, sep);
}

/// The test that keeps the pieces that are not empty.
pub open spec fn not_empty() -> spec_fn(Seq<char>) -> bool {
    |p: Seq<char>| p.len() > 0
}

/// The pieces between the commas of `s` that are not empty, in order.
pub open spec fn fields(s: Seq<char>) -> Seq<Seq<char>> {
    segments(s, ',').filter(not_empty())
}

/// What a token without a comma is coerced to. The empty token is the
/// boolean `true`, as a flag used as a bare switch; `true` and `false` are
/// the booleans; a token with a point is a float where it is a decimal
/// floating-point literal; one without is an integer where it denotes one in
/// 64 bits; every other token is a string.
pub open spec fn scalar_of(s: Seq<char>) -> Node {
    if s.len() == 0 {
        Node::Boolean(true)
    } else if s == "true"@ {
        Node::Boolean(true)
    } else if s == "false"@ {
        Node::Boolean(false)
    } else if s.contains('.') {
        if decimal_literal(s) {
            Node::Float(s)
        } else {
            Node::Text(s)
        }
    } else {
        match integer_of(s) {
            Some(i) => Node::Integer(i),
            None => Node::Text(s),
        }
    }
}

/// What each field of `s` is coerced to.
pub open spec fn coerced_fields(s: Seq<char>) -> Seq<Node> {
    fields(s).map_values(|p: Seq<char>| scalar_of(p))
}

/// What a token is coerced to: with a comma in it, the array of what its
/// fields are coerced to; without, what `scalar_of` says.
pub open spec fn coerced(s: Seq<char>) -> Node {
    if s.contains(',') {
        Node::Array(coerced_fields(s))
    } else {
        scalar_of(s)
    }
}

/// The fields of `s`, by its first comma: the piece before it, if it is not
/// empty, then the fields of what follows it.
pub proof fn lemma_fields_unfold(s: Seq<char>)
    ensures
        match first_index(s, ',') {
            None => fields(s) == if s.len() > 0 {
                seq![s]
            } else {
                Seq::<Seq<char>>::empty()
            },
            Some(i) => fields(s) == (if i > 0 {
                seq![s.subrange(0, i)]
            } else {
                Seq::<Seq<char>>::empty()
            }) + fields(s.subrange(i + 1, s.len() as int)),
        },
{
    reveal_with_fuel(Seq::filter, 2);
    lemma_first_index(s, ',');
    match first_index(s, ',') {
        None => {},
        Some(i) => {
            let head = s.subrange(0, i);
            let tail = s.subrange(i + 1, s.len() as int);
            Seq::filter_distributes_over_add(seq![head], segments(tail, ','), not_empty());
        },
    }
}

/// What the fields of `s` are coerced to, by its first comma.
pub proof fn lemma_coerced_fields_unfold(s: Seq<char>)
    ensures
        match first_index(s, ',') {
            None => coerced_fields(s) == if s.len() > 0 {
                seq![scalar_of(s)]
            } else {
                Seq::<Node>::empty()
            },
            Some(i) => coerced_fields(s) == (if i > 0 {
                seq![scalar_of(s.subrange(0, i))]
            } else {
                Seq::<Node>::empty()
            }) + coerced_fields(s.subrange(i + 1, s.len() as int)),
        },
{
    lemma_fields_unfold(s);
    match first_index(s, ',') {
        None => {},
        Some(i) => {
            let tail = s.subrange(i + 1, s.len() as int);
            if i > 0 {
                assert(coerced_fields(s) =~= seq![scalar_of(s.subrange(0, i))] + coerced_fields(
                    tail,
                ));
            }
        },
    }
}

/// No field is empty, and none holds a comma.
pub proof fn lemma_fields(s: Seq<char>)
    ensures
        forall|i: int|
            0 <= i < fields(s).len() ==> (#[trigger] fields(s)[i]).len() > 0 && !fields(s)[i].contains(
                ',',
            ),
    decreases s.len(),
{
    lemma_fields_unfold(s);
    lemma_first_index(s, ',');
    match first_index(s, ',') {
        None => {},
        Some(c) => {
            let head = s.subrange(0, c);
            let tail = s.subrange(c + 1, s.len() as int);
            lemma_fields(tail);
            if head.contains(',') {
                let j = choose|j: int| 0 <= j < head.len() && head[j] == ',';
                assert(s[j] == ',');
            }
        },
    }
}

/// Each field of a token is coerced as a token of its own.
pub proof fn lemma_coerced_fields(s: Seq<char>)
    ensures
        coerced_fields(s).len() == fields(s).len(),
        forall|i: int|
            0 <= i < fields(s).len() ==> #[trigger] coerced_fields(s)[i] == coerced(fields(s)[i]),
{
    lemma_fields(s);
}

/// The text of a boolean: `true` or `false`.
pub open spec fn boolean_text(b: bool) -> Seq<char> {
    if b {
        "true"@
    } else {
        "false"@
    }
}

/// The two boolean words hold neither a comma nor a point, and differ.
proof fn lemma_boolean_words()
    ensures
        "true"@ == seq!['t', 'r', 'u', 'e'],
        "false"@ == seq!['f', 'a', 'l', 's', 'e'],
        !"true"@.contains(','),
        !"false"@.contains(','),
        !"true"@.contains('.'),
        !"false"@.contains('.'),
{
    reveal_strlit("true");
    reveal_strlit("false");
}

/// Coercion reads a boolean back from its text.
pub proof fn lemma_boolean_round_trip(b: bool)
    ensures
        coerced(boolean_text(b)) == Node::Boolean(b),
{
    lemma_boolean_words();
}

/// Coercion gives the integer that a token denotes, whenever it denotes one.
pub proof fn lemma_coerce_integer(s: Seq<char>)
    requires
        integer_of(s) is Some,
    ensures
        coerced(s) == Node::Integer(integer_of(s)->Some_0),
{
    lemma_boolean_words();
    let digits = unsigned_part(s);
    assert forall|j: int| 0 <= j < s.len() implies is_digit(#[trigger] s[j]) || (j == 0 && (s[j]
        == '+' || s[j] == '-')) by {
        if has_sign(s) && j > 0 {
            assert(digits[j - 1] == s[j]);
        }
    }
    assert(!s.contains(','));
    assert(!s.contains('.'));
}

/// Coercion reads a 64-bit integer back from its decimal text.
pub proof fn lemma_integer_round_trip(i: i64)
    ensures
        coerced(decimal_text(i as int)) == Node::Integer(i),
{
    lemma_decimal_text(i);
    lemma_coerce_integer(decimal_text(i as int));
}

/// Coercion reads a float back from a decimal literal that has a point: the
/// float is kept as that literal.
pub proof fn lemma_float_round_trip(s: Seq<char>)
    requires
        decimal_literal(s),
        s.contains('.'),
    ensures
        coerced(s) == Node::Float(s),
{
    lemma_boolean_words();
    lemma_literal_chars(s);
    assert(!s.contains(','));
}

/// Coercion gives a string back as it is, unless another rule claims it: the
/// string is not empty, is neither boolean word, holds no comma, is no
/// decimal literal where it holds a point, and denotes no integer where it
/// holds none.
pub proof fn lemma_text_round_trip(s: Seq<char>)
    requires
        s.len() > 0,
        s != "true"@,
        s != "false"@,
        !s.contains(','),
        s.contains('.') ==> !decimal_literal(s),
        !s.contains('.') ==> integer_of(s) is None,
    ensures
        coerced(s) == Node::Text(s),
{
}

/// Coerces a token that holds no comma.
fn parse_scalar(text: &str, s: &[char]) -> (r: Item)
    requires
        text@ == s@,
    ensures
        r@ == scalar_of(s@),
        r.wf(),
{
    if s.len() == 0 {
        Item::Boolean(true)
    } else if same_text(text, "true") {
        Item::Boolean(true)
    } else if same_text(text, "false") {
        Item::Boolean(false)
    } else if find_char(s, '.').is_some() {
        if is_decimal_literal(s) {
            Item::Float(text.to_owned())
        } else {
            Item::String(text.to_owned())
        }
    } else {
        match parse_integer(s) {
            Some(i) => Item::Integer(i),
            None => Item::String(text.to_owned()),
        }
    }
}

/// Coerces a raw token into a typed value.
///
/// The rules, the first that fits winning: the empty token and `true` give
/// the boolean `true`, `false` the boolean `false`; a token with a comma
/// gives the array of its non-empty fields, each coerced in turn; a token
/// with a point gives a float where it is a decimal floating-point literal;
/// a token that denotes a 64-bit integer gives that integer; any other token
/// gives itself, as a string.
pub fn parse_value(value: &str) -> (r: Item)
    ensures
        r@ == coerced(value@),
        r.wf(),
{
    let chars = chars_of(value);
    let s = chars.as_slice();
    let n: usize = s.len();
    if find_char(s, ',').is_none() {
        return parse_scalar(value, s);
    }
    let mut items: Vec<Item> = Vec::new();
    let mut start: usize = 0;
    assert(s@.subrange(0, n as int) =~= s@);
    loop
        invariant_except_break
            start <= n,
            nodes_of(items@) + coerced_fields(s@.subrange(start as int, n as int))
                == coerced_fields(s@),
        invariant
            n == s@.len(),
            value@ == s@,
            forall|j: int| 0 <= j < items@.len() ==> (#[trigger] items@[j]).wf(),
        ensures
            nodes_of(items@) == coerced_fields(s@),
        decreases n - start,
    {
        let rest = &s[start..n];
        let ghost before = items@;
        proof {
            lemma_coerced_fields_unfold(rest@);
        }
        match find_char(rest, ',') {
            None => {
                if start < n {
                    let piece = value.substring_char(start, n);
                    items.push(parse_scalar(piece, rest));
                }
                break;
            },
            Some(j) => {
                let ghost tail = rest@.subrange(j + 1, rest@.len() as int);
                assert(tail =~= s@.subrange(start + j + 1, n as int));
                if j > 0 {
                    let piece = value.substring_char(start, start + j);
                    let head = &rest[0..j];
                    assert(head@ =~= s@.subrange(start as int, start + j));
                    items.push(parse_scalar(piece, head));
                    assert(nodes_of(items@) + coerced_fields(tail) =~= nodes_of(before) + (
                    seq![scalar_of(head@)] + coerced_fields(tail)));
                } else {
                    assert(nodes_of(items@) + coerced_fields(tail) =~= nodes_of(before) + (
                    Seq::<Node>::empty() + coerced_fields(tail)));
                }
                start = start + j + 1;
            },
        }
    }
    proof {
        lemma_array_view(items);
    }
    Item::Array(items)
}

} // verus!
