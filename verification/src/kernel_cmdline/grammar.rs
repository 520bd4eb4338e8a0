//! The grammar of the kernel command line, over plain bytes.
//!
//! Parameters are separated by ASCII whitespace; whitespace inside double
//! quotes separates nothing. A parameter is a key, or a key and a value with
//! `=` between them. Keys are compared with `-` and `_` taken as the same.

use vstd::prelude::*;
use vstd::utf8::valid_utf8;

verus! {

/// The byte is ASCII whitespace: space, tab, line feed, form feed or
/// carriage return.
pub open spec fn is_space(b: u8) -> bool {
    b == 0x20 || b == 0x09 || b == 0x0a || b == 0x0c || b == 0x0d
}

/// The first position from `from` on that holds no whitespace, or the
/// length where there is none.
pub open spec fn skip_spaces(s: Seq<u8>, from: int) -> int
    decreases s.len() - from,
{
    if from < 0 || from >= s.len() {
        s.len() as int
    } else if !is_space(s[from]) {
        from
    } else {
        skip_spaces(s, from + 1)
    }
}

/// Position `i` lies inside double quotes: an odd number of `"` stands
/// before it.
pub open spec fn in_quotes(s: Seq<u8>, i: int) -> bool
    decreases i,
{
    if i <= 0 || i > s.len() {
        false
    } else {
        in_quotes(s, i - 1) != (s[i - 1] == 0x22)
    }
}

/// The first position from `from` on that holds whitespace outside double
/// quotes, or the length where there is none.
pub open spec fn param_end(s: Seq<u8>, from: int) -> int
    decreases s.len() - from,
{
    if from < 0 || from >= s.len() {
        s.len() as int
    } else if is_space(s[from]) && !in_quotes(s, from) {
        from
    } else {
        param_end(s, from + 1)
    }
}

/// The first position from `from` on that holds the byte `b`, if any does.
pub open spec fn find_byte(s: Seq<u8>, b: u8, from: int) -> Option<int>
    decreases s.len() - from,
{
    if from < 0 || from >= s.len() {
        None
    } else if s[from] == b {
        Some(from)
    } else {
        find_byte(s, b, from + 1)
    }
}

/// A value without its quotes: a leading `"` and a trailing `"` are dropped.
/// A value that has a leading `"` but then does not end in one is left as it
/// is.
pub open spec fn unquote(v: Seq<u8>) -> Seq<u8> {
    let inner = if v.len() > 0 && v[0] == 0x22 {
        v.skip(1)
    } else {
        v
    };
    if inner.len() > 0 && inner.last() == 0x22 {
        inner.drop_last()
    } else {
        v
    }
}

/// A parameter as plain values.
pub struct ParameterView {
    pub parameter: Seq<u8>,
    pub key: Seq<u8>,
    pub value: Option<Seq<u8>>,
}

/// The parameter that a token stands for: with no `=` in it the token is the
/// key and there is no value; else the key is what stands before the first
/// `=` and the value is what stands after it, without its quotes.
pub open spec fn param_of(token: Seq<u8>) -> ParameterView {
    match find_byte(token, 0x3d, 0) {
        None => ParameterView { parameter: token, key: token, value: None },
        Some(i) => ParameterView {
            parameter: token,
            key: token.take(i),
            value: Some(unquote(token.skip(i + 1))),
        },
    }
}

/// The first parameter of a command line, if there is one, and what is left
/// of the line after it.
pub open spec fn parse_spec(input: Seq<u8>) -> (Option<ParameterView>, Seq<u8>) {
    let trimmed = input.skip(skip_spaces(input, 0));
    if trimmed.len() == 0 {
        (None, trimmed)
    } else {
        let end = param_end(trimmed, 0);
        (Some(param_of(trimmed.take(end))), trimmed.skip(end))
    }
}

/// A key with every `-` replaced by `_`.
pub open spec fn dedashed(key: Seq<u8>) -> Seq<u8> {
    Seq::new(key.len(), |i: int| if key[i] == 0x2d { 0x5fu8 } else { key[i] })
}

/// Two keys are the same but for `-` in place of `_`.
pub open spec fn key_eq(a: Seq<u8>, b: Seq<u8>) -> bool {
    dedashed(a) == dedashed(b)
}

/// The parameters of a command line, in order.
pub open spec fn params_of(input: Seq<u8>) -> Seq<ParameterView>
    decreases input.len(),
    via params_of_decreases
{
    match parse_spec(input) {
        (None, _) => Seq::empty(),
        (Some(p), rest) => seq![p] + params_of(rest),
    }
}

#[via_fn]
proof fn params_of_decreases(input: Seq<u8>) {
    if parse_spec(input).0 is Some {
        lemma_parse_consumes(input);
    }
}

/// The first of the parameters whose key is `key`, dashes and underscores
/// taken as the same.
pub open spec fn first_with_key(params: Seq<ParameterView>, key: Seq<u8>) -> Option<
    ParameterView,
>
    decreases params.len(),
{
    if params.len() == 0 {
        None
    } else if key_eq(params[0].key, key) {
        Some(params[0])
    } else {
        first_with_key(params.drop_first(), key)
    }
}

/// The value of the first of the parameters whose key is `key`; none where
/// there is no such parameter or it has no value.
pub open spec fn value_with_key(params: Seq<ParameterView>, key: Seq<u8>) -> Option<Seq<u8>> {
    match first_with_key(params, key) {
        Some(p) => p.value,
        None => None,
    }
}

/// The first of the parameters that is valid UTF-8 and whose key is `key`,
/// dashes and underscores taken as the same.
pub open spec fn first_str_with_key(params: Seq<ParameterView>, key: Seq<u8>) -> Option<
    ParameterView,
>
    decreases params.len(),
{
    if params.len() == 0 {
        None
    } else if valid_utf8(params[0].parameter) && key_eq(params[0].key, key) {
        Some(params[0])
    } else {
        first_str_with_key(params.drop_first(), key)
    }
}

/// The parameter is valid UTF-8 and its key starts with `prefix`.
pub open spec fn is_str_with_prefix(p: ParameterView, prefix: Seq<u8>) -> bool {
    valid_utf8(p.parameter) && prefix.is_prefix_of(p.key)
}

/// `skip_spaces` stops within the sequence, behind whitespace only, and not
/// on whitespace.
pub proof fn lemma_skip_spaces(s: Seq<u8>, from: int)
    requires
        0 <= from <= s.len(),
    ensures
        from <= skip_spaces(s, from) <= s.len(),
        forall|j: int| from <= j < skip_spaces(s, from) ==> is_space(#[trigger] s[j]),
        skip_spaces(s, from) < s.len() ==> !is_space(s[skip_spaces(s, from)]),
    decreases s.len() - from,
{
    if from < s.len() && is_space(s[from]) {
        lemma_skip_spaces(s, from + 1);
    }
}

/// `param_end` stops within the sequence, and behind the first byte if that
/// is no whitespace.
pub proof fn lemma_param_end(s: Seq<u8>, from: int)
    requires
        0 <= from <= s.len(),
    ensures
        from <= param_end(s, from) <= s.len(),
        from < s.len() && !is_space(s[from]) ==> from < param_end(s, from),
        forall|j: int|
            from <= j < param_end(s, from) ==> !(is_space(#[trigger] s[j]) && !in_quotes(s, j)),
        param_end(s, from) < s.len() ==> is_space(s[param_end(s, from)]) && !in_quotes(
            s,
            param_end(s, from),
        ),
    decreases s.len() - from,
{
    if from < s.len() && !(is_space(s[from]) && !in_quotes(s, from)) {
        lemma_param_end(s, from + 1);
    }
}

/// `find_byte` finds the first position of the byte, if there is one.
pub proof fn lemma_find_byte(s: Seq<u8>, b: u8, from: int)
    requires
        0 <= from <= s.len(),
    ensures
        match find_byte(s, b, from) {
            Some(i) => from <= i < s.len() && s[i] == b && forall|j: int|
                from <= j < i ==> #[trigger] s[j] != b,
            None => forall|j: int| from <= j < s.len() ==> #[trigger] s[j] != b,
        },
    decreases s.len() - from,
{
    if from < s.len() && s[from] != b {
        lemma_find_byte(s, b, from + 1);
    }
}

/// Where a parameter is parsed, what is left of the line is shorter than
/// the line, and the parameter's token is not empty.
pub proof fn lemma_parse_consumes(input: Seq<u8>)
    requires
        parse_spec(input).0 is Some,
    ensures
        parse_spec(input).1.len() < input.len(),
        parse_spec(input).0->0.parameter.len() > 0,
{
    lemma_skip_spaces(input, 0);
    let trimmed = input.skip(skip_spaces(input, 0));
    lemma_param_end(trimmed, 0);
}

/// No parameter is parsed exactly from a line that holds nothing but
/// whitespace, and then nothing is left of the line.
pub proof fn lemma_parse_none_iff_blank(input: Seq<u8>)
    ensures
        parse_spec(input).0 is None <==> forall|i: int|
            0 <= i < input.len() ==> is_space(#[trigger] input[i]),
        parse_spec(input).0 is None ==> parse_spec(input).1.len() == 0,
{
    lemma_skip_spaces(input, 0);
}

/// Every parameter of a command line is the parameter that its own token
/// stands for.
pub proof fn lemma_params_are_tokens(input: Seq<u8>, i: int)
    requires
        0 <= i < params_of(input).len(),
    ensures
        params_of(input)[i] == param_of(params_of(input)[i].parameter),
    decreases input.len(),
{
    if parse_spec(input).0 is Some {
        lemma_parse_consumes(input);
        if i > 0 {
            lemma_params_are_tokens(parse_spec(input).1, i - 1);
        }
    }
}

/// The parameter that `first_with_key` gives stands in the list and has the
/// key, and no parameter before it has; it gives none only where no
/// parameter of the list has the key.
pub proof fn lemma_first_with_key(params: Seq<ParameterView>, key: Seq<u8>)
    ensures
        match first_with_key(params, key) {
            Some(p) => exists|i: int|
                0 <= i < params.len() && params[i] == p && key_eq(p.key, key) && forall|j: int|
                    0 <= j < i ==> !key_eq(#[trigger] params[j].key, key),
            None => forall|i: int| 0 <= i < params.len() ==> !key_eq(#[trigger] params[i].key, key),
        },
    decreases params.len(),
{
    if params.len() > 0 && !key_eq(params[0].key, key) {
        let rest = params.drop_first();
        lemma_first_with_key(rest, key);
        match first_with_key(rest, key) {
            Some(p) => {
                let i = choose|i: int|
                    0 <= i < rest.len() && rest[i] == p && key_eq(p.key, key) && forall|j: int|
                        0 <= j < i ==> !key_eq(#[trigger] rest[j].key, key);
                assert(params[i + 1] == p);
                assert forall|j: int| 0 <= j < i + 1 implies !key_eq(
                    #[trigger] params[j].key,
                    key,
                ) by {
                    if j > 0 {
                        assert(rest[j - 1] == params[j]);
                    }
                }
            },
            None => {
                assert forall|i: int| 0 <= i < params.len() implies !key_eq(
                    #[trigger] params[i].key,
                    key,
                ) by {
                    if i > 0 {
                        assert(rest[i - 1] == params[i]);
                    }
                }
            },
        }
    } else if params.len() > 0 {
        assert(params[0] == first_with_key(params, key)->0);
    }
}

/// Keys are compared by an equivalence: every key equals itself, and keys
/// equal to the same key equal each other.
pub proof fn lemma_key_eq_equivalence(a: Seq<u8>, b: Seq<u8>, c: Seq<u8>)
    ensures
        key_eq(a, a),
        key_eq(a, b) ==> key_eq(b, a),
        key_eq(a, b) && key_eq(b, c) ==> key_eq(a, c),
        a == b ==> key_eq(a, b),
{
}

} // verus!
