//! Kernel command line parsing utilities.
//!
//! This module provides functionality for parsing and working with kernel command line
//! arguments, supporting both key-only switches and key-value pairs with proper quote handling.

pub mod grammar;
pub mod utf8;

use std::borrow::Cow;
use vstd::prelude::*;
use vstd::slice::slice_subrange;
use vstd::std_specs::cmp::PartialEqSpecImpl;
use vstd::string::{StringExecFns, StringSliceAdditionalSpecFns};
use vstd::utf8::{encode_utf8_valid_utf8, valid_utf8};
use core::str::Utf8Error;
use self::grammar::{
    dedashed, find_byte, first_str_with_key, first_with_key, in_quotes, is_space,
    is_str_with_prefix, key_eq, lemma_params_are_tokens, lemma_parse_consumes, param_end,
    param_of, params_of, parse_spec, skip_spaces, unquote, value_with_key, ParameterView,
};
use self::utf8::{lemma_ascii_byte_boundaries, lossy_string, utf8_error_message, utf8_lossy};

verus! {

/// This is used by dracut.
pub const INITRD_ARG_PREFIX: &'static str = "rd.";

/// The kernel argument for configuring the rootfs flags.
pub const ROOTFLAGS: &'static str = "rootflags";

/// A single kernel command line parameter key
///
/// Handles quoted values and treats dashes and underscores in keys as equivalent.
#[derive(Debug, Eq)]
pub struct ParameterKey<'a>(pub &'a [u8]);

/// A single kernel command line parameter key that is known to be UTF-8.
///
/// Otherwise the same as [`ParameterKey`].
#[derive(Debug, Eq)]
pub struct ParameterKeyStr<'a>(pub &'a str);

/// A single kernel command line parameter.
#[derive(Debug, Eq)]
pub struct Parameter<'a> {
    /// The whole parameter as it stood on the command line
    pub parameter: &'a [u8],
    /// The parameter key as raw bytes
    pub key: ParameterKey<'a>,
    /// The parameter value as raw bytes, if present
    pub value: Option<&'a [u8]>,
}

/// A single kernel command line parameter.
#[derive(Debug, PartialEq, Eq)]
pub struct ParameterStr<'a> {
    /// The whole parameter as it stood on the command line
    pub parameter: &'a str,
    /// The parameter key
    pub key: ParameterKeyStr<'a>,
    /// The parameter value, if present
    pub value: Option<&'a str>,
}

impl<'a> View for Parameter<'a> {
    type V = ParameterView;

    open spec fn view(&self) -> ParameterView {
        ParameterView {
            parameter: self.parameter@,
            key: self.key.0@,
            value: match self.value {
                Some(v) => Some(v@),
                None => None,
            },
        }
    }
}

impl<'a> View for ParameterStr<'a> {
    type V = ParameterView;

    /// The parameter by the bytes of its parts.
    open spec fn view(&self) -> ParameterView {
        ParameterView {
            parameter: self.parameter.spec_bytes(),
            key: self.key.0.spec_bytes(),
            value: match self.value {
                Some(v) => Some(v.spec_bytes()),
                None => None,
            },
        }
    }
}

/// The view of a parameter that may be absent.
pub open spec fn parameter_view(p: Option<Parameter>) -> Option<ParameterView> {
    match p {
        Some(p) => Some(p@),
        None => None,
    }
}

/// The view of a UTF-8 parameter that may be absent.
pub open spec fn parameter_str_view(p: Option<ParameterStr>) -> Option<ParameterView> {
    match p {
        Some(p) => Some(p@),
        None => None,
    }
}

/// The views of a list of UTF-8 parameters.
pub open spec fn parameter_str_views(v: Seq<ParameterStr>) -> Seq<ParameterView> {
    Seq::new(v.len(), |i: int| v[i]@)
}

/// Tells whether the byte is ASCII whitespace.
pub fn is_ascii_space(b: u8) -> (r: bool)
    ensures
        r == is_space(b),
{
    b == 0x20 || b == 0x09 || b == 0x0a || b == 0x0c || b == 0x0d
}

/// Tells whether two byte strings are equal.
fn bytes_equal(a: &[u8], b: &[u8]) -> (r: bool)
    ensures
        r == (a@ == b@),
{
    if a.len() != b.len() {
        return false;
    }
    let mut i: usize = 0;
    while i < a.len()
        invariant
            a@.len() == b@.len(),
            i <= a@.len(),
            forall|j: int| 0 <= j < i ==> a@[j] == b@[j],
        decreases a.len() - i,
    {
        if a[i] != b[i] {
            return false;
        }
        i = i + 1;
    }
    assert(a@ =~= b@);
    true
}

/// Tells whether two keys are the same but for `-` in place of `_`.
fn keys_equal(a: &[u8], b: &[u8]) -> (r: bool)
    ensures
        r == key_eq(a@, b@),
{
    if a.len() != b.len() {
        assert(dedashed(a@).len() != dedashed(b@).len());
        return false;
    }
    let mut i: usize = 0;
    while i < a.len()
        invariant
            a@.len() == b@.len(),
            i <= a@.len(),
            forall|j: int| 0 <= j < i ==> dedashed(a@)[j] == dedashed(b@)[j],
        decreases a.len() - i,
    {
        let x: u8 = if a[i] == 0x2d { 0x5fu8 } else { a[i] };
        let y: u8 = if b[i] == 0x2d { 0x5fu8 } else { b[i] };
        if x != y {
            assert(dedashed(a@)[i as int] != dedashed(b@)[i as int]);
            return false;
        }
        i = i + 1;
    }
    assert(dedashed(a@) =~= dedashed(b@));
    true
}

/// Tells whether `a` starts with `prefix`.
fn starts_with(a: &[u8], prefix: &[u8]) -> (r: bool)
    ensures
        r == prefix@.is_prefix_of(a@),
{
    if prefix.len() > a.len() {
        return false;
    }
    let mut i: usize = 0;
    while i < prefix.len()
        invariant
            prefix@.len() <= a@.len(),
            i <= prefix@.len(),
            forall|j: int| 0 <= j < i ==> a@[j] == prefix@[j],
        decreases prefix.len() - i,
    {
        if a[i] != prefix[i] {
            assert(a@.subrange(0, prefix@.len() as int)[i as int] != prefix@[i as int]);
            return false;
        }
        i = i + 1;
    }
    assert(a@.subrange(0, prefix@.len() as int) =~= prefix@);
    true
}

/// Strips the quotes of a value.
fn strip_quotes<'a>(value: &'a [u8]) -> (r: &'a [u8])
    ensures
        r@ == unquote(value@),
{
    let inner = if value.len() > 0 && value[0] == 0x22 {
        slice_subrange(value, 1, value.len())
    } else {
        value
    };
    if inner.len() > 0 && inner[inner.len() - 1] == 0x22 {
        let r = slice_subrange(inner, 0, inner.len() - 1);
        assert(r@ =~= inner@.drop_last());
        assert(value@.subrange(1, value@.len() as int) =~= value@.skip(1));
        r
    } else {
        assert(value@.subrange(1, value@.len() as int) =~= value@.skip(1));
        value
    }
}

/// Strips the quotes of a UTF-8 value.
fn strip_quotes_str<'a>(value: &'a str) -> (r: &'a str)
    ensures
        r.spec_bytes() == unquote(value.spec_bytes()),
{
    let ghost v = value.spec_bytes();
    proof {
        encode_utf8_valid_utf8(value@);
    }
    let bytes = value.as_bytes();
    let inner = if bytes.len() > 0 && bytes[0] == 0x22 {
        proof {
            lemma_ascii_byte_boundaries(v, 0);
            assert(v.subrange(0, v.len() as int) =~= v);
        }
        let (_quote, inner) = value.split_at(1);
        inner
    } else {
        value
    };
    let ghost w = inner.spec_bytes();
    assert(w == if v.len() > 0 && v[0] == 0x22 {
        v.skip(1)
    } else {
        v
    }) by {
        assert(v.subrange(1, v.len() as int) =~= v.skip(1));
    }
    proof {
        encode_utf8_valid_utf8(inner@);
    }
    let inner_bytes = inner.as_bytes();
    if inner_bytes.len() > 0 && inner_bytes[inner_bytes.len() - 1] == 0x22 {
        proof {
            lemma_ascii_byte_boundaries(w, w.len() - 1);
        }
        let (r, _quote) = inner.split_at(inner_bytes.len() - 1);
        assert(r.spec_bytes() =~= w.drop_last());
        r
    } else {
        value
    }
}

impl<'a> PartialEq for ParameterKey<'a> {
    /// Compares two parameter keys for equality.
    ///
    /// Keys are compared with dashes and underscores treated as equivalent.
    /// This comparison is case-sensitive.
    fn eq(&self, other: &Self) -> (r: bool) {
        keys_equal(self.0, other.0)
    }
}

impl<'a> PartialEqSpecImpl for ParameterKey<'a> {
    open spec fn obeys_eq_spec() -> bool {
        true
    }

    open spec fn eq_spec(&self, other: &Self) -> bool {
        key_eq(self.0@, other.0@)
    }
}

impl<'a> PartialEq for ParameterKeyStr<'a> {
    fn eq(&self, other: &Self) -> (r: bool) {
        keys_equal(self.0.as_bytes(), other.0.as_bytes())
    }
}

impl<'a> PartialEqSpecImpl for ParameterKeyStr<'a> {
    open spec fn obeys_eq_spec() -> bool {
        true
    }

    open spec fn eq_spec(&self, other: &Self) -> bool {
        key_eq(self.0.spec_bytes(), other.0.spec_bytes())
    }
}

impl<'a> PartialEq for Parameter<'a> {
    /// Two parameters are equal if their keys are, with dashes and
    /// underscores treated as equivalent, and their values are.
    fn eq(&self, other: &Self) -> (r: bool) {
        keys_equal(self.key.0, other.key.0) && match (self.value, other.value) {
            (None, None) => true,
            (Some(a), Some(b)) => bytes_equal(a, b),
            _ => false,
        }
    }
}

impl<'a> PartialEqSpecImpl for Parameter<'a> {
    open spec fn obeys_eq_spec() -> bool {
        true
    }

    open spec fn eq_spec(&self, other: &Self) -> bool {
        key_eq(self.key.0@, other.key.0@) && self@.value == other@.value
    }
}

impl<'a> Parameter<'a> {
    /// Builds the parameter that a token stands for.
    fn from_token(token: &'a [u8]) -> (p: Self)
        ensures
            p@ == param_of(token@),
    {
        let mut i: usize = 0;
        while i < token.len() && token[i] != 0x3d
            invariant
                i <= token.len(),
                find_byte(token@, 0x3d, 0) == find_byte(token@, 0x3d, i as int),
            decreases token.len() - i,
        {
            i = i + 1;
        }
        if i < token.len() {
            let key = slice_subrange(token, 0, i);
            let value = slice_subrange(token, i + 1, token.len());
            assert(key@ =~= token@.take(i as int));
            assert(value@ =~= token@.skip(i + 1));
            Self { parameter: token, key: ParameterKey(key), value: Some(strip_quotes(value)) }
        } else {
            Self { parameter: token, key: ParameterKey(token), value: None }
        }
    }

    /// Attempt to parse a single command line parameter from a slice
    /// of bytes.
    ///
    /// The first tuple item contains the parsed parameter, or `None`
    /// if a Parameter could not be constructed from the input.  This
    /// occurs when the input is either empty or contains only
    /// whitespace.
    ///
    /// Any remaining bytes not consumed from the input are returned
    /// as the second tuple item.
    pub fn parse(input: &'a [u8]) -> (r: (Option<Self>, &'a [u8]))
        ensures
            parameter_view(r.0) == parse_spec(input@).0,
            r.1@ == parse_spec(input@).1,
    {
        let mut start: usize = 0;
        while start < input.len() && is_ascii_space(input[start])
            invariant
                start <= input.len(),
                skip_spaces(input@, 0) == skip_spaces(input@, start as int),
            decreases input.len() - start,
        {
            start = start + 1;
        }
        let trimmed = slice_subrange(input, start, input.len());
        assert(trimmed@ =~= input@.skip(start as int));
        if trimmed.len() == 0 {
            return (None, trimmed);
        }
        let mut quoted = false;
        let mut end: usize = 0;
        while end < trimmed.len() && (quoted || !is_ascii_space(trimmed[end]))
            invariant
                end <= trimmed.len(),
                quoted == in_quotes(trimmed@, end as int),
                param_end(trimmed@, 0) == param_end(trimmed@, end as int),
            decreases trimmed.len() - end,
        {
            if trimmed[end] == 0x22 {
                quoted = !quoted;
            }
            end = end + 1;
        }
        let token = slice_subrange(trimmed, 0, end);
        let rest = slice_subrange(trimmed, end, trimmed.len());
        assert(token@ =~= trimmed@.take(end as int));
        assert(rest@ =~= trimmed@.skip(end as int));
        (Some(Self::from_token(token)), rest)
    }

    /// Convert this parameter to a UTF-8 string parameter, if possible.
    ///
    /// Returns `None` if the parameter contains invalid UTF-8.
    pub fn to_str(&self) -> (r: Option<ParameterStr<'a>>)
        ensures
            r is Some <==> valid_utf8(self.parameter@),
            r matches Some(p) ==> p@ == param_of(self.parameter@),
    {
        match core::str::from_utf8(self.parameter) {
            Ok(parameter) => Some(ParameterStr::from(parameter)),
            Err(_) => None,
        }
    }
}

impl<'a> ParameterStr<'a> {
    /// Builds the parameter that a UTF-8 token stands for. The token is
    /// taken to be a single parameter, split off a command line already.
    pub fn from(parameter: &'a str) -> (p: Self)
        ensures
            p@ == param_of(parameter.spec_bytes()),
            p.parameter == parameter,
    {
        let ghost token = parameter.spec_bytes();
        proof {
            encode_utf8_valid_utf8(parameter@);
        }
        let bytes = parameter.as_bytes();
        let mut i: usize = 0;
        while i < bytes.len() && bytes[i] != 0x3d
            invariant
                i <= bytes.len(),
                bytes@ == token,
                find_byte(token, 0x3d, 0) == find_byte(token, 0x3d, i as int),
            decreases bytes.len() - i,
        {
            i = i + 1;
        }
        if i < bytes.len() {
            proof {
                lemma_ascii_byte_boundaries(token, i as int);
            }
            let (key, tail) = parameter.split_at(i);
            let (_equals, value) = tail.split_at(1);
            proof {
                assert(key.spec_bytes() =~= token.take(i as int));
                assert(value.spec_bytes() =~= token.skip(i + 1)) by {
                    let t = token.subrange(i as int, token.len() as int);
                    assert(t.subrange(1, t.len() as int) =~= token.skip(i + 1));
                }
            }
            let value = strip_quotes_str(value);
            ParameterStr { parameter, key: ParameterKeyStr(key), value: Some(value) }
        } else {
            ParameterStr { parameter, key: ParameterKeyStr(parameter), value: None }
        }
    }

    /// The whole parameter as it stood on the command line.
    pub fn as_ref(&self) -> (s: &'a str)
        ensures
            s == self.parameter,
    {
        self.parameter
    }
}

/// Why a value that was asked for could not be given.
#[derive(Debug)]
pub enum CmdlineError {
    /// No parameter with the key has a value. The key is kept as text, with
    /// what is not UTF-8 in it replaced.
    NotFound { key: String },
    /// The value is not valid UTF-8.
    InvalidUtf8 { error: Utf8Error },
}

/// The message for a key without a value.
pub open spec fn not_found_message(key: Seq<char>) -> Seq<char> {
    "Failed to find kernel argument '"@ + key + "'"@
}

impl CmdlineError {
    /// The message of this error.
    pub fn to_string(&self) -> (s: String)
        ensures
            self matches CmdlineError::NotFound { key } ==> s@ == not_found_message(key@),
    {
        match self {
            CmdlineError::NotFound { key } => {
                let mut s = String::from_str("Failed to find kernel argument '");
                s.append(key.as_str());
                s.append("'");
                s
            },
            CmdlineError::InvalidUtf8 { error } => utf8_error_message(error),
        }
    }
}

/// A parsed kernel command line.
///
/// Wraps the raw command line bytes and provides methods for parsing and iterating
/// over individual parameters. Uses copy-on-write semantics to avoid unnecessary
/// allocations when working with borrowed data.
#[derive(Debug)]
pub struct Cmdline<'a>(pub Cow<'a, [u8]>);

impl<'a> View for Cmdline<'a> {
    type V = Seq<u8>;

    open spec fn view(&self) -> Seq<u8> {
        self.0@
    }
}

/// An iterator over kernel command line parameters.
///
/// This is created by the `iter` method on `Cmdline`.
#[derive(Debug)]
pub struct CmdlineIter<'a>(pub &'a [u8]);

impl<'a> CmdlineIter<'a> {
    /// Parses the next parameter off the front of what is left of the line.
    pub fn next(&mut self) -> (r: Option<Parameter<'a>>)
        ensures
            parameter_view(r) == parse_spec(old(self).0@).0,
            final(self).0@ == parse_spec(old(self).0@).1,
    {
        let (param, rest) = Parameter::parse(self.0);
        self.0 = rest;
        param
    }
}

impl<'a> Cmdline<'a> {
    /// Creates a new `Cmdline` from borrowed bytes.
    pub fn from(input: &'a [u8]) -> (c: Self)
        ensures
            c@ == input@,
    {
        Self(Cow::Borrowed(input))
    }

    /// Creates a new `Cmdline` that owns its bytes.
    pub fn from_vec(input: Vec<u8>) -> (c: Cmdline<'static>)
        ensures
            c@ == input@,
    {
        Cmdline(Cow::Owned(input))
    }

    /// The raw bytes of the command line.
    pub fn as_bytes(&'a self) -> (b: &'a [u8])
        ensures
            b@ == self@,
    {
        match &self.0 {
            Cow::Borrowed(b) => b,
            Cow::Owned(v) => v.as_slice(),
        }
    }

    /// Returns an iterator over all parameters in the command line.
    ///
    /// Properly handles quoted values containing whitespace and splits on
    /// unquoted whitespace characters. Parameters are parsed as either
    /// key-only switches or key=value pairs.
    pub fn iter(&'a self) -> (it: CmdlineIter<'a>)
        ensures
            it.0@ == self@,
    {
        CmdlineIter(self.as_bytes())
    }

    /// Locate a kernel argument with the given key name.
    ///
    /// Returns the first parameter matching the given key, or `None` if not found.
    /// Key comparison treats dashes and underscores as equivalent.
    pub fn find(&'a self, key: &[u8]) -> (r: Option<Parameter<'a>>)
        ensures
            parameter_view(r) == first_with_key(params_of(self@), key@),
    {
        let mut iter = self.iter();
        loop
            invariant
                first_with_key(params_of(self@), key@) == first_with_key(
                    params_of(iter.0@),
                    key@,
                ),
            decreases iter.0@.len(),
        {
            let ghost line = iter.0@;
            match iter.next() {
                None => {
                    return None;
                },
                Some(p) => {
                    proof {
                        lemma_parse_consumes(line);
                        assert(params_of(line).drop_first() =~= params_of(iter.0@));
                    }
                    if keys_equal(p.key.0, key) {
                        return Some(p);
                    }
                },
            }
        }
    }

    /// Locate the value of the kernel argument with the given key name.
    ///
    /// Returns the first value matching the given key, or `None` if not found.
    /// Key comparison treats dashes and underscores as equivalent.
    pub fn value_of(&'a self, key: &[u8]) -> (r: Option<&'a [u8]>)
        ensures
            match r {
                Some(v) => value_with_key(params_of(self@), key@) == Some(v@),
                None => value_with_key(params_of(self@), key@) is None,
            },
    {
        match self.find(key) {
            Some(p) => p.value,
            None => None,
        }
    }

    /// Locate a kernel argument with the given key name that must be UTF-8.
    ///
    /// Otherwise the same as [`Self::find`].
    pub fn find_str(&'a self, key: &str) -> (r: Option<ParameterStr<'a>>)
        ensures
            parameter_str_view(r) == first_str_with_key(params_of(self@), key.spec_bytes()),
    {
        let mut iter = self.iter();
        let ghost k = key.spec_bytes();
        loop
            invariant
                k == key.spec_bytes(),
                first_str_with_key(params_of(self@), k) == first_str_with_key(
                    params_of(iter.0@),
                    k,
                ),
            decreases iter.0@.len(),
        {
            let ghost line = iter.0@;
            match iter.next() {
                None => {
                    return None;
                },
                Some(p) => {
                    proof {
                        lemma_parse_consumes(line);
                        assert(params_of(line).drop_first() =~= params_of(iter.0@));
                        lemma_params_are_tokens(line, 0);
                    }
                    if let Some(p) = p.to_str() {
                        if keys_equal(p.key.0.as_bytes(), key.as_bytes()) {
                            return Some(p);
                        }
                    }
                },
            }
        }
    }

    /// Find all kernel arguments starting with the given prefix which must be UTF-8.
    /// Non-UTF8 values are ignored.
    ///
    /// This is a variant of [`Self::find`].
    pub fn find_all_starting_with_str(&'a self, prefix: &'a str) -> (r: Vec<ParameterStr<'a>>)
        ensures
            parameter_str_views(r@) == params_of(self@).filter(
                |p: ParameterView| is_str_with_prefix(p, prefix.spec_bytes()),
            ),
    {
        let mut iter = self.iter();
        let mut found: Vec<ParameterStr<'a>> = Vec::new();
        let ghost pre = prefix.spec_bytes();
        let ghost pred = |p: ParameterView| is_str_with_prefix(p, pre);
        let ghost all = params_of(self@);
        let ghost done: Seq<ParameterView> = Seq::empty();
        proof {
            assert(parameter_str_views(found@) =~= Seq::<ParameterView>::empty());
            reveal(Seq::filter);
            assert(done.filter(pred) =~= Seq::<ParameterView>::empty());
            assert(all =~= done + params_of(iter.0@));
        }
        loop
            invariant
                pre == prefix.spec_bytes(),
                pred == (|p: ParameterView| is_str_with_prefix(p, pre)),
                all == params_of(self@),
                all == done + params_of(iter.0@),
                parameter_str_views(found@) == done.filter(pred),
            decreases iter.0@.len(),
        {
            let ghost line = iter.0@;
            match iter.next() {
                None => {
                    proof {
                        assert(all =~= done);
                    }
                    return found;
                },
                Some(p) => {
                    let ghost pv = p@;
                    proof {
                        lemma_parse_consumes(line);
                        lemma_params_are_tokens(line, 0);
                        assert(params_of(line) =~= seq![pv] + params_of(iter.0@));
                        assert(all =~= done.push(pv) + params_of(iter.0@));
                        Seq::lemma_filter_push(done, pv, pred);
                    }
                    if let Some(p) = p.to_str() {
                        if starts_with(p.key.0.as_bytes(), prefix.as_bytes()) {
                            proof {
                                assert(parameter_str_views(found@.push(p)) =~= parameter_str_views(
                                    found@,
                                ).push(pv));
                            }
                            found.push(p);
                        }
                    }
                    proof {
                        done = done.push(pv);
                    }
                },
            }
        }
    }

    /// Locate the UTF-8 value of the kernel argument with the given key name.
    ///
    /// Returns the first value matching the given key, or `None` if not found.
    /// Key comparison treats dashes and underscores as equivalent.
    pub fn value_of_utf8(&'a self, key: &str) -> (r: Result<Option<&'a str>, Utf8Error>)
        ensures
            match value_with_key(params_of(self@), key.spec_bytes()) {
                None => r matches Ok(None),
                Some(v) => if valid_utf8(v) {
                    r matches Ok(Some(s)) && s.spec_bytes() == v
                } else {
                    r is Err
                },
            },
    {
        match self.value_of(key.as_bytes()) {
            None => Ok(None),
            Some(v) => match core::str::from_utf8(v) {
                Ok(s) => Ok(Some(s)),
                Err(e) => Err(e),
            },
        }
    }

    /// Find the value of the kernel argument with the provided name, which must be present.
    ///
    /// Otherwise the same as [`Self::value_of`].
    pub fn require_value_of(&'a self, key: &[u8]) -> (r: Result<&'a [u8], CmdlineError>)
        ensures
            match value_with_key(params_of(self@), key@) {
                Some(v) => r matches Ok(b) && b@ == v,
                None => r matches Err(CmdlineError::NotFound { key: k }) && k@ == utf8_lossy(key@),
            },
    {
        match self.value_of(key) {
            Some(v) => Ok(v),
            None => Err(CmdlineError::NotFound { key: lossy_string(key) }),
        }
    }

    /// Find the UTF-8 value of the kernel argument with the provided
    /// name, which must be present.
    ///
    /// Otherwise the same as [`Self::value_of_utf8`].
    pub fn require_value_of_utf8(&'a self, key: &str) -> (r: Result<&'a str, CmdlineError>)
        ensures
            match value_with_key(params_of(self@), key.spec_bytes()) {
                Some(v) => if valid_utf8(v) {
                    r matches Ok(s) && s.spec_bytes() == v
                } else {
                    r matches Err(CmdlineError::InvalidUtf8 { .. })
                },
                None => r matches Err(CmdlineError::NotFound { key: k }) && k@ == key@,
            },
    {
        match self.value_of_utf8(key) {
            Err(error) => Err(CmdlineError::InvalidUtf8 { error }),
            Ok(Some(s)) => Ok(s),
            Ok(None) => Err(CmdlineError::NotFound { key: String::from_str(key) }),
        }
    }
}

} // verus!
