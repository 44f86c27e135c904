//! Read-only access to the parameters of a request.

use crate::error::Error;
use crate::json::{object_entries, object_get, JsonValue};
use crate::jsonrpc::{EntrySpec, KeySpec};
use vstd::prelude::*;
use vstd::std_specs::convert::IntoSpec;
use vstd::string::StringExecFns;

verus! {

/// Access to the parameters of a request.
#[derive(Copy, Debug, Clone)]
pub struct Params<'a> {
    /// Raw parameters of the request.
    params: &'a crate::jsonrpc::Params,
}

/// Key referring to a potential parameter of a request.
#[derive(Debug)]
pub enum ParamKey<'a> {
    /// String key. Only valid when the parameters list is a map.
    String(&'a str),
    /// Integer key. Only valid when the parameters list is an array.
    Index(usize),
}

impl<'a> View for ParamKey<'a> {
    type V = KeySpec;

    open spec fn view(&self) -> KeySpec {
        match self {
            ParamKey::String(name) => KeySpec::String(name@),
            ParamKey::Index(index) => KeySpec::Index(*index as nat),
        }
    }
}

impl<'a> From<&'a str> for ParamKey<'a> {
    fn from(s: &'a str) -> (key: Self) {
        ParamKey::String(s)
    }
}

impl<'a> vstd::std_specs::convert::FromSpecImpl<&'a str> for ParamKey<'a> {
    open spec fn obeys_from_spec() -> bool {
        true
    }

    open spec fn from_spec(s: &'a str) -> Self {
        ParamKey::String(s)
    }
}

impl<'a> From<&'a String> for ParamKey<'a> {
    fn from(s: &'a String) -> (key: Self)
        ensures
            key@ == KeySpec::String(s@),
    {
        ParamKey::String(s.as_str())
    }
}

/// The key that an owned string converts to is a name with the text of the string. Which
/// key of that view it is, `from_spec` cannot say, so the conversion is known to proofs
/// by the `ensures` of `from` alone.
impl<'a> vstd::std_specs::convert::FromSpecImpl<&'a String> for ParamKey<'a> {
    open spec fn obeys_from_spec() -> bool {
        false
    }

    open spec fn from_spec(s: &'a String) -> Self {
        choose|key: ParamKey<'a>| key@ == KeySpec::String(s@)
    }
}

impl<'a> From<usize> for ParamKey<'a> {
    fn from(i: usize) -> (key: Self) {
        ParamKey::Index(i)
    }
}

impl<'a> vstd::std_specs::convert::FromSpecImpl<usize> for ParamKey<'a> {
    open spec fn obeys_from_spec() -> bool {
        true
    }

    open spec fn from_spec(i: usize) -> Self {
        ParamKey::Index(i)
    }
}

/// One parameter of a request, as the iterator hands it out.
#[derive(Debug)]
pub enum Entry<'a> {
    /// A positional parameter.
    Value(&'a JsonValue),
    /// A named parameter with its name.
    KeyValue(ParamKey<'a>, &'a JsonValue),
}

impl<'a> View for Entry<'a> {
    type V = EntrySpec;

    open spec fn view(&self) -> EntrySpec {
        match self {
            Entry::Value(value) => EntrySpec::Value(**value),
            Entry::KeyValue(key, value) => EntrySpec::KeyValue(key@, **value),
        }
    }
}

/// The conversion of keys of this type into a [`ParamKey`] is specified: `into_spec` says
/// which key a value converts to. It is for names (`&str`) and positions (`usize`). It is
/// not for owned strings (`&String`), nor for a [`ParamKey`] handed over as it is: with
/// those, call [`Params::find`], whose contract holds for every key.
pub open spec fn converts<'k, K: Into<ParamKey<'k>>>(key: K) -> bool {
    K::obeys_into_spec()
}

/// What a decoding attempt amounts to for the caller: the value, or a parse error with
/// the text of the failure.
pub open spec fn decoded<T>(outcome: Result<T, String>) -> Result<T, Error> {
    match outcome {
        Ok(value) => Ok(value),
        Err(text) => Err(Error::ParseError(text)),
    }
}

/// `r` is what reading the parameter under `key` with `decode` ends with: a missing
/// parameter is the error `Custom("no such param")`, and a parameter that is found is
/// handed to `decode`, whose outcome is passed on as [`decoded`] says.
pub open spec fn read_under<'a, T, F: FnOnce(&'a JsonValue) -> Result<T, String>>(
    params: crate::jsonrpc::Params,
    key: KeySpec,
    decode: F,
    r: Result<T, Error>,
) -> bool {
    match params.lookup(key) {
        None => r matches Err(Error::Custom(text)) && text@ == "no such param"@,
        Some(value) => exists|outcome: Result<T, String>|
            call_ensures(decode, (&value,), outcome) && r == decoded(outcome),
    }
}

impl<'a> Params<'a> {
    /// The parameters that this accessor reads.
    pub closed spec fn raw(self) -> crate::jsonrpc::Params {
        *self.params
    }

    /// Wraps around a `&jsonrpc::Params` and provides utility functions for the user.
    pub fn from(params: &'a crate::jsonrpc::Params) -> (wrapped: Params<'a>)
        ensures
            wrapped.raw() == *params,
    {
        Params { params }
    }

    /// The parameters that this accessor reads.
    pub fn as_ref(&self) -> (params: &'a crate::jsonrpc::Params)
        ensures
            *params == self.raw(),
    {
        self.params
    }

    /// Returns a parameter of the request by name and decodes it with `decode`.
    ///
    /// Fails with `Error::Custom("no such param")` if [`Self::find`] finds nothing under
    /// the converted key, and `decode` is then not called. Else the parameter is handed
    /// to `decode`, whose failure becomes an `Error::ParseError` with the same text.
    ///
    /// The contract names the key for names (`&str`) and positions (`usize`). A caller
    /// that holds a [`ParamKey`] or an owned string and needs to know which parameter was
    /// read calls [`Self::find`] and decodes what it finds.
    pub fn get<'k, T>(
        self,
        param: impl Into<ParamKey<'k>>,
        decode: impl FnOnce(&'a JsonValue) -> Result<T, String>,
    ) -> (r: Result<T, Error>)
        requires
            forall|value: &'a JsonValue| call_requires(decode, (value,)),
        ensures
            converts(param) ==> read_under(self.raw(), param.into_spec()@, decode, r),
            exists|key: KeySpec| read_under(self.raw(), key, decode, r),
    {
        let key = param.into();
        let ghost shown = key@;
        let ghost looked_up = self.raw().lookup(shown);
        match self.find(key) {
            None => {
                let r = Err(Error::Custom(String::from_str("no such param")));
                assert(read_under(self.raw(), shown, decode, r));
                r
            },
            Some(value) => {
                let outcome = decode(value);
                let ghost seen = outcome;
                let r = match outcome {
                    Ok(decoded) => Ok(decoded),
                    Err(text) => Err(Error::ParseError(text)),
                };
                proof {
                    let found = looked_up->Some_0;
                    assert(found == *value);
                    assert(call_ensures(decode, (&found,), seen) && r == decoded(seen));
                    assert(read_under(self.raw(), shown, decode, r));
                }
                r
            },
        }
    }

    /// Returns a parameter of the request by name.
    ///
    /// The key is anything that converts into a [`ParamKey`]: a name or a position. What
    /// is found is what [`Self::find`] finds for the converted key.
    ///
    /// The contract names the key for names (`&str`) and positions (`usize`). For every
    /// other form of key it says only that some key was looked up: a caller that holds a
    /// [`ParamKey`] or an owned string calls [`Self::find`].
    pub fn get_raw<'k>(self, param: impl Into<ParamKey<'k>>) -> (found: Option<&'a JsonValue>)
        ensures
            converts(param) ==> self.raw().found_under(param.into_spec()@, found),
            exists|key: KeySpec| self.raw().found_under(key, found),
    {
        let key = param.into();
        let found = self.find(key);
        assert(self.raw().found_under(key@, found));
        found
    }

    /// Returns the parameter of the request under `key`.
    ///
    /// A name finds nothing among positional parameters and a position nothing among
    /// named ones: both are "no value", as is a missing parameter.
    pub fn find<'k>(self, key: ParamKey<'k>) -> (found: Option<&'a JsonValue>)
        ensures
            match found {
                Some(value) => self.raw().lookup(key@) == Some(*value),
                None => self.raw().lookup(key@) is None,
            },
    {
        match (self.params, key) {
            (crate::jsonrpc::Params::Absent, _) => None,
            (crate::jsonrpc::Params::Object(object), ParamKey::String(key)) => object_get(object, key),
            (crate::jsonrpc::Params::Object(_), ParamKey::Index(_)) => None,
            (crate::jsonrpc::Params::Array(_), ParamKey::String(_)) => None,
            (crate::jsonrpc::Params::Array(array), ParamKey::Index(index)) => {
                if index < array.len() {
                    Some(&array[index])
                } else {
                    None
                }
            },
        }
    }

    /// An iterator over all parameters in source order: array order or map order. Each
    /// entry is what [`Self::find`] finds at its position or under its name; every
    /// parameter that [`Self::find`] finds is among the entries; and no name comes twice.
    pub fn into_iter(self) -> (iter: Iter<'a>)
        ensures
            iter.remaining() == self.raw().entries(),
            forall|i: int|
                0 <= i < iter.remaining().len() ==> self.raw().finds(i, #[trigger] iter.remaining()[i]),
            forall|key: KeySpec|
                (#[trigger] self.raw().lookup(key)) is Some ==> exists|i: int|
                    0 <= i < iter.remaining().len() && self.raw().entry_for(
                        key,
                        i,
                        #[trigger] iter.remaining()[i],
                    ),
            forall|i: int, j: int|
                0 <= i < j < iter.remaining().len() && (#[trigger] iter.remaining()[i]) is KeyValue
                    ==> (#[trigger] iter.remaining()[j]) is KeyValue && iter.remaining()[i]->KeyValue_0
                    != iter.remaining()[j]->KeyValue_0,
    {
        let source = match self.params {
            crate::jsonrpc::Params::Absent => Source::Empty,
            crate::jsonrpc::Params::Array(array) => Source::Array(array),
            crate::jsonrpc::Params::Object(object) => Source::Object(object_entries(object)),
        };
        let iter = Iter { source, position: 0 };
        proof {
            let entries = iter.remaining();
            assert(entries =~= self.raw().entries());
            assert forall|key: KeySpec| (#[trigger] self.raw().lookup(key)) is Some implies exists|
                i: int,
            |
                0 <= i < entries.len() && self.raw().entry_for(key, i, #[trigger] entries[i]) by {
                match (iter.source, key) {
                    (Source::Array(values), KeySpec::Index(index)) => {
                        assert(self.raw().entry_for(key, index as int, entries[index as int]));
                    },
                    (Source::Object(members), KeySpec::String(name)) => {
                        let i = choose|i: int|
                            0 <= i < members@.len() && (#[trigger] members@[i]).0@ == name;
                        assert(self.raw().entry_for(key, i, entries[i]));
                    },
                    _ => {},
                }
            }
        }
        iter
    }
}

/// Where the entries of an iterator come from.
#[derive(Debug)]
enum Source<'a> {
    Empty,
    Object(Vec<(&'a str, &'a JsonValue)>),
    Array(&'a Vec<JsonValue>),
}

impl<'a> Source<'a> {
    /// All entries of the source.
    spec fn entries(self) -> Seq<EntrySpec> {
        match self {
            Source::Empty => Seq::empty(),
            Source::Object(members) => Seq::new(
                members@.len(),
                |i: int| EntrySpec::KeyValue(KeySpec::String(members@[i].0@), *members@[i].1),
            ),
            Source::Array(values) => Seq::new(values@.len(), |i: int| EntrySpec::Value(values@[i])),
        }
    }

    /// Number of entries of the source.
    fn len(&self) -> (n: usize)
        ensures
            n == self.entries().len(),
    {
        match self {
            Source::Empty => 0,
            Source::Object(members) => members.len(),
            Source::Array(values) => values.len(),
        }
    }
}

/// Iterator to all the parameters of a request: finite, of known length, and not
/// restartable.
#[derive(Debug)]
pub struct Iter<'a> {
    source: Source<'a>,
    position: usize,
}

impl<'a> Iter<'a> {
    /// The entries that the iterator has not handed out yet.
    pub closed spec fn remaining(self) -> Seq<EntrySpec> {
        if self.position <= self.source.entries().len() {
            self.source.entries().skip(self.position as int)
        } else {
            Seq::empty()
        }
    }

    /// Hands out the next entry, if one is left.
    pub fn next(&mut self) -> (entry: Option<Entry<'a>>)
        ensures
            match entry {
                Some(entry) => old(self).remaining().len() > 0 && entry@ == old(self).remaining()[0]
                    && final(self).remaining() == old(self).remaining().skip(1),
                None => old(self).remaining().len() == 0 && final(self).remaining()
                    == old(self).remaining(),
            },
    {
        if self.position >= self.source.len() {
            return None;
        }
        let entry = match &self.source {
            Source::Empty => None,
            Source::Object(members) => {
                let (name, value) = members[self.position];
                Some(Entry::KeyValue(ParamKey::String(name), value))
            },
            Source::Array(values) => Some(Entry::Value(&values[self.position])),
        };
        self.position = self.position + 1;
        proof {
            assert(self.remaining() =~= old(self).remaining().skip(1));
        }
        entry
    }

    /// Number of entries that are left.
    pub fn len(&self) -> (n: usize)
        ensures
            n == self.remaining().len(),
    {
        let total = self.source.len();
        if self.position <= total {
            total - self.position
        } else {
            0
        }
    }

    /// Bounds on the number of entries that are left: both are exact.
    pub fn size_hint(&self) -> (hint: (usize, Option<usize>))
        ensures
            hint.0 == self.remaining().len(),
            hint.1 == Some(hint.0),
    {
        let n = self.len();
        (n, Some(n))
    }
}

} // verus!
