//! Key/value entries handed across the boundary one allocation each.
use vstd::prelude::*;

verus! {

/// The text of an optional string.
pub open spec fn opt_view(v: Option<String>) -> Option<Seq<char>> {
    match v {
        Some(s) => Some(s@),
        None => None,
    }
}

/// The items of `v`, moved into a vector in reverse order, so that popping
/// from it yields them first to last without a copy.
pub(crate) fn reversed<T>(v: Vec<T>) -> (r: Vec<T>)
    ensures
        r@.len() == v@.len(),
        forall|i: int| 0 <= i < v@.len() ==> #[trigger] r@[i] == v@[v@.len() - 1 - i],
{
    let mut v = v;
    let ghost orig = v@;
    let mut r: Vec<T> = Vec::with_capacity(v.len());
    while v.len() > 0
        invariant
            v@.len() + r@.len() == orig.len(),
            forall|i: int| 0 <= i < v@.len() ==> #[trigger] v@[i] == orig[i],
            forall|i: int| 0 <= i < r@.len() ==> #[trigger] r@[i] == orig[orig.len() - 1 - i],
        decreases v@.len(),
    {
        let x = v.pop().unwrap();
        r.push(x);
    }
    r
}

/// An owned entry: a key and a value that may be absent.
///
/// Absence is kept apart from an empty value; on the wire it is a null
/// address with a zero length.
pub struct KeyValuePair {
    key: String,
    value: Option<String>,
}

/// The entry layout used where every value may be absent.
pub type KeyNullableValuePair = KeyValuePair;

impl KeyValuePair {
    pub closed spec fn key_view(&self) -> Seq<char> {
        self.key@
    }

    pub closed spec fn value_view(&self) -> Option<Seq<char>> {
        opt_view(self.value)
    }

    pub fn key(&self) -> (r: &str)
        ensures
            r@ == self.key_view(),
    {
        self.key.as_str()
    }

    /// The value, or `None` where it is absent.
    pub fn value(&self) -> (r: Option<&str>)
        ensures
            r.is_some() == self.value_view().is_some(),
            r.is_some() ==> r.unwrap()@ == self.value_view().unwrap(),
    {
        match &self.value {
            Some(v) => Some(v.as_str()),
            None => None,
        }
    }

    /// Hands the key and the value over to the caller.
    pub fn into_parts(self) -> (r: (String, Option<String>))
        ensures
            r.0@ == self.key_view(),
            opt_view(r.1) == self.value_view(),
    {
        (self.key, self.value)
    }

    /// One separately owned entry for each pair, in order; an absent value
    /// stays absent.
    pub fn from_optional_hash_map(input: Vec<(String, Option<String>)>) -> (r: Vec<Box<KeyNullableValuePair>>)
        ensures
            r@.len() == input@.len(),
            forall|i: int|
                0 <= i < input@.len() ==> {
                    &&& (#[trigger] r@[i]).key_view() == input@[i].0@
                    &&& r@[i].value_view() == opt_view(input@[i].1)
                },
    {
        let n = input.len();
        let mut rest = reversed(input);
        let mut r: Vec<Box<KeyNullableValuePair>> = Vec::with_capacity(n);
        while rest.len() > 0
            invariant
                r@.len() + rest@.len() == n == input@.len(),
                forall|j: int| 0 <= j < rest@.len() ==> #[trigger] rest@[j] == input@[n - 1 - j],
                forall|j: int|
                    0 <= j < r@.len() ==> {
                        &&& (#[trigger] r@[j]).key_view() == input@[j].0@
                        &&& r@[j].value_view() == opt_view(input@[j].1)
                    },
            decreases rest@.len(),
        {
            let (key, value) = rest.pop().unwrap();
            r.push(Box::new(KeyValuePair { key, value }));
        }
        r
    }

    /// One separately owned entry for each pair, in order, every value
    /// present.
    pub fn from_hash_map(input: Vec<(String, String)>) -> (r: Vec<Box<KeyValuePair>>)
        ensures
            r@.len() == input@.len(),
            forall|i: int|
                0 <= i < input@.len() ==> {
                    &&& (#[trigger] r@[i]).key_view() == input@[i].0@
                    &&& r@[i].value_view() == Some(input@[i].1@)
                },
    {
        let n = input.len();
        let mut rest = reversed(input);
        let mut r: Vec<Box<KeyValuePair>> = Vec::with_capacity(n);
        while rest.len() > 0
            invariant
                r@.len() + rest@.len() == n == input@.len(),
                forall|j: int| 0 <= j < rest@.len() ==> #[trigger] rest@[j] == input@[n - 1 - j],
                forall|j: int|
                    0 <= j < r@.len() ==> {
                        &&& (#[trigger] r@[j]).key_view() == input@[j].0@
                        &&& r@[j].value_view() == Some(input@[j].1@)
                    },
            decreases rest@.len(),
        {
            let (key, value) = rest.pop().unwrap();
            r.push(Box::new(KeyValuePair { key, value: Some(value) }));
        }
        r
    }
}

} // verus!
