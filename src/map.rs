//! The string map that the host fills in entry by entry and then hands over.
use vstd::prelude::*;
use crate::buffer::ByteArrayRef;
use crate::kv::{opt_view, reversed};

verus! {

/// The mapping that a sequence of pairs describes, a later pair overriding an
/// earlier one with the same key.
pub open spec fn entries_map(s: Seq<(String, Option<String>)>) -> Map<Seq<char>, Option<Seq<char>>>
    decreases s.len(),
{
    if s.len() == 0 {
        Map::empty()
    } else {
        entries_map(s.drop_last()).insert(s.last().0@, opt_view(s.last().1))
    }
}

/// The same for pairs whose values are all present.
pub open spec fn pairs_map(s: Seq<(String, String)>) -> Map<Seq<char>, Seq<char>>
    decreases s.len(),
{
    if s.len() == 0 {
        Map::empty()
    } else {
        pairs_map(s.drop_last()).insert(s.last().0@, s.last().1@)
    }
}

/// No key occurs twice.
pub open spec fn distinct_keys<V>(s: Seq<(String, V)>) -> bool {
    forall|i: int, j: int| 0 <= i < j < s.len() ==> s[i].0@ != s[j].0@
}

/// An absent value read as the empty string.
pub open spec fn value_or_empty(v: Option<Seq<char>>) -> Seq<char> {
    match v {
        Some(s) => s,
        None => Seq::empty(),
    }
}

/// The mapping with every absent value replaced by the empty string.
pub open spec fn with_defaults(m: Map<Seq<char>, Option<Seq<char>>>) -> Map<Seq<char>, Seq<char>> {
    Map::new(|k: Seq<char>| m.contains_key(k), |k: Seq<char>| value_or_empty(m[k]))
}

/// A mapping from string to optional string, owned by one handle at a time.
///
/// The entries are kept in insertion order, each key once.
pub struct StringMap {
    data: Vec<(String, Option<String>)>,
    disable_free: bool,
}

impl View for StringMap {
    type V = Map<Seq<char>, Option<Seq<char>>>;

    closed spec fn view(&self) -> Map<Seq<char>, Option<Seq<char>>> {
        entries_map(self.data@)
    }
}

proof fn lemma_entries_map_update(s: Seq<(String, Option<String>)>, i: int, e: (String, Option<String>))
    requires
        distinct_keys(s),
        0 <= i < s.len(),
        e.0@ == s[i].0@,
    ensures
        entries_map(s.update(i, e)) == entries_map(s).insert(e.0@, opt_view(e.1)),
    decreases s.len(),
{
    let u = s.update(i, e);
    if i == s.len() - 1 {
        assert(u.drop_last() =~= s.drop_last());
        assert(entries_map(u) =~= entries_map(s).insert(e.0@, opt_view(e.1)));
    } else {
        assert(u.drop_last() =~= s.drop_last().update(i, e));
        lemma_entries_map_update(s.drop_last(), i, e);
        assert(entries_map(u) =~= entries_map(s).insert(e.0@, opt_view(e.1)));
    }
}

impl StringMap {
    /// Keys are unique.
    pub closed spec fn wf(&self) -> bool {
        distinct_keys(self.data@)
    }

    pub closed spec fn frees_disabled(&self) -> bool {
        self.disable_free
    }

    /// An empty map with room for `capacity` entries.
    pub fn new(capacity: usize) -> (r: StringMap)
        ensures
            r.wf(),
            r@ == Map::<Seq<char>, Option<Seq<char>>>::empty(),
            !r.frees_disabled(),
    {
        StringMap { data: Vec::with_capacity(capacity), disable_free: false }
    }

    /// Inserts `key`, or overwrites its value.
    pub fn insert(&mut self, key: String, value: Option<String>)
        requires
            old(self).wf(),
        ensures
            final(self).wf(),
            final(self)@ == old(self)@.insert(key@, opt_view(value)),
            final(self).frees_disabled() == old(self).frees_disabled(),
    {
        let mut i: usize = 0;
        while i < self.data.len()
            invariant
                self.wf(),
                *self == *old(self),
                i <= self.data@.len(),
                forall|j: int| 0 <= j < i ==> self.data@[j].0@ != key@,
            decreases self.data@.len() - i,
        {
            if self.data[i].0 == key {
                let ghost s = self.data@;
                let ghost e = (key, value);
                proof {
                    lemma_entries_map_update(s, i as int, e);
                }
                self.data.set(i, (key, value));
                assert(self.data@ =~= s.update(i as int, e));
                return;
            }
            i = i + 1;
        }
        let ghost s = self.data@;
        self.data.push((key, value));
        assert(self.data@.drop_last() =~= s);
    }

    /// Consumes the handle and hands its mapping over, absent values kept
    /// absent. A missing handle gives `None`.
    pub fn into_map(source: Option<StringMap>) -> (r: Option<Vec<(String, Option<String>)>>)
        requires
            source.is_some() ==> source.unwrap().wf(),
        ensures
            r.is_some() == source.is_some(),
            r.is_some() ==> {
                &&& entries_map(r.unwrap()@) == source.unwrap()@
                &&& distinct_keys(r.unwrap()@)
            },
    {
        match source {
            Some(m) => Some(m.data),
            None => None,
        }
    }

    /// Consumes the handle and hands its mapping over, each absent value
    /// replaced by the empty string. A missing handle gives `None`.
    pub fn into_hash_map(source: Option<StringMap>) -> (r: Option<Vec<(String, String)>>)
        requires
            source.is_some() ==> source.unwrap().wf(),
        ensures
            r.is_some() == source.is_some(),
            r.is_some() ==> {
                &&& pairs_map(r.unwrap()@) == with_defaults(source.unwrap()@)
                &&& distinct_keys(r.unwrap()@)
            },
    {
        match source {
            None => None,
            Some(m) => {
                let data = m.data;
                let ghost d = data@;
                let n = data.len();
                let mut rest = reversed(data);
                let mut r: Vec<(String, String)> = Vec::with_capacity(n);
                while rest.len() > 0
                    invariant
                        distinct_keys(d),
                        n == d.len(),
                        r@.len() + rest@.len() == n,
                        forall|j: int| 0 <= j < rest@.len() ==> #[trigger] rest@[j] == d[n - 1 - j],
                        forall|j: int| 0 <= j < r@.len() ==> (#[trigger] r@[j]).0@ == d[j].0@,
                        pairs_map(r@) == with_defaults(entries_map(d.take(r@.len() as int))),
                    decreases rest@.len(),
                {
                    let ghost i = r@.len() as int;
                    let (key, v) = rest.pop().unwrap();
                    let value = match v {
                        Some(v) => v,
                        None => String::new(),
                    };
                    let ghost r0 = r@;
                    r.push((key, value));
                    proof {
                        assert(r@.drop_last() =~= r0);
                        assert(d.take(i + 1).drop_last() =~= d.take(i));
                        assert(pairs_map(r@) =~= with_defaults(entries_map(d.take(i + 1))));
                    }
                }
                assert(d.take(n as int) =~= d);
                Some(r)
            }
        }
    }
}

/// The mapping left by inserting the pairs of `s` into `m`, in order: what a
/// run of adds does to a map's view.
pub open spec fn inserted_all(
    m: Map<Seq<char>, Option<Seq<char>>>,
    s: Seq<(Seq<char>, Option<Seq<char>>)>,
) -> Map<Seq<char>, Option<Seq<char>>>
    decreases s.len(),
{
    if s.len() == 0 {
        m
    } else {
        inserted_all(m, s.drop_last()).insert(s.last().0, s.last().1)
    }
}

/// `s` lists the entries of `m`, each key once.
pub open spec fn enumerates<V>(s: Seq<(Seq<char>, V)>, m: Map<Seq<char>, V>) -> bool {
    &&& forall|i: int, j: int| 0 <= i < j < s.len() ==> s[i].0 != s[j].0
    &&& forall|i: int| 0 <= i < s.len() ==> m.contains_key(#[trigger] s[i].0) && m[s[i].0] == s[i].1
    &&& forall|k: Seq<char>| #[trigger] m.contains_key(k) ==> exists|i: int| 0 <= i < s.len() && s[i].0 == k
}

proof fn lemma_inserted_all_distinct(s: Seq<(Seq<char>, Option<Seq<char>>)>)
    requires
        forall|i: int, j: int| 0 <= i < j < s.len() ==> s[i].0 != s[j].0,
    ensures
        forall|i: int|
            0 <= i < s.len() ==> inserted_all(Map::empty(), s).contains_key(#[trigger] s[i].0)
                && inserted_all(Map::empty(), s)[s[i].0] == s[i].1,
        forall|k: Seq<char>|
            #[trigger] inserted_all(Map::empty(), s).contains_key(k) ==> exists|i: int|
                0 <= i < s.len() && s[i].0 == k,
    decreases s.len(),
{
    if s.len() > 0 {
        let t = s.drop_last();
        lemma_inserted_all_distinct(t);
        assert forall|k: Seq<char>|
            #[trigger] inserted_all(Map::empty(), s).contains_key(k) implies exists|i: int|
                0 <= i < s.len() && s[i].0 == k by {
            if k != s.last().0 {
                assert(inserted_all(Map::empty(), t).contains_key(k));
                let i = choose|i: int| 0 <= i < t.len() && t[i].0 == k;
                assert(t[i] == s[i]);
            } else {
                assert(s[s.len() - 1].0 == k);
            }
        }
        assert forall|i: int| 0 <= i < s.len() implies inserted_all(Map::empty(), s).contains_key(
            #[trigger] s[i].0,
        ) && inserted_all(Map::empty(), s)[s[i].0] == s[i].1 by {
            if i < s.len() - 1 {
                assert(t[i] == s[i]);
            }
        }
    }
}

/// Filling a new map with the entries of any mapping `m`, one add each in
/// any order, and then taking it over with `StringMap::into_map` gives `m`
/// back, absent values still absent.
pub proof fn lemma_round_trip(
    m: Map<Seq<char>, Option<Seq<char>>>,
    s: Seq<(Seq<char>, Option<Seq<char>>)>,
    out: Seq<(String, Option<String>)>,
)
    requires
        enumerates(s, m),
        entries_map(out) == inserted_all(Map::empty(), s),
    ensures
        entries_map(out) == m,
        forall|k: Seq<char>| #[trigger] m.contains_key(k) && m[k].is_none() ==> entries_map(out)[k].is_none(),
{
    lemma_inserted_all_distinct(s);
    assert(inserted_all(Map::empty(), s) =~= m);
}

/// Filling a new map with the entries of any mapping `m` whose values are all
/// present, and then taking it over with `StringMap::into_hash_map`, gives
/// `m` back.
pub proof fn lemma_round_trip_present(
    m: Map<Seq<char>, Seq<char>>,
    s: Seq<(Seq<char>, Seq<char>)>,
    out: Seq<(String, String)>,
)
    requires
        enumerates(s, m),
        pairs_map(out) == with_defaults(
            inserted_all(Map::empty(), s.map_values(|e: (Seq<char>, Seq<char>)| (e.0, Some(e.1)))),
        ),
    ensures
        pairs_map(out) == m,
{
    let t = s.map_values(|e: (Seq<char>, Seq<char>)| (e.0, Some(e.1)));
    let mo = Map::new(|k: Seq<char>| m.contains_key(k), |k: Seq<char>| Some(m[k]));
    assert forall|k: Seq<char>| #[trigger] mo.contains_key(k) implies exists|i: int|
        0 <= i < t.len() && t[i].0 == k by {
        let i = choose|i: int| 0 <= i < s.len() && s[i].0 == k;
        assert(t[i].0 == k);
    }
    assert forall|i: int| 0 <= i < t.len() implies mo.contains_key(#[trigger] t[i].0) && mo[t[i].0]
        == t[i].1 by {
        assert(m.contains_key(s[i].0));
    }
    assert forall|i: int, j: int| 0 <= i < j < t.len() implies t[i].0 != t[j].0 by {
        assert(s[i].0 != s[j].0);
    }
    lemma_inserted_all_distinct(t);
    assert(inserted_all(Map::empty(), t) =~= mo);
    assert(with_defaults(mo) =~= m);
}

/// A key added without a value reads as absent after `StringMap::into_map`
/// and as the empty string after `StringMap::into_hash_map`.
pub proof fn lemma_absent_value(m: Map<Seq<char>, Option<Seq<char>>>, k: Seq<char>)
    ensures
        m.insert(k, None)[k].is_none(),
        with_defaults(m.insert(k, None))[k] == Seq::<char>::empty(),
{
}

/// Creates an empty map with room for `capacity` entries.
pub fn map_new(capacity: usize) -> (r: StringMap)
    ensures
        r.wf(),
        r@ == Map::<Seq<char>, Option<Seq<char>>>::empty(),
        !r.frees_disabled(),
{
    StringMap::new(capacity)
}

/// Inserts or overwrites the entry for `key`; a missing value is stored as
/// absent. Returns `false`, changing nothing, where there is no map.
pub fn map_add(map: &mut Option<StringMap>, key: &ByteArrayRef, value: Option<&ByteArrayRef>) -> (r: bool)
    requires
        old(map).is_some() ==> old(map).unwrap().wf(),
    ensures
        r == old(map).is_some(),
        !r ==> *final(map) == *old(map),
        r ==> {
            &&& final(map).is_some()
            &&& final(map).unwrap().wf()
            &&& final(map).unwrap().frees_disabled() == old(map).unwrap().frees_disabled()
            &&& final(map).unwrap()@ == old(map).unwrap()@.insert(
                key@,
                match value {
                    Some(v) => Some(v@),
                    None => None,
                },
            )
        },
{
    match map {
        None => false,
        Some(m) => {
            let v = match value {
                Some(v) => Some(v.to_owned_string()),
                None => None,
            };
            m.insert(key.to_owned_string(), v);
            true
        },
    }
}

} // verus!
