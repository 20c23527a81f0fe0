//! Borrowed and owned byte buffers that cross the host boundary.
use vstd::prelude::*;
use vstd::slice::slice_to_vec;
use crate::kv::reversed;
use vstd::string::StringSliceAdditionalSpecFns;
use vstd::utf8::{
    encode_utf8, encode_utf8_valid_utf8, is_char_boundary,
    is_char_boundary_iff_not_is_continuation_byte, is_continuation_byte, length_of_first_scalar,
    pop_first_scalar,
};

verus! {

/// Relies on `String::into_bytes`: the string's own allocation, handed over
/// as its UTF-8 bytes without a copy.
pub assume_specification[ std::string::String::into_bytes ](s: std::string::String) -> (r: Vec<u8>)
    ensures
        r@ == encode_utf8(s@),
;

/// The pieces of `b` between newline bytes, as `str::split('\n')` gives them:
/// one more piece than there are newlines.
pub open spec fn split_newlines(b: Seq<u8>) -> Seq<Seq<u8>>
    decreases b.len(),
{
    if b.len() == 0 {
        seq![Seq::empty()]
    } else if b[0] == 10 {
        seq![Seq::<u8>::empty()] + split_newlines(b.drop_first())
    } else {
        let r = split_newlines(b.drop_first());
        r.update(0, seq![b[0]] + r[0])
    }
}

/// Consecutive pieces taken two at a time as key and value; an odd last
/// piece is dropped.
pub open spec fn newline_pairs(b: Seq<u8>) -> Seq<(Seq<u8>, Seq<u8>)> {
    let p = split_newlines(b);
    Seq::new(p.len() / 2, |i: int| (p[2 * i], p[2 * i + 1]))
}

proof fn lemma_split_newlines_len(b: Seq<u8>)
    ensures
        split_newlines(b).len() >= 1,
    decreases b.len(),
{
    if b.len() > 0 {
        lemma_split_newlines_len(b.drop_first());
    }
}

/// Splitting at the first newline, at `j`, or where there is none.
proof fn lemma_split_newlines_first(b: Seq<u8>, j: int)
    requires
        0 <= j <= b.len(),
        forall|m: int| 0 <= m < j ==> b[m] != 10,
        j < b.len() ==> b[j] == 10,
    ensures
        j == b.len() ==> split_newlines(b) == seq![b],
        j < b.len() ==> split_newlines(b) == seq![b.take(j)] + split_newlines(b.skip(j + 1)),
    decreases j,
{
    if j == 0 {
        if b.len() == 0 {
            assert(b =~= Seq::<u8>::empty());
        } else {
            assert(b.take(0) =~= Seq::<u8>::empty());
            assert(b.skip(1) =~= b.drop_first());
        }
    } else {
        let c = b.drop_first();
        lemma_split_newlines_first(c, j - 1);
        lemma_split_newlines_len(c);
        if j == b.len() {
            assert(seq![b[0]] + c =~= b);
            assert(split_newlines(b) =~= seq![b]);
        } else {
            assert(seq![b[0]] + c.take(j - 1) =~= b.take(j));
            assert(c.skip(j) =~= b.skip(j + 1));
            assert(split_newlines(b) =~= seq![b.take(j)] + split_newlines(b.skip(j + 1)));
        }
    }
}

/// A borrowed, non-owning view of text handed over by the host.
///
/// The view is valid only for the call that received it. Its bytes are the
/// UTF-8 encoding of the text it views: the host is trusted to pass UTF-8, and
/// the trust is taken once, where the view is made, not on every read.
pub struct ByteArrayRef<'a> {
    data: &'a str,
}

impl<'a> View for ByteArrayRef<'a> {
    type V = Seq<char>;

    open spec fn view(&self) -> Seq<char> {
        self.text()@
    }
}

impl<'a> ByteArrayRef<'a> {
    /// The viewed text.
    pub closed spec fn text(&self) -> &'a str {
        self.data
    }

    /// The viewed bytes: the UTF-8 encoding of the text.
    pub open spec fn bytes(&self) -> Seq<u8> {
        encode_utf8(self@)
    }

    pub fn from_str(s: &'a str) -> (r: ByteArrayRef<'a>)
        ensures
            r@ == s@,
    {
        ByteArrayRef { data: s }
    }

    pub fn from_string(s: &'a String) -> (r: ByteArrayRef<'a>)
        ensures
            r@ == s@,
    {
        ByteArrayRef { data: s.as_str() }
    }

    /// Number of bytes in the view.
    pub fn size(&self) -> (r: usize)
        ensures
            r == self.bytes().len(),
    {
        self.data.as_bytes().len()
    }

    pub fn to_slice(&self) -> (r: &'a [u8])
        ensures
            r@ == self.bytes(),
    {
        self.data.as_bytes()
    }

    pub fn to_vec(&self) -> (r: Vec<u8>)
        ensures
            r@ == self.bytes(),
    {
        slice_to_vec(self.data.as_bytes())
    }

    pub fn to_str(&self) -> (r: &'a str)
        ensures
            r@ == self@,
    {
        self.data
    }

    pub fn to_owned_string(&self) -> (r: String)
        ensures
            r@ == self@,
    {
        self.data.to_owned()
    }

    /// The pieces of the text between newlines, paired up in order: the
    /// first piece is a key, the second its value, and so on. Every pair is
    /// returned, in order, a repeated key included.
    pub fn to_str_map_on_newlines(&self) -> (r: Vec<(&'a str, &'a str)>)
        ensures
            r@.len() == newline_pairs(self.bytes()).len(),
            forall|i: int|
                0 <= i < r@.len() ==> {
                    &&& encode_utf8((#[trigger] r@[i]).0@) == newline_pairs(self.bytes())[i].0
                    &&& encode_utf8(r@[i].1@) == newline_pairs(self.bytes())[i].1
                },
    {
        let mut pieces: Vec<&'a str> = Vec::new();
        let mut rest: &'a str = self.data;
        let ghost whole = self.bytes();
        loop
            invariant_except_break
                Seq::new(pieces@.len(), |i: int| encode_utf8(pieces@[i]@)) + split_newlines(
                    encode_utf8(rest@),
                ) == split_newlines(whole),
            ensures
                Seq::new(pieces@.len(), |i: int| encode_utf8(pieces@[i]@)) == split_newlines(whole),
            decreases encode_utf8(rest@).len(),
        {
            let bytes = rest.as_bytes();
            let n = bytes.len();
            let mut j: usize = 0;
            while j < n && bytes[j] != 10
                invariant
                    bytes@ == encode_utf8(rest@),
                    n == bytes@.len(),
                    j <= n,
                    forall|m: int| 0 <= m < j ==> bytes@[m] != 10,
                decreases n - j,
            {
                j = j + 1;
            }
            let ghost b = bytes@;
            let ghost done = Seq::new(pieces@.len(), |i: int| encode_utf8(pieces@[i]@));
            proof {
                lemma_split_newlines_first(b, j as int);
            }
            if j == n {
                pieces.push(rest);
                assert(Seq::new(pieces@.len(), |i: int| encode_utf8(pieces@[i]@)) =~= done + seq![b]);
                break;
            }
            proof {
                encode_utf8_valid_utf8(rest@);
                assert(!is_continuation_byte(b[j as int]));
                is_char_boundary_iff_not_is_continuation_byte(b, j as int);
            }
            let (piece, tail) = rest.split_at(j);
            let ghost tb = tail.spec_bytes();
            assert(tb[0] == 10);
            assert(is_char_boundary(tb, 1)) by {
                encode_utf8_valid_utf8(tail@);
                reveal_with_fuel(is_char_boundary, 2);
                assert(length_of_first_scalar(tb) == 1);
                assert(pop_first_scalar(tb) =~= tb.skip(1));
            }
            let (_, after) = tail.split_at(1);
            assert(after.spec_bytes() =~= b.skip(j + 1));
            pieces.push(piece);
            rest = after;
            assert(Seq::new(pieces@.len(), |i: int| encode_utf8(pieces@[i]@)) =~= done + seq![b.take(j as int)]);
        }
        let ghost p = split_newlines(whole);
        proof {
            assert(Seq::new(pieces@.len(), |i: int| encode_utf8(pieces@[i]@)) =~= p);
        }
        let mut r: Vec<(&'a str, &'a str)> = Vec::new();
        let mut i: usize = 0;
        while i + 1 < pieces.len()
            invariant
                i % 2 == 0,
                i <= pieces@.len(),
                r@.len() == i / 2,
                pieces@.len() == p.len(),
                forall|m: int| 0 <= m < pieces@.len() ==> encode_utf8(#[trigger] pieces@[m]@) == p[m],
                forall|m: int|
                    0 <= m < r@.len() ==> {
                        &&& encode_utf8((#[trigger] r@[m]).0@) == p[2 * m]
                        &&& encode_utf8(r@[m].1@) == p[2 * m + 1]
                    },
            decreases pieces@.len() - i,
        {
            r.push((pieces[i], pieces[i + 1]));
            i = i + 2;
        }
        r
    }

    /// As `to_str_map_on_newlines`, with owned strings.
    pub fn to_string_map_on_newlines(&self) -> (r: Vec<(String, String)>)
        ensures
            r@.len() == newline_pairs(self.bytes()).len(),
            forall|i: int|
                0 <= i < r@.len() ==> {
                    &&& encode_utf8((#[trigger] r@[i]).0@) == newline_pairs(self.bytes())[i].0
                    &&& encode_utf8(r@[i].1@) == newline_pairs(self.bytes())[i].1
                },
    {
        let pairs = self.to_str_map_on_newlines();
        let mut r: Vec<(String, String)> = Vec::with_capacity(pairs.len());
        let mut i: usize = 0;
        while i < pairs.len()
            invariant
                i <= pairs@.len(),
                r@.len() == i,
                forall|m: int| 0 <= m < i ==> (#[trigger] r@[m]).0@ == pairs@[m].0@ && r@[m].1@ == pairs@[m].1@,
            decreases pairs@.len() - i,
        {
            r.push((pairs[i].0.to_owned(), pairs[i].1.to_owned()));
            i = i + 1;
        }
        r
    }

    /// An empty view reads as absent; an explicitly empty value cannot be
    /// told apart from a missing one here.
    pub fn to_option_slice(&self) -> (r: Option<&'a [u8]>)
        ensures
            self@.len() == 0 ==> r.is_none(),
            self@.len() > 0 ==> r.is_some() && r.unwrap()@ == self.bytes(),
    {
        if self.data.is_empty() {
            None
        } else {
            Some(self.to_slice())
        }
    }

    pub fn to_option_vec(&self) -> (r: Option<Vec<u8>>)
        ensures
            self@.len() == 0 ==> r.is_none(),
            self@.len() > 0 ==> r.is_some() && r.unwrap()@ == self.bytes(),
    {
        if self.data.is_empty() {
            None
        } else {
            Some(self.to_vec())
        }
    }

    pub fn to_option_str(&self) -> (r: Option<&'a str>)
        ensures
            self@.len() == 0 ==> r.is_none(),
            self@.len() > 0 ==> r.is_some() && r.unwrap()@ == self@,
    {
        if self.data.is_empty() {
            None
        } else {
            Some(self.to_str())
        }
    }

    pub fn to_option_string(&self) -> (r: Option<String>)
        ensures
            self@.len() == 0 ==> r.is_none(),
            self@.len() > 0 ==> r.is_some() && r.unwrap()@ == self@,
    {
        match self.to_option_str() {
            Some(s) => Some(s.to_owned()),
            None => None,
        }
    }
}

/// An owned byte buffer.
///
/// `None` in place of the bytes marks a buffer already released. A buffer made
/// with frees disabled stands for storage that lives for the whole process:
/// freeing it leaves it as it is.
pub struct ByteArray {
    data: Option<Vec<u8>>,
    disable_free: bool,
}

impl ByteArray {
    pub closed spec fn is_live(&self) -> bool {
        self.data.is_some()
    }

    pub closed spec fn bytes(&self) -> Seq<u8> {
        match self.data {
            Some(v) => v@,
            None => Seq::empty(),
        }
    }

    pub closed spec fn frees_disabled(&self) -> bool {
        self.disable_free
    }

    /// Whether a free call on this buffer gives its storage back.
    pub open spec fn reclaimable(&self) -> bool {
        self.is_live() && !self.frees_disabled()
    }

    /// Takes the bytes of a string.
    pub fn from_utf8(s: String) -> (r: ByteArray)
        ensures
            r.is_live(),
            !r.frees_disabled(),
            r.bytes() == encode_utf8(s@),
    {
        ByteArray::from_vec(s.into_bytes())
    }

    pub fn from_vec(vec: Vec<u8>) -> (r: ByteArray)
        ensures
            r.is_live(),
            !r.frees_disabled(),
            r.bytes() == vec@,
    {
        ByteArray { data: Some(vec), disable_free: false }
    }

    /// A buffer that no free call ever gives back.
    pub fn from_vec_disable_free(vec: Vec<u8>) -> (r: ByteArray)
        ensures
            r.is_live(),
            r.frees_disabled(),
            r.bytes() == vec@,
    {
        let mut b = ByteArray::from_vec(vec);
        b.disable_free = true;
        b
    }

    pub fn size(&self) -> (r: usize)
        ensures
            r == self.bytes().len(),
    {
        match &self.data {
            Some(v) => v.len(),
            None => 0,
        }
    }

    pub fn is_free_disabled(&self) -> (r: bool)
        ensures
            r == self.frees_disabled(),
    {
        self.disable_free
    }

    pub fn is_released(&self) -> (r: bool)
        ensures
            r == !self.is_live(),
    {
        self.data.is_none()
    }

    /// Releases the storage, unless frees are disabled or it was released
    /// before; then the buffer is left unchanged. Returns whether storage
    /// was given back.
    pub fn free(&mut self) -> (reclaimed: bool)
        ensures
            frees_to(*old(self), *final(self), reclaimed),
    {
        if self.disable_free {
            false
        } else {
            match self.data.take() {
                Some(_) => true,
                None => false,
            }
        }
    }

    /// Hands the bytes over to the caller, leaving nothing to free.
    pub fn into_vec(self) -> (r: Option<Vec<u8>>)
        ensures
            r.is_some() == self.is_live(),
            r.is_some() ==> r.unwrap()@ == self.bytes(),
    {
        self.data
    }
}

/// One free call takes `pre` to `post`, and `reclaimed` tells whether
/// storage was given back: only a live buffer whose frees are not disabled
/// gives it back, and is released by it; any other is left unchanged.
pub open spec fn frees_to(pre: ByteArray, post: ByteArray, reclaimed: bool) -> bool {
    &&& reclaimed == pre.reclaimable()
    &&& reclaimed ==> !post.is_live() && post.frees_disabled() == pre.frees_disabled()
    &&& !reclaimed ==> post == pre
}

/// `states` is a buffer followed by what each of a run of free calls left,
/// `reclaimed[i]` being what the call from `states[i]` returned.
pub open spec fn free_run(states: Seq<ByteArray>, reclaimed: Seq<bool>) -> bool {
    &&& states.len() == reclaimed.len() + 1
    &&& forall|i: int| 0 <= i < reclaimed.len() ==> frees_to(states[i], states[i + 1], #[trigger] reclaimed[i])
}

/// Over any run of free calls on a newly made freeable buffer, the first
/// call gives the storage back and no later one does: each buffer is freed
/// exactly once.
pub proof fn lemma_freed_exactly_once(states: Seq<ByteArray>, reclaimed: Seq<bool>)
    requires
        free_run(states, reclaimed),
        states[0].is_live(),
        !states[0].frees_disabled(),
    ensures
        reclaimed.len() > 0 ==> reclaimed[0],
        forall|i: int| 0 < i < reclaimed.len() ==> !#[trigger] reclaimed[i],
        forall|i: int| 0 < i < states.len() ==> !(#[trigger] states[i]).is_live(),
{
    assert forall|i: int| 0 < i < states.len() implies !(#[trigger] states[i]).is_live() by {
        lemma_released_stays(states, reclaimed, i);
    }
    assert forall|i: int| 0 < i < reclaimed.len() implies !#[trigger] reclaimed[i] by {
        lemma_released_stays(states, reclaimed, i);
        assert(frees_to(states[i], states[i + 1], reclaimed[i]));
    }
}

proof fn lemma_released_stays(states: Seq<ByteArray>, reclaimed: Seq<bool>, i: int)
    requires
        free_run(states, reclaimed),
        states[0].is_live(),
        !states[0].frees_disabled(),
        0 < i < states.len(),
    ensures
        !states[i].is_live(),
    decreases i,
{
    assert(frees_to(states[i - 1], states[i], reclaimed[i - 1]));
    if i > 1 {
        lemma_released_stays(states, reclaimed, i - 1);
    }
}

/// A buffer whose frees are disabled comes through any run of free calls
/// unchanged, and no call gives its storage back.
pub proof fn lemma_never_reclaimed(states: Seq<ByteArray>, reclaimed: Seq<bool>)
    requires
        free_run(states, reclaimed),
        states[0].frees_disabled(),
    ensures
        forall|i: int| 0 <= i < reclaimed.len() ==> !#[trigger] reclaimed[i],
        forall|i: int| 0 <= i < states.len() ==> #[trigger] states[i] == states[0],
{
    assert forall|i: int| 0 <= i < states.len() implies #[trigger] states[i] == states[0] by {
        lemma_disabled_stays(states, reclaimed, i);
    }
    assert forall|i: int| 0 <= i < reclaimed.len() implies !#[trigger] reclaimed[i] by {
        lemma_disabled_stays(states, reclaimed, i);
        assert(frees_to(states[i], states[i + 1], reclaimed[i]));
    }
}

proof fn lemma_disabled_stays(states: Seq<ByteArray>, reclaimed: Seq<bool>, i: int)
    requires
        free_run(states, reclaimed),
        states[0].frees_disabled(),
        0 <= i < states.len(),
    ensures
        states[i] == states[0],
    decreases i,
{
    if i > 0 {
        lemma_disabled_stays(states, reclaimed, i - 1);
        assert(frees_to(states[i - 1], states[i], reclaimed[i - 1]));
    }
}

/// Counts the buffers of `s` that a free call gives back.
pub open spec fn reclaimable_count(s: Seq<ByteArray>) -> nat
    decreases s.len(),
{
    if s.len() == 0 {
        0
    } else {
        reclaimable_count(s.drop_last()) + if s.last().reclaimable() {
            1nat
        } else {
            0nat
        }
    }
}

/// An owned sequence of owned buffers, freed as one unit.
pub struct DynamicArray {
    data: Vec<ByteArray>,
    disable_free: bool,
}

impl View for DynamicArray {
    type V = Seq<ByteArray>;

    closed spec fn view(&self) -> Seq<ByteArray> {
        self.data@
    }
}

impl DynamicArray {
    pub closed spec fn frees_disabled(&self) -> bool {
        self.disable_free
    }

    /// One freeable buffer for each string, in order.
    pub fn from_vec_string(input: Vec<String>) -> (r: DynamicArray)
        ensures
            r@.len() == input@.len(),
            !r.frees_disabled(),
            forall|i: int|
                0 <= i < input@.len() ==> {
                    &&& (#[trigger] r@[i]).is_live()
                    &&& !r@[i].frees_disabled()
                    &&& r@[i].bytes() == encode_utf8(input@[i]@)
                },
    {
        let n = input.len();
        let mut rest = reversed(input);
        let mut data: Vec<ByteArray> = Vec::with_capacity(n);
        while rest.len() > 0
            invariant
                data@.len() + rest@.len() == n == input@.len(),
                forall|j: int| 0 <= j < rest@.len() ==> #[trigger] rest@[j] == input@[n - 1 - j],
                forall|j: int|
                    0 <= j < data@.len() ==> {
                        &&& (#[trigger] data@[j]).is_live()
                        &&& !data@[j].frees_disabled()
                        &&& data@[j].bytes() == encode_utf8(input@[j]@)
                    },
            decreases rest@.len(),
        {
            let s = rest.pop().unwrap();
            data.push(ByteArray::from_utf8(s));
        }
        DynamicArray { data, disable_free: false }
    }

    /// A sequence made of buffers that already exist.
    pub fn from_parts(items: Vec<ByteArray>, disable_free: bool) -> (r: DynamicArray)
        ensures
            r@ == items@,
            r.frees_disabled() == disable_free,
    {
        DynamicArray { data: items, disable_free }
    }

    pub fn len(&self) -> (r: usize)
        ensures
            r == self@.len(),
    {
        self.data.len()
    }

    /// Frees every contained buffer, unless frees of the sequence are
    /// disabled; then nothing changes. Returns how many buffers gave their
    /// storage back. The others (released before, or with frees disabled)
    /// stay in the sequence, unchanged, for the caller to hand back.
    pub fn free(&mut self) -> (n: usize)
        ensures
            old(self).frees_disabled() ==> n == 0 && *final(self) == *old(self),
            !old(self).frees_disabled() ==> {
                &&& n == reclaimable_count(old(self)@)
                &&& final(self)@.len() + n == old(self)@.len()
                &&& !final(self).frees_disabled()
                &&& forall|i: int|
                    0 <= i < final(self)@.len() ==> !(#[trigger] final(self)@[i]).reclaimable()
                        && exists|j: int| 0 <= j < old(self)@.len() && old(self)@[j] == final(self)@[i]
            },
    {
        if self.disable_free {
            return 0;
        }
        let mut n: usize = 0;
        let total: usize = self.data.len();
        let mut kept: Vec<ByteArray> = Vec::new();
        proof {
            lemma_reclaimable_count_bound(self.data@);
        }
        while self.data.len() > 0
            invariant
                !self.disable_free,
                n + reclaimable_count(self.data@) == reclaimable_count(old(self)@),
                reclaimable_count(old(self)@) <= total,
                total == old(self)@.len(),
                n + kept@.len() + self.data@.len() == total,
                forall|j: int| 0 <= j < self.data@.len() ==> #[trigger] self.data@[j] == old(self)@[j],
                forall|i: int|
                    0 <= i < kept@.len() ==> !(#[trigger] kept@[i]).reclaimable()
                        && exists|j: int| 0 <= j < old(self)@.len() && old(self)@[j] == kept@[i],
            decreases self.data@.len(),
        {
            let ghost k = self.data@.len() - 1;
            let mut b = self.data.pop().unwrap();
            assert(b == old(self)@[k]);
            if b.free() {
                n = n + 1;
            } else {
                kept.push(b);
                assert(kept@[kept@.len() - 1] == old(self)@[k]);
            }
        }
        self.data = kept;
        n
    }

    /// Hands the buffers over to the caller.
    pub fn into_vec(self) -> (r: Vec<ByteArray>)
        ensures
            r@ == self@,
    {
        self.data
    }
}

proof fn lemma_reclaimable_count_bound(s: Seq<ByteArray>)
    ensures
        reclaimable_count(s) <= s.len(),
    decreases s.len(),
{
    if s.len() > 0 {
        lemma_reclaimable_count_bound(s.drop_last());
    }
}

} // verus!
