//! A table from texts to values that lists its entries in the order of first insertion.
use vstd::prelude::*;

use crate::text::same_text;

verus! {

/// The mapping that a list of entries stands for; a later entry counts over an earlier one.
pub open spec fn mapping<W>(listing: Seq<(Seq<char>, W)>) -> Map<Seq<char>, W>
    decreases listing.len(),
{
    if listing.len() == 0 {
        Map::empty()
    } else {
        mapping(listing.drop_last()).insert(listing.last().0, listing.last().1)
    }
}

/// No text stands in two entries.
pub open spec fn distinct_keys<W>(listing: Seq<(Seq<char>, W)>) -> bool {
    forall|i: int, j: int|
        0 <= i < j < listing.len() ==> (#[trigger] listing[i]).0 != (#[trigger] listing[j]).0
}

/// The list after `value` is put under `key`: in the place of the old entry if there is
/// one, at the end otherwise.
pub open spec fn put<W>(listing: Seq<(Seq<char>, W)>, key: Seq<char>, value: W) -> Seq<
    (Seq<char>, W),
>
    decreases listing.len(),
{
    if listing.len() == 0 {
        seq![(key, value)]
    } else if listing[0].0 == key {
        listing.update(0, (key, value))
    } else {
        seq![listing[0]] + put(listing.skip(1), key, value)
    }
}

/// The part of a mapping whose values satisfy `p`.
pub open spec fn kept<W>(m: Map<Seq<char>, W>, p: spec_fn(W) -> bool) -> Map<Seq<char>, W> {
    Map::new(|k: Seq<char>| m.contains_key(k) && p(m[k]), |k: Seq<char>| m[k])
}

/// A mapping holds what its entries say, and nothing else.
pub proof fn lemma_mapping<W>(listing: Seq<(Seq<char>, W)>)
    requires
        distinct_keys(listing),
    ensures
        forall|i: int|
            0 <= i < listing.len() ==> mapping(listing).contains_key((#[trigger] listing[i]).0)
                && mapping(listing)[listing[i].0] == listing[i].1,
        forall|k: Seq<char>| #[trigger]
            mapping(listing).contains_key(k) ==> exists|i: int|
                0 <= i < listing.len() && (#[trigger] listing[i]).0 == k,
    decreases listing.len(),
{
    if listing.len() > 0 {
        let front = listing.drop_last();
        assert forall|i: int, j: int| 0 <= i < j < front.len() implies (#[trigger] front[i]).0 != (
        #[trigger] front[j]).0 by {
            assert(front[i] == listing[i] && front[j] == listing[j]);
        }
        lemma_mapping(front);
        let n = listing.len() - 1;
        assert forall|i: int| 0 <= i < listing.len() implies mapping(listing).contains_key(
            (#[trigger] listing[i]).0,
        ) && mapping(listing)[listing[i].0] == listing[i].1 by {
            if i < n {
                assert(front[i] == listing[i]);
                assert(listing[i].0 != listing[n].0);
            }
        }
        assert forall|k: Seq<char>| #[trigger] mapping(listing).contains_key(k) implies exists|i: int|
            0 <= i < listing.len() && (#[trigger] listing[i]).0 == k by {
            if k == listing[n].0 {
            } else {
                assert(mapping(front).contains_key(k));
                let i = choose|i: int| 0 <= i < front.len() && (#[trigger] front[i]).0 == k;
                assert(listing[i] == front[i]);
            }
        }
    }
}

/// Putting a value in the place of an old one.
proof fn lemma_put_at<W>(listing: Seq<(Seq<char>, W)>, i: int, key: Seq<char>, value: W)
    requires
        distinct_keys(listing),
        0 <= i < listing.len(),
        listing[i].0 == key,
    ensures
        put(listing, key, value) == listing.update(i, (key, value)),
        distinct_keys(listing.update(i, (key, value))),
        mapping(listing.update(i, (key, value))) == mapping(listing).insert(key, value),
    decreases listing.len(),
{
    let new = listing.update(i, (key, value));
    assert forall|a: int, b: int| 0 <= a < b < new.len() implies (#[trigger] new[a]).0 != (
    #[trigger] new[b]).0 by {
        assert(listing[a].0 != listing[b].0);
    }
    if i > 0 {
        let rest = listing.skip(1);
        assert(listing[0].0 != listing[i].0);
        assert forall|a: int, b: int| 0 <= a < b < rest.len() implies (#[trigger] rest[a]).0 != (
        #[trigger] rest[b]).0 by {
            assert(listing[a + 1].0 != listing[b + 1].0);
        }
        assert(rest[i - 1] == listing[i]);
        lemma_put_at(rest, i - 1, key, value);
        assert(seq![listing[0]] + rest.update(i - 1, (key, value)) =~= new);
    }
    lemma_mapping(listing);
    lemma_mapping(new);
    assert(new[i].0 == key);
    assert forall|k: Seq<char>| mapping(new).contains_key(k) == mapping(listing).insert(
        key,
        value,
    ).contains_key(k) by {
        if mapping(new).contains_key(k) {
            let a = choose|a: int| 0 <= a < new.len() && (#[trigger] new[a]).0 == k;
            assert(listing[a].0 == k);
        }
        if mapping(listing).contains_key(k) {
            let a = choose|a: int| 0 <= a < listing.len() && (#[trigger] listing[a]).0 == k;
            assert(new[a].0 == k);
        }
    }
    assert forall|k: Seq<char>| mapping(new).contains_key(k) implies mapping(new)[k] == mapping(
        listing,
    ).insert(key, value)[k] by {
        let a = choose|a: int| 0 <= a < new.len() && (#[trigger] new[a]).0 == k;
        assert(listing[a].0 == k);
        if a != i {
            if a < i {
                assert(listing[a].0 != listing[i].0);
            } else {
                assert(listing[i].0 != listing[a].0);
            }
        }
    }
    assert(mapping(new) =~= mapping(listing).insert(key, value));
}

/// Putting a value under a new text.
proof fn lemma_put_new<W>(listing: Seq<(Seq<char>, W)>, key: Seq<char>, value: W)
    requires
        distinct_keys(listing),
        forall|i: int| 0 <= i < listing.len() ==> (#[trigger] listing[i]).0 != key,
    ensures
        put(listing, key, value) == listing.push((key, value)),
        distinct_keys(listing.push((key, value))),
        mapping(listing.push((key, value))) == mapping(listing).insert(key, value),
    decreases listing.len(),
{
    let new = listing.push((key, value));
    assert(new.drop_last() =~= listing);
    if listing.len() > 0 {
        let rest = listing.skip(1);
        assert forall|a: int, b: int| 0 <= a < b < rest.len() implies (#[trigger] rest[a]).0 != (
        #[trigger] rest[b]).0 by {
            assert(listing[a + 1].0 != listing[b + 1].0);
        }
        assert forall|i: int| 0 <= i < rest.len() implies (#[trigger] rest[i]).0 != key by {
            assert(listing[i + 1].0 != key);
        }
        assert(listing[0].0 != key);
        lemma_put_new(rest, key, value);
        assert(seq![listing[0]] + rest.push((key, value)) =~= new);
    } else {
        assert(new =~= seq![(key, value)]);
    }
}

/// Putting a value under a key is what it is in the mapping, and keeps the keys distinct.
pub proof fn lemma_put<W>(listing: Seq<(Seq<char>, W)>, key: Seq<char>, value: W)
    requires
        distinct_keys(listing),
    ensures
        distinct_keys(put(listing, key, value)),
        mapping(put(listing, key, value)) == mapping(listing).insert(key, value),
{
    if exists|i: int| 0 <= i < listing.len() && (#[trigger] listing[i]).0 == key {
        let i = choose|i: int| 0 <= i < listing.len() && (#[trigger] listing[i]).0 == key;
        lemma_put_at(listing, i, key, value);
    } else {
        lemma_put_new(listing, key, value);
    }
}

/// Taking out one entry.
proof fn lemma_remove_at<W>(listing: Seq<(Seq<char>, W)>, i: int)
    requires
        distinct_keys(listing),
        0 <= i < listing.len(),
    ensures
        distinct_keys(listing.remove(i)),
        mapping(listing.remove(i)) == mapping(listing).remove(listing[i].0),
{
    let new = listing.remove(i);
    let key = listing[i].0;
    assert forall|a: int, b: int| 0 <= a < b < new.len() implies (#[trigger] new[a]).0 != (
    #[trigger] new[b]).0 by {
        let a2 = if a < i {
            a
        } else {
            a + 1
        };
        let b2 = if b < i {
            b
        } else {
            b + 1
        };
        assert(listing[a2].0 != listing[b2].0);
    }
    lemma_mapping(listing);
    lemma_mapping(new);
    assert forall|k: Seq<char>| mapping(new).contains_key(k) == mapping(listing).remove(
        key,
    ).contains_key(k) by {
        if mapping(new).contains_key(k) {
            let a = choose|a: int| 0 <= a < new.len() && (#[trigger] new[a]).0 == k;
            let a2 = if a < i {
                a
            } else {
                a + 1
            };
            assert(listing[a2].0 == k);
            if a2 < i {
                assert(listing[a2].0 != listing[i].0);
            } else {
                assert(listing[i].0 != listing[a2].0);
            }
        }
        if mapping(listing).contains_key(k) && k != key {
            let a = choose|a: int| 0 <= a < listing.len() && (#[trigger] listing[a]).0 == k;
            let a2 = if a < i {
                a
            } else {
                a - 1
            };
            assert(new[a2].0 == k);
        }
    }
    assert forall|k: Seq<char>| mapping(new).contains_key(k) implies mapping(new)[k] == mapping(
        listing,
    )[k] by {
        let a = choose|a: int| 0 <= a < new.len() && (#[trigger] new[a]).0 == k;
        let a2 = if a < i {
            a
        } else {
            a + 1
        };
        assert(listing[a2] == new[a]);
    }
    assert(mapping(new) =~= mapping(listing).remove(key));
}

/// A table from texts to values. No text occurs twice in it.
pub struct TextMap<V: View> {
    keys: Vec<String>,
    values: Vec<V>,
}

/// The entries made of texts and values at like positions, each by its view.
spec fn entry_views<V: View>(keys: Seq<String>, values: Seq<V>) -> Seq<(Seq<char>, V::V)> {
    Seq::new(keys.len(), |i: int| (keys[i]@, values[i]@))
}

impl<V: View> View for TextMap<V> {
    type V = Map<Seq<char>, V::V>;

    open spec fn view(&self) -> Map<Seq<char>, V::V> {
        mapping(self.listing())
    }
}

impl<V: View> TextMap<V> {
    /// The entries in their order.
    pub closed spec fn listing(&self) -> Seq<(Seq<char>, V::V)> {
        entry_views(self.keys@, self.values@)
    }

    #[verifier::type_invariant]
    spec fn well_formed(self) -> bool {
        &&& self.keys@.len() == self.values@.len()
        &&& forall|i: int, j: int|
            0 <= i < j < self.keys@.len() ==> (#[trigger] self.keys@[i])@ != (
            #[trigger] self.keys@[j])@
    }

    /// An empty table.
    pub fn new() -> (r: Self)
        ensures
            r@ == Map::<Seq<char>, V::V>::empty(),
            r.listing() == Seq::<(Seq<char>, V::V)>::empty(),
    {
        let r = TextMap { keys: Vec::new(), values: Vec::new() };
        assert(r.listing() =~= Seq::<(Seq<char>, V::V)>::empty());
        r
    }

    /// The number of entries.
    pub fn len(&self) -> (n: usize)
        ensures
            n == self.listing().len(),
    {
        self.keys.len()
    }

    /// The text of the entry at position `i`.
    pub fn key_at(&self, i: usize) -> (k: &str)
        requires
            i < self.listing().len(),
        ensures
            k@ == self.listing()[i as int].0,
    {
        self.keys[i].as_str()
    }

    /// The value of the entry at position `i`.
    pub fn value_at(&self, i: usize) -> (v: &V)
        requires
            i < self.listing().len(),
        ensures
            v@ == self.listing()[i as int].1,
    {
        proof {
            use_type_invariant(self);
        }
        &self.values[i]
    }

    /// The position of the entry for `key`.
    fn position(&self, key: &str) -> (r: Option<usize>)
        ensures
            match r {
                Some(i) => i < self.keys@.len() && self.keys@[i as int]@ == key@,
                None => forall|j: int|
                    0 <= j < self.keys@.len() ==> (#[trigger] self.keys@[j])@ != key@,
            },
    {
        let mut i: usize = 0;
        while i < self.keys.len()
            invariant
                i <= self.keys@.len(),
                forall|j: int| 0 <= j < i ==> (#[trigger] self.keys@[j])@ != key@,
            decreases self.keys@.len() - i,
        {
            if same_text(self.keys[i].as_str(), key) {
                return Some(i);
            }
            i += 1;
        }
        None
    }

    /// The value under `key`.
    pub fn get(&self, key: &str) -> (r: Option<&V>)
        ensures
            match r {
                Some(v) => self@.contains_key(key@) && self@[key@] == v@,
                None => !self@.contains_key(key@),
            },
    {
        proof {
            use_type_invariant(self);
            lemma_mapping(self.listing());
        }
        match self.position(key) {
            Some(i) => {
                assert(self.listing()[i as int].0 == key@);
                Some(&self.values[i])
            },
            None => {
                assert forall|j: int| 0 <= j < self.listing().len() implies (
                #[trigger] self.listing()[j]).0 != key@ by {
                    assert(self.keys@[j]@ != key@);
                }
                None
            },
        }
    }

    /// The value under `key`, for changing it.
    pub fn get_mut(&mut self, key: &str) -> (r: Option<&mut V>)
        ensures
            match r {
                Some(v) => old(self)@.contains_key(key@) && old(self)@[key@] == v@ && final(self)@
                    == old(self)@.insert(key@, final(v)@),
                None => !old(self)@.contains_key(key@) && *final(self) == *old(self),
            },
    {
        proof {
            use_type_invariant(&*self);
            lemma_mapping(self.listing());
        }
        match self.position(key) {
            Some(i) => {
                let ghost before = self.listing();
                assert(before[i as int].0 == key@);
                assert forall|v: V|
                    mapping(
                        #[trigger] entry_views(self.keys@, self.values@.update(i as int, v)),
                    ) == mapping(before).insert(key@, v@) by {
                    lemma_put_at(before, i as int, key@, v@);
                    assert(entry_views(self.keys@, self.values@.update(i as int, v))
                        =~= before.update(i as int, (key@, v@)));
                }
                Some(&mut self.values[i])
            },
            None => {
                assert forall|j: int| 0 <= j < self.listing().len() implies (
                #[trigger] self.listing()[j]).0 != key@ by {
                    assert(self.keys@[j]@ != key@);
                }
                None
            },
        }
    }

    /// Puts `value` under `key`.
    pub fn insert(&mut self, key: String, value: V)
        ensures
            final(self)@ == old(self)@.insert(key@, value@),
            final(self).listing() == put(old(self).listing(), key@, value@),
    {
        proof {
            use_type_invariant(&*self);
        }
        let ghost before = self.listing();
        let ghost k = key@;
        let ghost v = value@;
        let found = self.position(key.as_str());
        let mut table = TextMap { keys: Vec::new(), values: Vec::new() };
        std::mem::swap(&mut table, self);
        let TextMap { mut keys, mut values } = table;
        match found {
            Some(i) => {
                proof {
                    assert(before[i as int].0 == k);
                    lemma_put_at(before, i as int, k, v);
                }
                values.set(i, value);
                assert(entry_views(keys@, values@) =~= before.update(i as int, (k, v)));
            },
            None => {
                proof {
                    assert forall|j: int| 0 <= j < before.len() implies (#[trigger] before[j]).0
                        != k by {
                        assert(keys@[j]@ != k);
                    }
                    lemma_put_new(before, k, v);
                }
                keys.push(key);
                values.push(value);
                assert(entry_views(keys@, values@) =~= before.push((k, v)));
            },
        }
        *self = TextMap { keys, values };
    }

    /// Keeps the entries whose values satisfy `keep`, in their order.
    pub(crate) fn retain<F: Fn(&V) -> bool>(
        &mut self,
        keep: F,
        Ghost(p): Ghost<spec_fn(V::V) -> bool>,
    )
        requires
            forall|v: &V| call_requires(keep, (v,)),
            forall|v: &V, b: bool| call_ensures(keep, (v,), b) ==> b == p(v@),
        ensures
            final(self)@ == kept(old(self)@, p),
    {
        proof {
            use_type_invariant(&*self);
        }
        let ghost whole = self@;
        let mut table = TextMap { keys: Vec::new(), values: Vec::new() };
        std::mem::swap(&mut table, self);
        let TextMap { mut keys, mut values } = table;
        let mut i: usize = 0;
        while i < keys.len()
            invariant
                i <= keys@.len(),
                keys@.len() == values@.len(),
                distinct_keys(entry_views(keys@, values@)),
                forall|v: &V| call_requires(keep, (v,)),
                forall|v: &V, b: bool| call_ensures(keep, (v,), b) ==> b == p(v@),
                kept(whole, p) == kept(mapping(entry_views(keys@, values@)), p),
                forall|j: int| 0 <= j < i ==> p((#[trigger] values@[j])@),
            decreases keys@.len() - i,
        {
            let ghost before = entry_views(keys@, values@);
            if keep(&values[i]) {
                i += 1;
            } else {
                proof {
                    lemma_mapping(before);
                    lemma_remove_at(before, i as int);
                    assert(before[i as int].1 == values@[i as int]@);
                }
                let _ = keys.remove(i);
                let _ = values.remove(i);
                assert(entry_views(keys@, values@) =~= before.remove(i as int));
                assert(kept(mapping(entry_views(keys@, values@)), p) =~= kept(mapping(before), p));
            }
        }
        proof {
            let all = entry_views(keys@, values@);
            lemma_mapping(all);
            assert forall|k: Seq<char>| mapping(all).contains_key(k) implies p(mapping(all)[k]) by {
                let j = choose|j: int| 0 <= j < all.len() && (#[trigger] all[j]).0 == k;
                assert(p(values@[j]@));
            }
            assert(kept(mapping(all), p) =~= mapping(all));
            assert forall|a: int, b: int| 0 <= a < b < keys@.len() implies (#[trigger] keys@[a])@
                != (#[trigger] keys@[b])@ by {
                assert(all[a].0 != all[b].0);
            }
        }
        *self = TextMap { keys, values };
    }
}

} // verus!
