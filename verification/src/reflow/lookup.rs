//! Small ordered maps and sets of names.

use vstd::prelude::*;

use crate::text::{contains_text, push_unique, same_text};

verus! {

/// A set of type names, in the order in which they came.
#[derive(Debug)]
pub struct TypeSet {
    items: Vec<String>,
}

impl TypeSet {
    /// The names, in order.
    pub closed spec fn view(self) -> Seq<Seq<char>> {
        crate::text::texts(self.items@)
    }

    /// The empty set.
    pub fn new() -> (r: TypeSet)
        ensures
            r@ == Seq::<Seq<char>>::empty(),
    {
        let r = TypeSet { items: Vec::new() };
        assert(r@ =~= Seq::<Seq<char>>::empty());
        r
    }

    /// The number of names.
    pub fn len(&self) -> (r: usize)
        ensures
            r == self@.len(),
    {
        self.items.len()
    }

    /// Whether the set is empty.
    pub fn is_empty(&self) -> (r: bool)
        ensures
            r == (self@.len() == 0),
    {
        self.items.len() == 0
    }

    /// Whether the set holds the name.
    pub fn contains(&self, t: &str) -> (r: bool)
        ensures
            r == self@.contains(t@),
    {
        contains_text(&self.items, t)
    }

    /// Adds a name; nothing occurs twice.
    pub fn insert(&mut self, t: String)
        ensures
            final(self)@ == crate::text::with_unique(old(self)@, t@),
            old(self)@.no_duplicates() ==> final(self)@.no_duplicates(),
    {
        push_unique(&mut self.items, t);
        assert(old(self)@.no_duplicates() && !old(self)@.contains(t@) ==> old(self)@.push(
            t@,
        ).no_duplicates()) by {
            if old(self)@.no_duplicates() && !old(self)@.contains(t@) {
                let more = old(self)@.push(t@);
                assert forall|i: int, j: int|
                    0 <= i < more.len() && 0 <= j < more.len() && i != j implies more[i]
                    != more[j] by {
                    if i == more.len() - 1 {
                        assert(old(self)@.contains(old(self)@[j]));
                    }
                    if j == more.len() - 1 {
                        assert(old(self)@.contains(old(self)@[i]));
                    }
                }
            }
        }
    }

    /// The name at a place.
    pub fn at(&self, i: usize) -> (r: &str)
        requires
            i < self@.len(),
        ensures
            r@ == self@[i as int],
    {
        self.items[i].as_str()
    }
}

/// The first place of `k` among the keys, or their number where it is missing.
pub open spec fn place_of(keys: Seq<Seq<char>>, k: Seq<char>) -> int
    decreases keys.len(),
{
    if keys.len() == 0 || keys[0] == k {
        0
    } else {
        1 + place_of(keys.drop_first(), k)
    }
}

pub(crate) proof fn place_facts(keys: Seq<Seq<char>>, k: Seq<char>)
    ensures
        0 <= place_of(keys, k) <= keys.len(),
        keys.contains(k) <==> place_of(keys, k) < keys.len(),
        place_of(keys, k) < keys.len() ==> keys[place_of(keys, k)] == k,
        forall|j: int| 0 <= j < place_of(keys, k) ==> (#[trigger] keys[j]) != k,
    decreases keys.len(),
{
    if keys.len() > 0 && keys[0] != k {
        let rest = keys.drop_first();
        place_facts(rest, k);
        if keys.contains(k) {
            let i = choose|i: int| 0 <= i < keys.len() && keys[i] == k;
            assert(rest[i - 1] == k);
        }
        assert forall|j: int| 0 <= j < place_of(keys, k) implies (#[trigger] keys[j]) != k by {
            if j > 0 {
                assert(rest[j - 1] == keys[j]);
            }
        }
    } else if keys.len() > 0 {
        assert(keys.contains(keys[0]));
    }
}

proof fn place_is(keys: Seq<Seq<char>>, k: Seq<char>, i: int)
    requires
        0 <= i < keys.len(),
        keys[i] == k,
        forall|j: int| 0 <= j < i ==> (#[trigger] keys[j]) != k,
    ensures
        place_of(keys, k) == i,
{
    place_facts(keys, k);
    assert(keys.contains(keys[i]));
    if i < place_of(keys, k) {
        assert(keys[i] != k);
    }
}

/// A map from names, in the order in which they came.
#[derive(Debug)]
pub struct TextMap<V> {
    entries: Vec<(String, V)>,
}

impl<V> TextMap<V> {
    /// The keys, in order.
    pub closed spec fn keys(self) -> Seq<Seq<char>> {
        self.entries@.map_values(|e: (String, V)| e.0@)
    }

    /// The values, in the order of their keys.
    pub closed spec fn values(self) -> Seq<V> {
        self.entries@.map_values(|e: (String, V)| e.1)
    }

    /// The map.
    pub open spec fn view(self) -> Map<Seq<char>, V> {
        TextMap::made(self.keys(), self.values())
    }

    /// The map from keys to the values at their first places.
    pub open spec fn made(keys: Seq<Seq<char>>, values: Seq<V>) -> Map<Seq<char>, V> {
        Map::new(|k: Seq<char>| keys.contains(k), |k: Seq<char>| values[place_of(keys, k)])
    }

    /// The empty map.
    pub fn new() -> (r: TextMap<V>)
        ensures
            r.keys() == Seq::<Seq<char>>::empty(),
            r.values() == Seq::<V>::empty(),
            r@ == Map::<Seq<char>, V>::empty(),
    {
        let r = TextMap { entries: Vec::new() };
        assert(r.keys() =~= Seq::<Seq<char>>::empty());
        assert(r.values() =~= Seq::<V>::empty());
        assert(r@ =~= Map::<Seq<char>, V>::empty());
        r
    }

    /// The number of entries.
    pub fn len(&self) -> (r: usize)
        ensures
            r == self.keys().len(),
            r == self.values().len(),
    {
        self.entries.len()
    }

    /// The key at a place.
    pub fn key_at(&self, i: usize) -> (r: &str)
        requires
            i < self.keys().len(),
        ensures
            r@ == self.keys()[i as int],
    {
        self.entries[i].0.as_str()
    }

    /// The value at a place.
    pub fn value_at(&self, i: usize) -> (r: &V)
        requires
            i < self.keys().len(),
        ensures
            *r == self.values()[i as int],
    {
        &self.entries[i].1
    }

    /// Replaces the value at a place.
    pub(crate) fn set_at(&mut self, i: usize, v: V)
        requires
            i < old(self).keys().len(),
        ensures
            final(self).keys() == old(self).keys(),
            final(self).values() == old(self).values().update(i as int, v),
    {
        self.entries[i].1 = v;
        assert(self.keys() =~= old(self).keys());
        assert(self.values() =~= old(self).values().update(i as int, v));
    }

    /// Adds an entry behind the others.
    pub(crate) fn append(&mut self, k: String, v: V)
        ensures
            final(self).keys() == old(self).keys().push(k@),
            final(self).values() == old(self).values().push(v),
    {
        self.entries.push((k, v));
        assert(self.keys() =~= old(self).keys().push(k@));
        assert(self.values() =~= old(self).values().push(v));
    }

    /// The first place of a key.
    fn find(&self, k: &str) -> (r: Option<usize>)
        ensures
            match r {
                Some(i) => i < self.keys().len() && i == place_of(self.keys(), k@)
                    && self@.contains_key(k@),
                None => !self@.contains_key(k@),
            },
    {
        let mut i: usize = 0;
        while i < self.entries.len()
            invariant
                i <= self.entries@.len(),
                forall|j: int| 0 <= j < i ==> (#[trigger] self.keys()[j]) != k@,
            decreases self.entries@.len() - i,
        {
            if same_text(self.entries[i].0.as_str(), k) {
                assert(self.keys()[i as int] == k@);
                proof {
                    place_is(self.keys(), k@, i as int);
                }
                return Some(i);
            }
            i += 1;
        }
        None
    }

    /// The value of a key.
    pub fn get(&self, k: &str) -> (r: Option<&V>)
        ensures
            match r {
                Some(v) => self@.contains_key(k@) && *v == self@[k@],
                None => !self@.contains_key(k@),
            },
    {
        match self.find(k) {
            Some(i) => Some(&self.entries[i].1),
            None => None,
        }
    }

    /// Sets the value of a key.
    pub fn insert(&mut self, k: String, v: V)
        ensures
            final(self)@ == old(self)@.insert(k@, v),
            final(self).keys() == crate::text::with_unique(old(self).keys(), k@),
    {
        let ghost keys = self.keys();
        let ghost values = self.values();
        assert(values.len() == keys.len());
        let ghost key = k@;
        match self.find(k.as_str()) {
            Some(i) => {
                self.entries[i].1 = v;
                assert(self.keys() =~= keys);
                assert(self.values() =~= values.update(i as int, v));
                proof {
                    set_value(keys, values, key, v);
                }
            },
            None => {
                self.entries.push((k, v));
                assert(self.keys() =~= keys.push(key));
                assert(self.values() =~= values.push(v));
                proof {
                    add_value(keys, values, key, v);
                }
            },
        }
    }
}

proof fn set_value<V>(keys: Seq<Seq<char>>, values: Seq<V>, k: Seq<char>, v: V)
    requires
        keys.len() == values.len(),
        keys.contains(k),
    ensures
        TextMap::made(keys, values.update(place_of(keys, k), v)) == TextMap::made(
            keys,
            values,
        ).insert(k, v),
{
    place_facts(keys, k);
    let now = TextMap::made(keys, values.update(place_of(keys, k), v));
    let want = TextMap::made(keys, values).insert(k, v);
    assert(now.dom() =~= want.dom());
    assert forall|o: Seq<char>| now.dom().contains(o) implies #[trigger] now[o] == want[o] by {
        place_facts(keys, o);
    }
    assert(now =~= want);
}

proof fn add_value<V>(keys: Seq<Seq<char>>, values: Seq<V>, k: Seq<char>, v: V)
    requires
        keys.len() == values.len(),
        !keys.contains(k),
    ensures
        TextMap::made(keys.push(k), values.push(v)) == TextMap::made(keys, values).insert(k, v),
{
    let more = keys.push(k);
    let now = TextMap::made(more, values.push(v));
    let want = TextMap::made(keys, values).insert(k, v);
    assert forall|j: int| 0 <= j < keys.len() implies (#[trigger] more[j]) != k by {
        assert(keys.contains(keys[j]));
    }
    place_is(more, k, keys.len() as int);
    assert forall|o: Seq<char>| more.contains(o) <==> keys.contains(o) || o == k by {
        if keys.contains(o) {
            let j = choose|j: int| 0 <= j < keys.len() && keys[j] == o;
            assert(more[j] == o);
        }
        assert(more[keys.len() as int] == k);
        if more.contains(o) && o != k {
            let j = choose|j: int| 0 <= j < more.len() && more[j] == o;
            assert(keys[j] == o);
        }
    }
    assert(now.dom() =~= want.dom());
    assert forall|o: Seq<char>| now.dom().contains(o) implies #[trigger] now[o] == want[o] by {
        if o != k {
            assert(keys.contains(o));
            place_facts(keys, o);
            assert(more[place_of(keys, o)] == o);
            place_is(more, o, place_of(keys, o));
        }
    }
    assert(now =~= want);
}

} // verus!
