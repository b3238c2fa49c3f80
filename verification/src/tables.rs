//! Hash tables: the sets and maps of the arena, over `hashbrown`.
//!
//! `hashbrown`'s collections are opaque to the verifier, so each is held in a
//! private field and its contents are named: [`id_map_entries`],
//! [`id_set_entries`], [`text_set_entries`]. Only the methods that touch the
//! collection itself are taken on trust. [`Table`] builds on the id map and
//! holds values of any type.

use vstd::prelude::*;

verus! {

/// A `hashbrown::HashMap` from ids to places in a vector.
#[verifier::external_body]
pub struct IdMap {
    inner: hashbrown::HashMap<u128, usize>,
}

/// The entries of an id map.
pub uninterp spec fn id_map_entries(m: IdMap) -> Map<u128, usize>;

impl IdMap {
    /// The entries of the map.
    pub open spec fn view(&self) -> Map<u128, usize> {
        id_map_entries(*self)
    }

    /// `HashMap::new` makes an empty map.
    #[verifier::external_body]
    pub(crate) fn new() -> (r: IdMap)
        ensures
            (id_map_entries(r) == Map::<u128, usize>::empty()),
    {
        IdMap { inner: hashbrown::HashMap::new() }
    }

    /// `HashMap::get` gives the value stored under the key, if any.
    #[verifier::external_body]
    pub(crate) fn get(&self, key: u128) -> (r: Option<usize>)
        ensures
            r == (if id_map_entries(*self).contains_key(key) {
                Some(id_map_entries(*self)[key])
            } else {
                None
            }),
    {
        self.inner.get(&key).copied()
    }

    /// `HashMap::insert` stores the value under the key, in place of any that
    /// was there.
    #[verifier::external_body]
    pub(crate) fn insert(&mut self, key: u128, value: usize)
        ensures
            id_map_entries(*final(self)) == id_map_entries(*old(self)).insert(key, value),
    {
        self.inner.insert(key, value);
    }

    /// `HashMap::remove` drops the key and its value.
    #[verifier::external_body]
    pub(crate) fn remove(&mut self, key: u128)
        ensures
            id_map_entries(*final(self)) == id_map_entries(*old(self)).remove(key),
    {
        self.inner.remove(&key);
    }

    /// `HashMap::is_empty` tells whether there are no entries.
    #[verifier::external_body]
    pub(crate) fn is_empty(&self) -> (r: bool)
        ensures
            r == (id_map_entries(*self) == Map::<u128, usize>::empty()),
    {
        self.inner.is_empty()
    }
}

/// A `hashbrown::HashSet` of ids.
#[verifier::external_body]
pub struct IdSet {
    inner: hashbrown::HashSet<u128>,
}

/// The members of an id set.
pub uninterp spec fn id_set_entries(s: IdSet) -> Set<u128>;

impl IdSet {
    /// The members of the set.
    pub open spec fn view(&self) -> Set<u128> {
        id_set_entries(*self)
    }

    /// `HashSet::new` makes an empty set.
    #[verifier::external_body]
    pub(crate) fn new() -> (r: IdSet)
        ensures
            id_set_entries(r) == Set::<u128>::empty(),
    {
        IdSet { inner: hashbrown::HashSet::new() }
    }

    /// `HashSet::contains` tells whether the value is a member.
    #[verifier::external_body]
    pub(crate) fn contains(&self, value: u128) -> (r: bool)
        ensures
            r == id_set_entries(*self).contains(value),
    {
        self.inner.contains(&value)
    }

    /// `HashSet::insert` adds the value and tells whether it was new.
    #[verifier::external_body]
    pub(crate) fn insert(&mut self, value: u128) -> (r: bool)
        ensures
            id_set_entries(*final(self)) == id_set_entries(*old(self)).insert(value),
            r == !id_set_entries(*old(self)).contains(value),
    {
        self.inner.insert(value)
    }
}

/// A `hashbrown::HashSet` of texts.
#[verifier::external_body]
pub struct TextSet {
    inner: hashbrown::HashSet<String>,
}

/// The members of a text set.
pub uninterp spec fn text_set_entries(s: TextSet) -> Set<Seq<char>>;

impl TextSet {
    /// The members of the set.
    pub open spec fn view(&self) -> Set<Seq<char>> {
        text_set_entries(*self)
    }

    /// `HashSet::new` makes an empty set.
    #[verifier::external_body]
    fn make() -> (r: TextSet)
        ensures
            text_set_entries(r) == Set::<Seq<char>>::empty(),
    {
        TextSet { inner: hashbrown::HashSet::new() }
    }

    /// `HashSet::contains` tells whether the text is a member.
    #[verifier::external_body]
    fn has(&self, text: &str) -> (r: bool)
        ensures
            r == text_set_entries(*self).contains(text@),
    {
        self.inner.contains(text)
    }

    /// `HashSet::insert` adds the text.
    #[verifier::external_body]
    fn put(&mut self, text: String)
        ensures
            text_set_entries(*final(self)) == text_set_entries(*old(self)).insert(text@),
    {
        self.inner.insert(text);
    }

    /// `HashSet`'s `extend` adds every member of the other set.
    #[verifier::external_body]
    fn absorb(&mut self, other: TextSet)
        ensures
            text_set_entries(*final(self)) == text_set_entries(*old(self)).union(
                text_set_entries(other),
            ),
    {
        self.inner.extend(other.inner);
    }

    /// `HashSet`'s `==` compares the members.
    #[verifier::external_body]
    fn equals(&self, other: &TextSet) -> (r: bool)
        ensures
            r == (text_set_entries(*self) == text_set_entries(*other)),
    {
        self.inner == other.inner
    }

    /// An empty set.
    pub fn new() -> (r: TextSet)
        ensures
            r@ == Set::<Seq<char>>::empty(),
    {
        TextSet::make()
    }

    /// Whether the text is a member.
    pub fn contains(&self, text: &str) -> (r: bool)
        ensures
            r == self@.contains(text@),
    {
        self.has(text)
    }

    /// Adds every text of the list.
    pub fn add_all(&mut self, list: &Vec<String>)
        ensures
            final(self)@ == old(self)@.union(crate::text::texts(list@).to_set()),
    {
        let ghost all = crate::text::texts(list@);
        assert(all.take(0).to_set() =~= Set::empty());
        assert(self@ =~= old(self)@.union(all.take(0).to_set()));
        for i in 0..list.len()
            invariant
                all == crate::text::texts(list@),
                self@ == old(self)@.union(all.take(i as int).to_set()),
        {
            assert(all.take(i + 1) =~= all.take(i as int).push(all[i as int]));
            proof {
                all.take(i as int).lemma_push_to_set_commute(all[i as int]);
            }
            self.put(list[i].clone());
            assert(self@ =~= old(self)@.union(all.take(i + 1).to_set()));
        }
        assert(all.take(all.len() as int) =~= all);
    }

    /// Adds every member of another set.
    pub fn add_set(&mut self, other: TextSet)
        ensures
            final(self)@ == old(self)@.union(other@),
    {
        self.absorb(other);
    }

    /// The set of the texts of a list.
    pub fn of_list(list: &Vec<String>) -> (r: TextSet)
        ensures
            r@ == crate::text::texts(list@).to_set(),
    {
        let mut s = TextSet::new();
        s.add_all(list);
        assert(s@ =~= crate::text::texts(list@).to_set());
        s
    }

    /// Whether the two sets have the same members.
    pub fn same_members(&self, other: &TextSet) -> (r: bool)
        ensures
            r == (self@ == other@),
    {
        self.equals(other)
    }
}

/// A map from ids to values: the id map finds the place of each entry.
pub struct Table<V> {
    index: IdMap,
    entries: Vec<Option<(u128, V)>>,
}

impl<V> Table<V> {
    /// Index and entries agree: an id leads to its own entry, and every entry
    /// is the one its id leads to.
    pub closed spec fn wf(&self) -> bool {
        &&& self.index@.dom().finite()
        &&& forall|k: u128| #[trigger]
            self.index@.contains_key(k) ==> {
                &&& self.index@[k] < self.entries@.len()
                &&& self.entries@[self.index@[k] as int] is Some
                &&& (self.entries@[self.index@[k] as int]->0).0 == k
            }
        &&& forall|i: int|
            0 <= i < self.entries@.len() && (#[trigger] self.entries@[i]) is Some
                ==> self.index@.contains_key((self.entries@[i]->0).0)
                && self.index@[(self.entries@[i]->0).0] == i
    }

    /// The map that the table stands for.
    pub closed spec fn view(&self) -> Map<u128, V> {
        Map::new(
            |k: u128| self.index@.contains_key(k),
            |k: u128| (self.entries@[self.index@[k] as int]->0).1,
        )
    }

    /// The number of places, those of removed entries among them.
    pub closed spec fn slots(&self) -> nat {
        self.entries@.len()
    }

    /// The id at a place, where an entry stands there.
    pub closed spec fn key_at(&self, i: int) -> Option<u128> {
        match self.entries@[i] {
            Some(e) => Some(e.0),
            None => None,
        }
    }

    /// The domain is finite, and every id of it has exactly one place.
    pub proof fn places(&self)
        requires
            self.wf(),
        ensures
            self@.dom().finite(),
            forall|i: int|
                0 <= i < self.slots() && (#[trigger] self.key_at(i)) is Some ==> self@.contains_key(
                    self.key_at(i)->0,
                ),
            forall|k: u128| #[trigger]
                self@.contains_key(k) ==> exists|i: int|
                    0 <= i < self.slots() && #[trigger] self.key_at(i) == Some(k),
            forall|i: int, j: int|
                0 <= i < self.slots() && 0 <= j < self.slots() && (#[trigger] self.key_at(i))
                    is Some && self.key_at(i) == #[trigger] self.key_at(j) ==> i == j,
    {
        assert(self@.dom() =~= self.index@.dom());
        assert forall|k: u128| #[trigger] self@.contains_key(k) implies exists|i: int|
            0 <= i < self.slots() && #[trigger] self.key_at(i) == Some(k) by {
            let i = self.index@[k] as int;
            assert(self.index@.contains_key(k));
            assert(self.key_at(i) == Some(k));
        }
    }

    /// An empty table.
    pub fn new() -> (r: Table<V>)
        ensures
            r.wf(),
            r@ == Map::<u128, V>::empty(),
            r.slots() == 0,
    {
        let r = Table { index: IdMap::new(), entries: Vec::new() };
        assert(r@ =~= Map::<u128, V>::empty());
        r
    }

    /// The number of places.
    pub fn slot_count(&self) -> (r: usize)
        ensures
            r == self.slots(),
    {
        self.entries.len()
    }

    /// Whether the table has no entries.
    pub fn is_empty(&self) -> (r: bool)
        requires
            self.wf(),
        ensures
            r == (self@ == Map::<u128, V>::empty()),
    {
        let r = self.index.is_empty();
        proof {
            if r {
                assert(self@ =~= Map::<u128, V>::empty());
            } else if self@ == Map::<u128, V>::empty() {
                assert forall|k: u128| !self.index@.contains_key(k) by {
                    assert(!self@.contains_key(k));
                }
                assert(self.index@ =~= Map::<u128, usize>::empty());
            }
        }
        r
    }

    /// The value stored under the id.
    pub fn get(&self, key: u128) -> (r: Option<&V>)
        requires
            self.wf(),
        ensures
            match r {
                Some(v) => self@.contains_key(key) && *v == self@[key],
                None => !self@.contains_key(key),
            },
    {
        match self.index.get(key) {
            Some(i) => match &self.entries[i] {
                Some(e) => Some(&e.1),
                None => None,
            },
            None => None,
        }
    }

    /// The entry at a place.
    pub fn at(&self, i: usize) -> (r: Option<(u128, &V)>)
        requires
            self.wf(),
            i < self.slots(),
        ensures
            match r {
                Some(e) => self.key_at(i as int) == Some(e.0) && self@.contains_key(e.0) && *e.1
                    == self@[e.0],
                None => self.key_at(i as int) is None,
            },
    {
        match &self.entries[i] {
            Some(e) => {
                assert(self.index@.contains_key(e.0));
                Some((e.0, &e.1))
            },
            None => None,
        }
    }

    /// Stores the value under the id, in place of any that was there.
    pub fn insert(&mut self, key: u128, value: V)
        requires
            old(self).wf(),
        ensures
            final(self).wf(),
            final(self)@ == old(self)@.insert(key, value),
    {
        match self.index.get(key) {
            Some(i) => {
                self.entries.set(i, Some((key, value)));
            },
            None => {
                let n: usize = self.entries.len();
                self.entries.push(Some((key, value)));
                self.index.insert(key, n);
            },
        }
        assert(self@ =~= old(self)@.insert(key, value));
    }

    /// Takes over every entry of another table, in place of its own under the
    /// same id.
    pub fn absorb(&mut self, other: Table<V>)
        requires
            old(self).wf(),
            other.wf(),
        ensures
            final(self).wf(),
            final(self)@ == old(self)@.union_prefer_right(other@),
    {
        let ghost places = other.index@;
        let ghost all = other.entries@;
        assert(self@ =~= old(self)@.union_prefer_right(
            Map::new(
                |k: u128| places.contains_key(k) && places[k] < 0,
                |k: u128| (all[places[k] as int]->0).1,
            ),
        ));
        for entry in it: other.entries
            invariant
                self.wf(),
                it.seq() == all,
                other.wf(),
                places == other.index@,
                all == other.entries@,
                self@ == old(self)@.union_prefer_right(
                    Map::new(
                        |k: u128| places.contains_key(k) && places[k] < it.index(),
                        |k: u128| (all[places[k] as int]->0).1,
                    ),
                ),
        {
            let ghost i = it.index();
            let ghost before = self@;
            assert(entry == all[i]);
            if let Some((k, v)) = entry {
                self.insert(k, v);
                assert(places.contains_key(k) && places[k] == i);
            }
            assert forall|k: u128| places.contains_key(k) && places[k] == i implies entry is Some
                && (entry->0).0 == k by {}
            assert(self@ =~= old(self)@.union_prefer_right(
                Map::new(
                    |k: u128| places.contains_key(k) && places[k] < i + 1,
                    |k: u128| (all[places[k] as int]->0).1,
                ),
            ));
        }
        assert(self@ =~= old(self)@.union_prefer_right(other@));
    }

    /// Takes the value stored under the id out of the table.
    pub fn remove(&mut self, key: u128) -> (r: Option<V>)
        requires
            old(self).wf(),
        ensures
            final(self).wf(),
            final(self)@ == old(self)@.remove(key),
            final(self).slots() == old(self).slots(),
            match r {
                Some(v) => old(self)@.contains_key(key) && v == old(self)@[key],
                None => !old(self)@.contains_key(key),
            },
    {
        match self.index.get(key) {
            Some(i) => {
                let mut taken: Option<(u128, V)> = None;
                std::mem::swap(&mut self.entries[i], &mut taken);
                self.index.remove(key);
                assert(self@ =~= old(self)@.remove(key));
                match taken {
                    Some(e) => Some(e.1),
                    None => None,
                }
            },
            None => {
                assert(self@ =~= old(self)@.remove(key));
                None
            },
        }
    }
}

} // verus!
