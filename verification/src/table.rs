//! Tables: rows that are found by a key.
//!
//! The rows stand in a vector; a concurrent hash map holds, for each key, the place of its
//! row.

use dashmap::DashMap;
use vstd::prelude::*;

verus! {

/// The concurrent hash map.
#[verifier::external_type_specification]
#[verifier::external_body]
#[verifier::reject_recursive_types(K)]
#[verifier::reject_recursive_types(V)]
#[verifier::reject_recursive_types(S)]
pub struct ExDashMap<K, V, S>(DashMap<K, V, S>);

/// What a map from numbers to places holds.
pub uninterp spec fn places_by_id(m: DashMap<u64, usize>) -> Map<u64, usize>;

/// What a map from names to places holds.
pub uninterp spec fn places_by_name(m: DashMap<String, usize>) -> Map<Seq<char>, usize>;

/// What a map from pairs of names to places holds.
pub uninterp spec fn places_by_pair(m: DashMap<(String, String), usize>) -> Map<
    (Seq<char>, Seq<char>),
    usize,
>;

/// `DashMap::new`: the map is empty.
#[verifier::external_body]
fn id_map_new() -> (m: DashMap<u64, usize>)
    ensures
        (places_by_id(m) == Map::<u64, usize>::empty()),
{
    DashMap::new()
}

/// `DashMap::get`: the value of a key, where the map has the key.
#[verifier::external_body]
fn id_map_get(m: &DashMap<u64, usize>, key: u64) -> (r: Option<usize>)
    ensures
        r is Some <==> places_by_id(*m).contains_key(key),
        r matches Some(v) ==> v == places_by_id(*m)[key],
{
    m.get(&key).map(|r| *r.value())
}

/// `DashMap::insert`: the key gets the value, whatever value it had.
#[verifier::external_body]
fn id_map_insert(m: &mut DashMap<u64, usize>, key: u64, value: usize)
    ensures
        places_by_id(*final(m)) == places_by_id(*old(m)).insert(key, value),
{
    m.insert(key, value);
}

/// `DashMap::remove`: the key leaves the map.
#[verifier::external_body]
fn id_map_remove(m: &mut DashMap<u64, usize>, key: u64)
    ensures
        places_by_id(*final(m)) == places_by_id(*old(m)).remove(key),
{
    m.remove(&key);
}

/// `DashMap::new`: the map is empty.
#[verifier::external_body]
fn name_map_new() -> (m: DashMap<String, usize>)
    ensures
        (places_by_name(m) == Map::<Seq<char>, usize>::empty()),
{
    DashMap::new()
}

/// `DashMap::get`: the value of a key, where the map has the key.
#[verifier::external_body]
fn name_map_get(m: &DashMap<String, usize>, key: &String) -> (r: Option<usize>)
    ensures
        r is Some <==> places_by_name(*m).contains_key(key@),
        r matches Some(v) ==> v == places_by_name(*m)[key@],
{
    m.get(key).map(|r| *r.value())
}

/// `DashMap::insert`: the key gets the value, whatever value it had.
#[verifier::external_body]
fn name_map_insert(m: &mut DashMap<String, usize>, key: String, value: usize)
    ensures
        places_by_name(*final(m)) == places_by_name(*old(m)).insert(key@, value),
{
    m.insert(key, value);
}

/// `DashMap::remove`: the key leaves the map.
#[verifier::external_body]
fn name_map_remove(m: &mut DashMap<String, usize>, key: &String)
    ensures
        places_by_name(*final(m)) == places_by_name(*old(m)).remove(key@),
{
    m.remove(key);
}

/// `DashMap::new`: the map is empty.
#[verifier::external_body]
fn pair_map_new() -> (m: DashMap<(String, String), usize>)
    ensures
        (places_by_pair(m) == Map::<(Seq<char>, Seq<char>), usize>::empty()),
{
    DashMap::new()
}

/// `DashMap::get`: the value of a key, where the map has the key.
#[verifier::external_body]
fn pair_map_get(m: &DashMap<(String, String), usize>, key: &(String, String)) -> (r: Option<usize>)
    ensures
        r is Some <==> places_by_pair(*m).contains_key((key.0@, key.1@)),
        r matches Some(v) ==> v == places_by_pair(*m)[(key.0@, key.1@)],
{
    m.get(key).map(|r| *r.value())
}

/// `DashMap::insert`: the key gets the value, whatever value it had.
#[verifier::external_body]
fn pair_map_insert(m: &mut DashMap<(String, String), usize>, key: (String, String), value: usize)
    ensures
        places_by_pair(*final(m)) == places_by_pair(*old(m)).insert((key.0@, key.1@), value),
{
    m.insert(key, value);
}

/// `DashMap::remove`: the key leaves the map.
#[verifier::external_body]
fn pair_map_remove(m: &mut DashMap<(String, String), usize>, key: &(String, String))
    ensures
        places_by_pair(*final(m)) == places_by_pair(*old(m)).remove((key.0@, key.1@)),
{
    m.remove(key);
}

/// A map from keys to places.
pub trait Places: Sized {
    /// The keys, as the program holds them.
    type Key;

    /// The keys, as contracts speak of them.
    type Model;

    spec fn model(key: Self::Key) -> Self::Model;

    /// The place of each key.
    spec fn places(self) -> Map<Self::Model, usize>;

    fn empty() -> (m: Self)
        ensures
            m.places() == Map::<Self::Model, usize>::empty(),
    ;

    fn place(&self, key: &Self::Key) -> (r: Option<usize>)
        ensures
            r is Some <==> self.places().contains_key(Self::model(*key)),
            r matches Some(v) ==> v == self.places()[Self::model(*key)],
    ;

    fn set_place(&mut self, key: &Self::Key, value: usize)
        ensures
            final(self).places() == old(self).places().insert(Self::model(*key), value),
    ;

    fn forget(&mut self, key: &Self::Key)
        ensures
            final(self).places() == old(self).places().remove(Self::model(*key)),
    ;
}

/// Places by number.
pub struct ById {
    map: DashMap<u64, usize>,
}

impl Places for ById {
    type Key = u64;

    type Model = u64;

    open spec fn model(key: u64) -> u64 {
        key
    }

    closed spec fn places(self) -> Map<u64, usize> {
        places_by_id(self.map)
    }

    fn empty() -> (m: Self) {
        ById { map: id_map_new() }
    }

    fn place(&self, key: &u64) -> (r: Option<usize>) {
        id_map_get(&self.map, *key)
    }

    fn set_place(&mut self, key: &u64, value: usize) {
        id_map_insert(&mut self.map, *key, value);
    }

    fn forget(&mut self, key: &u64) {
        id_map_remove(&mut self.map, *key);
    }
}

/// Places by name.
pub struct ByName {
    map: DashMap<String, usize>,
}

impl Places for ByName {
    type Key = String;

    type Model = Seq<char>;

    open spec fn model(key: String) -> Seq<char> {
        key@
    }

    closed spec fn places(self) -> Map<Seq<char>, usize> {
        places_by_name(self.map)
    }

    fn empty() -> (m: Self) {
        ByName { map: name_map_new() }
    }

    fn place(&self, key: &String) -> (r: Option<usize>) {
        name_map_get(&self.map, key)
    }

    fn set_place(&mut self, key: &String, value: usize) {
        name_map_insert(&mut self.map, key.clone(), value);
    }

    fn forget(&mut self, key: &String) {
        name_map_remove(&mut self.map, key);
    }
}

/// Places by pair of names.
pub struct ByPair {
    map: DashMap<(String, String), usize>,
}

impl Places for ByPair {
    type Key = (String, String);

    type Model = (Seq<char>, Seq<char>);

    open spec fn model(key: (String, String)) -> (Seq<char>, Seq<char>) {
        (key.0@, key.1@)
    }

    closed spec fn places(self) -> Map<(Seq<char>, Seq<char>), usize> {
        places_by_pair(self.map)
    }

    fn empty() -> (m: Self) {
        ByPair { map: pair_map_new() }
    }

    fn place(&self, key: &(String, String)) -> (r: Option<usize>) {
        pair_map_get(&self.map, key)
    }

    fn set_place(&mut self, key: &(String, String), value: usize) {
        pair_map_insert(&mut self.map, (key.0.clone(), key.1.clone()), value);
    }

    fn forget(&mut self, key: &(String, String)) {
        pair_map_remove(&mut self.map, key);
    }
}

/// Rows that are found by a key; no key has two rows.
#[verifier::reject_recursive_types(I)]
#[verifier::reject_recursive_types(T)]
pub struct Table<I: Places, T> {
    index: I,
    rows: Vec<(I::Key, T)>,
}

impl<I: Places, T> Table<I, T> {
    /// The index leads to every row and nowhere else.
    pub closed spec fn wf(self) -> bool {
        &&& forall|i: int|
            0 <= i < self.rows@.len() ==> self.index.places().contains_key(
                I::model((#[trigger] self.rows@[i]).0),
            ) && self.index.places()[I::model(self.rows@[i].0)] == i
        &&& forall|k: I::Model| #[trigger]
            self.index.places().contains_key(k) ==> self.index.places()[k] < self.rows@.len()
                && I::model(self.rows@[self.index.places()[k] as int].0) == k
    }

    /// The rows by key.
    pub closed spec fn view(&self) -> Map<I::Model, T> {
        Map::new(
            |k: I::Model| self.index.places().contains_key(k),
            |k: I::Model| self.rows@[self.index.places()[k] as int].1,
        )
    }

    /// The keys in the order of the rows.
    pub closed spec fn keys(self) -> Seq<I::Model> {
        Seq::new(self.rows@.len(), |i: int| I::model(self.rows@[i].0))
    }

    /// A table without rows.
    pub fn new() -> (t: Self)
        ensures
            t.wf(),
            t@ == Map::<I::Model, T>::empty(),
            t.keys() == Seq::<I::Model>::empty(),
    {
        let t: Self = Table { index: I::empty(), rows: Vec::new() };
        assert(t@ =~= Map::<I::Model, T>::empty());
        t
    }

    /// The number of rows.
    pub fn len(&self) -> (n: usize)
        ensures
            n == self.keys().len(),
    {
        self.rows.len()
    }

    /// The rows are those of the keys, and no key comes twice.
    pub proof fn lemma_keys(self)
        requires
            self.wf(),
        ensures
            forall|i: int|
                0 <= i < self.keys().len() ==> self@.contains_key(#[trigger] self.keys()[i]),
            forall|i: int, j: int|
                0 <= i < j < self.keys().len() ==> #[trigger] self.keys()[i]
                    != #[trigger] self.keys()[j],
            forall|k: I::Model| #[trigger] self@.contains_key(k) ==> self.keys().contains(k),
    {
        assert forall|k: I::Model| #[trigger] self@.contains_key(k) implies self.keys().contains(
            k,
        ) by {
            let p = self.index.places()[k];
            assert(self.index.places().contains_key(k));
            assert(self.keys()[p as int] == k);
        }
        assert forall|i: int| 0 <= i < self.keys().len() implies self@.contains_key(
            #[trigger] self.keys()[i],
        ) by {
            assert(self.rows@[i] == self.rows@[i]);
        }
        assert forall|i: int, j: int| 0 <= i < j < self.keys().len() implies #[trigger] self.keys()[
            i] != #[trigger] self.keys()[j] by {
            assert(self.rows@[i] == self.rows@[i]);
            assert(self.rows@[j] == self.rows@[j]);
        }
    }

    /// The key of a row.
    pub fn key_at(&self, i: usize) -> (k: &I::Key)
        requires
            i < self.keys().len(),
        ensures
            I::model(*k) == self.keys()[i as int],
    {
        &self.rows[i].0
    }

    /// A row by its place.
    pub fn row_at(&self, i: usize) -> (r: &T)
        requires
            self.wf(),
            i < self.keys().len(),
        ensures
            self@.contains_key(self.keys()[i as int]),
            *r == self@[self.keys()[i as int]],
    {
        proof {
            self.lemma_keys();
            assert(self.rows@[i as int] == self.rows@[i as int]);
        }
        &self.rows[i].1
    }

    /// A row by its place, to be changed.
    pub fn row_at_mut(&mut self, i: usize) -> (r: &mut T)
        requires
            old(self).wf(),
            i < old(self).keys().len(),
        ensures
            old(self)@.contains_key(old(self).keys()[i as int]),
            *r == old(self)@[old(self).keys()[i as int]],
            final(self).wf(),
            final(self).keys() == old(self).keys(),
            final(self)@ == old(self)@.insert(old(self).keys()[i as int], *final(r)),
    {
        &mut self.rows[i].1
    }

    /// The place of the row of a key.
    pub fn find(&self, key: &I::Key) -> (r: Option<usize>)
        requires
            self.wf(),
        ensures
            r is Some <==> self@.contains_key(I::model(*key)),
            r matches Some(i) ==> i < self.keys().len() && self.keys()[i as int] == I::model(*key),
    {
        self.index.place(key)
    }

    /// The row of a key.
    pub fn get(&self, key: &I::Key) -> (r: Option<&T>)
        requires
            self.wf(),
        ensures
            r is Some <==> self@.contains_key(I::model(*key)),
            r matches Some(v) ==> *v == self@[I::model(*key)],
    {
        match self.find(key) {
            Some(i) => Some(self.row_at(i)),
            None => None,
        }
    }

    /// Adds a row for a key that has none.
    pub fn add(&mut self, key: I::Key, value: T)
        requires
            old(self).wf(),
            !old(self)@.contains_key(I::model(key)),
        ensures
            final(self).wf(),
            final(self)@ == old(self)@.insert(I::model(key), value),
            final(self).keys() == old(self).keys().push(I::model(key)),
    {
        let n: usize = self.rows.len();
        self.index.set_place(&key, n);
        self.rows.push((key, value));
        assert(self.keys() =~= old(self).keys().push(I::model(key)));
        assert(self@ =~= old(self)@.insert(I::model(key), value));
    }

    /// Gives a key a row, whatever row it had.
    pub fn put(&mut self, key: I::Key, value: T)
        requires
            old(self).wf(),
        ensures
            final(self).wf(),
            final(self)@ == old(self)@.insert(I::model(key), value),
            final(self).keys() == (if old(self)@.contains_key(I::model(key)) {
                old(self).keys()
            } else {
                old(self).keys().push(I::model(key))
            }),
    {
        match self.find(&key) {
            Some(i) => {
                let row = self.row_at_mut(i);
                *row = value;
            },
            None => self.add(key, value),
        }
    }

    /// Removes the row at a place; the last row takes the place.
    pub fn remove_at(&mut self, i: usize) -> (r: T)
        requires
            old(self).wf(),
            i < old(self).keys().len(),
        ensures
            final(self).wf(),
            old(self)@.contains_key(old(self).keys()[i as int]),
            r == old(self)@[old(self).keys()[i as int]],
            final(self)@ == old(self)@.remove(old(self).keys()[i as int]),
            final(self).keys() == old(self).keys().update(
                i as int,
                old(self).keys().last(),
            ).drop_last(),
    {
        proof {
            self.lemma_keys();
        }
        let ghost before = *self;
        let (key, value) = self.rows.swap_remove(i);
        assert(before.rows@[i as int] == (key, value));
        self.index.forget(&key);
        if i < self.rows.len() {
            assert(self.rows@[i as int] == before.rows@.last());
            self.index.set_place(&self.rows[i].0, i);
        }
        proof {
            assert forall|j: int| 0 <= j < self.rows@.len() implies self.index.places().contains_key(
                I::model((#[trigger] self.rows@[j]).0),
            ) && self.index.places()[I::model(self.rows@[j].0)] == j by {
                if j != i {
                    assert(self.rows@[j] == before.rows@[j]);
                    assert(before.rows@[j] == before.rows@[j]);
                    assert(before.keys()[j] != before.keys()[i as int]);
                    assert(before.keys()[j] != before.keys().last());
                } else {
                    assert(before.keys().last() != before.keys()[i as int]);
                }
            }
            assert forall|k: I::Model| #[trigger] self.index.places().contains_key(k) implies
                self.index.places()[k] < self.rows@.len() && I::model(
                self.rows@[self.index.places()[k] as int].0,
            ) == k by {
                let p = before.index.places()[k] as int;
                assert(before.index.places().contains_key(k));
                assert(p != i);
                if p < self.rows@.len() {
                    assert(self.rows@[p] == before.rows@[p]);
                    assert(k == before.keys()[p]);
                    assert(k != before.keys().last());
                }
            }
            assert(self.keys() =~= before.keys().update(i as int, before.keys().last()).drop_last());
            assert(self@ =~= before@.remove(before.keys()[i as int]));
        }
        value
    }

    /// Removes the row of a key.
    pub fn remove(&mut self, key: &I::Key) -> (r: Option<T>)
        requires
            old(self).wf(),
        ensures
            final(self).wf(),
            r is Some <==> old(self)@.contains_key(I::model(*key)),
            r matches Some(v) ==> v == old(self)@[I::model(*key)],
            final(self)@ == old(self)@.remove(I::model(*key)),
    {
        match self.find(key) {
            Some(i) => Some(self.remove_at(i)),
            None => {
                assert(self@ =~= old(self)@.remove(I::model(*key)));
                None
            },
        }
    }
}

} // verus!
