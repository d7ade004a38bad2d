//! A table keyed by identifier: each identifier stands in it once, and a new
//! value for an identifier takes the place of the old one.

use vstd::prelude::*;

verus! {

/// Values by identifier. Identifiers are kept in the order in which they
/// first came.
#[derive(Debug)]
pub struct Table<V> {
    ids: Vec<String>,
    values: Vec<V>,
}

/// The identifiers as sequences of characters.
spec fn texts(ids: Seq<String>) -> Seq<Seq<char>> {
    Seq::new(ids.len(), |i: int| ids[i]@)
}

/// Whether no identifier stands twice in `ids`.
pub open spec fn distinct(ids: Seq<Seq<char>>) -> bool {
    forall|i: int, j: int| 0 <= i < j < ids.len() ==> ids[i] != ids[j]
}

/// An index at which `id` stands in `ids`.
pub open spec fn position_of(ids: Seq<Seq<char>>, id: Seq<char>) -> int {
    choose|i: int| 0 <= i < ids.len() && ids[i] == id
}

/// The map that holds `values[i]` at `ids[i]`.
pub open spec fn map_of<W>(ids: Seq<Seq<char>>, values: Seq<W>) -> Map<Seq<char>, W> {
    Map::new(
        |k: Seq<char>| exists|i: int| 0 <= i < ids.len() && ids[i] == k,
        |k: Seq<char>| values[position_of(ids, k)],
    )
}

impl<V: View> View for Table<V> {
    type V = Map<Seq<char>, V::V>;

    open spec fn view(&self) -> Map<Seq<char>, V::V> {
        map_of(self.ids(), self.values())
    }
}

impl<V: View> Table<V> {
    /// The identifiers, in the order in which they first came.
    pub closed spec fn ids(&self) -> Seq<Seq<char>> {
        texts(self.ids@)
    }

    /// The values, each at the index of its identifier.
    pub closed spec fn values(&self) -> Seq<V::V> {
        Seq::new(self.values.len() as nat, |i: int| self.values[i]@)
    }

    /// What every table keeps: as many values as identifiers, and no
    /// identifier twice.
    pub open spec fn wf(&self) -> bool {
        &&& self.ids().len() == self.values().len()
        &&& distinct(self.ids())
    }

    /// The empty table.
    pub fn new() -> (t: Self)
        ensures
            t.ids().len() == 0,
            t@ == Map::<Seq<char>, V::V>::empty(),
            t.wf(),
    {
        let t = Table { ids: Vec::new(), values: Vec::new() };
        assert(t@ =~= Map::<Seq<char>, V::V>::empty());
        t
    }

    /// The number of identifiers.
    pub fn len(&self) -> (n: usize)
        requires
            self.wf(),
        ensures
            n == self.ids().len(),
    {
        self.ids.len()
    }

    /// The index of `id` among the identifiers.
    fn position(&self, id: &String) -> (r: Option<usize>)
        requires
            self.wf(),
        ensures
            match r {
                Some(i) => i < self.ids().len() && self.ids()[i as int] == id@,
                None => forall|i: int| 0 <= i < self.ids().len() ==> self.ids()[i] != id@,
            },
    {
        let mut i: usize = 0;
        while i < self.ids.len()
            invariant
                i <= self.ids.len(),
                forall|j: int| 0 <= j < i ==> self.ids()[j] != id@,
            decreases self.ids.len() - i,
        {
            if self.ids[i] == *id {
                return Some(i);
            }
            i += 1;
        }
        None
    }

    /// The identifier and the value at index `i`, for `i` below `len()`.
    pub fn entry(&self, i: usize) -> (r: Option<(&String, &V)>)
        requires
            self.wf(),
        ensures
            match r {
                Some((id, value)) => {
                    &&& i < self.ids().len()
                    &&& id@ == self.ids()[i as int]
                    &&& value@ == self.values()[i as int]
                    &&& self@.contains_key(id@)
                    &&& self@[id@] == value@
                },
                None => i >= self.ids().len(),
            },
    {
        if i < self.ids.len() {
            proof {
                lemma_map_of(self.ids(), self.values(), i as int);
            }
            Some((&self.ids[i], &self.values[i]))
        } else {
            None
        }
    }

    /// The value at `id`, where the table holds one.
    pub fn get(&self, id: &str) -> (r: Option<&V>)
        requires
            self.wf(),
        ensures
            match r {
                Some(v) => self@.contains_key(id@) && v@ == self@[id@],
                None => !self@.contains_key(id@),
            },
    {
        let key = id.to_owned();
        match self.position(&key) {
            Some(i) => {
                proof {
                    lemma_map_of(self.ids(), self.values(), i as int);
                }
                Some(&self.values[i])
            },
            None => None,
        }
    }

    /// Puts `value` at `id`, in place of the value that stood there if there
    /// was one.
    pub fn insert(&mut self, id: String, value: V)
        requires
            old(self).wf(),
        ensures
            final(self)@ == old(self)@.insert(id@, value@),
            final(self).ids() == if old(self)@.contains_key(id@) {
                old(self).ids()
            } else {
                old(self).ids().push(id@)
            },
            final(self).values() == if old(self)@.contains_key(id@) {
                old(self).values().update(position_of(old(self).ids(), id@), value@)
            } else {
                old(self).values().push(value@)
            },
            final(self).wf(),
    {
        let ghost ids0 = self.ids();
        let ghost values0 = self.values();
        match self.position(&id) {
            Some(i) => {
                self.values.set(i, value);
                proof {
                    assert(self.ids() == ids0);
                    assert(self.values() =~= values0.update(i as int, value@));
                    lemma_map_of_update(ids0, values0, i as int, value@);
                    lemma_map_of(ids0, values0, i as int);
                }
            },
            None => {
                self.ids.push(id);
                self.values.push(value);
                proof {
                    assert(self.ids() =~= ids0.push(id@));
                    assert(self.values() =~= values0.push(value@));
                    lemma_map_of_push(ids0, values0, id@, value@);
                }
            },
        }
    }
}

/// In a table without a double identifier the map holds `values[i]` at
/// `ids[i]`.
pub proof fn lemma_map_of<W>(ids: Seq<Seq<char>>, values: Seq<W>, i: int)
    requires
        distinct(ids),
        0 <= i < ids.len(),
    ensures
        map_of(ids, values).contains_key(ids[i]),
        map_of(ids, values)[ids[i]] == values[i],
{
    assert(position_of(ids, ids[i]) == i);
}

/// Turning every value of the table by `f` turns every value of the map.
pub proof fn lemma_map_of_values<W, X>(ids: Seq<Seq<char>>, values: Seq<W>, f: spec_fn(W) -> X)
    requires
        ids.len() == values.len(),
    ensures
        map_of(ids, values).map_values(f) == map_of(
            ids,
            Seq::new(values.len(), |i: int| f(values[i])),
        ),
{
    let a = map_of(ids, values).map_values(f);
    let b = map_of(ids, Seq::new(values.len(), |i: int| f(values[i])));
    assert(a =~= b);
}

/// A new value at index `i` is a new value at `ids[i]`.
pub proof fn lemma_map_of_update<W>(ids: Seq<Seq<char>>, values: Seq<W>, i: int, value: W)
    requires
        distinct(ids),
        ids.len() == values.len(),
        0 <= i < ids.len(),
    ensures
        map_of(ids, values.update(i, value)) == map_of(ids, values).insert(ids[i], value),
{
    let a = map_of(ids, values.update(i, value));
    let b = map_of(ids, values).insert(ids[i], value);
    assert forall|k: Seq<char>| a.contains_key(k) <==> b.contains_key(k) by {}
    assert forall|k: Seq<char>| a.contains_key(k) implies a[k] == b[k] by {
        let j = choose|j: int| 0 <= j < ids.len() && ids[j] == k;
        lemma_map_of(ids, values.update(i, value), j);
        lemma_map_of(ids, values, j);
    }
    assert(a =~= b);
}

/// One more identifier with its value is one more key of the map.
pub proof fn lemma_map_of_push<W>(ids: Seq<Seq<char>>, values: Seq<W>, id: Seq<char>, value: W)
    requires
        distinct(ids),
        ids.len() == values.len(),
        forall|i: int| 0 <= i < ids.len() ==> ids[i] != id,
    ensures
        distinct(ids.push(id)),
        !map_of(ids, values).contains_key(id),
        map_of(ids.push(id), values.push(value)) == map_of(ids, values).insert(id, value),
{
    let ids2 = ids.push(id);
    let values2 = values.push(value);
    let a = map_of(ids2, values2);
    let b = map_of(ids, values).insert(id, value);
    assert forall|k: Seq<char>| a.contains_key(k) <==> b.contains_key(k) by {
        if a.contains_key(k) {
            let j = choose|j: int| 0 <= j < ids2.len() && ids2[j] == k;
            if j < ids.len() {
                assert(ids[j] == k);
            }
        }
        if b.contains_key(k) {
            if k == id {
                assert(ids2[ids.len() as int] == k);
            } else {
                let j = choose|j: int| 0 <= j < ids.len() && ids[j] == k;
                assert(ids2[j] == k);
            }
        }
    }
    assert forall|k: Seq<char>| a.contains_key(k) implies a[k] == b[k] by {
        let j = choose|j: int| 0 <= j < ids2.len() && ids2[j] == k;
        lemma_map_of(ids2, values2, j);
        if j < ids.len() {
            lemma_map_of(ids, values, j);
        }
    }
    assert(a =~= b);
}

} // verus!
