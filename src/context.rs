use vstd::prelude::*;

verus! {

/// The error of a lookup for a type that the context does not hold.
#[derive(PartialEq, Eq, Structural, Clone, Copy, Debug)]
pub struct NotFound {
    pub key: u64,
}

/// A store that holds at most one value per type, where a `u64` key stands for
/// the identity of a type. Entries are kept in the order of their first insertion.
pub struct Context<V> {
    entries: Vec<(u64, V)>,
}

/// The keys of a list of entries, in order.
pub open spec fn keys_of<V>(s: Seq<(u64, V)>) -> Seq<u64> {
    s.map_values(|e: (u64, V)| e.0)
}

impl<V> View for Context<V> {
    type V = Map<u64, V>;

    /// The value held for each key.
    closed spec fn view(&self) -> Map<u64, V> {
        Map::new(
            |k: u64| keys_of(self.entries@).contains(k),
            |k: u64| self.entries@[keys_of(self.entries@).index_of(k)].1,
        )
    }
}

impl<V> Context<V> {
    /// Each key is held at most once.
    pub closed spec fn wf(&self) -> bool {
        forall|i: int, j: int|
            0 <= i < j < self.entries@.len() ==> #[trigger] self.entries@[i].0
                != #[trigger] self.entries@[j].0
    }

    /// The keys held, in the order in which each was first inserted.
    pub closed spec fn key_order(&self) -> Seq<u64> {
        keys_of(self.entries@)
    }

    proof fn lemma_view_at(&self, i: int)
        requires
            self.wf(),
            0 <= i < self.entries@.len(),
        ensures
            self@.contains_key(self.entries@[i].0),
            self@[self.entries@[i].0] == self.entries@[i].1,
    {
        let ks = keys_of(self.entries@);
        let k = self.entries@[i].0;
        assert(ks[i] == k);
        assert(ks.contains(k));
        let j = ks.index_of(k);
        assert(ks[j] == k);
        assert(self.entries@[j].0 == k);
        if i < j {
            assert(self.entries@[i].0 != self.entries@[j].0);
        } else if j < i {
            assert(self.entries@[j].0 != self.entries@[i].0);
        }
    }

    proof fn lemma_view_absent(&self, k: u64)
        requires
            forall|i: int| 0 <= i < self.entries@.len() ==> #[trigger] self.entries@[i].0 != k,
        ensures
            !self@.contains_key(k),
    {
        let ks = keys_of(self.entries@);
        if ks.contains(k) {
            let j = choose|j: int| 0 <= j < ks.len() && ks[j] == k;
            assert(self.entries@[j].0 == k);
        }
    }

    /// The index of the entry for `key`, if there is one.
    fn find(&self, key: u64) -> (r: Option<usize>)
        ensures
            match r {
                Some(i) => i < self.entries@.len() && self.entries@[i as int].0 == key,
                None => forall|i: int|
                    0 <= i < self.entries@.len() ==> #[trigger] self.entries@[i].0 != key,
            },
    {
        let mut i: usize = 0;
        while i < self.entries.len()
            invariant
                i <= self.entries@.len(),
                forall|j: int| 0 <= j < i ==> #[trigger] self.entries@[j].0 != key,
            decreases self.entries@.len() - i,
        {
            if self.entries[i].0 == key {
                return Some(i);
            }
            i = i + 1;
        }
        None
    }

    /// An empty context.
    pub fn new() -> (r: Self)
        ensures
            r.wf(),
            r@ == Map::<u64, V>::empty(),
            r.key_order() == Seq::<u64>::empty(),
    {
        let r = Context { entries: Vec::new() };
        assert(r@ =~= Map::<u64, V>::empty());
        assert(r.key_order() =~= Seq::<u64>::empty());
        r
    }

    /// The number of types held.
    pub fn len(&self) -> (r: usize)
        requires
            self.wf(),
        ensures
            r == self@.len(),
            r == self.key_order().len(),
    {
        proof {
            self.lemma_len();
        }
        self.entries.len()
    }

    proof fn lemma_len(&self)
        requires
            self.wf(),
        ensures
            self@.dom() == keys_of(self.entries@).to_set(),
            self@.len() == self.entries@.len(),
    {
        let ks = keys_of(self.entries@);
        assert(self@.dom() =~= ks.to_set());
        assert forall|i: int, j: int| 0 <= i < j < ks.len() implies ks[i] != ks[j] by {
            assert(self.entries@[i].0 != self.entries@[j].0);
        }
        assert(ks.no_duplicates());
        ks.unique_seq_to_set();
    }

    /// Whether a value is held for `key`.
    pub fn contains(&self, key: u64) -> (r: bool)
        requires
            self.wf(),
        ensures
            r == self@.contains_key(key),
    {
        match self.find(key) {
            Some(i) => {
                proof {
                    self.lemma_view_at(i as int);
                }
                true
            },
            None => {
                proof {
                    self.lemma_view_absent(key);
                }
                false
            },
        }
    }

    /// The keys held, in the order in which each was first inserted.
    pub fn keys(&self) -> (r: Vec<u64>)
        ensures
            r@ == self.key_order(),
    {
        let mut r: Vec<u64> = Vec::new();
        let mut i: usize = 0;
        while i < self.entries.len()
            invariant
                i <= self.entries@.len(),
                r@ == keys_of(self.entries@).subrange(0, i as int),
            decreases self.entries@.len() - i,
        {
            r.push(self.entries[i].0);
            i = i + 1;
            assert(r@ =~= keys_of(self.entries@).subrange(0, i as int));
        }
        assert(r@ =~= keys_of(self.entries@));
        r
    }

    /// Stores `value` under `key`. A value already held under `key` is dropped;
    /// its entry keeps its place in the order.
    pub fn insert(&mut self, key: u64, value: V)
        requires
            old(self).wf(),
        ensures
            final(self).wf(),
            final(self)@ == old(self)@.insert(key, value),
            old(self)@.contains_key(key) ==> final(self).key_order() == old(self).key_order(),
            !old(self)@.contains_key(key) ==> final(self).key_order() == old(
                self,
            ).key_order().push(key),
    {
        let ghost before = *self;
        match self.find(key) {
            Some(i) => {
                proof {
                    before.lemma_view_at(i as int);
                }
                self.entries[i] = (key, value);
                proof {
                    self.lemma_after_set(before, i as int);
                }
            },
            None => {
                proof {
                    before.lemma_view_absent(key);
                }
                self.entries.push((key, value));
                proof {
                    self.lemma_after_push(before);
                }
            },
        }
    }

    proof fn lemma_after_set(&self, before: Self, i: int)
        requires
            before.wf(),
            0 <= i < before.entries@.len(),
            0 <= i < self.entries@.len(),
            self.entries@ == before.entries@.update(i, self.entries@[i]),
            self.entries@[i].0 == before.entries@[i].0,
        ensures
            self.wf(),
            self@ == before@.insert(self.entries@[i].0, self.entries@[i].1),
            self.key_order() == before.key_order(),
    {
        let k = self.entries@[i].0;
        assert forall|a: int, b: int| 0 <= a < b < self.entries@.len() implies #[trigger] self.entries@[a].0
            != #[trigger] self.entries@[b].0 by {
            assert(before.entries@[a].0 != before.entries@[b].0);
        }
        assert(self.key_order() =~= before.key_order());
        before.lemma_view_at(i);
        let m = before@.insert(k, self.entries@[i].1);
        assert forall|x: u64| #[trigger] self@.contains_key(x) == m.contains_key(x) by {
            assert(keys_of(self.entries@) == keys_of(before.entries@));
        }
        assert forall|x: u64| #[trigger] self@.contains_key(x) implies self@[x] == m[x] by {
            let ks = keys_of(self.entries@);
            let j = choose|j: int| 0 <= j < ks.len() && ks[j] == x;
            assert(self.entries@[j].0 == x);
            self.lemma_view_at(j);
            if j != i {
                before.lemma_view_at(j);
            }
        }
        assert(self@ =~= m);
    }

    proof fn lemma_after_push(&self, before: Self)
        requires
            before.wf(),
            self.entries@.len() == before.entries@.len() + 1,
            self.entries@ == before.entries@.push(self.entries@[before.entries@.len() as int]),
            forall|i: int|
                0 <= i < before.entries@.len() ==> #[trigger] before.entries@[i].0
                    != self.entries@.last().0,
        ensures
            self.wf(),
            self@ == before@.insert(self.entries@.last().0, self.entries@.last().1),
            self.key_order() == before.key_order().push(self.entries@.last().0),
    {
        let n = before.entries@.len() as int;
        let k = self.entries@[n].0;
        assert forall|a: int, b: int| 0 <= a < b < self.entries@.len() implies #[trigger] self.entries@[a].0
            != #[trigger] self.entries@[b].0 by {
            if b < n {
                assert(before.entries@[a].0 != before.entries@[b].0);
            } else {
                assert(before.entries@[a].0 != k);
            }
        }
        assert(self.key_order() =~= before.key_order().push(k));
        let m = before@.insert(k, self.entries@[n].1);
        assert forall|x: u64| #[trigger] self@.contains_key(x) == m.contains_key(x) by {
            if self@.contains_key(x) {
                let ks = keys_of(self.entries@);
                let j = choose|j: int| 0 <= j < ks.len() && ks[j] == x;
                if j < n {
                    assert(before.entries@[j].0 == x);
                    before.lemma_view_at(j);
                }
            }
            if before@.contains_key(x) {
                let bks = keys_of(before.entries@);
                let j = choose|j: int| 0 <= j < bks.len() && bks[j] == x;
                assert(self.entries@[j].0 == x);
                self.lemma_view_at(j);
            }
            if x == k {
                self.lemma_view_at(n);
            }
        }
        assert forall|x: u64| #[trigger] self@.contains_key(x) implies self@[x] == m[x] by {
            let ks = keys_of(self.entries@);
            let j = choose|j: int| 0 <= j < ks.len() && ks[j] == x;
            assert(self.entries@[j].0 == x);
            self.lemma_view_at(j);
            if j < n {
                before.lemma_view_at(j);
            }
        }
        assert(self@ =~= m);
    }

    proof fn lemma_after_remove(&self, before: Self, i: int)
        requires
            before.wf(),
            0 <= i < before.entries@.len(),
            self.entries@ == before.entries@.remove(i),
        ensures
            self.wf(),
            self@ == before@.remove(before.entries@[i].0),
            self.key_order() == before.key_order().remove(i),
            before.key_order().index_of(before.entries@[i].0) == i,
    {
        let k = before.entries@[i].0;
        let n = before.entries@.len() as int;
        assert forall|a: int, b: int| 0 <= a < b < self.entries@.len() implies #[trigger] self.entries@[a].0
            != #[trigger] self.entries@[b].0 by {
            if b < i {
                assert(before.entries@[a].0 != before.entries@[b].0);
            } else if a < i {
                assert(before.entries@[a].0 != before.entries@[b + 1].0);
            } else {
                assert(before.entries@[a + 1].0 != before.entries@[b + 1].0);
            }
        }
        assert(self.key_order() =~= before.key_order().remove(i));
        let bks = before.key_order();
        assert(bks[i] == k);
        let j = bks.index_of(k);
        assert(bks[j] == k);
        if j != i {
            if j < i {
                assert(before.entries@[j].0 != before.entries@[i].0);
            } else {
                assert(before.entries@[i].0 != before.entries@[j].0);
            }
        }
        let m = before@.remove(k);
        assert forall|x: u64| #[trigger] self@.contains_key(x) == m.contains_key(x) by {
            if self@.contains_key(x) {
                let ks = keys_of(self.entries@);
                let a = choose|a: int| 0 <= a < ks.len() && ks[a] == x;
                if a < i {
                    assert(before.entries@[a].0 == x);
                    assert(before.entries@[a].0 != before.entries@[i].0);
                    before.lemma_view_at(a);
                } else {
                    assert(before.entries@[a + 1].0 == x);
                    assert(before.entries@[i].0 != before.entries@[a + 1].0);
                    before.lemma_view_at(a + 1);
                }
            }
            if m.contains_key(x) {
                let a = choose|a: int| 0 <= a < bks.len() && bks[a] == x;
                assert(a != i);
                if a < i {
                    assert(self.entries@[a].0 == x);
                    self.lemma_view_at(a);
                } else {
                    assert(self.entries@[a - 1].0 == x);
                    self.lemma_view_at(a - 1);
                }
            }
        }
        assert forall|x: u64| #[trigger] self@.contains_key(x) implies self@[x] == m[x] by {
            let ks = keys_of(self.entries@);
            let a = choose|a: int| 0 <= a < ks.len() && ks[a] == x;
            self.lemma_view_at(a);
            if a < i {
                before.lemma_view_at(a);
            } else {
                before.lemma_view_at(a + 1);
            }
        }
        assert(self@ =~= m);
    }

    /// A shared reference to the value held for `key`.
    pub fn get(&self, key: u64) -> (r: Result<&V, NotFound>)
        requires
            self.wf(),
        ensures
            match r {
                Ok(v) => self@.contains_key(key) && *v == self@[key],
                Err(e) => !self@.contains_key(key) && e == (NotFound { key }),
            },
    {
        match self.find(key) {
            Some(i) => {
                proof {
                    self.lemma_view_at(i as int);
                }
                Ok(&self.entries[i].1)
            },
            None => {
                proof {
                    self.lemma_view_absent(key);
                }
                Err(NotFound { key })
            },
        }
    }

    /// An exclusive reference to the value held for `key`, changed in place.
    pub fn get_mut(&mut self, key: u64) -> (r: Result<&mut V, NotFound>)
        requires
            old(self).wf(),
        ensures
            final(self).wf(),
            final(self).key_order() == old(self).key_order(),
            match r {
                Ok(v) => {
                    &&& old(self)@.contains_key(key)
                    &&& *v == old(self)@[key]
                    &&& final(self)@ == old(self)@.insert(key, *final(v))
                },
                Err(e) => {
                    &&& !old(self)@.contains_key(key)
                    &&& e == (NotFound { key })
                    &&& final(self)@ == old(self)@
                },
            },
    {
        let ghost before = *self;
        match self.find(key) {
            Some(i) => {
                proof {
                    before.lemma_view_at(i as int);
                    Self::lemma_slot_changed(before, i as int);
                }
                let entry = &mut self.entries[i];
                Ok(&mut entry.1)
            },
            None => {
                proof {
                    before.lemma_view_absent(key);
                }
                Err(NotFound { key })
            },
        }
    }

    proof fn lemma_slot_changed(before: Self, i: int)
        requires
            before.wf(),
            0 <= i < before.entries@.len(),
        ensures
            forall|after: Self|
                after.entries@ == before.entries@.update(i, (before.entries@[i].0, after.entries@[i].1))
                    ==> {
                    &&& #[trigger] after.wf()
                    &&& after@ == before@.insert(before.entries@[i].0, after.entries@[i].1)
                    &&& after.key_order() == before.key_order()
                },
    {
        assert forall|after: Self|
            after.entries@ == before.entries@.update(i, (before.entries@[i].0, after.entries@[i].1))
                implies {
                &&& #[trigger] after.wf()
                &&& after@ == before@.insert(before.entries@[i].0, after.entries@[i].1)
                &&& after.key_order() == before.key_order()
            } by {
            after.lemma_after_set(before, i);
        }
    }

    /// Removes the value held for `key` and hands it over.
    pub fn take(&mut self, key: u64) -> (r: Result<V, NotFound>)
        requires
            old(self).wf(),
        ensures
            final(self).wf(),
            match r {
                Ok(v) => {
                    &&& old(self)@.contains_key(key)
                    &&& v == old(self)@[key]
                    &&& final(self)@ == old(self)@.remove(key)
                    &&& final(self).key_order() == old(self).key_order().remove(
                        old(self).key_order().index_of(key),
                    )
                },
                Err(e) => {
                    &&& !old(self)@.contains_key(key)
                    &&& e == (NotFound { key })
                    &&& final(self)@ == old(self)@
                    &&& final(self).key_order() == old(self).key_order()
                },
            },
    {
        let ghost before = *self;
        match self.find(key) {
            Some(i) => {
                proof {
                    before.lemma_view_at(i as int);
                }
                let (_, v) = self.entries.remove(i);
                proof {
                    self.lemma_after_remove(before, i as int);
                }
                Ok(v)
            },
            None => {
                proof {
                    before.lemma_view_absent(key);
                }
                Err(NotFound { key })
            },
        }
    }
}

/// After a value is inserted under a key, a lookup of that key finds exactly
/// that value; once it is taken, the key is no longer found.
pub proof fn lemma_insert_then_get<V>(ctx: Context<V>, key: u64, value: V)
    ensures
        ctx@.insert(key, value).contains_key(key),
        ctx@.insert(key, value)[key] == value,
        !ctx@.insert(key, value).remove(key).contains_key(key),
{
}

/// A second insert under the same key replaces the first value: a lookup
/// finds the second, and the store is as if the first had never been made.
pub proof fn lemma_insert_overwrites<V>(ctx: Context<V>, key: u64, first: V, second: V)
    ensures
        ctx@.insert(key, first).insert(key, second)[key] == second,
        ctx@.insert(key, first).insert(key, second) == ctx@.insert(key, second),
{
    assert(ctx@.insert(key, first).insert(key, second) =~= ctx@.insert(key, second));
}

} // verus!
