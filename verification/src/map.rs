use vstd::prelude::*;

verus! {

/// Number of hash buckets of a `IdMap`.
pub const HASH_SIZE: usize = 32;

/// The identifier that no stored item ever carries.
pub const INVALID_ID: isize = isize::MIN;

/// An item that a `IdMap` can store: it carries its own identifier.
pub trait Mappable: Sized {
    /// The identifier that `id` reports.
    spec fn spec_id(&self) -> isize;

    /// The value that `set_id` leaves behind.
    spec fn spec_with_id(self, id: isize) -> Self;

    fn id(&self) -> (r: isize)
        ensures
            r == self.spec_id(),
    ;

    fn set_id(&mut self, id: isize)
        ensures
            *final(self) == old(self).spec_with_id(id),
            final(self).spec_id() == id,
    ;
}

/// A hash map from identifiers to items, which hands out increasing identifiers.
pub struct IdMap<T: Mappable> {
    data: Vec<Vec<T>>,
    count: usize,
    next_id: isize,
}

/// An item paired with an identifier.
pub struct MappedItem<T> {
    data: T,
    id: isize,
}

/// A walk over the items of a `IdMap`, bucket by bucket.
pub struct MapIterator<'a, T: Mappable> {
    map: &'a IdMap<T>,
    index: usize,
    position: usize,
}

/// The bucket that an identifier belongs to.
pub open spec fn bucket_of(id: isize) -> int {
    (id as int) % (HASH_SIZE as int)
}

/// The items of a sequence of buckets, bucket after bucket.
pub open spec fn concat<T>(buckets: Seq<Seq<T>>) -> Seq<T>
    decreases buckets.len(),
{
    if buckets.len() == 0 {
        Seq::empty()
    } else {
        concat(buckets.drop_last()) + buckets.last()
    }
}

/// Whether `key` can be looked up without indexing outside the buckets: a negative
/// key must leave no remainder when divided by `HASH_SIZE`.
pub open spec fn key_addressable(key: isize) -> bool {
    key >= 0 || bucket_of(key) == 0
}

/// The identifiers of a sequence of items.
pub open spec fn ids_of<T: Mappable>(items: Seq<T>) -> Seq<isize> {
    items.map_values(|v: T| v.spec_id())
}

pub proof fn lemma_concat_take<T>(buckets: Seq<Seq<T>>, b: int)
    requires
        0 <= b < buckets.len(),
    ensures
        concat(buckets.take(b + 1)) == concat(buckets.take(b)) + buckets[b],
{
    assert(buckets.take(b + 1).drop_last() =~= buckets.take(b));
}

pub proof fn lemma_concat_update_len<T>(buckets: Seq<Seq<T>>, h: int, s: Seq<T>)
    requires
        0 <= h < buckets.len(),
    ensures
        concat(buckets.update(h, s)).len() == concat(buckets).len() - buckets[h].len() + s.len(),
    decreases buckets.len(),
{
    if h < buckets.len() - 1 {
        assert(buckets.update(h, s).drop_last() =~= buckets.drop_last().update(h, s));
        lemma_concat_update_len(buckets.drop_last(), h, s);
    } else {
        assert(buckets.update(h, s).drop_last() =~= buckets.drop_last());
    }
}

pub proof fn lemma_concat_len_ge<T>(buckets: Seq<Seq<T>>, b: int)
    requires
        0 <= b < buckets.len(),
    ensures
        concat(buckets).len() >= buckets[b].len(),
    decreases buckets.len(),
{
    if b < buckets.len() - 1 {
        lemma_concat_len_ge(buckets.drop_last(), b);
    }
}

/// Finds where in `bucket` the item with identifier `key` stands.
fn find_in<T: Mappable>(bucket: &Vec<T>, key: isize) -> (r: Option<usize>)
    ensures
        match r {
            Some(j) => j < bucket@.len() && bucket@[j as int].spec_id() == key,
            None => forall|j: int| 0 <= j < bucket@.len() ==> (#[trigger] bucket@[j]).spec_id() != key,
        },
{
    let mut j: usize = 0;
    while j < bucket.len()
        invariant
            j <= bucket@.len(),
            forall|jj: int| 0 <= jj < j ==> (#[trigger] bucket@[jj]).spec_id() != key,
        decreases bucket@.len() - j,
    {
        if bucket[j].id() == key {
            return Some(j);
        }
        j = j + 1;
    }
    None
}

/// The items of buckets that all stand empty form the empty sequence.
pub proof fn lemma_concat_empty<T>(buckets: Seq<Seq<T>>)
    requires
        forall|b: int| 0 <= b < buckets.len() ==> (#[trigger] buckets[b]).len() == 0,
    ensures
        concat(buckets) =~= Seq::<T>::empty(),
    decreases buckets.len(),
{
    if buckets.len() > 0 {
        lemma_concat_empty(buckets.drop_last());
    }
}

/// Within the first `n` buckets, the `p`th item of bucket `b` stands right after the items
/// of the buckets before `b`.
pub proof fn lemma_concat_index<T>(buckets: Seq<Seq<T>>, n: int, b: int, p: int)
    requires
        0 <= b < n <= buckets.len(),
        0 <= p < buckets[b].len(),
    ensures
        concat(buckets.take(b)).len() + p < concat(buckets.take(n)).len(),
        concat(buckets.take(n))[concat(buckets.take(b)).len() + p] == buckets[b][p],
    decreases n,
{
    if n == b + 1 {
        lemma_concat_take(buckets, b);
    } else {
        lemma_concat_index(buckets, n - 1, b, p);
        lemma_concat_take(buckets, n - 1);
    }
}

/// The identifiers of two sequences put together.
pub proof fn lemma_ids_of_add<T: Mappable>(a: Seq<T>, b: Seq<T>)
    ensures
        ids_of(a + b) == ids_of(a) + ids_of(b),
{
    assert(ids_of(a + b) =~= ids_of(a) + ids_of(b));
}

/// What a change made through `get_mut` does: `get_mut(key)` finds an item exactly when
/// `get(key)` does, the item it hands out carries `key`, and once the caller has changed
/// that item without changing its identifier, the map is well formed, holds the same
/// identifiers and count, and a later `get(key)` gives the changed item.
pub proof fn lemma_replace_in_place<T: Mappable>(old_map: IdMap<T>, new_map: IdMap<T>, key: isize)
    requires
        old_map.wf(),
        old_map@.contains_key(key),
        new_map.spec_next_id() == old_map.spec_next_id(),
        new_map.spec_count() == old_map.spec_count(),
        new_map.buckets() == old_map.buckets().update(
            bucket_of(key),
            old_map.buckets()[bucket_of(key)].update(
                old_map.position(key),
                new_map.buckets()[bucket_of(key)][old_map.position(key)],
            ),
        ),
        new_map.buckets()[bucket_of(key)][old_map.position(key)].spec_id() == key,
    ensures
        #[trigger] new_map.wf(),
        new_map@ == old_map@.insert(key, new_map.buckets()[bucket_of(key)][#[trigger] old_map.position(key)]),
        old_map@[key].spec_id() == key,
        new_map@.dom() == old_map@.dom(),
        new_map.spec_count() == old_map.spec_count(),
{
    old_map.lemma_key_range(key);
    let h = bucket_of(key);
    let p = old_map.position(key);
    let v = new_map.buckets()[h][p];
    assert(new_map.data@.len() == HASH_SIZE) by {
        assert(new_map.buckets().len() == new_map.data@.len());
    }
    assert forall|b: int| 0 <= b < HASH_SIZE implies #[trigger] new_map.data@[b]@ == new_map.buckets()[b]
        && old_map.data@[b]@ == old_map.buckets()[b] by {}
    assert(new_map.entries().len() == old_map.entries().len()) by {
        lemma_concat_update_len(old_map.buckets(), h, old_map.buckets()[h].update(p, v));
    }
    assert forall|b: int, j: int|
        #![trigger new_map.data@[b]@[j]]
        new_map.valid_pos(b, j) implies old_map.valid_pos(b, j) && (!(b == h && j == p) ==> new_map.data@[b]@[j] == old_map.data@[b]@[j])
            && new_map.data@[b]@[j].spec_id() == old_map.data@[b]@[j].spec_id() by {
    }
    assert forall|b1: int, j1: int, b2: int, j2: int|
        #![trigger new_map.data@[b1]@[j1], new_map.data@[b2]@[j2]]
        new_map.valid_pos(b1, j1) && new_map.valid_pos(b2, j2) && new_map.data@[b1]@[j1].spec_id()
            == new_map.data@[b2]@[j2].spec_id() implies b1 == b2 && j1 == j2 by {
        assert(old_map.data@[b1]@[j1].spec_id() == old_map.data@[b2]@[j2].spec_id());
    }
    assert(new_map.wf());
    assert forall|k: isize| #[trigger] new_map@.contains_key(k) == old_map@.contains_key(k) by {
        if new_map@.contains_key(k) {
            new_map.lemma_key_range(k);
            old_map.lemma_view_at(bucket_of(k), new_map.position(k));
        } else if old_map@.contains_key(k) {
            old_map.lemma_key_range(k);
            new_map.lemma_view_at(bucket_of(k), old_map.position(k));
        }
    }
    assert forall|k: isize| #[trigger] new_map@.contains_key(k) implies new_map@[k] == old_map@.insert(key, v)[k] by {
        new_map.lemma_key_range(k);
        new_map.lemma_view_at(bucket_of(k), new_map.position(k));
        old_map.lemma_view_at(bucket_of(k), new_map.position(k));
    }
    assert(new_map@ =~= old_map@.insert(key, v));
    assert(new_map@.dom() =~= old_map@.dom());
}

/// A change made through `get_mut(key)` that keeps the item's identifier leaves the map
/// well formed, with the changed item under `key` and every other item as it was.
pub proof fn lemma_get_mut_change<T: Mappable>(old_map: IdMap<T>, new_map: IdMap<T>, key: isize, v: T)
    requires
        old_map.wf(),
        old_map@.contains_key(key),
        new_map.spec_next_id() == old_map.spec_next_id(),
        new_map.spec_count() == old_map.spec_count(),
        new_map.buckets() == old_map.buckets().update(
            bucket_of(key),
            old_map.buckets()[bucket_of(key)].update(old_map.position(key), v),
        ),
        v.spec_id() == key,
    ensures
        new_map.wf(),
        new_map@ == old_map@.insert(key, v),
{
    old_map.lemma_key_range(key);
    assert(old_map.buckets().len() == HASH_SIZE);
    assert(old_map.buckets()[bucket_of(key)] == old_map.data@[bucket_of(key)]@);
    assert(new_map.buckets()[bucket_of(key)][old_map.position(key)] == v);
    lemma_replace_in_place(old_map, new_map, key);
}

/// `new_map` is `old_map` with the item stored under `key`, which it holds, replaced in
/// place by `v`.
pub open spec fn changed_in_place<T: Mappable>(old_map: IdMap<T>, new_map: IdMap<T>, key: isize, v: T) -> bool {
    &&& old_map.wf()
    &&& old_map@.contains_key(key)
    &&& new_map.spec_next_id() == old_map.spec_next_id()
    &&& new_map.spec_count() == old_map.spec_count()
    &&& new_map.buckets() =~~= old_map.buckets().update(
        bucket_of(key),
        old_map.buckets()[bucket_of(key)].update(old_map.position(key), v),
    )
}

/// `lemma_get_mut_change` for every change of the item under `key`.
proof fn lemma_get_mut_changes<T: Mappable>(old_map: IdMap<T>, key: isize)
    ensures
        forall|new_map: IdMap<T>, v: T|
            #[trigger] changed_in_place(old_map, new_map, key, v) && v.spec_id() == key ==> new_map.wf() && new_map@
                == old_map@.insert(key, v),
{
    assert forall|new_map: IdMap<T>, v: T|
        #[trigger] changed_in_place(old_map, new_map, key, v) && v.spec_id() == key implies new_map.wf() && new_map@
            == old_map@.insert(key, v) by {
        lemma_get_mut_change(old_map, new_map, key, v);
    }
}

impl<T: Mappable> IdMap<T> {
    /// The buckets, each as a sequence.
    pub closed spec fn buckets(&self) -> Seq<Seq<T>> {
        self.data@.map_values(|v: Vec<T>| v@)
    }

    /// Every stored item, bucket 0 first, each bucket in insertion order.
    pub closed spec fn entries(&self) -> Seq<T> {
        concat(self.buckets())
    }

    /// The identifier that the next `insert` hands out.
    pub closed spec fn spec_next_id(&self) -> isize {
        self.next_id
    }

    /// Whether an item with identifier `k` is stored.
    pub closed spec fn has_key(&self, k: isize) -> bool {
        exists|j: int| #![trigger self.data@[bucket_of(k)]@[j]]
            self.valid_pos(bucket_of(k), j) && self.data@[bucket_of(k)]@[j].spec_id() == k
    }

    /// Where in its bucket the item with identifier `k` stands.
    pub closed spec fn position(&self, k: isize) -> int {
        choose|j: int| #![trigger self.data@[bucket_of(k)]@[j]]
            self.valid_pos(bucket_of(k), j) && self.data@[bucket_of(k)]@[j].spec_id() == k
    }

    /// The stored items by identifier.
    /// The stored item count that `count` reports.
    pub closed spec fn spec_count(&self) -> usize {
        self.count
    }

    pub closed spec fn view(&self) -> vstd::map::Map<isize, T> {
        vstd::map::Map::new(
            |k: isize| self.has_key(k),
            |k: isize| self.data@[bucket_of(k)]@[self.position(k)],
        )
    }

    spec fn valid_pos(&self, b: int, j: int) -> bool {
        0 <= b < HASH_SIZE && 0 <= j < self.data@[b]@.len()
    }

    /// The well-formedness of a map.
    pub closed spec fn wf(&self) -> bool {
        &&& self.data@.len() == HASH_SIZE
        &&& self.count == self.entries().len()
        &&& self.count <= (if self.next_id >= 0 { self.next_id as int } else { 0 })
        &&& forall|b: int, j: int|
            #![trigger self.data@[b]@[j]]
            self.valid_pos(b, j) ==> {
                let id = self.data@[b]@[j].spec_id();
                &&& 0 <= id < self.next_id
                &&& bucket_of(id) == b
            }
        &&& forall|b1: int, j1: int, b2: int, j2: int|
            #![trigger self.data@[b1]@[j1], self.data@[b2]@[j2]]
            self.valid_pos(b1, j1) && self.valid_pos(b2, j2) && self.data@[b1]@[j1].spec_id()
                == self.data@[b2]@[j2].spec_id() ==> b1 == b2 && j1 == j2
    }

    /// Where an identifier is found, the view gives the item at that place.
    proof fn lemma_view_at(&self, b: int, j: int)
        requires
            self.wf(),
            self.valid_pos(b, j),
        ensures
            self@.contains_key(self.data@[b]@[j].spec_id()),
            self@[self.data@[b]@[j].spec_id()] == self.data@[b]@[j],
            self.position(self.data@[b]@[j].spec_id()) == j,
            bucket_of(self.data@[b]@[j].spec_id()) == b,
    {
        let k = self.data@[b]@[j].spec_id();
        assert(self.has_key(k));
        let p = self.position(k);
        assert(self.data@[bucket_of(k)]@[p].spec_id() == k);
    }

    /// Every stored identifier lies in `[0, next_id)`.
    proof fn lemma_key_range(&self, k: isize)
        requires
            self.wf(),
            self@.contains_key(k),
        ensures
            0 <= k < self.next_id,
            self.valid_pos(bucket_of(k), self.position(k)),
            self.data@[bucket_of(k)]@[self.position(k)].spec_id() == k,
    {
        assert(self.has_key(k));
        let p = self.position(k);
        assert(self.data@[bucket_of(k)]@[p].spec_id() == k);
    }

    /// An empty map whose first identifier is 0.
    pub fn new() -> (r: Self)
        ensures
            r.wf(),
            r@ == vstd::map::Map::<isize, T>::empty(),
            r.entries() == Seq::<T>::empty(),
            r.buckets() == Seq::new(HASH_SIZE as nat, |b: int| Seq::<T>::empty()),
            r.spec_count() == 0,
            r.spec_next_id() == 0,
    {
        IdMap::with_starting_index(0)
    }

    /// An empty map whose first identifier is `starting_index`.
    pub fn with_starting_index(starting_index: isize) -> (r: Self)
        ensures
            r.wf(),
            r@ == vstd::map::Map::<isize, T>::empty(),
            r.entries() == Seq::<T>::empty(),
            r.buckets() == Seq::new(HASH_SIZE as nat, |b: int| Seq::<T>::empty()),
            r.spec_count() == 0,
            r.spec_next_id() == starting_index,
    {
        let mut data: Vec<Vec<T>> = Vec::new();
        let mut i: usize = 0;
        while i < HASH_SIZE
            invariant
                i <= HASH_SIZE,
                data@.len() == i,
                forall|b: int| 0 <= b < i ==> (#[trigger] data@[b])@.len() == 0,
            decreases HASH_SIZE - i,
        {
            data.push(Vec::new());
            i = i + 1;
        }
        let r = IdMap { data, count: 0, next_id: starting_index };
        proof {
            assert forall|b: int| 0 <= b < r.buckets().len() implies (#[trigger] r.buckets()[b]).len() == 0 by {
                assert(data@[b]@.len() == 0);
            }
            r.lemma_concat_all_empty(HASH_SIZE as int);
            assert forall|b: int| 0 <= b < HASH_SIZE implies #[trigger] r.buckets()[b] =~= Seq::<T>::empty() by {
                assert(data@[b]@.len() == 0);
            }
            assert(r.buckets() =~= Seq::new(HASH_SIZE as nat, |b: int| Seq::<T>::empty()));
            assert(r.buckets().take(HASH_SIZE as int) =~= r.buckets());
            assert(r@ =~= vstd::map::Map::<isize, T>::empty());
        }
        r
    }

    /// Stores `value` under the next identifier, and returns that identifier.
    pub fn insert(&mut self, value: T) -> (id: isize)
        requires
            old(self).wf(),
            0 <= old(self).spec_next_id() < isize::MAX,
        ensures
            final(self).wf(),
            id == old(self).spec_next_id(),
            final(self).spec_next_id() == id + 1,
            final(self).spec_count() == old(self).spec_count() + 1,
            !old(self)@.contains_key(id),
            final(self)@ == old(self)@.insert(id, value.spec_with_id(id)),
            final(self).buckets() == old(self).buckets().update(
                bucket_of(id),
                old(self).buckets()[bucket_of(id)].push(value.spec_with_id(id)),
            ),
    {
        let id = self.next_id;
        let mut value = value;
        value.set_id(id);
        let ghost v = value;
        let ghost old_self = *self;
        self.next_id = self.next_id + 1;
        self.count = self.count + 1;
        let hash = (id as usize) % HASH_SIZE;
        self.data[hash].push(value);
        proof {
            assert(bucket_of(id) == hash as int);
            assert(self.buckets() =~= old_self.buckets().update(
                hash as int,
                old_self.buckets()[hash as int].push(v),
            ));
            lemma_concat_update_len(old_self.buckets(), hash as int, old_self.buckets()[hash as int].push(v));
            let newj = old_self.data@[hash as int]@.len() as int;
            assert(self.data@[hash as int]@[newj] == v);
            assert forall|b: int, j: int|
                #![trigger self.data@[b]@[j]]
                self.valid_pos(b, j) && !(b == hash && j == newj) implies old_self.valid_pos(b, j)
                    && self.data@[b]@[j] == old_self.data@[b]@[j] by {
            }
            assert(self.wf());
            if old_self@.contains_key(id) {
                old_self.lemma_key_range(id);
            }
            assert forall|k: isize| #[trigger] self@.contains_key(k) == old_self@.insert(id, v).contains_key(k) by {
                if k == id {
                    self.lemma_view_at(hash as int, newj);
                } else if self@.contains_key(k) {
                    self.lemma_key_range(k);
                    old_self.lemma_view_at(bucket_of(k), self.position(k));
                } else if old_self@.contains_key(k) {
                    old_self.lemma_key_range(k);
                    self.lemma_view_at(bucket_of(k), old_self.position(k));
                }
            }
            assert forall|k: isize| #[trigger] self@.contains_key(k) implies self@[k] == old_self@.insert(id, v)[k] by {
                if k == id {
                    self.lemma_view_at(hash as int, newj);
                } else {
                    self.lemma_key_range(k);
                    old_self.lemma_view_at(bucket_of(k), self.position(k));
                }
            }
            assert(self@ =~= old_self@.insert(id, v));
        }
        id
    }

    /// Finds where in bucket `hash` the item with identifier `key` stands.
    fn find(&self, hash: usize, key: isize) -> (r: Option<usize>)
        requires
            self.wf(),
            hash < HASH_SIZE,
        ensures
            match r {
                Some(j) => self.valid_pos(hash as int, j as int) && self.data@[hash as int]@[j as int].spec_id() == key,
                None => forall|j: int| #![trigger self.data@[hash as int]@[j]]
                    self.valid_pos(hash as int, j) ==> self.data@[hash as int]@[j].spec_id() != key,
            },
    {
        find_in(&self.data[hash], key)
    }

    /// The bucket that a lookup of `key` scans.
    fn hash_of(key: isize) -> (h: usize)
        requires
            key_addressable(key),
        ensures
            h < HASH_SIZE,
            h == bucket_of(key),
    {
        if key >= 0 {
            (key as usize) % HASH_SIZE
        } else {
            0
        }
    }

    /// Removes the item with identifier `key`, if any.
    pub fn remove(&mut self, key: isize)
        requires
            old(self).wf(),
            key_addressable(key),
        ensures
            final(self).wf(),
            final(self)@ == old(self)@.remove(key),
            final(self).spec_next_id() == old(self).spec_next_id(),
            final(self).spec_count() == old(self).spec_count() - (if old(self)@.contains_key(key) {
                1int
            } else {
                0int
            }),
            old(self)@.contains_key(key) ==> final(self).buckets() == old(self).buckets().update(
                bucket_of(key),
                old(self).buckets()[bucket_of(key)].remove(old(self).position(key)),
            ),
            !old(self)@.contains_key(key) ==> final(self).buckets() == old(self).buckets(),
    {
        if key == INVALID_ID {
            proof {
                if self@.contains_key(key) {
                    self.lemma_key_range(key);
                }
                assert(self@ =~= self@.remove(key));
            }
            return;
        }
        let hash = Self::hash_of(key);
        match self.find(hash, key) {
            None => {
                proof {
                    if self@.contains_key(key) {
                        self.lemma_key_range(key);
                    }
                    assert(self@ =~= self@.remove(key));
                }
            },
            Some(p) => {
                let ghost old_self = *self;
                proof {
                    lemma_concat_len_ge(self.buckets(), hash as int);
                }
                let _removed = self.data[hash].remove(p);
                self.count = self.count - 1;
                proof {
                    let h = hash as int;
                    let ob = old_self.data@[h]@;
                    assert(self.data@[h]@ =~= ob.remove(p as int));
                    assert(self.buckets() =~= old_self.buckets().update(h, ob.remove(p as int)));
                    lemma_concat_update_len(old_self.buckets(), h, ob.remove(p as int));
                    assert forall|b: int, j: int|
                        #![trigger self.data@[b]@[j]]
                        self.valid_pos(b, j) implies {
                            let oj = if b == h && j >= p { j + 1 } else { j };
                            old_self.valid_pos(b, oj) && self.data@[b]@[j] == old_self.data@[b]@[oj]
                        } by {
                    }
                    assert forall|b1: int, j1: int, b2: int, j2: int|
                        #![trigger self.data@[b1]@[j1], self.data@[b2]@[j2]]
                        self.valid_pos(b1, j1) && self.valid_pos(b2, j2) && self.data@[b1]@[j1].spec_id()
                            == self.data@[b2]@[j2].spec_id() implies b1 == b2 && j1 == j2 by {
                        let oj1 = if b1 == h && j1 >= p { j1 + 1 } else { j1 };
                        let oj2 = if b2 == h && j2 >= p { j2 + 1 } else { j2 };
                        assert(old_self.data@[b1]@[oj1] == self.data@[b1]@[j1]);
                        assert(old_self.data@[b2]@[oj2] == self.data@[b2]@[j2]);
                    }
                    assert(self.wf());
                    old_self.lemma_view_at(h, p as int);
                    assert forall|k: isize| #[trigger] self@.contains_key(k) == old_self@.remove(key).contains_key(k) by {
                        if self@.contains_key(k) {
                            self.lemma_key_range(k);
                            let j = self.position(k);
                            let oj = if bucket_of(k) == h && j >= p { j + 1 } else { j };
                            old_self.lemma_view_at(bucket_of(k), oj);
                        } else if old_self@.contains_key(k) && k != key {
                            old_self.lemma_key_range(k);
                            let oj = old_self.position(k);
                            let j = if bucket_of(k) == h && oj > p { oj - 1 } else { oj };
                            assert(self.data@[bucket_of(k)]@[j] == old_self.data@[bucket_of(k)]@[oj]);
                            self.lemma_view_at(bucket_of(k), j);
                        }
                    }
                    assert forall|k: isize| #[trigger] self@.contains_key(k) implies self@[k] == old_self@.remove(key)[k] by {
                        self.lemma_key_range(k);
                        let j = self.position(k);
                        let oj = if bucket_of(k) == h && j >= p { j + 1 } else { j };
                        old_self.lemma_view_at(bucket_of(k), oj);
                    }
                    assert(self@ =~= old_self@.remove(key));
                }
            },
        }
    }

    /// The item with identifier `key`, if any.
    pub fn get(&self, key: isize) -> (r: Option<&T>)
        requires
            self.wf(),
            key_addressable(key),
        ensures
            match r {
                Some(v) => self@.contains_key(key) && *v == self@[key],
                None => !self@.contains_key(key),
            },
    {
        if key == INVALID_ID {
            proof {
                if self@.contains_key(key) {
                    self.lemma_key_range(key);
                }
            }
            return None;
        }
        let hash = Self::hash_of(key);
        match self.find(hash, key) {
            None => {
                proof {
                    if self@.contains_key(key) {
                        self.lemma_key_range(key);
                    }
                }
                None
            },
            Some(j) => {
                proof {
                    self.lemma_view_at(hash as int, j as int);
                }
                Some(&self.data[hash][j])
            },
        }
    }

    /// The item with identifier `key`, if any, for changing in place.
    pub fn get_mut(&mut self, key: isize) -> (r: Option<&mut T>)
        requires
            old(self).wf(),
            key_addressable(key),
        ensures
            final(self).spec_next_id() == old(self).spec_next_id(),
            final(self).spec_count() == old(self).spec_count(),
            r matches Some(v) ==> old(self)@.contains_key(key) && *v == old(self)@[key],
            r matches Some(v) ==> final(self).buckets() == old(self).buckets().update(
                bucket_of(key),
                old(self).buckets()[bucket_of(key)].update(old(self).position(key), *final(v)),
            ),
            r is None ==> !old(self)@.contains_key(key) && *final(self) == *old(self),
            r matches Some(v) ==> (final(v).spec_id() == key ==> final(self).wf() && final(self)@ == old(
                self,
            )@.insert(key, *final(v))),
    {
        proof {
            lemma_get_mut_changes(*self, key);
        }
        self.find_mut(key)
    }

    /// The item with identifier `key`, if any, for changing in place: where it stands in
    /// its bucket.
    fn find_mut(&mut self, key: isize) -> (r: Option<&mut T>)
        requires
            old(self).wf(),
            key_addressable(key),
        ensures
            final(self).spec_next_id() == old(self).spec_next_id(),
            final(self).spec_count() == old(self).spec_count(),
            r matches Some(v) ==> old(self)@.contains_key(key) && *v == old(self)@[key],
            r matches Some(v) ==> final(self).buckets() == old(self).buckets().update(
                bucket_of(key),
                old(self).buckets()[bucket_of(key)].update(old(self).position(key), *final(v)),
            ),
            r is None ==> !old(self)@.contains_key(key) && *final(self) == *old(self),
            r matches Some(v) ==> changed_in_place(*old(self), *final(self), key, *final(v)),
    {
        if key == INVALID_ID {
            proof {
                if self@.contains_key(key) {
                    self.lemma_key_range(key);
                }
            }
            return None;
        }
        let hash = Self::hash_of(key);
        match self.find(hash, key) {
            None => {
                proof {
                    if self@.contains_key(key) {
                        self.lemma_key_range(key);
                    }
                }
                None
            },
            Some(j) => {
                proof {
                    self.lemma_view_at(hash as int, j as int);
                }
                Some(&mut self.data[hash][j])
            },
        }
    }

    /// What `remove_all_except(key)` leaves in bucket `b`.
    pub open spec fn kept_bucket(&self, key: isize, b: int) -> Seq<T> {
        if self@.contains_key(key) && b == bucket_of(key) {
            seq![self@[key]]
        } else {
            Seq::empty()
        }
    }

    /// Removes every item but the one with identifier `key`.
    pub fn remove_all_except(&mut self, key: isize)
        requires
            old(self).wf(),
        ensures
            final(self).wf(),
            final(self).spec_next_id() == old(self).spec_next_id(),
            final(self)@ == (if old(self)@.contains_key(key) {
                vstd::map::Map::<isize, T>::empty().insert(key, old(self)@[key])
            } else {
                vstd::map::Map::<isize, T>::empty()
            }),
            final(self).buckets() == Seq::new(HASH_SIZE as nat, |b: int| old(self).kept_bucket(key, b)),
            final(self).spec_count() == (if old(self)@.contains_key(key) {
                1int
            } else {
                0int
            }),
    {
        let ghost old_self = *self;
        let ghost has = old_self@.contains_key(key);
        proof {
            if has {
                old_self.lemma_key_range(key);
                old_self.lemma_view_at(bucket_of(key), old_self.position(key));
            }
        }
        let mut new_count: usize = 0;
        let mut b: usize = 0;
        while b < HASH_SIZE
            invariant
                old_self.wf(),
                has == old_self@.contains_key(key),
                has ==> 0 <= key < old_self.spec_next_id(),
                self.next_id == old_self.next_id,
                self.data@.len() == HASH_SIZE,
                b <= HASH_SIZE,
                forall|bb: int| 0 <= bb < b ==> (#[trigger] self.data@[bb])@ == old_self.kept_bucket(key, bb),
                forall|bb: int| b <= bb < HASH_SIZE ==> (#[trigger] self.data@[bb]) == old_self.data@[bb],
                new_count == (if has && bucket_of(key) < b { 1int } else { 0int }),
            decreases HASH_SIZE - b,
        {
            let found = find_in(&self.data[b], key);
            proof {
                if has && bucket_of(key) == b {
                    old_self.lemma_key_range(key);
                }
            }
            match found {
                Some(p) => {
                    proof {
                        old_self.lemma_view_at(b as int, p as int);
                    }
                    let item = self.data[b].remove(p);
                    self.data[b].clear();
                    self.data[b].push(item);
                    proof {
                        assert(self.data@[b as int]@ =~= old_self.kept_bucket(key, b as int));
                    }
                },
                None => {
                    self.data[b].clear();
                    proof {
                        assert(self.data@[b as int]@ =~= old_self.kept_bucket(key, b as int));
                    }
                },
            }
            new_count = new_count + self.data[b].len();
            b = b + 1;
        }
        self.count = new_count;
        proof {
            let target = Seq::new(HASH_SIZE as nat, |bb: int| old_self.kept_bucket(key, bb));
            assert(self.buckets() =~= target);
            let empties = Seq::new(HASH_SIZE as nat, |bb: int| Seq::<T>::empty());
            lemma_concat_empty(empties);
            if has {
                assert(target =~= empties.update(bucket_of(key), seq![old_self@[key]]));
                lemma_concat_update_len(empties, bucket_of(key), seq![old_self@[key]]);
            } else {
                assert(target =~= empties);
            }
            assert forall|b1: int, j1: int|
                #![trigger self.data@[b1]@[j1]]
                self.valid_pos(b1, j1) implies has && b1 == bucket_of(key) && j1 == 0
                    && self.data@[b1]@[j1] == old_self@[key] by {
            }
            assert(self.wf());
            let expected = if has {
                vstd::map::Map::<isize, T>::empty().insert(key, old_self@[key])
            } else {
                vstd::map::Map::<isize, T>::empty()
            };
            assert forall|k: isize| #[trigger] self@.contains_key(k) == expected.contains_key(k) by {
                if self@.contains_key(k) {
                    self.lemma_key_range(k);
                } else if has && k == key {
                    self.lemma_view_at(bucket_of(key), 0);
                }
            }
            assert forall|k: isize| #[trigger] self@.contains_key(k) implies self@[k] == expected[k] by {
                self.lemma_key_range(k);
            }
            assert(self@ =~= expected);
        }
    }

    /// The identifiers of all stored items, in the order of `entries`.
    pub fn ids(&self) -> (r: Vec<isize>)
        requires
            self.wf(),
        ensures
            r@ == ids_of(self.entries()),
    {
        let mut ids: Vec<isize> = Vec::with_capacity(self.count);
        let mut b: usize = 0;
        while b < HASH_SIZE
            invariant
                self.wf(),
                b <= HASH_SIZE,
                ids@ == ids_of(concat(self.buckets().take(b as int))),
            decreases HASH_SIZE - b,
        {
            let bucket = &self.data[b];
            let mut j: usize = 0;
            while j < bucket.len()
                invariant
                    self.wf(),
                    b < HASH_SIZE,
                    bucket@ == self.buckets()[b as int],
                    j <= bucket@.len(),
                    ids@ == ids_of(concat(self.buckets().take(b as int)) + bucket@.take(j as int)),
                decreases bucket@.len() - j,
            {
                let id = bucket[j].id();
                ids.push(id);
                proof {
                    let pre = concat(self.buckets().take(b as int));
                    lemma_ids_of_add(pre, bucket@.take(j as int));
                    lemma_ids_of_add(pre, bucket@.take(j + 1));
                    assert(bucket@.take(j + 1) =~= bucket@.take(j as int).push(bucket@[j as int]));
                    assert(ids_of(bucket@.take(j + 1)) =~= ids_of(bucket@.take(j as int)).push(id));
                }
                j = j + 1;
            }
            proof {
                lemma_concat_take(self.buckets(), b as int);
                assert(bucket@.take(j as int) =~= bucket@);
            }
            b = b + 1;
        }
        proof {
            assert(self.buckets().take(HASH_SIZE as int) =~= self.buckets());
        }
        ids
    }

    /// A walk over the stored items, in the order of `entries`.
    pub fn iter<'a>(&'a self) -> (r: MapIterator<'a, T>)
        requires
            self.wf(),
        ensures
            r.wf(),
            r.spec_map() == *self,
            r.consumed() == 0,
    {
        let r = MapIterator { map: self, index: 0, position: 0 };
        proof {
            assert(self.buckets().take(0) =~= Seq::<Seq<T>>::empty());
        }
        r
    }

    /// How a map lays out its items: `entries` is its buckets one after the other; the item
    /// with identifier `id` stands in bucket `id % HASH_SIZE`, and each item in a bucket is
    /// the one the map holds under its identifier; the count is the number of items.
    pub proof fn lemma_entries(&self)
        requires
            self.wf(),
        ensures
            self.entries() == concat(self.buckets()),
            self.buckets().len() == HASH_SIZE,
            self.spec_count() == self.entries().len(),
            forall|b: int, j: int|
                0 <= b < HASH_SIZE && 0 <= j < self.buckets()[b].len() ==> {
                    let id = (#[trigger] self.buckets()[b][j]).spec_id();
                    &&& bucket_of(id) == b
                    &&& self@.contains_key(id)
                    &&& self@[id] == self.buckets()[b][j]
                },
            forall|k: isize|
                #[trigger] self@.contains_key(k) ==> self.buckets()[bucket_of(k)].contains(self@[k]),
    {
        assert forall|b: int, j: int|
            0 <= b < HASH_SIZE && 0 <= j < self.buckets()[b].len() implies {
                let id = (#[trigger] self.buckets()[b][j]).spec_id();
                &&& bucket_of(id) == b
                &&& self@.contains_key(id)
                &&& self@[id] == self.buckets()[b][j]
            } by {
            assert(self.buckets()[b] == self.data@[b]@);
            self.lemma_view_at(b, j);
        }
        assert forall|k: isize| #[trigger] self@.contains_key(k) implies self.buckets()[bucket_of(k)].contains(
            self@[k],
        ) by {
            self.lemma_key_range(k);
            let p = self.position(k);
            assert(self.buckets()[bucket_of(k)] == self.data@[bucket_of(k)]@);
            assert(self.buckets()[bucket_of(k)][p] == self@[k]);
        }
    }

    /// The number of stored items.
    pub fn count(&self) -> (r: usize)
        requires
            self.wf(),
        ensures
            r == self.entries().len(),
            r == self.spec_count(),
    {
        self.count
    }

    proof fn lemma_concat_all_empty(&self, n: int)
        requires
            0 <= n <= self.buckets().len(),
            forall|b: int| 0 <= b < self.buckets().len() ==> (#[trigger] self.buckets()[b]).len() == 0,
        ensures
            concat(self.buckets().take(n)) =~= Seq::<T>::empty(),
        decreases n,
    {
        if n > 0 {
            self.lemma_concat_all_empty(n - 1);
            lemma_concat_take(self.buckets(), n - 1);
        }
    }
}

impl<'a, T: Mappable> MapIterator<'a, T> {
    /// The map being walked.
    pub closed spec fn spec_map(&self) -> IdMap<T> {
        *self.map
    }

    /// How many items the walk has handed out.
    pub closed spec fn consumed(&self) -> int {
        if self.index < HASH_SIZE {
            concat(self.map.buckets().take(self.index as int)).len() + self.position
        } else {
            self.map.entries().len() as int
        }
    }

    pub closed spec fn wf(&self) -> bool {
        &&& self.map.wf()
        &&& self.index <= HASH_SIZE
        &&& self.index < HASH_SIZE ==> self.position <= self.map.buckets()[self.index as int].len()
    }

    /// The next item of the walk, if any is left.
    pub fn next(&mut self) -> (r: Option<&'a T>)
        requires
            old(self).wf(),
        ensures
            final(self).wf(),
            final(self).spec_map() == old(self).spec_map(),
            old(self).consumed() < old(self).spec_map().entries().len() ==> {
                &&& r matches Some(v)
                &&& *v == old(self).spec_map().entries()[old(self).consumed()]
                &&& final(self).consumed() == old(self).consumed() + 1
            },
            old(self).consumed() >= old(self).spec_map().entries().len() ==> r is None
                && final(self).consumed() == old(self).consumed(),
    {
        let ghost start = self.consumed();
        proof {
            self.lemma_consumed_bound();
        }
        while self.index < HASH_SIZE
            invariant
                self.wf(),
                self.map == old(self).map,
                self.consumed() == start,
                start == old(self).consumed(),
                start <= self.map.entries().len(),
            decreases HASH_SIZE - self.index, self.map.buckets()[self.index as int].len() - self.position,
        {
            let bucket = &self.map.data[self.index];
            if self.position < bucket.len() {
                let r = &bucket[self.position];
                proof {
                    let bs = self.map.buckets();
                    lemma_concat_index(bs, HASH_SIZE as int, self.index as int, self.position as int);
                    assert(bs.take(HASH_SIZE as int) =~= bs);
                    assert(self.map.entries() == concat(bs));
                    assert(start == concat(bs.take(self.index as int)).len() + self.position);
                    assert(start < self.map.entries().len());
                    assert(*r == bs[self.index as int][self.position as int]);
                    assert(*r == self.map.entries()[start]);
                }
                self.position = self.position + 1;
                proof {
                    self.lemma_consumed_bound();
                }
                return Some(r);
            } else {
                proof {
                    lemma_concat_take(self.map.buckets(), self.index as int);
                    assert(self.map.buckets().take(HASH_SIZE as int) =~= self.map.buckets());
                }
                self.index = self.index + 1;
                self.position = 0;
            }
        }
        None
    }

    proof fn lemma_consumed_bound(&self)
        requires
            self.wf(),
        ensures
            self.consumed() <= self.map.entries().len(),
    {
        if self.index < HASH_SIZE {
            let bs = self.map.buckets();
            let i = self.index as int;
            assert(bs.take(HASH_SIZE as int) =~= bs);
            self.lemma_prefix_len(i + 1, HASH_SIZE as int);
            lemma_concat_take(bs, i);
        }
    }

    proof fn lemma_prefix_len(&self, m: int, n: int)
        requires
            self.wf(),
            0 <= m <= n <= HASH_SIZE,
        ensures
            concat(self.map.buckets().take(m)).len() <= concat(self.map.buckets().take(n)).len(),
        decreases n - m,
    {
        if m < n {
            self.lemma_prefix_len(m, n - 1);
            lemma_concat_take(self.map.buckets(), n - 1);
        }
    }
}

impl<T> MappedItem<T> {
    /// Pairs `data` with the invalid identifier.
    pub fn new(data: T) -> (r: Self)
        ensures
            r.spec_id() == INVALID_ID,
            r.value() == data,
    {
        MappedItem { data, id: INVALID_ID }
    }

    /// The wrapped item.
    pub closed spec fn value(&self) -> T {
        self.data
    }

    /// The wrapped item, for changing in place.
    pub fn data_mut(&mut self) -> (r: &mut T)
        ensures
            *r == old(self).value(),
            final(self).value() == *final(r),
            final(self).spec_id() == old(self).spec_id(),
    {
        &mut self.data
    }
}

impl<T> core::ops::Deref for MappedItem<T> {
    type Target = T;

    fn deref(&self) -> (r: &T)
        ensures
            *r == self.value(),
    {
        &self.data
    }
}

impl<T> Mappable for MappedItem<T> {
    closed spec fn spec_id(&self) -> isize {
        self.id
    }

    closed spec fn spec_with_id(self, id: isize) -> Self {
        MappedItem { data: self.data, id }
    }

    fn id(&self) -> (r: isize) {
        self.id
    }

    fn set_id(&mut self, id: isize) {
        self.id = id
    }
}


/// Every item a map holds carries the identifier it is stored under, and every identifier
/// in use lies below the next one to be handed out.
pub proof fn lemma_stored_ids<T: Mappable>(m: IdMap<T>)
    requires
        m.wf(),
    ensures
        forall|k: isize| #[trigger] m@.contains_key(k) ==> m@[k].spec_id() == k && 0 <= k < m.spec_next_id(),
{
    assert forall|k: isize| #[trigger] m@.contains_key(k) implies m@[k].spec_id() == k && 0 <= k < m.spec_next_id() by {
        m.lemma_key_range(k);
    }
}

/// A read gives back what an insert stored, and removing what was inserted gives back the
/// map as it was: after `insert` hands out `id` for `value`, the map holds `value` (carrying
/// `id`) under `id`, every other identifier as before, and removing `id` restores it.
pub proof fn lemma_insert_get_remove<T: Mappable>(before: IdMap<T>, after: IdMap<T>, id: isize, value: T)
    requires
        !before@.contains_key(id),
        after@ == before@.insert(id, value.spec_with_id(id)),
    ensures
        after@.contains_key(id),
        after@[id] == value.spec_with_id(id),
        forall|k: isize| k != id ==> (#[trigger] after@.contains_key(k) <==> before@.contains_key(k)),
        forall|k: isize| k != id && #[trigger] before@.contains_key(k) ==> after@[k] == before@[k],
        after@.remove(id) == before@,
{
    assert(after@.remove(id) =~= before@);
}

/// Giving a wrapped item an identifier keeps the item: `set_id(id)` leaves the same data,
/// now carrying `id`.
pub proof fn lemma_with_id<T>(item: MappedItem<T>, id: isize)
    ensures
        item.spec_with_id(id).value() == item.value(),
        item.spec_with_id(id).spec_id() == id,
{
}

/// Identifiers are handed out in increasing order and never again: along any run of maps
/// in which each step keeps or raises the next identifier (as every operation does), an
/// identifier handed out by an insert at step `i` lies below the one handed out at a later
/// step `j`, and the map at step `j` holds no item under the identifier it hands out.
pub proof fn lemma_ids_never_reused<T: Mappable>(maps: Seq<IdMap<T>>, i: int, j: int)
    requires
        0 <= i < j < maps.len() - 1,
        forall|t: int| 0 <= t < maps.len() - 1 ==> (#[trigger] maps[t + 1]).spec_next_id() >= maps[t].spec_next_id(),
        maps[i + 1].spec_next_id() == maps[i].spec_next_id() + 1,
        maps[j].wf(),
    ensures
        maps[i].spec_next_id() < maps[j].spec_next_id(),
        !maps[j]@.contains_key(maps[j].spec_next_id()),
    decreases j - i,
{
    if j > i + 1 {
        lemma_next_id_monotone(maps, i + 1, j);
    }
    if maps[j]@.contains_key(maps[j].spec_next_id()) {
        maps[j].lemma_key_range(maps[j].spec_next_id());
    }
}

/// Along a run of maps in which each step keeps or raises the next identifier, it never
/// falls.
proof fn lemma_next_id_monotone<T: Mappable>(maps: Seq<IdMap<T>>, a: int, b: int)
    requires
        0 <= a <= b < maps.len(),
        forall|t: int| 0 <= t < maps.len() - 1 ==> (#[trigger] maps[t + 1]).spec_next_id() >= maps[t].spec_next_id(),
    ensures
        maps[a].spec_next_id() <= maps[b].spec_next_id(),
    decreases b - a,
{
    if a < b {
        lemma_next_id_monotone(maps, a, b - 1);
        assert(maps[(b - 1) + 1].spec_next_id() >= maps[b - 1].spec_next_id());
    }
}


/// The count a map reports is the number of items a walk over it hands out and the number
/// of identifiers `ids` lists.
pub proof fn lemma_count_is_walk<T: Mappable>(m: IdMap<T>)
    requires
        m.wf(),
    ensures
        m.spec_count() == m.entries().len(),
        ids_of(m.entries()).len() == m.spec_count(),
{
    m.lemma_entries();
}

/// How many of the first `t` steps of a run are inserts.
pub open spec fn inserts_before(inserts: Seq<bool>, t: int) -> int
    decreases t,
{
    if t <= 0 {
        0
    } else {
        inserts_before(inserts, t - 1) + if inserts[t - 1] {
            1int
        } else {
            0int
        }
    }
}

/// Identifiers are handed out in order from the starting one: along a run of maps in which
/// step `k` is an insert when `inserts[k]` holds (raising the next identifier by one, as
/// `insert` does) and otherwise keeps the next identifier (as `remove`,
/// `remove_all_except` and `get_mut` do), the next identifier at step `t` is the starting
/// one plus the number of inserts before it; so the insert at step `t` hands out that
/// identifier.
pub proof fn lemma_ids_in_order<T: Mappable>(maps: Seq<IdMap<T>>, inserts: Seq<bool>, t: int)
    requires
        maps.len() == inserts.len() + 1,
        forall|k: int|
            0 <= k < inserts.len() ==> (#[trigger] maps[k + 1]).spec_next_id() == maps[k].spec_next_id() + if inserts[k] {
                1int
            } else {
                0int
            },
        0 <= t < maps.len(),
    ensures
        maps[t].spec_next_id() == maps[0].spec_next_id() + inserts_before(inserts, t),
    decreases t,
{
    if t > 0 {
        lemma_ids_in_order(maps, inserts, t - 1);
        assert(maps[(t - 1) + 1].spec_next_id() == maps[t - 1].spec_next_id() + if inserts[t - 1] {
            1int
        } else {
            0int
        });
    }
}
} // verus!
