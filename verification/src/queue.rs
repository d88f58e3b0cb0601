use vstd::prelude::*;
use vstd::std_specs::cmp::PartialEqIs;
use vstd::std_specs::cmp::PartialEqSpec;
use vstd::std_specs::cmp::PartialOrdSpec;
use vstd::std_specs::cmp::PartialOrdIs;

verus! {

struct Node<T> {
    next: Option<Box<Node<T>>>,
    data: T,
}

struct SortedNode<I, T> {
    next: Option<Box<SortedNode<I, T>>>,
    data: T,
    value: I,
}

/// A first-in first-out queue, kept as a singly linked list.
pub struct Queue<T: PartialEq> {
    head: Option<Box<Node<T>>>,
    length: usize,
}

/// A queue ordered by a key: each item goes behind every item whose key is not
/// greater than its own.
pub struct SortedQueue<I: PartialOrd, T: PartialEq> {
    head: Option<Box<SortedNode<I, T>>>,
    length: usize,
}

spec fn nodes<T>(node: Option<Box<Node<T>>>) -> Seq<T>
    decreases node,
{
    match node {
        None => Seq::empty(),
        Some(n) => seq![n.data] + nodes(n.next),
    }
}

spec fn sorted_nodes<I, T>(node: Option<Box<SortedNode<I, T>>>) -> Seq<(I, T)>
    decreases node,
{
    match node {
        None => Seq::empty(),
        Some(n) => seq![(n.value, n.data)] + sorted_nodes(n.next),
    }
}

/// The first index at or after `from` whose item equals `value`, as `eq` judges.
pub open spec fn first_equal<T: PartialEq>(s: Seq<T>, value: T, from: int) -> int
    decreases s.len() - from,
{
    if from >= s.len() {
        s.len() as int
    } else if s[from].is_eq(&value) {
        from
    } else {
        first_equal(s, value, from + 1)
    }
}

/// The first index at or after `from` whose key is greater than `value`.
pub open spec fn first_greater<I: PartialOrd, T>(s: Seq<(I, T)>, value: I, from: int) -> int
    decreases s.len() - from,
{
    if from >= s.len() {
        s.len() as int
    } else if s[from].0.is_gt(&value) {
        from
    } else {
        first_greater(s, value, from + 1)
    }
}

/// The item data of a sequence of keyed items.
pub open spec fn data_of<I, T>(s: Seq<(I, T)>) -> Seq<T> {
    s.map_values(|p: (I, T)| p.1)
}

proof fn lemma_first_equal_range<T: PartialEq>(s: Seq<T>, value: T, from: int)
    requires
        0 <= from <= s.len(),
    ensures
        from <= first_equal(s, value, from) <= s.len(),
        first_equal(s, value, from) < s.len() ==> s[first_equal(s, value, from)].is_eq(&value),
        forall|i: int| from <= i < first_equal(s, value, from) ==> !(#[trigger] s[i]).is_eq(&value),
    decreases s.len() - from,
{
    if from < s.len() && !s[from].is_eq(&value) {
        lemma_first_equal_range(s, value, from + 1);
    }
}

proof fn lemma_first_greater_range<I: PartialOrd, T>(s: Seq<(I, T)>, value: I, from: int)
    requires
        0 <= from <= s.len(),
    ensures
        from <= first_greater(s, value, from) <= s.len(),
        first_greater(s, value, from) < s.len() ==> s[first_greater(s, value, from)].0.is_gt(&value),
        forall|i: int| from <= i < first_greater(s, value, from) ==> !(#[trigger] s[i]).0.is_gt(&value),
    decreases s.len() - from,
{
    if from < s.len() && !s[from].0.is_gt(&value) {
        lemma_first_greater_range(s, value, from + 1);
    }
}

fn push_node<T>(node: &mut Option<Box<Node<T>>>, item: T)
    ensures
        nodes(*final(node)) == nodes(*old(node)).push(item),
    decreases *old(node),
{
    match node.take() {
        None => {
            *node = Some(Box::new(Node { next: None, data: item }));
            assert(nodes(*node) =~= seq![item]) by {
                reveal_with_fuel(nodes, 2);
            }
        },
        Some(mut n) => {
            push_node(&mut n.next, item);
            *node = Some(n);
            assert(nodes(*node) =~= nodes(*old(node)).push(item));
        },
    }
}

fn remove_node<T: PartialEq>(node: &mut Option<Box<Node<T>>>, value: &T, Ghost(from): Ghost<int>) -> (r: Option<T>)
    ensures
        match r {
            Some(x) => exists|i: int|
                0 <= i < nodes(*old(node)).len() && x == nodes(*old(node))[i]
                    && nodes(*final(node)) == nodes(*old(node)).remove(i)
                    && (T::obeys_eq_spec() ==> i == first_equal(nodes(*old(node)), *value, 0)),
            None => nodes(*final(node)) == nodes(*old(node)) && (T::obeys_eq_spec()
                ==> first_equal(nodes(*old(node)), *value, 0) == nodes(*old(node)).len()),
        },
    decreases *old(node),
{
    match node.take() {
        None => {
            None
        },
        Some(mut n) => {
            let ghost s = nodes(*old(node));
            if n.data == *value {
                *node = n.next;
                proof {
                    assert(nodes(*node) =~= s.remove(0));
                }
                Some(n.data)
            } else {
                let ghost orig_next = nodes(n.next);
                proof {
                    assert(s =~= seq![n.data] + orig_next);
                }
                let r = remove_node(&mut n.next, value, Ghost(from));
                let ghost rest = nodes(n.next);
                *node = Some(n);
                proof {
                    let old_rest = orig_next;
                    assert(s.drop_first() =~= old_rest);
                    assert(s =~= seq![s[0]] + old_rest);
                    if T::obeys_eq_spec() {
                        assert(first_equal(s, *value, 0) == first_equal(s, *value, 1));
                        lemma_shift_first_equal(s, *value, 1);
                    }
                    if r is Some {
                        let x = r->0;
                        {
                            let i = choose|i: int|
                                0 <= i < old_rest.len() && x == old_rest[i] && rest == old_rest.remove(i)
                                    && (T::obeys_eq_spec() ==> i == first_equal(old_rest, *value, 0));
                            assert(nodes(*node) =~= s.remove(i + 1));
                            assert(x == s[i + 1]);
                        }
                    } else {
                        assert(nodes(*node) =~= s);
                    }
                }
                r
            }
        },
    }
}

proof fn lemma_shift_first_equal<T: PartialEq>(s: Seq<T>, value: T, from: int)
    requires
        1 <= from <= s.len(),
    ensures
        first_equal(s, value, from) == first_equal(s.drop_first(), value, from - 1) + 1,
    decreases s.len() - from,
{
    if from < s.len() && !s[from].is_eq(&value) {
        lemma_shift_first_equal(s, value, from + 1);
    }
}

impl<T: PartialEq> Queue<T> {
    /// The items, front first.
    pub closed spec fn view(&self) -> Seq<T> {
        nodes(self.head)
    }

    pub closed spec fn wf(&self) -> bool {
        self.length == nodes(self.head).len()
    }

    /// An empty queue.
    pub fn new() -> (r: Self)
        ensures
            r.wf(),
            r@ == Seq::<T>::empty(),
    {
        Queue { head: None, length: 0 }
    }

    /// Puts `new_item` at the back.
    pub fn push(&mut self, new_item: T)
        requires
            old(self).wf(),
            old(self)@.len() < usize::MAX,
        ensures
            final(self).wf(),
            final(self)@ == old(self)@.push(new_item),
    {
        push_node(&mut self.head, new_item);
        self.length = self.length + 1;
    }

    /// Takes the front item, if any.
    pub fn pop(&mut self) -> (r: Option<T>)
        requires
            old(self).wf(),
        ensures
            final(self).wf(),
            old(self)@.len() == 0 ==> r is None && final(self)@ == old(self)@,
            old(self)@.len() > 0 ==> r == Some(old(self)@[0]) && final(self)@ == old(self)@.drop_first(),
    {
        match self.head.take() {
            None => None,
            Some(head) => {
                self.head = head.next;
                self.length = self.length - 1;
                proof {
                    assert(nodes(self.head) =~= old(self)@.drop_first());
                }
                Some(head.data)
            },
        }
    }

    /// Takes out the first item that equals `value`, if any.
    pub fn remove(&mut self, value: T) -> (r: Option<T>)
        requires
            old(self).wf(),
        ensures
            final(self).wf(),
            match r {
                Some(x) => exists|i: int|
                    0 <= i < old(self)@.len() && x == old(self)@[i] && final(self)@ == old(self)@.remove(i)
                        && (T::obeys_eq_spec() ==> i == first_equal(old(self)@, value, 0)),
                None => final(self)@ == old(self)@ && (T::obeys_eq_spec() ==> first_equal(old(self)@, value, 0)
                    == old(self)@.len()),
            },
    {
        let ghost before = self@;
        let r = remove_node(&mut self.head, &value, Ghost(0));
        if r.is_some() {
            proof {
                let x = r->0;
                let i = choose|i: int|
                    0 <= i < before.len() && x == before[i] && self@ == before.remove(i)
                        && (T::obeys_eq_spec() ==> i == first_equal(before, value, 0));
                assert(0 <= i < before.len() && x == before[i] && self@ == before.remove(i));
            }
            self.length = self.length - 1;
        }
        r
    }

    /// Whether an item waits at the front.
    pub fn is_front(&self) -> (r: bool)
        requires
            self.wf(),
        ensures
            r == (self@.len() > 0),
    {
        self.head.is_some()
    }

    /// The number of queued items.
    pub fn _len(&self) -> (r: usize)
        requires
            self.wf(),
        ensures
            r == self@.len(),
    {
        self.length
    }
}

fn insert_sorted<I: PartialOrd, T>(node: &mut Option<Box<SortedNode<I, T>>>, new_item: T, value: I)
    ensures
        exists|k: int|
            0 <= k <= sorted_nodes(*old(node)).len() && sorted_nodes(*final(node)) == sorted_nodes(
                *old(node),
            ).insert(k, (value, new_item)) && (I::obeys_partial_cmp_spec() ==> k == first_greater(
                sorted_nodes(*old(node)),
                value,
                0,
            )),
    decreases *old(node),
{
    let ghost s = sorted_nodes(*old(node));
    match node.take() {
        None => {
            *node = Some(Box::new(SortedNode { next: None, data: new_item, value }));
            proof {
                reveal_with_fuel(sorted_nodes, 2);
                assert(sorted_nodes(*node) =~= s.insert(0, (value, new_item)));
            }
        },
        Some(mut n) => {
            let ghost orig_next = sorted_nodes(n.next);
            proof {
                assert(s =~= seq![(n.value, n.data)] + orig_next);
            }
            if n.value > value {
                *node = Some(Box::new(SortedNode { next: Some(n), data: new_item, value }));
                proof {
                    assert(sorted_nodes(*node) =~= s.insert(0, (value, new_item)));
                }
            } else {
                let ghost head = (n.value, n.data);
                insert_sorted(&mut n.next, new_item, value);
                let ghost rest = sorted_nodes(n.next);
                *node = Some(n);
                proof {
                    let k = choose|k: int|
                        0 <= k <= orig_next.len() && rest == orig_next.insert(k, (value, new_item))
                            && (I::obeys_partial_cmp_spec() ==> k == first_greater(orig_next, value, 0));
                    assert(sorted_nodes(*node) =~= s.insert(k + 1, (value, new_item)));
                    if I::obeys_partial_cmp_spec() {
                        assert(s.drop_first() =~= orig_next);
                        lemma_shift_first_greater(s, value, 1);
                    }
                }
            }
        },
    }
}

proof fn lemma_shift_first_greater<I: PartialOrd, T>(s: Seq<(I, T)>, value: I, from: int)
    requires
        1 <= from <= s.len(),
    ensures
        first_greater(s, value, from) == first_greater(s.drop_first(), value, from - 1) + 1,
    decreases s.len() - from,
{
    if from < s.len() && !s[from].0.is_gt(&value) {
        lemma_shift_first_greater(s, value, from + 1);
    }
}

fn remove_sorted<I: PartialOrd, T: PartialEq>(node: &mut Option<Box<SortedNode<I, T>>>, value: &T) -> (r: Option<T>)
    requires
        T::obeys_eq_spec() ==> first_equal(data_of(sorted_nodes(*old(node))), *value, 0) + 1 != sorted_nodes(
            *old(node),
        ).len(),
    ensures
        T::obeys_eq_spec() ==> ({
            let s = sorted_nodes(*old(node));
            let i = first_equal(data_of(s), *value, 0);
            if i < s.len() {
                r == Some(s[i + 1].1) && sorted_nodes(*final(node)) == s.take(i)
            } else {
                r is None && sorted_nodes(*final(node)) == s
            }
        }),
        r matches Some(x) ==> exists|i: int|
            0 <= i < sorted_nodes(*old(node)).len() - 1 && x == sorted_nodes(*old(node))[i + 1].1 && sorted_nodes(
                *final(node),
            ) == sorted_nodes(*old(node)).take(i),
        r is None ==> sorted_nodes(*final(node)) == sorted_nodes(*old(node)),
    decreases *old(node),
{
    let ghost s = sorted_nodes(*old(node));
    match node.take() {
        None => {
            None
        },
        Some(mut n) => {
            let ghost orig_next = sorted_nodes(n.next);
            proof {
                assert(s =~= seq![(n.value, n.data)] + orig_next);
                assert(data_of(s)[0] == n.data);
            }
            if n.data == *value {
                proof {
                    if T::obeys_eq_spec() {
                        assert(first_equal(data_of(s), *value, 0) == 0);
                    }
                }
                match n.next.take() {
                    Some(successor) => {
                        proof {
                            assert(s[1] == (successor.value, successor.data));
                            assert(sorted_nodes(*node) =~= s.take(0));
                        }
                        Some(successor.data)
                    },
                    None => {
                        *node = Some(n);
                        proof {
                            assert(sorted_nodes(*node) =~= s);
                        }
                        None
                    },
                }
            } else {
                proof {
                    assert(data_of(s).drop_first() =~= data_of(orig_next));
                    if T::obeys_eq_spec() {
                        lemma_shift_first_equal(data_of(s), *value, 1);
                    }
                }
                let ghost hd = (n.value, n.data);
                let r = remove_sorted(&mut n.next, value);
                let ghost rest = sorted_nodes(n.next);
                *node = Some(n);
                proof {
                    assert(sorted_nodes(*node) == seq![hd] + rest);
                    assert(s[0] == hd);
                    assert(s =~= seq![hd] + orig_next);
                    if T::obeys_eq_spec() {
                        let i = first_equal(data_of(orig_next), *value, 0);
                        lemma_first_equal_range(data_of(orig_next), *value, 0);
                        if i < orig_next.len() {
                            assert(rest == orig_next.take(i));
                            assert(s.take(i + 1) =~= seq![hd] + orig_next.take(i));
                            assert(sorted_nodes(*node) =~= s.take(i + 1));
                        } else {
                            assert(sorted_nodes(*node) =~= s);
                        }
                    }
                    if r is Some {
                        let x = r->0;
                        let i = choose|i: int|
                            0 <= i < orig_next.len() - 1 && x == orig_next[i + 1].1 && rest == orig_next.take(i);
                        assert(s[i + 2] == orig_next[i + 1]);
                        assert(s.take(i + 1) =~= seq![hd] + orig_next.take(i));
                    } else {
                        assert(sorted_nodes(*node) =~= s);
                    }
                }
                r
            }
        },
    }
}

impl<I: PartialOrd, T: PartialEq> SortedQueue<I, T> {
    /// The keyed items, front first.
    pub closed spec fn view(&self) -> Seq<(I, T)> {
        sorted_nodes(self.head)
    }

    /// The count that the queue keeps of its items.
    pub closed spec fn spec_length(&self) -> usize {
        self.length
    }

    pub closed spec fn wf(&self) -> bool {
        self.length >= sorted_nodes(self.head).len()
    }

    /// An empty queue.
    pub fn new() -> (r: Self)
        ensures
            r.wf(),
            r@ == Seq::<(I, T)>::empty(),
            r.spec_length() == 0,
    {
        SortedQueue { head: None, length: 0 }
    }

    /// Puts `new_item` with key `value` behind every item whose key is not greater.
    pub fn insert(&mut self, new_item: T, value: I)
        requires
            old(self).wf(),
            old(self).spec_length() < usize::MAX,
        ensures
            final(self).wf(),
            final(self).spec_length() == old(self).spec_length() + 1,
            exists|k: int|
                0 <= k <= old(self)@.len() && final(self)@ == old(self)@.insert(k, (value, new_item))
                    && (I::obeys_partial_cmp_spec() ==> k == first_greater(old(self)@, value, 0)),
    {
        let ghost before = self@;
        insert_sorted(&mut self.head, new_item, value);
        proof {
            let k = choose|k: int|
                0 <= k <= before.len() && self@ == before.insert(k, (value, new_item))
                    && (I::obeys_partial_cmp_spec() ==> k == first_greater(before, value, 0));
            assert(self@.len() == before.len() + 1);
        }
        self.length = self.length + 1;
    }

    /// Takes the front item, if any.
    pub fn pop(&mut self) -> (r: Option<T>)
        requires
            old(self).wf(),
        ensures
            final(self).wf(),
            old(self)@.len() == 0 ==> r is None && final(self)@ == old(self)@ && final(self).spec_length()
                == old(self).spec_length(),
            old(self)@.len() > 0 ==> r == Some(old(self)@[0].1) && final(self)@ == old(self)@.drop_first()
                && final(self).spec_length() == old(self).spec_length() - 1,
    {
        match self.head.take() {
            None => None,
            Some(head) => {
                self.head = head.next;
                self.length = self.length - 1;
                proof {
                    assert(sorted_nodes(self.head) =~= old(self)@.drop_first());
                }
                Some(head.data)
            },
        }
    }

    /// Takes the front item if its key is not greater than `value`.
    pub fn pop_le(&mut self, value: I) -> (r: Option<T>)
        requires
            old(self).wf(),
        ensures
            final(self).wf(),
            r is None ==> final(self)@ == old(self)@ && final(self).spec_length() == old(self).spec_length(),
            r is Some ==> old(self)@.len() > 0 && r == Some(old(self)@[0].1) && final(self)@
                == old(self)@.drop_first() && final(self).spec_length() == old(self).spec_length() - 1,
            old(self)@.len() == 0 ==> r is None,
            I::obeys_partial_cmp_spec() && old(self)@.len() > 0 ==> (r is Some <==> old(self)@[0].0.is_le(&value)),
    {
        let ready = match &self.head {
            None => false,
            Some(head) => head.value <= value,
        };
        if ready {
            let head = self.head.take().unwrap();
            self.head = head.next;
            self.length = self.length - 1;
            proof {
                assert(sorted_nodes(self.head) =~= old(self)@.drop_first());
            }
            Some(head.data)
        } else {
            None
        }
    }

    /// Looks for the first item that equals `value`. When one is found, the queue keeps
    /// only the items before it, and the data of the item right behind it comes back.
    pub fn remove(&mut self, value: T) -> (r: Option<T>)
        requires
            old(self).wf(),
            T::obeys_eq_spec() ==> first_equal(data_of(old(self)@), value, 0) + 1 != old(self)@.len(),
        ensures
            final(self).wf(),
            r matches Some(x) ==> exists|i: int|
                0 <= i < old(self)@.len() - 1 && x == old(self)@[i + 1].1 && final(self)@ == old(self)@.take(i),
            r is Some ==> final(self).spec_length() == old(self).spec_length() - 1,
            r is None ==> final(self)@ == old(self)@ && final(self).spec_length() == old(self).spec_length(),
            T::obeys_eq_spec() ==> ({
                let s = old(self)@;
                let i = first_equal(data_of(s), value, 0);
                if i < s.len() {
                    r == Some(s[i + 1].1) && final(self)@ == s.take(i) && final(self).spec_length()
                        == old(self).spec_length() - 1
                } else {
                    r is None && final(self)@ == s && final(self).spec_length() == old(self).spec_length()
                }
            }),
    {
        proof {
            if T::obeys_eq_spec() {
                lemma_first_equal_range(data_of(self@), value, 0);
            }
        }
        let ghost before = old(self)@;
        let r = remove_sorted(&mut self.head, &value);
        if r.is_some() {
            self.length = self.length - 1;
        }
        proof {
            if r is Some {
                let x = r->0;
                let i = choose|i: int| 0 <= i < before.len() - 1 && x == before[i + 1].1 && self@ == before.take(i);
                assert(0 <= i < old(self)@.len() - 1 && x == old(self)@[i + 1].1 && final(self)@ == old(self)@.take(i));
            }
        }
        r
    }
}


/// A queue hands its items out first in, first out: pushing `x` behind `s` and then
/// popping gives the front of `s`, or `x` when `s` is empty, and leaves `s` without its
/// front followed by `x`.
pub proof fn lemma_queue_fifo<T>(s: Seq<T>, x: T)
    ensures
        s.push(x)[0] == if s.len() > 0 {
            s[0]
        } else {
            x
        },
        s.push(x).drop_first() == if s.len() > 0 {
            s.drop_first().push(x)
        } else {
            Seq::<T>::empty()
        },
{
    if s.len() > 0 {
        assert(s.push(x).drop_first() =~= s.drop_first().push(x));
    } else {
        assert(s.push(x).drop_first() =~= Seq::<T>::empty());
    }
}

/// The keys of `s` never decrease from front to back.
pub open spec fn keys_sorted<T>(s: Seq<(u64, T)>) -> bool {
    forall|i: int, j: int| 0 <= i < j < s.len() ==> #[trigger] s[i].0 <= #[trigger] s[j].0
}

/// Inserting into a sorted queue keeps it sorted: an item goes in just before the first item
/// with a greater key.
pub proof fn lemma_sorted_insert<T>(s: Seq<(u64, T)>, value: u64, item: T)
    requires
        keys_sorted(s),
    ensures
        keys_sorted(s.insert(first_greater(s, value, 0), (value, item))),
{
    lemma_first_greater_range(s, value, 0);
    let k = first_greater(s, value, 0);
    let t = s.insert(k, (value, item));
    assert forall|i: int, j: int| 0 <= i < j < t.len() implies #[trigger] t[i].0 <= #[trigger] t[j].0 by {
        if j < k {
            assert(t[i] == s[i] && t[j] == s[j]);
        } else if j == k {
            assert(t[j].0 == value);
            assert(t[i] == s[i]);
            assert(!s[i].0.is_gt(&value));
        } else if i < k {
            assert(t[i] == s[i] && t[j] == s[j - 1]);
        } else if i == k {
            assert(t[i].0 == value && t[j] == s[j - 1]);
            assert(s[k].0.is_gt(&value));
            assert(s[k].0 <= s[j - 1].0);
        } else {
            assert(t[i] == s[i - 1] && t[j] == s[j - 1]);
        }
    }
}


/// In a queue whose keys never decrease from front to back, the front item has the least
/// key; taking the front, or keeping only a prefix (as `pop`, `pop_le` and `remove` do),
/// keeps the keys in order. So `pop_le(v)` takes the front item exactly when some key, and
/// so the least, is not greater than `v`.
pub proof fn lemma_front_is_least<T>(s: Seq<(u64, T)>, i: int, value: u64)
    requires
        keys_sorted(s),
        s.len() > 0,
        0 <= i <= s.len(),
    ensures
        forall|j: int| 0 <= j < s.len() ==> s[0].0 <= #[trigger] s[j].0,
        (exists|j: int| 0 <= j < s.len() && #[trigger] s[j].0 <= value) <==> s[0].0 <= value,
        keys_sorted(s.drop_first()),
        keys_sorted(s.take(i)),
{
    assert forall|j: int| 0 <= j < s.len() implies s[0].0 <= #[trigger] s[j].0 by {
        if j > 0 {
            assert(s[0].0 <= s[j].0);
        }
    }
    assert forall|a: int, b: int| 0 <= a < b < s.drop_first().len() implies #[trigger] s.drop_first()[a].0
        <= #[trigger] s.drop_first()[b].0 by {
        assert(s[a + 1].0 <= s[b + 1].0);
    }
    assert forall|a: int, b: int| 0 <= a < b < s.take(i).len() implies #[trigger] s.take(i)[a].0
        <= #[trigger] s.take(i)[b].0 by {
        assert(s[a].0 <= s[b].0);
    }
}
} // verus!
