use vstd::prelude::*;
use vstd::std_specs::cmp::PartialEqSpec;

verus! {

/// Position of the parent of position `i` in an implicit binary tree laid out
/// in a sequence.
pub open spec fn parent(i: int) -> int {
    (i - 1) / 2
}

/// Whether position `i` lies on the way from position `n` to the front:
/// `n`, its parent, that one's parent, and so on down to 0.
pub open spec fn on_path(n: int, i: int) -> bool
    decreases n,
{
    i == n || (n > 0 && on_path(parent(n), i))
}

/// `s` with the items at positions `i` and `j` exchanged.
pub open spec fn exchanged<T>(s: Seq<T>, i: int, j: int) -> Seq<T> {
    s.update(i, s[j]).update(j, s[i])
}

/// The sequence that results from letting the item at position `i` rise in
/// `s`: as long as it is not at the front and `rises(p, c)` holds of its
/// parent `p` and itself `c`, the two change places.
pub open spec fn floated<T>(s: Seq<T>, i: int, rises: spec_fn(T, T) -> bool) -> Seq<T>
    decreases i,
{
    if 0 < i < s.len() && rises(s[parent(i)], s[i]) {
        floated(exchanged(s, parent(i), i), parent(i), rises)
    } else {
        s
    }
}

/// Whether every call of `f` returns what `rises` says of the two items.
pub open spec fn decides_by<T, F: Fn(&T, &T) -> bool>(f: F, rises: spec_fn(T, T) -> bool) -> bool {
    forall|a: &T, b: &T, r: bool| #[trigger] call_ensures(f, (a, b), r) ==> r == rises(*a, *b)
}

/// A queue kept in one growable array, its front at position 0.
pub struct PriorityQueue<T: std::hash::Hash + Eq + Clone> {
    array: Vec<T>,
}

impl<T: std::hash::Hash + Eq + Clone> View for PriorityQueue<T> {
    type V = Seq<T>;

    closed spec fn view(&self) -> Seq<T> {
        self.array@
    }
}

/// `<[T]>::swap` on a vector: exchanges the items at the two positions, which
/// must both lie inside the vector, and leaves every other item in place.
#[verifier::external_body]
fn swap_items<T>(v: &mut Vec<T>, i: usize, j: usize)
    requires
        i < old(v)@.len(),
        j < old(v)@.len(),
    ensures
        final(v)@ == exchanged(old(v)@, i as int, j as int),
{
    v.swap(i, j);
}

impl<T: std::hash::Hash + Eq + Clone> PriorityQueue<T> {
    /// A queue that holds one item, a clone of `root`.
    pub fn new(root: &T) -> (q: Self)
        ensures
            q@.len() == 1,
            cloned(*root, q@[0]),
    {
        let mut array: Vec<T> = Vec::new();
        array.push(root.clone());
        Self { array }
    }

    /// Number of items in the queue.
    pub fn len(&self) -> (n: usize)
        ensures
            n == self@.len(),
    {
        self.array.len()
    }

    /// Appends a clone of `state` and lets it rise towards the front while
    /// `lower(parent, item)` answers true, that is while its parent ranks lower. Nothing is added when `state` equals
    /// the item that would become its parent.
    pub fn enqueue<F: Fn(&T, &T) -> bool>(&mut self, state: &T, lower: &mut F)
        requires
            old(self)@.len() >= 1,
            forall|a: &T, b: &T| call_requires(*old(lower), (a, b)),
        ensures
            *final(lower) == *old(lower),
            final(self)@ == old(self)@ || final(self)@.len() == old(self)@.len() + 1,
            forall|i: int|
                0 <= i < old(self)@.len() && !on_path(old(self)@.len() as int, i) ==> #[trigger] final(self)@[i] == old(self)@[i],
            final(self)@ == old(self)@ || exists|item: T|
                {
                    &&& cloned(*state, item)
                    &&& final(self)@.to_multiset() == old(self)@.push(item).to_multiset()
                    &&& forall|rises: spec_fn(T, T) -> bool| #[trigger]
                        decides_by(*old(lower), rises) ==> final(self)@ == floated(
                            old(self)@.push(item),
                            old(self)@.len() as int,
                            rises,
                        )
                },
            T::obeys_eq_spec() ==> (final(self)@ == old(self)@ <==> state.eq_spec(
                &old(self)@[parent(old(self)@.len() as int)],
            )),
    {
        let mut new_idx: usize = self.array.len();
        let mut parent_idx: usize = (new_idx - 1) / 2;
        if state.eq(&self.array[parent_idx]) {
            return ;
        }
        let item = state.clone();
        let ghost added = item;
        let ghost start = self.array@.push(item);
        let ghost n = new_idx as int;
        self.array.push(item);
        loop
            invariant_except_break
                0 < new_idx < self.array@.len(),
                parent_idx as int == parent(new_idx as int),
                forall|rises: spec_fn(T, T) -> bool| #[trigger]
                    decides_by(*lower, rises) ==> floated(self.array@, new_idx as int, rises)
                        == floated(start, n, rises),
            invariant
                forall|a: &T, b: &T| call_requires(*lower, (a, b)),
                *lower == *old(lower),
                self.array@.len() == start.len(),
                self.array@.to_multiset() == start.to_multiset(),
                n == old(self)@.len(),
                0 <= new_idx <= n,
                on_path(n, new_idx as int),
                forall|i: int|
                    0 <= i < start.len() && !on_path(n, i) ==> #[trigger] self.array@[i] == start[i],
            ensures
                forall|rises: spec_fn(T, T) -> bool| #[trigger]
                    decides_by(*lower, rises) ==> self.array@ == floated(start, n, rises),
            decreases new_idx,
        {
            let ghost before = self.array@;
            let ghost at = new_idx as int;
            let up = lower(&self.array[parent_idx], &self.array[new_idx]);
            if up {
                swap_items(&mut self.array, parent_idx, new_idx);
                proof {
                    lemma_path_goes_on(n, at);
                    lemma_exchange_keeps_items(before, parent(at), at);
                    assert forall|rises: spec_fn(T, T) -> bool| #[trigger]
                        decides_by(*lower, rises) implies floated(
                        self.array@,
                        parent(at),
                        rises,
                    ) == floated(start, n, rises) by {
                        assert(rises(before[parent(at)], before[at]));
                        assert(floated(before, at, rises) == floated(
                            exchanged(before, parent(at), at),
                            parent(at),
                            rises,
                        ));
                    }
                }
                new_idx = parent_idx;
                if new_idx == 0 {
                    proof {
                        assert forall|rises: spec_fn(T, T) -> bool| #[trigger]
                            decides_by(*lower, rises) implies self.array@ == floated(
                            start,
                            n,
                            rises,
                        ) by {
                            assert(floated(self.array@, 0, rises) == self.array@);
                        }
                    }
                    break ;
                }
                parent_idx = (new_idx - 1) / 2;
            } else {
                proof {
                    assert forall|rises: spec_fn(T, T) -> bool| #[trigger]
                        decides_by(*lower, rises) implies self.array@ == floated(
                        start,
                        n,
                        rises,
                    ) by {
                        assert(!rises(before[parent(at)], before[at]));
                        assert(floated(before, at, rises) == before);
                    }
                }
                break ;
            }
        }
        proof {
            assert(cloned(*state, added));
            assert(final(self)@.to_multiset() == old(self)@.push(added).to_multiset());
            assert(start.len() == old(self)@.len() + 1);
        }
    }

    /// Takes the item at the front out of the queue; the others move up by one.
    pub fn dequeue_top(&mut self) -> (top: Option<T>)
        ensures
            old(self)@.len() == 0 ==> top.is_none() && final(self)@ == old(self)@,
            old(self)@.len() > 0 ==> top == Some(old(self)@[0]) && final(self)@ == old(
                self,
            )@.subrange(1, old(self)@.len() as int),
    {
        if self.array.len() >= 1 {
            let top = self.array.remove(0);
            proof {
                assert(self.array@ =~= old(self)@.subrange(1, old(self)@.len() as int));
            }
            Some(top)
        } else {
            None
        }
    }

    /// Takes the item at the back out of the queue.
    pub fn dequeue_bottom(&mut self) -> (bottom: Option<T>)
        ensures
            old(self)@.len() == 0 ==> bottom.is_none() && final(self)@ == old(self)@,
            old(self)@.len() > 0 ==> bottom == Some(old(self)@.last()) && final(self)@ == old(
                self,
            )@.drop_last(),
    {
        self.array.pop()
    }
}

/// The parent of a position on the way to the front lies on that way too.
pub proof fn lemma_path_goes_on(n: int, i: int)
    requires
        on_path(n, i),
        i > 0,
    ensures
        on_path(n, parent(i)),
    decreases n,
{
    if i != n {
        lemma_path_goes_on(parent(n), i);
    } else {
        assert(on_path(parent(n), parent(n)));
    }
}

/// Exchanging two items of a sequence changes no item's number of occurrences.
pub proof fn lemma_exchange_keeps_items<T>(s: Seq<T>, i: int, j: int)
    requires
        0 <= i < s.len(),
        0 <= j < s.len(),
    ensures
        exchanged(s, i, j).to_multiset() == s.to_multiset(),
{
    let once = s.update(i, s[j]);
    vstd::seq_lib::to_multiset_update(s, i, s[j]);
    vstd::seq_lib::to_multiset_update(once, j, s[i]);
    s.to_multiset_ensures();
    assert(exchanged(s, i, j).to_multiset() =~= s.to_multiset());
}

} // verus!
