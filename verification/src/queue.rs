//! A priority queue of nodes by cost, least cost first: a binary heap.
use core::cmp::Ordering;
use std::fmt::Debug;
use std::hash::Hash;
use vstd::multiset::Multiset;
use vstd::prelude::*;
use vstd::std_specs::cmp::PartialOrdSpec;

verus! {

/// The comparisons of the node type compute a total order, in which equal
/// means the same. For the integer types this follows from
/// `vstd::laws_cmp::group_laws_cmp` and `vstd::laws_eq::group_laws_eq`.
pub open spec fn lawful_order<T: Ord>() -> bool {
    vstd::laws_cmp::obeys_cmp::<T>() && vstd::laws_eq::obeys_concrete_eq::<T>()
}

/// `a` is greater than `b` in the order of the node type.
pub open spec fn greater<T: Ord>(a: T, b: T) -> bool {
    a.partial_cmp_spec(&b) == Some(Ordering::Greater)
}

/// `a` leaves the queue before `b`: at a lower cost, or at the same cost
/// with the greater node.
pub open spec fn outranks<T: Ord>(a: (T, usize), b: (T, usize)) -> bool {
    a.1 < b.1 || (a.1 == b.1 && greater(a.0, b.0))
}

/// `a` costs no more than `b`, and where the order of the node type is
/// lawful, `b` does not leave the queue before `a`.
pub open spec fn no_later<T: Ord>(a: (T, usize), b: (T, usize)) -> bool {
    a.1 <= b.1 && (lawful_order::<T>() ==> !outranks(b, a))
}

/// A lawful order is the one that `>` computes.
proof fn lemma_order_computed<T: Ord>()
    requires
        lawful_order::<T>(),
    ensures
        T::obeys_partial_cmp_spec(),
{
    reveal(vstd::laws_cmp::obeys_cmp_partial_ord);
}

/// Of two nodes at most one is greater than the other.
proof fn lemma_greater_one_way<T: Ord>(a: T, b: T)
    requires
        lawful_order::<T>(),
        greater(a, b),
    ensures
        !greater(b, a),
{
    reveal(vstd::laws_cmp::obeys_partial_cmp_spec_properties);
}

/// Where `b` is not greater than `a` and `c` not greater than `b`, `c` is
/// not greater than `a`.
proof fn lemma_not_greater_chain<T: Ord>(a: T, b: T, c: T)
    requires
        lawful_order::<T>(),
        !greater(b, a),
        !greater(c, b),
    ensures
        !greater(c, a),
{
    reveal(vstd::laws_cmp::obeys_partial_cmp_spec_properties);
    reveal(vstd::laws_cmp::obeys_cmp_partial_ord);
    reveal(vstd::laws_cmp::obeys_cmp_ord);
    reveal(vstd::laws_eq::obeys_concrete_eq);
}

/// `no_later` is transitive.
pub proof fn lemma_no_later_chain<T: Ord>(a: (T, usize), b: (T, usize), c: (T, usize))
    requires
        no_later(a, b),
        no_later(b, c),
    ensures
        no_later(a, c),
{
    if lawful_order::<T>() && c.1 == a.1 {
        lemma_not_greater_chain(a.0, b.0, c.0);
    }
}

/// A node with the cost at which it was reached.
#[derive(Debug)]
pub struct State<T> where T: Clone + Hash + Eq + Debug {
    pub cost: usize,
    pub node: T,
}

impl<T> State<T> where T: Clone + Hash + Eq + Debug {
    /// The state as a pair of its node and its cost.
    pub open spec fn entry(self) -> (T, usize) {
        (self.node, self.cost)
    }
}

impl<T> State<T> where T: Clone + Hash + Eq + Debug + Ord {
    /// Whether `self` leaves the queue before `other`: at a lower cost, or
    /// at the same cost with the greater node.
    pub fn precedes(&self, other: &Self) -> (first: bool)
        ensures
            lawful_order::<T>() ==> first == outranks(self.entry(), other.entry()),
            first ==> no_later(self.entry(), other.entry()),
            !first ==> no_later(other.entry(), self.entry()),
    {
        proof {
            if lawful_order::<T>() {
                lemma_order_computed::<T>();
                if greater(self.node, other.node) {
                    lemma_greater_one_way(self.node, other.node);
                }
            }
        }
        self.cost < other.cost || (self.cost == other.cost && self.node > other.node)
    }
}

/// The states as pairs, in the order in which the heap holds them.
spec fn entries<T>(items: Seq<State<T>>) -> Seq<(T, usize)> where
    T: Clone + Hash + Eq + Debug,
 {
    items.map_values(|s: State<T>| s.entry())
}

/// The item above item `i` in the heap is no later than it.
spec fn above_ok<T>(items: Seq<State<T>>, i: int) -> bool where
    T: Clone + Hash + Eq + Debug + Ord,
 {
    no_later(items[(i - 1) / 2].entry(), items[i].entry())
}

/// Every item has an item above it that is no later than it, but the first.
spec fn heap_ordered<T>(items: Seq<State<T>>) -> bool where
    T: Clone + Hash + Eq + Debug + Ord,
 {
    forall|i: int| 0 < i < items.len() ==> #[trigger] above_ok(items, i)
}

/// The heap is in order but for item `at`, which may come before the item
/// above it, though no item below it does.
spec fn rising_from<T>(items: Seq<State<T>>, at: int) -> bool where
    T: Clone + Hash + Eq + Debug + Ord,
 {
    &&& forall|i: int| 0 < i < items.len() && i != at ==> #[trigger] above_ok(items, i)
    &&& forall|i: int|
        0 < i < items.len() && (i - 1) / 2 == at && at > 0 ==> no_later(
            items[(at - 1) / 2].entry(),
            (#[trigger] items[i]).entry(),
        )
}

/// The heap is in order but for the items below item `at`, which may come
/// before it, though not before the item above it.
spec fn sinking_from<T>(items: Seq<State<T>>, at: int) -> bool where
    T: Clone + Hash + Eq + Debug + Ord,
 {
    &&& forall|i: int| 0 < i < items.len() && (i - 1) / 2 != at ==> #[trigger] above_ok(items, i)
    &&& forall|i: int|
        0 < i < items.len() && (i - 1) / 2 == at && at > 0 ==> no_later(
            items[(at - 1) / 2].entry(),
            (#[trigger] items[i]).entry(),
        )
}

/// In a heap in order the first item is no later than any.
proof fn lemma_first_is_least<T>(items: Seq<State<T>>, i: int) where
    T: Clone + Hash + Eq + Debug + Ord,

    requires
        heap_ordered(items),
        0 <= i < items.len(),
    ensures
        no_later(items[0].entry(), items[i].entry()),
    decreases i,
{
    if i > 0 {
        assert(above_ok(items, i));
        lemma_first_is_least(items, (i - 1) / 2);
        lemma_no_later_chain(items[0].entry(), items[(i - 1) / 2].entry(), items[i].entry());
    } else if lawful_order::<T>() && greater(items[0].node, items[0].node) {
        lemma_greater_one_way(items[0].node, items[0].node);
    }
}

/// Exchanging two items leaves the same items.
proof fn lemma_exchange_keeps_items<T>(items: Seq<State<T>>, i: int, j: int) where
    T: Clone + Hash + Eq + Debug,

    requires
        0 <= i < j < items.len(),
    ensures
        entries(items.update(i, items[j]).update(j, items[i])).to_multiset() == entries(
            items,
        ).to_multiset(),
{
    broadcast use vstd::multiset::group_multiset_axioms;

    let e = entries(items);
    let once = e.update(i, e[j]);
    let twice = once.update(j, e[i]);
    assert(entries(items.update(i, items[j]).update(j, items[i])) =~= twice);
    vstd::seq_lib::to_multiset_update(e, i, e[j]);
    vstd::seq_lib::to_multiset_update(once, j, e[i]);
    vstd::seq_lib::to_multiset_contains(e, e[i]);
}

/// Exchanges items `i` and `j` by moves alone: the last item is taken out
/// and the two are passed through its place.
fn exchange<T>(items: &mut Vec<State<T>>, i: usize, j: usize) where T: Clone + Hash + Eq + Debug
    requires
        i < j < old(items)@.len(),
    ensures
        final(items)@ == old(items)@.update(i as int, old(items)@[j as int]).update(
            j as int,
            old(items)@[i as int],
        ),
{
    let mut spare = items.pop().expect("Empty queue");
    core::mem::swap(&mut items[i], &mut spare);
    if j < items.len() {
        core::mem::swap(&mut items[j], &mut spare);
        core::mem::swap(&mut items[i], &mut spare);
    }
    items.push(spare);
}

/// Moves the last item up to its place.
fn sift_up<T>(items: &mut Vec<State<T>>) where T: Clone + Hash + Eq + Debug + Ord
    requires
        old(items)@.len() > 0,
        rising_from(old(items)@, old(items)@.len() - 1),
    ensures
        heap_ordered(final(items)@),
        entries(final(items)@).to_multiset() == entries(old(items)@).to_multiset(),
{
    let mut at: usize = items.len() - 1;
    while at > 0
        invariant
            0 <= at < items@.len(),
            rising_from(items@, at as int),
            entries(items@).to_multiset() == entries(old(items)@).to_multiset(),
        ensures
            heap_ordered(items@),
            entries(items@).to_multiset() == entries(old(items)@).to_multiset(),
        decreases at,
    {
        let above: usize = (at - 1) / 2;
        if !items[at].precedes(&items[above]) {
            break;
        }
        let ghost before = items@;
        exchange(items, above, at);
        proof {
            lemma_exchange_keeps_items(before, above as int, at as int);
            assert forall|i: int| 0 < i < items@.len() && i != above implies #[trigger] above_ok(
                items@,
                i,
            ) by {
                if i != at {
                    assert(above_ok(before, i));
                    if (i - 1) / 2 == above {
                        lemma_no_later_chain(
                            before[at as int].entry(),
                            before[above as int].entry(),
                            before[i].entry(),
                        );
                    }
                }
            }
            assert forall|i: int|
                0 < i < items@.len() && (i - 1) / 2 == above && above > 0 implies no_later(
                items@[(above - 1) / 2].entry(),
                (#[trigger] items@[i]).entry(),
            ) by {
                assert(above_ok(before, above as int));
                if i != at {
                    assert(above_ok(before, i));
                    lemma_no_later_chain(
                        before[(above - 1) / 2].entry(),
                        before[above as int].entry(),
                        before[i].entry(),
                    );
                }
            }
        }
        at = above;
    }
}

/// Moves the first item down to its place.
fn sift_down<T>(items: &mut Vec<State<T>>) where T: Clone + Hash + Eq + Debug + Ord
    requires
        sinking_from(old(items)@, 0),
    ensures
        heap_ordered(final(items)@),
        entries(final(items)@).to_multiset() == entries(old(items)@).to_multiset(),
{
    let mut at: usize = 0;
    let len: usize = items.len();
    while at < len / 2
        invariant
            len == items@.len(),
            0 <= at,
            sinking_from(items@, at as int),
            entries(items@).to_multiset() == entries(old(items)@).to_multiset(),
        ensures
            heap_ordered(items@),
            entries(items@).to_multiset() == entries(old(items)@).to_multiset(),
        decreases len - at,
    {
        let left: usize = 2 * at + 1;
        let right: usize = left + 1;
        let mut below: usize = left;
        if right < len && items[right].precedes(&items[left]) {
            below = right;
        }
        if !items[below].precedes(&items[at]) {
            proof {
                assert forall|i: int| 0 < i < items@.len() implies #[trigger] above_ok(
                    items@,
                    i,
                ) by {
                    if (i - 1) / 2 == at {
                        if i != below {
                            lemma_no_later_chain(
                                items@[at as int].entry(),
                                items@[below as int].entry(),
                                items@[i].entry(),
                            );
                        }
                    }
                }
            }
            break;
        }
        let ghost before = items@;
        exchange(items, at, below);
        proof {
            lemma_exchange_keeps_items(before, at as int, below as int);
            assert forall|i: int|
                0 < i < items@.len() && (i - 1) / 2 != below implies #[trigger] above_ok(
                items@,
                i,
            ) by {
                if (i - 1) / 2 != at && i != at {
                    assert(above_ok(before, i));
                }
            }
            assert forall|i: int|
                0 < i < items@.len() && (i - 1) / 2 == below && below > 0 implies no_later(
                items@[(below - 1) / 2].entry(),
                (#[trigger] items@[i]).entry(),
            ) by {
                assert(above_ok(before, i));
            }
        }
        at = below;
    }
}

/// The states waiting to be looked at.
#[derive(Debug)]
pub struct MinQueue<T> where T: Clone + Hash + Eq + Debug {
    items: Vec<State<T>>,
}

impl<T> View for MinQueue<T> where T: Clone + Hash + Eq + Debug {
    type V = Multiset<(T, usize)>;

    /// The states held, each as its node and cost.
    closed spec fn view(&self) -> Multiset<(T, usize)> {
        entries(self.items@).to_multiset()
    }
}

impl<T> MinQueue<T> where T: Clone + Hash + Eq + Debug + Ord {
    /// The invariant of the queue: the heap is in order.
    pub closed spec fn wf(&self) -> bool {
        heap_ordered(self.items@)
    }

    /// An empty queue.
    pub fn new() -> (q: Self)
        ensures
            q.wf(),
            q@ == Multiset::<(T, usize)>::empty(),
    {
        let q = MinQueue { items: Vec::new() };
        proof {
            assert(entries(q.items@) =~= Seq::<(T, usize)>::empty());
            Seq::<(T, usize)>::empty().to_multiset_ensures();
        }
        q
    }

    /// The number of states held.
    pub fn len(&self) -> (n: usize)
        ensures
            n == self@.len(),
    {
        proof {
            vstd::seq_lib::to_multiset_len(entries(self.items@));
        }
        self.items.len()
    }

    /// Adds a state.
    pub fn push(&mut self, state: State<T>)
        requires
            old(self).wf(),
        ensures
            final(self).wf(),
            final(self)@ == old(self)@.insert(state.entry()),
    {
        let ghost before = self.items@;
        self.items.push(state);
        proof {
            assert(entries(self.items@) =~= entries(before).push(state.entry()));
            vstd::seq_lib::to_multiset_build(entries(before), state.entry());
            assert forall|i: int|
                0 < i < self.items@.len() && i != self.items@.len() - 1 implies #[trigger] above_ok(
                self.items@,
                i,
            ) by {
                assert(above_ok(before, i));
            }
        }
        sift_up(&mut self.items);
    }

    /// Takes out the state that leaves first: one of the least cost, and
    /// among those, where the order of the node type is lawful, that of the
    /// greatest node. `None` where the queue is empty.
    pub fn pop(&mut self) -> (first: Option<State<T>>)
        requires
            old(self).wf(),
        ensures
            final(self).wf(),
            first is None <==> old(self)@.len() == 0,
            first is None ==> final(self)@ == old(self)@,
            first matches Some(state) ==> {
                &&& old(self)@.count(state.entry()) > 0
                &&& final(self)@ == old(self)@.remove(state.entry())
                &&& forall|e: (T, usize)| #[trigger]
                    old(self)@.count(e) > 0 ==> no_later(state.entry(), e)
            },
    {
        let ghost before = self.items@;
        proof {
            vstd::seq_lib::to_multiset_len(entries(before));
        }
        if self.items.len() == 0 {
            return None;
        }
        let last: usize = self.items.len() - 1;
        if last > 0 {
            exchange(&mut self.items, 0, last);
            proof {
                lemma_exchange_keeps_items(before, 0, last as int);
            }
        }
        let ghost turned = self.items@;
        let state = self.items.pop().expect("Empty queue");
        proof {
            assert(entries(self.items@) =~= entries(turned).remove(last as int));
            vstd::seq_lib::to_multiset_remove(entries(turned), last as int);
            vstd::seq_lib::to_multiset_contains(entries(before), state.entry());
            assert(entries(before)[0] == state.entry());
            assert forall|e: (T, usize)| #[trigger] old(self)@.count(e) > 0 implies no_later(
                state.entry(),
                e,
            ) by {
                vstd::seq_lib::to_multiset_contains(entries(before), e);
                let i = choose|i: int| 0 <= i < entries(before).len() && entries(before)[i] == e;
                lemma_first_is_least(before, i);
            }
            assert forall|i: int|
                0 < i < self.items@.len() && (i - 1) / 2 != 0 implies #[trigger] above_ok(
                self.items@,
                i,
            ) by {
                assert(above_ok(before, i));
            }
        }
        sift_down(&mut self.items);
        Some(state)
    }
}

} // verus!
