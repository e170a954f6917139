//! The list itself: an arena of nodes, chained by index from one sentinel.
use crate::order::{
    insert_sorted, le, lemma_insert_at, lemma_insert_at_sorted, lemma_insert_sorted, lemma_partial_cmp_obeyed, lt, sorted,
};
use vstd::laws_cmp::obeys_cmp;
use vstd::prelude::*;
use vstd::std_specs::cmp::PartialOrdSpec;

verus! {

/// One slot of the arena: a value with the indices of its neighbours.
/// The sentinel carries a placeholder value that nothing ever reads.
pub struct Node<T> {
    pub value: T,
    pub next: Option<usize>,
    pub prev: Option<usize>,
    pub is_helper: bool,
}

impl<T: Ord + Default> Node<T> {
    /// An element node with no neighbours yet.
    pub fn new(value: T) -> (r: Self)
        ensures
            r.value == value,
            r.next is None,
            r.prev is None,
            !r.is_helper,
    {
        Node { value, next: None, prev: None, is_helper: false }
    }

    /// A sentinel node with no neighbours yet.
    pub fn new_helper_node() -> (r: Self)
        ensures
            call_ensures(T::default, (), r.value),
            r.next is None,
            r.prev is None,
            r.is_helper,
    {
        Node { value: T::default(), next: None, prev: None, is_helper: true }
    }
}

/// A list that keeps its values in non-decreasing order.
///
/// The sentinel sits at index `head`, which is also `tail`: following `next`
/// from it visits every element once, in order, and comes back to it, and
/// `prev` walks the same chain backwards.
pub struct DoublySortedLinkedList<T> {
    pub head: usize,
    pub tail: usize,
    nodes: Vec<Node<T>>,
    chain: Ghost<Seq<usize>>,
}

impl<T: Ord + Default> View for DoublySortedLinkedList<T> {
    type V = Seq<T>;

    /// The values of the elements in chain order.
    closed spec fn view(&self) -> Seq<T> {
        self.chain@.map_values(|i: usize| self.nodes@[i as int].value)
    }
}

impl<T: Ord + Default> DoublySortedLinkedList<T> {
    /// The arena index found at position `k` of the chain, where the
    /// positions just before the first element and just after the last
    /// are both the sentinel.
    closed spec fn at(&self, k: int) -> usize {
        if 0 <= k < self.chain@.len() {
            self.chain@[k]
        } else {
            0
        }
    }

    closed spec fn links_ok(&self) -> bool {
        &&& forall|k: int|
            -1 <= k < self.chain@.len() ==> (#[trigger] self.nodes@[self.at(k) as int]).next
                == Some(self.at(k + 1))
        &&& forall|k: int|
            0 <= k <= self.chain@.len() ==> (#[trigger] self.nodes@[self.at(k) as int]).prev
                == Some(self.at(k - 1))
    }

    /// The arena and the chain agree: one sentinel at index 0, every other
    /// slot an element that the chain holds once, links that follow the
    /// chain both ways, and values in order along it.
    pub closed spec fn wf(&self) -> bool {
        &&& obeys_cmp::<T>()
        &&& self.head == 0
        &&& self.tail == 0
        &&& self.nodes@.len() == self.chain@.len() + 1
        &&& forall|i: int| 0 <= i < self.nodes@.len() ==> (#[trigger] self.nodes@[i]).is_helper
            == (i == 0)
        &&& forall|k: int|
            0 <= k < self.chain@.len() ==> 1 <= #[trigger] self.chain@[k] < self.nodes@.len()
        &&& forall|j: int, k: int|
            0 <= j < k < self.chain@.len() ==> #[trigger] self.chain@[j] != #[trigger] self.chain@[k]
        &&& self.links_ok()
        &&& sorted(self@)
    }

    /// An empty list: the sentinel alone, linked to itself both ways.
    pub fn new() -> (r: Self)
        requires
            obeys_cmp::<T>(),
        ensures
            r.wf(),
            r@ == Seq::<T>::empty(),
    {
        let mut sentinel = Node::<T>::new_helper_node();
        sentinel.next = Some(0);
        sentinel.prev = Some(0);
        let mut nodes: Vec<Node<T>> = Vec::new();
        nodes.push(sentinel);
        let r = DoublySortedLinkedList { head: 0, tail: 0, nodes, chain: Ghost(Seq::empty()) };
        assert(r@ =~= Seq::<T>::empty());
        r
    }

    /// Number of elements, sentinel not counted.
    pub fn len(&self) -> (r: usize)
        requires
            self.wf(),
        ensures
            r == self@.len(),
    {
        self.nodes.len() - 1
    }

    /// Puts `value` after every element it is not less than and before the
    /// first one it is less than, so equal values keep the order in which
    /// they came.
    #[verifier::rlimit(40)]
    pub fn insert(&mut self, value: T)
        requires
            old(self).wf(),
            old(self)@.len() + 2 < usize::MAX,
        ensures
            final(self).wf(),
            exists|pos: int|
                {
                    &&& 0 <= pos <= old(self)@.len()
                    &&& #[trigger] final(self)@ == old(self)@.insert(pos, value)
                    &&& forall|i: int| 0 <= i < pos ==> le(#[trigger] old(self)@[i], value)
                    &&& pos < old(self)@.len() ==> lt(value, old(self)@[pos])
                },
            final(self)@ == insert_sorted(old(self)@, value),
            final(self)@.len() == old(self)@.len() + 1,
            final(self)@.to_multiset() == old(self)@.to_multiset().insert(value),
    {
        proof {
            lemma_partial_cmp_obeyed::<T>();
        }
        let ghost old_list = *self;
        let ghost len = self.chain@.len();
        let mut current: usize = 0;
        let ghost mut k: int = 0;
        assert(self.nodes@[self.at(-1) as int].next == Some(self.at(0)));
        let mut next: usize = self.nodes[0].next.unwrap();
        loop
            invariant
                *self == old_list,
                self.wf(),
                len == self.chain@.len(),
                T::obeys_partial_cmp_spec(),
                0 <= k <= len,
                current == self.at(k - 1),
                next == self.at(k),
                forall|i: int| 0 <= i < k ==> le(#[trigger] self@[i], value),
            ensures
                *self == old_list,
                self.wf(),
                0 <= k <= len,
                current == self.at(k - 1),
                next == self.at(k),
                forall|i: int| 0 <= i < k ==> le(#[trigger] self@[i], value),
                k < len ==> lt(value, self@[k]),
            decreases len - k,
        {
            assert(self.nodes@[self.at(k) as int].is_helper == (k == len));
            assert(k < len ==> self@[k] == self.nodes@[self.at(k) as int].value);
            if self.nodes[next].is_helper || value < self.nodes[next].value {
                break;
            }
            proof {
                k = k + 1;
            }
            current = next;
            next = self.nodes[next].next.unwrap();
        }
        proof {
            lemma_insert_at_sorted(self@, k, value);
            lemma_insert_at(self@, k, value);
            lemma_insert_sorted(self@, value);
        }
        let n: usize = self.nodes.len();
        let mut node = Node::new(value);
        node.next = Some(next);
        node.prev = Some(current);
        self.nodes.push(node);
        self.nodes[current].next = Some(n);
        self.nodes[next].prev = Some(n);
        self.chain = Ghost(self.chain@.insert(k, n));
        proof {
            let c = old_list.chain@;
            let c2 = self.chain@;
            assert forall|j: int| -1 <= j <= c2.len() implies self.at(j) == if j < k {
                old_list.at(j)
            } else if j == k {
                n
            } else {
                old_list.at(j - 1)
            } by {}
            assert forall|j: int, m: int|
                0 <= j < m < c2.len() implies #[trigger] c2[j] != #[trigger] c2[m] by {
                if j < k && m > k {
                    assert(c2[m] == c[m - 1]);
                }
            }
            assert forall|k2: int| -1 <= k2 < c2.len() implies (#[trigger] self.nodes@[self.at(
                k2,
            ) as int]).next == Some(self.at(k2 + 1)) by {
                if k2 < k - 1 {
                    assert(old_list.nodes@[old_list.at(k2) as int].next == Some(old_list.at(k2 + 1)));
                    assert(old_list.at(k2) != current);
                } else if k2 > k {
                    assert(old_list.nodes@[old_list.at(k2 - 1) as int].next == Some(old_list.at(k2)));
                }
            }
            assert forall|k2: int| 0 <= k2 <= c2.len() implies (#[trigger] self.nodes@[self.at(
                k2,
            ) as int]).prev == Some(self.at(k2 - 1)) by {
                if k2 < k {
                    assert(old_list.nodes@[old_list.at(k2) as int].prev == Some(old_list.at(k2 - 1)));
                } else if k2 > k + 1 {
                    assert(old_list.nodes@[old_list.at(k2 - 1) as int].prev == Some(old_list.at(k2 - 2)));
                    assert(old_list.at(k2 - 1) != next);
                }
            }
            assert(self@ =~= old_list@.insert(k, value));
        }
    }

    /// Walks the chain from the sentinel and reports whether no value is
    /// less than the one before it.
    pub fn is_sorted(&self) -> (r: bool)
        requires
            self.wf(),
        ensures
            r == sorted(self@),
            r,
    {
        proof {
            lemma_partial_cmp_obeyed::<T>();
        }
        let ghost len = self.chain@.len();
        let ghost mut k: int = 0;
        assert(self.nodes@[self.at(-1) as int].next == Some(self.at(0)));
        let mut current: usize = self.nodes[self.head].next.unwrap();
        let mut previous: Option<usize> = None;
        while !self.nodes[current].is_helper
            invariant
                self.wf(),
                len == self.chain@.len(),
                T::obeys_partial_cmp_spec(),
                0 <= k <= len,
                current == self.at(k),
                previous == if k == 0 { None } else { Some(self.at(k - 1)) },
            decreases len - k,
        {
            assert(self.nodes@[self.at(k) as int].is_helper == (k == len));
            assert(self@[k] == self.nodes@[self.at(k) as int].value);
            if let Some(p) = previous {
                assert(self@[k - 1] == self.nodes@[self.at(k - 1) as int].value);
                if self.nodes[current].value < self.nodes[p].value {
                    assert(!le(self@[k - 1], self@[k]));
                    return false;
                }
            }
            previous = Some(current);
            current = self.nodes[current].next.unwrap();
            proof {
                k = k + 1;
            }
        }
        true
    }

    /// The values in chain order.
    pub fn values(&self) -> (r: Vec<&T>)
        requires
            self.wf(),
        ensures
            r@.len() == self@.len(),
            forall|i: int| 0 <= i < r@.len() ==> *#[trigger] r@[i] == self@[i],
    {
        let ghost len = self.chain@.len();
        assert(self.nodes@[self.at(-1) as int].next == Some(self.at(0)));
        let mut current: usize = self.nodes[self.head].next.unwrap();
        let mut r: Vec<&T> = Vec::new();
        while !self.nodes[current].is_helper
            invariant
                self.wf(),
                len == self.chain@.len(),
                0 <= r@.len() <= len,
                current == self.at(r@.len() as int),
                forall|i: int| 0 <= i < r@.len() ==> *#[trigger] r@[i] == self@[i],
            decreases len - r@.len(),
        {
            let ghost k = r@.len() as int;
            assert(self.nodes@[self.at(k) as int].is_helper == (k == len));
            assert(self@[k] == self.nodes@[self.at(k) as int].value);
            r.push(&self.nodes[current].value);
            current = self.nodes[current].next.unwrap();
        }
        assert(self.nodes@[self.at(r@.len() as int) as int].is_helper == (r@.len() == len));
        r
    }
    /// A well-formed list is sorted: of any two values, the one met first
    /// on the walk from the sentinel is at most the other.
    pub proof fn lemma_sorted(&self)
        requires
            self.wf(),
        ensures
            sorted(self@),
    {
    }
}

} // verus!
