//! The list itself. Nodes are kept in one arena (a `Vec`), and every link (`head`, `tail`,
//! and each node's `prev` and `next`) is the index of a slot in that arena. The arena holds
//! exactly the nodes of the list: removing a node moves the last slot into the hole it leaves,
//! and the links that pointed at the moved slot are redirected.

use vstd::prelude::*;
use vstd::std_specs::cmp::PartialEqSpec;

use super::{pop_back_seq, pop_front_seq, push_back_seq, push_front_seq, same_elements};

verus! {

/// One element of the list, with the slots of its predecessor and successor.
struct Node<T> {
    data: T,
    prev: Option<usize>,
    next: Option<usize>,
}

impl<T> Node<T> {
    fn new(data: T) -> (n: Node<T>)
        ensures
            n.data == data,
            n.prev is None,
            n.next is None,
    {
        Node { data, prev: None, next: None }
    }
}

/// A handle on one node of a list: the arena slot that the node occupies.
/// A handle stays valid until the next `pop_front` or `pop_back` on that list.
#[derive(Clone, Copy, PartialEq, Eq, Debug)]
pub struct NodeRef(usize);

/// A doubly linked list.
pub struct LinkedList<T> {
    nodes: Vec<Node<T>>,
    head: Option<usize>,
    tail: Option<usize>,
    /// The slots of the nodes, from front to back.
    order: Ghost<Seq<usize>>,
}

/// The slot at position `k` of `order`, or `None` past either end.
spec fn slot_at(order: Seq<usize>, k: int) -> Option<usize> {
    if 0 <= k < order.len() {
        Some(order[k])
    } else {
        None
    }
}

impl<T> View for LinkedList<T> {
    type V = Seq<T>;

    /// The elements from front to back.
    closed spec fn view(&self) -> Seq<T> {
        Seq::new(self.order@.len(), |k: int| self.nodes@[self.order@[k] as int].data)
    }
}

impl<T> LinkedList<T> {
    /// `head`, `tail` and the links of the nodes in `order` follow `order`: it runs from
    /// `head` to `tail`, names each slot at most once, and each node's `prev` and `next` are
    /// its neighbours in it.
    spec fn chain(&self) -> bool {
        let order = self.order@;
        let n = order.len();
        &&& order.no_duplicates()
        &&& forall|k: int| 0 <= k < n ==> #[trigger] order[k] < self.nodes@.len()
        &&& self.head == slot_at(order, 0)
        &&& self.tail == slot_at(order, n - 1)
        &&& forall|k: int|
            0 <= k < n ==> {
                &&& (#[trigger] self.nodes@[order[k] as int]).prev == slot_at(order, k - 1)
                &&& self.nodes@[order[k] as int].next == slot_at(order, k + 1)
            }
    }

    /// The links form one chain from `head` to `tail` that visits every slot of the arena once.
    pub closed spec fn well_formed(&self) -> bool {
        &&& self.chain()
        &&& self.nodes@.len() == self.order@.len()
        &&& forall|i: usize| i < self.nodes@.len() ==> self.order@.contains(i)
    }

    /// Slot `h` has been unlinked: the chain visits every other slot once, and not `h`.
    spec fn detached(&self, h: usize) -> bool {
        &&& self.chain()
        &&& h < self.nodes@.len()
        &&& self.nodes@.len() == self.order@.len() + 1
        &&& !self.order@.contains(h)
        &&& forall|i: usize| i < self.nodes@.len() && i != h ==> self.order@.contains(i)
    }

    /// The handle on the node at position `k`, counted from the front.
    pub closed spec fn node_at(&self, k: int) -> NodeRef {
        NodeRef(self.order@[k])
    }

    /// `r` is a handle on one of the nodes of this list.
    pub open spec fn holds(&self, r: NodeRef) -> bool {
        exists|k: int| 0 <= k < self@.len() && self.node_at(k) == r
    }

    /// An empty list.
    pub fn new() -> (list: LinkedList<T>)
        ensures
            list.well_formed(),
            list@ == Seq::<T>::empty(),
    {
        let list = LinkedList { nodes: Vec::new(), head: None, tail: None, order: Ghost(Seq::empty()) };
        assert(list@ =~= Seq::<T>::empty());
        list
    }

    /// The number of elements.
    pub fn len(&self) -> (n: usize)
        requires
            self.well_formed(),
        ensures
            n == self@.len(),
    {
        self.nodes.len()
    }

    pub fn is_empty(&self) -> (b: bool)
        requires
            self.well_formed(),
        ensures
            b == (self@.len() == 0),
    {
        self.head.is_none()
    }

    /// The handle on the first node, or `None` on an empty list.
    pub fn head(&self) -> (r: Option<NodeRef>)
        requires
            self.well_formed(),
        ensures
            r == (if self@.len() == 0 {
                None
            } else {
                Some(self.node_at(0))
            }),
    {
        match self.head {
            Some(h) => Some(NodeRef(h)),
            None => None,
        }
    }

    /// The handle on the last node, or `None` on an empty list.
    pub fn tail(&self) -> (r: Option<NodeRef>)
        requires
            self.well_formed(),
        ensures
            r == (if self@.len() == 0 {
                None
            } else {
                Some(self.node_at(self@.len() - 1))
            }),
    {
        match self.tail {
            Some(t) => Some(NodeRef(t)),
            None => None,
        }
    }

    /// The handle on the successor of the node at `r`, or `None` if that node is the last.
    pub fn next(&self, r: NodeRef) -> (s: Option<NodeRef>)
        requires
            self.well_formed(),
            self.holds(r),
        ensures
            forall|k: int|
                0 <= k < self@.len() && #[trigger] self.node_at(k) == r ==> s == (if k + 1
                    < self@.len() {
                    Some(self.node_at(k + 1))
                } else {
                    None
                }),
    {
        let ghost k = choose|k: int| 0 <= k < self@.len() && self.node_at(k) == r;
        assert(self.order@[k] == r.0);
        match self.nodes[r.0].next {
            Some(j) => Some(NodeRef(j)),
            None => None,
        }
    }

    /// The handle on the predecessor of the node at `r`, or `None` if that node is the first.
    pub fn prev(&self, r: NodeRef) -> (s: Option<NodeRef>)
        requires
            self.well_formed(),
            self.holds(r),
        ensures
            forall|k: int|
                0 <= k < self@.len() && #[trigger] self.node_at(k) == r ==> s == (if k > 0 {
                    Some(self.node_at(k - 1))
                } else {
                    None
                }),
    {
        let ghost k = choose|k: int| 0 <= k < self@.len() && self.node_at(k) == r;
        assert(self.order@[k] == r.0);
        match self.nodes[r.0].prev {
            Some(j) => Some(NodeRef(j)),
            None => None,
        }
    }

    /// The element held by the node at `r`.
    pub fn data(&self, r: NodeRef) -> (d: &T)
        requires
            self.well_formed(),
            self.holds(r),
        ensures
            forall|k: int| 0 <= k < self@.len() && #[trigger] self.node_at(k) == r ==> *d == self@[k],
    {
        let ghost k = choose|k: int| 0 <= k < self@.len() && self.node_at(k) == r;
        assert(self.order@[k] == r.0);
        &self.nodes[r.0].data
    }

    /// Inserts `data` as the new first element.
    pub fn push_front(&mut self, data: T)
        requires
            old(self).well_formed(),
        ensures
            final(self).well_formed(),
            final(self)@ == push_front_seq(old(self)@, data),
    {
        let ghost order = self.order@;
        let i = self.nodes.len();
        let mut node = Node::new(data);
        match self.head {
            Some(h) => {
                node.next = Some(h);
                self.nodes[h].prev = Some(i);
            },
            None => {
                self.tail = Some(i);
            },
        }
        self.nodes.push(node);
        self.head = Some(i);
        self.order = Ghost(seq![i] + order);
        proof {
            let new_order = self.order@;
            assert forall|k: int| 0 <= k < new_order.len() implies #[trigger] new_order[k]
                < new_order.len() by {
                if k > 0 {
                    assert(new_order[k] == order[k - 1]);
                }
            }
            assert forall|j: usize| j < new_order.len() implies new_order.contains(j) by {
                if j < i {
                    assert(order.contains(j));
                    let k = choose|k: int| 0 <= k < order.len() && order[k] == j;
                    assert(new_order[k + 1] == j);
                } else {
                    assert(new_order[0] == j);
                }
            }
            assert forall|k: int| 0 <= k < new_order.len() implies {
                &&& (#[trigger] self.nodes@[new_order[k] as int]).prev == slot_at(new_order, k - 1)
                &&& self.nodes@[new_order[k] as int].next == slot_at(new_order, k + 1)
            } by {
                if k > 0 {
                    assert(new_order[k] == order[k - 1]);
                }
            }
            assert(self@ =~= push_front_seq(old(self)@, data));
        }
    }

    /// Inserts `data` as the new last element.
    pub fn push_back(&mut self, data: T)
        requires
            old(self).well_formed(),
        ensures
            final(self).well_formed(),
            final(self)@ == push_back_seq(old(self)@, data),
    {
        let ghost order = self.order@;
        let i = self.nodes.len();
        let mut node = Node::new(data);
        match self.tail {
            Some(t) => {
                node.prev = Some(t);
                self.nodes[t].next = Some(i);
            },
            None => {
                self.head = Some(i);
            },
        }
        self.nodes.push(node);
        self.tail = Some(i);
        self.order = Ghost(order.push(i));
        proof {
            let new_order = self.order@;
            assert forall|k: int| 0 <= k < new_order.len() implies #[trigger] new_order[k]
                < new_order.len() by {
                if k < order.len() {
                    assert(new_order[k] == order[k]);
                }
            }
            assert forall|j: usize| j < new_order.len() implies new_order.contains(j) by {
                if j < i {
                    assert(order.contains(j));
                    let k = choose|k: int| 0 <= k < order.len() && order[k] == j;
                    assert(new_order[k] == j);
                } else {
                    assert(new_order[order.len() as int] == j);
                }
            }
            assert forall|k: int| 0 <= k < new_order.len() implies {
                &&& (#[trigger] self.nodes@[new_order[k] as int]).prev == slot_at(new_order, k - 1)
                &&& self.nodes@[new_order[k] as int].next == slot_at(new_order, k + 1)
            } by {
                if k < order.len() {
                    assert(new_order[k] == order[k]);
                }
            }
            assert(self@ =~= push_back_seq(old(self)@, data));
        }
    }

    /// Frees slot `h`, which no link reaches any more, and returns its element. The last slot
    /// of the arena moves into the hole, and the links that pointed at it follow.
    fn remove_slot(&mut self, h: usize) -> (data: T)
        requires
            old(self).detached(h),
        ensures
            final(self).well_formed(),
            final(self)@ == old(self)@,
            data == old(self).nodes@[h as int].data,
    {
        let ghost order = self.order@;
        let ghost old_nodes = self.nodes@;
        let last = self.nodes.len() - 1;
        let node = self.nodes.swap_remove(h);
        if h < last {
            proof {
                assert(order.contains(last));
            }
            let ghost km = choose|k: int| 0 <= k < order.len() && order[k] == last;
            let prev = self.nodes[h].prev;
            let next = self.nodes[h].next;
            assert(prev == slot_at(order, km - 1));
            assert(next == slot_at(order, km + 1));
            match prev {
                Some(p) => {
                    self.nodes[p].next = Some(h);
                },
                None => {
                    self.head = Some(h);
                },
            }
            match next {
                Some(q) => {
                    self.nodes[q].prev = Some(h);
                },
                None => {
                    self.tail = Some(h);
                },
            }
            self.order = Ghost(order.update(km, h));
            proof {
                let new_order = self.order@;
                assert forall|k: int| 0 <= k < new_order.len() implies #[trigger] new_order[k]
                    < self.nodes@.len() by {
                    if k != km {
                        assert(order[k] != last);
                    }
                }
                assert forall|i: usize| i < self.nodes@.len() implies new_order.contains(i) by {
                    if i == h {
                        assert(new_order[km] == i);
                    } else {
                        assert(order.contains(i));
                        let k = choose|k: int| 0 <= k < order.len() && order[k] == i;
                        assert(new_order[k] == i);
                    }
                }
                assert forall|k: int| 0 <= k < new_order.len() implies {
                    &&& (#[trigger] self.nodes@[new_order[k] as int]).prev == slot_at(
                        new_order,
                        k - 1,
                    )
                    &&& self.nodes@[new_order[k] as int].next == slot_at(new_order, k + 1)
                } by {
                    assert(old_nodes[order[k] as int].prev == slot_at(order, k - 1));
                    assert(old_nodes[order[k] as int].next == slot_at(order, k + 1));
                }
                assert(new_order.no_duplicates());
                assert(self@ =~= old(self)@);
            }
        } else {
            proof {
                assert(self@ =~= old(self)@);
            }
        }
        node.data
    }

    /// Removes the first element and returns it, or returns `None` on an empty list.
    pub fn pop_front(&mut self) -> (r: Option<T>)
        requires
            old(self).well_formed(),
        ensures
            final(self).well_formed(),
            (final(self)@, r) == pop_front_seq(old(self)@),
    {
        match self.head {
            None => None,
            Some(h) => {
                let ghost order = self.order@;
                match self.nodes[h].next {
                    Some(s) => {
                        self.nodes[s].prev = None;
                        self.head = Some(s);
                    },
                    None => {
                        self.head = None;
                        self.tail = None;
                    },
                }
                self.order = Ghost(order.drop_first());
                proof {
                    let new_order = self.order@;
                    assert forall|k: int| 0 <= k < new_order.len() implies {
                        &&& (#[trigger] self.nodes@[new_order[k] as int]).prev == slot_at(
                            new_order,
                            k - 1,
                        )
                        &&& self.nodes@[new_order[k] as int].next == slot_at(new_order, k + 1)
                    } by {
                        assert(new_order[k] == order[k + 1]);
                    }
                    assert forall|i: usize|
                        i < self.nodes@.len() && i != h implies new_order.contains(i) by {
                        assert(order.contains(i));
                        let k = choose|k: int| 0 <= k < order.len() && order[k] == i;
                        assert(new_order[k - 1] == i);
                    }
                    assert(self@ =~= old(self)@.drop_first());
                }
                let data = self.remove_slot(h);
                Some(data)
            },
        }
    }

    /// Removes the last element and returns it, or returns `None` on an empty list.
    pub fn pop_back(&mut self) -> (r: Option<T>)
        requires
            old(self).well_formed(),
        ensures
            final(self).well_formed(),
            (final(self)@, r) == pop_back_seq(old(self)@),
    {
        match self.tail {
            None => None,
            Some(t) => {
                let ghost order = self.order@;
                match self.nodes[t].prev {
                    Some(p) => {
                        self.nodes[p].next = None;
                        self.tail = Some(p);
                    },
                    None => {
                        self.head = None;
                        self.tail = None;
                    },
                }
                self.order = Ghost(order.drop_last());
                proof {
                    let new_order = self.order@;
                    assert forall|k: int| 0 <= k < new_order.len() implies {
                        &&& (#[trigger] self.nodes@[new_order[k] as int]).prev == slot_at(
                            new_order,
                            k - 1,
                        )
                        &&& self.nodes@[new_order[k] as int].next == slot_at(new_order, k + 1)
                    } by {
                        assert(new_order[k] == order[k]);
                    }
                    assert forall|i: usize|
                        i < self.nodes@.len() && i != t implies new_order.contains(i) by {
                        assert(order.contains(i));
                        let k = choose|k: int| 0 <= k < order.len() && order[k] == i;
                        assert(new_order[k] == i);
                    }
                    assert(self@ =~= old(self)@.drop_last());
                }
                let data = self.remove_slot(t);
                Some(data)
            },
        }
    }
}

impl<T: PartialEq> PartialEq for LinkedList<T> {
    /// Two lists are equal when they hold equal elements in the same order, however their
    /// arenas are laid out.
    fn eq(&self, other: &Self) -> (r: bool)
        ensures
            self.well_formed() && other.well_formed() && T::obeys_eq_spec() ==> (r
                == same_elements(self@, other@)),
    {
        let n = self.nodes.len();
        if n != other.nodes.len() {
            return false;
        }
        let mut a = self.head;
        let mut b = other.head;
        let mut k: usize = 0;
        while k < n
            invariant
                n == self.nodes@.len(),
                n == other.nodes@.len(),
                k <= n,
                self.well_formed() && other.well_formed() ==> {
                    &&& a == slot_at(self.order@, k as int)
                    &&& b == slot_at(other.order@, k as int)
                    &&& T::obeys_eq_spec() ==> forall|j: int|
                        0 <= j < k ==> (#[trigger] self@[j]).eq_spec(&other@[j])
                },
            decreases n - k,
        {
            match (a, b) {
                (Some(i), Some(j)) => {
                    if i >= n || j >= n {
                        return false;
                    }
                    proof {
                        if self.well_formed() && other.well_formed() {
                            assert(self@[k as int] == self.nodes@[i as int].data);
                            assert(other@[k as int] == other.nodes@[j as int].data);
                        }
                    }
                    if !self.nodes[i].data.eq(&other.nodes[j].data) {
                        return false;
                    }
                    a = self.nodes[i].next;
                    b = other.nodes[j].next;
                },
                _ => {
                    return false;
                },
            }
            k = k + 1;
        }
        true
    }
}

impl<T: PartialEq> vstd::std_specs::cmp::PartialEqSpecImpl for LinkedList<T> {
    /// Only lists built by this module's operations are compared by their elements, so the
    /// contract of `eq` above, not this one, says what `==` returns.
    open spec fn obeys_eq_spec() -> bool {
        false
    }

    open spec fn eq_spec(&self, other: &Self) -> bool {
        same_elements(self@, other@)
    }
}

} // verus!
