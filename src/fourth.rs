//! A double-ended queue built as a doubly-linked chain of nodes.
//!
//! The nodes live in one arena and refer to their neighbours by slot index,
//! so each node is reachable from both sides without shared ownership or a
//! run-time borrow check: the arena is the single owner, and the borrow
//! rules on `&`/`&mut self` keep a peek guard and a structural change apart.
//! Popping moves the arena's last node into the freed slot, so the arena
//! never holds a dead node and a stale index can never be reused. For the
//! same reason a deque is torn down in one pass over the arena: no node owns
//! another, so releasing a long chain never nests one drop inside another.
use vstd::prelude::*;

verus! {

struct Node<T> {
    elem: T,
    next: Option<usize>,
    prev: Option<usize>,
}

impl<T> Node<T> {
    /// A node holding `elem`, linked to `prev` and `next`.
    fn new(elem: T, prev: Option<usize>, next: Option<usize>) -> (r: Self)
        ensures
            r == (Node { elem, next, prev }),
    {
        Node { elem: elem, next: next, prev: prev }
    }
}

/// A double-ended queue; its view lists the elements from front to back.
pub struct List<T> {
    nodes: Vec<Node<T>>,
    head: Option<usize>,
    tail: Option<usize>,
    /// The slot of the element at each position, front first.
    order: Ghost<Seq<usize>>,
    /// The position of the element held in each slot.
    rank: Ghost<Seq<int>>,
}

/// The slot that position `i` of `order` links to on the side of the front.
spec fn before(order: Seq<usize>, i: int) -> Option<usize> {
    if i == 0 {
        None
    } else {
        Some(order[i - 1])
    }
}

/// The slot that position `i` of `order` links to on the side of the back.
spec fn after(order: Seq<usize>, i: int) -> Option<usize> {
    if i == order.len() - 1 {
        None
    } else {
        Some(order[i + 1])
    }
}

/// `nodes` threads every slot but `spare` (when there is one) exactly once,
/// in the order that `ord` gives, from `head` to `tail`; `rk` is the inverse
/// of `ord`, and `prev`/`next` of each node name its neighbours in `ord`.
spec fn chain<T>(
    nodes: Seq<Node<T>>,
    head: Option<usize>,
    tail: Option<usize>,
    ord: Seq<usize>,
    rk: Seq<int>,
    spare: Option<usize>,
) -> bool {
    let n = nodes.len();
    let m = ord.len();
    &&& n == m + (if spare is Some { 1int } else { 0 })
    &&& rk.len() == n
    &&& spare matches Some(s) ==> s < n
    &&& forall|i: int|
        0 <= i < m ==> {
            &&& (#[trigger] ord[i]) < n
            &&& Some(ord[i]) != spare
            &&& rk[ord[i] as int] == i
        }
    &&& forall|i: int|
        0 <= i < m ==> {
            &&& (#[trigger] nodes[ord[i] as int]).prev == before(ord, i)
            &&& nodes[ord[i] as int].next == after(ord, i)
        }
    &&& forall|t: int| 0 <= t < n && !(spare matches Some(s) && t == s) ==> 0 <= #[trigger] rk[t] < m && ord[rk[t]] == t
    &&& head == (if m == 0 { None } else { Some(ord[0]) })
    &&& tail == (if m == 0 { None } else { Some(ord[m - 1]) })
}

/// The arena after the last node has moved into the spare slot `s` and its
/// neighbours have been pointed at `s`.
spec fn relinked<T>(nodes: Seq<Node<T>>, ord: Seq<usize>, rk: Seq<int>, s: usize) -> Seq<Node<T>> {
    let last = nodes.len() - 1;
    let j = rk[last];
    let n1 = nodes.update(s as int, nodes[last]).drop_last();
    let n2 = if j > 0 {
        n1.update(ord[j - 1] as int, Node { next: Some(s), ..n1[ord[j - 1] as int] })
    } else {
        n1
    };
    if j < ord.len() - 1 {
        n2.update(ord[j + 1] as int, Node { prev: Some(s), ..n2[ord[j + 1] as int] })
    } else {
        n2
    }
}

/// Moving the last node into the spare slot and relinking it keeps the chain
/// whole, with the same elements at the same positions.
proof fn lemma_relinked<T>(
    nodes: Seq<Node<T>>,
    head: Option<usize>,
    tail: Option<usize>,
    ord: Seq<usize>,
    rk: Seq<int>,
    s: usize,
)
    requires
        chain(nodes, head, tail, ord, rk, Some(s)),
        s < nodes.len() - 1,
    ensures
        ({
            let j = rk[nodes.len() - 1];
            let ord2 = ord.update(j, s);
            let nodes2 = relinked(nodes, ord, rk, s);
            &&& chain(
                nodes2,
                if j == 0 { Some(s) } else { head },
                if j == ord.len() - 1 { Some(s) } else { tail },
                ord2,
                rk.update(s as int, j).drop_last(),
                None,
            )
            &&& forall|i: int| 0 <= i < ord.len() ==> #[trigger] nodes2[ord2[i] as int].elem == nodes[ord[i] as int].elem
        }),
{
    let last = nodes.len() - 1;
    let j = rk[last];
    let m = ord.len();
    let ord2 = ord.update(j, s);
    let rk2 = rk.update(s as int, j).drop_last();
    let nodes2 = relinked(nodes, ord, rk, s);
    assert(ord[j] == last);
    assert forall|i: int| 0 <= i < m implies {
        &&& (#[trigger] ord2[i]) < nodes2.len()
        &&& Some(ord2[i]) != None::<usize>
        &&& rk2[ord2[i] as int] == i
        &&& nodes2[ord2[i] as int].prev == before(ord2, i)
        &&& nodes2[ord2[i] as int].next == after(ord2, i)
        &&& nodes2[ord2[i] as int].elem == nodes[ord[i] as int].elem
    } by {
        if i == j {
            assert(ord2[i] == s);
        } else {
            assert(rk[ord[i] as int] == i);
            assert(ord[i] != last);
            assert(ord2[i] == ord[i]);
            if j > 0 {
                assert(rk[ord[j - 1] as int] == j - 1);
            }
            if j < m - 1 {
                assert(rk[ord[j + 1] as int] == j + 1);
            }
        }
    }
    assert forall|t: int| 0 <= t < nodes2.len() implies 0
        <= #[trigger] rk2[t] < m && ord2[rk2[t]] == t by {
        if t != s {
            assert(ord[rk[t]] == t);
        }
    }
}

/// The slot reached from `start` by following `next` links `k` times;
/// `None` once a link is absent.
spec fn walk_next<T>(nodes: Seq<Node<T>>, start: Option<usize>, k: nat) -> Option<usize>
    decreases k,
{
    if k == 0 {
        start
    } else {
        match start {
            Some(x) => walk_next(nodes, nodes[x as int].next, (k - 1) as nat),
            None => None,
        }
    }
}

/// The slot reached from `start` by following `prev` links `k` times;
/// `None` once a link is absent.
spec fn walk_prev<T>(nodes: Seq<Node<T>>, start: Option<usize>, k: nat) -> Option<usize>
    decreases k,
{
    if k == 0 {
        start
    } else {
        match start {
            Some(x) => walk_prev(nodes, nodes[x as int].prev, (k - 1) as nat),
            None => None,
        }
    }
}

/// From position `i` of a chain, `k` steps along `next` reach position
/// `i + k`, and one step past the last position reaches nothing.
proof fn lemma_walk_next<T>(
    nodes: Seq<Node<T>>,
    head: Option<usize>,
    tail: Option<usize>,
    ord: Seq<usize>,
    rk: Seq<int>,
    i: int,
    k: nat,
)
    requires
        chain(nodes, head, tail, ord, rk, None),
        0 <= i,
        i + k < ord.len(),
    ensures
        walk_next(nodes, Some(ord[i]), k) == Some(ord[i + k]),
        i + k == ord.len() - 1 ==> walk_next(nodes, Some(ord[i]), k + 1) is None,
    decreases k,
{
    assert(nodes[ord[i] as int].next == after(ord, i));
    if k == 0 {
        assert(walk_next(nodes, Some(ord[i]), 1) == walk_next(nodes, after(ord, i), 0));
    } else {
        lemma_walk_next(nodes, head, tail, ord, rk, i + 1, (k - 1) as nat);
        assert(walk_next(nodes, Some(ord[i]), k) == walk_next(nodes, Some(ord[i + 1]), (k - 1) as nat));
        assert(walk_next(nodes, Some(ord[i]), k + 1) == walk_next(nodes, Some(ord[i + 1]), k));
    }
}

/// From position `i` of a chain, `k` steps along `prev` reach position
/// `i - k`, and one step past the first position reaches nothing.
proof fn lemma_walk_prev<T>(
    nodes: Seq<Node<T>>,
    head: Option<usize>,
    tail: Option<usize>,
    ord: Seq<usize>,
    rk: Seq<int>,
    i: int,
    k: nat,
)
    requires
        chain(nodes, head, tail, ord, rk, None),
        i < ord.len(),
        0 <= i - k,
    ensures
        walk_prev(nodes, Some(ord[i]), k) == Some(ord[i - k]),
        i - k == 0 ==> walk_prev(nodes, Some(ord[i]), k + 1) is None,
    decreases k,
{
    assert(nodes[ord[i] as int].prev == before(ord, i));
    if k == 0 {
        assert(walk_prev(nodes, Some(ord[i]), 1) == walk_prev(nodes, before(ord, i), 0));
    } else {
        lemma_walk_prev(nodes, head, tail, ord, rk, i - 1, (k - 1) as nat);
        assert(walk_prev(nodes, Some(ord[i]), k) == walk_prev(nodes, Some(ord[i - 1]), (k - 1) as nat));
        assert(walk_prev(nodes, Some(ord[i]), k + 1) == walk_prev(nodes, Some(ord[i - 1]), k));
    }
}

impl<T> View for List<T> {
    type V = Seq<T>;

    closed spec fn view(&self) -> Seq<T> {
        Seq::new(self.order@.len(), |i: int| self.nodes@[self.order@[i] as int].elem)
    }
}

impl<T> List<T> {
    /// The chain threads every slot of the arena but `spare`.
    closed spec fn threaded(&self, spare: Option<usize>) -> bool {
        chain(self.nodes@, self.head, self.tail, self.order@, self.rank@, spare)
    }

    /// Well-formedness: every node of the arena is linked into one chain
    /// from `head` to `tail`, with `next` and `prev` mirroring each other.
    pub closed spec fn wf(&self) -> bool {
        self.threaded(None)
    }

    /// An empty deque.
    pub fn new() -> (r: Self)
        ensures
            r.wf(),
            r@ == Seq::<T>::empty(),
    {
        List { nodes: Vec::new(), head: None, tail: None, order: Ghost(Seq::empty()), rank: Ghost(Seq::empty()) }
    }

    /// Points the `next` link of slot `slot` at `to`.
    fn set_next(&mut self, slot: usize, to: Option<usize>)
        requires
            slot < old(self).nodes@.len(),
        ensures
            final(self).nodes@ == old(self).nodes@.update(
                slot as int,
                Node { next: to, ..old(self).nodes@[slot as int] },
            ),
            final(self).head == old(self).head,
            final(self).tail == old(self).tail,
            final(self).order == old(self).order,
            final(self).rank == old(self).rank,
    {
        self.nodes[slot].next = to;
    }

    /// Points the `prev` link of slot `slot` at `to`.
    fn set_prev(&mut self, slot: usize, to: Option<usize>)
        requires
            slot < old(self).nodes@.len(),
        ensures
            final(self).nodes@ == old(self).nodes@.update(
                slot as int,
                Node { prev: to, ..old(self).nodes@[slot as int] },
            ),
            final(self).head == old(self).head,
            final(self).tail == old(self).tail,
            final(self).order == old(self).order,
            final(self).rank == old(self).rank,
    {
        self.nodes[slot].prev = to;
    }

    /// Puts `elem` in front of the first element.
    pub fn push_front(&mut self, elem: T)
        requires
            old(self).wf(),
        ensures
            final(self).wf(),
            final(self)@ == seq![elem] + old(self)@,
    {
        let k = self.nodes.len();
        let ghost old_order = self.order@;
        let ghost old_rank = self.rank@;
        let old_head = self.head;
        match old_head {
            Some(h) => {
                self.set_prev(h, Some(k));
            },
            None => {
                self.tail = Some(k);
            },
        }
        self.nodes.push(Node::new(elem, None, old_head));
        self.head = Some(k);
        self.order = Ghost(seq![k] + old_order);
        self.rank = Ghost(Seq::new(old_rank.len(), |t: int| old_rank[t] + 1).push(0));
        proof {
            let ord = self.order@;
            assert forall|i: int| 0 <= i < ord.len() implies {
                &&& (#[trigger] ord[i]) < self.nodes@.len()
                &&& self.rank@[ord[i] as int] == i
                &&& self.nodes@[ord[i] as int].prev == before(ord, i)
                &&& self.nodes@[ord[i] as int].next == after(ord, i)
            } by {
                if i > 0 {
                    assert(ord[i] == old_order[i - 1]);
                }
            }
            assert(self@ =~= seq![elem] + old(self)@);
        }
    }

    /// Puts `elem` behind the last element.
    pub fn push_back(&mut self, elem: T)
        requires
            old(self).wf(),
        ensures
            final(self).wf(),
            final(self)@ == old(self)@.push(elem),
    {
        let k = self.nodes.len();
        let ghost old_order = self.order@;
        let ghost old_rank = self.rank@;
        let old_tail = self.tail;
        match old_tail {
            Some(t) => {
                self.set_next(t, Some(k));
            },
            None => {
                self.head = Some(k);
            },
        }
        self.nodes.push(Node::new(elem, old_tail, None));
        self.tail = Some(k);
        self.order = Ghost(old_order.push(k));
        self.rank = Ghost(old_rank.push(k as int));
        proof {
            let ord = self.order@;
            assert forall|i: int| 0 <= i < ord.len() implies {
                &&& (#[trigger] ord[i]) < self.nodes@.len()
                &&& self.rank@[ord[i] as int] == i
                &&& self.nodes@[ord[i] as int].prev == before(ord, i)
                &&& self.nodes@[ord[i] as int].next == after(ord, i)
            } by {
                if i < ord.len() - 1 {
                    assert(ord[i] == old_order[i]);
                }
            }
            assert(self@ =~= old(self)@.push(elem));
        }
    }

    /// Frees slot `s`, which the chain no longer threads, by moving the
    /// arena's last node into it and pointing that node's neighbours (or the
    /// ends) at its new slot. Returns the element that `s` held.
    fn release(&mut self, s: usize) -> (elem: T)
        requires
            old(self).threaded(Some(s)),
        ensures
            final(self).wf(),
            final(self)@ == old(self)@,
            elem == old(self).nodes@[s as int].elem,
    {
        let ghost old_order = self.order@;
        let ghost old_rank = self.rank@;
        let ghost old_nodes = self.nodes@;
        let last = self.nodes.len() - 1;
        let node = self.nodes.swap_remove(s);
        if s < last {
            let ghost j = old_rank[last as int];
            proof {
                lemma_relinked(old_nodes, self.head, self.tail, old_order, old_rank, s);
                assert(old_order[j] == last);
            }
            let p = self.nodes[s].prev;
            let q = self.nodes[s].next;
            match p {
                Some(p) => {
                    self.set_next(p, Some(s));
                },
                None => {
                    self.head = Some(s);
                },
            }
            match q {
                Some(q) => {
                    self.set_prev(q, Some(s));
                },
                None => {
                    self.tail = Some(s);
                },
            }
            self.order = Ghost(old_order.update(j, s));
            self.rank = Ghost(old_rank.update(s as int, j).drop_last());
            proof {
                assert(self.nodes@ == relinked(old_nodes, old_order, old_rank, s));
                assert(self@ =~= old(self)@);
            }
        } else {
            self.rank = Ghost(old_rank.drop_last());
            proof {
                assert(self@ =~= old(self)@);
            }
        }
        node.elem
    }

    /// Takes the first element off; `None` exactly when the deque is empty.
    pub fn pop_front(&mut self) -> (r: Option<T>)
        requires
            old(self).wf(),
        ensures
            final(self).wf(),
            old(self)@.len() == 0 ==> r is None && final(self)@ == old(self)@,
            old(self)@.len() > 0 ==> r == Some(old(self)@[0]) && final(self)@
                == old(self)@.drop_first(),
    {
        match self.head {
            None => None,
            Some(h) => {
                let ghost old_order = self.order@;
                let ghost old_rank = self.rank@;
                proof {
                    assert(old_rank[old_order[0] as int] == 0);
                }
                match self.nodes[h].next {
                    Some(h2) => {
                        proof {
                            assert(after(old_order, 0) == Some(old_order[1]));
                        }
                        self.set_prev(h2, None);
                        self.head = Some(h2);
                    },
                    None => {
                        self.head = None;
                        self.tail = None;
                    },
                }
                self.order = Ghost(old_order.drop_first());
                self.rank = Ghost(Seq::new(old_rank.len(), |t: int| old_rank[t] - 1));
                proof {
                    let ord = self.order@;
                    assert forall|i: int| 0 <= i < ord.len() implies {
                        &&& (#[trigger] ord[i]) < self.nodes@.len()
                        &&& Some(ord[i]) != Some(h)
                        &&& self.rank@[ord[i] as int] == i
                        &&& self.nodes@[ord[i] as int].prev == before(ord, i)
                        &&& self.nodes@[ord[i] as int].next == after(ord, i)
                    } by {
                        assert(ord[i] == old_order[i + 1]);
                        assert(old_rank[old_order[i + 1] as int] == i + 1);
                    }
                    assert forall|t: int| 0 <= t < self.nodes@.len() && t != h
                        implies 0 <= #[trigger] self.rank@[t] < ord.len() && ord[self.rank@[t]] == t by {
                        assert(old_order[old_rank[t]] == t);
                    }
                    assert(self@ =~= old(self)@.drop_first());
                }
                let elem = self.release(h);
                Some(elem)
            },
        }
    }

    /// Takes the last element off; `None` exactly when the deque is empty.
    pub fn pop_back(&mut self) -> (r: Option<T>)
        requires
            old(self).wf(),
        ensures
            final(self).wf(),
            old(self)@.len() == 0 ==> r is None && final(self)@ == old(self)@,
            old(self)@.len() > 0 ==> r == Some(old(self)@.last()) && final(self)@
                == old(self)@.drop_last(),
    {
        match self.tail {
            None => None,
            Some(t0) => {
                let ghost old_order = self.order@;
                let ghost old_rank = self.rank@;
                let ghost n = old_order.len();
                proof {
                    assert(old_rank[old_order[n - 1] as int] == n - 1);
                }
                match self.nodes[t0].prev {
                    Some(t2) => {
                        proof {
                            assert(before(old_order, n - 1) == Some(old_order[n - 2]));
                        }
                        self.set_next(t2, None);
                        self.tail = Some(t2);
                    },
                    None => {
                        self.head = None;
                        self.tail = None;
                    },
                }
                self.order = Ghost(old_order.drop_last());
                proof {
                    let ord = self.order@;
                    assert forall|i: int| 0 <= i < ord.len() implies {
                        &&& (#[trigger] ord[i]) < self.nodes@.len()
                        &&& Some(ord[i]) != Some(t0)
                        &&& self.rank@[ord[i] as int] == i
                        &&& self.nodes@[ord[i] as int].prev == before(ord, i)
                        &&& self.nodes@[ord[i] as int].next == after(ord, i)
                    } by {
                        assert(ord[i] == old_order[i]);
                        assert(old_rank[old_order[i] as int] == i);
                    }
                    assert forall|t: int| 0 <= t < self.nodes@.len() && t != t0
                        implies 0 <= #[trigger] self.rank@[t] < ord.len() && ord[self.rank@[t]] == t by {
                        assert(old_order[old_rank[t]] == t);
                    }
                    assert(self@ =~= old(self)@.drop_last());
                }
                let elem = self.release(t0);
                Some(elem)
            },
        }
    }


    /// The first element, left in place; `None` exactly when the deque is empty.
    pub fn peek_front(&self) -> (r: Option<&T>)
        requires
            self.wf(),
        ensures
            self@.len() == 0 ==> r is None,
            self@.len() > 0 ==> r == Some(&self@[0]),
    {
        match self.head {
            Some(h) => Some(&self.nodes[h].elem),
            None => None,
        }
    }

    /// The last element, left in place; `None` exactly when the deque is empty.
    pub fn peek_back(&self) -> (r: Option<&T>)
        requires
            self.wf(),
        ensures
            self@.len() == 0 ==> r is None,
            self@.len() > 0 ==> r == Some(&self@.last()),
    {
        match self.tail {
            Some(t) => Some(&self.nodes[t].elem),
            None => None,
        }
    }

    /// Exclusive access to the first element; `None` exactly when the deque
    /// is empty. What is written through the reference becomes the first
    /// element, and nothing else changes.
    pub fn peek_front_mut(&mut self) -> (r: Option<&mut T>)
        requires
            old(self).wf(),
        ensures
            final(self).wf(),
            old(self)@.len() == 0 ==> r is None && final(self)@ == old(self)@,
            old(self)@.len() > 0 ==> (r matches Some(e) && *e == old(self)@[0] && final(self)@
                == old(self)@.update(0, *final(e))),
    {
        match self.head {
            Some(h) => Some(&mut self.nodes[h].elem),
            None => None,
        }
    }

    /// Exclusive access to the last element; `None` exactly when the deque
    /// is empty. What is written through the reference becomes the last
    /// element, and nothing else changes.
    pub fn peek_back_mut(&mut self) -> (r: Option<&mut T>)
        requires
            old(self).wf(),
        ensures
            final(self).wf(),
            old(self)@.len() == 0 ==> r is None && final(self)@ == old(self)@,
            old(self)@.len() > 0 ==> (r matches Some(e) && *e == old(self)@.last() && final(self)@
                == old(self)@.update(old(self)@.len() - 1, *final(e))),
    {
        match self.tail {
            Some(t) => Some(&mut self.nodes[t].elem),
            None => None,
        }
    }


    /// The slot that the front end designates; `None` when there is none.
    pub closed spec fn head_slot(&self) -> Option<usize> {
        self.head
    }

    /// The slot that the back end designates; `None` when there is none.
    pub closed spec fn tail_slot(&self) -> Option<usize> {
        self.tail
    }

    /// The slot reached from the front end by `k` steps along `next` links.
    pub closed spec fn forward(&self, k: nat) -> Option<usize> {
        walk_next(self.nodes@, self.head, k)
    }

    /// The slot reached from the back end by `k` steps along `prev` links.
    pub closed spec fn backward(&self, k: nat) -> Option<usize> {
        walk_prev(self.nodes@, self.tail, k)
    }

    /// The element that slot `slot` holds.
    pub closed spec fn elem_at(&self, slot: usize) -> T {
        self.nodes@[slot as int].elem
    }

    /// In every well-formed deque the two ends are absent together, exactly
    /// when it is empty; walking from the front along `next` visits the
    /// elements in order and reaches the back end after `len` nodes, then
    /// nothing; walking from the back along `prev` visits them in reverse
    /// and reaches the front end after `len` nodes, then nothing.
    pub proof fn lemma_links_walk(&self)
        requires
            self.wf(),
        ensures
            self.head_slot() is None <==> self@.len() == 0,
            self.tail_slot() is None <==> self@.len() == 0,
            forall|k: nat|
                k < self@.len() ==> (#[trigger] self.forward(k)) is Some && self.elem_at(
                    self.forward(k)->0,
                ) == self@[k as int],
            forall|k: nat|
                k < self@.len() ==> (#[trigger] self.backward(k)) is Some && self.elem_at(
                    self.backward(k)->0,
                ) == self@[self@.len() - 1 - k],
            self@.len() > 0 ==> self.forward((self@.len() - 1) as nat) == self.tail_slot(),
            self@.len() > 0 ==> self.backward((self@.len() - 1) as nat) == self.head_slot(),
            self.forward(self@.len()) is None,
            self.backward(self@.len()) is None,
    {
        let nodes = self.nodes@;
        let ord = self.order@;
        let rk = self.rank@;
        let m = ord.len();
        assert forall|k: nat| k < m implies (#[trigger] self.forward(k)) is Some && self.elem_at(
            self.forward(k)->0,
        ) == self@[k as int] by {
            lemma_walk_next(nodes, self.head, self.tail, ord, rk, 0, k);
        }
        assert forall|k: nat| k < m implies (#[trigger] self.backward(k)) is Some
            && self.elem_at(self.backward(k)->0) == self@[m - 1 - k] by {
            lemma_walk_prev(nodes, self.head, self.tail, ord, rk, m - 1, k);
        }
        if m > 0 {
            lemma_walk_next(nodes, self.head, self.tail, ord, rk, 0, (m - 1) as nat);
            lemma_walk_prev(nodes, self.head, self.tail, ord, rk, m - 1, (m - 1) as nat);
        }
    }

}

} // verus!
