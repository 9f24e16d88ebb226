//! A doubly-linked list of nodes that count their owners: the handles that
//! name a node, and the list that the node is linked into.

use crate::raw::Heap;
use crate::raw::Raw;
use vstd::prelude::*;

verus! {

/// A node of an [`IList`]. The sentinel of a list has the largest count
/// there is and no element; every other node has an element.
pub struct Node<T> {
    pub count: usize,
    pub next: Raw,
    pub prev: Raw,
    pub data: Option<T>,
}

impl<T> Node<T> {
    pub open spec fn sentinel(&self) -> bool {
        self.count == usize::MAX
    }

    pub open spec fn with_next(self, next: Raw) -> Node<T> {
        Node { count: self.count, next, prev: self.prev, data: self.data }
    }

    pub open spec fn with_prev(self, prev: Raw) -> Node<T> {
        Node { count: self.count, next: self.next, prev, data: self.data }
    }

    pub open spec fn with_count(self, count: usize) -> Node<T> {
        Node { count, next: self.next, prev: self.prev, data: self.data }
    }

    pub fn is_sentinel(&self) -> (r: bool)
        ensures
            r == self.sentinel(),
    {
        self.count == usize::MAX
    }

    pub fn inc_count(&mut self)
        requires
            old(self).count < usize::MAX - 1,
        ensures
            *final(self) == old(self).with_count((old(self).count + 1) as usize),
    {
        let count = self.count;
        self.count = count + 1;
    }

    pub fn dec_count(&mut self)
        requires
            1 <= old(self).count < usize::MAX,
        ensures
            *final(self) == old(self).with_count((old(self).count - 1) as usize),
    {
        let count = self.count;
        self.count = count - 1;
    }
}

/// The node at `a` is sound: it is detached, with both links null, or
/// linked, with each neighbour pointing back at it; and only a sentinel
/// lacks an element. Being linked counts as one owner.
pub open spec fn node_ok<T>(h: Map<usize, Node<T>>, a: usize) -> bool {
    let n = h[a];
    &&& a != 0
    &&& n.next.meta == 0
    &&& n.prev.meta == 0
    &&& (n.next.addr == 0) == (n.prev.addr == 0)
    &&& n.next.addr != 0 ==> h.dom().contains(n.next.addr) && h[n.next.addr].prev == Raw::thin(a)
        && h.dom().contains(n.prev.addr) && h[n.prev.addr].next == Raw::thin(a)
    &&& n.sentinel() == (n.data is None)
    &&& (!n.sentinel() && n.next.addr != 0) ==> n.count >= 1
}

/// Every node of the arena is sound: the linked nodes form rings.
pub open spec fn rings<T>(h: Map<usize, Node<T>>) -> bool {
    forall|a: usize| h.dom().contains(a) ==> #[trigger] node_ok(h, a)
}

/// The address at place `i` of the ring of the list whose nodes are `q` and
/// whose sentinel is at `s`: the sentinel stands before the first node and
/// behind the last.
pub open spec fn ring_at(q: Seq<usize>, s: usize, i: int) -> usize {
    if 0 <= i < q.len() {
        q[i]
    } else {
        s
    }
}

/// The nodes of the list around the sentinel at `s` are those at `q`, from
/// the first to the last.
pub open spec fn in_order<T>(h: Map<usize, Node<T>>, s: usize, q: Seq<usize>) -> bool {
    &&& h.dom().contains(s)
    &&& h[s].sentinel()
    &&& q.no_duplicates()
    &&& forall|i: int| 0 <= i < q.len() ==> h.dom().contains(#[trigger] q[i]) && !h[q[i]].sentinel()
    &&& q.len() == 0 ==> h[s].next.addr == 0 || h[s].next.addr == s
    &&& q.len() > 0 ==> forall|i: int|
        -1 <= i < q.len() ==> (#[trigger] h[ring_at(q, s, i)]).next.addr == ring_at(q, s, i + 1)
}

/// `q` without `v`.
pub open spec fn without(q: Seq<usize>, v: usize) -> Seq<usize> {
    if q.contains(v) {
        q.remove(q.index_of(v))
    } else {
        q
    }
}

/// The arena after the node at `a` has left its ring: its neighbours point
/// at each other, its own links are null, and it has one owner less (a
/// sentinel keeps its count).
pub open spec fn unlinked<T>(h: Map<usize, Node<T>>, a: usize) -> Map<usize, Node<T>> {
    let n = h[a];
    if n.next.addr == 0 {
        h
    } else {
        let h1 = h.insert(
            a,
            Node {
                count: if n.sentinel() {
                    n.count
                } else {
                    (n.count - 1) as usize
                },
                next: Raw::thin(0),
                prev: Raw::thin(0),
                data: n.data,
            },
        );
        if n.prev.addr == a {
            h1
        } else {
            let h2 = h1.insert(n.prev.addr, h1[n.prev.addr].with_next(n.next));
            h2.insert(n.next.addr, h2[n.next.addr].with_prev(n.prev))
        }
    }
}

/// The arena after the detached node at `v` has been linked in behind the
/// node at `s`.
pub open spec fn linked_after<T>(h: Map<usize, Node<T>>, s: usize, v: usize) -> Map<usize, Node<T>> {
    let next = h[s].next;
    let h1 = h.insert(v, h[v].with_prev(Raw::thin(s)).with_next(next));
    let h2 = h1.insert(s, h1[s].with_next(Raw::thin(v)));
    h2.insert(next.addr, h2[next.addr].with_prev(Raw::thin(v)))
}

/// The arena after the detached node at `v` has been linked in before the
/// node at `s`.
pub open spec fn linked_before<T>(h: Map<usize, Node<T>>, s: usize, v: usize) -> Map<
    usize,
    Node<T>,
> {
    let prev = h[s].prev;
    let h1 = h.insert(v, h[v].with_next(Raw::thin(s)).with_prev(prev));
    let h2 = h1.insert(s, h1[s].with_prev(Raw::thin(v)));
    h2.insert(prev.addr, h2[prev.addr].with_next(Raw::thin(v)))
}

/// The arena after the detached node at `v` has become the only element of
/// the list whose sentinel is at `s`.
pub open spec fn linked_alone<T>(h: Map<usize, Node<T>>, s: usize, v: usize) -> Map<usize, Node<T>> {
    let h1 = h.insert(v, h[v].with_next(Raw::thin(s)).with_prev(Raw::thin(s)));
    h1.insert(s, h1[s].with_next(Raw::thin(v)).with_prev(Raw::thin(v)))
}

/// What holds of the arena `h2` after the node at `a` has left its ring in
/// `h`: the same nodes are there; the node at `a` is detached, with one
/// owner less if it was linked and is no sentinel; every other node has its
/// count and its element, and is linked if it was; a detached node is as it
/// was.
pub open spec fn left<T>(h: Map<usize, Node<T>>, h2: Map<usize, Node<T>>, a: usize) -> bool {
    &&& h2.dom() =~= h.dom()
    &&& h2[a].next.addr == 0
    &&& h2[a].data == h[a].data
    &&& h2[a].count == if h[a].next.addr != 0 && !h[a].sentinel() {
        (h[a].count - 1) as usize
    } else {
        h[a].count
    }
    &&& forall|b: usize|
        h.dom().contains(b) && b != a ==> (#[trigger] h2[b]).count == h[b].count && h2[b].data
            == h[b].data && (h2[b].next.addr == 0) == (h[b].next.addr == 0)
    &&& forall|b: usize| h.dom().contains(b) && h[b].next.addr == 0 ==> #[trigger] h2[b] == h[b]
}

/// A node's leaving its ring keeps the arena sound, and changes neither
/// which nodes there are nor the count or the element of another node.
#[verifier::rlimit(50)]
pub proof fn lemma_unlinked<T>(h: Map<usize, Node<T>>, a: usize)
    requires
        rings(h),
        h.dom().contains(a),
    ensures
        rings(unlinked(h, a)),
        left(h, unlinked(h, a), a),
{
    let n = h[a];
    let h3 = unlinked(h, a);
    assert(node_ok(h, a));
    if n.next.addr != 0 {
        let p = n.prev.addr;
        let x = n.next.addr;
        assert(node_ok(h, p));
        assert(node_ok(h, x));
        if p == a {
            assert(x == a);
        } else {
            assert(x != a);
        }
        assert forall|b: usize| #[trigger] h3.dom().contains(b) implies node_ok(h3, b) by {
            assert(node_ok(h, b));
            let m = h[b];
            if b != a && b != p && b != x {
                assert(h3[b] == h[b]);
                if m.next.addr != 0 {
                    assert(node_ok(h, m.next.addr));
                    assert(node_ok(h, m.prev.addr));
                    assert(m.next.addr != a);
                    assert(m.prev.addr != a);
                    assert(h3[m.next.addr].prev == h[m.next.addr].prev);
                    assert(h3[m.prev.addr].next == h[m.prev.addr].next);
                }
            } else if b != a {
                assert(node_ok(h, m.next.addr));
                assert(node_ok(h, m.prev.addr));
                if b == p && b == x {
                    assert(h3[b].next == Raw::thin(b));
                    assert(h3[b].prev == Raw::thin(b));
                } else if b == p {
                    assert(h3[b].next == Raw::thin(x));
                    assert(h3[b].prev == m.prev);
                    assert(h3[x].prev == Raw::thin(p));
                    assert(m.prev.addr != a);
                    assert(h3[m.prev.addr].next == h[m.prev.addr].next);
                } else {
                    assert(h3[b].prev == Raw::thin(p));
                    assert(h3[b].next == m.next);
                    assert(h3[p].next == Raw::thin(x));
                    assert(m.next.addr != a);
                    assert(h3[m.next.addr].prev == h[m.next.addr].prev);
                }
            }
        }
    }
}

/// Takes the node at `a` out of its ring, if it is in one.
fn unlink<T>(heap: &mut Heap<Node<T>>, a: usize)
    requires
        old(heap).wf(),
        rings(old(heap)@),
        old(heap)@.dom().contains(a),
    ensures
        final(heap).wf(),
        rings(final(heap)@),
        final(heap)@ == unlinked(old(heap)@, a),
        final(heap)@.dom() =~= old(heap)@.dom(),
        final(heap).full() == old(heap).full(),
{
    proof {
        assert(node_ok(heap@, a));
        lemma_unlinked(heap@, a);
    }
    let node = heap.get_mut(a);
    let prev = node.prev;
    let next = node.next;
    if prev.is_null() {
        proof {
            assert(heap@ =~= old(heap)@);
        }
        return ;
    }
    assert(node_ok(old(heap)@, prev.addr));
    assert(node_ok(old(heap)@, next.addr));
    node.prev = Raw::null();
    node.next = Raw::null();
    if !node.is_sentinel() {
        node.dec_count();
    }
    if prev.addr != a {
        let before = heap.get_mut(prev.addr);
        before.next = next;
        let after = heap.get_mut(next.addr);
        after.prev = prev;
    }
    proof {
        assert(heap@ =~= unlinked(old(heap)@, a));
    }
}

/// Links the detached node at `v` in behind the linked node at `s`.
fn link_after<T>(heap: &mut Heap<Node<T>>, s: usize, v: usize)
    requires
        old(heap).wf(),
        rings(old(heap)@),
        old(heap)@.dom().contains(s),
        old(heap)@.dom().contains(v),
        old(heap)@[s].next.addr != 0,
        old(heap)@[v].next.addr == 0,
        !old(heap)@[v].sentinel(),
        old(heap)@[v].count >= 1,
    ensures
        final(heap).wf(),
        rings(final(heap)@),
        final(heap)@ == linked_after(old(heap)@, s, v),
        final(heap)@.dom() =~= old(heap)@.dom(),
        final(heap).full() == old(heap).full(),
{
    assert(node_ok(heap@, s));
    assert(node_ok(heap@, v));
    let next = heap.get(s).next;
    assert(node_ok(heap@, next.addr));
    let node = heap.get_mut(v);
    node.prev = Raw::new(s, 0);
    node.next = next;
    let here = heap.get_mut(s);
    here.next = Raw::new(v, 0);
    let after = heap.get_mut(next.addr);
    after.prev = Raw::new(v, 0);
    proof {
        assert(heap@ =~= linked_after(old(heap)@, s, v));
        assert forall|b: usize| #[trigger] heap@.dom().contains(b) implies node_ok(heap@, b) by {
            assert(node_ok(old(heap)@, b));
            let n = old(heap)@[b];
            if n.next.addr != 0 {
                assert(node_ok(old(heap)@, n.next.addr));
                assert(node_ok(old(heap)@, n.prev.addr));
            }
        }
    }
}

/// Links the detached node at `v` in before the linked node at `s`.
fn link_before<T>(heap: &mut Heap<Node<T>>, s: usize, v: usize)
    requires
        old(heap).wf(),
        rings(old(heap)@),
        old(heap)@.dom().contains(s),
        old(heap)@.dom().contains(v),
        old(heap)@[s].next.addr != 0,
        old(heap)@[v].next.addr == 0,
        !old(heap)@[v].sentinel(),
        old(heap)@[v].count >= 1,
    ensures
        final(heap).wf(),
        rings(final(heap)@),
        final(heap)@ == linked_before(old(heap)@, s, v),
        final(heap)@.dom() =~= old(heap)@.dom(),
        final(heap).full() == old(heap).full(),
{
    assert(node_ok(heap@, s));
    assert(node_ok(heap@, v));
    let prev = heap.get(s).prev;
    assert(node_ok(heap@, prev.addr));
    let node = heap.get_mut(v);
    node.next = Raw::new(s, 0);
    node.prev = prev;
    let here = heap.get_mut(s);
    here.prev = Raw::new(v, 0);
    let before = heap.get_mut(prev.addr);
    before.next = Raw::new(v, 0);
    proof {
        assert(heap@ =~= linked_before(old(heap)@, s, v));
        assert forall|b: usize| #[trigger] heap@.dom().contains(b) implies node_ok(heap@, b) by {
            assert(node_ok(old(heap)@, b));
            let n = old(heap)@[b];
            if n.next.addr != 0 {
                assert(node_ok(old(heap)@, n.next.addr));
                assert(node_ok(old(heap)@, n.prev.addr));
            }
        }
    }
}

/// Links the detached node at `v` to the sentinel at `s` of an empty list
/// whose links are null.
fn link_alone<T>(heap: &mut Heap<Node<T>>, s: usize, v: usize)
    requires
        old(heap).wf(),
        rings(old(heap)@),
        old(heap)@.dom().contains(s),
        old(heap)@.dom().contains(v),
        old(heap)@[s].sentinel(),
        old(heap)@[s].next.addr == 0,
        old(heap)@[v].next.addr == 0,
        !old(heap)@[v].sentinel(),
        old(heap)@[v].count >= 1,
    ensures
        final(heap).wf(),
        rings(final(heap)@),
        final(heap)@ == linked_alone(old(heap)@, s, v),
        final(heap)@.dom() =~= old(heap)@.dom(),
        final(heap).full() == old(heap).full(),
{
    assert(node_ok(heap@, s));
    assert(node_ok(heap@, v));
    let raw_s = Raw::new(s, 0);
    let raw_v = Raw::new(v, 0);
    let node = heap.get_mut(v);
    node.next = raw_s;
    node.prev = raw_s;
    let here = heap.get_mut(s);
    here.next = raw_v;
    here.prev = raw_v;
    proof {
        assert(heap@ =~= linked_alone(old(heap)@, s, v));
        assert forall|b: usize| #[trigger] heap@.dom().contains(b) implies node_ok(heap@, b) by {
            assert(node_ok(old(heap)@, b));
            let n = old(heap)@[b];
            if n.next.addr != 0 {
                assert(node_ok(old(heap)@, n.next.addr));
                assert(node_ok(old(heap)@, n.prev.addr));
            }
        }
    }
}

/// A handle on a node: one of the node's owners.
pub struct INode<T> {
    ptr: Raw,
    phantom: core::marker::PhantomData<std::rc::Rc<T>>,
}

impl<T> INode<T> {
    /// The address of the node.
    pub closed spec fn addr(&self) -> usize {
        self.ptr.addr
    }

    /// The arena is sound, the node lives in it, is no sentinel, and its
    /// count covers this handle besides the list that it may be linked into.
    pub open spec fn wf(&self, heap: &Heap<Node<T>>) -> bool {
        let n = heap@[self.addr()];
        &&& heap.wf()
        &&& rings(heap@)
        &&& heap@.dom().contains(self.addr())
        &&& !n.sentinel()
        &&& n.count >= (if n.next.addr != 0 {
            2usize
        } else {
            1usize
        })
    }

    /// A new detached node that holds `value`, with this handle as its only owner.
    pub fn new(heap: &mut Heap<Node<T>>, value: T) -> (r: INode<T>)
        requires
            old(heap).wf(),
            rings(old(heap)@),
            !old(heap).full(),
        ensures
            r.wf(final(heap)),
            r.addr() != 0,
            !old(heap)@.dom().contains(r.addr()),
            final(heap)@ == old(heap)@.insert(
                r.addr(),
                Node { count: 1, next: Raw::thin(0), prev: Raw::thin(0), data: Some(value) },
            ),
            forall|s: usize, q: Seq<usize>| #[trigger]
                in_order(old(heap)@, s, q) ==> in_order(final(heap)@, s, q),
    {
        let node = Node { count: 1, next: Raw::null(), prev: Raw::null(), data: Some(value) };
        let a = heap.allocate(node);
        proof {
            assert forall|b: usize| #[trigger] heap@.dom().contains(b) implies node_ok(heap@, b) by {
                if b != a {
                    assert(node_ok(old(heap)@, b));
                }
            }
        }
        proof {
            assert forall|s: usize, q: Seq<usize>| #[trigger]
                in_order(old(heap)@, s, q) implies in_order(heap@, s, q) by {
                lemma_order_stays(old(heap)@, heap@, s, q);
            }
        }
        INode { ptr: Raw::new(a, 0), phantom: core::marker::PhantomData }
    }

    /// The element of the node.
    pub fn as_ref<'a>(&self, heap: &'a Heap<Node<T>>) -> (r: &'a T)
        requires
            self.wf(heap),
        ensures
            heap@[self.addr()].data == Some(*r),
    {
        assert(node_ok(heap@, self.addr()));
        match &heap.get(self.ptr.addr).data {
            Some(d) => d,
            None => vstd::pervasive::unreached(),
        }
    }

    /// Takes the node out of the list that it is in, if it is in one.
    pub fn remove_from_list(&self, heap: &mut Heap<Node<T>>)
        requires
            self.wf(old(heap)),
        ensures
            self.wf(final(heap)),
            final(heap)@ == unlinked(old(heap)@, self.addr()),
            final(heap).full() == old(heap).full(),
            forall|s: usize, q: Seq<usize>| #[trigger]
                in_order(old(heap)@, s, q) ==> in_order(final(heap)@, s, without(q, self.addr())),
    {
        assert(node_ok(heap@, self.addr()));
        unlink(heap, self.ptr.addr);
        proof {
            assert forall|s: usize, q: Seq<usize>| #[trigger]
                in_order(old(heap)@, s, q) implies in_order(heap@, s, without(q, self.addr())) by {
                lemma_order_unlinked(old(heap)@, s, q, self.addr());
            }
        }
    }

    /// Links the node of `val` in behind this node, out of whatever list it
    /// was in. The list takes the place of the handle `val` as an owner.
    /// This node is in a list, and `val` is on another node: `in_list` and
    /// `same_node` tell.
    pub fn insert_after(&self, heap: &mut Heap<Node<T>>, val: INode<T>)
        requires
            self.wf(old(heap)),
            val.wf(old(heap)),
            old(heap)@[self.addr()].next.addr != 0,
            self.addr() != val.addr(),
        ensures
            self.wf(final(heap)),
            final(heap)@ == linked_after(unlinked(old(heap)@, val.addr()), self.addr(), val.addr()),
            final(heap).full() == old(heap).full(),
            forall|s: usize, q: Seq<usize>| #[trigger]
                in_order(old(heap)@, s, q) && q.contains(self.addr()) ==> in_order(
                    final(heap)@,
                    s,
                    without(q, val.addr()).insert(
                        without(q, val.addr()).index_of(self.addr()) + 1,
                        val.addr(),
                    ),
                ),
    {
        assert(node_ok(heap@, self.addr()));
        assert(node_ok(heap@, val.addr()));
        let ghost v = val.addr();
        val.remove_from_list(heap);
        let raw_val = val.into_raw();
        link_after(heap, self.ptr.addr, raw_val.addr);
        proof {
            assert forall|s: usize, q: Seq<usize>| #[trigger]
                in_order(old(heap)@, s, q) && q.contains(self.addr()) implies in_order(
                heap@,
                s,
                without(q, v).insert(without(q, v).index_of(self.addr()) + 1, v),
            ) by {
                let i = q.index_of(self.addr());
                lemma_insert_order(old(heap)@, s, q, i, v);
            }
        }
    }

    /// Links the node of `val` in before this node, out of whatever list it
    /// was in. The list takes the place of the handle `val` as an owner.
    /// This node is in a list, and `val` is on another node: `in_list` and
    /// `same_node` tell.
    pub fn insert_before(&self, heap: &mut Heap<Node<T>>, val: INode<T>)
        requires
            self.wf(old(heap)),
            val.wf(old(heap)),
            old(heap)@[self.addr()].next.addr != 0,
            self.addr() != val.addr(),
        ensures
            self.wf(final(heap)),
            final(heap)@ == linked_before(
                unlinked(old(heap)@, val.addr()),
                self.addr(),
                val.addr(),
            ),
            final(heap).full() == old(heap).full(),
            forall|s: usize, q: Seq<usize>| #[trigger]
                in_order(old(heap)@, s, q) && q.contains(self.addr()) ==> in_order(
                    final(heap)@,
                    s,
                    without(q, val.addr()).insert(
                        without(q, val.addr()).index_of(self.addr()),
                        val.addr(),
                    ),
                ),
    {
        assert(node_ok(heap@, self.addr()));
        assert(node_ok(heap@, val.addr()));
        let ghost v = val.addr();
        val.remove_from_list(heap);
        let raw_val = val.into_raw();
        link_before(heap, self.ptr.addr, raw_val.addr);
        proof {
            assert forall|s: usize, q: Seq<usize>| #[trigger]
                in_order(old(heap)@, s, q) && q.contains(self.addr()) implies in_order(
                heap@,
                s,
                without(q, v).insert(without(q, v).index_of(self.addr()), v),
            ) by {
                let i = q.index_of(self.addr());
                lemma_insert_order(old(heap)@, s, q, i, v);
            }
        }
    }

    /// A new handle on the node behind this one, or nothing where no node
    /// is behind it or the sentinel is.
    pub fn next(&self, heap: &mut Heap<Node<T>>) -> (r: Option<INode<T>>)
        requires
            self.wf(old(heap)),
            old(heap)@.dom().contains(old(heap)@[self.addr()].next.addr) && !old(heap)@[old(heap)@[self.addr()].next.addr].sentinel() ==> old(heap)@[old(heap)@[self.addr()].next.addr].count
                < usize::MAX - 1,
        ensures
            self.wf(final(heap)),
            r == Self::handed(old(heap)@, old(heap)@[self.addr()].next),
            final(heap)@ == Self::counted(old(heap)@, old(heap)@[self.addr()].next.addr),
            r.is_some() ==> r.unwrap().wf(final(heap)),
            forall|s: usize, q: Seq<usize>| #[trigger]
                in_order(old(heap)@, s, q) && q.contains(self.addr()) ==> in_order(
                    final(heap)@,
                    s,
                    q,
                ) && r.is_some() == (q.index_of(self.addr()) + 1 < q.len()) && (r.is_some()
                    ==> r.unwrap().addr() == q[q.index_of(self.addr()) + 1]),
    {
        assert(node_ok(heap@, self.addr()));
        proof {
            assert forall|s: usize, q: Seq<usize>| #[trigger]
                in_order(old(heap)@, s, q) && q.contains(self.addr()) implies Self::handed(
                old(heap)@,
                old(heap)@[self.addr()].next,
            ).is_some() == (q.index_of(self.addr()) + 1 < q.len()) && (q.index_of(self.addr()) + 1
                < q.len() ==> Self::handed(
                old(heap)@,
                old(heap)@[self.addr()].next,
            ).unwrap().addr() == q[q.index_of(self.addr()) + 1]) by {
                lemma_order_walk(old(heap)@, s, q, q.index_of(self.addr()));
            }
        }
        let raw_next = heap.get(self.ptr.addr).next;
        Self::from_raw(raw_next, heap)
    }

    /// A new handle on the node before this one, or nothing where no node
    /// is before it or the sentinel is.
    pub fn prev(&self, heap: &mut Heap<Node<T>>) -> (r: Option<INode<T>>)
        requires
            self.wf(old(heap)),
            old(heap)@.dom().contains(old(heap)@[self.addr()].prev.addr) && !old(heap)@[old(heap)@[self.addr()].prev.addr].sentinel() ==> old(heap)@[old(heap)@[self.addr()].prev.addr].count
                < usize::MAX - 1,
        ensures
            self.wf(final(heap)),
            r == Self::handed(old(heap)@, old(heap)@[self.addr()].prev),
            final(heap)@ == Self::counted(old(heap)@, old(heap)@[self.addr()].prev.addr),
            r.is_some() ==> r.unwrap().wf(final(heap)),
            forall|s: usize, q: Seq<usize>| #[trigger]
                in_order(old(heap)@, s, q) && q.contains(self.addr()) ==> in_order(
                    final(heap)@,
                    s,
                    q,
                ) && r.is_some() == (q.index_of(self.addr()) > 0) && (r.is_some()
                    ==> r.unwrap().addr() == q[q.index_of(self.addr()) - 1]),
    {
        assert(node_ok(heap@, self.addr()));
        proof {
            assert forall|s: usize, q: Seq<usize>| #[trigger]
                in_order(old(heap)@, s, q) && q.contains(self.addr()) implies Self::handed(
                old(heap)@,
                old(heap)@[self.addr()].prev,
            ).is_some() == (q.index_of(self.addr()) > 0) && (q.index_of(self.addr()) > 0
                ==> Self::handed(old(heap)@, old(heap)@[self.addr()].prev).unwrap().addr()
                == q[q.index_of(self.addr()) - 1]) by {
                lemma_order_walk(old(heap)@, s, q, q.index_of(self.addr()) - 1);
            }
        }
        let raw_prev = heap.get(self.ptr.addr).prev;
        Self::from_raw(raw_prev, heap)
    }

    /// Whether the two handles are on one node.
    pub fn same_node(&self, other: &INode<T>) -> (r: bool)
        ensures
            r == (self.addr() == other.addr()),
    {
        self.ptr.addr == other.ptr.addr
    }

    /// Whether the node is in a list.
    pub fn in_list(&self, heap: &Heap<Node<T>>) -> (r: bool)
        requires
            self.wf(heap),
        ensures
            r == (heap@[self.addr()].next.addr != 0),
    {
        !heap.get(self.ptr.addr).next.is_null()
    }

    /// How many owners the node has.
    pub fn count(&self, heap: &Heap<Node<T>>) -> (r: usize)
        requires
            self.wf(heap),
        ensures
            r == heap@[self.addr()].count,
    {
        heap.get(self.ptr.addr).count
    }

    /// The handle on the node at `at` that a walk hands out: none for the
    /// null address and for a sentinel.
    pub closed spec fn handed(h: Map<usize, Node<T>>, at: Raw) -> Option<INode<T>> {
        if h.dom().contains(at.addr) && !h[at.addr].sentinel() {
            Some(INode { ptr: at, phantom: core::marker::PhantomData })
        } else {
            None
        }
    }

    /// The arena with one owner more for the node at `a`, where a node that
    /// is no sentinel lives there.
    pub open spec fn counted(h: Map<usize, Node<T>>, a: usize) -> Map<usize, Node<T>> {
        if h.dom().contains(a) && !h[a].sentinel() {
            h.insert(a, h[a].with_count((h[a].count + 1) as usize))
        } else {
            h
        }
    }

    /// A handle is handed out exactly for a node that is no sentinel, and it
    /// names that node.
    pub proof fn lemma_handed(h: Map<usize, Node<T>>, at: Raw)
        ensures
            Self::handed(h, at).is_some() <==> h.dom().contains(at.addr) && !h[at.addr].sentinel(),
            Self::handed(h, at).is_some() ==> Self::handed(h, at).unwrap().addr() == at.addr,
    {
    }

    fn inc_count(&self, heap: &mut Heap<Node<T>>)
        requires
            self.wf(old(heap)),
            old(heap)@[self.addr()].count < usize::MAX - 1,
        ensures
            self.wf(final(heap)),
            final(heap)@ == Self::counted(old(heap)@, self.addr()),
            final(heap).full() == old(heap).full(),
    {
        let node = heap.get_mut(self.ptr.addr);
        node.inc_count();
        proof {
            lemma_count_keeps_rings(old(heap)@, heap@, self.addr());
        }
    }

    fn dec_count(&self, heap: &mut Heap<Node<T>>)
        requires
            self.wf(old(heap)),
        ensures
            heap_ok(final(heap)),
            final(heap)@ == old(heap)@.insert(
                self.addr(),
                old(heap)@[self.addr()].with_count((old(heap)@[self.addr()].count - 1) as usize),
            ),
            final(heap).full() == old(heap).full(),
    {
        let node = heap.get_mut(self.ptr.addr);
        node.dec_count();
        proof {
            lemma_count_keeps_rings(old(heap)@, heap@, self.addr());
        }
    }

    /// The address of the node; the handle is given up without the count
    /// going down, for a list to take its place.
    fn into_raw(self) -> (r: Raw)
        ensures
            r.addr == self.addr(),
    {
        self.ptr
    }

    fn to_raw(&self) -> (r: Raw)
        ensures
            r.addr == self.addr(),
    {
        self.ptr
    }

    /// A new handle on the node at `raw`, which gets one owner more; nothing
    /// where no node lives there or a sentinel does.
    fn from_raw(raw: Raw, heap: &mut Heap<Node<T>>) -> (r: Option<INode<T>>)
        requires
            old(heap).wf(),
            rings(old(heap)@),
            old(heap)@.dom().contains(raw.addr) && !old(heap)@[raw.addr].sentinel() ==> old(heap)@[raw.addr].count
                < usize::MAX - 1,
        ensures
            heap_ok(final(heap)),
            r == Self::handed(old(heap)@, raw),
            final(heap)@ == Self::counted(old(heap)@, raw.addr),
            r.is_some() ==> r.unwrap().wf(final(heap)),
            final(heap).full() == old(heap).full(),
            forall|s: usize, q: Seq<usize>| #[trigger]
                in_order(old(heap)@, s, q) ==> in_order(final(heap)@, s, q),
    {
        proof {
            assert forall|s: usize, q: Seq<usize>| #[trigger]
                in_order(old(heap)@, s, q) implies in_order(
                Self::counted(old(heap)@, raw.addr),
                s,
                q,
            ) by {
                lemma_order_stays(old(heap)@, Self::counted(old(heap)@, raw.addr), s, q);
            }
        }
        if heap.contains(raw.addr) {
            assert(node_ok(heap@, raw.addr));
            if !heap.get(raw.addr).is_sentinel() {
                let node = heap.get_mut(raw.addr);
                node.inc_count();
                proof {
                    lemma_count_keeps_rings(old(heap)@, heap@, raw.addr);
                }
                return Some(INode { ptr: raw, phantom: core::marker::PhantomData });
            }
        }
        None
    }

    /// One more handle on the same node.
    pub fn clone(&self, heap: &mut Heap<Node<T>>) -> (r: INode<T>)
        requires
            self.wf(old(heap)),
            old(heap)@[self.addr()].count < usize::MAX - 1,
        ensures
            self.wf(final(heap)),
            r.wf(final(heap)),
            r.addr() == self.addr(),
            final(heap)@ == old(heap)@.insert(
                self.addr(),
                old(heap)@[self.addr()].with_count((old(heap)@[self.addr()].count + 1) as usize),
            ),
            forall|s: usize, q: Seq<usize>| #[trigger]
                in_order(old(heap)@, s, q) ==> in_order(final(heap)@, s, q),
    {
        self.inc_count(heap);
        proof {
            assert forall|s: usize, q: Seq<usize>| #[trigger]
                in_order(old(heap)@, s, q) implies in_order(heap@, s, q) by {
                lemma_order_stays(old(heap)@, heap@, s, q);
            }
        }

        INode { ptr: self.ptr, phantom: core::marker::PhantomData }
    }

    /// Gives the handle up. The last owner's leaving takes the node out of
    /// the arena and hands its element out; otherwise the node stays, with
    /// one owner less.
    pub fn release(self, heap: &mut Heap<Node<T>>) -> (r: Option<T>)
        requires
            self.wf(old(heap)),
        ensures
            heap_ok(final(heap)),
            old(heap)@[self.addr()].count == 1 ==> r == old(heap)@[self.addr()].data
                && r.is_some() && final(heap)@ == old(heap)@.remove(self.addr()),
            old(heap)@[self.addr()].count > 1 ==> r.is_none() && final(heap)@ == old(
                heap,
            )@.insert(
                self.addr(),
                old(heap)@[self.addr()].with_count((old(heap)@[self.addr()].count - 1) as usize),
            ),
            forall|s: usize, q: Seq<usize>| #[trigger]
                in_order(old(heap)@, s, q) ==> in_order(final(heap)@, s, q),
    {
        assert(node_ok(heap@, self.addr()));
        self.dec_count(heap);
        proof {
            assert forall|s: usize, q: Seq<usize>| #[trigger]
                in_order(old(heap)@, s, q) implies in_order(heap@, s, q) by {
                lemma_order_stays(old(heap)@, heap@, s, q);
            }
        }
        if heap.get(self.ptr.addr).count == 0 {
            let ghost mid = heap@;
            let node = heap.deallocate(self.ptr.addr);
            proof {
                assert forall|s: usize, q: Seq<usize>| #[trigger]
                    in_order(old(heap)@, s, q) implies in_order(heap@, s, q) by {
                    lemma_order_stays(old(heap)@, heap@, s, q);
                }
                assert(heap@ =~= old(heap)@.remove(self.addr()));
                assert forall|b: usize| #[trigger] heap@.dom().contains(b) implies node_ok(
                    heap@,
                    b,
                ) by {
                    assert(node_ok(mid, b));
                    assert(node_ok(mid, self.addr()));
                }
            }
            node.data
        } else {
            None
        }
    }
}

/// The arena is sound.
pub open spec fn heap_ok<T>(heap: &Heap<Node<T>>) -> bool {
    heap.wf() && rings(heap@)
}

/// Changing the count of a node, short of making it a sentinel or taking
/// from a linked node its last owner, keeps the arena sound.
proof fn lemma_count_keeps_rings<T>(h0: Map<usize, Node<T>>, h: Map<usize, Node<T>>, a: usize)
    requires
        rings(h0),
        h0.dom().contains(a),
        h.dom().contains(a),
        !h0[a].sentinel(),
        !h[a].sentinel(),
        h[a].next.addr != 0 ==> h[a].count >= 1,
        h == h0.insert(a, h0[a].with_count(h[a].count)),
    ensures
        rings(h),
{
    assert forall|b: usize| #[trigger] h.dom().contains(b) implies node_ok(h, b) by {
        assert(node_ok(h0, b));
        let n = h0[b];
        if n.next.addr != 0 {
            assert(node_ok(h0, n.next.addr));
            assert(node_ok(h0, n.prev.addr));
        }
    }
}

/// A list of nodes around a sentinel. The sentinel's links are null until
/// the first node comes; from then on it is the node before the first and
/// behind the last.
pub struct IList<T> {
    sentinel: Raw,
    phantom: core::marker::PhantomData<std::rc::Rc<T>>,
}

impl<T> IList<T> {
    /// The address of the sentinel.
    pub closed spec fn sentinel(&self) -> usize {
        self.sentinel.addr
    }

    /// The arena is sound and the sentinel lives in it.
    pub open spec fn wf(&self, heap: &Heap<Node<T>>) -> bool {
        &&& heap_ok(heap)
        &&& heap@.dom().contains(self.sentinel())
        &&& heap@[self.sentinel()].sentinel()
    }

    /// The list has no element: no node stands behind the sentinel.
    pub open spec fn empty(&self, heap: &Heap<Node<T>>) -> bool {
        let next = heap@[self.sentinel()].next.addr;
        next == 0 || heap@[next].sentinel()
    }

    /// A new list without elements.
    pub fn new(heap: &mut Heap<Node<T>>) -> (r: IList<T>)
        requires
            heap_ok(old(heap)),
            !old(heap).full(),
        ensures
            r.wf(final(heap)),
            r.empty(final(heap)),
            r.sentinel() != 0,
            !old(heap)@.dom().contains(r.sentinel()),
            final(heap)@ == old(heap)@.insert(
                r.sentinel(),
                Node { count: usize::MAX, next: Raw::thin(0), prev: Raw::thin(0), data: None },
            ),
            in_order(final(heap)@, r.sentinel(), Seq::<usize>::empty()),
            forall|s: usize, q: Seq<usize>| #[trigger]
                in_order(old(heap)@, s, q) ==> in_order(final(heap)@, s, q),
    {
        let sentinel = make_sentinel(heap);
        proof {
            assert forall|s: usize, q: Seq<usize>| #[trigger]
                in_order(old(heap)@, s, q) implies in_order(heap@, s, q) by {
                lemma_order_stays(old(heap)@, heap@, s, q);
            }
        }

        IList { sentinel, phantom: core::marker::PhantomData }
    }

    pub fn is_empty(&self, heap: &Heap<Node<T>>) -> (r: bool)
        requires
            self.wf(heap),
        ensures
            r == self.empty(heap),
            forall|q: Seq<usize>| #[trigger]
                in_order(heap@, self.sentinel(), q) ==> r == (q.len() == 0),
    {
        assert(node_ok(heap@, self.sentinel()));
        proof {
            assert forall|q: Seq<usize>| #[trigger]
                in_order(heap@, self.sentinel(), q) implies self.empty(heap) == (q.len() == 0) by {
                if q.len() > 0 {
                    assert(heap@[ring_at(q, self.sentinel(), -1)].next.addr == ring_at(
                        q,
                        self.sentinel(),
                        0,
                    ));
                    assert(heap@.dom().contains(q[0]));
                    assert(node_ok(heap@, q[0]));
                }
            }
        }
        let next = heap.get(self.sentinel.addr).next;
        next.is_null() || heap.get(next.addr).is_sentinel()
    }

    /// Makes the node of `val` the first of the list, out of whatever list
    /// it was in. The list takes the place of the handle as an owner.
    pub fn push_front(&self, heap: &mut Heap<Node<T>>, val: INode<T>)
        requires
            self.wf(old(heap)),
            val.wf(old(heap)),
        ensures
            self.wf(final(heap)),
            final(heap).full() == old(heap).full(),
            final(heap)@ == pushed_front(old(heap)@, self.sentinel(), val.addr()),
            forall|q: Seq<usize>| #[trigger]
                in_order(old(heap)@, self.sentinel(), q) ==> in_order(
                    final(heap)@,
                    self.sentinel(),
                    seq![val.addr()] + without(q, val.addr()),
                ),
    {
        assert(node_ok(heap@, self.sentinel()));
        assert(node_ok(heap@, val.addr()));
        let ghost v = val.addr();
        let alone = heap.get(self.sentinel.addr).next.is_null();
        val.remove_from_list(heap);
        let raw_val = val.into_raw();
        if alone {
            link_alone(heap, self.sentinel.addr, raw_val.addr);
        } else {
            link_after(heap, self.sentinel.addr, raw_val.addr);
        }
        proof {
            assert forall|q: Seq<usize>| #[trigger]
                in_order(old(heap)@, self.sentinel(), q) implies in_order(
                heap@,
                self.sentinel(),
                seq![v] + without(q, v),
            ) by {
                lemma_push_front_order(old(heap)@, self.sentinel(), q, v);
            }
        }
    }

    /// Makes the node of `val` the last of the list, out of whatever list
    /// it was in. The list takes the place of the handle as an owner.
    pub fn push_back(&self, heap: &mut Heap<Node<T>>, val: INode<T>)
        requires
            self.wf(old(heap)),
            val.wf(old(heap)),
        ensures
            self.wf(final(heap)),
            final(heap).full() == old(heap).full(),
            final(heap)@ == pushed_back(old(heap)@, self.sentinel(), val.addr()),
            forall|q: Seq<usize>| #[trigger]
                in_order(old(heap)@, self.sentinel(), q) ==> in_order(
                    final(heap)@,
                    self.sentinel(),
                    without(q, val.addr()).push(val.addr()),
                ),
    {
        assert(node_ok(heap@, self.sentinel()));
        assert(node_ok(heap@, val.addr()));
        let ghost v = val.addr();
        let alone = heap.get(self.sentinel.addr).next.is_null();
        val.remove_from_list(heap);
        let raw_val = val.into_raw();
        if alone {
            link_alone(heap, self.sentinel.addr, raw_val.addr);
        } else {
            link_before(heap, self.sentinel.addr, raw_val.addr);
        }
        proof {
            assert forall|q: Seq<usize>| #[trigger]
                in_order(old(heap)@, self.sentinel(), q) implies in_order(
                heap@,
                self.sentinel(),
                without(q, v).push(v),
            ) by {
                lemma_push_back_order(old(heap)@, self.sentinel(), q, v);
            }
        }
    }

    /// A new handle on the first node, if there is one.
    pub fn head(&self, heap: &mut Heap<Node<T>>) -> (r: Option<INode<T>>)
        requires
            self.wf(old(heap)),
            old(heap)@.dom().contains(old(heap)@[self.sentinel()].next.addr) && !old(heap)@[old(heap)@[self.sentinel()].next.addr].sentinel() ==> old(heap)@[old(heap)@[self.sentinel()].next.addr].count
                < usize::MAX - 1,
        ensures
            self.wf(final(heap)),
            r == INode::<T>::handed(old(heap)@, old(heap)@[self.sentinel()].next),
            r.is_some() == !self.empty(old(heap)),
            final(heap)@ == INode::<T>::counted(old(heap)@, old(heap)@[self.sentinel()].next.addr),
            r.is_some() ==> r.unwrap().wf(final(heap)),
            forall|q: Seq<usize>| #[trigger]
                in_order(old(heap)@, self.sentinel(), q) ==> in_order(
                    final(heap)@,
                    self.sentinel(),
                    q,
                ) && r.is_some() == (q.len() > 0) && (r.is_some() ==> r.unwrap().addr() == q[0]),
    {
        assert(node_ok(heap@, self.sentinel()));
        proof {
            heap.lemma_null_is_free();
            assert forall|q: Seq<usize>| #[trigger]
                in_order(old(heap)@, self.sentinel(), q) implies INode::<T>::handed(
                old(heap)@,
                old(heap)@[self.sentinel()].next,
            ).is_some() == (q.len() > 0) && (q.len() > 0 ==> INode::<T>::handed(
                old(heap)@,
                old(heap)@[self.sentinel()].next,
            ).unwrap().addr() == q[0]) by {
                lemma_order_walk(old(heap)@, self.sentinel(), q, -1);
            }
        }
        let head = heap.get(self.sentinel.addr).next;
        INode::from_raw(head, heap)
    }

    /// A new handle on the last node, if there is one.
    pub fn tail(&self, heap: &mut Heap<Node<T>>) -> (r: Option<INode<T>>)
        requires
            self.wf(old(heap)),
            old(heap)@.dom().contains(old(heap)@[self.sentinel()].prev.addr) && !old(heap)@[old(heap)@[self.sentinel()].prev.addr].sentinel() ==> old(heap)@[old(heap)@[self.sentinel()].prev.addr].count
                < usize::MAX - 1,
        ensures
            self.wf(final(heap)),
            r == INode::<T>::handed(old(heap)@, old(heap)@[self.sentinel()].prev),
            final(heap)@ == INode::<T>::counted(old(heap)@, old(heap)@[self.sentinel()].prev.addr),
            r.is_some() ==> r.unwrap().wf(final(heap)),
            forall|q: Seq<usize>| #[trigger]
                in_order(old(heap)@, self.sentinel(), q) ==> in_order(
                    final(heap)@,
                    self.sentinel(),
                    q,
                ) && r.is_some() == (q.len() > 0) && (r.is_some() ==> r.unwrap().addr()
                    == q.last()),
    {
        assert(node_ok(heap@, self.sentinel()));
        proof {
            assert forall|q: Seq<usize>| #[trigger]
                in_order(old(heap)@, self.sentinel(), q) implies INode::<T>::handed(
                old(heap)@,
                old(heap)@[self.sentinel()].prev,
            ).is_some() == (q.len() > 0) && (q.len() > 0 ==> INode::<T>::handed(
                old(heap)@,
                old(heap)@[self.sentinel()].prev,
            ).unwrap().addr() == q.last()) by {
                lemma_order_walk(old(heap)@, self.sentinel(), q, q.len() - 1);
            }
        }
        let tail = heap.get(self.sentinel.addr).prev;
        INode::from_raw(tail, heap)
    }

    /// A walk over the nodes from the first on. The walk holds a handle on
    /// the node that it hands out next.
    pub fn iter(&self, heap: &mut Heap<Node<T>>) -> (r: Iter<T>)
        requires
            self.wf(old(heap)),
            old(heap)@.dom().contains(old(heap)@[self.sentinel()].next.addr) && !old(heap)@[old(heap)@[self.sentinel()].next.addr].sentinel() ==> old(heap)@[old(heap)@[self.sentinel()].next.addr].count
                < usize::MAX - 1,
        ensures
            self.wf(final(heap)),
            r.current() == INode::<T>::handed(old(heap)@, old(heap)@[self.sentinel()].next),
            final(heap)@ == INode::<T>::counted(old(heap)@, old(heap)@[self.sentinel()].next.addr),
            r.current().is_some() ==> r.current().unwrap().wf(final(heap)),
            forall|s: usize, q: Seq<usize>| #[trigger]
                in_order(old(heap)@, s, q) ==> in_order(final(heap)@, s, q),
    {
        Iter { current: self.head(heap) }
    }
}

/// A new sentinel: the largest count, null links, no element.
fn make_sentinel<T>(heap: &mut Heap<Node<T>>) -> (r: Raw)
    requires
        heap_ok(old(heap)),
        !old(heap).full(),
    ensures
        heap_ok(final(heap)),
        !old(heap)@.dom().contains(r.addr),
        r.addr != 0,
        r.meta == 0,
        final(heap)@ == old(heap)@.insert(
            r.addr,
            Node { count: usize::MAX, next: Raw::thin(0), prev: Raw::thin(0), data: None },
        ),
{
    let node = Node { count: usize::MAX, next: Raw::null(), prev: Raw::null(), data: None };
    let a = heap.allocate(node);
    proof {
        assert forall|b: usize| #[trigger] heap@.dom().contains(b) implies node_ok(heap@, b) by {
            if b != a {
                assert(node_ok(old(heap)@, b));
            }
        }
    }
    Raw::new(a, 0)
}

/// A walk over the nodes of a list.
pub struct Iter<T> {
    current: Option<INode<T>>,
}

impl<T> Iter<T> {
    /// The handle that the walk hands out next.
    pub closed spec fn current(&self) -> Option<INode<T>> {
        self.current
    }

    /// Hands out the handle that the walk holds, and takes one on the node
    /// behind it.
    pub fn next(&mut self, heap: &mut Heap<Node<T>>) -> (r: Option<INode<T>>)
        requires
            heap_ok(old(heap)),
            old(self).current().is_some() ==> old(self).current().unwrap().wf(old(heap)),
            old(self).current().is_some() && old(heap)@.dom().contains(
                old(heap)@[old(self).current().unwrap().addr()].next.addr,
            ) && !old(heap)@[old(heap)@[old(self).current().unwrap().addr()].next.addr].sentinel()
                ==> old(heap)@[old(heap)@[old(self).current().unwrap().addr()].next.addr].count
                < usize::MAX - 1,
        ensures
            heap_ok(final(heap)),
            r == old(self).current(),
            r.is_none() ==> final(self).current().is_none() && *final(heap) == *old(heap),
            r.is_some() ==> r.unwrap().wf(final(heap)) && final(self).current()
                == INode::<T>::handed(old(heap)@, old(heap)@[r.unwrap().addr()].next)
                && final(heap)@ == INode::<T>::counted(
                old(heap)@,
                old(heap)@[r.unwrap().addr()].next.addr,
            ) && (final(self).current().is_some() ==> final(self).current().unwrap().wf(
                final(heap),
            )),
            forall|s: usize, q: Seq<usize>| #[trigger]
                in_order(old(heap)@, s, q) ==> in_order(final(heap)@, s, q),
    {
        let node = self.current.take();
        match node {
            Some(n) => {
                self.current = n.next(heap);
                Some(n)
            },
            None => None,
        }
    }
}

/// The linked nodes of the arena that are no sentinels.
pub open spec fn members<T>(h: Map<usize, Node<T>>) -> Set<usize> {
    h.dom().filter(|a: usize| h[a].next.addr != 0 && !h[a].sentinel())
}

/// What the end of a list at `s` leaves of the arena `h0`: the sentinel is
/// gone; a node that stays has its element, and its count, less one owner
/// if it was linked and is now detached; a node that is gone was linked
/// with the list as its only owner; a detached node is as it was.
pub open spec fn ended<T>(h0: Map<usize, Node<T>>, h: Map<usize, Node<T>>, s: usize) -> bool {
    &&& forall|b: usize| #[trigger]
        h.dom().contains(b) ==> h0.dom().contains(b) && h[b].data == h0[b].data && h[b].count == (
        if h0[b].next.addr != 0 && h[b].next.addr == 0 {
            h0[b].count - 1
        } else {
            h0[b].count as int
        })
    &&& forall|b: usize|
        #![trigger h0.dom().contains(b)]
        h0.dom().contains(b) && !h.dom().contains(b) ==> b == s || (h0[b].next.addr != 0
            && h0[b].count == 1)
    &&& forall|b: usize|
        #![trigger h0.dom().contains(b)]
        h0.dom().contains(b) && h0[b].next.addr == 0 && b != s ==> h.dom().contains(b) && h[b]
            == h0[b]
}

/// One step of a list's end: the node at `x` leaves its ring, and the
/// arena too where it has no owner left.
#[verifier::rlimit(50)]
proof fn lemma_end_step<T>(
    h0: Map<usize, Node<T>>,
    h1: Map<usize, Node<T>>,
    h2: Map<usize, Node<T>>,
    x: usize,
)
    requires
        rings(h1),
        rings(h2),
        left(h1, h2, x),
        h1.dom().finite(),
        ended(h0, h1, 0),
        h1.dom().contains(x),
        h1[x].next.addr != 0,
        !h1[x].sentinel(),
    ensures
        ended(h0, h2, 0),
        members(h2).len() < members(h1).len(),
        h2[x].count == 0 ==> ended(h0, h2.remove(x), 0) && rings(h2.remove(x)) && members(
            h2.remove(x),
        ) =~= members(h2),
{
    assert(node_ok(h1, x));
    assert(members(h1).contains(x));
    assert forall|b: usize| members(h2).contains(b) == (members(h1).contains(b) && b != x) by {
        if h1.dom().contains(b) && b != x {
            assert(h2[b].count == h1[b].count);
        }
    }
    assert(members(h2) =~= members(h1).remove(x));
    assert forall|b: usize| #[trigger] h2.dom().contains(b) implies h0.dom().contains(b) && h2[b].data
        == h0[b].data && h2[b].count == (if h0[b].next.addr != 0 && h2[b].next.addr == 0 {
        h0[b].count - 1
    } else {
        h0[b].count as int
    }) by {
        assert(h1.dom().contains(b));
        if b != x {
            assert(h2[b].count == h1[b].count);
        }
    }
    assert forall|b: usize|
        #![trigger h0.dom().contains(b)]
        h0.dom().contains(b) && h0[b].next.addr == 0 && b != 0 implies h2.dom().contains(b)
            && h2[b] == h0[b] by {
        assert(h1.dom().contains(b) && h1[b] == h0[b]);
        assert(h2[b] == h1[b]);
    }
    if h2[x].count == 0 {
        let h3 = h2.remove(x);
        assert forall|b: usize| #[trigger] h3.dom().contains(b) implies node_ok(h3, b) by {
            assert(node_ok(h2, b));
            assert(node_ok(h2, x));
        }
        assert forall|b: usize| #[trigger] h3.dom().contains(b) implies h0.dom().contains(b)
            && h3[b].data == h0[b].data && h3[b].count == (if h0[b].next.addr != 0
            && h3[b].next.addr == 0 {
            h0[b].count - 1
        } else {
            h0[b].count as int
        }) by {
            assert(h2.dom().contains(b));
        }
        assert(h1.dom().contains(x));
        assert(members(h3) =~= members(h2));
    }
}

/// The last step of a list's end: the sentinel at `s` leaves its ring and
/// the arena.
#[verifier::rlimit(50)]
proof fn lemma_end_last<T>(
    h0: Map<usize, Node<T>>,
    h1: Map<usize, Node<T>>,
    h2: Map<usize, Node<T>>,
    s: usize,
)
    requires
        rings(h1),
        rings(h2),
        left(h1, h2, s),
        ended(h0, h1, 0),
        !h0.dom().contains(0),
        h1.dom().contains(s),
        h1[s].sentinel(),
    ensures
        rings(h2.remove(s)),
        ended(h0, h2.remove(s), s),
{
    let h3 = h2.remove(s);
    assert forall|b: usize| #[trigger] h3.dom().contains(b) implies node_ok(h3, b) by {
        assert(node_ok(h2, b));
        assert(node_ok(h2, s));
    }
    assert forall|b: usize| #[trigger] h3.dom().contains(b) implies h0.dom().contains(b) && h3[b].data
        == h0[b].data && h3[b].count == (if h0[b].next.addr != 0 && h3[b].next.addr == 0 {
        h0[b].count - 1
    } else {
        h0[b].count as int
    }) by {
        assert(h1.dom().contains(b));
        assert(h2[b].count == h1[b].count);
    }
    assert forall|b: usize|
        #![trigger h0.dom().contains(b)]
        h0.dom().contains(b) && h0[b].next.addr == 0 && b != s implies h3.dom().contains(b)
            && h3[b] == h0[b] by {
        assert(h1.dom().contains(b) && h1[b] == h0[b]);
        assert(h2[b] == h1[b]);
    }
}

/// No node that was linked in `h0` stays in `h` detached and without an
/// owner: one that the list alone owned has left the arena.
pub open spec fn none_ownerless<T>(h0: Map<usize, Node<T>>, h: Map<usize, Node<T>>) -> bool {
    forall|b: usize|
        h.dom().contains(b) && h0[b].next.addr != 0 && h[b].next.addr == 0 ==> (#[trigger] h[b]).count
            >= 1
}

/// A node's leaving its ring, and the arena where it has no owner left,
/// leaves no detached node without an owner.
proof fn lemma_none_ownerless<T>(
    h0: Map<usize, Node<T>>,
    h1: Map<usize, Node<T>>,
    h2: Map<usize, Node<T>>,
    h3: Map<usize, Node<T>>,
    x: usize,
)
    requires
        none_ownerless(h0, h1),
        h1.dom().contains(x),
        left(h1, h2, x),
        h3 == h2.remove(x) || (h3 == h2 && h2[x].count >= 1),
    ensures
        none_ownerless(h0, h3),
{
    assert forall|b: usize|
        h3.dom().contains(b) && h0[b].next.addr != 0 && h3[b].next.addr == 0 implies (#[trigger] h3[b]).count
        >= 1 by {
        if b != x {
            assert(h1.dom().contains(b));
            assert(h3[b] == h2[b]);
            assert(h2[b].count == h1[b].count);
            assert(h1[b].next.addr == 0);
            assert(h1[b].count >= 1);
        }
    }
}

/// Each of the nodes at `q` is detached or gone from the arena.
pub open spec fn all_out<T>(h: Map<usize, Node<T>>, q: Seq<usize>) -> bool {
    forall|i: int| 0 <= i < q.len() ==> !h.dom().contains(#[trigger] q[i]) || h[q[i]].next.addr == 0
}

impl<T> IList<T> {
    /// Ends the list: takes node after node out of it, out of the arena
    /// too where the list was the only owner, and then the sentinel. A
    /// node that stays has an owner left.
    #[verifier::rlimit(50)]
    pub fn destroy(self, heap: &mut Heap<Node<T>>)
        requires
            self.wf(old(heap)),
        ensures
            heap_ok(final(heap)),
            !final(heap)@.dom().contains(self.sentinel()),
            ended(old(heap)@, final(heap)@, self.sentinel()),
            forall|b: usize|
                final(heap)@.dom().contains(b) && old(heap)@[b].next.addr != 0 && final(heap)@[b].next.addr == 0 ==> (#[trigger] final(heap)@[b]).count >= 1,
            forall|q: Seq<usize>| #[trigger]
                in_order(old(heap)@, self.sentinel(), q) ==> all_out(final(heap)@, q),
    {
        let s = self.sentinel.addr;
        let ghost has = exists|q: Seq<usize>| in_order(old(heap)@, s, q);
        let ghost q0 = choose|q: Seq<usize>| in_order(old(heap)@, s, q);
        let ghost n = q0.len() as int;
        let ghost mut k: int = 0;
        proof {
            heap.lemma_null_is_free();
            assert(q0.subrange(0, n) =~= q0);
        }
        loop
            invariant
                heap_ok(heap),
                heap@.dom().contains(s),
                heap@[s].sentinel(),
                s == self.sentinel(),
                n == q0.len(),
                !old(heap)@.dom().contains(0),
                ended(old(heap)@, heap@, 0),
                none_ownerless(old(heap)@, heap@),
                has ==> 0 <= k <= n && in_order(heap@, s, q0.subrange(k, n)) && all_out(
                    heap@,
                    q0.subrange(0, k),
                ),
            ensures
                has ==> k == n,
            decreases members(heap@).len(),
        {
            assert(node_ok(heap@, s));
            let next = heap.get(s).next;
            if next.is_null() || heap.get(next.addr).is_sentinel() {
                proof {
                    if has && k < n {
                        let rest = q0.subrange(k, n);
                        assert(heap@[ring_at(rest, s, -1)].next.addr == ring_at(rest, s, 0));
                        assert(heap@.dom().contains(rest[0]));
                        heap.lemma_null_is_free();
                    }
                }
                break ;
            }
            let ghost h1 = heap@;
            proof {
                heap.lemma_finite();
                assert(node_ok(heap@, next.addr));
                lemma_unlinked(heap@, next.addr);
                lemma_end_step(old(heap)@, heap@, unlinked(heap@, next.addr), next.addr);
            }
            unlink(heap, next.addr);
            let ghost h2 = heap@;
            if heap.get(next.addr).count == 0 {
                let _ = heap.deallocate(next.addr);
            }
            proof {
                lemma_none_ownerless(old(heap)@, h1, h2, heap@, next.addr);
                if has {
                    lemma_end_order(h1, h2, heap@, s, q0.subrange(k, n), next.addr);
                    lemma_out_kept(h1, h2, heap@, q0.subrange(0, k), next.addr);
                    assert(q0.subrange(k, n).drop_first() =~= q0.subrange(k + 1, n));
                    assert(q0.subrange(k, n)[0] == q0[k]);
                    assert forall|i: int| 0 <= i < k + 1 implies !heap@.dom().contains(
                        #[trigger] q0.subrange(0, k + 1)[i],
                    ) || heap@[q0.subrange(0, k + 1)[i]].next.addr == 0 by {
                        if i < k {
                            assert(q0.subrange(0, k)[i] == q0.subrange(0, k + 1)[i]);
                        }
                    }
                    k = k + 1;
                }
            }
        }
        let ghost h1 = heap@;
        proof {
            lemma_unlinked(heap@, s);
            lemma_end_last(old(heap)@, heap@, unlinked(heap@, s), s);
        }
        unlink(heap, s);
        let ghost h2 = heap@;
        let _ = heap.deallocate(s);
        proof {
            lemma_none_ownerless(old(heap)@, h1, h2, heap@, s);
            if has {
                lemma_out_kept(h1, h2, heap@, q0.subrange(0, k), s);
            }
            assert forall|q: Seq<usize>| #[trigger] in_order(old(heap)@, s, q) implies all_out(
                heap@,
                q,
            ) by {
                lemma_order_unique(old(heap)@, s, q, q0);
            }
        }
    }
}

/// One step of a list's end in the list's order: the first node leaves,
/// the others stay in their order.
proof fn lemma_end_order<T>(
    h1: Map<usize, Node<T>>,
    h2: Map<usize, Node<T>>,
    h3: Map<usize, Node<T>>,
    s: usize,
    rest: Seq<usize>,
    x: usize,
)
    requires
        rings(h1),
        in_order(h1, s, rest),
        x == h1[s].next.addr,
        x != 0,
        h1.dom().contains(x),
        !h1[x].sentinel(),
        h2 == unlinked(h1, x),
        h3 == h2 || h3 == h2.remove(x),
    ensures
        rest.len() > 0,
        rest[0] == x,
        in_order(h3, s, rest.drop_first()),
{
    assert(rest.len() > 0);
    assert(h1[ring_at(rest, s, -1)].next.addr == ring_at(rest, s, 0));
    assert(rest[0] == x);
    lemma_unlinked(h1, x);
    lemma_order_unlinked(h1, s, rest, x);
    assert(rest.contains(x));
    let j = rest.index_of(x);
    assert(rest[j] == x);
    assert(j == 0);
    assert(rest.remove(0) =~= rest.drop_first());
    let r2 = rest.drop_first();
    assert forall|i: int| 0 <= i < r2.len() implies h3.dom().contains(#[trigger] r2[i])
        && !h3[r2[i]].sentinel() && h3[r2[i]].next == h2[r2[i]].next by {
        assert(r2.contains(r2[i]));
        assert(h2.dom().contains(r2[i]));
    }
    lemma_order_kept(h2, h3, s, r2);
}

/// The nodes that are detached or gone stay so while another node leaves
/// its ring and perhaps the arena; that node is then detached or gone too.
proof fn lemma_out_kept<T>(
    h1: Map<usize, Node<T>>,
    h2: Map<usize, Node<T>>,
    h3: Map<usize, Node<T>>,
    q: Seq<usize>,
    x: usize,
)
    requires
        all_out(h1, q),
        h1.dom().contains(x),
        left(h1, h2, x),
        h3 == h2 || h3 == h2.remove(x),
    ensures
        all_out(h3, q),
        !h3.dom().contains(x) || h3[x].next.addr == 0,
{
    assert forall|i: int| 0 <= i < q.len() implies !h3.dom().contains(#[trigger] q[i])
        || h3[q[i]].next.addr == 0 by {
        if h3.dom().contains(q[i]) {
            assert(h1.dom().contains(q[i]));
            assert(h2[q[i]] == h1[q[i]]);
        }
    }
}

/// A node's leaving its ring takes it out of the list that it was in, and
/// leaves every other list as it was.
#[verifier::rlimit(50)]
pub proof fn lemma_order_unlinked<T>(h: Map<usize, Node<T>>, s: usize, q: Seq<usize>, v: usize)
    requires
        rings(h),
        in_order(h, s, q),
        h.dom().contains(v),
        !h[v].sentinel(),
    ensures
        in_order(unlinked(h, v), s, without(q, v)),
        !without(q, v).contains(v),
        forall|b: usize| b != v ==> without(q, v).contains(b) == q.contains(b),
{
    let h2 = unlinked(h, v);
    let q2 = without(q, v);
    let n = q.len() as int;
    lemma_unlinked(h, v);
    assert(node_ok(h, v));
    assert(node_ok(h, s));
    if q.contains(v) {
        let k = q.index_of(v);
        assert(0 <= k < n && q[k] == v);
        assert(h[ring_at(q, s, k)].next.addr == ring_at(q, s, k + 1));
        assert(h[ring_at(q, s, k - 1)].next.addr == ring_at(q, s, k));
        let p = ring_at(q, s, k - 1);
        let x = ring_at(q, s, k + 1);
        assert(node_ok(h, p));
        assert(h[v].prev.addr == p);
        assert(h[v].next.addr == x);
        assert(p != v && x != v);
        assert(h2[p].next.addr == x);
        assert forall|i: int| 0 <= i < q2.len() implies q2[i] == (if i < k {
            q[i]
        } else {
            q[i + 1]
        }) by {}
        assert forall|i: int, j: int| 0 <= i < j < q2.len() implies q2[i] != q2[j] by {}
        assert forall|b: usize| b != v implies q2.contains(b) == q.contains(b) by {
            if q.contains(b) {
                let j = q.index_of(b);
                assert(q[j] == b);
                if j < k {
                    assert(q2[j] == b);
                } else {
                    assert(q2[j - 1] == b);
                }
            }
            if q2.contains(b) {
                let j = q2.index_of(b);
                assert(q2[j] == b);
            }
        }
        assert(!q2.contains(v)) by {
            if q2.contains(v) {
                let j = q2.index_of(v);
                assert(q2[j] == v);
            }
        }
        if q2.len() > 0 {
            assert forall|i: int| -1 <= i < q2.len() implies (#[trigger] h2[ring_at(
                q2,
                s,
                i,
            )]).next.addr == ring_at(q2, s, i + 1) by {
                let i0 = if i < k {
                    i
                } else {
                    i + 1
                };
                assert(ring_at(q2, s, i) == ring_at(q, s, i0));
                assert(h[ring_at(q, s, i0)].next.addr == ring_at(q, s, i0 + 1));
                if i == k - 1 {
                    assert(ring_at(q2, s, i + 1) == x);
                } else {
                    assert(ring_at(q, s, i0) != p);
                    assert(h2[ring_at(q, s, i0)].next == h[ring_at(q, s, i0)].next);
                }
            }
        }
    } else {
        assert forall|i: int| -1 <= i < n implies ring_at(q, s, i) != v by {}
        if h[v].next.addr != 0 {
            let p = h[v].prev.addr;
            let x = h[v].next.addr;
            assert(node_ok(h, p));
            assert(h[p].next.addr == v);
            assert forall|i: int| -1 <= i < n implies (#[trigger] h2[ring_at(q, s, i)]).next
                == h[ring_at(q, s, i)].next by {
                if n > 0 {
                    assert(h[ring_at(q, s, i)].next.addr == ring_at(q, s, i + 1));
                }
            }
            if n > 0 {
                assert forall|i: int| -1 <= i < n implies (#[trigger] h2[ring_at(
                    q,
                    s,
                    i,
                )]).next.addr == ring_at(q, s, i + 1) by {
                    assert(h[ring_at(q, s, i)].next.addr == ring_at(q, s, i + 1));
                }
            } else {
                assert(ring_at(q, s, -1) == s);
                assert(h2[ring_at(q, s, -1)].next == h[s].next);
            }
        }
    }
}

/// Linking a detached node in behind place `i` of a list (behind the
/// sentinel for `i == -1`) puts it at place `i + 1`.
#[verifier::rlimit(50)]
pub proof fn lemma_order_after<T>(h: Map<usize, Node<T>>, s: usize, q: Seq<usize>, i: int, v: usize)
    requires
        rings(h),
        in_order(h, s, q),
        -1 <= i < q.len(),
        h[ring_at(q, s, i)].next.addr != 0,
        h.dom().contains(v),
        h[v].next.addr == 0,
        !h[v].sentinel(),
        !q.contains(v),
    ensures
        in_order(linked_after(h, ring_at(q, s, i), v), s, q.insert(i + 1, v)),
{
    let a = ring_at(q, s, i);
    let x = h[a].next.addr;
    let h2 = linked_after(h, a, v);
    let q2 = q.insert(i + 1, v);
    let n = q.len() as int;
    assert(node_ok(h, a));
    assert(node_ok(h, v));
    assert(node_ok(h, s));
    assert(a != v && x != v);
    if n > 0 {
        assert(h[ring_at(q, s, i)].next.addr == ring_at(q, s, i + 1));
    }
    assert(x == ring_at(q, s, i + 1));
    assert forall|j: int| 0 <= j < q2.len() implies q2[j] == (if j <= i {
        q[j]
    } else if j == i + 1 {
        v
    } else {
        q[j - 1]
    }) by {}
    assert forall|j: int, k: int| 0 <= j < k < q2.len() implies q2[j] != q2[k] by {
        if j != i + 1 {
            assert(q.contains(q2[j]));
        }
        if k != i + 1 {
            assert(q.contains(q2[k]));
        }
    }
    assert(h2[a].next.addr == v);
    assert(h2[v].next.addr == x);
    assert forall|j: int| -1 <= j < q2.len() implies (#[trigger] h2[ring_at(q2, s, j)]).next.addr
        == ring_at(q2, s, j + 1) by {
        if j <= i {
            assert(ring_at(q2, s, j) == ring_at(q, s, j));
            if j < i {
                assert(h[ring_at(q, s, j)].next.addr == ring_at(q, s, j + 1));
                assert(ring_at(q, s, j) != a);
                assert(h2[ring_at(q, s, j)].next == h[ring_at(q, s, j)].next);
            }
        } else if j > i + 1 {
            assert(ring_at(q2, s, j) == ring_at(q, s, j - 1));
            assert(h[ring_at(q, s, j - 1)].next.addr == ring_at(q, s, j));
            assert(ring_at(q, s, j - 1) != a);
            assert(h2[ring_at(q, s, j - 1)].next == h[ring_at(q, s, j - 1)].next);
        }
    }
    assert forall|j: int| 0 <= j < q2.len() implies h2.dom().contains(#[trigger] q2[j])
        && !h2[q2[j]].sentinel() by {
        if j != i + 1 {
            let j0 = if j <= i {
                j
            } else {
                j - 1
            };
            assert(h.dom().contains(q[j0]));
        }
    }
}

/// Linking a detached node in before place `i` of a list (before the
/// sentinel, as the last node, for `i == q.len()`) puts it at place `i`.
#[verifier::rlimit(50)]
pub proof fn lemma_order_before<T>(
    h: Map<usize, Node<T>>,
    s: usize,
    q: Seq<usize>,
    i: int,
    v: usize,
)
    requires
        rings(h),
        in_order(h, s, q),
        0 <= i <= q.len(),
        h[ring_at(q, s, i)].next.addr != 0,
        h.dom().contains(v),
        h[v].next.addr == 0,
        !h[v].sentinel(),
        !q.contains(v),
    ensures
        linked_before(h, ring_at(q, s, i), v) == linked_after(h, ring_at(q, s, i - 1), v),
        in_order(linked_before(h, ring_at(q, s, i), v), s, q.insert(i, v)),
{
    let a = ring_at(q, s, i);
    let p = ring_at(q, s, i - 1);
    assert(node_ok(h, a));
    assert(node_ok(h, p));
    assert(node_ok(h, v));
    assert(node_ok(h, s));
    if q.len() > 0 {
        assert(h[ring_at(q, s, i - 1)].next.addr == ring_at(q, s, i));
        assert(node_ok(h, h[p].next.addr));
    } else {
        assert(a == s && p == s);
        assert(h[s].next.addr == s);
    }
    assert(h[p].next.addr == a);
    assert(h[a].prev == Raw::thin(p));
    assert(node_ok(h, h[a].prev.addr));
    assert(h[p].next == Raw::thin(a));
    assert(linked_before(h, a, v) =~= linked_after(h, p, v));
    lemma_order_after(h, s, q, i - 1, v);
}

/// Linking a detached node to the sentinel of a list that never had a node
/// makes it the only node.
pub proof fn lemma_order_alone<T>(h: Map<usize, Node<T>>, s: usize, v: usize)
    requires
        rings(h),
        in_order(h, s, Seq::<usize>::empty()),
        h[s].next.addr == 0,
        h.dom().contains(v),
        h[v].next.addr == 0,
        !h[v].sentinel(),
    ensures
        in_order(linked_alone(h, s, v), s, seq![v]),
{
    let h2 = linked_alone(h, s, v);
    let q2 = seq![v];
    assert forall|j: int| -1 <= j < q2.len() implies (#[trigger] h2[ring_at(q2, s, j)]).next.addr
        == ring_at(q2, s, j + 1) by {}
}

/// The arena after `push_back` of the node at `v` on the list at `s`.
pub open spec fn pushed_back<T>(h: Map<usize, Node<T>>, s: usize, v: usize) -> Map<usize, Node<T>> {
    if h[s].next.addr == 0 {
        linked_alone(unlinked(h, v), s, v)
    } else {
        linked_before(unlinked(h, v), s, v)
    }
}

/// The arena after `push_front` of the node at `v` on the list at `s`.
pub open spec fn pushed_front<T>(h: Map<usize, Node<T>>, s: usize, v: usize) -> Map<usize, Node<T>> {
    if h[s].next.addr == 0 {
        linked_alone(unlinked(h, v), s, v)
    } else {
        linked_after(unlinked(h, v), s, v)
    }
}

/// `push_back` makes the node the last of the list, behind the nodes that
/// the list had, in their order, without that node.
pub proof fn lemma_push_back_order<T>(h: Map<usize, Node<T>>, s: usize, q: Seq<usize>, v: usize)
    requires
        rings(h),
        in_order(h, s, q),
        h.dom().contains(v),
        !h[v].sentinel(),
    ensures
        in_order(pushed_back(h, s, v), s, without(q, v).push(v)),
{
    let h2 = unlinked(h, v);
    let q2 = without(q, v);
    lemma_unlinked(h, v);
    lemma_order_unlinked(h, s, q, v);
    assert(node_ok(h, s));
    assert(node_ok(h, v));
    assert(q2.insert(q2.len() as int, v) =~= q2.push(v));
    if h[s].next.addr == 0 {
        assert(h2[s] == h[s]);
        assert(q2.len() == 0) by {
            if q2.len() > 0 {
                assert(h2[ring_at(q2, s, -1)].next.addr == ring_at(q2, s, 0));
                assert(h2.dom().contains(q2[0]));
                assert(node_ok(h2, q2[0]));
            }
        }
        assert(q2 =~= Seq::<usize>::empty());
        lemma_order_alone(h2, s, v);
        assert(seq![v] =~= q2.push(v));
    } else {
        lemma_order_before(h2, s, q2, q2.len() as int, v);
    }
}

/// `push_front` makes the node the first of the list, before the nodes
/// that the list had, in their order, without that node.
pub proof fn lemma_push_front_order<T>(h: Map<usize, Node<T>>, s: usize, q: Seq<usize>, v: usize)
    requires
        rings(h),
        in_order(h, s, q),
        h.dom().contains(v),
        !h[v].sentinel(),
    ensures
        in_order(pushed_front(h, s, v), s, seq![v] + without(q, v)),
{
    let h2 = unlinked(h, v);
    let q2 = without(q, v);
    lemma_unlinked(h, v);
    lemma_order_unlinked(h, s, q, v);
    assert(node_ok(h, s));
    assert(node_ok(h, v));
    assert(q2.insert(0, v) =~= seq![v] + q2);
    if h[s].next.addr == 0 {
        assert(h2[s] == h[s]);
        assert(q2.len() == 0) by {
            if q2.len() > 0 {
                assert(h2[ring_at(q2, s, -1)].next.addr == ring_at(q2, s, 0));
                assert(h2.dom().contains(q2[0]));
                assert(node_ok(h2, q2[0]));
            }
        }
        assert(q2 =~= Seq::<usize>::empty());
        lemma_order_alone(h2, s, v);
        assert(seq![v] =~= seq![v] + q2);
    } else {
        lemma_order_after(h2, s, q2, -1, v);
    }
}

/// `insert_after` on the node at place `i` of a list puts the other node
/// behind it, and `insert_before` puts it before it; the other nodes keep
/// their order.
#[verifier::rlimit(50)]
pub proof fn lemma_insert_order<T>(
    h: Map<usize, Node<T>>,
    s: usize,
    q: Seq<usize>,
    i: int,
    v: usize,
)
    requires
        rings(h),
        in_order(h, s, q),
        0 <= i < q.len(),
        h.dom().contains(v),
        !h[v].sentinel(),
        q[i] != v,
    ensures
        without(q, v).contains(q[i]),
        in_order(
            linked_after(unlinked(h, v), q[i], v),
            s,
            without(q, v).insert(without(q, v).index_of(q[i]) + 1, v),
        ),
        in_order(
            linked_before(unlinked(h, v), q[i], v),
            s,
            without(q, v).insert(without(q, v).index_of(q[i]), v),
        ),
{
    let h2 = unlinked(h, v);
    let q2 = without(q, v);
    lemma_unlinked(h, v);
    lemma_order_unlinked(h, s, q, v);
    assert(node_ok(h, v));
    assert(q.contains(q[i]));
    assert(q2.contains(q[i]));
    let k = q2.index_of(q[i]);
    assert(0 <= k < q2.len() && q2[k] == q[i]);
    assert(node_ok(h, q[i]));
    assert(h[ring_at(q, s, i)].next.addr == ring_at(q, s, i + 1));
    assert(h[q[i]].next.addr != 0) by {
        assert(node_ok(h, s));
        if ring_at(q, s, i + 1) == s {
        } else {
            assert(h.dom().contains(q[i + 1]));
            assert(node_ok(h, q[i + 1]));
        }
    }
    assert(h2[q[i]].next.addr != 0);
    assert(ring_at(q2, s, k) == q[i]);
    lemma_order_after(h2, s, q2, k, v);
    lemma_order_before(h2, s, q2, k, v);
}

/// A list keeps its order while its sentinel and its nodes stay in the
/// arena with their `next` links, whatever else changes: counts, elements,
/// other nodes that come or go.
pub proof fn lemma_order_kept<T>(
    h: Map<usize, Node<T>>,
    h2: Map<usize, Node<T>>,
    s: usize,
    q: Seq<usize>,
)
    requires
        in_order(h, s, q),
        h2.dom().contains(s),
        h2[s].sentinel(),
        h2[s].next == h[s].next,
        forall|i: int|
            0 <= i < q.len() ==> h2.dom().contains(#[trigger] q[i]) && !h2[q[i]].sentinel()
                && h2[q[i]].next == h[q[i]].next,
    ensures
        in_order(h2, s, q),
{
    if q.len() > 0 {
        assert forall|i: int| -1 <= i < q.len() implies (#[trigger] h2[ring_at(q, s, i)]).next.addr
            == ring_at(q, s, i + 1) by {
            assert(h[ring_at(q, s, i)].next.addr == ring_at(q, s, i + 1));
            if i >= 0 {
                assert(h2.dom().contains(q[i]));
            }
        }
    }
}

/// A walk along a list meets its nodes in order: from place `i` (the
/// sentinel for `i == -1`) `next` hands out the node at place `i + 1`, and
/// nothing behind the last node; from place `i + 1` (the sentinel behind
/// the last node) `prev` hands out the node at place `i`, and nothing
/// before the first.
pub proof fn lemma_order_walk<T>(h: Map<usize, Node<T>>, s: usize, q: Seq<usize>, i: int)
    requires
        rings(h),
        in_order(h, s, q),
        -1 <= i < q.len(),
    ensures
        INode::<T>::handed(h, h[ring_at(q, s, i)].next).is_some() == (i + 1 < q.len()),
        i + 1 < q.len() ==> INode::<T>::handed(h, h[ring_at(q, s, i)].next).unwrap().addr() == q[i
            + 1],
        INode::<T>::handed(h, h[ring_at(q, s, i + 1)].prev).is_some() == (i >= 0),
        i >= 0 ==> INode::<T>::handed(h, h[ring_at(q, s, i + 1)].prev).unwrap().addr() == q[i],
{
    let a = ring_at(q, s, i);
    let b = ring_at(q, s, i + 1);
    assert(node_ok(h, s));
    if h.dom().contains(0) {
        assert(node_ok(h, 0));
    }
    if q.len() > 0 {
        assert(h[ring_at(q, s, i)].next.addr == ring_at(q, s, i + 1));
        if i >= 0 {
            assert(h.dom().contains(q[i]));
        }
        if i + 1 < q.len() {
            assert(h.dom().contains(q[i + 1]));
        }
        assert(node_ok(h, a));
        assert(h[b].prev == Raw::thin(a));
    } else {
        if h[s].next.addr != 0 {
            assert(h[s].prev == Raw::thin(s));
        }
    }
}

/// Where two sequences are the order of one list, they agree on their
/// first `i` places.
proof fn lemma_order_prefix<T>(
    h: Map<usize, Node<T>>,
    s: usize,
    q1: Seq<usize>,
    q2: Seq<usize>,
    i: int,
)
    requires
        in_order(h, s, q1),
        in_order(h, s, q2),
        0 <= i <= q1.len(),
        i <= q2.len(),
    ensures
        q1.subrange(0, i) == q2.subrange(0, i),
    decreases i,
{
    if i == 0 {
        assert(q1.subrange(0, i) =~= q2.subrange(0, i));
    } else {
        lemma_order_prefix(h, s, q1, q2, i - 1);
        assert(h[ring_at(q1, s, i - 2)].next.addr == ring_at(q1, s, i - 1));
        assert(h[ring_at(q2, s, i - 2)].next.addr == ring_at(q2, s, i - 1));
        if i >= 2 {
            assert(q1.subrange(0, i - 1)[i - 2] == q2.subrange(0, i - 1)[i - 2]);
        }
        assert(q1[i - 1] == q2[i - 1]);
        assert forall|j: int| 0 <= j < i implies q1.subrange(0, i)[j] == q2.subrange(0, i)[j] by {
            if j < i - 1 {
                assert(q1.subrange(0, i - 1)[j] == q2.subrange(0, i - 1)[j]);
            }
        }
        assert(q1.subrange(0, i) =~= q2.subrange(0, i));
    }
}

/// A list has one order.
pub proof fn lemma_order_unique<T>(h: Map<usize, Node<T>>, s: usize, q1: Seq<usize>, q2: Seq<usize>)
    requires
        rings(h),
        in_order(h, s, q1),
        in_order(h, s, q2),
    ensures
        q1 == q2,
{
    let n1 = q1.len() as int;
    let n2 = q2.len() as int;
    let n = if n1 <= n2 {
        n1
    } else {
        n2
    };
    lemma_order_prefix(h, s, q1, q2, n);
    if h.dom().contains(0) {
        assert(node_ok(h, 0));
    }
    if n1 < n2 {
        assert(h[ring_at(q2, s, n1 - 1)].next.addr == ring_at(q2, s, n1));
        assert(h.dom().contains(q2[n1]));
        if n1 > 0 {
            assert(h[ring_at(q1, s, n1 - 1)].next.addr == ring_at(q1, s, n1));
            assert(q1.subrange(0, n)[n1 - 1] == q2.subrange(0, n)[n1 - 1]);
        }
        assert(false);
    }
    if n2 < n1 {
        assert(h[ring_at(q1, s, n2 - 1)].next.addr == ring_at(q1, s, n2));
        assert(h.dom().contains(q1[n2]));
        if n2 > 0 {
            assert(h[ring_at(q2, s, n2 - 1)].next.addr == ring_at(q2, s, n2));
            assert(q1.subrange(0, n)[n2 - 1] == q2.subrange(0, n)[n2 - 1]);
        }
        assert(false);
    }
    assert(q1.subrange(0, n) =~= q1);
    assert(q2.subrange(0, n) =~= q2);
}

/// A list keeps its order while counts change, short of making a node a
/// sentinel, while new nodes come, and while detached nodes go.
pub proof fn lemma_order_stays<T>(
    h: Map<usize, Node<T>>,
    h2: Map<usize, Node<T>>,
    s: usize,
    q: Seq<usize>,
)
    requires
        rings(h),
        in_order(h, s, q),
        forall|b: usize|
            h.dom().contains(b) && h[b].next.addr != 0 ==> #[trigger] h2.dom().contains(b)
                && h2[b].next == h[b].next && h2[b].sentinel() == h[b].sentinel(),
        h2.dom().contains(s),
        h2[s].next == h[s].next,
        h2[s].sentinel(),
    ensures
        in_order(h2, s, q),
{
    if h.dom().contains(0) {
        assert(node_ok(h, 0));
    }
    assert(node_ok(h, s));
    assert forall|i: int| 0 <= i < q.len() implies h2.dom().contains(#[trigger] q[i])
        && !h2[q[i]].sentinel() && h2[q[i]].next == h[q[i]].next by {
        assert(h[ring_at(q, s, i)].next.addr == ring_at(q, s, i + 1));
        assert(h.dom().contains(q[i]));
        if i + 1 < q.len() {
            assert(h.dom().contains(q[i + 1]));
        }
        assert(h[q[i]].next.addr != 0);
    }
    lemma_order_kept(h, h2, s, q);
}

} // verus!
