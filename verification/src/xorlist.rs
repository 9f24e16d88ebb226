//! A doubly-linked list whose nodes hold one link word: the addresses of
//! both neighbours combined with `^`.

use crate::raw::lemma_xor_words;
use crate::raw::Heap;
use crate::raw::Raw;
use vstd::prelude::*;

verus! {

/// A node of an [`XorList`]: the link word and the element.
pub struct Node<T> {
    pub link: Raw,
    pub data: T,
}

impl<T> Node<T> {
    pub fn new(val: T) -> (n: Node<T>)
        ensures
            n.link == Raw::thin(0),
            n.data == val,
    {
        Node { link: Raw::null(), data: val }
    }
}

/// The address at place `i` of `s`, and the null address outside of it.
pub open spec fn at(s: Seq<usize>, i: int) -> usize {
    if 0 <= i < s.len() {
        s[i]
    } else {
        0
    }
}

/// The nodes at the addresses `s` form a chain in `h`: the addresses are
/// distinct, a node lives at each, and each node's link is the addresses of
/// its two neighbours in `s` combined, the null address standing for a
/// neighbour that is not there.
pub open spec fn linked<T>(h: Map<usize, Node<T>>, s: Seq<usize>) -> bool {
    &&& s.no_duplicates()
    &&& forall|i: int| 0 <= i < s.len() ==> #[trigger] h.dom().contains(s[i])
    &&& forall|i: int|
        0 <= i < s.len() ==> (#[trigger] h[s[i]]).link == Raw::thin(at(s, i - 1) ^ at(s, i + 1))
}

/// The elements of the nodes at the addresses `s`.
pub open spec fn elements<T>(h: Map<usize, Node<T>>, s: Seq<usize>) -> Seq<T> {
    Seq::new(s.len(), |i: int| h[s[i]].data)
}

/// Every node that `h1` holds outside of `gone` is in `h2` as it was, and
/// what `h2` holds at `kept` was in `gone` or new.
pub open spec fn framed<T>(
    h1: Heap<Node<T>>,
    h2: Heap<Node<T>>,
    gone: Seq<usize>,
    kept: Seq<usize>,
) -> bool {
    &&& forall|a: usize|
        h1@.dom().contains(a) && !gone.contains(a) ==> #[trigger] h2@.dom().contains(a) && h2@[a]
            == h1@[a]
    &&& forall|a: usize| #[trigger]
        kept.contains(a) ==> gone.contains(a) || !h1@.dom().contains(a)
}

/// A node that has left its list: it owns the element.
pub struct Elem<T> {
    node: Node<T>,
}

impl<T> Elem<T> {
    /// The element.
    pub closed spec fn view(&self) -> T {
        self.node.data
    }

    pub fn as_ref(&self) -> (r: &T)
        ensures
            *r == self@,
    {
        &self.node.data
    }

    pub fn as_mut(&mut self) -> (r: &mut T)
        ensures
            *r == old(self)@,
            final(self)@ == *final(r),
    {
        &mut self.node.data
    }

    pub fn into_inner(self) -> (r: T)
        ensures
            r == self@,
    {
        self.node.data
    }
}

pub struct XorList<T> {
    head: Raw,
    tail: Raw,
    addrs: Ghost<Seq<usize>>,
    phantom: core::marker::PhantomData<std::rc::Rc<T>>,
}

impl<T> XorList<T> {
    /// The addresses of the list's nodes, from the head on.
    pub closed spec fn addrs(&self) -> Seq<usize> {
        self.addrs@
    }

    pub closed spec fn head(&self) -> Raw {
        self.head
    }

    pub closed spec fn tail(&self) -> Raw {
        self.tail
    }

    /// The list's nodes live in `heap` at distinct addresses, each node's link
    /// is its two neighbours' addresses combined, the head is the first address,
    /// and the tail is the last one where the list has two nodes or more.
    pub open spec fn wf(&self, heap: &Heap<Node<T>>) -> bool {
        let s = self.addrs();
        &&& heap.wf()
        &&& linked(heap@, s)
        &&& self.head() == Raw::thin(at(s, 0))
        &&& self.tail() == Raw::thin(
            if s.len() >= 2 {
                s[s.len() - 1]
            } else {
                0
            },
        )
    }

    /// The elements, from the head on.
    pub open spec fn view(&self, heap: &Heap<Node<T>>) -> Seq<T> {
        elements(heap@, self.addrs())
    }

    pub fn new() -> (l: XorList<T>)
        ensures
            l.addrs() == Seq::<usize>::empty(),
            forall|heap: &Heap<Node<T>>| heap.wf() ==> #[trigger] l.wf(heap),
    {
        XorList {
            head: Raw::null(),
            tail: Raw::null(),
            addrs: Ghost(Seq::empty()),
            phantom: core::marker::PhantomData,
        }
    }

    /// Whether the list has no element.
    pub fn is_empty(&self) -> (r: bool)
        ensures
            r == (self.head().addr == 0),
            forall|heap: &Heap<Node<T>>| #[trigger]
                self.wf(heap) ==> r == (self.view(heap).len() == 0),
    {
        proof {
            assert forall|heap: &Heap<Node<T>>| #[trigger] self.wf(heap) implies (self.head().addr
                == 0) == (self.view(heap).len() == 0) by {
                self.lemma_empty(heap);
            }
        }
        self.head.is_null()
    }

    /// In a well-formed list the head is null exactly when there is no element.
    pub proof fn lemma_empty(&self, heap: &Heap<Node<T>>)
        requires
            self.wf(heap),
        ensures
            (self.head().addr == 0) <==> self.view(heap).len() == 0,
            self.view(heap).len() == self.addrs().len(),
    {
        heap.lemma_null_is_free();
        if self.addrs().len() > 0 {
            assert(heap@.dom().contains(self.addrs()[0]));
        }
    }

    /// Puts `val` behind the last element.
    #[verifier::rlimit(50)]
    pub fn push_back(&mut self, heap: &mut Heap<Node<T>>, val: T)
        requires
            old(self).wf(old(heap)),
            !old(heap).full(),
        ensures
            final(self).wf(final(heap)),
            final(self).view(final(heap)) == old(self).view(old(heap)).push(val),
            final(self).addrs() == old(self).addrs().push(final(self).addrs().last()),
            !old(heap)@.dom().contains(final(self).addrs().last()),
            final(heap)@.dom() =~= old(heap)@.dom().insert(final(self).addrs().last()),
            framed(*old(heap), *final(heap), old(self).addrs(), final(self).addrs()),
    {
        let ghost s = self.addrs@;
        proof {
            heap.lemma_null_is_free();
        }
        let mut node = Node::new(val);
        if self.head.is_null() {
            let a = heap.allocate(node);
            self.head = Raw::new(a, 0);
            proof {
                assert(s.len() == 0) by {
                    if s.len() > 0 {
                        assert(old(heap)@.dom().contains(s[0]));
                    }
                }
                self.addrs@ = s.push(a);
                lemma_xor_words(0, 0);
            }
        } else if self.tail.is_null() {
            node.link = self.head;
            let a = heap.allocate(node);
            self.tail = Raw::new(a, 0);
            let head = heap.get_mut(self.head.addr);
            head.link = self.tail;
            proof {
                self.addrs@ = s.push(a);
                lemma_xor_words(s[0], a);
                assert(old(heap)@.dom().contains(s[0]));
            }
        } else {
            node.link = self.tail;
            let a = heap.allocate(node);
            let node_ptr = Raw::new(a, 0);
            let tail = heap.get_mut(self.tail.addr);
            tail.link = tail.link.xor(&node_ptr);
            self.tail = node_ptr;
            proof {
                self.addrs@ = s.push(a);
                let n = s.len() as int;
                lemma_xor_words(s[n - 1], a);
                lemma_xor_words(s[n - 2], a);
                lemma_xor_words(s[n - 2], 0);
                lemma_xor_words(0, 0);
                assert(old(heap)@.dom().contains(s[n - 1]));
                assert(old(heap)@[s[n - 1]].link == Raw::thin(at(s, n - 2) ^ at(s, n)));
            }
        }
        proof {
            let s2 = self.addrs@;
            assert forall|i: int| 0 <= i < s.len() implies s2[i] == s[i] && old(heap)@.dom().contains(s[i]) by {}
            assert(s2 =~= s.push(s2.last()));
            assert(final(self).view(final(heap)) =~= old(self).view(old(heap)).push(val));
        }
    }

    /// Puts `val` before the first element.
    #[verifier::rlimit(50)]
    pub fn push_front(&mut self, heap: &mut Heap<Node<T>>, val: T)
        requires
            old(self).wf(old(heap)),
            !old(heap).full(),
        ensures
            final(self).wf(final(heap)),
            final(self).view(final(heap)) == seq![val] + old(self).view(old(heap)),
            final(self).addrs() == seq![final(self).addrs().first()] + old(self).addrs(),
            !old(heap)@.dom().contains(final(self).addrs().first()),
            final(heap)@.dom() =~= old(heap)@.dom().insert(final(self).addrs().first()),
            framed(*old(heap), *final(heap), old(self).addrs(), final(self).addrs()),
    {
        let ghost s = self.addrs@;
        proof {
            heap.lemma_null_is_free();
        }
        let mut node = Node::new(val);
        if self.head.is_null() {
            let a = heap.allocate(node);
            self.head = Raw::new(a, 0);
            proof {
                assert(s.len() == 0) by {
                    if s.len() > 0 {
                        assert(old(heap)@.dom().contains(s[0]));
                    }
                }
                self.addrs@ = seq![a] + s;
                lemma_xor_words(0, 0);
            }
        } else if self.tail.is_null() {
            let old_head = self.head;
            self.tail = old_head;
            node.link = self.tail;
            let a = heap.allocate(node);
            self.head = Raw::new(a, 0);
            let old_head_node = heap.get_mut(old_head.addr);
            old_head_node.link = self.head;
            proof {
                self.addrs@ = seq![a] + s;
                lemma_xor_words(s[0], a);
                assert(old(heap)@.dom().contains(s[0]));
            }
        } else {
            node.link = self.head;
            let a = heap.allocate(node);
            let node_ptr = Raw::new(a, 0);
            let head = heap.get_mut(self.head.addr);
            head.link = head.link.xor(&node_ptr);
            self.head = node_ptr;
            proof {
                self.addrs@ = seq![a] + s;
                lemma_xor_words(s[0], a);
                lemma_xor_words(s[1], a);
                lemma_xor_words(a, s[1]);
                lemma_xor_words(0, 0);
                assert(old(heap)@.dom().contains(s[0]));
                assert(old(heap)@[s[0]].link == Raw::thin(at(s, -1) ^ at(s, 1)));
            }
        }
        proof {
            let s2 = self.addrs@;
            assert forall|i: int| 0 <= i < s.len() implies s2[i + 1] == s[i] && old(
                heap,
            )@.dom().contains(s[i]) by {}
            assert forall|i: int| 0 <= i < s2.len() implies (#[trigger] heap@[s2[i]]).link
                == Raw::thin(at(s2, i - 1) ^ at(s2, i + 1)) by {
                if i >= 1 {
                    assert(s2[i] == s[i - 1]);
                    assert(old(heap)@[s[i - 1]].link == Raw::thin(at(s, i - 2) ^ at(s, i)));
                    assert(at(s2, i + 1) == at(s, i));
                    if i >= 2 {
                        assert(at(s2, i - 1) == at(s, i - 2));
                    }
                }
            }
            assert(s2 =~= seq![s2.first()] + s);
            assert(self.view(heap) =~= seq![val] + old(self).view(old(heap)));
        }
    }

    /// Takes the last element out, if there is one.
    #[verifier::rlimit(50)]
    pub fn pop_back(&mut self, heap: &mut Heap<Node<T>>) -> (r: Option<Elem<T>>)
        requires
            old(self).wf(old(heap)),
        ensures
            final(self).wf(final(heap)),
            framed(*old(heap), *final(heap), old(self).addrs(), final(self).addrs()),
            old(self).addrs().len() == 0 ==> r.is_none() && final(self).addrs() == old(
                self,
            ).addrs() && *final(heap) == *old(heap),
            old(self).addrs().len() > 0 ==> r.is_some() && r.unwrap()@ == old(self).view(
                old(heap),
            ).last() && final(self).view(final(heap)) == old(self).view(old(heap)).drop_last()
                && final(self).addrs() == old(self).addrs().drop_last()
                && final(heap)@.dom() =~= old(heap)@.dom().remove(old(self).addrs().last())
                && !final(heap).full(),
    {
        let ghost s = self.addrs@;
        let ghost n = s.len() as int;
        proof {
            heap.lemma_null_is_free();
            if n > 0 {
                assert(heap@.dom().contains(s[0]));
                assert(heap@.dom().contains(s[n - 1]));
                lemma_xor_words(0, 0);
            }
        }
        if self.head.is_null() {
            None
        } else if self.tail.is_null() {
            let taken = self.head.take(heap);
            proof {
                self.addrs@ = s.drop_last();
                assert(self.view(heap) =~= old(self).view(old(heap)).drop_last());
            }
            match taken {
                Some(node) => Some(Elem { node }),
                None => None,
            }
        } else {
            let head_link = heap.get(self.head.addr).link;
            let tail_link = heap.get(self.tail.addr).link;
            proof {
                assert(heap@[s[0]].link == Raw::thin(at(s, -1) ^ at(s, 1)));
                assert(heap@[s[n - 1]].link == Raw::thin(at(s, n - 2) ^ at(s, n)));
                lemma_xor_words(s[1], s[n - 2]);
            }
            if head_link == self.tail && tail_link == self.head {
                assert(n == 2);
                let taken = self.tail.take(heap);
                let head = heap.get_mut(self.head.addr);
                head.link = Raw::null();
                proof {
                    self.addrs@ = s.drop_last();
                    assert(self.view(heap) =~= old(self).view(old(heap)).drop_last());
                }
                match taken {
                    Some(node) => Some(Elem { node }),
                    None => None,
                }
            } else {
                assert(n >= 3);
                let mut node = self.tail;
                self.tail = heap.get(node.addr).link;
                proof {
                    assert(heap@.dom().contains(s[n - 2]));
                    assert(heap@[s[n - 2]].link == Raw::thin(at(s, n - 3) ^ at(s, n - 1)));
                    lemma_xor_words(s[n - 3], s[n - 1]);
                }
                let tail = heap.get_mut(self.tail.addr);
                tail.link = tail.link.xor(&node);
                let taken = node.take(heap);
                proof {
                    let s2 = s.drop_last();
                    self.addrs@ = s2;
                    assert forall|i: int| 0 <= i < s2.len() implies (#[trigger] heap@[s2[i]]).link
                        == Raw::thin(at(s2, i - 1) ^ at(s2, i + 1)) by {
                        assert(s2[i] == s[i]);
                        assert(old(heap)@[s[i]].link == Raw::thin(at(s, i - 1) ^ at(s, i + 1)));
                    }
                    assert(self.view(heap) =~= old(self).view(old(heap)).drop_last());
                }
                match taken {
                    Some(node) => Some(Elem { node }),
                    None => None,
                }
            }
        }
    }

    /// Takes the first element out, if there is one.
    #[verifier::rlimit(50)]
    pub fn pop_front(&mut self, heap: &mut Heap<Node<T>>) -> (r: Option<Elem<T>>)
        requires
            old(self).wf(old(heap)),
        ensures
            final(self).wf(final(heap)),
            framed(*old(heap), *final(heap), old(self).addrs(), final(self).addrs()),
            old(self).addrs().len() == 0 ==> r.is_none() && final(self).addrs() == old(
                self,
            ).addrs() && *final(heap) == *old(heap),
            old(self).addrs().len() > 0 ==> r.is_some() && r.unwrap()@ == old(self).view(
                old(heap),
            ).first() && final(self).view(final(heap)) == old(self).view(old(heap)).drop_first()
                && final(self).addrs() == old(self).addrs().drop_first()
                && final(heap)@.dom() =~= old(heap)@.dom().remove(old(self).addrs().first())
                && !final(heap).full(),
    {
        let ghost s = self.addrs@;
        let ghost n = s.len() as int;
        proof {
            heap.lemma_null_is_free();
            if n > 0 {
                assert(heap@.dom().contains(s[0]));
                assert(heap@.dom().contains(s[n - 1]));
                lemma_xor_words(0, 0);
            }
        }
        if self.head.is_null() {
            None
        } else if self.tail.is_null() {
            let taken = self.head.take(heap);
            proof {
                self.addrs@ = s.drop_first();
                assert(self.view(heap) =~= old(self).view(old(heap)).drop_first());
            }
            match taken {
                Some(node) => Some(Elem { node }),
                None => None,
            }
        } else {
            let head_link = heap.get(self.head.addr).link;
            let tail_link = heap.get(self.tail.addr).link;
            proof {
                assert(heap@[s[0]].link == Raw::thin(at(s, -1) ^ at(s, 1)));
                assert(heap@[s[n - 1]].link == Raw::thin(at(s, n - 2) ^ at(s, n)));
                lemma_xor_words(s[1], s[n - 2]);
            }
            if head_link == self.tail && tail_link == self.head {
                assert(n == 2);
                let mut node = self.head;
                self.head = self.tail;
                self.tail = Raw::null();
                let head = heap.get_mut(self.head.addr);
                head.link = Raw::null();
                let taken = node.take(heap);
                proof {
                    self.addrs@ = s.drop_first();
                    assert(self.view(heap) =~= old(self).view(old(heap)).drop_first());
                }
                match taken {
                    Some(node) => Some(Elem { node }),
                    None => None,
                }
            } else {
                assert(n >= 3);
                let mut node = self.head;
                self.head = heap.get(node.addr).link;
                proof {
                    assert(heap@.dom().contains(s[1]));
                    assert(heap@[s[1]].link == Raw::thin(at(s, 0) ^ at(s, 2)));
                    lemma_xor_words(s[0], s[2]);
                    lemma_xor_words(s[2], s[0]);
                }
                let head = heap.get_mut(self.head.addr);
                head.link = head.link.xor(&node);
                let taken = node.take(heap);
                proof {
                    let s2 = s.drop_first();
                    self.addrs@ = s2;
                    assert forall|i: int| 0 <= i < s2.len() implies (#[trigger] heap@[s2[i]]).link
                        == Raw::thin(at(s2, i - 1) ^ at(s2, i + 1)) by {
                        assert(s2[i] == s[i + 1]);
                        assert(old(heap)@[s[i + 1]].link == Raw::thin(at(s, i) ^ at(s, i + 2)));
                        assert(at(s2, i + 1) == at(s, i + 2));
                        if i >= 1 {
                            assert(at(s2, i - 1) == at(s, i));
                        }
                    }
                    assert(self.view(heap) =~= old(self).view(old(heap)).drop_first());
                }
                match taken {
                    Some(node) => Some(Elem { node }),
                    None => None,
                }
            }
        }
    }
    /// Takes every element out of the list; their nodes leave the arena.
    #[verifier::rlimit(50)]
    pub fn clear(&mut self, heap: &mut Heap<Node<T>>)
        requires
            old(self).wf(old(heap)),
        ensures
            final(self).wf(final(heap)),
            final(self).addrs().len() == 0,
            final(self).head().addr == 0,
            forall|i: int|
                0 <= i < old(self).addrs().len() ==> !final(heap)@.dom().contains(
                    #[trigger] old(self).addrs()[i],
                ),
            framed(*old(heap), *final(heap), old(self).addrs(), final(self).addrs()),
    {
        let ghost s = self.addrs@;
        loop
            invariant
                self.wf(heap),
                self.addrs().len() <= s.len(),
                self.addrs() == s.subrange(0, self.addrs().len() as int),
                forall|i: int|
                    self.addrs().len() <= i < s.len() ==> !heap@.dom().contains(#[trigger] s[i]),
                framed(*old(heap), *heap, s, self.addrs()),
            ensures
                self.addrs().len() == 0,
            decreases self.addrs().len(),
        {
            let ghost before = self.addrs();
            let ghost mid = *heap;
            let popped = self.pop_back(heap);
            if popped.is_none() {
                break ;
            }
            proof {
                assert(self.addrs() =~= s.subrange(0, self.addrs().len() as int));
                assert(before.last() == s[before.len() - 1]);
                assert forall|a: usize| old(heap)@.dom().contains(a) && !s.contains(
                    a,
                ) implies #[trigger] heap@.dom().contains(a) && heap@[a] == old(heap)@[a] by {
                    if before.contains(a) {
                        let j = choose|j: int| 0 <= j < before.len() && before[j] == a;
                        assert(s[j] == a);
                    }
                }
                assert forall|a: usize| #[trigger] self.addrs().contains(a) implies s.contains(
                    a,
                ) by {
                    let j = choose|j: int| 0 <= j < self.addrs().len() && self.addrs()[j] == a;
                    assert(s[j] == a);
                }
            }
        }
        proof {
            self.lemma_empty(heap);
        }
    }

    /// An iterator over the elements, from the head on.
    pub fn iter<'a>(&'a self, heap: &'a Heap<Node<T>>) -> (it: Iter<'a, T>)
        requires
            self.wf(heap),
        ensures
            it.wf(),
            it.position() == 0,
            it.list() == self,
            it.heap() == heap,
    {
        proof {
            self.lemma_empty(heap);
        }
        Iter { prev: Raw::null(), curr: self.head, list: self, heap, pos: Ghost(0) }
    }

    /// A walk over the elements, from the head on, that hands each out to
    /// be changed in place.
    pub fn iter_mut(&mut self, heap: &Heap<Node<T>>) -> (it: IterMut<T>)
        requires
            old(self).wf(heap),
        ensures
            *final(self) == *old(self),
            it.wf(final(self)),
            it.position() == 0,
    {
        proof {
            self.lemma_empty(heap);
        }
        IterMut {
            at: Cursor {
                prev: Raw::null(),
                curr: self.head,
                pos: Ghost(0),
                phantom: core::marker::PhantomData,
            },
        }
    }

    /// A list whose element at place `i` was changed in the arena, and
    /// nothing else, is whole as before, with the new element at that place.
    pub proof fn lemma_element_changed(
        &self,
        h1: &Heap<Node<T>>,
        h2: &Heap<Node<T>>,
        i: int,
        data: T,
    )
        requires
            self.wf(h1),
            h2.wf(),
            0 <= i < self.addrs().len(),
            h2@ == h1@.insert(
                self.addrs()[i],
                Node { link: h1@[self.addrs()[i]].link, data },
            ),
        ensures
            self.wf(h2),
            self.view(h2) == self.view(h1).update(i, data),
    {
        let s = self.addrs();
        assert forall|j: int| 0 <= j < s.len() implies #[trigger] h2@.dom().contains(s[j]) && h2@[s[j]].link
            == Raw::thin(at(s, j - 1) ^ at(s, j + 1)) by {
            assert(h1@.dom().contains(s[j]));
            assert(h1@[s[j]].link == Raw::thin(at(s, j - 1) ^ at(s, j + 1)));
        }
        assert(self.view(h2) =~= self.view(h1).update(i, data));
    }

    /// A cursor before the first element.
    pub fn cursor(&self, heap: &Heap<Node<T>>) -> (c: Cursor<T>)
        requires
            self.wf(heap),
        ensures
            c.wf(self),
            c.position() == 0,
    {
        proof {
            self.lemma_empty(heap);
        }
        Cursor {
            prev: Raw::null(),
            curr: self.head,
            pos: Ghost(0),
            phantom: core::marker::PhantomData,
        }
    }

    /// A list that lives in `h1` lives in `h2` as well, with the same elements,
    /// where the two arenas differ only on the addresses `gone` of other lists.
    pub proof fn lemma_framed(
        &self,
        h1: &Heap<Node<T>>,
        h2: &Heap<Node<T>>,
        gone: Seq<usize>,
        kept: Seq<usize>,
    )
        requires
            self.wf(h1),
            h2.wf(),
            framed(*h1, *h2, gone, kept),
            forall|i: int, j: int|
                0 <= i < self.addrs().len() && 0 <= j < gone.len() ==> self.addrs()[i] != gone[j],
        ensures
            self.wf(h2),
            self.view(h2) == self.view(h1),
            forall|i: int, j: int|
                0 <= i < self.addrs().len() && 0 <= j < kept.len() ==> self.addrs()[i] != kept[j],
    {
        let s = self.addrs();
        assert forall|i: int| 0 <= i < s.len() implies h2@.dom().contains(s[i]) && h2@[s[i]]
            == h1@[s[i]] by {
            assert(h1@.dom().contains(s[i]));
            if gone.contains(s[i]) {
                let j = choose|j: int| 0 <= j < gone.len() && gone[j] == s[i];
                assert(s[i] != gone[j]);
            }
        }
        assert forall|i: int| 0 <= i < s.len() implies (#[trigger] h2@[s[i]]).link == Raw::thin(
            at(s, i - 1) ^ at(s, i + 1),
        ) by {
            assert(h1@[s[i]].link == Raw::thin(at(s, i - 1) ^ at(s, i + 1)));
        }
        assert(self.view(h2) =~= self.view(h1));
        assert forall|i: int, j: int| 0 <= i < s.len() && 0 <= j < kept.len() implies s[i]
            != kept[j] by {
            assert(h1@.dom().contains(s[i]));
            if s[i] == kept[j] {
                assert(kept.contains(s[i]));
                let k = choose|k: int| 0 <= k < gone.len() && gone[k] == s[i];
                assert(s[i] != gone[k]);
            }
        }
    }
}

/// A walk over the elements of a list, from the head on.
pub struct Iter<'a, T> {
    prev: Raw,
    curr: Raw,
    list: &'a XorList<T>,
    heap: &'a Heap<Node<T>>,
    pos: Ghost<int>,
}

impl<'a, T> Iter<'a, T> {
    pub closed spec fn list(&self) -> &'a XorList<T> {
        self.list
    }

    pub closed spec fn heap(&self) -> &'a Heap<Node<T>> {
        self.heap
    }

    /// How many elements the walk has passed.
    pub closed spec fn position(&self) -> int {
        self.pos@
    }

    pub closed spec fn wf(&self) -> bool {
        let s = self.list.addrs();
        &&& self.list.wf(self.heap)
        &&& 0 <= self.pos@ <= s.len()
        &&& self.prev == Raw::thin(at(s, self.pos@ - 1))
        &&& self.curr == Raw::thin(at(s, self.pos@))
    }

    /// The next element, or nothing behind the last one.
    pub fn next(&mut self) -> (r: Option<&'a T>)
        requires
            old(self).wf(),
        ensures
            final(self).wf(),
            final(self).list() == old(self).list(),
            final(self).heap() == old(self).heap(),
            0 <= old(self).position() <= old(self).list().view(old(self).heap()).len(),
            old(self).position() < old(self).list().view(old(self).heap()).len() ==> r == Some(
                &old(self).list().view(old(self).heap())[old(self).position()],
            ) && final(self).position() == old(self).position() + 1,
            old(self).position() == old(self).list().view(old(self).heap()).len() ==> r.is_none()
                && final(self).position() == old(self).position(),
    {
        let prev = self.prev;
        let curr = self.curr;
        let ghost s = self.list.addrs();
        let ghost p = self.pos@;
        proof {
            self.heap.lemma_null_is_free();
            if p < s.len() {
                assert(self.heap@.dom().contains(s[p]));
                assert(self.heap@[s[p]].link == Raw::thin(at(s, p - 1) ^ at(s, p + 1)));
                lemma_xor_words(at(s, p - 1), at(s, p + 1));
                lemma_xor_words(0, 0);
            }
        }
        match curr.as_ref(self.heap) {
            Some(node) => {
                self.prev = curr;
                self.curr = prev.xor(&node.link);
                proof {
                    self.pos@ = p + 1;
                }
                Some(&node.data)
            },
            None => None,
        }
    }
}

/// The arena `h` with the link of the node at `p` combined with `x` and
/// with `y`; `h` itself where no node lives at `p`.
pub open spec fn patched<T>(h: Map<usize, Node<T>>, p: usize, x: Raw, y: Raw) -> Map<
    usize,
    Node<T>,
> {
    if h.dom().contains(p) {
        h.insert(p, Node { link: h[p].link.spec_xor(x).spec_xor(y), data: h[p].data })
    } else {
        h
    }
}

/// Replaces one neighbour in the link of the node at `p`: the link is
/// combined with the address that leaves and with the one that comes.
fn patch<T>(heap: &mut Heap<Node<T>>, p: Raw, x: &Raw, y: &Raw)
    requires
        old(heap).wf(),
    ensures
        final(heap).wf(),
        final(heap).full() == old(heap).full(),
        final(heap)@ == patched(old(heap)@, p.addr, *x, *y),
{
    if heap.contains(p.addr) {
        let node = heap.get_mut(p.addr);
        node.link = node.link.xor(x).xor(y);
    }
}

/// `s` with `a` put in at place `p`.
pub open spec fn with_one<A>(s: Seq<A>, p: int, a: A) -> Seq<A> {
    s.subrange(0, p).push(a) + s.subrange(p, s.len() as int)
}

/// `s` without what stands at place `p`.
pub open spec fn without_one<A>(s: Seq<A>, p: int) -> Seq<A> {
    s.subrange(0, p) + s.subrange(p + 1, s.len() as int)
}

/// `s` with all of `t` put in at place `p`.
pub open spec fn with_all<A>(s: Seq<A>, p: int, t: Seq<A>) -> Seq<A> {
    s.subrange(0, p) + t + s.subrange(p, s.len() as int)
}

/// Putting a node in at a place of a chain, and replacing in each
/// neighbour's link the other neighbour by the new node, gives a chain again.
#[verifier::rlimit(50)]
proof fn lemma_insert_links<T>(
    s: Seq<usize>,
    p: int,
    a: usize,
    h0: Map<usize, Node<T>>,
    h: Map<usize, Node<T>>,
    val: T,
)
    requires
        0 <= p <= s.len(),
        linked(h0, s),
        !s.contains(a),
        a != 0,
        !h0.dom().contains(0),
        h == patched(
            patched(
                h0.insert(
                    a,
                    Node {
                        link: Raw::thin(at(s, p - 1)).spec_xor(Raw::thin(at(s, p))),
                        data: val,
                    },
                ),
                at(s, p - 1),
                Raw::thin(at(s, p)),
                Raw::thin(a),
            ),
            at(s, p),
            Raw::thin(at(s, p - 1)),
            Raw::thin(a),
        ),
    ensures
        linked(h, with_one(s, p, a)),
        elements(h, with_one(s, p, a)) == with_one(elements(h0, s), p, val),
        h.dom() =~= h0.dom().insert(a),
        forall|b: usize| h0.dom().contains(b) && !s.contains(b) && b != a ==> h[b] == h0[b],
{
    let q = at(s, p - 1);
    let c = at(s, p);
    let n = s.len() as int;
    let s2 = with_one(s, p, a);
    lemma_xor_words(0, 0);
    lemma_xor_words(at(s, p - 2), c);
    lemma_xor_words(q, at(s, p + 1));
    lemma_xor_words(at(s, p + 1), a);
    if p >= 1 {
        assert(h0.dom().contains(s[p - 1]));
        assert(s.contains(s[p - 1]));
        assert(h0[q].link == Raw::thin(at(s, p - 2) ^ at(s, p)));
    }
    if p < n {
        assert(h0.dom().contains(s[p]));
        assert(s.contains(s[p]));
        assert(h0[c].link == Raw::thin(at(s, p - 1) ^ at(s, p + 1)));
    }
    assert(q != c || (q == 0 && c == 0));
    assert(h[a].link == Raw::thin(q ^ c));
    assert(h[a].data == val);
    if p >= 1 {
        assert(h[q].link == Raw::thin(at(s, p - 2) ^ a));
        assert(h[q].data == h0[q].data);
    }
    if p < n {
        assert(h[c].link == Raw::thin(a ^ at(s, p + 1)));
        assert(h[c].data == h0[c].data);
    }
    assert forall|b: usize| h0.dom().contains(b) && b != q && b != c && b != a implies h[b]
        == h0[b] by {}
    assert forall|i: int| 0 <= i < s2.len() implies #[trigger] h.dom().contains(s2[i]) && h[s2[i]].link
        == Raw::thin(at(s2, i - 1) ^ at(s2, i + 1)) && h[s2[i]].data == with_one(
        elements(h0, s),
        p,
        val,
    )[i] by {
        if i < p {
            assert(s2[i] == s[i]);
            assert(h0.dom().contains(s[i]));
            assert(s.contains(s[i]));
            assert(h0[s[i]].link == Raw::thin(at(s, i - 1) ^ at(s, i + 1)));
            if i < p - 1 {
                assert(s[i] != q);
                assert(s[i] != c);
                assert(at(s2, i + 1) == at(s, i + 1));
            }
            if i >= 1 {
                assert(at(s2, i - 1) == at(s, i - 1));
            }
        } else if i > p {
            assert(s2[i] == s[i - 1]);
            assert(h0.dom().contains(s[i - 1]));
            assert(s.contains(s[i - 1]));
            assert(h0[s[i - 1]].link == Raw::thin(at(s, i - 2) ^ at(s, i)));
            if i + 1 < s2.len() {
                assert(s2[i + 1] == s[i]);
            }
            if i > p + 1 {
                assert(s[i - 1] != q);
                assert(s[i - 1] != c);
                assert(at(s2, i - 1) == at(s, i - 2));
            }
        }
    }
    assert forall|i: int, j: int| 0 <= i < j < s2.len() implies s2[i] != s2[j] by {
        let i0 = if i < p { i } else { i - 1 };
        let j0 = if j < p { j } else { j - 1 };
        if i != p {
            assert(s2[i] == s[i0]);
            assert(s.contains(s[i0]));
        }
        if j != p {
            assert(s2[j] == s[j0]);
            assert(s.contains(s[j0]));
        }
    }
    assert(elements(h, s2) =~= with_one(elements(h0, s), p, val));
}

/// Taking a node out from between two neighbours of a chain, and replacing
/// it in each neighbour's link by the other neighbour, gives a chain again.
#[verifier::rlimit(50)]
proof fn lemma_remove_links<T>(s: Seq<usize>, p: int, h0: Map<usize, Node<T>>, h: Map<usize, Node<T>>)
    requires
        1 <= p < s.len() - 1,
        linked(h0, s),
        h == patched(
            patched(h0.remove(s[p]), s[p - 1], Raw::thin(s[p]), Raw::thin(s[p + 1])),
            s[p + 1],
            Raw::thin(s[p]),
            Raw::thin(s[p - 1]),
        ),
    ensures
        linked(h, without_one(s, p)),
        elements(h, without_one(s, p)) == without_one(elements(h0, s), p),
        h.dom() =~= h0.dom().remove(s[p]),
        forall|b: usize| h0.dom().contains(b) && !s.contains(b) ==> h[b] == h0[b],
{
    let q = s[p - 1];
    let c = s[p];
    let x = s[p + 1];
    let s2 = without_one(s, p);
    assert(h0.dom().contains(q));
    assert(h0.dom().contains(c));
    assert(h0.dom().contains(x));
    assert(q != c && c != x && q != x);
    assert(h0[x].link == Raw::thin(at(s, p) ^ at(s, p + 2)));
    assert(h0[q].link == Raw::thin(at(s, p - 2) ^ at(s, p)));
    lemma_xor_words(0, 0);
    lemma_xor_words(at(s, p - 2), c);
    lemma_xor_words(c, at(s, p + 2));
    lemma_xor_words(at(s, p + 2), q);
    assert(h[q].link == Raw::thin(at(s, p - 2) ^ x));
    assert(h[q].data == h0[q].data);
    assert(h[x].link == Raw::thin(q ^ at(s, p + 2)));
    assert(h[x].data == h0[x].data);
    assert forall|b: usize| h0.dom().contains(b) && b != q && b != c && b != x implies h[b]
        == h0[b] by {}
    assert forall|i: int| 0 <= i < s2.len() implies #[trigger] h.dom().contains(s2[i]) && h[s2[i]].link
        == Raw::thin(at(s2, i - 1) ^ at(s2, i + 1)) && h[s2[i]].data == without_one(
        elements(h0, s),
        p,
    )[i] by {
        if i < p {
            assert(s2[i] == s[i]);
            assert(h0.dom().contains(s[i]));
            assert(h0[s[i]].link == Raw::thin(at(s, i - 1) ^ at(s, i + 1)));
            assert(s[i] != c);
            if i < p - 1 {
                assert(s[i] != q);
                assert(s[i] != x);
                assert(at(s2, i + 1) == at(s, i + 1));
            }
            if i >= 1 {
                assert(at(s2, i - 1) == at(s, i - 1));
            }
        } else {
            assert(s2[i] == s[i + 1]);
            assert(h0.dom().contains(s[i + 1]));
            assert(h0[s[i + 1]].link == Raw::thin(at(s, i) ^ at(s, i + 2)));
            assert(s[i + 1] != c);
            if i + 1 < s2.len() {
                assert(s2[i + 1] == s[i + 2]);
            }
            if i > p {
                assert(s[i + 1] != q);
                assert(s[i + 1] != x);
                assert(at(s2, i - 1) == at(s, i));
            }
        }
    }
    assert forall|i: int, j: int| 0 <= i < j < s2.len() implies s2[i] != s2[j] by {
        let i0 = if i < p { i } else { i + 1 };
        let j0 = if j < p { j } else { j + 1 };
        assert(s2[i] == s[i0]);
        assert(s2[j] == s[j0]);
    }
    assert(elements(h, s2) =~= without_one(elements(h0, s), p));
    assert forall|b: usize| h0.dom().contains(b) && !s.contains(b) implies h[b] == h0[b] by {
        assert(s.contains(q));
        assert(s.contains(c));
        assert(s.contains(x));
    }
}

/// Putting a chain of two nodes or more in at a place of another chain, and
/// mending the links of the four nodes at the two seams, gives one chain.
#[verifier::rlimit(50)]
proof fn lemma_splice_links<T>(
    s: Seq<usize>,
    p: int,
    o: Seq<usize>,
    h0: Map<usize, Node<T>>,
    h: Map<usize, Node<T>>,
)
    requires
        0 <= p <= s.len(),
        o.len() >= 2,
        linked(h0, s),
        linked(h0, o),
        forall|i: int, j: int| 0 <= i < s.len() && 0 <= j < o.len() ==> s[i] != o[j],
        !h0.dom().contains(0),
        h == patched(
            patched(
                patched(
                    patched(h0, o[0], Raw::thin(at(s, p - 1)), Raw::thin(0)),
                    o[o.len() - 1],
                    Raw::thin(at(s, p)),
                    Raw::thin(0),
                ),
                at(s, p - 1),
                Raw::thin(at(s, p)),
                Raw::thin(o[0]),
            ),
            at(s, p),
            Raw::thin(at(s, p - 1)),
            Raw::thin(o[o.len() - 1]),
        ),
    ensures
        linked(h, with_all(s, p, o)),
        elements(h, with_all(s, p, o)) == with_all(elements(h0, s), p, elements(h0, o)),
        h.dom() =~= h0.dom(),
        forall|b: usize|
            h0.dom().contains(b) && !s.contains(b) && !o.contains(b) ==> h[b] == h0[b],
{
    let q = at(s, p - 1);
    let c = at(s, p);
    let n = s.len() as int;
    let m = o.len() as int;
    let o0 = o[0];
    let ol = o[m - 1];
    let s2 = with_all(s, p, o);
    lemma_xor_words(0, 0);
    lemma_xor_words(o[1], q);
    lemma_xor_words(q ^ o[1], 0);
    lemma_xor_words(o[m - 2], c);
    lemma_xor_words(o[m - 2] ^ c, 0);
    lemma_xor_words(at(s, p - 2), c);
    lemma_xor_words(q, at(s, p + 1));
    lemma_xor_words(at(s, p + 1), ol);
    assert(h0.dom().contains(o[0]) && h0.dom().contains(o[m - 1]));
    assert(o.contains(o0) && o.contains(ol));
    assert(o0 != ol);
    assert(h0[o0].link == Raw::thin(at(o, -1) ^ at(o, 1)));
    assert(h0[ol].link == Raw::thin(at(o, m - 2) ^ at(o, m)));
    if p >= 1 {
        assert(h0.dom().contains(s[p - 1]));
        assert(s.contains(s[p - 1]));
        assert(h0[q].link == Raw::thin(at(s, p - 2) ^ at(s, p)));
        assert(s[p - 1] != o[0] && s[p - 1] != o[m - 1]);
    }
    if p < n {
        assert(h0.dom().contains(s[p]));
        assert(s.contains(s[p]));
        assert(h0[c].link == Raw::thin(at(s, p - 1) ^ at(s, p + 1)));
        assert(s[p] != o[0] && s[p] != o[m - 1]);
    }
    assert(q != c || (q == 0 && c == 0));
    assert(h[o0].link == Raw::thin(q ^ o[1]));
    assert(h[o0].data == h0[o0].data);
    assert(h[ol].link == Raw::thin(o[m - 2] ^ c));
    assert(h[ol].data == h0[ol].data);
    if p >= 1 {
        assert(h[q].link == Raw::thin(at(s, p - 2) ^ o0));
        assert(h[q].data == h0[q].data);
    }
    if p < n {
        assert(h[c].link == Raw::thin(ol ^ at(s, p + 1)));
        assert(h[c].data == h0[c].data);
    }
    assert forall|b: usize|
        h0.dom().contains(b) && b != q && b != c && b != o0 && b != ol implies h[b] == h0[b] by {}
    assert forall|i: int| 0 <= i < s2.len() implies #[trigger] h.dom().contains(s2[i]) && h[s2[i]].link
        == Raw::thin(at(s2, i - 1) ^ at(s2, i + 1)) && h[s2[i]].data == with_all(
        elements(h0, s),
        p,
        elements(h0, o),
    )[i] by {
        if i < p {
            assert(s2[i] == s[i]);
            assert(h0.dom().contains(s[i]));
            assert(s.contains(s[i]));
            assert(h0[s[i]].link == Raw::thin(at(s, i - 1) ^ at(s, i + 1)));
            assert(s[i] != o[0] && s[i] != o[m - 1]);
            if i < p - 1 {
                assert(s[i] != q);
                assert(s[i] != c);
                assert(at(s2, i + 1) == at(s, i + 1));
            } else {
                assert(at(s2, i + 1) == o0);
            }
            if i >= 1 {
                assert(at(s2, i - 1) == at(s, i - 1));
            }
        } else if i < p + m {
            let k = i - p;
            assert(s2[i] == o[k]);
            assert(h0.dom().contains(o[k]));
            assert(o.contains(o[k]));
            assert(h0[o[k]].link == Raw::thin(at(o, k - 1) ^ at(o, k + 1)));
            if p >= 1 {
                assert(s[p - 1] != o[k]);
            }
            if p < n {
                assert(s[p] != o[k]);
            }
            if k >= 1 {
                assert(at(s2, i - 1) == o[k - 1]);
                assert(o[k] != o[0]);
            } else {
                assert(at(s2, i - 1) == q);
            }
            if k + 1 < m {
                assert(at(s2, i + 1) == o[k + 1]);
                assert(o[k] != o[m - 1]);
            } else {
                assert(at(s2, i + 1) == c);
            }
        } else {
            let k = i - m;
            assert(s2[i] == s[k]);
            assert(h0.dom().contains(s[k]));
            assert(s.contains(s[k]));
            assert(h0[s[k]].link == Raw::thin(at(s, k - 1) ^ at(s, k + 1)));
            assert(s[k] != o[0] && s[k] != o[m - 1]);
            assert(at(s2, i + 1) == at(s, k + 1));
            if k > p {
                assert(s[k] != q);
                assert(s[k] != c);
                assert(at(s2, i - 1) == at(s, k - 1));
            } else {
                assert(at(s2, i - 1) == ol);
            }
        }
    }
    assert forall|i: int, j: int| 0 <= i < j < s2.len() implies s2[i] != s2[j] by {
        if i < p {
            assert(s2[i] == s[i]);
        } else if i < p + m {
            assert(s2[i] == o[i - p]);
        } else {
            assert(s2[i] == s[i - m]);
        }
        if j < p {
            assert(s2[j] == s[j]);
        } else if j < p + m {
            assert(s2[j] == o[j - p]);
        } else {
            assert(s2[j] == s[j - m]);
        }
    }
    assert(elements(h, s2) =~= with_all(elements(h0, s), p, elements(h0, o)));
    assert(h.dom() =~= h0.dom());
}

/// Cutting a chain between two neighbours, and taking each out of the
/// other's link, gives two chains.
#[verifier::rlimit(50)]
proof fn lemma_split_links<T>(s: Seq<usize>, p: int, h0: Map<usize, Node<T>>, h: Map<usize, Node<T>>)
    requires
        1 <= p < s.len(),
        linked(h0, s),
        h == patched(
            patched(h0, s[p - 1], Raw::thin(s[p]), Raw::thin(0)),
            s[p],
            Raw::thin(s[p - 1]),
            Raw::thin(0),
        ),
    ensures
        linked(h, s.subrange(0, p)),
        linked(h, s.subrange(p, s.len() as int)),
        elements(h, s.subrange(0, p)) == elements(h0, s).subrange(0, p),
        elements(h, s.subrange(p, s.len() as int)) == elements(h0, s).subrange(
            p,
            s.len() as int,
        ),
        h.dom() =~= h0.dom(),
        forall|b: usize| h0.dom().contains(b) && !s.contains(b) ==> h[b] == h0[b],
{
    let q = s[p - 1];
    let c = s[p];
    let n = s.len() as int;
    let s1 = s.subrange(0, p);
    let s2 = s.subrange(p, n);
    lemma_xor_words(0, 0);
    lemma_xor_words(at(s, p - 2), c);
    lemma_xor_words(q, at(s, p + 1));
    assert(h0.dom().contains(s[p - 1]) && h0.dom().contains(s[p]));
    assert(s.contains(q) && s.contains(c));
    assert(q != c);
    assert(h0[q].link == Raw::thin(at(s, p - 2) ^ at(s, p)));
    assert(h0[c].link == Raw::thin(at(s, p - 1) ^ at(s, p + 1)));
    assert(h[q].link == Raw::thin(at(s, p - 2) ^ 0));
    assert(h[q].data == h0[q].data);
    assert(h[c].link == Raw::thin(0 ^ at(s, p + 1)));
    assert(h[c].data == h0[c].data);
    assert forall|b: usize| h0.dom().contains(b) && b != q && b != c implies h[b] == h0[b] by {}
    assert forall|i: int| 0 <= i < s1.len() implies #[trigger] h.dom().contains(s1[i]) && h[s1[i]].link
        == Raw::thin(at(s1, i - 1) ^ at(s1, i + 1)) && h[s1[i]].data == elements(h0, s)[i] by {
        assert(s1[i] == s[i]);
        assert(h0.dom().contains(s[i]));
        assert(h0[s[i]].link == Raw::thin(at(s, i - 1) ^ at(s, i + 1)));
        if i < p - 1 {
            assert(s[i] != q);
            assert(s[i] != c);
            assert(at(s1, i + 1) == at(s, i + 1));
        }
        if i >= 1 {
            assert(at(s1, i - 1) == at(s, i - 1));
        }
    }
    assert forall|i: int| 0 <= i < s2.len() implies #[trigger] h.dom().contains(s2[i]) && h[s2[i]].link
        == Raw::thin(at(s2, i - 1) ^ at(s2, i + 1)) && h[s2[i]].data == elements(h0, s)[i + p] by {
        assert(s2[i] == s[i + p]);
        assert(h0.dom().contains(s[i + p]));
        assert(h0[s[i + p]].link == Raw::thin(at(s, i + p - 1) ^ at(s, i + p + 1)));
        if i > 0 {
            assert(s[i + p] != q);
            assert(s[i + p] != c);
            assert(at(s2, i - 1) == at(s, i + p - 1));
        }
        if i + 1 < s2.len() {
            assert(at(s2, i + 1) == at(s, i + p + 1));
        }
    }
    assert(elements(h, s1) =~= elements(h0, s).subrange(0, p));
    assert(elements(h, s2) =~= elements(h0, s).subrange(p, n));
    assert(h.dom() =~= h0.dom());
}

/// A place between two elements of a list, before its first or behind its last.
pub struct Cursor<T> {
    prev: Raw,
    curr: Raw,
    pos: Ghost<int>,
    phantom: core::marker::PhantomData<std::rc::Rc<T>>,
}

impl<T> Cursor<T> {
    /// How many elements stand before the cursor.
    pub closed spec fn position(&self) -> int {
        self.pos@
    }

    /// The address of the element before the cursor, null at the start.
    pub closed spec fn prev_ptr(&self) -> Raw {
        self.prev
    }

    /// The address of the element behind the cursor, null at the end.
    pub closed spec fn curr_ptr(&self) -> Raw {
        self.curr
    }

    /// The cursor stands at one of the places of `list`, and holds the
    /// addresses of the elements on both sides of that place.
    pub open spec fn wf(&self, list: &XorList<T>) -> bool {
        let s = list.addrs();
        &&& 0 <= self.position() <= s.len()
        &&& self.prev_ptr() == Raw::thin(at(s, self.position() - 1))
        &&& self.curr_ptr() == Raw::thin(at(s, self.position()))
        &&& (self.prev_ptr().addr == 0) == (self.position() == 0)
        &&& (self.curr_ptr().addr == 0) == (self.position() == s.len())
    }

    pub fn prev_raw(&self) -> (r: Raw)
        ensures
            r == self.prev_ptr(),
    {
        self.prev
    }

    pub fn curr_raw(&self) -> (r: Raw)
        ensures
            r == self.curr_ptr(),
    {
        self.curr
    }

    /// Whether the cursor stands before the first element.
    pub fn at_start(&self) -> (r: bool)
        ensures
            r == (self.prev_ptr().addr == 0),
            forall|list: &XorList<T>| #[trigger] self.wf(list) ==> r == (self.position() == 0),
    {
        self.prev.is_null()
    }

    /// Whether the cursor stands behind the last element.
    pub fn at_end(&self) -> (r: bool)
        ensures
            r == (self.curr_ptr().addr == 0),
            forall|list: &XorList<T>| #[trigger]
                self.wf(list) ==> r == (self.position() == list.addrs().len()),
    {
        self.curr.is_null()
    }

    /// Moves one element on and returns the element passed, or stays where
    /// it is at the end.
    pub fn next<'a>(&mut self, list: &XorList<T>, heap: &'a Heap<Node<T>>) -> (r: Option<&'a T>)
        requires
            old(self).wf(list),
            list.wf(heap),
        ensures
            final(self).wf(list),
            old(self).position() < list.addrs().len() ==> r == Some(
                &list.view(heap)[old(self).position()],
            ) && final(self).position() == old(self).position() + 1,
            old(self).position() == list.addrs().len() ==> r.is_none() && *final(self) == *old(
                self,
            ),
    {
        let prev = self.prev;
        let curr = self.curr;
        let ghost s = list.addrs();
        let ghost p = self.pos@;
        proof {
            heap.lemma_null_is_free();
            if p < s.len() {
                assert(heap@.dom().contains(s[p]));
                assert(heap@[s[p]].link == Raw::thin(at(s, p - 1) ^ at(s, p + 1)));
                lemma_xor_words(at(s, p - 1), at(s, p + 1));
                lemma_xor_words(0, 0);
                if p + 1 < s.len() {
                    assert(heap@.dom().contains(s[p + 1]));
                }
            }
        }
        match curr.as_ref(heap) {
            Some(node) => {
                self.prev = curr;
                self.curr = prev.xor(&node.link);
                proof {
                    self.pos@ = p + 1;
                }
                Some(&node.data)
            },
            None => None,
        }
    }

    /// Moves one element back and returns the element passed, or stays where
    /// it is at the start.
    pub fn prev<'a>(&mut self, list: &XorList<T>, heap: &'a Heap<Node<T>>) -> (r: Option<&'a T>)
        requires
            old(self).wf(list),
            list.wf(heap),
        ensures
            final(self).wf(list),
            old(self).position() > 0 ==> r == Some(&list.view(heap)[old(self).position() - 1])
                && final(self).position() == old(self).position() - 1,
            old(self).position() == 0 ==> r.is_none() && *final(self) == *old(self),
    {
        let prev = self.prev;
        let curr = self.curr;
        let ghost s = list.addrs();
        let ghost p = self.pos@;
        proof {
            heap.lemma_null_is_free();
            if p > 0 {
                assert(heap@.dom().contains(s[p - 1]));
                assert(heap@[s[p - 1]].link == Raw::thin(at(s, p - 2) ^ at(s, p)));
                lemma_xor_words(at(s, p - 2), at(s, p));
                lemma_xor_words(0, 0);
                if p - 2 >= 0 {
                    assert(heap@.dom().contains(s[p - 2]));
                }
            }
        }
        match prev.as_ref(heap) {
            Some(node) => {
                self.curr = prev;
                self.prev = curr.xor(&node.link);
                proof {
                    self.pos@ = p - 1;
                }
                Some(&node.data)
            },
            None => None,
        }
    }

    /// Moves `n` elements on, or to the end where fewer are left.
    pub fn skip_forwards(&mut self, list: &XorList<T>, heap: &Heap<Node<T>>, n: usize)
        requires
            old(self).wf(list),
            list.wf(heap),
        ensures
            final(self).wf(list),
            final(self).position() == if old(self).position() + n <= list.addrs().len() {
                old(self).position() + n
            } else {
                list.addrs().len() as int
            },
    {
        let mut i: usize = 0;
        while i < n
            invariant
                self.wf(list),
                list.wf(heap),
                0 <= i <= n,
                self.position() == if old(self).position() + i <= list.addrs().len() {
                    old(self).position() + i
                } else {
                    list.addrs().len() as int
                },
            ensures
                self.position() == if old(self).position() + n <= list.addrs().len() {
                    old(self).position() + n
                } else {
                    list.addrs().len() as int
                },
            decreases n - i,
        {
            let passed = self.next(list, heap);
            if passed.is_none() {
                break ;
            }
            i += 1;
        }
    }

    /// Moves `n` elements back, or to the start where fewer stand before.
    pub fn skip_backwards(&mut self, list: &XorList<T>, heap: &Heap<Node<T>>, n: usize)
        requires
            old(self).wf(list),
            list.wf(heap),
        ensures
            final(self).wf(list),
            final(self).position() == if old(self).position() >= n {
                old(self).position() - n
            } else {
                0
            },
    {
        let mut i: usize = 0;
        while i < n
            invariant
                self.wf(list),
                list.wf(heap),
                0 <= i <= n,
                self.position() == if old(self).position() >= i {
                    old(self).position() - i
                } else {
                    0
                },
            ensures
                self.position() == if old(self).position() >= n {
                    old(self).position() - n
                } else {
                    0
                },
            decreases n - i,
        {
            let passed = self.prev(list, heap);
            if passed.is_none() {
                break ;
            }
            i += 1;
        }
    }

    /// Moves before the first element.
    pub fn seek_to_start(&mut self, list: &XorList<T>, heap: &Heap<Node<T>>)
        requires
            list.wf(heap),
        ensures
            final(self).wf(list),
            final(self).position() == 0,
    {
        proof {
            list.lemma_empty(heap);
        }
        self.prev = Raw::null();
        self.curr = list.head;
        proof {
            self.pos@ = 0;
        }
    }

    /// Moves behind the last element.
    pub fn seek_to_end(&mut self, list: &XorList<T>, heap: &Heap<Node<T>>)
        requires
            list.wf(heap),
        ensures
            final(self).wf(list),
            final(self).position() == list.addrs().len(),
    {
        proof {
            list.lemma_empty(heap);
            heap.lemma_null_is_free();
            if list.addrs().len() > 0 {
                assert(heap@.dom().contains(list.addrs()[list.addrs().len() - 1]));
            }
        }
        self.prev = if list.tail.is_null() {
            list.head
        } else {
            list.tail
        };
        self.curr = Raw::null();
        proof {
            self.pos@ = list.addrs().len() as int;
        }
    }

    /// The element behind the cursor, or nothing at the end.
    pub fn peek<'a>(&self, list: &XorList<T>, heap: &'a Heap<Node<T>>) -> (r: Option<&'a T>)
        requires
            self.wf(list),
            list.wf(heap),
        ensures
            self.position() < list.addrs().len() ==> r == Some(&list.view(heap)[self.position()]),
            self.position() == list.addrs().len() ==> r.is_none(),
    {
        proof {
            heap.lemma_null_is_free();
            if self.pos@ < list.addrs().len() {
                assert(heap@.dom().contains(list.addrs()[self.pos@]));
            }
        }
        match self.curr.as_ref(heap) {
            Some(node) => Some(&node.data),
            None => None,
        }
    }

    /// Two cursors at the same place of one list hold the same addresses:
    /// whatever way a cursor came to a place, it is the same cursor there.
    pub proof fn lemma_place_decides(&self, other: &Cursor<T>, list: &XorList<T>)
        requires
            self.wf(list),
            other.wf(list),
            self.position() == other.position(),
        ensures
            self.prev_ptr() == other.prev_ptr(),
            self.curr_ptr() == other.curr_ptr(),
    {
    }
    /// Links the node at `a` between the nodes at `prev` and `next`: its
    /// link becomes the two addresses combined, and in each neighbour's link
    /// the other neighbour gives way to `a`.
    fn link_between(heap: &mut Heap<Node<T>>, prev: Raw, next: Raw, a: Raw)
        requires
            old(heap).wf(),
            old(heap)@.dom().contains(a.addr),
        ensures
            final(heap).wf(),
            final(heap).full() == old(heap).full(),
            final(heap)@ == patched(
                patched(
                    old(heap)@.insert(
                        a.addr,
                        Node { link: prev.spec_xor(next), data: old(heap)@[a.addr].data },
                    ),
                    prev.addr,
                    next,
                    a,
                ),
                next.addr,
                prev,
                a,
            ),
    {
        let node = heap.get_mut(a.addr);
        node.link = prev.xor(&next);
        patch(heap, prev, &next, &a);
        patch(heap, next, &prev, &a);
    }

    /// Puts `node` into the arena between the nodes at `prev` and `next`, and
    /// returns its address.
    fn insert_between(heap: &mut Heap<Node<T>>, prev: Raw, next: Raw, node: Node<T>) -> (r: Raw)
        requires
            old(heap).wf(),
            !old(heap).full(),
        ensures
            final(heap).wf(),
            r.meta == 0,
            r.addr != 0,
            !old(heap)@.dom().contains(r.addr),
            final(heap)@ == patched(
                patched(
                    old(heap)@.insert(
                        r.addr,
                        Node { link: prev.spec_xor(next), data: node.data },
                    ),
                    prev.addr,
                    next,
                    r,
                ),
                next.addr,
                prev,
                r,
            ),
    {
        let a = heap.allocate(node);
        let r = Raw::new(a, 0);
        Self::link_between(heap, prev, next, r);
        proof {
            assert(old(heap)@.insert(a, node).insert(
                a,
                Node { link: prev.spec_xor(next), data: node.data },
            ) =~= old(heap)@.insert(a, Node { link: prev.spec_xor(next), data: node.data }));
        }
        r
    }

    /// Puts `val` in at the cursor and returns the new node's address. The
    /// cursor itself is left as it was.
    #[verifier::rlimit(50)]
    fn insert_node(&self, list: &mut XorList<T>, heap: &mut Heap<Node<T>>, val: T) -> (r: Raw)
        requires
            self.wf(old(list)),
            old(list).wf(old(heap)),
            !old(heap).full(),
        ensures
            final(list).wf(final(heap)),
            r.meta == 0,
            r.addr != 0,
            !old(heap)@.dom().contains(r.addr),
            final(heap)@.dom() =~= old(heap)@.dom().insert(r.addr),
            final(list).addrs() == with_one(old(list).addrs(), self.position(), r.addr),
            final(list).view(final(heap)) == with_one(
                old(list).view(old(heap)),
                self.position(),
                val,
            ),
            framed(*old(heap), *final(heap), old(list).addrs(), final(list).addrs()),
    {
        let ghost s = list.addrs@;
        let ghost n = s.len() as int;
        let ghost p = self.pos@;
        proof {
            heap.lemma_null_is_free();
            list.lemma_empty(heap);
        }
        if list.head == self.curr {
            assert(p == 0);
            list.push_front(heap, val);
            proof {
                let s2 = list.addrs@;
                assert(s2 =~= with_one(s, p, s2[0]));
                assert(list.view(heap) =~= with_one(old(list).view(old(heap)), p, val));
                assert(heap@.dom().contains(s2[0]));
                heap.lemma_null_is_free();
            }
            list.head
        } else if self.curr.is_null() {
            assert(p == n);
            list.push_back(heap, val);
            proof {
                let s2 = list.addrs@;
                assert(s2 =~= with_one(s, p, s2[n]));
                assert(list.view(heap) =~= with_one(old(list).view(old(heap)), p, val));
                assert(heap@.dom().contains(s2[n]));
                heap.lemma_null_is_free();
            }
            list.tail
        } else {
            assert(1 <= p < n);
            let ghost c = s[p];
            let ghost q = s[p - 1];
            proof {
                assert(heap@.dom().contains(c));
                assert(heap@.dom().contains(q));
                assert(heap@[c].link == Raw::thin(at(s, p - 1) ^ at(s, p + 1)));
                assert(heap@[q].link == Raw::thin(at(s, p - 2) ^ at(s, p)));
            }
            let node = Node::new(val);
            let r = Self::insert_between(heap, self.prev, self.curr, node);
            proof {
                let a = r.addr;
                let s2 = with_one(s, p, a);
                list.addrs@ = s2;
                assert(!s.contains(a)) by {
                    if s.contains(a) {
                        let j = choose|j: int| 0 <= j < s.len() && s[j] == a;
                        assert(old(heap)@.dom().contains(s[j]));
                    }
                }
                lemma_insert_links(s, p, a, old(heap)@, heap@, val);
                assert forall|b: usize| #[trigger] s2.contains(b) implies s.contains(b)
                    || !old(heap)@.dom().contains(b) by {
                    let j = choose|j: int| 0 <= j < s2.len() && s2[j] == b;
                    if j < p {
                        assert(s[j] == b);
                    } else if j > p {
                        assert(s[j - 1] == b);
                    }
                }
            }
            r
        }
    }
    /// Puts `val` in at the cursor, and leaves the cursor behind it.
    pub fn insert_before(&mut self, list: &mut XorList<T>, heap: &mut Heap<Node<T>>, val: T)
        requires
            old(self).wf(old(list)),
            old(list).wf(old(heap)),
            !old(heap).full(),
        ensures
            final(list).wf(final(heap)),
            final(self).wf(final(list)),
            final(self).position() == old(self).position() + 1,
            final(list).view(final(heap)) == with_one(
                old(list).view(old(heap)),
                old(self).position(),
                val,
            ),
            final(list).addrs() == with_one(
                old(list).addrs(),
                old(self).position(),
                final(self).prev_ptr().addr,
            ),
            !old(heap)@.dom().contains(final(self).prev_ptr().addr),
            final(heap)@.dom() =~= old(heap)@.dom().insert(final(self).prev_ptr().addr),
            framed(*old(heap), *final(heap), old(list).addrs(), final(list).addrs()),
    {
        let r = self.insert_node(list, heap, val);
        self.prev = r;
        proof {
            self.pos@ = self.pos@ + 1;
        }
    }

    /// Puts `val` in at the cursor, and leaves the cursor before it.
    pub fn insert_after(&mut self, list: &mut XorList<T>, heap: &mut Heap<Node<T>>, val: T)
        requires
            old(self).wf(old(list)),
            old(list).wf(old(heap)),
            !old(heap).full(),
        ensures
            final(list).wf(final(heap)),
            final(self).wf(final(list)),
            final(self).position() == old(self).position(),
            final(list).view(final(heap)) == with_one(
                old(list).view(old(heap)),
                old(self).position(),
                val,
            ),
            final(list).addrs() == with_one(
                old(list).addrs(),
                old(self).position(),
                final(self).curr_ptr().addr,
            ),
            !old(heap)@.dom().contains(final(self).curr_ptr().addr),
            final(heap)@.dom() =~= old(heap)@.dom().insert(final(self).curr_ptr().addr),
            framed(*old(heap), *final(heap), old(list).addrs(), final(list).addrs()),
    {
        let r = self.insert_node(list, heap, val);
        self.curr = r;
    }

    /// Takes the element behind the cursor out of the list, if there is one.
    /// The cursor keeps its place.
    #[verifier::rlimit(50)]
    pub fn remove(&mut self, list: &mut XorList<T>, heap: &mut Heap<Node<T>>) -> (r: Option<
        Elem<T>,
    >)
        requires
            old(self).wf(old(list)),
            old(list).wf(old(heap)),
        ensures
            final(list).wf(final(heap)),
            final(self).wf(final(list)),
            final(self).position() == old(self).position(),
            framed(*old(heap), *final(heap), old(list).addrs(), final(list).addrs()),
            old(self).position() == old(list).addrs().len() ==> r.is_none() && *final(list) == *old(
                list,
            ) && *final(heap) == *old(heap) && *final(self) == *old(self),
            old(self).position() < old(list).addrs().len() ==> r.is_some() && r.unwrap()@ == old(
                list,
            ).view(old(heap))[old(self).position()] && final(list).view(final(heap))
                == without_one(old(list).view(old(heap)), old(self).position())
                && final(list).addrs() == without_one(old(list).addrs(), old(self).position())
                && final(heap)@.dom() =~= old(heap)@.dom().remove(
                old(list).addrs()[old(self).position()],
            ) && !final(heap).full(),
    {
        let ghost s = list.addrs@;
        let ghost n = s.len() as int;
        let ghost p = self.pos@;
        proof {
            heap.lemma_null_is_free();
            list.lemma_empty(heap);
        }
        if self.curr.is_null() {
            return None;
        }
        assert(heap@.dom().contains(s[p]));
        assert(heap@.dom().contains(s[n - 1]));
        if list.head == self.curr {
            assert(p == 0);
            let elem = list.pop_front(heap);
            self.curr = list.head;
            proof {
                list.lemma_empty(heap);
                assert(list.addrs@ =~= without_one(s, p));
                assert(list.view(heap) =~= without_one(old(list).view(old(heap)), p));
            }
            return elem;
        } else if list.tail == self.curr {
            assert(p == n - 1);
            self.curr = Raw::null();
            let elem = list.pop_back(heap);
            proof {
                assert(list.addrs@ =~= without_one(s, p));
                assert(list.view(heap) =~= without_one(old(list).view(old(heap)), p));
            }
            return elem;
        }
        assert(1 <= p < n - 1);
        proof {
            assert(heap@[s[p]].link == Raw::thin(at(s, p - 1) ^ at(s, p + 1)));
            lemma_xor_words(s[p - 1], s[p + 1]);
            lemma_xor_words(0, 0);
            assert(heap@.dom().contains(s[p + 1]));
        }
        let prev = self.prev;
        let curr_ptr = self.curr;
        let mut curr = self.curr;
        match curr.take(heap) {
            Some(node) => {
                let next = prev.xor(&node.link);
                patch(heap, prev, &curr_ptr, &next);
                patch(heap, next, &curr_ptr, &prev);
                self.curr = next;
                proof {
                    let s2 = without_one(s, p);
                    list.addrs@ = s2;
                    lemma_remove_links(s, p, old(heap)@, heap@);
                    assert forall|b: usize| #[trigger] s2.contains(b) implies s.contains(b) by {
                        let j = choose|j: int| 0 <= j < s2.len() && s2[j] == b;
                        if j < p {
                            assert(s[j] == b);
                        } else {
                            assert(s[j + 1] == b);
                        }
                    }
                    assert(s2[0] == s[0]);
                    assert(s2[s2.len() - 1] == s[n - 1]);
                    assert(s2[p] == s[p + 1]);
                    assert(s2[p - 1] == s[p - 1]);
                }
                Some(Elem { node })
            },
            None => None,
        }
    }
    /// Puts all of `other` in at the cursor, and leaves the cursor before
    /// the first element that came. Only the nodes at the two seams change.
    #[verifier::rlimit(50)]
    pub fn splice(
        &mut self,
        list: &mut XorList<T>,
        heap: &mut Heap<Node<T>>,
        other: XorList<T>,
    )
        requires
            old(self).wf(old(list)),
            old(list).wf(old(heap)),
            other.wf(old(heap)),
            forall|i: int, j: int|
                0 <= i < old(list).addrs().len() && 0 <= j < other.addrs().len() ==> old(
                    list,
                ).addrs()[i] != other.addrs()[j],
        ensures
            final(list).wf(final(heap)),
            final(self).wf(final(list)),
            final(self).position() == old(self).position(),
            final(list).addrs() == with_all(old(list).addrs(), old(self).position(), other.addrs()),
            final(list).view(final(heap)) == with_all(
                old(list).view(old(heap)),
                old(self).position(),
                other.view(old(heap)),
            ),
            final(heap)@.dom() =~= old(heap)@.dom(),
            final(heap).full() == old(heap).full(),
            framed(
                *old(heap),
                *final(heap),
                old(list).addrs() + other.addrs(),
                final(list).addrs(),
            ),
            forall|b: usize|
                old(heap)@.dom().contains(b) && b != old(self).prev_ptr().addr && b != old(
                    self,
                ).curr_ptr().addr && !(other.addrs().len() > 0 && (b == other.addrs().first() || b
                    == other.addrs().last())) ==> #[trigger] final(heap)@[b] == old(heap)@[b],
    {
        let ghost s = list.addrs@;
        let ghost o = other.addrs@;
        let ghost n = s.len() as int;
        let ghost m = o.len() as int;
        let ghost p = self.pos@;
        let ghost both = s + o;
        proof {
            heap.lemma_null_is_free();
            list.lemma_empty(heap);
            other.lemma_empty(heap);
            assert forall|b: usize| s.contains(b) implies both.contains(b) by {
                let j = choose|j: int| 0 <= j < s.len() && s[j] == b;
                assert(both[j] == b);
            }
            assert forall|b: usize| o.contains(b) implies both.contains(b) by {
                let j = choose|j: int| 0 <= j < o.len() && o[j] == b;
                assert(both[n + j] == b);
            }
            assert forall|b: usize| #[trigger] with_all(s, p, o).contains(b) implies both.contains(
                b,
            ) by {
                let s2 = with_all(s, p, o);
                let j = choose|j: int| 0 <= j < s2.len() && s2[j] == b;
                if j < p {
                    assert(s[j] == b);
                } else if j < p + m {
                    assert(o[j - p] == b);
                } else {
                    assert(s[j - m] == b);
                }
            }
            if n > 0 {
                assert(heap@.dom().contains(s[n - 1]));
            }
        }
        if other.head.is_null() {
            proof {
                assert(with_all(s, p, o) =~= s);
                assert(with_all(list.view(heap), p, other.view(heap)) =~= list.view(heap));
            }
            return ;
        }
        let prev = self.prev;
        let curr = self.curr;
        if other.tail.is_null() {
            assert(m == 1);
            let node = other.head;
            proof {
                assert(heap@.dom().contains(o[0]));
                assert(!s.contains(o[0])) by {
                    if s.contains(o[0]) {
                        let j = choose|j: int| 0 <= j < s.len() && s[j] == o[0];
                        assert(s[j] != o[0]);
                    }
                }
            }
            Self::link_between(heap, prev, curr, node);
            self.curr = node;
            if prev.is_null() {
                if list.tail.is_null() {
                    list.tail = curr;
                }
                list.head = node;
            } else if curr.is_null() {
                list.tail = node;
            }
            proof {
                let s2 = with_one(s, p, o[0]);
                list.addrs@ = s2;
                lemma_insert_links(s, p, o[0], old(heap)@, heap@, old(heap)@[o[0]].data);
                assert(s2 =~= with_all(s, p, o));
                assert(with_one(elements(old(heap)@, s), p, old(heap)@[o[0]].data) =~= with_all(
                    elements(old(heap)@, s),
                    p,
                    elements(old(heap)@, o),
                ));
                assert(heap@.dom() =~= old(heap)@.dom());
                assert(s2[p] == o[0]);
                if p < n {
                    assert(s2[s2.len() - 1] == s[n - 1]);
                }
                if p > 0 {
                    assert(s2[0] == s[0]);
                    assert(s2[p - 1] == s[p - 1]);
                }
                assert forall|b: usize|
                    old(heap)@.dom().contains(b) && !both.contains(b) implies #[trigger] heap@.dom().contains(
                    b,
                ) && heap@[b] == old(heap)@[b] by {
                    assert(!s.contains(b));
                    assert(b != o[0]);
                }
            }
            return ;
        }
        assert(m >= 2);
        if list.is_empty() {
            assert(n == 0);
            list.head = other.head;
            list.tail = other.tail;
            self.prev = Raw::null();
            self.curr = list.head;
            proof {
                list.addrs@ = o;
                assert(o =~= with_all(s, p, o));
                assert(other.view(heap) =~= with_all(
                    old(list).view(old(heap)),
                    p,
                    other.view(heap),
                ));
            }
            return ;
        }
        let null = Raw::null();
        patch(heap, other.head, &prev, &null);
        patch(heap, other.tail, &curr, &null);
        patch(heap, prev, &curr, &other.head);
        patch(heap, curr, &prev, &other.tail);
        if prev.is_null() {
            list.head = other.head;
        }
        if curr.is_null() {
            list.tail = other.tail;
        } else if list.tail.is_null() {
            list.tail = curr;
        }
        self.curr = other.head;
        proof {
            let s2 = with_all(s, p, o);
            list.addrs@ = s2;
            lemma_splice_links(s, p, o, old(heap)@, heap@);
            assert(s2[p] == o[0]);
            assert(s2[p + m - 1] == o[m - 1]);
            if p < n {
                assert(s2[s2.len() - 1] == s[n - 1]);
            }
            if p > 0 {
                assert(s2[0] == s[0]);
                assert(s2[p - 1] == s[p - 1]);
            }
            assert forall|b: usize|
                old(heap)@.dom().contains(b) && !both.contains(b) implies #[trigger] heap@.dom().contains(
                b,
            ) && heap@[b] == old(heap)@[b] by {
                assert(!s.contains(b));
                assert(!o.contains(b));
            }
        }
    }

    /// Cuts the list at the cursor: what stands before the cursor stays,
    /// what stands behind it is returned as a list of its own. Only the
    /// two nodes at the cut change. The cursor is then at the end.
    #[verifier::rlimit(50)]
    pub fn split(&mut self, list: &mut XorList<T>, heap: &mut Heap<Node<T>>) -> (r: XorList<T>)
        requires
            old(self).wf(old(list)),
            old(list).wf(old(heap)),
        ensures
            final(list).wf(final(heap)),
            r.wf(final(heap)),
            final(self).wf(final(list)),
            final(self).position() == old(self).position(),
            final(list).addrs() == old(list).addrs().subrange(0, old(self).position()),
            r.addrs() == old(list).addrs().subrange(
                old(self).position(),
                old(list).addrs().len() as int,
            ),
            final(list).view(final(heap)) == old(list).view(old(heap)).subrange(
                0,
                old(self).position(),
            ),
            r.view(final(heap)) == old(list).view(old(heap)).subrange(
                old(self).position(),
                old(list).addrs().len() as int,
            ),
            final(list).view(final(heap)) + r.view(final(heap)) == old(list).view(old(heap)),
            final(heap)@.dom() =~= old(heap)@.dom(),
            final(heap).full() == old(heap).full(),
            framed(*old(heap), *final(heap), old(list).addrs(), old(list).addrs()),
            forall|b: usize|
                old(heap)@.dom().contains(b) && b != old(self).prev_ptr().addr && b != old(
                    self,
                ).curr_ptr().addr ==> #[trigger] final(heap)@[b] == old(heap)@[b],
    {
        let ghost s = list.addrs@;
        let ghost n = s.len() as int;
        let ghost p = self.pos@;
        proof {
            heap.lemma_null_is_free();
            list.lemma_empty(heap);
        }
        let mut new_list: XorList<T> = XorList::new();
        if self.curr.is_null() {
            proof {
                assert(list.addrs@ =~= s.subrange(0, p));
                assert(new_list.addrs@ =~= s.subrange(p, n));
                assert(list.view(heap) =~= old(list).view(old(heap)).subrange(0, p));
                assert(new_list.view(heap) =~= old(list).view(old(heap)).subrange(p, n));
                assert(list.view(heap) + new_list.view(heap) =~= old(list).view(old(heap)));
            }
            return new_list;
        }
        if self.prev.is_null() {
            new_list.head = list.head;
            new_list.tail = list.tail;
            list.head = Raw::null();
            list.tail = Raw::null();
            self.curr = Raw::null();
            proof {
                new_list.addrs@ = s;
                list.addrs@ = Seq::empty();
                assert(list.addrs@ =~= s.subrange(0, p));
                assert(new_list.addrs@ =~= s.subrange(p, n));
                assert(list.view(heap) =~= old(list).view(old(heap)).subrange(0, p));
                assert(new_list.view(heap) =~= old(list).view(old(heap)).subrange(p, n));
                assert(list.view(heap) + new_list.view(heap) =~= old(list).view(old(heap)));
            }
            return new_list;
        }
        assert(1 <= p < n);
        let prev = self.prev;
        let curr = self.curr;
        let null = Raw::null();
        self.curr = Raw::null();
        proof {
            assert(heap@.dom().contains(s[n - 1]));
            assert(heap@.dom().contains(s[0]));
        }
        patch(heap, prev, &curr, &null);
        patch(heap, curr, &prev, &null);
        new_list.head = curr;
        new_list.tail = if list.tail == curr {
            Raw::null()
        } else {
            list.tail
        };
        list.tail = if list.head == prev {
            Raw::null()
        } else {
            prev
        };
        proof {
            new_list.addrs@ = s.subrange(p, n);
            list.addrs@ = s.subrange(0, p);
            lemma_split_links(s, p, old(heap)@, heap@);
            assert(s.subrange(p, n)[0] == s[p]);
            assert(s.subrange(p, n)[n - p - 1] == s[n - 1]);
            assert(s.subrange(0, p)[0] == s[0]);
            assert(s.subrange(0, p)[p - 1] == s[p - 1]);
            assert(list.view(heap) + new_list.view(heap) =~= old(list).view(old(heap)));
        }
        new_list
    }
    /// The element behind the cursor, to be changed in place, or nothing
    /// at the end.
    pub fn peek_mut<'a>(&self, list: &XorList<T>, heap: &'a mut Heap<Node<T>>) -> (r: Option<
        &'a mut T,
    >)
        requires
            self.wf(list),
            list.wf(old(heap)),
        ensures
            self.position() == list.addrs().len() ==> r.is_none() && *final(heap) == *old(heap),
            self.position() < list.addrs().len() ==> r.is_some() && *r.unwrap() == list.view(
                old(heap),
            )[self.position()] && final(heap)@ == old(heap)@.insert(
                list.addrs()[self.position()],
                Node {
                    link: old(heap)@[list.addrs()[self.position()]].link,
                    data: *final(r.unwrap()),
                },
            ) && final(heap).wf() && final(heap).full() == old(heap).full(),
    {
        proof {
            heap.lemma_null_is_free();
            if self.pos@ < list.addrs().len() {
                assert(heap@.dom().contains(list.addrs()[self.pos@]));
            }
        }
        if heap.contains(self.curr.addr) {
            let node = heap.get_mut(self.curr.addr);
            Some(&mut node.data)
        } else {
            None
        }
    }
}

/// A walk over the elements of a list that hands each out to be changed in
/// place.
pub struct IterMut<T> {
    at: Cursor<T>,
}

impl<T> IterMut<T> {
    /// How many elements the walk has passed.
    pub closed spec fn position(&self) -> int {
        self.at.position()
    }

    pub closed spec fn wf(&self, list: &XorList<T>) -> bool {
        self.at.wf(list)
    }

    /// The next element, to be changed in place, or nothing behind the
    /// last one.
    pub fn next<'a>(&mut self, list: &XorList<T>, heap: &'a mut Heap<Node<T>>) -> (r: Option<
        &'a mut T,
    >)
        requires
            old(self).wf(list),
            list.wf(old(heap)),
        ensures
            final(self).wf(list),
            0 <= old(self).position() <= list.addrs().len(),
            old(self).position() == list.addrs().len() ==> r.is_none() && *final(heap) == *old(
                heap,
            ) && final(self).position() == old(self).position(),
            old(self).position() < list.addrs().len() ==> r.is_some() && *r.unwrap() == list.view(
                old(heap),
            )[old(self).position()] && final(heap)@ == old(heap)@.insert(
                list.addrs()[old(self).position()],
                Node {
                    link: old(heap)@[list.addrs()[old(self).position()]].link,
                    data: *final(r.unwrap()),
                },
            ) && final(heap).wf() && final(heap).full() == old(heap).full() && final(self).position() == old(self).position() + 1,
    {
        let here = Cursor {
            prev: self.at.prev,
            curr: self.at.curr,
            pos: Ghost(self.at.pos@),
            phantom: core::marker::PhantomData,
        };
        let _ = self.at.next(list, heap);
        here.peek_mut(list, heap)
    }
}

/// A list that is taken apart element by element, from either end.
pub struct IntoIter<T> {
    list: XorList<T>,
}

impl<T> IntoIter<T> {
    /// The list that is left.
    pub closed spec fn list(&self) -> XorList<T> {
        self.list
    }

    pub fn new(list: XorList<T>) -> (r: IntoIter<T>)
        ensures
            r.list() == list,
    {
        IntoIter { list }
    }

    /// Takes the first element out.
    pub fn next(&mut self, heap: &mut Heap<Node<T>>) -> (r: Option<Elem<T>>)
        requires
            old(self).list().wf(old(heap)),
        ensures
            final(self).list().wf(final(heap)),
            framed(
                *old(heap),
                *final(heap),
                old(self).list().addrs(),
                final(self).list().addrs(),
            ),
            old(self).list().addrs().len() == 0 ==> r.is_none() && final(self).list().addrs()
                == old(self).list().addrs() && *final(heap) == *old(heap),
            old(self).list().addrs().len() > 0 ==> r.is_some() && r.unwrap()@ == old(
                self,
            ).list().view(old(heap)).first() && final(self).list().view(final(heap)) == old(
                self,
            ).list().view(old(heap)).drop_first() && final(self).list().addrs() == old(
                self,
            ).list().addrs().drop_first(),
    {
        self.list.pop_front(heap)
    }

    /// Takes the last element out.
    pub fn next_back(&mut self, heap: &mut Heap<Node<T>>) -> (r: Option<Elem<T>>)
        requires
            old(self).list().wf(old(heap)),
        ensures
            final(self).list().wf(final(heap)),
            framed(
                *old(heap),
                *final(heap),
                old(self).list().addrs(),
                final(self).list().addrs(),
            ),
            old(self).list().addrs().len() == 0 ==> r.is_none() && final(self).list().addrs()
                == old(self).list().addrs() && *final(heap) == *old(heap),
            old(self).list().addrs().len() > 0 ==> r.is_some() && r.unwrap()@ == old(
                self,
            ).list().view(old(heap)).last() && final(self).list().view(final(heap)) == old(
                self,
            ).list().view(old(heap)).drop_last() && final(self).list().addrs() == old(
                self,
            ).list().addrs().drop_last(),
    {
        self.list.pop_back(heap)
    }
}

/// One step on a list that is used as a queue.
pub enum Step<T> {
    /// Put an element behind the last.
    Push(T),
    /// Take the first element out, if there is one.
    Pop,
}

/// The elements of a queue that held `start`, after `steps`.
pub open spec fn queue_after<T>(start: Seq<T>, steps: Seq<Step<T>>) -> Seq<T>
    decreases steps.len(),
{
    if steps.len() == 0 {
        start
    } else {
        let q = queue_after(start, steps.drop_last());
        match steps.last() {
            Step::Push(v) => q.push(v),
            Step::Pop => if q.len() > 0 {
                q.drop_first()
            } else {
                q
            },
        }
    }
}

/// The elements that `steps` took out of a queue that held `start`, in the
/// order in which they came out.
pub open spec fn queue_out<T>(start: Seq<T>, steps: Seq<Step<T>>) -> Seq<T>
    decreases steps.len(),
{
    if steps.len() == 0 {
        Seq::empty()
    } else {
        let q = queue_after(start, steps.drop_last());
        let out = queue_out(start, steps.drop_last());
        match steps.last() {
            Step::Push(v) => out,
            Step::Pop => if q.len() > 0 {
                out.push(q.first())
            } else {
                out
            },
        }
    }
}

/// The elements that `steps` put into a queue, in the order in which they
/// went in.
pub open spec fn queue_in<T>(steps: Seq<Step<T>>) -> Seq<T>
    decreases steps.len(),
{
    if steps.len() == 0 {
        Seq::empty()
    } else {
        let before = queue_in(steps.drop_last());
        match steps.last() {
            Step::Push(v) => before.push(v),
            Step::Pop => before,
        }
    }
}

/// First in, first out: whatever the steps, what came out of the queue and
/// what is left in it are, in this order, what it held and what went in.
/// `push_back` and `pop_front` are these steps on the list's elements.
pub proof fn lemma_first_in_first_out<T>(start: Seq<T>, steps: Seq<Step<T>>)
    ensures
        queue_out(start, steps) + queue_after(start, steps) == start + queue_in(steps),
    decreases steps.len(),
{
    if steps.len() == 0 {
        assert(queue_out(start, steps) + queue_after(start, steps) =~= start + queue_in(steps));
    } else {
        lemma_first_in_first_out(start, steps.drop_last());
        let q = queue_after(start, steps.drop_last());
        let out = queue_out(start, steps.drop_last());
        assert(out + q == start + queue_in(steps.drop_last()));
        match steps.last() {
            Step::Push(v) => {
                assert(out + q.push(v) =~= (out + q).push(v));
                assert((start + queue_in(steps.drop_last())).push(v) =~= start + queue_in(
                    steps.drop_last(),
                ).push(v));
            },
            Step::Pop => {
                if q.len() > 0 {
                    assert(out.push(q.first()) + q.drop_first() =~= out + q);
                }
            },
        }
    }
}

/// The elements of a list that held `start`, after each of `vals` in turn
/// was put before the first.
pub open spec fn stacked<T>(start: Seq<T>, vals: Seq<T>) -> Seq<T>
    decreases vals.len(),
{
    if vals.len() == 0 {
        start
    } else {
        seq![vals.last()] + stacked(start, vals.drop_last())
    }
}

/// Last in, first out: after `vals` were put before the first one by one,
/// the list holds them from the last one back to the first one, and then
/// what it held before; `pop_front` takes the elements out in that order.
pub proof fn lemma_last_in_first_out<T>(start: Seq<T>, vals: Seq<T>)
    ensures
        stacked(start, vals).len() == vals.len() + start.len(),
        forall|i: int|
            0 <= i < vals.len() ==> #[trigger] stacked(start, vals)[i] == vals[vals.len() - 1 - i],
        stacked(start, vals).subrange(vals.len() as int, (vals.len() + start.len()) as int) == start,
    decreases vals.len(),
{
    if vals.len() == 0 {
        assert(stacked(start, vals).subrange(0, start.len() as int) =~= start);
    } else {
        lemma_last_in_first_out(start, vals.drop_last());
        let rest = stacked(start, vals.drop_last());
        let all = stacked(start, vals);
        assert forall|i: int| 0 <= i < vals.len() implies #[trigger] all[i] == vals[vals.len() - 1
            - i] by {
            if i > 0 {
                assert(all[i] == rest[i - 1]);
                assert(rest[i - 1] == vals.drop_last()[vals.len() - 1 - i]);
            }
        }
        assert(all.subrange(vals.len() as int, (vals.len() + start.len()) as int) =~= rest.subrange(
            vals.len() - 1,
            vals.len() - 1 + start.len(),
        ));
    }
}

} // verus!
