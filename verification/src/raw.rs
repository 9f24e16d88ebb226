//! Addresses of nodes, and the arena that the nodes live in.

use vstd::prelude::*;
use vstd::std_specs::cmp::PartialEqSpecImpl;

verus! {

/// The address of a node, with one more word that travels with it.
///
/// Address 0 is the null address: no node ever lives there.
#[derive(Clone, Copy, Debug)]
pub struct Raw {
    pub addr: usize,
    pub meta: usize,
}

impl PartialEq for Raw {
    /// Two addresses are equal when they name the same place, whatever their second word.
    fn eq(&self, other: &Raw) -> (r: bool) {
        self.addr == other.addr
    }
}

impl PartialEqSpecImpl for Raw {
    open spec fn obeys_eq_spec() -> bool {
        true
    }

    open spec fn eq_spec(&self, other: &Raw) -> bool {
        self.addr == other.addr
    }
}

impl Raw {
    /// The address `addr` with no second word.
    pub open spec fn thin(addr: usize) -> Raw {
        Raw { addr, meta: 0 }
    }

    /// Both words combined bit by bit.
    pub open spec fn spec_xor(self, other: Raw) -> Raw {
        Raw { addr: self.addr ^ other.addr, meta: self.meta ^ other.meta }
    }

    pub fn new(addr: usize, meta: usize) -> (r: Raw)
        ensures
            r == (Raw { addr, meta }),
    {
        Raw { addr, meta }
    }

    pub fn null() -> (r: Raw)
        ensures
            r == Raw::thin(0),
    {
        Raw { addr: 0, meta: 0 }
    }

    pub fn is_null(&self) -> (r: bool)
        ensures
            r == (self.addr == 0),
    {
        self.addr == 0
    }

    pub fn xor(&self, other: &Raw) -> (r: Raw)
        ensures
            r == self.spec_xor(*other),
    {
        Raw { addr: self.addr ^ other.addr, meta: self.meta ^ other.meta }
    }

    /// The node at this address, or nothing where no node lives there.
    pub fn as_ref<'a, N>(&self, heap: &'a Heap<N>) -> (r: Option<&'a N>)
        ensures
            r == (if heap@.dom().contains(self.addr) {
                Some(&heap@[self.addr])
            } else {
                None
            }),
    {
        if heap.contains(self.addr) {
            Some(heap.get(self.addr))
        } else {
            None
        }
    }

    /// The node at this address, to be changed in place, or nothing where
    /// no node lives there.
    pub fn as_mut<'a, N>(&self, heap: &'a mut Heap<N>) -> (r: Option<&'a mut N>)
        requires
            old(heap).wf(),
        ensures
            !old(heap)@.dom().contains(self.addr) ==> r.is_none() && *final(heap) == *old(heap),
            old(heap)@.dom().contains(self.addr) ==> r.is_some() && *r.unwrap() == old(
                heap,
            )@[self.addr] && final(heap)@ == old(heap)@.insert(self.addr, *final(r.unwrap()))
                && final(heap).wf() && final(heap).full() == old(heap).full(),
    {
        if heap.contains(self.addr) {
            Some(heap.get_mut(self.addr))
        } else {
            None
        }
    }

    /// Takes the node at this address out of the arena and makes this address null.
    /// Where no node lives there, nothing changes.
    pub fn take<N>(&mut self, heap: &mut Heap<N>) -> (r: Option<N>)
        requires
            old(heap).wf(),
        ensures
            final(heap).wf(),
            old(heap)@.dom().contains(old(self).addr) ==> r == Some(old(heap)@[old(self).addr])
                && *final(self) == Raw::thin(0) && final(heap)@ == old(heap)@.remove(
                old(self).addr,
            ) && !final(heap).full(),
            !old(heap)@.dom().contains(old(self).addr) ==> r.is_none() && *final(self) == *old(
                self,
            ) && *final(heap) == *old(heap),
    {
        if heap.contains(self.addr) {
            let n = heap.deallocate(self.addr);
            self.addr = 0;
            self.meta = 0;
            Some(n)
        } else {
            None
        }
    }
}

/// Whether a reference to a `T` is one word: it is for every type of fixed
/// size, and is not where a length or a table of methods travels with the
/// address.
pub fn is_sized<T: ?Sized>() -> (r: bool)
    ensures
        r == (vstd::layout::size_of::<&T>() == vstd::layout::size_of::<&()>()),
{
    core::mem::size_of::<&T>() == core::mem::size_of::<&()>()
}

/// Combining with the same address twice gives the first address back.
pub proof fn lemma_xor_twice(a: Raw, b: Raw)
    ensures
        a.spec_xor(b).spec_xor(b) == a,
{
    lemma_xor_words(a.addr, b.addr);
    lemma_xor_words(a.meta, b.meta);
}

/// The facts about `^` on one word that the lists rest on.
pub proof fn lemma_xor_words(a: usize, b: usize)
    ensures
        (a ^ b) ^ b == a,
        (a ^ b) ^ a == b,
        a ^ b == b ^ a,
        a ^ 0 == a,
        0 ^ a == a,
        a ^ a == 0,
        b ^ 0 == b,
        0 ^ b == b,
        a ^ (a ^ b) == b,
        b ^ (a ^ b) == a,
        (a ^ b == 0) <==> a == b,
{
    assert(a ^ (a ^ b) == b) by (bit_vector);
    assert(b ^ (a ^ b) == a) by (bit_vector);
    assert(b ^ 0 == b) by (bit_vector);
    assert(0 ^ b == b) by (bit_vector);
    assert((a ^ b) ^ b == a) by (bit_vector);
    assert((a ^ b) ^ a == b) by (bit_vector);
    assert(a ^ b == b ^ a) by (bit_vector);
    assert(a ^ 0 == a) by (bit_vector);
    assert(0 ^ a == a) by (bit_vector);
    assert(a ^ a == 0) by (bit_vector);
    assert((a ^ b == 0) <==> a == b) by (bit_vector);
}

/// The addresses from 1 to `n` are finitely many.
proof fn lemma_addresses_finite(n: nat)
    ensures
        Set::new(|a: usize| 1 <= a <= n).finite(),
    decreases n,
{
    let all = Set::new(|a: usize| 1 <= a <= n);
    if n == 0 {
        assert(all =~= Set::<usize>::empty());
    } else {
        lemma_addresses_finite((n - 1) as nat);
        let fewer = Set::new(|a: usize| 1 <= a <= n - 1);
        if n <= usize::MAX {
            assert(all =~= fewer.insert(n as usize));
        } else {
            assert(all =~= fewer);
        }
    }
}

/// An arena of nodes. Each node lives at an address of its own, never at 0,
/// from `allocate` until `deallocate`.
pub struct Heap<N> {
    slots: Vec<Option<N>>,
    free: Vec<usize>,
}

impl<N> Heap<N> {
    /// The nodes that live in the arena, by address.
    pub closed spec fn view(&self) -> Map<usize, N> {
        Map::new(
            |a: usize| 1 <= a <= self.slots@.len() && self.slots@[a - 1] is Some,
            |a: usize| self.slots@[a - 1]->0,
        )
    }

    pub closed spec fn wf(&self) -> bool {
        &&& forall|i: int|
            0 <= i < self.free@.len() ==> 0 <= #[trigger] self.free@[i] < self.slots@.len()
                && self.slots@[self.free@[i] as int] is None
        &&& forall|i: int, j: int|
            0 <= i < j < self.free@.len() ==> self.free@[i] != self.free@[j]
    }

    /// No address is left to hand out.
    pub closed spec fn full(&self) -> bool {
        self.free@.len() == 0 && self.slots@.len() >= usize::MAX
    }

    pub proof fn lemma_null_is_free(&self)
        ensures
            !self@.dom().contains(0),
    {
    }

    /// The arena holds finitely many nodes.
    pub proof fn lemma_finite(&self)
        ensures
            self@.dom().finite(),
    {
        lemma_addresses_finite(self.slots@.len());
        let all = Set::new(|a: usize| 1 <= a <= self.slots@.len());
        assert(self@.dom().subset_of(all));
        vstd::set_lib::lemma_set_subset_finite(all, self@.dom());
    }

    pub fn new() -> (h: Heap<N>)
        ensures
            h.wf(),
            !h.full(),
            h@ == Map::<usize, N>::empty(),
    {
        let h = Heap { slots: Vec::new(), free: Vec::new() };
        assert(h@ =~= Map::<usize, N>::empty());
        h
    }

    pub fn is_full(&self) -> (r: bool)
        ensures
            r == self.full(),
    {
        self.free.len() == 0 && self.slots.len() >= usize::MAX
    }

    pub fn contains(&self, a: usize) -> (r: bool)
        ensures
            r == self@.dom().contains(a),
    {
        1 <= a && a <= self.slots.len() && self.slots[a - 1].is_some()
    }

    pub fn get(&self, a: usize) -> (r: &N)
        requires
            self@.dom().contains(a),
        ensures
            *r == self@[a],
    {
        match &self.slots[a - 1] {
            Some(n) => n,
            None => vstd::pervasive::unreached(),
        }
    }

    /// The node at `a`, to be changed in place.
    pub fn get_mut(&mut self, a: usize) -> (r: &mut N)
        requires
            old(self)@.dom().contains(a),
            old(self).wf(),
        ensures
            *r == old(self)@[a],
            final(self)@ == old(self)@.insert(a, *final(r)),
            final(self).wf(),
            final(self).full() == old(self).full(),
    {
        match &mut self.slots[a - 1] {
            Some(n) => n,
            None => vstd::pervasive::unreached(),
        }
    }

    /// Gives `node` an address that no node had, and keeps it there.
    pub fn allocate(&mut self, node: N) -> (a: usize)
        requires
            old(self).wf(),
            !old(self).full(),
        ensures
            final(self).wf(),
            a != 0,
            !old(self)@.dom().contains(a),
            final(self)@ == old(self)@.insert(a, node),
    {
        let n: usize = self.slots.len();
        match self.free.pop() {
            Some(i) => {
                assert(i < n);
                assert(i == old(self).free@[old(self).free@.len() - 1]);
                self.slots[i] = Some(node);
                let a: usize = i + 1;
                assert(self@ =~= old(self)@.insert(a, node));
                a
            },
            None => {
                self.slots.push(Some(node));
                let a = self.slots.len();
                assert(self@ =~= old(self)@.insert(a, node));
                a
            },
        }
    }

    /// Takes the node at `a` out; its address may be handed out again.
    pub fn deallocate(&mut self, a: usize) -> (node: N)
        requires
            old(self).wf(),
            old(self)@.dom().contains(a),
        ensures
            final(self).wf(),
            node == old(self)@[a],
            final(self)@ == old(self)@.remove(a),
            !final(self).full(),
    {
        let mut slot: Option<N> = None;
        core::mem::swap(&mut self.slots[a - 1], &mut slot);
        self.free.push(a - 1);
        assert(self@ =~= old(self)@.remove(a));
        match slot {
            Some(n) => n,
            None => vstd::pervasive::unreached(),
        }
    }
}

} // verus!
