//! The slot array, the freelist of unoccupied slot indices threaded through a
//! link array, and the insert / take protocol over both.
use vstd::prelude::*;

use crate::codec::{index_of, pack, packed, tag_of, unpack, FIELD_RANGE};
use crate::history::{apply_head_step, apply_slot_step, slot_step_allowed, take_result, HeadStep, SlotStep};

verus! {

/// Index of the first slot of a freelist chain, or the sentinel `n` when the
/// chain is empty.
pub open spec fn chain_head(free: Seq<usize>, n: usize) -> int {
    if free.len() == 0 {
        n as int
    } else {
        free[0] as int
    }
}

/// The link stored for position `k` of a freelist chain: the next index of
/// the chain, or the sentinel `n` after its last position.
pub open spec fn chain_link(free: Seq<usize>, k: int, n: usize) -> int {
    if k + 1 < free.len() {
        free[k + 1] as int
    } else {
        n as int
    }
}

/// Head word after a removal from the freelist: the new first index `link`,
/// with the version advanced by one (modulo the field range).
pub open spec fn popped_word(w: u64, link: int) -> u64 {
    packed(link, tag_of(w) + 1) as u64
}

/// Head word after `index` is returned to the front of the freelist: the
/// version is kept.
pub open spec fn pushed_word(w: u64, index: int) -> u64 {
    packed(index, tag_of(w)) as u64
}

/// A fixed-capacity array of `N` slots, each empty or holding one value.
/// Empty slots are chained on a freelist whose head word packs the first
/// free index with a version that every removal advances and every return
/// keeps. Operations take the array exclusively; each one is a single
/// completed step of the freelist protocol, so that a run of them is a run of
/// `HeadStep`s and `SlotStep`s.
pub struct LockFreeArray<T: Send + Sync, const N: usize> {
    slots: Vec<Option<T>>,
    freelist_head: u64,
    next: Vec<usize>,
    free: Ghost<Seq<usize>>,
}

impl<T: Send + Sync, const N: usize> View for LockFreeArray<T, N> {
    type V = Seq<Option<T>>;

    /// The content of each slot, by index.
    closed spec fn view(&self) -> Seq<Option<T>> {
        self.slots@
    }
}

/// Two arrays hold the same slots, the same freelist and the same head word.
pub open spec fn same_state<T: Send + Sync, const N: usize>(
    a: LockFreeArray<T, N>,
    b: LockFreeArray<T, N>,
) -> bool {
    &&& a@ == b@
    &&& a.free_list() == b.free_list()
    &&& a.head_word() == b.head_word()
}

impl<T: Send + Sync, const N: usize> LockFreeArray<T, N> {
    /// The packed freelist head word.
    pub closed spec fn head_word(&self) -> u64 {
        self.freelist_head
    }

    /// The free slot indices in chain order, first to be handed out first.
    pub closed spec fn free_list(&self) -> Seq<usize> {
        self.free@
    }

    /// The array has `N` slots; the freelist chain, as the link array and the
    /// head word spell it, lists each empty slot exactly once and no other.
    pub closed spec fn wf(&self) -> bool {
        let free = self.free@;
        &&& N < FIELD_RANGE
        &&& self.slots@.len() == N
        &&& self.next@.len() == N
        &&& free.no_duplicates()
        &&& index_of(self.freelist_head) == chain_head(free, N)
        &&& forall|k: int|
            0 <= k < free.len() ==> #[trigger] free[k] < N && self.slots@[free[k] as int] is None
        &&& forall|k: int|
            0 <= k < free.len() ==> self.next@[#[trigger] free[k] as int] == chain_link(free, k, N)
        &&& forall|i: int| 0 <= i < N && #[trigger] self.slots@[i] is None ==> free.contains(i as usize)
    }

    /// A well-formed array has an empty slot exactly when its freelist is not
    /// empty.
    proof fn lemma_free_iff_empty_slot(&self)
        requires
            self.wf(),
        ensures
            self.free_list().len() > 0 <==> exists|i: int| 0 <= i < N && self@[i] is None,
    {
        if self.free@.len() > 0 {
            assert(self.free@[0] < N);
            assert(self@[self.free@[0] as int] is None);
        }
        if exists|i: int| 0 <= i < N && self@[i] is None {
            let i = choose|i: int| 0 <= i < N && self@[i] is None;
            assert(self.free@.contains(i as usize));
        }
    }

    /// Builds an array of `N` empty slots, chained `0, 1, ..., N - 1` on the
    /// freelist, with head word index 0 and version 0.
    pub fn new() -> (r: Self)
        requires
            N < FIELD_RANGE,
        ensures
            r.wf(),
            r@ == Seq::new(N as nat, |i: int| None::<T>),
            r.free_list() == Seq::new(N as nat, |i: int| i as usize),
            r.head_word() == 0,
    {
        let mut slots: Vec<Option<T>> = Vec::new();
        let mut next: Vec<usize> = Vec::new();
        let mut i: usize = 0;
        while i < N
            invariant
                i <= N,
                N < FIELD_RANGE,
                slots@.len() == i,
                next@.len() == i,
                forall|j: int| 0 <= j < i ==> #[trigger] slots@[j] is None,
                forall|j: int| 0 <= j < i ==> #[trigger] next@[j] == j + 1,
            decreases N - i,
        {
            slots.push(None);
            next.push(i + 1);
            i = i + 1;
        }
        let freelist_head = pack(0, 0);
        let ghost free = Seq::new(N as nat, |i: int| i as usize);
        let r = LockFreeArray { slots, freelist_head, next, free: Ghost(free) };
        assert(r@ =~= Seq::new(N as nat, |i: int| None::<T>));
        assert forall|i: int| 0 <= i < N && #[trigger] r.slots@[i] is None implies free.contains(
            i as usize,
        ) by {
            assert(free[i] == i as usize);
        }
        r
    }
    /// Reads the packed freelist head word.
    pub fn freelist_head(&self) -> (r: u64)
        ensures
            r == self.head_word(),
    {
        self.freelist_head
    }

    /// Claims the first index of the freelist and stores `value` in its slot.
    /// When no slot is free the value comes back unchanged and nothing moves.
    pub fn try_insert(&mut self, value: T) -> (r: Result<usize, T>)
        requires
            old(self).wf(),
        ensures
            final(self).wf(),
            r is Ok <==> old(self).free_list().len() > 0,
            r is Ok <==> exists|i: int| 0 <= i < N && old(self)@[i] is None,
            match r {
                Ok(i) => {
                    &&& i < N
                    &&& i as int == chain_head(old(self).free_list(), N)
                    &&& old(self)@[i as int] is None
                    &&& final(self)@ == old(self)@.update(i as int, Some(value))
                    &&& slot_step_allowed(old(self)@, SlotStep::Insert(i, value))
                    &&& final(self)@ == apply_slot_step(old(self)@, SlotStep::Insert(i, value))
                    &&& final(self).free_list() == old(self).free_list().drop_first()
                    &&& final(self).head_word() == popped_word(
                        old(self).head_word(),
                        chain_head(final(self).free_list(), N),
                    )
                    &&& final(self).head_word() == apply_head_step(
                        old(self).head_word(),
                        HeadStep::Pop(chain_head(final(self).free_list(), N) as usize),
                    )
                },
                Err(v) => v == value && same_state(*final(self), *old(self)),
            },
    {
        proof {
            self.lemma_free_iff_empty_slot();
        }
        let observed = self.freelist_head;
        let (head, tag) = unpack(observed);
        if head == N {
            return Err(value);
        }
        let ghost free = self.free@;
        assert(free[0] < N);
        let next_index = self.next[head];
        assert(next_index as int == chain_link(free, 0, N));
        assert(tag < FIELD_RANGE) by {
            assert((observed as int) / (FIELD_RANGE as int) < (FIELD_RANGE as int)) by (nonlinear_arith);
        }
        let candidate = pack(next_index, tag + 1);
        self.freelist_head = candidate;
        self.slots.set(head, Some(value));
        self.free = Ghost(free.drop_first());
        proof {
            let nf = self.free@;
            assert forall|k: int| 0 <= k < nf.len() implies #[trigger] nf[k] < N
                && self.slots@[nf[k] as int] is None by {
                assert(nf[k] == free[k + 1]);
                assert(free[k + 1] != free[0]);
            }
            assert forall|k: int| 0 <= k < nf.len() implies self.next@[#[trigger] nf[k] as int]
                == chain_link(nf, k, N) by {
                assert(nf[k] == free[k + 1]);
            }
            assert forall|i: int| 0 <= i < N && #[trigger] self.slots@[i] is None implies nf.contains(
                i as usize,
            ) by {
                assert(old(self).slots@[i] is None);
                let k = choose|k: int| 0 <= k < free.len() && free[k] == i as usize;
                assert(k != 0);
                assert(nf[k - 1] == i as usize);
            }
        }
        Ok(head)
    }

    /// Empties slot `index` and hands back what it held, returning the index
    /// to the front of the freelist. An index out of range, or a slot already
    /// empty, gives `None` and changes nothing.
    pub fn take(&mut self, index: usize) -> (r: Option<T>)
        requires
            old(self).wf(),
        ensures
            final(self).wf(),
            index >= N ==> r is None,
            index < N ==> r == old(self)@[index as int],
            r == take_result(old(self)@, index),
            final(self)@ == apply_slot_step(old(self)@, SlotStep::Take(index)),
            r is None ==> same_state(*final(self), *old(self)),
            r is Some ==> {
                &&& final(self)@ == old(self)@.update(index as int, None)
                &&& final(self).free_list() == seq![index].add(old(self).free_list())
                &&& final(self).head_word() == pushed_word(old(self).head_word(), index as int)
                &&& final(self).head_word() == apply_head_step(
                    old(self).head_word(),
                    HeadStep::Push(index),
                )
            },
    {
        if index >= N {
            return None;
        }
        assert(old(self)@[index as int] is None ==> old(self)@.update(index as int, None)
            =~= old(self)@);
        let cleared = self.slots[index].take();
        if cleared.is_none() {
            assert(self.slots@ =~= old(self).slots@);
            return None;
        }
        let ghost free = self.free@;
        assert(!free.contains(index)) by {
            if free.contains(index) {
                let k = choose|k: int| 0 <= k < free.len() && free[k] == index;
                assert(old(self).slots@[free[k] as int] is None);
            }
        }
        let observed = self.freelist_head;
        let (head, tag) = unpack(observed);
        self.next.set(index, head);
        self.freelist_head = pack(index, tag);
        self.free = Ghost(seq![index].add(free));
        proof {
            let nf = self.free@;
            assert(nf[0] == index);
            assert forall|k: int| 0 <= k < nf.len() implies #[trigger] nf[k] < N
                && self.slots@[nf[k] as int] is None by {
                if k > 0 {
                    assert(nf[k] == free[k - 1]);
                }
            }
            assert forall|k: int| 0 <= k < nf.len() implies self.next@[#[trigger] nf[k] as int]
                == chain_link(nf, k, N) by {
                if k > 0 {
                    assert(nf[k] == free[k - 1]);
                    assert(free[k - 1] != index);
                }
            }
            assert forall|i: int| 0 <= i < N && #[trigger] self.slots@[i] is None implies nf.contains(
                i as usize,
            ) by {
                if i != index {
                    assert(old(self).slots@[i] is None);
                    let k = choose|k: int| 0 <= k < free.len() && free[k] == i as usize;
                    assert(nf[k + 1] == i as usize);
                } else {
                    assert(nf[0] == i as usize);
                }
            }
            assert forall|a: int, b: int| 0 <= a < b < nf.len() implies nf[a] != nf[b] by {
                if a > 0 {
                    assert(nf[a] == free[a - 1]);
                }
                assert(nf[b] == free[b - 1]);
            }
        }
        Some(cleared.unwrap())
    }
}

} // verus!
