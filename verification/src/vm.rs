//! The virtual machine: the arena, the free list, the root stack, and the
//! allocation and collection operations.

use vstd::prelude::*;

use crate::heap::alloc_set;
use crate::heap::all_unmarked;
use crate::heap::allocated;
use crate::heap::blank_value;
use crate::heap::edge;
use crate::heap::first_member;
use crate::heap::second_member;
use crate::heap::lemma_alloc_set_finite;
use crate::heap::lemma_clear_slot;
use crate::heap::lemma_fill_slot;
use crate::heap::lemma_push_slot;
use crate::heap::lemma_reachable_step;
use crate::heap::lemma_reaches_allocated;
use crate::heap::lemma_reaches_in_closed_set;
use crate::heap::lemma_reaches_same_shape;
use crate::heap::lemma_root_reachable;
use crate::heap::lemma_set_mark;
use crate::heap::marked_at;
use crate::heap::member_is;
use crate::heap::members_allocated;
use crate::heap::obj_at;
use crate::heap::reachable;
use crate::heap::reaches;
use crate::heap::refers_to;
use crate::heap::root_at;
use crate::heap::roots_allocated;
use crate::heap::same_shape;
use crate::heap::unmarked_set;
use crate::heap::Object;
use crate::heap::Type;
use crate::heap::Value;

verus! {

/// Capacity of the root stack.
pub const STACK_MAX: usize = 256;

/// Threshold at which a fresh machine first collects.
pub const INITIAL_GC_THRESHOLD: usize = 32;

/// The two caller protocol violations: pushing onto a full root stack, and
/// popping from an empty one.
#[derive(Clone, Copy, PartialEq, Eq, Structural, Debug)]
pub enum VmError {
    StackOverflow,
    StackUnderflow,
}

/// The virtual machine. `heap` is the arena: slot `i` holds `Some` object
/// while handle `i` is allocated. `free` lists slots available for reuse.
/// `stack` is the root stack of handles. `num_objects` counts the allocated
/// slots, and `max_objects` is the count at which the next allocation first
/// runs a collection.
pub struct VM {
    pub heap: Vec<Option<Object>>,
    pub free: Vec<usize>,
    pub stack: Vec<usize>,
    pub num_objects: usize,
    pub max_objects: usize,
}

/// The worklist of the mark phase holds the handle `i`.
spec fn wl_has(wl: Seq<usize>, i: int) -> bool {
    exists|k: int| 0 <= k < wl.len() && #[trigger] wl[k] as int == i
}

/// Pushing a handle onto the worklist keeps every handle it held, and adds
/// the pushed one.
proof fn lemma_wl_has_push(wl: Seq<usize>, x: usize, i: int)
    requires
        wl_has(wl, i) || x as int == i,
    ensures
        wl_has(wl.push(x), i),
{
    if wl_has(wl, i) {
        let k = choose|k: int| 0 <= k < wl.len() && #[trigger] wl[k] as int == i;
        assert(wl.push(x)[k] as int == i);
    } else {
        assert(wl.push(x)[wl.len() as int] as int == i);
    }
}

/// Dropping the last handle of the worklist keeps every other handle.
proof fn lemma_wl_has_drop(wl: Seq<usize>, i: int)
    requires
        wl.len() > 0,
        wl_has(wl, i),
        i != wl.last() as int,
    ensures
        wl_has(wl.drop_last(), i),
{
    let k = choose|k: int| 0 <= k < wl.len() && #[trigger] wl[k] as int == i;
    assert(k < wl.len() - 1);
    assert(wl.drop_last()[k] as int == i);
}

/// The state of a mark phase in progress, over the arena `h0` and roots as
/// they were when the phase began: the arena differs from `h0` only in mark
/// flags; every worklist entry is marked; every marked object is reachable
/// from the roots; and every marked object with an unmarked member — except
/// the one slot `exc` being processed right now — is still on the worklist.
/// At loop boundaries `exc` is no slot at all, so no exception is made.
spec fn mark_inv(
    h0: Seq<Option<Object>>,
    roots: Seq<usize>,
    h: Seq<Option<Object>>,
    wl: Seq<usize>,
    exc: int,
) -> bool {
    &&& same_shape(h0, h)
    &&& forall|k: int| #![trigger wl[k]] 0 <= k < wl.len() ==> marked_at(h, wl[k] as int)
    &&& forall|i: int| #[trigger] marked_at(h, i) ==> reachable(h0, roots, i)
    &&& forall|i: int, j: int|
        marked_at(h, i) && #[trigger] edge(h, i, j) && !marked_at(h, j) && i != exc
            ==> wl_has(wl, i)
}

/// The free list names only empty slots of the arena, each at most once.
pub open spec fn free_wf(h: Seq<Option<Object>>, free: Seq<usize>) -> bool {
    &&& forall|k: int| #![trigger free[k]] 0 <= k < free.len() ==>
        (free[k] as int) < h.len() && h[free[k] as int] is None
    &&& forall|k1: int, k2: int| #![trigger free[k1], free[k2]]
        0 <= k1 < k2 < free.len() ==> free[k1] != free[k2]
}

impl VM {
    /// The machine's invariant, holding between any two operations.
    pub open spec fn wf(self) -> bool {
        &&& self.stack@.len() <= STACK_MAX
        &&& crate::heap::roots_allocated(self.heap@, self.stack@)
        &&& crate::heap::members_allocated(self.heap@)
        &&& crate::heap::all_unmarked(self.heap@)
        &&& free_wf(self.heap@, self.free@)
        &&& self.num_objects == alloc_set(self.heap@).len()
        &&& self.num_objects <= usize::MAX / 2
    }

    /// A fresh machine: empty heap, empty root stack, initial threshold.
    pub fn new() -> (vm: VM)
        ensures
            vm.wf(),
            vm.heap@.len() == 0,
            vm.stack@.len() == 0,
            vm.num_objects == 0,
            vm.max_objects == INITIAL_GC_THRESHOLD,
    {
        let vm = VM {
            heap: Vec::new(),
            free: Vec::new(),
            stack: Vec::new(),
            num_objects: 0,
            max_objects: INITIAL_GC_THRESHOLD,
        };
        proof {
            assert(alloc_set(vm.heap@) =~= Set::<int>::empty());
        }
        vm
    }

    /// Pushes a handle to an allocated object onto the root stack. Fails
    /// with `StackOverflow`, changing nothing, exactly when the stack is
    /// already at capacity.
    pub fn push(&mut self, value: usize) -> (r: Result<(), VmError>)
        requires
            old(self).wf(),
            allocated(old(self).heap@, value as int),
        ensures
            final(self).wf(),
            final(self).heap@ == old(self).heap@,
            final(self).free@ == old(self).free@,
            final(self).num_objects == old(self).num_objects,
            final(self).max_objects == old(self).max_objects,
            r is Ok <==> old(self).stack@.len() < STACK_MAX,
            r is Ok ==> final(self).stack@ == old(self).stack@.push(value),
            r is Err ==> final(self).stack@ == old(self).stack@
                && r == Err::<(), VmError>(VmError::StackOverflow),
    {
        if self.stack.len() < STACK_MAX {
            self.stack.push(value);
            Ok(())
        } else {
            Err(VmError::StackOverflow)
        }
    }

    /// Removes and returns the most recently pushed handle. Fails with
    /// `StackUnderflow`, changing nothing, exactly when the stack is empty.
    pub fn pop(&mut self) -> (r: Result<usize, VmError>)
        requires
            old(self).wf(),
        ensures
            final(self).wf(),
            final(self).heap@ == old(self).heap@,
            final(self).free@ == old(self).free@,
            final(self).num_objects == old(self).num_objects,
            final(self).max_objects == old(self).max_objects,
            r is Ok <==> old(self).stack@.len() > 0,
            r is Ok ==> r == Ok::<usize, VmError>(old(self).stack@.last())
                && final(self).stack@ == old(self).stack@.drop_last(),
            r is Err ==> final(self).stack@ == old(self).stack@
                && r == Err::<usize, VmError>(VmError::StackUnderflow),
    {
        match self.stack.pop() {
            Some(v) => Ok(v),
            None => Err(VmError::StackUnderflow),
        }
    }

    /// Reads the value of the object in slot `i`.
    fn get_value(&self, i: usize) -> (v: Value)
        requires
            allocated(self.heap@, i as int),
        ensures
            v == obj_at(self.heap@, i as int).value,
    {
        match self.heap[i] {
            Some(obj) => obj.value,
            None => Value::Int(0),
        }
    }

    /// Reads the mark flag of the object in slot `i`.
    fn is_marked(&self, i: usize) -> (m: bool)
        requires
            allocated(self.heap@, i as int),
        ensures
            m == obj_at(self.heap@, i as int).marked,
    {
        match self.heap[i] {
            Some(obj) => obj.marked,
            None => false,
        }
    }

    /// Writes the mark flag of the object in slot `i`, keeping its value.
    fn set_mark_flag(&mut self, i: usize, m: bool)
        requires
            allocated(old(self).heap@, i as int),
        ensures
            final(self).heap@ == old(self).heap@.update(
                i as int,
                Some(Object { marked: m, value: obj_at(old(self).heap@, i as int).value }),
            ),
            final(self).stack@ == old(self).stack@,
            final(self).free@ == old(self).free@,
            final(self).num_objects == old(self).num_objects,
            final(self).max_objects == old(self).max_objects,
    {
        let v = self.get_value(i);
        self.heap.set(i, Some(Object { marked: m, value: v }));
    }

    /// Stores `obj` in an empty slot, reusing the free list when it has an
    /// entry and growing the arena otherwise, and returns the slot's handle.
    fn alloc_slot(&mut self, obj: Object) -> (r: usize)
        requires
            free_wf(old(self).heap@, old(self).free@),
        ensures
            free_wf(final(self).heap@, final(self).free@),
            final(self).stack@ == old(self).stack@,
            final(self).num_objects == old(self).num_objects,
            final(self).max_objects == old(self).max_objects,
            !allocated(old(self).heap@, r as int),
            r as int <= old(self).heap@.len(),
            (r as int) < old(self).heap@.len() ==> final(self).heap@ == old(self).heap@.update(
                r as int,
                Some(obj),
            ),
            r as int == old(self).heap@.len() ==> final(self).heap@ == old(self).heap@.push(
                Some(obj),
            ),
    {
        match self.free.pop() {
            Some(i) => {
                self.heap.set(i, Some(obj));
                i
            },
            None => {
                let i = self.heap.len();
                self.heap.push(Some(obj));
                i
            },
        }
    }

    /// Marks the reachable object in slot `c` if it is not marked yet, and
    /// then queues it on the worklist so that its members are visited. A
    /// no-op on an already marked object: this is the check that breaks
    /// cycles.
    fn mark_object(
        &mut self,
        worklist: &mut Vec<usize>,
        c: usize,
        Ghost(h0): Ghost<Seq<Option<Object>>>,
        Ghost(roots): Ghost<Seq<usize>>,
        Ghost(exc): Ghost<int>,
    )
        requires
            mark_inv(h0, roots, old(self).heap@, old(worklist)@, exc),
            allocated(old(self).heap@, c as int),
            reachable(h0, roots, c as int),
        ensures
            mark_inv(h0, roots, final(self).heap@, final(worklist)@, exc),
            marked_at(final(self).heap@, c as int),
            forall|i: int| #[trigger] marked_at(old(self).heap@, i)
                ==> marked_at(final(self).heap@, i),
            forall|i: int| #[trigger] wl_has(old(worklist)@, i)
                ==> wl_has(final(worklist)@, i),
            2 * unmarked_set(final(self).heap@).len() + final(worklist)@.len()
                <= 2 * unmarked_set(old(self).heap@).len() + old(worklist)@.len(),
            final(self).stack@ == old(self).stack@,
            final(self).free@ == old(self).free@,
            final(self).num_objects == old(self).num_objects,
            final(self).max_objects == old(self).max_objects,
    {
        let ghost pre = self.heap@;
        let ghost wl0 = worklist@;
        if !self.is_marked(c) {
            self.set_mark_flag(c, true);
            worklist.push(c);
            proof {
                lemma_set_mark(pre, c as int, true);
                lemma_alloc_set_finite(pre);
                let h1 = self.heap@;
                let wl1 = worklist@;
                assert forall|k: int| 0 <= k < wl1.len() implies marked_at(
                    h1,
                    #[trigger] wl1[k] as int,
                ) by {
                    if k < wl0.len() {
                        assert(marked_at(pre, wl0[k] as int));
                    }
                }
                assert forall|i: int| #[trigger] marked_at(h1, i) implies reachable(
                    h0,
                    roots,
                    i,
                ) by {
                    if i != c as int {
                        assert(marked_at(pre, i));
                    }
                }
                assert forall|i: int, j: int|
                    marked_at(h1, i) && #[trigger] edge(h1, i, j) && !marked_at(h1, j)
                        && i != exc implies wl_has(wl1, i) by {
                    if i == c as int {
                        lemma_wl_has_push(wl0, c, i);
                    } else {
                        assert(marked_at(pre, i));
                        assert(obj_at(h1, i).value == obj_at(pre, i).value);
                        assert(edge(pre, i, j));
                        assert(j != c as int);
                        assert(!marked_at(pre, j));
                        lemma_wl_has_push(wl0, c, i);
                    }
                }
                assert forall|i: int| #[trigger] wl_has(wl0, i) implies wl_has(wl1, i) by {
                    lemma_wl_has_push(wl0, c, i);
                }
                assert(unmarked_set(h1).len() + 1 == unmarked_set(pre).len());
            }
        }
    }

    /// A full collection: marks everything reachable from the root stack,
    /// sweeps everything else away, then sets the threshold to twice the
    /// count of surviving objects. Exactly the reachable objects survive,
    /// with their values untouched, and every survivor is left unmarked.
    pub fn gc(&mut self)
        requires
            old(self).wf(),
        ensures
            final(self).wf(),
            final(self).stack@ == old(self).stack@,
            final(self).heap@.len() == old(self).heap@.len(),
            forall|j: int|
                #![trigger allocated(final(self).heap@, j)]
                #![trigger reachable(old(self).heap@, old(self).stack@, j)]
                allocated(final(self).heap@, j) <==> reachable(
                    old(self).heap@,
                    old(self).stack@,
                    j,
                ),
            forall|j: int| #[trigger] allocated(final(self).heap@, j) ==> obj_at(
                final(self).heap@,
                j,
            ).value == obj_at(old(self).heap@, j).value,
            final(self).num_objects == alloc_set(final(self).heap@).len(),
            final(self).num_objects <= old(self).num_objects,
            final(self).max_objects == 2 * final(self).num_objects,
    {
        let ghost h0 = self.heap@;
        let ghost roots = self.stack@;
        self.mark_all();
        let ghost h1 = self.heap@;
        proof {
            assert(alloc_set(h1) =~= alloc_set(h0));
            assert forall|k: int| 0 <= k < self.free@.len() implies (
                #[trigger] self.free@[k] as int) < h1.len() && h1[self.free@[k] as int]
                is None by {
                assert(!allocated(h0, self.free@[k] as int));
                assert(!allocated(h1, self.free@[k] as int));
            }
        }
        self.sweep();
        proof {
            let h2 = self.heap@;
            assert forall|j: int|
                #![trigger allocated(h2, j)]
                #![trigger reachable(h0, roots, j)]
                allocated(h2, j) <==> reachable(h0, roots, j) by {
                if allocated(h2, j) {
                    assert(marked_at(h1, j));
                }
                if reachable(h0, roots, j) {
                    let (r, n): (int, nat) = choose|r: int, n: nat|
                        0 <= r < roots.len() && #[trigger] reaches(h0, root_at(roots, r), j, n);
                    lemma_reaches_allocated(h0, root_at(roots, r), j, n);
                    assert(allocated(h1, j));
                    assert(marked_at(h1, j));
                }
            }
            assert forall|j: int| #[trigger] allocated(h2, j) implies obj_at(h2, j).value
                == obj_at(h0, j).value by {
                assert(marked_at(h1, j));
            }
            assert forall|r: int| #![trigger roots[r]] 0 <= r < roots.len() implies allocated(
                h2,
                root_at(roots, r),
            ) by {
                assert(allocated(h0, root_at(roots, r)));
                lemma_root_reachable(h0, roots, r);
            }
            assert forall|i: int, j: int|
                allocated(h2, i) && #[trigger] refers_to(obj_at(h2, i).value, j) implies allocated(
                h2,
                j,
            ) by {
                assert(refers_to(obj_at(h0, i).value, j));
                assert(allocated(h0, j));
                assert(edge(h0, i, j));
                lemma_reachable_step(h0, roots, i, j);
            }
        }
        self.max_objects = self.num_objects * 2;
    }

    /// The sweep phase: walks the whole arena once. Every unmarked object
    /// is reclaimed and its slot put on the free list; every marked object
    /// survives with its mark cleared, leaving the arena ready for the
    /// next cycle.
    fn sweep(&mut self)
        requires
            free_wf(old(self).heap@, old(self).free@),
            old(self).num_objects == alloc_set(old(self).heap@).len(),
        ensures
            final(self).stack@ == old(self).stack@,
            final(self).max_objects == old(self).max_objects,
            final(self).heap@.len() == old(self).heap@.len(),
            forall|i: int| #[trigger] allocated(final(self).heap@, i) ==> marked_at(
                old(self).heap@,
                i,
            ),
            forall|i: int| #[trigger] marked_at(old(self).heap@, i) ==> allocated(
                final(self).heap@,
                i,
            ) && obj_at(final(self).heap@, i) == (Object {
                marked: false,
                value: obj_at(old(self).heap@, i).value,
            }),
            all_unmarked(final(self).heap@),
            free_wf(final(self).heap@, final(self).free@),
            final(self).num_objects == alloc_set(final(self).heap@).len(),
            final(self).num_objects <= old(self).num_objects,
    {
        let ghost h0 = self.heap@;
        let ghost s0 = self.stack@;
        let ghost n0 = self.num_objects;
        let ghost m0 = self.max_objects;
        let mut i: usize = 0;
        while i < self.heap.len()
            invariant
                self.stack@ == s0,
                self.max_objects == m0,
                i <= self.heap@.len(),
                self.heap@.len() == h0.len(),
                forall|j: int| #![trigger self.heap@[j]] i <= j < h0.len()
                    ==> self.heap@[j] == h0[j],
                forall|j: int| #![trigger self.heap@[j]] 0 <= j < i
                    ==> (allocated(self.heap@, j) <==> marked_at(h0, j)),
                forall|j: int| #![trigger self.heap@[j]] 0 <= j < i && marked_at(h0, j)
                    ==> obj_at(self.heap@, j) == (Object {
                    marked: false,
                    value: obj_at(h0, j).value,
                }),
                free_wf(self.heap@, self.free@),
                self.num_objects == alloc_set(self.heap@).len(),
                self.num_objects <= n0,
            decreases h0.len() - i,
        {
            let ghost hc = self.heap@;
            let ghost fc = self.free@;
            match self.heap[i] {
                None => {},
                Some(obj) => {
                    if obj.marked {
                        self.heap.set(i, Some(Object { marked: false, value: obj.value }));
                        proof {
                            assert(alloc_set(self.heap@) =~= alloc_set(hc));
                        }
                    } else {
                        proof {
                            lemma_alloc_set_finite(hc);
                            lemma_clear_slot(hc, i as int);
                            assert(alloc_set(hc).contains(i as int));
                        }
                        self.heap.set(i, None);
                        self.free.push(i);
                        self.num_objects = self.num_objects - 1;
                        proof {
                            let h1 = self.heap@;
                            let f1 = self.free@;
                            assert forall|k: int| 0 <= k < f1.len() implies (
                                #[trigger] f1[k] as int) < h1.len() && h1[f1[k] as int]
                                is None by {
                                if k < fc.len() {
                                    assert(fc[k] as int != i as int);
                                }
                            }
                            assert forall|k1: int, k2: int| 0 <= k1 < k2 < f1.len() implies f1[k1]
                                != f1[k2] by {
                                if k2 == fc.len() as int {
                                    assert(fc[k1] as int != i as int);
                                }
                            }
                        }
                    }
                },
            }
            i = i + 1;
        }
    }

    /// The mark phase: flags exactly the objects reachable from the root
    /// stack. Roots are seeded onto an explicit worklist, which is then
    /// drained; the already-marked check in `mark_object` visits each
    /// object once, so arbitrary graphs — cycles included — terminate.
    fn mark_all(&mut self)
        requires
            old(self).wf(),
        ensures
            final(self).stack@ == old(self).stack@,
            final(self).free@ == old(self).free@,
            final(self).num_objects == old(self).num_objects,
            final(self).max_objects == old(self).max_objects,
            same_shape(old(self).heap@, final(self).heap@),
            forall|i: int| #[trigger] allocated(final(self).heap@, i) ==> (obj_at(
                final(self).heap@,
                i,
            ).marked <==> reachable(old(self).heap@, old(self).stack@, i)),
    {
        let ghost h0 = self.heap@;
        let ghost roots = self.stack@;
        let ghost f0 = self.free@;
        let ghost n0 = self.num_objects;
        let ghost m0 = self.max_objects;
        let mut worklist: Vec<usize> = Vec::new();
        let mut ridx: usize = 0;
        while ridx < self.stack.len()
            invariant
                self.stack@ == roots,
                self.free@ == f0,
                self.num_objects == n0,
                self.max_objects == m0,
                ridx <= roots.len(),
                roots_allocated(h0, roots),
                members_allocated(h0),
                mark_inv(h0, roots, self.heap@, worklist@, -1),
                forall|r: int| #![trigger roots[r]] 0 <= r < ridx ==> marked_at(
                    self.heap@,
                    root_at(roots, r),
                ),
            decreases roots.len() - ridx,
        {
            let root = self.stack[ridx];
            proof {
                assert(allocated(h0, root_at(roots, ridx as int)));
                lemma_root_reachable(h0, roots, ridx as int);
            }
            self.mark_object(&mut worklist, root, Ghost(h0), Ghost(roots), Ghost(-1int));
            ridx = ridx + 1;
        }
        while worklist.len() > 0
            invariant
                self.stack@ == roots,
                self.free@ == f0,
                self.num_objects == n0,
                self.max_objects == m0,
                roots_allocated(h0, roots),
                members_allocated(h0),
                mark_inv(h0, roots, self.heap@, worklist@, -1),
                forall|r: int| #![trigger roots[r]] 0 <= r < roots.len() ==> marked_at(
                    self.heap@,
                    root_at(roots, r),
                ),
            decreases 2 * unmarked_set(self.heap@).len() + worklist@.len(),
        {
            let ghost hpre = self.heap@;
            let ghost wlpre = worklist@;
            let w = worklist.pop().unwrap();
            proof {
                assert(wlpre[wlpre.len() - 1] as int == w as int);
                assert(marked_at(hpre, w as int));
                assert forall|i: int, j: int|
                    marked_at(hpre, i) && #[trigger] edge(hpre, i, j) && !marked_at(hpre, j)
                        && i != w as int implies wl_has(worklist@, i) by {
                    assert(wl_has(wlpre, i));
                    lemma_wl_has_drop(wlpre, i);
                }
                assert(obj_at(hpre, w as int).value == obj_at(h0, w as int).value);
            }
            let v = self.get_value(w);
            match v {
                Value::Int(_) => {
                    proof {
                        assert forall|i: int, j: int|
                            marked_at(self.heap@, i) && #[trigger] edge(self.heap@, i, j)
                                && !marked_at(self.heap@, j) && i != -1 implies wl_has(
                            worklist@,
                            i,
                        ) by {
                            if i == w as int {
                                assert(!refers_to(obj_at(self.heap@, i).value, j));
                            }
                        }
                    }
                },
                Value::Pair(a, b) => {
                    match a {
                        Some(ca) => {
                            proof {
                                assert(member_is(a, ca as int));
                                assert(refers_to(obj_at(h0, w as int).value, ca as int));
                                assert(allocated(h0, ca as int));
                                assert(edge(h0, w as int, ca as int));
                                lemma_reachable_step(h0, roots, w as int, ca as int);
                            }
                            self.mark_object(
                                &mut worklist,
                                ca,
                                Ghost(h0),
                                Ghost(roots),
                                Ghost(w as int),
                            );
                        },
                        None => {},
                    }
                    match b {
                        Some(cb) => {
                            proof {
                                assert(member_is(b, cb as int));
                                assert(refers_to(obj_at(h0, w as int).value, cb as int));
                                assert(allocated(h0, cb as int));
                                assert(edge(h0, w as int, cb as int));
                                lemma_reachable_step(h0, roots, w as int, cb as int);
                            }
                            self.mark_object(
                                &mut worklist,
                                cb,
                                Ghost(h0),
                                Ghost(roots),
                                Ghost(w as int),
                            );
                        },
                        None => {},
                    }
                    proof {
                        assert forall|i: int, j: int|
                            marked_at(self.heap@, i) && #[trigger] edge(self.heap@, i, j)
                                && !marked_at(self.heap@, j) && i != -1 implies wl_has(
                            worklist@,
                            i,
                        ) by {
                            if i == w as int {
                                assert(obj_at(self.heap@, i).value == Value::Pair(a, b));
                                assert(refers_to(Value::Pair(a, b), j));
                                if member_is(a, j) {
                                    assert(marked_at(self.heap@, j));
                                } else {
                                    assert(member_is(b, j));
                                    assert(marked_at(self.heap@, j));
                                }
                            }
                        }
                    }
                },
            }
        }
        proof {
            let h = self.heap@;
            assert forall|i: int| #[trigger] allocated(h, i) implies (obj_at(h, i).marked
                <==> reachable(h0, roots, i)) by {
                if obj_at(h, i).marked {
                    assert(marked_at(h, i));
                }
                if reachable(h0, roots, i) {
                    let (r, n): (int, nat) = choose|r: int, n: nat|
                        0 <= r < roots.len() && #[trigger] reaches(h0, root_at(roots, r), i, n);
                    crate::heap::lemma_reaches_same_shape(h0, h, root_at(roots, r), i, n);
                    let s = Set::new(|x: int| marked_at(h, x));
                    assert forall|x: int, y: int|
                        s.contains(x) && #[trigger] edge(h, x, y) implies s.contains(y) by {
                        assert(wl_has(worklist@, x) ==> false);
                    }
                    assert(s.contains(root_at(roots, r)));
                    lemma_reaches_in_closed_set(h, s, root_at(roots, r), i, n);
                }
            }
        }
    }

    /// Overwrites the value of the allocated object in slot `i`. Every
    /// member the new value refers to must itself be allocated.
    fn set_value(&mut self, i: usize, v: Value)
        requires
            old(self).wf(),
            allocated(old(self).heap@, i as int),
            forall|j: int| #[trigger] refers_to(v, j) ==> allocated(old(self).heap@, j),
        ensures
            final(self).wf(),
            final(self).heap@ == old(self).heap@.update(
                i as int,
                Some(Object { marked: false, value: v }),
            ),
            final(self).stack@ == old(self).stack@,
            final(self).free@ == old(self).free@,
            final(self).num_objects == old(self).num_objects,
            final(self).max_objects == old(self).max_objects,
    {
        let ghost h0 = self.heap@;
        self.heap.set(i, Some(Object { marked: false, value: v }));
        proof {
            let h1 = self.heap@;
            assert(alloc_set(h1) =~= alloc_set(h0));
            assert forall|x: int| x != i as int && #[trigger] allocated(h0, x)
                implies allocated(h1, x) && obj_at(h1, x) == obj_at(h0, x) by {}
            assert forall|x: int| x != i as int && #[trigger] allocated(h1, x)
                implies allocated(h0, x) by {}
            assert forall|a: int, b: int|
                allocated(h1, a) && #[trigger] refers_to(obj_at(h1, a).value, b)
                    implies allocated(h1, b) by {
                if a != i as int {
                    assert(refers_to(obj_at(h0, a).value, b));
                    assert(allocated(h0, b));
                }
            }
        }
    }

    /// Replaces the first member of the pair in slot `i`, keeping the
    /// second: the way a caller builds shared structure or a cycle after
    /// the pair was created.
    pub fn set_pair_first(&mut self, i: usize, member: Option<usize>)
        requires
            old(self).wf(),
            allocated(old(self).heap@, i as int),
            obj_at(old(self).heap@, i as int).value is Pair,
            member matches Some(m) ==> allocated(old(self).heap@, m as int),
        ensures
            final(self).wf(),
            final(self).heap@ == old(self).heap@.update(
                i as int,
                Some(Object {
                    marked: false,
                    value: Value::Pair(
                        member,
                        second_member(obj_at(old(self).heap@, i as int).value),
                    ),
                }),
            ),
            final(self).stack@ == old(self).stack@,
            final(self).free@ == old(self).free@,
            final(self).num_objects == old(self).num_objects,
            final(self).max_objects == old(self).max_objects,
    {
        let v = self.get_value(i);
        let second = match v {
            Value::Pair(_, b) => b,
            Value::Int(_) => None,
        };
        proof {
            assert forall|j: int| #[trigger] refers_to(Value::Pair(member, second), j)
                implies allocated(self.heap@, j) by {
                if crate::heap::member_is(second, j) {
                    assert(refers_to(obj_at(self.heap@, i as int).value, j));
                }
            }
        }
        self.set_value(i, Value::Pair(member, second));
    }

    /// Replaces the second member of the pair in slot `i`, keeping the
    /// first.
    pub fn set_pair_second(&mut self, i: usize, member: Option<usize>)
        requires
            old(self).wf(),
            allocated(old(self).heap@, i as int),
            obj_at(old(self).heap@, i as int).value is Pair,
            member matches Some(m) ==> allocated(old(self).heap@, m as int),
        ensures
            final(self).wf(),
            final(self).heap@ == old(self).heap@.update(
                i as int,
                Some(Object {
                    marked: false,
                    value: Value::Pair(
                        first_member(obj_at(old(self).heap@, i as int).value),
                        member,
                    ),
                }),
            ),
            final(self).stack@ == old(self).stack@,
            final(self).free@ == old(self).free@,
            final(self).num_objects == old(self).num_objects,
            final(self).max_objects == old(self).max_objects,
    {
        let v = self.get_value(i);
        let first = match v {
            Value::Pair(a, _) => a,
            Value::Int(_) => None,
        };
        proof {
            assert forall|j: int| #[trigger] refers_to(Value::Pair(first, member), j)
                implies allocated(self.heap@, j) by {
                if crate::heap::member_is(first, j) {
                    assert(refers_to(obj_at(self.heap@, i as int).value, j));
                }
            }
        }
        self.set_value(i, Value::Pair(first, member));
    }

    /// Allocates a fresh object of the given kind with a blank value — a
    /// zero integer, or a pair with both members absent — and returns its
    /// handle. When the live count has grown to the threshold, a full
    /// collection runs first, before the allocation proceeds.
    pub fn new_object(&mut self, object_type: Type) -> (r: usize)
        requires
            old(self).wf(),
            old(self).num_objects < usize::MAX / 2,
        ensures
            final(self).wf(),
            final(self).stack@ == old(self).stack@,
            allocated(final(self).heap@, r as int),
            obj_at(final(self).heap@, r as int) == (Object {
                marked: false,
                value: blank_value(object_type),
            }),
            old(self).num_objects != old(self).max_objects ==> ({
                &&& final(self).num_objects == old(self).num_objects + 1
                &&& final(self).max_objects == old(self).max_objects
                &&& !allocated(old(self).heap@, r as int)
                &&& forall|j: int|
                    #![trigger allocated(final(self).heap@, j)]
                    #![trigger allocated(old(self).heap@, j)]
                    j != r as int ==> (allocated(final(self).heap@, j) <==> allocated(
                        old(self).heap@,
                        j,
                    ))
                &&& forall|j: int| j != r as int && #[trigger] allocated(old(self).heap@, j)
                    ==> obj_at(final(self).heap@, j) == obj_at(old(self).heap@, j)
            }),
            old(self).num_objects == old(self).max_objects ==> ({
                &&& !reachable(old(self).heap@, old(self).stack@, r as int)
                &&& forall|j: int|
                    #![trigger allocated(final(self).heap@, j)]
                    #![trigger reachable(old(self).heap@, old(self).stack@, j)]
                    j != r as int ==> (allocated(final(self).heap@, j) <==> reachable(
                        old(self).heap@,
                        old(self).stack@,
                        j,
                    ))
                &&& forall|j: int| j != r as int && #[trigger] allocated(final(self).heap@, j)
                    ==> obj_at(final(self).heap@, j).value == obj_at(old(self).heap@, j).value
                &&& final(self).num_objects <= old(self).num_objects + 1
                &&& final(self).max_objects == 2 * (final(self).num_objects - 1)
            }),
    {
        if self.num_objects == self.max_objects {
            self.gc();
        }
        let ghost hg = self.heap@;
        let obj = Object {
            marked: false,
            value: match object_type {
                Type::Int => Value::Int(0),
                Type::Pair => Value::Pair(None, None),
            },
        };
        let r = self.alloc_slot(obj);
        self.num_objects = self.num_objects + 1;
        proof {
            assert(obj.value == blank_value(object_type));
            if (r as int) < hg.len() {
                lemma_fill_slot(hg, r as int, obj);
            } else {
                lemma_push_slot(hg, obj);
            }
            let h1 = self.heap@;
            assert forall|j: int| j != r as int && #[trigger] allocated(hg, j)
                implies allocated(h1, j) && obj_at(h1, j) == obj_at(hg, j) by {}
            assert forall|j: int| j != r as int && #[trigger] allocated(h1, j)
                implies allocated(hg, j) by {}
            assert forall|a: int, b: int|
                allocated(h1, a) && #[trigger] refers_to(obj_at(h1, a).value, b)
                    implies allocated(h1, b) by {
                if a != r as int {
                    assert(refers_to(obj_at(hg, a).value, b));
                    assert(allocated(hg, b));
                }
            }
        }
        r
    }

    /// Allocates an integer object holding `value` and pushes its handle
    /// onto the root stack. Fails with `StackOverflow`, changing nothing,
    /// exactly when the root stack is already at capacity.
    pub fn push_int(&mut self, value: i64) -> (r: Result<(), VmError>)
        requires
            old(self).wf(),
            old(self).num_objects < usize::MAX / 2,
        ensures
            final(self).wf(),
            r is Err <==> old(self).stack@.len() == STACK_MAX,
            r is Err ==> *final(self) == *old(self) && r == Err::<(), VmError>(
                VmError::StackOverflow,
            ),
            r is Ok ==> ({
                let h = final(self).stack@.last() as int;
                &&& final(self).stack@.len() == old(self).stack@.len() + 1
                &&& final(self).stack@.drop_last() == old(self).stack@
                &&& allocated(final(self).heap@, h)
                &&& obj_at(final(self).heap@, h) == (Object {
                    marked: false,
                    value: Value::Int(value),
                })
                &&& old(self).num_objects != old(self).max_objects ==> ({
                    &&& final(self).num_objects == old(self).num_objects + 1
                    &&& final(self).max_objects == old(self).max_objects
                    &&& !allocated(old(self).heap@, h)
                    &&& forall|j: int|
                        #![trigger allocated(final(self).heap@, j)]
                        #![trigger allocated(old(self).heap@, j)]
                        j != h ==> (allocated(final(self).heap@, j) <==> allocated(
                            old(self).heap@,
                            j,
                        ))
                    &&& forall|j: int| j != h && #[trigger] allocated(old(self).heap@, j)
                        ==> obj_at(final(self).heap@, j) == obj_at(old(self).heap@, j)
                })
                &&& old(self).num_objects == old(self).max_objects ==> ({
                    &&& !reachable(old(self).heap@, old(self).stack@, h)
                    &&& forall|j: int|
                        #![trigger allocated(final(self).heap@, j)]
                        #![trigger reachable(old(self).heap@, old(self).stack@, j)]
                        j != h ==> (allocated(final(self).heap@, j) <==> reachable(
                            old(self).heap@,
                            old(self).stack@,
                            j,
                        ))
                    &&& forall|j: int| j != h && #[trigger] allocated(final(self).heap@, j)
                        ==> obj_at(final(self).heap@, j).value == obj_at(old(self).heap@, j).value
                    &&& final(self).num_objects <= old(self).num_objects + 1
                    &&& final(self).max_objects == 2 * (final(self).num_objects - 1)
                })
            }),
    {
        if self.stack.len() == STACK_MAX {
            return Err(VmError::StackOverflow);
        }
        let obj = self.new_object(Type::Int);
        let ghost hn = self.heap@;
        self.set_value(obj, Value::Int(value));
        proof {
            let h2 = self.heap@;
            assert forall|j: int| j != obj as int && #[trigger] allocated(hn, j)
                implies allocated(h2, j) && obj_at(h2, j) == obj_at(hn, j) by {}
            assert forall|j: int| j != obj as int && #[trigger] allocated(h2, j)
                implies allocated(hn, j) by {}
        }
        self.push(obj)
    }

    /// Pops the two topmost handles, allocates a pair whose first member
    /// is the first handle popped and whose second member is the second,
    /// pushes the pair's handle, and returns it. Fails with
    /// `StackUnderflow`, changing nothing, exactly when the root stack
    /// holds fewer than two handles. The allocation — and any collection
    /// it triggers — happens while both operands are still rooted.
    pub fn push_pair(&mut self) -> (r: Result<usize, VmError>)
        requires
            old(self).wf(),
            old(self).num_objects < usize::MAX / 2,
        ensures
            final(self).wf(),
            r is Err <==> old(self).stack@.len() < 2,
            r is Err ==> *final(self) == *old(self) && r == Err::<usize, VmError>(
                VmError::StackUnderflow,
            ),
            r matches Ok(p) ==> ({
                let a = old(self).stack@[old(self).stack@.len() - 1];
                let b = old(self).stack@[old(self).stack@.len() - 2];
                &&& final(self).stack@ == old(self).stack@.take(
                    old(self).stack@.len() - 2,
                ).push(p)
                &&& allocated(final(self).heap@, p as int)
                &&& obj_at(final(self).heap@, p as int) == (Object {
                    marked: false,
                    value: Value::Pair(Some(a), Some(b)),
                })
                &&& allocated(final(self).heap@, a as int)
                &&& allocated(final(self).heap@, b as int)
                &&& old(self).num_objects != old(self).max_objects ==> ({
                    &&& final(self).num_objects == old(self).num_objects + 1
                    &&& final(self).max_objects == old(self).max_objects
                    &&& !allocated(old(self).heap@, p as int)
                    &&& forall|j: int|
                        #![trigger allocated(final(self).heap@, j)]
                        #![trigger allocated(old(self).heap@, j)]
                        j != p as int ==> (allocated(final(self).heap@, j) <==> allocated(
                            old(self).heap@,
                            j,
                        ))
                    &&& forall|j: int| j != p as int && #[trigger] allocated(old(self).heap@, j)
                        ==> obj_at(final(self).heap@, j) == obj_at(old(self).heap@, j)
                })
                &&& old(self).num_objects == old(self).max_objects ==> ({
                    &&& !reachable(old(self).heap@, old(self).stack@, p as int)
                    &&& forall|j: int|
                        #![trigger allocated(final(self).heap@, j)]
                        #![trigger reachable(old(self).heap@, old(self).stack@, j)]
                        j != p as int ==> (allocated(final(self).heap@, j) <==> reachable(
                            old(self).heap@,
                            old(self).stack@,
                            j,
                        ))
                    &&& forall|j: int| j != p as int && #[trigger] allocated(final(self).heap@, j)
                        ==> obj_at(final(self).heap@, j).value == obj_at(old(self).heap@, j).value
                    &&& final(self).num_objects <= old(self).num_objects + 1
                    &&& final(self).max_objects == 2 * (final(self).num_objects - 1)
                })
            }),
    {
        if self.stack.len() < 2 {
            return Err(VmError::StackUnderflow);
        }
        let ghost h0 = self.heap@;
        let ghost roots = self.stack@;
        let obj = self.new_object(Type::Pair);
        proof {
            lemma_root_reachable(h0, roots, roots.len() - 1);
            lemma_root_reachable(h0, roots, roots.len() - 2);
        }
        let a = match self.pop() {
            Ok(x) => x,
            Err(e) => {
                return Err(e);
            },
        };
        let b = match self.pop() {
            Ok(x) => x,
            Err(e) => {
                return Err(e);
            },
        };
        let ghost hn = self.heap@;
        proof {
            assert(a == roots[roots.len() - 1]);
            assert(b == roots[roots.len() - 2]);
            assert(self.stack@ =~= roots.take(roots.len() - 2));
            assert(allocated(hn, a as int));
            assert(allocated(hn, b as int));
            assert(a as int != obj as int && b as int != obj as int);
        }
        self.set_value(obj, Value::Pair(Some(a), Some(b)));
        proof {
            let h2 = self.heap@;
            assert forall|j: int| j != obj as int && #[trigger] allocated(hn, j)
                implies allocated(h2, j) && obj_at(h2, j) == obj_at(hn, j) by {}
            assert forall|j: int| j != obj as int && #[trigger] allocated(h2, j)
                implies allocated(hn, j) by {}
        }
        let _pushed = self.push(obj);
        Ok(obj)
    }
}

} // verus!
