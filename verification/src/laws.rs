//! Laws of the collector, stated over the heap model and proved once for
//! every machine state. `VM::gc` promises that the slots allocated after a
//! collection are exactly the slots that were reachable from the root
//! stack before it; these lemmas draw the global consequences of that
//! promise.

use vstd::prelude::*;

use crate::heap::alloc_set;
use crate::heap::allocated;
use crate::heap::edge;
use crate::heap::lemma_reachable_step;
use crate::heap::lemma_reaches_allocated;
use crate::heap::lemma_reaches_restrict;
use crate::heap::lemma_root_reachable;
use crate::heap::obj_at;
use crate::heap::reachable;
use crate::heap::reaches;
use crate::heap::root_at;
use crate::heap::roots_allocated;
use crate::heap::Object;

verus! {

/// With no entries on the root stack, no slot is reachable: a collection
/// then reclaims every object.
pub proof fn lemma_no_roots_nothing_reachable(h: Seq<Option<Object>>, roots: Seq<usize>)
    requires
        roots.len() == 0,
    ensures
        forall|j: int| !reachable(h, roots, j),
{
}

/// An arena whose allocated slots are exactly the reachable ones — the
/// survivors of a collection — holds no object at all when the root stack
/// is empty.
pub proof fn lemma_empty_roots_collect_all(
    h0: Seq<Option<Object>>,
    h1: Seq<Option<Object>>,
    roots: Seq<usize>,
)
    requires
        roots.len() == 0,
        forall|j: int| #[trigger] allocated(h1, j) <==> reachable(h0, roots, j),
    ensures
        alloc_set(h1).len() == 0,
{
    assert(alloc_set(h1) =~= Set::<int>::empty());
}

/// A collection changes which objects exist, but not which objects are
/// reachable: when the survivors of a collection over `h0` are exactly the
/// slots reachable from `roots`, each with its value kept, then the slots
/// reachable from those same roots in the swept arena `h1` are exactly the
/// slots that were reachable in `h0`.
pub proof fn lemma_collection_stable(
    h0: Seq<Option<Object>>,
    h1: Seq<Option<Object>>,
    roots: Seq<usize>,
)
    requires
        forall|j: int|
            #![trigger allocated(h1, j)]
            #![trigger reachable(h0, roots, j)]
            allocated(h1, j) <==> reachable(h0, roots, j),
        forall|j: int| #[trigger] allocated(h1, j) ==> obj_at(h1, j).value == obj_at(h0, j).value,
        roots_allocated(h0, roots),
    ensures
        forall|j: int|
            #![trigger reachable(h1, roots, j)]
            #![trigger reachable(h0, roots, j)]
            reachable(h1, roots, j) <==> reachable(h0, roots, j),
{
    let s = Set::new(|x: int| reachable(h0, roots, x));
    assert forall|a: int| #[trigger] s.contains(a) implies allocated(h0, a) && allocated(h1, a)
        && obj_at(h1, a).value == obj_at(h0, a).value by {
        let (r, n): (int, nat) = choose|r: int, n: nat|
            0 <= r < roots.len() && #[trigger] reaches(h0, root_at(roots, r), a, n);
        lemma_reaches_allocated(h0, root_at(roots, r), a, n);
    }
    assert forall|a: int, b: int| s.contains(a) && #[trigger] edge(h0, a, b)
        implies s.contains(b) by {
        lemma_reachable_step(h0, roots, a, b);
    }
    assert forall|j: int| #[trigger] reachable(h0, roots, j) implies reachable(
        h1,
        roots,
        j,
    ) by {
        let (r, n): (int, nat) = choose|r: int, n: nat|
            0 <= r < roots.len() && #[trigger] reaches(h0, root_at(roots, r), j, n);
        lemma_root_reachable(h0, roots, r);
        assert(s.contains(root_at(roots, r)));
        lemma_reaches_restrict(h0, h1, s, root_at(roots, r), j, n);
    }
    let t = Set::new(|x: int| allocated(h1, x));
    assert forall|a: int, b: int| t.contains(a) && #[trigger] edge(h1, a, b)
        implies t.contains(b) by {}
    assert forall|a: int| #[trigger] t.contains(a) implies allocated(h1, a) && allocated(h0, a)
        && obj_at(h0, a).value == obj_at(h1, a).value by {
        assert(reachable(h0, roots, a));
        assert(s.contains(a));
    }
    assert forall|j: int| #[trigger] reachable(h1, roots, j) implies reachable(
        h0,
        roots,
        j,
    ) by {
        let (r, n): (int, nat) = choose|r: int, n: nat|
            0 <= r < roots.len() && #[trigger] reaches(h1, root_at(roots, r), j, n);
        lemma_reaches_allocated(h1, root_at(roots, r), j, n);
        assert(t.contains(root_at(roots, r)));
        lemma_reaches_restrict(h1, h0, t, root_at(roots, r), j, n);
        assert(reachable(h0, roots, root_at(roots, r)));
        assert(s.contains(j));
    }
}

/// Repeating a collection reclaims nothing more: when `h1` holds exactly
/// what a collection over `h0` keeps and `h2` holds exactly what a second
/// collection over `h1` with the same roots keeps, then `h2` allocates the
/// same slots as `h1` — the object count is unchanged by the repeat.
pub proof fn lemma_repeat_collection_keeps_count(
    h0: Seq<Option<Object>>,
    h1: Seq<Option<Object>>,
    h2: Seq<Option<Object>>,
    roots: Seq<usize>,
)
    requires
        forall|j: int|
            #![trigger allocated(h1, j)]
            #![trigger reachable(h0, roots, j)]
            allocated(h1, j) <==> reachable(h0, roots, j),
        forall|j: int| #[trigger] allocated(h1, j) ==> obj_at(h1, j).value == obj_at(h0, j).value,
        roots_allocated(h0, roots),
        forall|j: int|
            #![trigger allocated(h2, j)]
            #![trigger reachable(h1, roots, j)]
            allocated(h2, j) <==> reachable(h1, roots, j),
    ensures
        alloc_set(h2) =~= alloc_set(h1),
        alloc_set(h2).len() == alloc_set(h1).len(),
{
    lemma_collection_stable(h0, h1, roots);
    assert(alloc_set(h2) =~= alloc_set(h1));
}

} // verus!
