//! The heap model: objects, the arena of slots that holds them, and the
//! reachability relation over the object graph that the collector computes.

use vstd::prelude::*;

verus! {

/// The two kinds of heap object.
#[derive(Clone, Copy, PartialEq, Eq, Structural, Debug)]
pub enum Type {
    Int,
    Pair,
}

/// A heap value: an integer, or a pair of optional handles to other objects.
/// A pair's members are order-significant: first member, then second member.
#[derive(Clone, Copy, Debug)]
pub enum Value {
    Int(i64),
    Pair(Option<usize>, Option<usize>),
}

/// One allocated object: the transient mark flag used by a collection in
/// progress, and the value. Outside a collection every object is unmarked.
#[derive(Clone, Copy, Debug)]
pub struct Object {
    pub marked: bool,
    pub value: Value,
}

/// The freshly allocated value for each object kind: a zero integer, or a
/// pair with both members absent.
pub open spec fn blank_value(tag: Type) -> Value {
    match tag {
        Type::Int => Value::Int(0),
        Type::Pair => Value::Pair(None, None),
    }
}

/// Slot `i` of the arena currently holds an object.
pub open spec fn allocated(h: Seq<Option<Object>>, i: int) -> bool {
    0 <= i < h.len() && h[i] is Some
}

/// The object held in slot `i`.
pub open spec fn obj_at(h: Seq<Option<Object>>, i: int) -> Object
    recommends
        allocated(h, i),
{
    h[i]->0
}

/// An optional pair member holds the handle `j`.
pub open spec fn member_is(m: Option<usize>, j: int) -> bool {
    m matches Some(x) && x as int == j
}

/// The value `v` holds a reference to slot `j`.
pub open spec fn refers_to(v: Value, j: int) -> bool {
    match v {
        Value::Int(_) => false,
        Value::Pair(a, b) => member_is(a, j) || member_is(b, j),
    }
}

/// The first member of a pair value.
pub open spec fn first_member(v: Value) -> Option<usize>
    recommends
        v is Pair,
{
    match v {
        Value::Pair(a, _) => a,
        Value::Int(_) => None,
    }
}

/// The second member of a pair value.
pub open spec fn second_member(v: Value) -> Option<usize>
    recommends
        v is Pair,
{
    match v {
        Value::Pair(_, b) => b,
        Value::Int(_) => None,
    }
}

/// An edge of the object graph: the allocated slot `i` holds a pair, one of
/// whose members is the allocated slot `j`.
pub open spec fn edge(h: Seq<Option<Object>>, i: int, j: int) -> bool {
    allocated(h, i) && allocated(h, j) && refers_to(obj_at(h, i).value, j)
}

/// Slot `j` can be reached from slot `i` by following at most `n` edges.
pub open spec fn reaches(h: Seq<Option<Object>>, i: int, j: int, n: nat) -> bool
    decreases n,
{
    allocated(h, i) && (i == j || (n > 0 && exists|k: int|
        #[trigger] edge(h, i, k) && reaches(h, k, j, (n - 1) as nat)))
}

/// The handle stored at position `r` of the root stack, as a slot number.
pub open spec fn root_at(roots: Seq<usize>, r: int) -> int {
    roots[r] as int
}

/// Slot `j` is reachable from some entry of the root stack.
pub open spec fn reachable(h: Seq<Option<Object>>, roots: Seq<usize>, j: int) -> bool {
    exists|r: int, n: nat| 0 <= r < roots.len() && #[trigger] reaches(h, root_at(roots, r), j, n)
}

/// Two arenas have the same length, the same allocated slots, and the same
/// values in them; only mark flags may differ.
pub open spec fn same_shape(h0: Seq<Option<Object>>, h1: Seq<Option<Object>>) -> bool {
    &&& h0.len() == h1.len()
    &&& forall|i: int| #[trigger] allocated(h0, i) ==> allocated(h1, i)
    &&& forall|i: int| #[trigger] allocated(h1, i) ==> allocated(h0, i)
    &&& forall|i: int| #[trigger] allocated(h1, i) ==> obj_at(h1, i).value == obj_at(h0, i).value
}

/// Every pair member of an allocated object refers to an allocated slot.
pub open spec fn members_allocated(h: Seq<Option<Object>>) -> bool {
    forall|i: int, j: int|
        allocated(h, i) && #[trigger] refers_to(obj_at(h, i).value, j) ==> allocated(h, j)
}

/// No object carries a leftover mark.
pub open spec fn all_unmarked(h: Seq<Option<Object>>) -> bool {
    forall|i: int| #[trigger] allocated(h, i) ==> !obj_at(h, i).marked
}

/// Every root stack entry refers to an allocated slot.
pub open spec fn roots_allocated(h: Seq<Option<Object>>, roots: Seq<usize>) -> bool {
    forall|r: int| #![trigger roots[r]] 0 <= r < roots.len() ==> allocated(h, root_at(roots, r))
}

/// Slot `i` holds an object whose mark flag is set.
pub open spec fn marked_at(h: Seq<Option<Object>>, i: int) -> bool {
    allocated(h, i) && obj_at(h, i).marked
}

/// The set of allocated slots.
pub open spec fn alloc_set(h: Seq<Option<Object>>) -> Set<int> {
    Set::new(|i: int| allocated(h, i))
}

/// The set of allocated slots whose object is unmarked.
pub open spec fn unmarked_set(h: Seq<Option<Object>>) -> Set<int> {
    Set::new(|i: int| allocated(h, i) && !obj_at(h, i).marked)
}

/// The allocated slots form a finite set no larger than the arena.
pub proof fn lemma_alloc_set_finite(h: Seq<Option<Object>>)
    ensures
        alloc_set(h).finite(),
        alloc_set(h).len() <= h.len(),
        unmarked_set(h).finite(),
        unmarked_set(h).len() <= alloc_set(h).len(),
{
    let range = vstd::set_lib::set_int_range(0, h.len() as int);
    vstd::set_lib::lemma_int_range(0, h.len() as int);
    assert(alloc_set(h).subset_of(range));
    vstd::set_lib::lemma_len_subset(alloc_set(h), range);
    assert(unmarked_set(h).subset_of(alloc_set(h)));
    vstd::set_lib::lemma_len_subset(unmarked_set(h), alloc_set(h));
}

/// Setting the mark flag of the object in slot `i` keeps the arena's shape;
/// it only moves `i` out of or into the unmarked set.
pub proof fn lemma_set_mark(h: Seq<Option<Object>>, i: int, m: bool)
    requires
        allocated(h, i),
    ensures
        ({
            let h1 = h.update(i, Some(Object { marked: m, value: obj_at(h, i).value }));
            &&& same_shape(h, h1)
            &&& alloc_set(h1) =~= alloc_set(h)
            &&& unmarked_set(h1) =~= (if m {
                unmarked_set(h).remove(i)
            } else {
                unmarked_set(h).insert(i)
            })
            &&& obj_at(h1, i).marked == m
            &&& obj_at(h1, i).value == obj_at(h, i).value
            &&& forall|j: int| j != i && #[trigger] allocated(h, j) ==> obj_at(h1, j) == obj_at(h, j)
        }),
{
}

/// Emptying slot `i` removes exactly `i` from the allocated slots and
/// leaves every other slot unchanged.
pub proof fn lemma_clear_slot(h: Seq<Option<Object>>, i: int)
    requires
        allocated(h, i),
    ensures
        ({
            let h1 = h.update(i, None);
            &&& alloc_set(h1) =~= alloc_set(h).remove(i)
            &&& alloc_set(h1).len() == alloc_set(h).len() - 1
            &&& forall|j: int| j != i && 0 <= j < h.len() ==> h1[j] == h[j]
        }),
{
    lemma_alloc_set_finite(h);
    assert(alloc_set(h.update(i, None)) =~= alloc_set(h).remove(i));
}

/// Filling the empty slot `i` adds exactly `i` to the allocated slots and
/// leaves every other slot unchanged.
pub proof fn lemma_fill_slot(h: Seq<Option<Object>>, i: int, obj: Object)
    requires
        0 <= i < h.len(),
        h[i] is None,
    ensures
        ({
            let h1 = h.update(i, Some(obj));
            &&& alloc_set(h1) =~= alloc_set(h).insert(i)
            &&& alloc_set(h1).len() == alloc_set(h).len() + 1
            &&& forall|j: int| j != i && 0 <= j < h.len() ==> h1[j] == h[j]
        }),
{
    lemma_alloc_set_finite(h);
    assert(alloc_set(h.update(i, Some(obj))) =~= alloc_set(h).insert(i));
}

/// Growing the arena by one filled slot adds exactly that slot to the
/// allocated slots.
pub proof fn lemma_push_slot(h: Seq<Option<Object>>, obj: Object)
    ensures
        ({
            let h1 = h.push(Some(obj));
            &&& alloc_set(h1) =~= alloc_set(h).insert(h.len() as int)
            &&& alloc_set(h1).len() == alloc_set(h).len() + 1
            &&& forall|j: int| 0 <= j < h.len() ==> h1[j] == h[j]
        }),
{
    lemma_alloc_set_finite(h);
    assert(alloc_set(h.push(Some(obj))) =~= alloc_set(h).insert(h.len() as int));
}

/// Whatever is reached is allocated, at both ends of the walk.
pub proof fn lemma_reaches_allocated(h: Seq<Option<Object>>, i: int, j: int, n: nat)
    requires
        reaches(h, i, j, n),
    ensures
        allocated(h, i),
        allocated(h, j),
    decreases n,
{
    if i != j {
        let k = choose|k: int| #[trigger] edge(h, i, k) && reaches(h, k, j, (n - 1) as nat);
        lemma_reaches_allocated(h, k, j, (n - 1) as nat);
    }
}

/// A walk extended by one edge at its far end is still a walk.
pub proof fn lemma_reaches_extend(h: Seq<Option<Object>>, i: int, j: int, k: int, n: nat)
    requires
        reaches(h, i, j, n),
        edge(h, j, k),
    ensures
        reaches(h, i, k, n + 1),
    decreases n,
{
    if i == j {
        assert(edge(h, i, k) && reaches(h, k, k, n));
    } else {
        let m = choose|m: int| #[trigger] edge(h, i, m) && reaches(h, m, j, (n - 1) as nat);
        lemma_reaches_extend(h, m, j, k, (n - 1) as nat);
    }
}

/// The reachable slots are closed under edges of the object graph.
pub proof fn lemma_reachable_step(h: Seq<Option<Object>>, roots: Seq<usize>, i: int, j: int)
    requires
        reachable(h, roots, i),
        edge(h, i, j),
    ensures
        reachable(h, roots, j),
{
    let (r, n): (int, nat) = choose|r: int, n: nat|
        0 <= r < roots.len() && #[trigger] reaches(h, root_at(roots, r), i, n);
    lemma_reaches_extend(h, root_at(roots, r), i, j, n);
}

/// Every root stack entry that is allocated is itself reachable.
pub proof fn lemma_root_reachable(h: Seq<Option<Object>>, roots: Seq<usize>, r: int)
    requires
        0 <= r < roots.len(),
        allocated(h, root_at(roots, r)),
    ensures
        reachable(h, roots, root_at(roots, r)),
{
    assert(reaches(h, root_at(roots, r), root_at(roots, r), 0));
}

/// A set of slots that contains `i` and is closed under edges contains every
/// slot reached from `i`.
pub proof fn lemma_reaches_in_closed_set(
    h: Seq<Option<Object>>,
    s: Set<int>,
    i: int,
    j: int,
    n: nat,
)
    requires
        forall|a: int, b: int| s.contains(a) && #[trigger] edge(h, a, b) ==> s.contains(b),
        s.contains(i),
        reaches(h, i, j, n),
    ensures
        s.contains(j),
    decreases n,
{
    if i != j {
        let k = choose|k: int| #[trigger] edge(h, i, k) && reaches(h, k, j, (n - 1) as nat);
        lemma_reaches_in_closed_set(h, s, k, j, (n - 1) as nat);
    }
}

/// A walk that starts inside a set of slots closed under edges, all of
/// whose slots survive into a second arena with their values — such as the
/// slots a collection keeps — is a walk in the second arena too, and ends
/// inside the set.
pub proof fn lemma_reaches_restrict(
    h0: Seq<Option<Object>>,
    h1: Seq<Option<Object>>,
    s: Set<int>,
    i: int,
    j: int,
    n: nat,
)
    requires
        forall|a: int, b: int| s.contains(a) && #[trigger] edge(h0, a, b) ==> s.contains(b),
        forall|a: int| #[trigger] s.contains(a) ==> allocated(h0, a) && allocated(h1, a)
            && obj_at(h1, a).value == obj_at(h0, a).value,
        s.contains(i),
        reaches(h0, i, j, n),
    ensures
        reaches(h1, i, j, n),
        s.contains(j),
    decreases n,
{
    if i != j {
        let k = choose|k: int| #[trigger] edge(h0, i, k) && reaches(h0, k, j, (n - 1) as nat);
        assert(s.contains(k));
        assert(edge(h1, i, k));
        lemma_reaches_restrict(h0, h1, s, k, j, (n - 1) as nat);
    }
}

/// Walks only depend on which slots are allocated and on their values, not
/// on mark flags: a walk in one arena is a walk in any arena of the same
/// shape.
pub proof fn lemma_reaches_same_shape(
    h0: Seq<Option<Object>>,
    h1: Seq<Option<Object>>,
    i: int,
    j: int,
    n: nat,
)
    requires
        same_shape(h0, h1),
        reaches(h0, i, j, n),
    ensures
        reaches(h1, i, j, n),
    decreases n,
{
    if i != j {
        let k = choose|k: int| #[trigger] edge(h0, i, k) && reaches(h0, k, j, (n - 1) as nat);
        assert(edge(h1, i, k));
        lemma_reaches_same_shape(h0, h1, k, j, (n - 1) as nat);
    }
}

} // verus!
