use marksweep::heap::Type;
use marksweep::heap::Value;
use marksweep::vm::VmError;
use marksweep::vm::INITIAL_GC_THRESHOLD;
use marksweep::vm::STACK_MAX;
use marksweep::vm::VM;

#[test]
fn stack_is_preserved() {
    let mut vm = VM::new();
    vm.push_int(1).unwrap();
    vm.push_int(2).unwrap();

    assert_eq!(vm.num_objects, 2, "Objects should be preserved");
}

#[test]
fn collects_garbage() {
    let mut vm = VM::new();
    vm.push_int(1).unwrap();
    vm.push_int(2).unwrap();
    vm.pop().unwrap();
    vm.pop().unwrap();

    vm.gc();
    assert_eq!(vm.num_objects, 0, "Garbage should have been collected");
}

#[test]
fn reach_nested() {
    let mut vm = VM::new();
    vm.push_int(1).unwrap();
    vm.push_int(2).unwrap();
    vm.push_pair().unwrap();
    vm.push_int(3).unwrap();
    vm.push_int(4).unwrap();
    vm.push_pair().unwrap();
    vm.push_pair().unwrap();

    vm.gc();
    assert_eq!(vm.num_objects, 7, "Garbage should have been collected");
}

#[test]
fn cycles() {
    let mut vm = VM::new();
    vm.push_int(1).unwrap();
    vm.push_int(2).unwrap();
    let a = vm.push_pair().unwrap();

    vm.push_int(3).unwrap();
    vm.push_int(4).unwrap();
    let b = vm.push_pair().unwrap();

    // Set up a cycle, and also make 2 and 4 unreachable and collectible

    vm.set_pair_second(a, Some(b));
    vm.set_pair_second(b, Some(a));

    vm.gc();
    assert_eq!(vm.num_objects, 4, "Should have collected cycles");
}

#[test]
fn perf_test() {
    let mut vm = VM::new();

    for i in 0..1000 {
        for _ in 0..20 {
            vm.push_int(i).unwrap();
        }
        for _ in 0..20 {
            vm.pop().unwrap();
        }
    }
}

#[test]
fn accounting_with_pairs() {
    let mut vm = VM::new();
    vm.push_int(10).unwrap();
    vm.push_int(20).unwrap();
    vm.push_pair().unwrap();
    assert_eq!(vm.num_objects, 3);
    vm.push_int(30).unwrap();
    assert_eq!(vm.num_objects, 4);
}

#[test]
fn full_reclamation_nested() {
    let mut vm = VM::new();
    vm.push_int(1).unwrap();
    vm.push_int(2).unwrap();
    vm.push_pair().unwrap();
    vm.pop().unwrap();
    vm.gc();
    assert_eq!(vm.num_objects, 0);
    assert_eq!(vm.max_objects, 0);
}

#[test]
fn threshold_is_doubled_live_count() {
    let mut vm = VM::new();
    assert_eq!(vm.max_objects, INITIAL_GC_THRESHOLD);
    vm.push_int(5).unwrap();
    vm.push_int(6).unwrap();
    vm.push_int(7).unwrap();
    vm.gc();
    assert_eq!(vm.num_objects, 3);
    assert_eq!(vm.max_objects, 6);
    vm.pop().unwrap();
    vm.gc();
    assert_eq!(vm.num_objects, 2);
    assert_eq!(vm.max_objects, 4);
}

#[test]
fn repeat_gc_changes_nothing() {
    let mut vm = VM::new();
    vm.push_int(1).unwrap();
    vm.push_int(2).unwrap();
    let a = vm.push_pair().unwrap();
    vm.push_int(9).unwrap();
    vm.set_pair_second(a, Some(a));
    vm.pop().unwrap();
    vm.gc();
    let after_first = vm.num_objects;
    vm.gc();
    assert_eq!(vm.num_objects, after_first);
    assert_eq!(vm.max_objects, 2 * after_first);
}

#[test]
fn lifo_pop_returns_last_push() {
    let mut vm = VM::new();
    let first = vm.new_object(Type::Int);
    let second = vm.new_object(Type::Int);
    vm.push(first).unwrap();
    vm.push(second).unwrap();
    assert_eq!(vm.pop().unwrap(), second);
    assert_eq!(vm.pop().unwrap(), first);
}

#[test]
fn pop_on_empty_underflows() {
    let mut vm = VM::new();
    assert_eq!(vm.pop(), Err(VmError::StackUnderflow));
}

#[test]
fn push_past_capacity_overflows() {
    let mut vm = VM::new();
    for i in 0..STACK_MAX {
        vm.push_int(i as i64).unwrap();
    }
    assert_eq!(vm.push_int(-1), Err(VmError::StackOverflow));
    let h = vm.new_object(Type::Int);
    assert_eq!(vm.push(h), Err(VmError::StackOverflow));
    assert_eq!(vm.stack.len(), STACK_MAX);
}

#[test]
fn push_pair_needs_two_operands() {
    let mut vm = VM::new();
    assert_eq!(vm.push_pair(), Err(VmError::StackUnderflow));
    vm.push_int(1).unwrap();
    assert_eq!(vm.push_pair(), Err(VmError::StackUnderflow));
    assert_eq!(vm.num_objects, 1);
}

#[test]
fn pair_members_keep_pop_order() {
    let mut vm = VM::new();
    vm.push_int(1).unwrap();
    vm.push_int(2).unwrap();
    let h1 = vm.stack[0];
    let h2 = vm.stack[1];
    let p = vm.push_pair().unwrap();
    match vm.heap[p].unwrap().value {
        Value::Pair(first, second) => {
            assert_eq!(first, Some(h2), "first member is the first handle popped");
            assert_eq!(second, Some(h1), "second member is the second handle popped");
        }
        Value::Int(_) => panic!("expected a pair"),
    }
}

#[test]
fn int_value_is_stored() {
    let mut vm = VM::new();
    vm.push_int(42).unwrap();
    let h = vm.stack[0];
    match vm.heap[h].unwrap().value {
        Value::Int(v) => assert_eq!(v, 42),
        Value::Pair(_, _) => panic!("expected an integer"),
    }
}

#[test]
fn freed_slots_are_reused() {
    let mut vm = VM::new();
    vm.push_int(1).unwrap();
    vm.push_int(2).unwrap();
    vm.pop().unwrap();
    vm.pop().unwrap();
    vm.gc();
    assert_eq!(vm.num_objects, 0);
    assert_eq!(vm.heap.len(), 2);
    vm.push_int(3).unwrap();
    assert_eq!(vm.num_objects, 1);
    assert_eq!(vm.heap.len(), 2, "allocation reuses a reclaimed slot");
}

#[test]
fn collection_runs_at_threshold_before_allocating() {
    let mut vm = VM::new();
    for i in 0..INITIAL_GC_THRESHOLD {
        vm.push_int(i as i64).unwrap();
    }
    assert_eq!(vm.num_objects, INITIAL_GC_THRESHOLD);
    assert_eq!(vm.max_objects, INITIAL_GC_THRESHOLD);
    // every object is rooted: the triggered collection reclaims nothing
    vm.push_int(-7).unwrap();
    assert_eq!(vm.num_objects, INITIAL_GC_THRESHOLD + 1);
    assert_eq!(vm.max_objects, 2 * INITIAL_GC_THRESHOLD);
}

#[test]
fn values_survive_collection_unmarked() {
    let mut vm = VM::new();
    vm.push_int(7).unwrap();
    vm.push_int(8).unwrap();
    vm.pop().unwrap();
    vm.gc();
    assert_eq!(vm.num_objects, 1);
    let h = vm.stack[0];
    let obj = vm.heap[h].unwrap();
    assert!(!obj.marked, "survivors are left unmarked");
    match obj.value {
        Value::Int(v) => assert_eq!(v, 7, "survivors keep their values"),
        Value::Pair(_, _) => panic!("expected an integer"),
    }
}

#[test]
fn unrooted_mutated_members_are_kept_alive() {
    let mut vm = VM::new();
    vm.push_int(1).unwrap();
    vm.push_int(2).unwrap();
    let a = vm.push_pair().unwrap();
    vm.push_int(3).unwrap();
    let extra = vm.stack[1];
    vm.pop().unwrap();
    // the popped integer is now referenced only through the rooted pair
    vm.set_pair_first(a, Some(extra));
    vm.gc();
    assert_eq!(vm.num_objects, 3, "pair, its new first member, and its second member survive");
}
