//! The heap and its collections.
use yatsuscript::compiler::Program;
use yatsuscript::context::Context;
use yatsuscript::heap::Generation;
use yatsuscript::heap::Heap;
use yatsuscript::heap::ManagedObject;
use yatsuscript::run::prepare;
use yatsuscript::value::Value;
use std::sync::Arc;

fn memory(globals: usize) -> Context {
    let program = Program {
        instructions: Arc::new(Vec::new()),
        functions: Vec::new(),
        string_pool: vec!["first".to_string(), "second text".to_string()],
        locals_count: 0,
        globals_count: globals,
    };
    assert!(program.is_well_formed());
    prepare(program).0
}

fn list(ctx: &mut Context, children: &[u32]) -> u32 {
    let bits = children.iter().map(|id| Value::object(*id).to_bits()).collect();
    ctx.allocate(ManagedObject::List(bits))
}

#[test]
fn strings_are_on_the_heap_from_the_start() {
    let ctx = memory(0);
    assert_eq!(ctx.pool_name(1), "second text");
    assert_eq!(ctx.pool_name(99), "");
    assert_eq!(Value::object(1).as_string(&ctx).as_deref(), Some("second text"));
    assert_eq!(ctx.find_string("first"), Some(0));
    assert_eq!(ctx.find_string("third"), None);
    assert!(ctx.get_callable(0).is_none());
}

#[test]
fn objects_name_their_children() {
    let mut ctx = memory(0);
    let a = list(&mut ctx, &[]);
    let b = list(&mut ctx, &[a, 1]);
    assert_eq!(ctx.object(b).unwrap().visit_children(), [a, 1]);
    let m = ManagedObject::BoundMethod { receiver: Value::object(b), name_id: 0 };
    assert_eq!(m.visit_children(), [b]);
    assert!(ManagedObject::Timestamp(3).visit_children().is_empty());
}

#[test]
fn collections_keep_what_roots_reach() {
    for gc_id in [1, 5] {
        let mut ctx = memory(1);
        let child = list(&mut ctx, &[]);
        let kept = list(&mut ctx, &[child]);
        let lost = list(&mut ctx, &[child]);
        ctx.globals[0] = Value::object(kept).to_bits();
        let roots = ctx.trace_roots();
        assert!(roots.contains(&kept) && roots.contains(&0) && !roots.contains(&lost));
        ctx.heap.gc_count = gc_id - 1;
        ctx.heap.collect_garbage(roots);
        assert_eq!(ctx.heap.gc_count, gc_id);
        assert!(ctx.object(kept).is_some());
        assert!(ctx.object(child).is_some());
        assert!(ctx.object(lost).is_none());
        assert!(ctx.object(1).is_some());
        assert_eq!(ctx.heap.metadata.free_list, [lost]);
        assert!(ctx.heap.metadata.nursery_ids.is_empty());
        let slot = ctx.heap.objects[kept as usize].as_ref().unwrap();
        assert_eq!(slot.generation, Generation::Tenured);
    }
}

#[test]
fn old_objects_stay_until_a_major_collection() {
    let mut ctx = memory(1);
    let kept = list(&mut ctx, &[]);
    ctx.globals[0] = Value::object(kept).to_bits();
    ctx.heap.collect_garbage(ctx.trace_roots());
    ctx.globals[0] = 0;
    ctx.heap.collect_garbage(ctx.trace_roots());
    assert!(ctx.object(kept).is_some());
    ctx.heap.gc_count = 4;
    ctx.heap.collect_garbage(ctx.trace_roots());
    assert!(ctx.object(kept).is_none());
}

#[test]
fn slots_are_used_again() {
    let mut ctx = memory(0);
    let a = list(&mut ctx, &[]);
    let roots = ctx.trace_roots();
    ctx.heap.major_gc(5, roots);
    assert!(ctx.object(a).is_none());
    assert_eq!(list(&mut ctx, &[]), a);
    assert!(ctx.has_room());
}

#[test]
fn minor_collections_start_from_remembered_objects_too() {
    let mut ctx = memory(0);
    let young = list(&mut ctx, &[]);
    ctx.heap.metadata.remembered_set.insert(young);
    let roots = ctx.trace_roots();
    ctx.heap.minor_gc(1, roots);
    assert!(ctx.object(young).is_some());
    assert!(ctx.heap.metadata.remembered_set.is_empty());
}

#[test]
fn references_to_young_objects_are_noticed() {
    let mut ctx = memory(0);
    let young = list(&mut ctx, &[]);
    let a = list(&mut ctx, &[young]);
    let b = list(&mut ctx, &[0]);
    let at = |id: u32| ctx.heap.objects[id as usize].as_ref().unwrap();
    assert!(Heap::check_points_to_nursery(at(a), &ctx.heap.objects));
    assert!(!Heap::check_points_to_nursery(at(b), &ctx.heap.objects));
}

#[test]
fn equality_goes_by_numbers_and_texts() {
    let mut ctx = memory(0);
    let text = ctx.allocate(ManagedObject::String("second text".to_string()));
    let short = ctx.allocate(ManagedObject::String("ab".to_string()));
    let other = list(&mut ctx, &[]);
    let n = |x: f64| Value::number(x.to_bits());
    assert!(ctx.values_equal(n(0.0), n(-0.0)));
    assert!(!ctx.values_equal(n(1.0), n(2.0)));
    assert!(ctx.values_equal(Value::object(1), Value::object(text)));
    assert!(ctx.values_equal(Value::object(text), Value::object(1)));
    assert!(ctx.values_equal(Value::sso("ab").unwrap(), Value::object(short)));
    assert!(!ctx.values_equal(Value::object(other), Value::object(text)));
    assert!(!ctx.values_equal(n(1.0), Value::bool(true)));
    assert!(ctx.values_equal(Value::object(other), Value::object(other)));
}

#[test]
fn values_name_strings_of_the_pool() {
    let mut ctx = memory(0);
    let text = ctx.allocate(ManagedObject::String("second text".to_string()));
    let other = ctx.allocate(ManagedObject::String("elsewhere".to_string()));
    assert_eq!(ctx.value_as_pool_id(Value::object(0)), Some(0));
    assert_eq!(ctx.value_as_pool_id(Value::object(text)), Some(1));
    assert_eq!(ctx.value_as_pool_id(Value::object(other)), None);
    assert_eq!(ctx.value_as_pool_id(Value::sso("first").unwrap()), Some(0));
    assert_eq!(ctx.value_as_pool_id(Value::number(0)), None);
    assert_eq!(Value::object(text).with_str(&ctx, |s| s.len()), Some(11));
    assert_eq!(Value::number(0).with_str(&ctx, |s| s.len()), None);
}
