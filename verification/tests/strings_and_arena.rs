//! The `string` built-in and its canonical serialization, and the arena's
//! reference-count discipline: after a built-in returns, every scratch
//! handle it allocated has been released.

use jsonata_core::context::{Error, Evaluator, Frame, FunctionContext, Position};
use jsonata_core::functions::{fn_append, fn_boolean, fn_count, fn_filter, fn_lookup, fn_string};
use jsonata_core::pool::{ArrayFlags, Value, ValuePool};
use jsonata_core::serialize::dump;

struct PassEvaluator;

impl Evaluator for PassEvaluator {
    fn apply_function(
        &self,
        _position: Position,
        pool: &mut ValuePool,
        _input: Value,
        _proc: Value,
        args: Value,
        _frame: &Frame,
    ) -> Result<Value, Error> {
        let member = pool.get_member(args, 0);
        pool.retain(member);
        Ok(member)
    }
}

fn context(evaluator: &PassEvaluator) -> FunctionContext<'_, PassEvaluator> {
    FunctionContext {
        position: Position { line: 1, column: 1 },
        input: Value { index: 0 },
        frame: Frame { id: 0 },
        evaluator,
    }
}

fn plain_flags() -> ArrayFlags {
    ArrayFlags { sequence: false }
}

fn string_of(pool: &mut ValuePool, ctx: &FunctionContext<'_, PassEvaluator>, v: Value) -> String {
    let r = fn_string(ctx, pool, v).unwrap();
    pool.as_string(r)
}

#[test]
fn string_of_string_is_the_same_handle() {
    let evaluator = PassEvaluator;
    let ctx = context(&evaluator);
    let mut pool = ValuePool::new();
    let s = pool.string("x");
    let r = fn_string(&ctx, &mut pool, s).unwrap();
    // identity: the very same handle, no reallocation
    assert_eq!(r.index, s.index);
    assert_eq!(pool.as_string(r), "x");
}

#[test]
fn string_of_undefined_is_undefined() {
    let evaluator = PassEvaluator;
    let ctx = context(&evaluator);
    let mut pool = ValuePool::new();
    let u = pool.undefined();
    let r = fn_string(&ctx, &mut pool, u).unwrap();
    assert!(pool.is_undefined(r));
}

#[test]
fn string_of_functions_is_empty() {
    let evaluator = PassEvaluator;
    let ctx = context(&evaluator);
    let mut pool = ValuePool::new();
    let lambda = pool.lambda(1, 7);
    let native = pool.native_fn(0, 3);
    assert_eq!(string_of(&mut pool, &ctx, lambda), "");
    assert_eq!(string_of(&mut pool, &ctx, native), "");
}

#[test]
fn string_of_scalars() {
    let evaluator = PassEvaluator;
    let ctx = context(&evaluator);
    let mut pool = ValuePool::new();
    let null = pool.null();
    assert_eq!(string_of(&mut pool, &ctx, null), "null");
    let t = pool.bool_value(true);
    assert_eq!(string_of(&mut pool, &ctx, t), "true");
    let f = pool.bool_value(false);
    assert_eq!(string_of(&mut pool, &ctx, f), "false");
    let n = pool.number(42);
    assert_eq!(string_of(&mut pool, &ctx, n), "42");
    let z = pool.number(0);
    assert_eq!(string_of(&mut pool, &ctx, z), "0");
    let neg = pool.number(-1507);
    assert_eq!(string_of(&mut pool, &ctx, neg), "-1507");
}

#[test]
fn string_of_array_and_object() {
    let evaluator = PassEvaluator;
    let ctx = context(&evaluator);
    let mut pool = ValuePool::new();
    let arr = pool.array_with_flags(plain_flags());
    let one = pool.number(1);
    let null = pool.null();
    let word = pool.string("hi");
    pool.push_index(arr, one);
    pool.push_index(arr, null);
    pool.push_index(arr, word);
    assert_eq!(string_of(&mut pool, &ctx, arr), "[1,null,\"hi\"]");

    let obj = pool.object();
    let two = pool.number(2);
    pool.set_entry(obj, "a", two);
    let inner = pool.array_with_flags(plain_flags());
    pool.set_entry(obj, "b", inner);
    assert_eq!(string_of(&mut pool, &ctx, obj), "{\"a\":2,\"b\":[]}");
}

#[test]
fn string_escapes_quote_and_backslash() {
    let evaluator = PassEvaluator;
    let ctx = context(&evaluator);
    let mut pool = ValuePool::new();
    let tricky = pool.string("a\"b\\c");
    let arr = pool.array_with_flags(plain_flags());
    pool.push_index(arr, tricky);
    assert_eq!(string_of(&mut pool, &ctx, arr), "[\"a\\\"b\\\\c\"]");
}

#[test]
fn dump_matches_string_cast() {
    let evaluator = PassEvaluator;
    let ctx = context(&evaluator);
    let mut pool = ValuePool::new();
    let n = pool.number(-3);
    assert_eq!(dump(&pool, n), "-3");
    assert_eq!(string_of(&mut pool, &ctx, n), "-3");
}

#[test]
fn scratch_handles_are_released_by_count() {
    let evaluator = PassEvaluator;
    let ctx = context(&evaluator);
    let mut pool = ValuePool::new();
    let arr = pool.array_with_flags(plain_flags());
    let n = pool.number(9);
    pool.push_index(arr, n);
    let live_before = pool.live_count();
    let r = fn_count(&ctx, &mut pool, arr).unwrap();
    pool.release(r);
    assert_eq!(pool.live_count(), live_before);
}

#[test]
fn scratch_handles_are_released_by_boolean() {
    let evaluator = PassEvaluator;
    let ctx = context(&evaluator);
    let mut pool = ValuePool::new();
    let arr = pool.array_with_flags(plain_flags());
    let a = pool.number(0);
    let b = pool.number(0);
    let c = pool.number(4);
    pool.push_index(arr, a);
    pool.push_index(arr, b);
    pool.push_index(arr, c);
    let live_before = pool.live_count();
    let r = fn_boolean(&ctx, &mut pool, arr).unwrap();
    pool.release(r);
    assert_eq!(pool.live_count(), live_before);
}

#[test]
fn scratch_handles_are_released_by_filter() {
    let evaluator = PassEvaluator;
    let ctx = context(&evaluator);
    let mut pool = ValuePool::new();
    let arr = pool.array_with_flags(plain_flags());
    let a = pool.number(0);
    let b = pool.number(5);
    pool.push_index(arr, a);
    pool.push_index(arr, b);
    // the predicate returns the member itself; its arity asks for all three
    // positional arguments, so the index scratch number is exercised too
    let pred = pool.native_fn(3, 0);
    let live_before = pool.live_count();
    let r = fn_filter(&ctx, &mut pool, arr, pred).unwrap();
    pool.release(r);
    assert_eq!(pool.live_count(), live_before);
}

#[test]
fn scratch_handles_are_released_by_lookup() {
    let evaluator = PassEvaluator;
    let ctx = context(&evaluator);
    let mut pool = ValuePool::new();
    let arr = pool.array_with_flags(plain_flags());
    let o1 = pool.object();
    let inner = pool.array_with_flags(plain_flags());
    let x = pool.number(1);
    pool.push_index(inner, x);
    pool.set_entry(o1, "k", inner);
    pool.push_index(arr, o1);
    let key = pool.string("k");
    let live_before = pool.live_count();
    let r = fn_lookup(&ctx, &mut pool, arr, key).unwrap();
    pool.release(r);
    assert_eq!(pool.live_count(), live_before);
}

#[test]
fn scratch_handles_are_released_by_append_and_string() {
    let evaluator = PassEvaluator;
    let ctx = context(&evaluator);
    let mut pool = ValuePool::new();
    let a = pool.number(1);
    let b = pool.number(2);
    let live_before = pool.live_count();
    let r = fn_append(&ctx, &mut pool, a, b).unwrap();
    pool.release(r);
    assert_eq!(pool.live_count(), live_before);
    let s = fn_string(&ctx, &mut pool, a).unwrap();
    pool.release(s);
    assert_eq!(pool.live_count(), live_before);
}

#[test]
fn release_reclaims_children_recursively() {
    let mut pool = ValuePool::new();
    let live_start = pool.live_count();
    let arr = pool.array_with_flags(plain_flags());
    let x = pool.number(1);
    let y = pool.number(2);
    pool.push_index(arr, x);
    pool.push_index(arr, y);
    // hand the members over to the array: release our own handles
    pool.release(x);
    pool.release(y);
    assert_eq!(pool.live_count(), live_start + 3);
    pool.release(arr);
    assert_eq!(pool.live_count(), live_start);
}

#[test]
fn retain_keeps_a_node_alive_across_release() {
    let mut pool = ValuePool::new();
    let n = pool.number(8);
    pool.retain(n);
    pool.release(n);
    assert!(pool.is_number(n));
    assert_eq!(pool.number_value(n), 8);
}

#[test]
fn fresh_pool_owns_exactly_the_constants() {
    let pool = ValuePool::new();
    assert_eq!(pool.live_count(), 4);
}

#[test]
fn wrap_returns_arrays_unchanged_and_wraps_scalars() {
    let mut pool = ValuePool::new();
    let arr = pool.array_with_flags(plain_flags());
    let same = pool.wrap_in_array_if_needed(arr, ArrayFlags { sequence: true });
    assert_eq!(same, arr);
    // an existing array keeps its own flags
    assert_eq!(pool.array_flags(same), plain_flags());
    let n = pool.number(3);
    let wrapped = pool.wrap_in_array_if_needed(n, ArrayFlags { sequence: true });
    assert_ne!(wrapped, n);
    assert!(pool.is_array(wrapped));
    assert_eq!(pool.array_len(wrapped), 1);
    assert_eq!(pool.number_value(pool.get_member(wrapped, 0)), 3);
    assert_eq!(pool.array_flags(wrapped), ArrayFlags { sequence: true });
}

#[test]
fn shallow_copy_shares_children_by_handle() {
    let mut pool = ValuePool::new();
    let arr = pool.array_with_flags(plain_flags());
    let x = pool.number(6);
    pool.push_index(arr, x);
    let copy = pool.shallow_copy(arr);
    assert_ne!(copy, arr);
    assert_eq!(pool.array_len(copy), 1);
    // the same child handle, not a deep copy
    assert_eq!(pool.get_member(copy, 0), pool.get_member(arr, 0));
}

#[test]
fn evaluate_function_reenters_the_evaluator() {
    let evaluator = PassEvaluator;
    let ctx = context(&evaluator);
    let mut pool = ValuePool::new();
    let proc = pool.native_fn(1, 0);
    let args = pool.array_with_flags(plain_flags());
    let payload = pool.number(11);
    pool.push_index(args, payload);
    let r = ctx.evaluate_function(&mut pool, proc, args).unwrap();
    assert_eq!(pool.number_value(r), 11);
}
