//! Behavior of the built-ins that take a predicate or navigate structures:
//! `filter`, `lookup`, `append`, `boolean`, `count`.

use jsonata_core::context::{Error, Evaluator, Frame, FunctionContext, Position,
    RejectingEvaluator};
use jsonata_core::functions::{fn_append, fn_boolean, fn_count, fn_filter, fn_lookup};
use jsonata_core::pool::{ArrayFlags, Value, ValuePool};

/// Test evaluator: dispatches on the native function's id.
struct TestEvaluator;

const PRED_GREATER_THAN_TWO: usize = 1;
const PRED_SINGLE_ARG: usize = 2;
const PRED_INDEX_IS_EVEN: usize = 3;
const PRED_THIRD_ARG_IS_ARRAY: usize = 4;
const PRED_ALWAYS_FAILS: usize = 5;
const PRED_KEEP_ALL: usize = 6;
const PRED_RETURN_MEMBER: usize = 7;

impl Evaluator for TestEvaluator {
    fn apply_function(
        &self,
        position: Position,
        pool: &mut ValuePool,
        _input: Value,
        proc: Value,
        args: Value,
        _frame: &Frame,
    ) -> Result<Value, Error> {
        let id = pool.function_id(proc);
        let n_args = pool.array_len(args);
        match id {
            PRED_GREATER_THAN_TWO => {
                let member = pool.get_member(args, 0);
                let truthy = pool.is_number(member) && pool.number_value(member) > 2;
                Ok(pool.bool_value(truthy))
            }
            PRED_SINGLE_ARG => Ok(pool.bool_value(n_args == 1)),
            PRED_INDEX_IS_EVEN => {
                assert_eq!(n_args, 2);
                let index = pool.get_member(args, 1);
                assert!(pool.is_number(index));
                Ok(pool.bool_value(pool.number_value(index) % 2 == 0))
            }
            PRED_THIRD_ARG_IS_ARRAY => {
                assert_eq!(n_args, 3);
                let whole = pool.get_member(args, 2);
                Ok(pool.bool_value(pool.is_array(whole)))
            }
            PRED_ALWAYS_FAILS => Err(Error::EvaluationFailed(position)),
            PRED_KEEP_ALL => Ok(pool.bool_value(true)),
            PRED_RETURN_MEMBER => {
                let member = pool.get_member(args, 0);
                pool.retain(member);
                Ok(member)
            }
            _ => Err(Error::EvaluationFailed(position)),
        }
    }
}

fn context(evaluator: &TestEvaluator) -> FunctionContext<'_, TestEvaluator> {
    FunctionContext {
        position: Position { line: 1, column: 1 },
        input: Value { index: 0 },
        frame: Frame { id: 0 },
        evaluator,
    }
}

fn seq_flags() -> ArrayFlags {
    ArrayFlags { sequence: true }
}

fn plain_flags() -> ArrayFlags {
    ArrayFlags { sequence: false }
}

fn number_array(pool: &mut ValuePool, numbers: &[i128]) -> Value {
    let arr = pool.array_with_flags(plain_flags());
    for &n in numbers {
        let num = pool.number(n);
        pool.push_index(arr, num);
    }
    arr
}

fn assert_number_array(pool: &ValuePool, v: Value, expected: &[i128]) {
    assert!(pool.is_array(v));
    assert_eq!(pool.array_len(v), expected.len());
    for (i, &n) in expected.iter().enumerate() {
        let m = pool.get_member(v, i);
        assert!(pool.is_number(m));
        assert_eq!(pool.number_value(m), n);
    }
}

#[test]
fn append_undefined_left_identity() {
    let evaluator = TestEvaluator;
    let ctx = context(&evaluator);
    let mut pool = ValuePool::new();
    let x = number_array(&mut pool, &[1, 2]);
    let u = pool.undefined();
    let r = fn_append(&ctx, &mut pool, u, x).unwrap();
    assert_eq!(r, x);
}

#[test]
fn append_undefined_right_identity() {
    let evaluator = TestEvaluator;
    let ctx = context(&evaluator);
    let mut pool = ValuePool::new();
    let x = pool.number(7);
    let u = pool.undefined();
    let r = fn_append(&ctx, &mut pool, x, u).unwrap();
    assert_eq!(r, x);
}

#[test]
fn append_both_undefined() {
    let evaluator = TestEvaluator;
    let ctx = context(&evaluator);
    let mut pool = ValuePool::new();
    let u1 = pool.undefined();
    let u2 = pool.undefined();
    let r = fn_append(&ctx, &mut pool, u1, u2).unwrap();
    assert!(pool.is_undefined(r));
}

#[test]
fn append_concatenates_in_order() {
    let evaluator = TestEvaluator;
    let ctx = context(&evaluator);
    let mut pool = ValuePool::new();
    let a = number_array(&mut pool, &[1, 2]);
    let b = number_array(&mut pool, &[3]);
    let r = fn_append(&ctx, &mut pool, a, b).unwrap();
    assert_number_array(&pool, r, &[1, 2, 3]);
    // the first argument was cloned, not mutated
    assert_number_array(&pool, a, &[1, 2]);
}

#[test]
fn append_shares_members_by_handle() {
    let evaluator = TestEvaluator;
    let ctx = context(&evaluator);
    let mut pool = ValuePool::new();
    let a = number_array(&mut pool, &[1, 2]);
    let b = number_array(&mut pool, &[3]);
    let r = fn_append(&ctx, &mut pool, a, b).unwrap();
    // the very same child handles, never deep copies
    assert_eq!(pool.get_member(r, 0), pool.get_member(a, 0));
    assert_eq!(pool.get_member(r, 1), pool.get_member(a, 1));
    assert_eq!(pool.get_member(r, 2), pool.get_member(b, 0));
}

#[test]
fn append_wraps_scalars() {
    let evaluator = TestEvaluator;
    let ctx = context(&evaluator);
    let mut pool = ValuePool::new();
    let a = pool.number(10);
    let b = pool.number(20);
    let r = fn_append(&ctx, &mut pool, a, b).unwrap();
    assert_number_array(&pool, r, &[10, 20]);
}

#[test]
fn boolean_undefined_propagates() {
    let evaluator = TestEvaluator;
    let ctx = context(&evaluator);
    let mut pool = ValuePool::new();
    let u = pool.undefined();
    let r = fn_boolean(&ctx, &mut pool, u).unwrap();
    assert!(pool.is_undefined(r));
}

#[test]
fn boolean_empty_array_is_false() {
    let evaluator = TestEvaluator;
    let ctx = context(&evaluator);
    let mut pool = ValuePool::new();
    let arr = pool.array_with_flags(plain_flags());
    let r = fn_boolean(&ctx, &mut pool, arr).unwrap();
    assert!(!pool.as_bool(r));
    assert!(!pool.is_undefined(r));
}

#[test]
fn boolean_singleton_casts_as_member() {
    let evaluator = TestEvaluator;
    let ctx = context(&evaluator);
    let mut pool = ValuePool::new();
    // [[]] casts like [] : false
    let inner = pool.array_with_flags(plain_flags());
    let outer = pool.array_with_flags(plain_flags());
    pool.push_index(outer, inner);
    let r = fn_boolean(&ctx, &mut pool, outer).unwrap();
    assert!(!pool.as_bool(r));
    // [5] casts like 5 : true
    let five = number_array(&mut pool, &[5]);
    let r2 = fn_boolean(&ctx, &mut pool, five).unwrap();
    assert!(pool.as_bool(r2));
    // [undefined] casts like undefined
    let u = pool.undefined();
    let holder = pool.array_with_flags(plain_flags());
    pool.push_index(holder, u);
    let r3 = fn_boolean(&ctx, &mut pool, holder).unwrap();
    assert!(pool.is_undefined(r3));
}

#[test]
fn boolean_functions_are_never_truthy() {
    let evaluator = TestEvaluator;
    let ctx = context(&evaluator);
    let mut pool = ValuePool::new();
    let lambda = pool.lambda(2, 99);
    let native = pool.native_fn(1, PRED_KEEP_ALL);
    let arr = pool.array_with_flags(plain_flags());
    pool.push_index(arr, lambda);
    pool.push_index(arr, native);
    let r = fn_boolean(&ctx, &mut pool, arr).unwrap();
    assert!(!pool.as_bool(r));
    assert!(!pool.is_undefined(r));
    let single = fn_boolean(&ctx, &mut pool, lambda).unwrap();
    assert!(!pool.as_bool(single));
}

#[test]
fn boolean_any_true_wins() {
    let evaluator = TestEvaluator;
    let ctx = context(&evaluator);
    let mut pool = ValuePool::new();
    let arr = pool.array_with_flags(plain_flags());
    let f1 = pool.bool_value(false);
    let f2 = pool.bool_value(false);
    let t = pool.bool_value(true);
    // a trailing member of any kind: casting never needs to inspect it
    let trailing = pool.object();
    pool.push_index(arr, f1);
    pool.push_index(arr, f2);
    pool.push_index(arr, t);
    pool.push_index(arr, trailing);
    let r = fn_boolean(&ctx, &mut pool, arr).unwrap();
    assert!(pool.as_bool(r));
}

#[test]
fn count_of_undefined_is_zero() {
    let evaluator = TestEvaluator;
    let ctx = context(&evaluator);
    let mut pool = ValuePool::new();
    let u = pool.undefined();
    let r = fn_count(&ctx, &mut pool, u).unwrap();
    assert_eq!(pool.number_value(r), 0);
}

#[test]
fn count_of_array_is_member_count() {
    let evaluator = TestEvaluator;
    let ctx = context(&evaluator);
    let mut pool = ValuePool::new();
    let arr = number_array(&mut pool, &[4, 5, 6]);
    let r = fn_count(&ctx, &mut pool, arr).unwrap();
    assert_eq!(pool.number_value(r), 3);
}

#[test]
fn count_of_scalar_is_one() {
    let evaluator = TestEvaluator;
    let ctx = context(&evaluator);
    let mut pool = ValuePool::new();
    let s = pool.string("hello");
    let r = fn_count(&ctx, &mut pool, s).unwrap();
    assert_eq!(pool.number_value(r), 1);
}

#[test]
fn filter_keeps_order_without_reordering() {
    let evaluator = TestEvaluator;
    let ctx = context(&evaluator);
    let mut pool = ValuePool::new();
    let arr = number_array(&mut pool, &[1, 4, 2, 3, 5]);
    let pred = pool.native_fn(1, PRED_GREATER_THAN_TWO);
    let r = fn_filter(&ctx, &mut pool, arr, pred).unwrap();
    assert_number_array(&pool, r, &[4, 3, 5]);
}

#[test]
fn filter_of_empty_array_is_empty() {
    let evaluator = TestEvaluator;
    let ctx = context(&evaluator);
    let mut pool = ValuePool::new();
    let arr = pool.array_with_flags(plain_flags());
    let pred = pool.native_fn(1, PRED_KEEP_ALL);
    let r = fn_filter(&ctx, &mut pool, arr, pred).unwrap();
    assert!(pool.is_array(r));
    assert_eq!(pool.array_len(r), 0);
}

#[test]
fn filter_undefined_passes_through() {
    let evaluator = TestEvaluator;
    let ctx = context(&evaluator);
    let mut pool = ValuePool::new();
    let u = pool.undefined();
    let pred = pool.native_fn(1, PRED_KEEP_ALL);
    let r = fn_filter(&ctx, &mut pool, u, pred).unwrap();
    assert!(pool.is_undefined(r));
}

#[test]
fn filter_arity_one_gets_only_the_member() {
    let evaluator = TestEvaluator;
    let ctx = context(&evaluator);
    let mut pool = ValuePool::new();
    let arr = number_array(&mut pool, &[1, 2, 3]);
    // the predicate keeps a member exactly when it received a single argument
    let pred = pool.native_fn(1, PRED_SINGLE_ARG);
    let r = fn_filter(&ctx, &mut pool, arr, pred).unwrap();
    assert_number_array(&pool, r, &[1, 2, 3]);
}

#[test]
fn filter_arity_two_also_gets_the_index() {
    let evaluator = TestEvaluator;
    let ctx = context(&evaluator);
    let mut pool = ValuePool::new();
    let arr = number_array(&mut pool, &[10, 11, 12, 13]);
    let pred = pool.native_fn(2, PRED_INDEX_IS_EVEN);
    let r = fn_filter(&ctx, &mut pool, arr, pred).unwrap();
    assert_number_array(&pool, r, &[10, 12]);
}

#[test]
fn filter_arity_three_also_gets_the_whole_array() {
    let evaluator = TestEvaluator;
    let ctx = context(&evaluator);
    let mut pool = ValuePool::new();
    let arr = number_array(&mut pool, &[7, 8]);
    let pred = pool.native_fn(3, PRED_THIRD_ARG_IS_ARRAY);
    let r = fn_filter(&ctx, &mut pool, arr, pred).unwrap();
    assert_number_array(&pool, r, &[7, 8]);
}

#[test]
fn filter_casts_predicate_result_through_boolean() {
    let evaluator = TestEvaluator;
    let ctx = context(&evaluator);
    let mut pool = ValuePool::new();
    let arr = pool.array_with_flags(plain_flags());
    let zero = pool.number(0);
    let seven = pool.number(7);
    let empty = pool.string("");
    let word = pool.string("ok");
    pool.push_index(arr, zero);
    pool.push_index(arr, seven);
    pool.push_index(arr, empty);
    pool.push_index(arr, word);
    // the predicate returns the member itself: kept iff truthy
    let pred = pool.native_fn(1, PRED_RETURN_MEMBER);
    let r = fn_filter(&ctx, &mut pool, arr, pred).unwrap();
    assert_eq!(pool.array_len(r), 2);
    assert_eq!(pool.number_value(pool.get_member(r, 0)), 7);
    assert!(pool.is_string(pool.get_member(r, 1)));
}

#[test]
fn filter_propagates_evaluator_failure() {
    let evaluator = TestEvaluator;
    let ctx = context(&evaluator);
    let mut pool = ValuePool::new();
    let arr = number_array(&mut pool, &[1]);
    let pred = pool.native_fn(1, PRED_ALWAYS_FAILS);
    let r = fn_filter(&ctx, &mut pool, arr, pred);
    assert_eq!(r, Err(Error::EvaluationFailed(Position { line: 1, column: 1 })));
}

#[test]
fn filter_rejects_wrong_kinds() {
    let evaluator = TestEvaluator;
    let ctx = context(&evaluator);
    let mut pool = ValuePool::new();
    let scalar = pool.number(1);
    let pred = pool.native_fn(1, PRED_KEEP_ALL);
    assert_eq!(fn_filter(&ctx, &mut pool, scalar, pred), Err(Error::InvalidArgumentKind));
    let arr = number_array(&mut pool, &[1]);
    let not_a_function = pool.number(9);
    assert_eq!(fn_filter(&ctx, &mut pool, arr, not_a_function), Err(Error::InvalidArgumentKind));
}

#[test]
fn rejecting_evaluator_fails_every_predicate_call() {
    let evaluator = RejectingEvaluator {};
    let ctx = FunctionContext {
        position: Position { line: 3, column: 9 },
        input: Value { index: 0 },
        frame: Frame { id: 0 },
        evaluator: &evaluator,
    };
    let mut pool = ValuePool::new();
    let arr = {
        let a = pool.array_with_flags(ArrayFlags { sequence: false });
        let n = pool.number(1);
        pool.push_index(a, n);
        a
    };
    let pred = pool.lambda(1, 0);
    let r = fn_filter(&ctx, &mut pool, arr, pred);
    assert_eq!(r, Err(Error::EvaluationFailed(Position { line: 3, column: 9 })));
}

#[test]
fn lookup_over_array_of_objects() {
    let evaluator = TestEvaluator;
    let ctx = context(&evaluator);
    let mut pool = ValuePool::new();
    // [{"a":1}, {"a":2}, {"b":3}] . a == [1, 2]
    let arr = pool.array_with_flags(plain_flags());
    let o1 = pool.object();
    let n1 = pool.number(1);
    pool.set_entry(o1, "a", n1);
    let o2 = pool.object();
    let n2 = pool.number(2);
    pool.set_entry(o2, "a", n2);
    let o3 = pool.object();
    let n3 = pool.number(3);
    pool.set_entry(o3, "b", n3);
    pool.push_index(arr, o1);
    pool.push_index(arr, o2);
    pool.push_index(arr, o3);
    let key = pool.string("a");
    let r = fn_lookup(&ctx, &mut pool, arr, key).unwrap();
    assert_number_array(&pool, r, &[1, 2]);
}

#[test]
fn lookup_flattens_one_nested_level() {
    let evaluator = TestEvaluator;
    let ctx = context(&evaluator);
    let mut pool = ValuePool::new();
    // [{"a":[1,2]}, {"a":3}] . a == [1, 2, 3]
    let arr = pool.array_with_flags(plain_flags());
    let o1 = pool.object();
    let inner = number_array(&mut pool, &[1, 2]);
    pool.set_entry(o1, "a", inner);
    let o2 = pool.object();
    let n3 = pool.number(3);
    pool.set_entry(o2, "a", n3);
    pool.push_index(arr, o1);
    pool.push_index(arr, o2);
    let key = pool.string("a");
    let r = fn_lookup(&ctx, &mut pool, arr, key).unwrap();
    assert_number_array(&pool, r, &[1, 2, 3]);
}

#[test]
fn lookup_on_object_and_missing_key() {
    let evaluator = TestEvaluator;
    let ctx = context(&evaluator);
    let mut pool = ValuePool::new();
    let obj = pool.object();
    let n = pool.number(42);
    pool.set_entry(obj, "answer", n);
    let key = pool.string("answer");
    let r = fn_lookup(&ctx, &mut pool, obj, key).unwrap();
    assert_eq!(pool.number_value(r), 42);
    let missing = pool.string("question");
    let r2 = fn_lookup(&ctx, &mut pool, obj, missing).unwrap();
    assert!(pool.is_undefined(r2));
}

#[test]
fn lookup_on_scalar_is_undefined() {
    let evaluator = TestEvaluator;
    let ctx = context(&evaluator);
    let mut pool = ValuePool::new();
    let n = pool.number(5);
    let key = pool.string("a");
    let r = fn_lookup(&ctx, &mut pool, n, key).unwrap();
    assert!(pool.is_undefined(r));
}

#[test]
fn lookup_rejects_non_string_key() {
    let evaluator = TestEvaluator;
    let ctx = context(&evaluator);
    let mut pool = ValuePool::new();
    let obj = pool.object();
    let key = pool.number(1);
    assert_eq!(fn_lookup(&ctx, &mut pool, obj, key), Err(Error::InvalidArgumentKind));
}

#[test]
fn lookup_result_carries_sequence_flag() {
    let evaluator = TestEvaluator;
    let ctx = context(&evaluator);
    let mut pool = ValuePool::new();
    let arr = pool.array_with_flags(plain_flags());
    let o1 = pool.object();
    let n1 = pool.number(1);
    pool.set_entry(o1, "a", n1);
    pool.push_index(arr, o1);
    let key = pool.string("a");
    let r = fn_lookup(&ctx, &mut pool, arr, key).unwrap();
    assert!(pool.is_array(r));
    assert_eq!(pool.array_flags(r), seq_flags());
    assert_number_array(&pool, r, &[1]);
}
