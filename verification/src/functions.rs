//! The built-in function library: `lookup`, `append`, `boolean`, `filter`,
//! `string` and `count`, each proved against its spec-level semantics in
//! `model`.
//!
//! Ownership convention: every built-in returns a handle the caller owns and
//! must eventually release — a passed-through argument or shared constant is
//! retained before being returned — and releases every scratch handle it
//! allocated before returning.

use vstd::prelude::*;
use crate::model::{Val, spec_boolean, spec_count, lemma_spec_boolean_shape, arr_elems, wrap_elems, wrap_flag,
    spec_append, spec_lookup, lookup_elems, lookup_contrib, str_text, is_function_val,
    is_ordered_selection, is_subsequence, filter_selects, dump_spec};
use crate::pool::{ValuePool, Value, ArrayFlags};
use crate::context::{FunctionContext, Evaluator, Error};

verus! {

broadcast use vstd::seq::axiom_seq_index_decreases;

/// Member count of a value: 0 for `Undefined`, the length for an array, 1
/// for anything else.  Allocates nothing beyond the returned number: the
/// live count grows by exactly the one returned node.
pub fn fn_count<E: Evaluator>(
    context: &FunctionContext<E>,
    pool: &mut ValuePool,
    arg: Value,
) -> (r: Result<Value, Error>)
    requires
        old(pool).wf(),
        arg.index < old(pool).vals().len(),
    ensures
        final(pool).wf(),
        r is Ok,
        final(pool).vals() == old(pool).vals().push(
            Val::Num(spec_count(old(pool).vals()[arg.index as int])),
        ),
        r matches Ok(v) ==> v.index == old(pool).vals().len(),
        forall|h: int| old(pool).unreferenced(h) ==> final(pool).unreferenced(h),
        final(pool).live() == old(pool).live() + 1,
{
    let n: usize = if pool.is_undefined(arg) {
        0
    } else if pool.is_array(arg) {
        pool.array_len(arg)
    } else {
        1
    };
    let num = pool.number(n as i128);
    Ok(num)
}

/// Truthiness cast.  Total over every value kind; `Undefined` propagates
/// rather than becoming `false`, and function values are never truthy.
/// Never re-enters the evaluator and allocates nothing: the result is one of
/// the shared constants, retained for the caller, and every scratch handle
/// of the cast is released again — the live count grows only when the
/// returned constant itself was previously reclaimed.
pub fn fn_boolean<E: Evaluator>(
    context: &FunctionContext<E>,
    pool: &mut ValuePool,
    arg: Value,
) -> (r: Result<Value, Error>)
    requires
        old(pool).wf(),
        arg.index < old(pool).vals().len(),
    ensures
        final(pool).wf(),
        final(pool).vals() == old(pool).vals(),
        forall|h: int| final(pool).unreferenced(h) == old(pool).unreferenced(h),
        r is Ok,
        r matches Ok(v) ==> v.index < final(pool).vals().len() && final(pool).vals()[v.index as int]
            == spec_boolean(old(pool).vals()[arg.index as int]),
        r matches Ok(v) ==> {
            &&& forall|j: int|
                0 <= j < old(pool).vals().len() && j != v.index ==> ((final(pool).rc_of(j) > 0)
                    == (#[trigger] old(pool).rc_of(j) > 0))
            &&& final(pool).rc_of(v.index as int) > 0
            &&& (old(pool).rc_of(v.index as int) > 0 ==> final(pool).rc_of(v.index as int) > 1)
            &&& (old(pool).rc_of(v.index as int) == 0 ==> final(pool).rc_of(v.index as int) == 1)
            &&& final(pool).live() == old(pool).live() + (if old(pool).rc_of(
                v.index as int,
            ) > 0 {
                0int
            } else {
                1int
            })
        },
    decreases old(pool).vals()[arg.index as int],
{
    if pool.is_undefined(arg) {
        let u = pool.undefined();
        return Ok(u);
    }
    if pool.is_array(arg) {
        let ghost elems = arr_elems(pool.vals()[arg.index as int]);
        let n = pool.array_len(arg);
        if n == 0 {
            let b = pool.bool_value(false);
            Ok(b)
        } else if n == 1 {
            let m = pool.get_member(arg, 0);
            let rec = fn_boolean(context, pool, m);
            match rec {
                Ok(v) => Ok(v),
                Err(e) => Err(e),
            }
        } else {
            let mut i: usize = 0;
            while i < n
                invariant
                    i <= n,
                    n >= 2,
                    pool.wf(),
                    old(pool).wf(),
                    pool.vals() == old(pool).vals(),
                    forall|h: int| pool.unreferenced(h) == old(pool).unreferenced(h),
                    arg.index < pool.vals().len(),
                    pool.vals()[arg.index as int] is Arr,
                    elems == arr_elems(pool.vals()[arg.index as int]),
                    n == elems.len(),
                    forall|j: int| 0 <= j < i ==> spec_boolean(#[trigger] elems[j]) != Val::Bool(true),
                    forall|j: int|
                        0 <= j < old(pool).vals().len() ==> ((pool.rc_of(j) > 0) == (#[trigger] old(
                            pool,
                        ).rc_of(j) > 0)),
                decreases n - i,
            {
                let m = pool.get_member(arg, i);
                proof {
                    assert(decreases_to!(
                        old(pool).vals()[arg.index as int] => pool.vals()[m.index as int]
                    ));
                }
                let ghost pre_rec = *pool;
                let rec = fn_boolean(context, pool, m);
                let b = match rec {
                    Ok(v) => v,
                    Err(e) => { return Err(e); },
                };
                let t = pool.as_bool(b);
                let ghost post_rec = *pool;
                proof {
                    lemma_spec_boolean_shape(elems[i as int]);
                    post_rec.lemma_scalar_no_refs(b.index as int);
                }
                pool.release(b);
                proof {
                    assert forall|j: int|
                        0 <= j < old(pool).vals().len() implies ((pool.rc_of(j) > 0) == (
                    #[trigger] old(pool).rc_of(j) > 0)) by {
                        if j != b.index {
                            assert((post_rec.rc_of(j) > 0) == (pre_rec.rc_of(j) > 0));
                            assert(pool.rc_of(j) == post_rec.rc_of(j));
                        } else {
                            if pre_rec.rc_of(j) > 0 {
                                assert(post_rec.rc_of(j) > 1);
                                assert(pool.rc_of(j) == post_rec.rc_of(j) - 1);
                            } else {
                                assert(post_rec.rc_of(j) == 1);
                                assert(pool.rc_of(j) == 0);
                            }
                        }
                    }
                }
                if t {
                    let ghost pre_ret = *pool;
                    proof {
                        ValuePool::lemma_live_change_at(*old(pool), pre_ret, arg.index as int);
                    }
                    let tr = pool.bool_value(true);
                    proof {
                        assert(spec_boolean(elems[i as int]) == Val::Bool(true));
                        assert(exists|j: int|
                            0 <= j < elems.len() && spec_boolean(#[trigger] elems[j]) == Val::Bool(
                                true,
                            ));
                    }
                    return Ok(tr);
                }
                i += 1;
            }
            let ghost pre_ret = *pool;
            proof {
                ValuePool::lemma_live_change_at(*old(pool), pre_ret, arg.index as int);
            }
            let f = pool.bool_value(false);
            proof {
                assert(!exists|j: int|
                    0 <= j < elems.len() && spec_boolean(#[trigger] elems[j]) == Val::Bool(true));
            }
            Ok(f)
        }
    } else {
        let t = pool.scalar_truthy(arg);
        let b = pool.bool_value(t);
        Ok(b)
    }
}

/// Concatenation with absorbing `Undefined`: either side absent yields the
/// other unchanged (the same handle, retained — no copy); otherwise the
/// first argument is shallow-copied and coerced to an array, and the second
/// argument's members (itself, when not an array) are shared by handle into
/// the result.
pub fn fn_append<E: Evaluator>(
    context: &FunctionContext<E>,
    pool: &mut ValuePool,
    arg1: Value,
    arg2: Value,
) -> (r: Result<Value, Error>)
    requires
        old(pool).wf(),
        arg1.index < old(pool).vals().len(),
        arg2.index < old(pool).vals().len(),
    ensures
        final(pool).wf(),
        final(pool).extends(*old(pool)),
        r is Ok,
        old(pool).vals()[arg1.index as int] is Undefined ==> (r matches Ok(v) && v == arg2
            && final(pool).vals() == old(pool).vals()),
        !(old(pool).vals()[arg1.index as int] is Undefined)
            && old(pool).vals()[arg2.index as int] is Undefined
            ==> (r matches Ok(v) && v == arg1 && final(pool).vals() == old(pool).vals()),
        !(old(pool).vals()[arg1.index as int] is Undefined)
            && !(old(pool).vals()[arg2.index as int] is Undefined)
            ==> (r matches Ok(v) && v.index >= old(pool).vals().len()
                && v.index < final(pool).vals().len()
                && final(pool).vals()[v.index as int] == spec_append(
                    old(pool).vals()[arg1.index as int],
                    old(pool).vals()[arg2.index as int],
                )
                && final(pool).refs_of(v.index as int) == (if old(
                    pool,
                ).vals()[arg1.index as int] is Arr {
                    old(pool).refs_of(arg1.index as int)
                } else {
                    seq![old(pool).vals().len() as int]
                }) + (if old(pool).vals()[arg2.index as int] is Arr {
                    old(pool).refs_of(arg2.index as int)
                } else {
                    seq![arg2.index as int]
                })),
{
    if pool.is_undefined(arg1) {
        pool.retain(arg2);
        return Ok(arg2);
    }
    if pool.is_undefined(arg2) {
        pool.retain(arg1);
        return Ok(arg1);
    }
    let ghost oldp = *pool;
    let ghost a1v = pool.vals()[arg1.index as int];
    let ghost a2v = pool.vals()[arg2.index as int];
    let copy = pool.shallow_copy(arg1);
    let result = pool.wrap_in_array_if_needed(copy, ArrayFlags { sequence: true });
    if result.index != copy.index {
        // the wrapper retained the copy: hand our own reference over
        pool.release(copy);
    }
    proof {
        assert(pool.vals()[result.index as int] == Val::Arr(wrap_elems(a1v), wrap_flag(a1v, true)));
        assert(pool.unreferenced(result.index as int));
        assert(result.index >= oldp.vals().len());
        assert(pool.vals()[arg2.index as int] == a2v);
        assert(pool.refs_of(result.index as int) == (if a1v is Arr {
            oldp.refs_of(arg1.index as int)
        } else {
            seq![oldp.vals().len() as int]
        }));
        assert(pool.refs_of(arg2.index as int) == oldp.refs_of(arg2.index as int));
    }
    let ghost mid = *pool;
    let ghost whandles = pool.refs_of(result.index as int);
    if pool.is_array(arg2) {
        let ghost belems = arr_elems(a2v);
        let ghost bhandles = mid.refs_of(arg2.index as int);
        let n = pool.array_len(arg2);
        let mut i: usize = 0;
        while i < n
            invariant
                i <= n,
                pool.wf(),
                pool.extends(oldp),
                mid.extends(oldp),
                result.index >= oldp.vals().len(),
                pool.vals().len() == mid.vals().len(),
                result.index < pool.vals().len(),
                arg2.index < mid.vals().len(),
                arg2.index != result.index,
                pool.vals()[arg2.index as int] == a2v,
                n == belems.len(),
                belems == arr_elems(a2v),
                a2v is Arr,
                pool.unreferenced(result.index as int),
                pool.vals()[result.index as int] == Val::Arr(
                    wrap_elems(a1v) + belems.take(i as int),
                    wrap_flag(a1v, true),
                ),
                n == bhandles.len(),
                pool.refs_of(arg2.index as int) == bhandles,
                pool.refs_of(result.index as int) == whandles + bhandles.take(i as int),
                forall|j: int|
                    0 <= j < pool.vals().len() && j != result.index ==> pool.vals()[j]
                        == #[trigger] mid.vals()[j],
            decreases n - i,
        {
            let m = pool.get_member(arg2, i);
            pool.push_index(result, m);
            proof {
                assert(wrap_elems(a1v) + belems.take(i as int + 1) =~= (wrap_elems(a1v)
                    + belems.take(i as int)).push(belems[i as int]));
                assert(whandles + bhandles.take(i as int + 1) =~= (whandles + bhandles.take(
                    i as int,
                )).push(bhandles[i as int]));
            }
            i += 1;
        }
        proof {
            assert(belems.take(n as int) =~= belems);
            assert(bhandles.take(n as int) =~= bhandles);
            assert(spec_append(a1v, a2v) == Val::Arr(
                wrap_elems(a1v) + wrap_elems(a2v),
                wrap_flag(a1v, true),
            ));
        }
        Ok(result)
    } else {
        pool.push_index(result, arg2);
        proof {
            assert(wrap_elems(a1v).push(a2v) =~= wrap_elems(a1v) + wrap_elems(a2v));
            assert(whandles.push(arg2.index as int) =~= whandles + seq![arg2.index as int]);
        }
        Ok(result)
    }
}

/// Path-navigation primitive over an already-extracted key: the entry for
/// the key on an object; on an array, the recursive lookup of every member,
/// flattened one level into a fresh sequence-flagged array, order preserved,
/// with `Undefined` results contributing nothing; `Undefined` on any other
/// input.
pub fn fn_lookup_internal<E: Evaluator>(
    context: &FunctionContext<E>,
    pool: &mut ValuePool,
    input: Value,
    key: &str,
) -> (r: Value)
    requires
        old(pool).wf(),
        input.index < old(pool).vals().len(),
    ensures
        final(pool).wf(),
        final(pool).extends(*old(pool)),
        forall|h: int|
            0 <= h < old(pool).vals().len()
                ==> final(pool).unreferenced(h) == old(pool).unreferenced(h),
        r.index < final(pool).vals().len(),
        final(pool).vals()[r.index as int] == spec_lookup(
            old(pool).vals()[input.index as int],
            key@,
        ),
        r.index >= old(pool).vals().len()
            ==> final(pool).vals()[r.index as int] is Arr
                && final(pool).unreferenced(r.index as int),
        r.index < old(pool).vals().len()
            ==> !old(pool).unreferenced(r.index as int)
                || final(pool).vals()[r.index as int] is Undefined,
        !(old(pool).vals()[input.index as int] is Arr) ==> final(pool).vals() == old(pool).vals(),
    decreases old(pool).vals()[input.index as int],
{
    let ghost oldp = *pool;
    if pool.is_array(input) {
        let ghost elems = arr_elems(oldp.vals()[input.index as int]);
        let result = pool.array_with_flags(ArrayFlags { sequence: true });
        let n = pool.array_len(input);
        let mut i: usize = 0;
        while i < n
            invariant
                i <= n,
                pool.wf(),
                pool.extends(oldp),
                *old(pool) == oldp,
                forall|h: int|
                    0 <= h < oldp.vals().len() ==> pool.unreferenced(h) == oldp.unreferenced(h),
                input.index < oldp.vals().len(),
                oldp.vals()[input.index as int] is Arr,
                pool.vals()[input.index as int] == oldp.vals()[input.index as int],
                elems == arr_elems(oldp.vals()[input.index as int]),
                n == elems.len(),
                result.index == oldp.vals().len(),
                result.index < pool.vals().len(),
                pool.unreferenced(result.index as int),
                pool.vals()[result.index as int] == Val::Arr(
                    lookup_elems(elems, key@, i as int),
                    true,
                ),
            decreases n - i,
        {
            let m = pool.get_member(input, i);
            proof {
                assert(decreases_to!(
                    old(pool).vals()[input.index as int] => pool.vals()[m.index as int]
                ));
            }
            let ghost before = *pool;
            let res = fn_lookup_internal(context, pool, m, key);
            let ghost resv = pool.vals()[res.index as int];
            proof {
                assert(resv == spec_lookup(elems[i as int], key@));
                assert(res.index != result.index) by {
                    if res.index >= before.vals().len() {
                        assert(result.index < before.vals().len());
                    } else {
                        assert(before.unreferenced(result.index as int));
                        assert(!before.unreferenced(res.index as int) || resv is Undefined);
                    }
                }
            }
            if pool.is_undefined(res) {
                proof {
                    assert(lookup_contrib(resv) =~= Seq::<Val>::empty());
                    assert(lookup_elems(elems, key@, i as int + 1) =~= lookup_elems(
                        elems,
                        key@,
                        i as int,
                    ) + lookup_contrib(resv));
                    assert(lookup_elems(elems, key@, i as int + 1) =~= lookup_elems(
                        elems,
                        key@,
                        i as int,
                    ));
                }
            } else if pool.is_array(res) {
                let ghost res_elems = arr_elems(resv);
                let ghost loop_start = *pool;
                let k = pool.array_len(res);
                let mut j: usize = 0;
                while j < k
                    invariant
                        j <= k,
                        pool.wf(),
                        res.index < pool.vals().len(),
                        result.index < pool.vals().len(),
                        res.index != result.index,
                        pool.vals().len() == loop_start.vals().len(),
                        forall|h: int|
                            0 <= h < loop_start.vals().len() && h != result.index
                                ==> pool.vals()[h] == #[trigger] loop_start.vals()[h],
                        forall|h: int|
                            0 <= h < loop_start.vals().len() ==> pool.unreferenced(h)
                                == loop_start.unreferenced(h),
                        pool.vals()[res.index as int] == resv,
                        resv is Arr,
                        res_elems == arr_elems(resv),
                        k == res_elems.len(),
                        pool.unreferenced(result.index as int),
                        pool.vals()[result.index as int] == Val::Arr(
                            lookup_elems(elems, key@, i as int) + res_elems.take(j as int),
                            true,
                        ),
                    decreases k - j,
                {
                    let c = pool.get_member(res, j);
                    pool.push_index(result, c);
                    proof {
                        assert(lookup_elems(elems, key@, i as int) + res_elems.take(j as int + 1)
                            =~= (lookup_elems(elems, key@, i as int) + res_elems.take(j as int)).push(
                            res_elems[j as int],
                        ));
                    }
                    j += 1;
                }
                proof {
                    assert(res_elems.take(k as int) =~= res_elems);
                    assert(lookup_contrib(resv) == res_elems);
                    assert(lookup_elems(elems, key@, i as int + 1) == lookup_elems(
                        elems,
                        key@,
                        i as int,
                    ) + lookup_contrib(resv));
                }
            } else {
                pool.push_index(result, res);
                proof {
                    assert(lookup_contrib(resv) =~= seq![resv]);
                    assert((lookup_elems(elems, key@, i as int)).push(resv) =~= lookup_elems(
                        elems,
                        key@,
                        i as int,
                    ) + lookup_contrib(resv));
                }
            }
            pool.release(res);
            i += 1;
        }
        proof {
            assert(lookup_elems(elems, key@, n as int) == lookup_elems(
                elems,
                key@,
                elems.len() as int,
            ));
        }
        result
    } else if pool.is_object(input) {
        let e = pool.get_entry(input, key);
        pool.retain(e);
        e
    } else {
        pool.undefined()
    }
}

/// Path-navigation built-in: extracts the key text from a string value and
/// delegates to the recursive lookup.  A non-string key is rejected as an
/// invalid argument kind.
pub fn fn_lookup<E: Evaluator>(
    context: &FunctionContext<E>,
    pool: &mut ValuePool,
    input: Value,
    key: Value,
) -> (r: Result<Value, Error>)
    requires
        old(pool).wf(),
        input.index < old(pool).vals().len(),
        key.index < old(pool).vals().len(),
    ensures
        final(pool).wf(),
        final(pool).extends(*old(pool)),
        old(pool).vals()[key.index as int] is Str ==> (r matches Ok(v)
            && v.index < final(pool).vals().len() && final(pool).vals()[v.index as int]
            == spec_lookup(
            old(pool).vals()[input.index as int],
            str_text(old(pool).vals()[key.index as int]),
        )),
        !(old(pool).vals()[key.index as int] is Str) ==> r == Err::<Value, Error>(
            Error::InvalidArgumentKind,
        ),
{
    if !pool.is_string(key) {
        return Err(Error::InvalidArgumentKind);
    }
    let ks = pool.as_string(key);
    let r = fn_lookup_internal(context, pool, input, ks.as_str());
    Ok(r)
}

/// Selection primitive: keeps exactly the members the predicate accepts, in
/// their original order, in a fresh sequence-flagged array.  The predicate
/// receives the member, plus the zero-based index when its arity is at
/// least 2, plus the whole input array when its arity is at least 3.
/// `Undefined` input passes through; a defined non-array input or a
/// non-function predicate is an invalid argument kind; a failure raised by
/// the predicate propagates unchanged.
pub fn fn_filter<E: Evaluator>(
    context: &FunctionContext<E>,
    pool: &mut ValuePool,
    arr: Value,
    func: Value,
) -> (r: Result<Value, Error>)
    requires
        old(pool).wf(),
        arr.index < old(pool).vals().len(),
        func.index < old(pool).vals().len(),
        context.input.index < old(pool).vals().len(),
    ensures
        final(pool).wf(),
        final(pool).extends(*old(pool)),
        old(pool).vals()[arr.index as int] is Undefined ==> (r matches Ok(v)
            && v.index < final(pool).vals().len()
            && final(pool).vals()[v.index as int] is Undefined
            && final(pool).vals() == old(pool).vals()),
        !(old(pool).vals()[arr.index as int] is Undefined)
            && (!(old(pool).vals()[arr.index as int] is Arr)
                || !is_function_val(old(pool).vals()[func.index as int]))
            ==> r == Err::<Value, Error>(Error::InvalidArgumentKind)
                && final(pool).vals() == old(pool).vals(),
        old(pool).vals()[arr.index as int] is Arr
            && is_function_val(old(pool).vals()[func.index as int])
            && arr_elems(old(pool).vals()[arr.index as int]).len() == 0 ==> r is Ok,
        old(pool).vals()[arr.index as int] is Arr
            && is_function_val(old(pool).vals()[func.index as int])
            ==> (r matches Ok(v) ==> v.index >= old(pool).vals().len()
                && v.index < final(pool).vals().len()
                && final(pool).vals()[v.index as int] == Val::Arr(
                    arr_elems(final(pool).vals()[v.index as int]),
                    true,
                )
                && is_subsequence(
                    arr_elems(final(pool).vals()[v.index as int]),
                    arr_elems(old(pool).vals()[arr.index as int]),
                )
                && (exists|evs: Seq<Val>|
                    evs.len() == arr_elems(old(pool).vals()[arr.index as int]).len()
                        && filter_selects(
                        arr_elems(final(pool).vals()[v.index as int]),
                        arr_elems(old(pool).vals()[arr.index as int]),
                        evs,
                    ))),
{
    if pool.is_undefined(arr) {
        let u = pool.undefined();
        return Ok(u);
    }
    if !pool.is_array(arr) || !pool.is_function(func) {
        return Err(Error::InvalidArgumentKind);
    }
    let ghost oldp = *pool;
    let ghost elems = arr_elems(oldp.vals()[arr.index as int]);
    let result = pool.array_with_flags(ArrayFlags { sequence: true });
    let n = pool.array_len(arr);
    let arity = pool.arity(func);
    let ghost mut kept: Seq<int> = Seq::empty();
    let ghost mut evs: Seq<Val> = Seq::empty();
    proof {
        assert(kept.map_values(|q: int| elems[q]) =~= Seq::<Val>::empty());
    }
    let mut i: usize = 0;
    while i < n
        invariant
            i <= n,
            pool.wf(),
            pool.extends(oldp),
            *old(pool) == oldp,
            arr.index < oldp.vals().len(),
            func.index < oldp.vals().len(),
            context.input.index < oldp.vals().len(),
            pool.vals()[arr.index as int] == oldp.vals()[arr.index as int],
            oldp.vals()[arr.index as int] is Arr,
            is_function_val(oldp.vals()[func.index as int]),
            elems == arr_elems(oldp.vals()[arr.index as int]),
            n == elems.len(),
            result.index == oldp.vals().len(),
            result.index < pool.vals().len(),
            pool.unreferenced(result.index as int),
            pool.vals()[result.index as int] == Val::Arr(
                kept.map_values(|q: int| elems[q]),
                true,
            ),
            forall|q: int| 0 <= q < kept.len() ==> 0 <= #[trigger] kept[q] < i,
            forall|q: int| 0 <= q < kept.len() - 1 ==> #[trigger] kept[q] < kept[q + 1],
            evs.len() == i,
            forall|q: int|
                0 <= q < i ==> (#[trigger] kept.contains(q) <==> spec_boolean(evs[q]) == Val::Bool(
                    true,
                )),
        decreases n - i,
    {
        let item = pool.get_member(arr, i);
        proof {
            assert(item.index != result.index);
            assert(pool.vals()[item.index as int] == elems[i as int]);
        }
        let args = pool.array_with_flags(ArrayFlags { sequence: false });
        proof {
            assert(args.index >= oldp.vals().len());
            assert(args.index != result.index);
        }
        pool.push_index(args, item);
        let index_arg = pool.number(i as i128);
        proof {
            assert(args.index != index_arg.index);
            assert(index_arg.index >= oldp.vals().len());
            assert(pool.unreferenced(args.index as int));
        }
        if arity >= 2 {
            pool.push_index(args, index_arg);
        }
        if arity >= 3 {
            pool.push_index(args, arr);
        }
        let ghost pre_eval = *pool;
        proof {
            assert(pre_eval.extends(oldp));
            assert(pre_eval.vals()[result.index as int] == Val::Arr(
                kept.map_values(|q: int| elems[q]),
                true,
            ));
            assert(item.index < pre_eval.vals().len());
            assert(pre_eval.vals()[item.index as int] == elems[i as int]);
        }
        let ev = match context.evaluate_function(pool, func, args) {
            Ok(v) => v,
            Err(e) => {
                pool.release(args);
                pool.release(index_arg);
                proof {
                    ValuePool::lemma_extends_trans(oldp, pre_eval, *pool);
                }
                return Err(e);
            },
        };
        let ghost evval = pool.vals()[ev.index as int];
        let bres = match fn_boolean(context, pool, ev) {
            Ok(v) => v,
            Err(e) => {
                return Err(e);
            },
        };
        let keep_it = pool.as_bool(bres);
        pool.release(bres);
        pool.release(ev);
        pool.release(args);
        pool.release(index_arg);
        proof {
            ValuePool::lemma_extends_trans(oldp, pre_eval, *pool);
            assert(pool.vals()[result.index as int] == pre_eval.vals()[result.index as int]);
            assert(pool.vals()[item.index as int] == elems[i as int]);
        }
        proof {
            assert(keep_it == (spec_boolean(evval) == Val::Bool(true)));
        }
        if keep_it {
            pool.push_index(result, item);
            proof {
                let ghost prev = kept;
                kept = kept.push(i as int);
                assert(kept.map_values(|q: int| elems[q]) =~= prev.map_values(
                    |q: int| elems[q],
                ).push(elems[i as int]));
                assert forall|q: int| 0 <= q < i implies #[trigger] kept.contains(q)
                    == prev.contains(q) by {
                    if kept.contains(q) {
                        let w = choose|w: int| 0 <= w < kept.len() && kept[w] == q;
                        assert(w < prev.len());
                        assert(prev[w] == q);
                    }
                    if prev.contains(q) {
                        let w = choose|w: int| 0 <= w < prev.len() && prev[w] == q;
                        assert(kept[w] == q);
                    }
                }
                assert(kept[kept.len() - 1] == i as int);
                assert(kept.contains(i as int));
            }
        } else {
            proof {
                assert(!kept.contains(i as int)) by {
                    if kept.contains(i as int) {
                        let w = choose|w: int| 0 <= w < kept.len() && kept[w] == i as int;
                        assert(kept[w] < i);
                    }
                }
            }
        }
        proof {
            evs = evs.push(evval);
            assert forall|q: int| 0 <= q < i + 1 implies (#[trigger] kept.contains(q)
                <==> spec_boolean(evs[q]) == Val::Bool(true)) by {
                if q < i {
                    assert(evs[q] == evs.subrange(0, i as int)[q]);
                }
            }
        }
        i += 1;
    }
    proof {
        let sub = kept.map_values(|q: int| elems[q]);
        assert(is_ordered_selection(sub, elems, kept));
        assert(is_subsequence(sub, elems));
        assert(filter_selects(sub, elems, evs));
        assert(arr_elems(pool.vals()[result.index as int]) == sub);
    }
    Ok(result)
}

/// String cast.  `Undefined` and strings pass through by identity (the same
/// handle, retained — no reallocation); a function value casts to the empty
/// string; every other value is serialized to its canonical single-line
/// textual form.
pub fn fn_string<E: Evaluator>(
    context: &FunctionContext<E>,
    pool: &mut ValuePool,
    arg: Value,
) -> (r: Result<Value, Error>)
    requires
        old(pool).wf(),
        arg.index < old(pool).vals().len(),
    ensures
        final(pool).wf(),
        final(pool).extends(*old(pool)),
        r is Ok,
        old(pool).vals()[arg.index as int] is Undefined
            || old(pool).vals()[arg.index as int] is Str ==> (r matches Ok(v) && v == arg
            && final(pool).vals() == old(pool).vals()
            && final(pool).live() == old(pool).live() + (if old(pool).rc_of(
                arg.index as int,
            ) > 0 {
                0int
            } else {
                1int
            })),
        !(old(pool).vals()[arg.index as int] is Undefined)
            && !(old(pool).vals()[arg.index as int] is Str)
            ==> final(pool).live() == old(pool).live() + 1,
        !(old(pool).vals()[arg.index as int] is Undefined)
            && !(old(pool).vals()[arg.index as int] is Str)
            && is_function_val(old(pool).vals()[arg.index as int])
            ==> (r matches Ok(v) && v.index == old(pool).vals().len()
                && final(pool).vals() == old(pool).vals().push(Val::Str(Seq::empty()))),
        !(old(pool).vals()[arg.index as int] is Undefined)
            && !(old(pool).vals()[arg.index as int] is Str)
            && !is_function_val(old(pool).vals()[arg.index as int])
            ==> (r matches Ok(v) && v.index == old(pool).vals().len()
                && final(pool).vals() == old(pool).vals().push(
                    Val::Str(dump_spec(old(pool).vals()[arg.index as int])),
                )),
{
    if pool.is_undefined(arg) {
        pool.retain(arg);
        return Ok(arg);
    }
    if pool.is_string(arg) {
        pool.retain(arg);
        return Ok(arg);
    }
    if pool.is_function(arg) {
        let s = pool.string("");
        proof {
            reveal_strlit("");
            assert(""@ =~= Seq::<char>::empty());
        }
        Ok(s)
    } else {
        let text = crate::serialize::dump(pool, arg);
        let s = pool.string(text.as_str());
        Ok(s)
    }
}

} // verus!
