//! Laws of the built-in semantics, stated and proved at the model level.
//! The executable built-ins are tied to these spec functions by their own
//! contracts in `functions`.

use vstd::prelude::*;
use crate::model::{Val, spec_append, spec_boolean, spec_count, wrap_elems, wrap_flag, arr_elems,
    is_function_val, is_subsequence, is_ordered_selection};

verus! {

/// Appending `Undefined` on either side yields the other operand unchanged,
/// including when both sides are `Undefined`.
pub proof fn lemma_append_undefined(x: Val)
    ensures
        spec_append(Val::Undefined, x) == x,
        spec_append(x, Val::Undefined) == x,
{
}

/// When both operands are defined, the result is an array whose members are
/// exactly `a`'s members (after coercion to an array) followed by `b`'s, so
/// its length is the sum of the two coerced lengths and the order is `a`'s
/// elements first, then `b`'s.
pub proof fn lemma_append_members(a: Val, b: Val)
    requires
        !(a is Undefined),
        !(b is Undefined),
    ensures
        spec_append(a, b) == Val::Arr(wrap_elems(a) + wrap_elems(b), wrap_flag(a, true)),
        arr_elems(spec_append(a, b)).len() == wrap_elems(a).len() + wrap_elems(b).len(),
        forall|i: int|
            0 <= i < wrap_elems(a).len() ==> arr_elems(spec_append(a, b))[i] == #[trigger] wrap_elems(
                a,
            )[i],
        forall|i: int|
            0 <= i < wrap_elems(b).len() ==> arr_elems(spec_append(a, b))[wrap_elems(a).len() + i]
                == #[trigger] wrap_elems(b)[i],
{
}

/// The boolean cast propagates `Undefined`, maps the empty array to false,
/// and casts a singleton array exactly as its sole member — whatever flags
/// the array carries.
pub proof fn lemma_boolean_base(x: Val, fl: bool)
    ensures
        spec_boolean(Val::Undefined) == Val::Undefined,
        spec_boolean(Val::Arr(Seq::empty(), fl)) == Val::Bool(false),
        spec_boolean(Val::Arr(seq![x], fl)) == spec_boolean(x),
{
}

/// An array of two or more members casts to true exactly when some member
/// casts to true.
pub proof fn lemma_boolean_any(s: Seq<Val>, fl: bool)
    requires
        s.len() >= 2,
    ensures
        spec_boolean(Val::Arr(s, fl)) == Val::Bool(
            exists|i: int| 0 <= i < s.len() && spec_boolean(#[trigger] s[i]) == Val::Bool(true),
        ),
{
}

/// Function values are never truthy: an array holding only function values
/// casts to false.
pub proof fn lemma_boolean_functions_false(s: Seq<Val>, fl: bool)
    requires
        forall|i: int| 0 <= i < s.len() ==> is_function_val(#[trigger] s[i]),
    ensures
        spec_boolean(Val::Arr(s, fl)) == Val::Bool(false),
{
    if s.len() == 1 {
        assert(is_function_val(s[0]));
        assert(spec_boolean(s[0]) == Val::Bool(false)) by {
            if s[0] is Lambda {
            } else {
                assert(s[0] is Native);
            }
        }
    } else if s.len() >= 2 {
        assert forall|i: int| 0 <= i < s.len() implies spec_boolean(#[trigger] s[i]) != Val::Bool(
            true,
        ) by {
            assert(is_function_val(s[i]));
            if s[i] is Lambda {
            } else {
                assert(s[i] is Native);
            }
        }
    }
}

/// The member count is 0 for `Undefined`, the member count for an array,
/// and 1 for every other value.
pub proof fn lemma_count(v: Val)
    ensures
        v is Undefined ==> spec_count(v) == 0,
        v is Arr ==> spec_count(v) == arr_elems(v).len(),
        !(v is Undefined) && !(v is Arr) ==> spec_count(v) == 1,
{
}

/// The only order-preserving selection out of an empty array is empty: a
/// filter over an empty array returns an empty array.
pub proof fn lemma_subsequence_of_empty(sub: Seq<Val>)
    requires
        is_subsequence(sub, Seq::empty()),
    ensures
        sub == Seq::<Val>::empty(),
{
    let idx = choose|idx: Seq<int>| is_ordered_selection(sub, Seq::<Val>::empty(), idx);
    assert(is_ordered_selection(sub, Seq::<Val>::empty(), idx));
    if sub.len() > 0 {
        assert(idx.len() == sub.len());
        assert(0 <= idx[0] < Seq::<Val>::empty().len());
        assert(Seq::<Val>::empty().len() == 0);
    }
    assert(sub =~= Seq::<Val>::empty());
}

} // verus!
