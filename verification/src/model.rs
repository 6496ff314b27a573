//! Mathematical model of values and of the built-in functions' semantics.
//!
//! `Val` is a finite tree: what a value *is*, independent of the arena node
//! that stores it.  The spec functions here give the exact meaning of each
//! built-in; the executable code in `functions` is proved against them.

use vstd::prelude::*;

verus! {

broadcast use vstd::seq::axiom_seq_index_decreases;

/// Model of one value.  An array carries its sequence flag (`true` when the
/// array is the flattened result of a path expression); a lambda carries its
/// parameter count and an opaque body id; a native function carries its arity
/// and an opaque dispatch id.
pub enum Val {
    Undefined,
    Null,
    Bool(bool),
    Num(int),
    Str(Seq<char>),
    Obj(Seq<(Seq<char>, Val)>),
    Arr(Seq<Val>, bool),
    Lambda(nat, nat),
    Native(nat, nat),
}

/// A function-kind value: lambdas and native functions of any arity.
pub open spec fn is_function_val(v: Val) -> bool {
    match v {
        Val::Lambda(_, _) => true,
        Val::Native(_, _) => true,
        _ => false,
    }
}

/// Declared arity of a function-kind value (0 for anything else).
pub open spec fn arity_of(v: Val) -> nat {
    match v {
        Val::Lambda(params, _) => params,
        Val::Native(arity, _) => arity,
        _ => 0,
    }
}

/// Members of an array value (empty for anything else).
pub open spec fn arr_elems(v: Val) -> Seq<Val> {
    match v {
        Val::Arr(elems, _) => elems,
        _ => Seq::empty(),
    }
}

/// Sequence flag of an array value (false for anything else).
pub open spec fn arr_flag(v: Val) -> bool {
    match v {
        Val::Arr(_, fl) => fl,
        _ => false,
    }
}

/// Entry list of an object value (empty for anything else).
pub open spec fn obj_entries(v: Val) -> Seq<(Seq<char>, Val)> {
    match v {
        Val::Obj(entries) => entries,
        _ => Seq::empty(),
    }
}

pub open spec fn obj_has_key(entries: Seq<(Seq<char>, Val)>, key: Seq<char>) -> bool {
    exists|i: int| 0 <= i < entries.len() && entries[i].0 == key
}

/// Text of a string value (empty for anything else).
pub open spec fn str_text(v: Val) -> Seq<char> {
    match v {
        Val::Str(s) => s,
        _ => Seq::empty(),
    }
}

/// Truthiness cast.  `Undefined` propagates; an empty array is false, a
/// singleton array casts as its member, a longer array is true when any
/// member casts to true; functions are never truthy.
pub open spec fn spec_boolean(v: Val) -> Val
    decreases v,
{
    match v {
        Val::Undefined => Val::Undefined,
        Val::Null => Val::Bool(false),
        Val::Bool(b) => Val::Bool(b),
        Val::Num(n) => Val::Bool(n != 0),
        Val::Str(s) => Val::Bool(s.len() > 0),
        Val::Obj(entries) => Val::Bool(entries.len() > 0),
        Val::Arr(elems, _) => {
            if elems.len() == 0 {
                Val::Bool(false)
            } else if elems.len() == 1 {
                spec_boolean(elems[0])
            } else {
                Val::Bool(
                    exists|i: int|
                        0 <= i < elems.len() && spec_boolean(elems[i]) == Val::Bool(true),
                )
            }
        },
        Val::Lambda(_, _) => Val::Bool(false),
        Val::Native(_, _) => Val::Bool(false),
    }
}

/// The boolean cast only ever yields a boolean or `Undefined`.
pub proof fn lemma_spec_boolean_shape(v: Val)
    ensures
        spec_boolean(v) is Bool || spec_boolean(v) is Undefined,
    decreases v,
{
    match v {
        Val::Arr(elems, _) => {
            if elems.len() == 1 {
                lemma_spec_boolean_shape(elems[0]);
            }
        },
        _ => {},
    }
}

/// Member count: 0 for `Undefined`, the length for an array, 1 otherwise.
pub open spec fn spec_count(v: Val) -> int {
    match v {
        Val::Undefined => 0,
        Val::Arr(elems, _) => elems.len() as int,
        _ => 1,
    }
}

/// Members after coercing a value to an array: an array keeps its members,
/// any other value becomes a singleton.
pub open spec fn wrap_elems(v: Val) -> Seq<Val> {
    match v {
        Val::Arr(elems, _) => elems,
        _ => seq![v],
    }
}

/// Sequence flag after coercing to an array: an array keeps its own flag,
/// a wrapped scalar takes the given one.
pub open spec fn wrap_flag(v: Val, flag: bool) -> bool {
    match v {
        Val::Arr(_, fl) => fl,
        _ => flag,
    }
}

/// Concatenation with absorbing `Undefined`: either side absent yields the
/// other unchanged; otherwise both sides are coerced to arrays and the
/// members concatenated, `a`'s first.
pub open spec fn spec_append(a: Val, b: Val) -> Val {
    if a is Undefined {
        b
    } else if b is Undefined {
        a
    } else {
        Val::Arr(wrap_elems(a) + wrap_elems(b), wrap_flag(a, true))
    }
}

/// First entry for `key` in an object's entry list, `Undefined` when absent.
pub open spec fn spec_entry(entries: Seq<(Seq<char>, Val)>, key: Seq<char>) -> Val
    decreases entries.len(),
{
    if entries.len() == 0 {
        Val::Undefined
    } else if entries[0].0 == key {
        entries[0].1
    } else {
        spec_entry(entries.drop_first(), key)
    }
}

/// Entries that were already scanned without matching do not change the
/// result of an object lookup.
pub proof fn lemma_spec_entry_skip(entries: Seq<(Seq<char>, Val)>, key: Seq<char>, i: int)
    requires
        0 <= i <= entries.len(),
        forall|j: int| 0 <= j < i ==> (#[trigger] entries[j]).0 != key,
    ensures
        spec_entry(entries.skip(i), key) == spec_entry(entries, key),
    decreases i,
{
    if i == 0 {
        assert(entries.skip(0) =~= entries);
    } else {
        assert(entries.len() > 0);
        assert(entries[0].0 != key);
        let tail = entries.drop_first();
        assert(spec_entry(entries, key) == spec_entry(tail, key));
        assert forall|j: int| 0 <= j < i - 1 implies (#[trigger] tail[j]).0 != key by {
            assert(tail[j] == entries[j + 1]);
        }
        lemma_spec_entry_skip(tail, key, i - 1);
        assert(tail.skip(i - 1) =~= entries.skip(i));
    }
}

/// Contribution of one member's recursive lookup result to the flattened
/// output: `Undefined` contributes nothing, an array contributes its members
/// (one level of flattening), anything else contributes itself.
pub open spec fn lookup_contrib(r: Val) -> Seq<Val> {
    match r {
        Val::Undefined => Seq::empty(),
        Val::Arr(elems, _) => elems,
        _ => seq![r],
    }
}

/// Flattened lookup results of the first `n` members of `s`, in order.
pub open spec fn lookup_elems(s: Seq<Val>, key: Seq<char>, n: int) -> Seq<Val>
    decreases s, n,
{
    if n <= 0 || n > s.len() {
        Seq::empty()
    } else {
        lookup_elems(s, key, n - 1) + lookup_contrib(spec_lookup(s[n - 1], key))
    }
}

/// Path-navigation primitive: the entry for `key` on an object, an
/// auto-mapped and one-level-flattened sequence on an array, `Undefined` on
/// any other value.
pub open spec fn spec_lookup(v: Val, key: Seq<char>) -> Val
    decreases v, 0int,
{
    match v {
        Val::Obj(entries) => spec_entry(entries, key),
        Val::Arr(elems, _) => Val::Arr(lookup_elems(elems, key, elems.len() as int), true),
        _ => Val::Undefined,
    }
}

/// `sub` selects members of `s` in strictly increasing positions: the shape
/// of every filter result (kept members only, relative order preserved).
pub open spec fn is_ordered_selection(sub: Seq<Val>, s: Seq<Val>, idx: Seq<int>) -> bool {
    &&& idx.len() == sub.len()
    &&& forall|k: int| 0 <= k < idx.len() ==> 0 <= #[trigger] idx[k] < s.len()
    &&& forall|k: int| 0 <= k < idx.len() ==> sub[k] == s[#[trigger] idx[k]]
    &&& forall|k: int| 0 <= k < idx.len() - 1 ==> #[trigger] idx[k] < idx[k + 1]
}

pub open spec fn is_subsequence(sub: Seq<Val>, s: Seq<Val>) -> bool {
    exists|idx: Seq<int>| is_ordered_selection(sub, s, idx)
}

/// `sub` holds, in order, exactly the members of `s` whose predicate result
/// (in `evs`, one per member) casts to `true`.
pub open spec fn filter_selects(sub: Seq<Val>, s: Seq<Val>, evs: Seq<Val>) -> bool {
    exists|idx: Seq<int>|
        is_ordered_selection(sub, s, idx) && (forall|i: int|
            0 <= i < s.len() ==> (#[trigger] idx.contains(i) <==> spec_boolean(evs[i]) == Val::Bool(
                true,
            )))
}

/// The decimal digit characters of `n`, most significant first.
pub open spec fn dec_digits(n: nat) -> Seq<char>
    decreases n,
{
    if n < 10 {
        seq![digit_char(n)]
    } else {
        dec_digits(n / 10).push(digit_char(n % 10))
    }
}

pub open spec fn digit_char(d: nat) -> char {
    if d == 0 {
        '0'
    } else if d == 1 {
        '1'
    } else if d == 2 {
        '2'
    } else if d == 3 {
        '3'
    } else if d == 4 {
        '4'
    } else if d == 5 {
        '5'
    } else if d == 6 {
        '6'
    } else if d == 7 {
        '7'
    } else if d == 8 {
        '8'
    } else {
        '9'
    }
}

/// Canonical decimal text of an integer.
pub open spec fn dec_str(n: int) -> Seq<char> {
    if n < 0 {
        seq!['-'] + dec_digits((-n) as nat)
    } else {
        dec_digits(n as nat)
    }
}

/// Escaping inside a serialized string: quote and backslash get a backslash,
/// every other character stands as itself.
pub open spec fn escape_char(c: char) -> Seq<char> {
    if c == '"' {
        seq!['\\', '"']
    } else if c == '\\' {
        seq!['\\', '\\']
    } else {
        seq![c]
    }
}

/// Escaped form of the first `n` characters of `s`.
pub open spec fn escape_str(s: Seq<char>, n: int) -> Seq<char>
    decreases n,
{
    if n <= 0 {
        Seq::empty()
    } else {
        escape_str(s, n - 1) + escape_char(s[n - 1])
    }
}

/// Canonical single-line textual form of a value, as the `string` built-in
/// serializes it.  `Undefined` never reaches serialization (the built-in
/// passes it through); a function nested inside a container serializes as an
/// empty string literal.
pub open spec fn dump_spec(v: Val) -> Seq<char>
    decreases v, 0int,
{
    match v {
        Val::Undefined => Seq::empty(),
        Val::Null => seq!['n', 'u', 'l', 'l'],
        Val::Bool(b) => if b {
            seq!['t', 'r', 'u', 'e']
        } else {
            seq!['f', 'a', 'l', 's', 'e']
        },
        Val::Num(n) => dec_str(n),
        Val::Str(s) => seq!['"'] + escape_str(s, s.len() as int) + seq!['"'],
        Val::Obj(entries) => seq!['{'] + dump_entries(entries, entries.len() as int) + seq!['}'],
        Val::Arr(elems, _) => seq!['['] + dump_elems(elems, elems.len() as int) + seq![']'],
        Val::Lambda(_, _) => seq!['"', '"'],
        Val::Native(_, _) => seq!['"', '"'],
    }
}

/// Serialized forms of the first `n` members of `s`, comma-separated.
pub open spec fn dump_elems(s: Seq<Val>, n: int) -> Seq<char>
    decreases s, n,
{
    if n <= 0 || n > s.len() {
        Seq::empty()
    } else if n == 1 {
        dump_spec(s[0])
    } else {
        dump_elems(s, n - 1) + seq![','] + dump_spec(s[n - 1])
    }
}

/// Serialized forms of the first `n` entries of an object, comma-separated,
/// each as a quoted escaped key, a colon, and the serialized value.
pub open spec fn dump_entries(entries: Seq<(Seq<char>, Val)>, n: int) -> Seq<char>
    decreases entries, n,
{
    if n <= 0 || n > entries.len() {
        Seq::empty()
    } else if n == 1 {
        dump_one_entry(entries[0])
    } else {
        dump_entries(entries, n - 1) + seq![','] + dump_one_entry(entries[n - 1])
    }
}

pub open spec fn dump_one_entry(entry: (Seq<char>, Val)) -> Seq<char>
    decreases entry, 0int,
{
    seq!['"'] + escape_str(entry.0, entry.0.len() as int) + seq!['"', ':'] + dump_spec(entry.1)
}

} // verus!
