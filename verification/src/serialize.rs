//! Canonical single-line textual form of a value, as the `string` built-in
//! serializes it: JSON-like, with minimal escaping (quote and backslash)
//! and decimal numbers.

use vstd::prelude::*;
use vstd::string::StrSliceExecFns;
use vstd::string::StringExecFns;
use crate::model::{Val, dump_spec, dump_elems, dump_entries, dump_one_entry, dec_str, dec_digits,
    digit_char, escape_str, escape_char, arr_elems, obj_entries};
use crate::pool::{ValuePool, Value};

verus! {

broadcast use vstd::seq::axiom_seq_index_decreases;

/// Relies on `String::push`: appends exactly the given character to the end
/// of the string.
#[verifier::external_body]
fn push_char(out: &mut String, c: char)
    ensures
        final(out)@ == old(out)@.push(c),
{
    out.push(c);
}

fn push_digits(x: u128, out: &mut String)
    ensures
        final(out)@ == old(out)@ + dec_digits(x as nat),
    decreases x,
{
    if x >= 10 {
        push_digits(x / 10, out);
    }
    let d: u8 = (x % 10) as u8;
    let c: char = if d == 0 {
        '0'
    } else if d == 1 {
        '1'
    } else if d == 2 {
        '2'
    } else if d == 3 {
        '3'
    } else if d == 4 {
        '4'
    } else if d == 5 {
        '5'
    } else if d == 6 {
        '6'
    } else if d == 7 {
        '7'
    } else if d == 8 {
        '8'
    } else {
        '9'
    };
    push_char(out, c);
    proof {
        assert(c == digit_char((x as nat) % 10));
        if x < 10 {
            assert(dec_digits(x as nat) =~= seq![digit_char(x as nat)]);
            assert(old(out)@ + dec_digits(x as nat) =~= old(out)@.push(c));
        } else {
            assert(dec_digits(x as nat) == dec_digits((x as nat) / 10).push(
                digit_char((x as nat) % 10),
            ));
            assert(old(out)@ + dec_digits(x as nat) =~= (old(out)@ + dec_digits(
                (x as nat) / 10,
            )).push(c));
        }
    }
}

fn push_number(n: i128, out: &mut String)
    ensures
        final(out)@ == old(out)@ + dec_str(n as int),
{
    if n < 0 {
        push_char(out, '-');
        let m: u128 = ((-(n + 1)) as u128) + 1;
        proof {
            assert(m as nat == (-(n as int)) as nat);
        }
        push_digits(m, out);
        proof {
            assert(old(out)@ + dec_str(n as int) =~= (old(out)@.push('-')) + dec_digits(
                m as nat,
            ));
        }
    } else {
        push_digits(n as u128, out);
    }
}

fn push_escaped(s: &str, out: &mut String)
    ensures
        final(out)@ == old(out)@ + escape_str(s@, s@.len() as int),
{
    let n = s.unicode_len();
    let mut i: usize = 0;
    while i < n
        invariant
            i <= n,
            n == s@.len(),
            out@ == old(out)@ + escape_str(s@, i as int),
        decreases n - i,
    {
        let c = s.get_char(i);
        if c == '"' {
            push_char(out, '\\');
            push_char(out, '"');
        } else if c == '\\' {
            push_char(out, '\\');
            push_char(out, '\\');
        } else {
            push_char(out, c);
        }
        proof {
            assert(escape_str(s@, i as int + 1) == escape_str(s@, i as int) + escape_char(
                s@[i as int],
            ));
            assert(out@ =~= old(out)@ + escape_str(s@, i as int + 1));
        }
        i += 1;
    }
    proof {
        assert(out@ == old(out)@ + escape_str(s@, n as int));
    }
}

fn push_value(pool: &ValuePool, v: Value, out: &mut String)
    requires
        pool.wf(),
        v.index < pool.vals().len(),
    ensures
        final(out)@ == old(out)@ + dump_spec(pool.vals()[v.index as int]),
    decreases pool.vals()[v.index as int],
{
    let ghost vv = pool.vals()[v.index as int];
    if pool.is_undefined(v) {
        proof {
            assert(old(out)@ + dump_spec(vv) =~= old(out)@);
        }
    } else if pool.is_null(v) {
        out.append("null");
        proof {
            reveal_strlit("null");
            assert("null"@ =~= dump_spec(vv));
        }
    } else if pool.is_number(v) {
        let x = pool.number_value(v);
        push_number(x, out);
    } else if pool.is_string(v) {
        let text = pool.as_string(v);
        push_char(out, '"');
        push_escaped(text.as_str(), out);
        push_char(out, '"');
        proof {
            assert(old(out)@ + dump_spec(vv) =~= ((old(out)@.push('"')) + escape_str(
                text@,
                text@.len() as int,
            )).push('"'));
        }
    } else if pool.is_function(v) {
        push_char(out, '"');
        push_char(out, '"');
        proof {
            assert(old(out)@ + dump_spec(vv) =~= old(out)@.push('"').push('"'));
        }
    } else if pool.is_array(v) {
        let ghost elems = arr_elems(vv);
        push_char(out, '[');
        let n = pool.array_len(v);
        let mut i: usize = 0;
        while i < n
            invariant
                i <= n,
                pool.wf(),
                v.index < pool.vals().len(),
                vv == pool.vals()[v.index as int],
                vv is Arr,
                elems == arr_elems(vv),
                n == elems.len(),
                out@ == old(out)@.push('[') + dump_elems(elems, i as int),
            decreases n - i,
        {
            if i > 0 {
                push_char(out, ',');
            }
            let m = pool.get_member(v, i);
            proof {
                assert(decreases_to!(pool.vals()[v.index as int] => pool.vals()[m.index as int]));
            }
            push_value(pool, m, out);
            proof {
                if i == 0 {
                    assert(dump_elems(elems, 1) == dump_spec(elems[0]));
                    assert(out@ =~= old(out)@.push('[') + dump_elems(elems, 1));
                } else {
                    assert(dump_elems(elems, i as int + 1) == dump_elems(elems, i as int) + seq![
                        ',',
                    ] + dump_spec(elems[i as int]));
                    assert(out@ =~= old(out)@.push('[') + dump_elems(elems, i as int + 1));
                }
            }
            i += 1;
        }
        push_char(out, ']');
        proof {
            assert(out@ =~= old(out)@ + dump_spec(vv));
        }
    } else if pool.is_object(v) {
        let ghost entries = obj_entries(vv);
        push_char(out, '{');
        let n = pool.object_len(v);
        let mut i: usize = 0;
        while i < n
            invariant
                i <= n,
                pool.wf(),
                v.index < pool.vals().len(),
                vv == pool.vals()[v.index as int],
                vv is Obj,
                entries == obj_entries(vv),
                n == entries.len(),
                out@ == old(out)@.push('{') + dump_entries(entries, i as int),
            decreases n - i,
        {
            if i > 0 {
                push_char(out, ',');
            }
            let ghost mark = out@;
            let k = pool.get_entry_key(v, i);
            push_char(out, '"');
            push_escaped(k.as_str(), out);
            push_char(out, '"');
            push_char(out, ':');
            let m = pool.get_entry_value(v, i);
            proof {
                assert(decreases_to!(pool.vals()[v.index as int] => pool.vals()[m.index as int]));
            }
            push_value(pool, m, out);
            proof {
                assert(out@ =~= mark + dump_one_entry(entries[i as int]));
                if i == 0 {
                    assert(dump_entries(entries, 1) == dump_one_entry(entries[0]));
                } else {
                    assert(dump_entries(entries, i as int + 1) == dump_entries(entries, i as int)
                        + seq![','] + dump_one_entry(entries[i as int]));
                }
                assert(out@ =~= old(out)@.push('{') + dump_entries(entries, i as int + 1));
            }
            i += 1;
        }
        push_char(out, '}');
        proof {
            assert(out@ =~= old(out)@ + dump_spec(vv));
        }
    } else {
        proof {
            assert(vv is Bool);
        }
        if pool.as_bool(v) {
            out.append("true");
            proof {
                reveal_strlit("true");
                assert("true"@ =~= dump_spec(vv));
            }
        } else {
            out.append("false");
            proof {
                assert(vv == Val::Bool(false));
                reveal_strlit("false");
                assert("false"@ =~= dump_spec(vv));
            }
        }
    }
}

/// Serialize the value behind `v` to its canonical single-line text.
pub fn dump(pool: &ValuePool, v: Value) -> (s: String)
    requires
        pool.wf(),
        v.index < pool.vals().len(),
    ensures
        s@ == dump_spec(pool.vals()[v.index as int]),
{
    let mut out = String::new();
    push_value(pool, v, &mut out);
    proof {
        assert(Seq::<char>::empty() + dump_spec(pool.vals()[v.index as int]) =~= dump_spec(
            pool.vals()[v.index as int],
        ));
    }
    out
}

} // verus!
