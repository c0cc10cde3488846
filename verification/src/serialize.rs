//! The text serializer: a structured value walks depth-first back into
//! Flow syntax. Nested objects become block headers with two more spaces
//! of indentation per level; strings containing a space are quoted
//! verbatim (no escaping); null values are dropped. Array elements that
//! are themselves containers have no leaf syntax of their own: a nested
//! array is rendered in bracket form again, a nested object as `{}`.

use vstd::prelude::*;

use crate::chars::{chars_to_string, find_ch, to_char_vec};
use crate::numbers::int_repr;
use crate::scalar::{false_chars, true_chars};
use crate::value::{entries_deep, SpecValue, Value};

verus! {

broadcast use {
    vstd::std_specs::vec::axiom_vec_index_decreases,
    vstd::std_specs::vec::axiom_vec_decreases_to_view,
    vstd::seq::axiom_seq_index_decreases,
};

/// One array element in leaf syntax.
pub open spec fn render_elem(v: SpecValue) -> Seq<char>
    decreases v, 0int,
{
    match v {
        SpecValue::Null => seq!['n', 'u', 'l', 'l'],
        SpecValue::Bool(b) => if b {
            true_chars()
        } else {
            false_chars()
        },
        SpecValue::Int(i) => int_repr(i),
        SpecValue::Float(r) => r,
        SpecValue::Str(s) => if s.contains(' ') {
            seq!['"'] + s + seq!['"']
        } else {
            s
        },
        SpecValue::Array(a) => seq!['['] + join_elems(a) + seq![']'],
        SpecValue::Object(_) => seq!['{', '}'],
    }
}

/// Array elements joined by `, `.
pub open spec fn join_elems(a: Seq<SpecValue>) -> Seq<char>
    decreases a, 2int,
{
    if a.len() == 0 {
        Seq::empty()
    } else if a.len() == 1 {
        render_elem(a.last())
    } else {
        join_elems(a.drop_last()) + seq![',', ' '] + render_elem(a.last())
    }
}

/// The line or lines one entry contributes at indentation `pad`.
pub open spec fn render_entry(k: Seq<char>, v: SpecValue, pad: Seq<char>) -> Seq<char>
    decreases v, 1int,
{
    match v {
        SpecValue::Object(es) => pad + k + seq![':', '\n'] + render_entries(
            es,
            pad + seq![' ', ' '],
        ),
        SpecValue::Null => Seq::empty(),
        _ => pad + k + seq![' ', '=', ' '] + render_elem(v) + seq!['\n'],
    }
}

/// The text an object's entries contribute, in stored order.
pub open spec fn render_entries(es: Seq<(Seq<char>, SpecValue)>, pad: Seq<char>) -> Seq<char>
    decreases es, 0int,
{
    if es.len() == 0 {
        Seq::empty()
    } else {
        render_entries(es.drop_last(), pad) + render_entry(es.last().0, es.last().1, pad)
    }
}

/// The Flow text of a value: the lines of its entries for an object,
/// nothing for any other value.
pub open spec fn spec_stringify(v: SpecValue) -> Seq<char> {
    match v {
        SpecValue::Object(es) => render_entries(es, Seq::empty()),
        _ => Seq::empty(),
    }
}

fn push_all(out: &mut Vec<char>, piece: &Vec<char>)
    ensures
        final(out)@ == old(out)@ + piece@,
{
    let mut i: usize = 0;
    while i < piece.len()
        invariant
            i <= piece@.len(),
            out@ == old(out)@ + piece@.take(i as int),
        decreases piece@.len() - i,
    {
        out.push(piece[i]);
        i = i + 1;
        assert(out@ =~= old(out)@ + piece@.take(i as int));
    }
    assert(out@ =~= old(out)@ + piece@);
}

fn write_elem(v: &Value, out: &mut Vec<char>)
    ensures
        final(out)@ == old(out)@ + render_elem(v.deep()),
    decreases v, 0int,
{
    match v {
        Value::Null => {
            out.push('n');
            out.push('u');
            out.push('l');
            out.push('l');
            assert(out@ =~= old(out)@ + render_elem(v.deep()));
        },
        Value::Bool(b) => {
            if *b {
                out.push('t');
                out.push('r');
                out.push('u');
                out.push('e');
            } else {
                out.push('f');
                out.push('a');
                out.push('l');
                out.push('s');
                out.push('e');
            }
            assert(out@ =~= old(out)@ + render_elem(v.deep()));
        },
        Value::Int(i) => {
            let d = crate::numbers::int_to_chars(*i);
            push_all(out, &d);
        },
        Value::Float(r) => {
            let d = to_char_vec(r.as_str());
            push_all(out, &d);
        },
        Value::Str(s) => {
            let d = to_char_vec(s.as_str());
            proof {
                crate::chars::lemma_find_ch(d@, ' ');
                if find_ch(d@, ' ') >= 0 {
                    assert(s@.contains(' '));
                } else {
                    assert(!s@.contains(' ')) by {
                        if s@.contains(' ') {
                            let w = choose|w: int| 0 <= w < s@.len() && s@[w] == ' ';
                            assert(d@[w] == ' ');
                        }
                    }
                }
            }
            match crate::chars::find_char(&d, ' ') {
                Some(_) => {
                    out.push('"');
                    push_all(out, &d);
                    out.push('"');
                    assert(out@ =~= old(out)@ + (seq!['"'] + s@ + seq!['"']));
                },
                None => {
                    push_all(out, &d);
                },
            }
        },
        Value::Array(a) => {
            out.push('[');
            write_join(a, out);
            out.push(']');
            assert(out@ =~= old(out)@ + (seq!['['] + join_elems(v.deep()->Array_0) + seq![']']));
        },
        Value::Object(_) => {
            out.push('{');
            out.push('}');
            assert(out@ =~= old(out)@ + seq!['{', '}']);
        },
    }
}

fn write_join(a: &Vec<Value>, out: &mut Vec<char>)
    ensures
        final(out)@ == old(out)@ + join_elems(Value::Array(*a).deep()->Array_0),
    decreases a, 2int,
{
    let ghost ds = Value::Array(*a).deep()->Array_0;
    let mut i: usize = 0;
    while i < a.len()
        invariant
            i <= a@.len(),
            ds == Value::Array(*a).deep()->Array_0,
            ds.len() == a@.len(),
            forall|j: int| 0 <= j < a@.len() ==> ds[j] == a@[j].deep(),
            out@ == old(out)@ + join_elems(ds.take(i as int)),
        decreases a@.len() - i,
    {
        let ghost pre = out@;
        if i > 0 {
            out.push(',');
            out.push(' ');
        }
        write_elem(&a[i], out);
        proof {
            assert(ds.take(i as int + 1).drop_last() =~= ds.take(i as int));
            assert(ds.take(i as int + 1).last() == ds[i as int]);
            if i == 0 {
                assert(out@ =~= old(out)@ + join_elems(ds.take(1)));
            } else {
                assert(out@ =~= old(out)@ + join_elems(ds.take(i as int + 1)));
            }
        }
        i = i + 1;
    }
    proof {
        assert(ds.take(i as int) =~= ds);
    }
}

fn write_entry(k: &String, v: &Value, pad: &Vec<char>, out: &mut Vec<char>)
    ensures
        final(out)@ == old(out)@ + render_entry(k@, v.deep(), pad@),
    decreases v, 1int,
{
    match v {
        Value::Object(m) => {
            push_all(out, pad);
            let d = to_char_vec(k.as_str());
            push_all(out, &d);
            out.push(':');
            out.push('\n');
            let mut pad2 = crate::chars::sub_vec(pad, 0, pad.len());
            pad2.push(' ');
            pad2.push(' ');
            proof {
                assert(pad@.subrange(0, pad@.len() as int) =~= pad@);
                assert(pad2@ =~= pad@ + seq![' ', ' ']);
            }
            write_entries(m, &pad2, out);
            assert(out@ =~= old(out)@ + (pad@ + k@ + seq![':', '\n'] + render_entries(
                entries_deep(m@),
                pad@ + seq![' ', ' '],
            )));
        },
        Value::Null => {
            assert(out@ =~= old(out)@ + Seq::<char>::empty());
        },
        _ => {
            push_all(out, pad);
            let d = to_char_vec(k.as_str());
            push_all(out, &d);
            out.push(' ');
            out.push('=');
            out.push(' ');
            write_elem(v, out);
            out.push('\n');
            assert(out@ =~= old(out)@ + (pad@ + k@ + seq![' ', '=', ' '] + render_elem(v.deep())
                + seq!['\n']));
        },
    }
}

fn write_entries(es: &Vec<(String, Value)>, pad: &Vec<char>, out: &mut Vec<char>)
    ensures
        final(out)@ == old(out)@ + render_entries(entries_deep(es@), pad@),
    decreases es, 0int,
{
    let ghost ds = entries_deep(es@);
    let mut i: usize = 0;
    proof {
        assert(ds.take(0) =~= Seq::<(Seq<char>, SpecValue)>::empty());
    }
    while i < es.len()
        invariant
            i <= es@.len(),
            ds == entries_deep(es@),
            out@ == old(out)@ + render_entries(ds.take(i as int), pad@),
        decreases es@.len() - i,
    {
        write_entry(&es[i].0, &es[i].1, pad, out);
        proof {
            assert(ds.take(i as int + 1).drop_last() =~= ds.take(i as int));
            assert(ds.take(i as int + 1).last() == ds[i as int]);
            assert(ds[i as int].0 == es@[i as int].0@ && ds[i as int].1 == es@[i as int].1.deep());
        }
        i = i + 1;
        assert(out@ =~= old(out)@ + render_entries(ds.take(i as int), pad@));
    }
    proof {
        assert(ds.take(i as int) =~= ds);
    }
}

/// Serializes a structured value to Flow text. Only an object produces
/// text; any other root value yields the empty string.
#[allow(non_snake_case)]
pub fn StringifyFlow(val: &Value) -> (r: String)
    ensures
        r@ == spec_stringify(val.deep()),
{
    match val {
        Value::Object(m) => {
            let pad: Vec<char> = Vec::new();
            let mut out: Vec<char> = Vec::new();
            write_entries(m, &pad, &mut out);
            proof {
                assert(out@ =~= render_entries(entries_deep(m@), Seq::empty()));
            }
            chars_to_string(&out)
        },
        _ => {
            let r = String::new();
            proof {
                assert(r@ =~= spec_stringify(val.deep()));
            }
            r
        },
    }
}

} // verus!
