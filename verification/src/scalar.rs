//! Scalar coercion: a trimmed raw token becomes a typed value by a fixed
//! precedence of attempts — boolean literal, quoted string, bracketed
//! array, integer, floating-point number, bare string. Coercion never
//! fails; the fallback is always a string.
//!
//! Known, deliberate limitations of the format: quoted strings undergo no
//! escape processing, and array contents are split on every comma, so
//! commas inside quoted elements are not protected.

use vstd::prelude::*;

use crate::chars::{
    chars_to_string, lemma_split_on_piece_len, lemma_trim_len, split_on, sub_vec, trim, trim_chars,
};
use crate::numbers::{
    is_float_syntax, is_int_syntax, parse_float_repr, parse_int_chars, spec_float_repr,
    spec_parse_int,
};
use crate::value::{SpecValue, Value};

verus! {

pub open spec fn true_chars() -> Seq<char> {
    seq!['t', 'r', 'u', 'e']
}

pub open spec fn false_chars() -> Seq<char> {
    seq!['f', 'a', 'l', 's', 'e']
}

/// The value a raw token denotes. The token is trimmed first; the
/// attempts are tried in the fixed order of the format.
pub open spec fn spec_coerce(raw: Seq<char>) -> SpecValue
    decreases raw.len(),
{
    let v = trim(raw);
    if v == true_chars() {
        SpecValue::Bool(true)
    } else if v == false_chars() {
        SpecValue::Bool(false)
    } else if v.len() >= 2 && v.first() == '"' && v.last() == '"' {
        SpecValue::Str(v.subrange(1, v.len() - 1))
    } else if v.len() >= 2 && v.first() == '[' && v.last() == ']' {
        let inner = trim(v.subrange(1, v.len() - 1));
        if inner.len() == 0 {
            SpecValue::Array(Seq::empty())
        } else {
            SpecValue::Array(
                split_on(inner, ',').map_values(
                    |p: Seq<char>|
                        if p.len() < raw.len() {
                            spec_coerce(p)
                        } else {
                            SpecValue::Null
                        },
                ),
            )
        }
    } else if is_int_syntax(v) {
        SpecValue::Int(spec_parse_int(v))
    } else if is_float_syntax(v) {
        match spec_float_repr(v) {
            Some(r) => SpecValue::Float(r),
            None => SpecValue::Str(v),
        }
    } else {
        SpecValue::Str(v)
    }
}

/// Every piece of the comma split of an array token is shorter than the
/// token, so the guard inside the array case of `spec_coerce` is always
/// true.
pub proof fn lemma_array_pieces_short(raw: Seq<char>)
    ensures
        ({
            let v = trim(raw);
            v.len() >= 2 && v.first() == '[' && v.last() == ']' ==> {
                let inner = trim(v.subrange(1, v.len() - 1));
                forall|i: int|
                    0 <= i < split_on(inner, ',').len() ==> (#[trigger] split_on(inner, ',')[i]).len()
                        < raw.len()
            }
        }),
{
    let v = trim(raw);
    lemma_trim_len(raw);
    if v.len() >= 2 && v.first() == '[' && v.last() == ']' {
        let inner = trim(v.subrange(1, v.len() - 1));
        lemma_trim_len(v.subrange(1, v.len() - 1));
        lemma_split_on_piece_len(inner, ',');
    }
}

fn lit_true(v: &Vec<char>) -> (r: bool)
    ensures
        r == (v@ == true_chars()),
{
    let r = v.len() == 4 && v[0] == 't' && v[1] == 'r' && v[2] == 'u' && v[3] == 'e';
    proof {
        if r {
            assert(v@ =~= true_chars());
        }
    }
    r
}

fn lit_false(v: &Vec<char>) -> (r: bool)
    ensures
        r == (v@ == false_chars()),
{
    let r = v.len() == 5 && v[0] == 'f' && v[1] == 'a' && v[2] == 'l' && v[3] == 's' && v[4] == 'e';
    proof {
        if r {
            assert(v@ =~= false_chars());
        }
    }
    r
}

/// Coerces the characters of a raw token.
pub fn coerce_chars(t: &Vec<char>) -> (r: Value)
    ensures
        r.deep() == spec_coerce(t@),
    decreases t@.len(),
{
    let v = trim_chars(t);
    if lit_true(&v) {
        Value::Bool(true)
    } else if lit_false(&v) {
        Value::Bool(false)
    } else if v.len() >= 2 && v[0] == '"' && v[v.len() - 1] == '"' {
        let inner = sub_vec(&v, 1, v.len() - 1);
        Value::Str(chars_to_string(&inner))
    } else if v.len() >= 2 && v[0] == '[' && v[v.len() - 1] == ']' {
        let between = sub_vec(&v, 1, v.len() - 1);
        let inner = trim_chars(&between);
        proof {
            lemma_trim_len(t@);
            lemma_trim_len(between@);
        }
        if inner.len() == 0 {
            let elems: Vec<Value> = Vec::new();
            let r = Value::Array(elems);
            proof {
                assert(r.deep() == SpecValue::Array(Seq::<SpecValue>::empty())) by {
                    assert(r.deep() matches SpecValue::Array(s) && s =~~= Seq::<
                        SpecValue,
                    >::empty());
                }
            }
            r
        } else {
            let ghost pieces = split_on(inner@, ',');
            let mut elems: Vec<Value> = Vec::new();
            let mut cur: Vec<char> = Vec::new();
            let ghost mut done: Seq<Seq<char>> = Seq::empty();
            let mut i: usize = 0;
            proof {
                assert(split_on(inner@.take(0), ',') =~= seq![cur@]);
                assert(seq![cur@] =~= done.push(cur@));
            }
            while i < inner.len()
                invariant
                    i <= inner.len(),
                    inner@.len() + 2 <= t@.len(),
                    split_on(inner@.take(i as int), ',') == done.push(cur@),
                    elems@.len() == done.len(),
                    forall|j: int|
                        0 <= j < done.len() ==> (#[trigger] elems@[j]).deep() == spec_coerce(
                            done[j],
                        ),
                    forall|j: int| 0 <= j < done.len() ==> (#[trigger] done[j]).len() <= i,
                    cur@.len() <= i,
                decreases inner.len() - i,
            {
                let c = inner[i];
                proof {
                    assert(inner@.take(i as int + 1).drop_last() =~= inner@.take(i as int));
                    assert(inner@.take(i as int + 1).last() == inner@[i as int]);
                }
                if c == ',' {
                    proof {
                        assert(split_on(inner@.take(i as int + 1), ',') == split_on(
                            inner@.take(i as int),
                            ',',
                        ).push(Seq::empty()));
                    }
                    let e = coerce_chars(&cur);
                    elems.push(e);
                    proof {
                        done = done.push(cur@);
                    }
                    cur = Vec::new();
                    proof {
                        assert(cur@ =~= Seq::<char>::empty());
                    }
                } else {
                    proof {
                        let r0 = split_on(inner@.take(i as int), ',');
                        assert(split_on(inner@.take(i as int + 1), ',') == r0.update(
                            r0.len() - 1,
                            r0.last().push(c),
                        ));
                        assert(r0.update(r0.len() - 1, r0.last().push(c)) =~= done.push(
                            cur@.push(c),
                        ));
                    }
                    cur.push(c);
                }
                i = i + 1;
            }
            proof {
                assert(inner@.take(i as int) =~= inner@);
            }
            let e = coerce_chars(&cur);
            elems.push(e);
            proof {
                done = done.push(cur@);
            }
            let r = Value::Array(elems);
            proof {
                assert(pieces == done);
                lemma_array_pieces_short(t@);
                let sv = spec_coerce(t@);
                assert(sv is Array);
                assert(sv->Array_0 == split_on(inner@, ',').map_values(
                    |p: Seq<char>|
                        if p.len() < t@.len() {
                            spec_coerce(p)
                        } else {
                            SpecValue::Null
                        },
                ));
                assert(sv->Array_0.len() == pieces.len());
                assert(r.deep() is Array);
                let rd = r.deep()->Array_0;
                assert(rd.len() == elems@.len());
                assert forall|j: int| 0 <= j < pieces.len() implies rd[j] == sv->Array_0[j] by {
                    assert(rd[j] == elems@[j].deep());
                    assert(sv->Array_0[j] == spec_coerce(pieces[j]));
                }
                assert(rd =~= sv->Array_0);
                assert(r.deep() == SpecValue::Array(rd));
                assert(sv == SpecValue::Array(sv->Array_0));
            }
            r
        }
    } else {
        match parse_int_chars(&v) {
            Some(i) => Value::Int(i),
            None => {
                let s = chars_to_string(&v);
                match parse_float_repr(s.as_str()) {
                    Some(rep) => Value::Float(rep),
                    None => Value::Str(s),
                }
            },
        }
    }
}

/// Coerces a raw text token into a typed value; the result is the value
/// the token denotes under the format's precedence rules, and no input is
/// ever rejected.
pub fn parse_value(raw: &str) -> (r: Value)
    ensures
        r.deep() == spec_coerce(raw@),
{
    let t = crate::chars::to_char_vec(raw);
    coerce_chars(&t)
}

} // verus!
