//! The structured value produced by parsing and consumed by serialization.

use vstd::prelude::*;

verus! {

broadcast use {
    vstd::std_specs::vec::axiom_vec_index_decreases,
    vstd::std_specs::vec::axiom_vec_decreases_to_view,
    vstd::seq::axiom_seq_index_decreases,
};

/// The universal in-memory representation of a Flow document: a tagged
/// union over null, booleans, numbers (integer or floating), strings,
/// ordered arrays and insertion-ordered string-keyed objects.
///
/// A floating-point number is carried as its canonical decimal rendering,
/// produced by the numeric codec when a scalar token is coerced; the
/// library itself never computes with it.
#[derive(Debug, PartialEq)]
pub enum Value {
    Null,
    Bool(bool),
    Int(i64),
    Float(String),
    Str(String),
    Array(Vec<Value>),
    Object(Vec<(String, Value)>),
}

/// The mathematical model of a `Value`: the same tree with machine types
/// replaced by their views. All contracts of the library speak of this type.
#[verifier::ext_equal]
pub enum SpecValue {
    Null,
    Bool(bool),
    Int(int),
    Float(Seq<char>),
    Str(Seq<char>),
    Array(Seq<SpecValue>),
    Object(Seq<(Seq<char>, SpecValue)>),
}

impl Value {
    /// The deep view of a value: every `String` becomes a `Seq<char>`,
    /// every `Vec` a `Seq`, every `i64` an `int`.
    pub open spec fn deep(self) -> SpecValue
        decreases self,
    {
        match self {
            Value::Null => SpecValue::Null,
            Value::Bool(b) => SpecValue::Bool(b),
            Value::Int(i) => SpecValue::Int(i as int),
            Value::Float(s) => SpecValue::Float(s@),
            Value::Str(s) => SpecValue::Str(s@),
            Value::Array(a) => SpecValue::Array(
                Seq::new(
                    a@.len(),
                    |i: int|
                        if 0 <= i < a@.len() {
                            a@[i].deep()
                        } else {
                            SpecValue::Null
                        },
                ),
            ),
            Value::Object(m) => SpecValue::Object(entries_deep(m@)),
        }
    }
}

/// The deep view of an object's entry list.
pub open spec fn entries_deep(m: Seq<(String, Value)>) -> Seq<(Seq<char>, SpecValue)>
    decreases m,
{
    Seq::new(
        m.len(),
        |i: int|
            if 0 <= i < m.len() {
                (m[i].0@, m[i].1.deep())
            } else {
                (Seq::empty(), SpecValue::Null)
            },
    )
}

/// Index of the first entry of `es` whose key is `k`, or -1 when no entry
/// has that key.
pub open spec fn find_key(es: Seq<(Seq<char>, SpecValue)>, k: Seq<char>) -> int
    decreases es.len(),
{
    if es.len() == 0 {
        -1
    } else if es.first().0 == k {
        0
    } else {
        let r = find_key(es.drop_first(), k);
        if r < 0 {
            -1
        } else {
            r + 1
        }
    }
}

/// Insertion into an object: when the key is already present its value is
/// replaced in place (the entry keeps its position), otherwise the new
/// entry is appended. This is the last-writer-wins rule of the parser.
pub open spec fn obj_insert(
    es: Seq<(Seq<char>, SpecValue)>,
    k: Seq<char>,
    v: SpecValue,
) -> Seq<(Seq<char>, SpecValue)> {
    let i = find_key(es, k);
    if i >= 0 {
        es.update(i, (k, v))
    } else {
        es.push((k, v))
    }
}

/// The first index at which `k` occurs as a key is `find_key`.
pub proof fn lemma_find_key_at(es: Seq<(Seq<char>, SpecValue)>, k: Seq<char>, i: int)
    requires
        0 <= i < es.len(),
        es[i].0 == k,
        forall|j: int| 0 <= j < i ==> es[j].0 != k,
    ensures
        find_key(es, k) == i,
    decreases es.len(),
{
    if es.first().0 != k {
        assert forall|j: int| 0 <= j < i - 1 implies es.drop_first()[j].0 != k by {
            assert(es.drop_first()[j] == es[j + 1]);
        }
        assert(es.drop_first()[i - 1] == es[i]);
        lemma_find_key_at(es.drop_first(), k, i - 1);
    }
}

/// `find_key` finds exactly the keys that occur in the object.
pub proof fn lemma_find_key_present(es: Seq<(Seq<char>, SpecValue)>, k: Seq<char>)
    ensures
        find_key(es, k) >= 0 <==> exists|i: int| 0 <= i < es.len() && es[i].0 == k,
        find_key(es, k) >= 0 ==> {
            let f = find_key(es, k);
            &&& f < es.len()
            &&& es[f].0 == k
        },
    decreases es.len(),
{
    if es.len() > 0 && es.first().0 != k {
        lemma_find_key_present(es.drop_first(), k);
        if find_key(es.drop_first(), k) >= 0 {
            assert(es[find_key(es, k)] == es.drop_first()[find_key(es.drop_first(), k)]);
        } else {
            assert forall|i: int| 0 <= i < es.len() implies es[i].0 != k by {
                if i > 0 {
                    assert(es[i] == es.drop_first()[i - 1]);
                }
            }
        }
    }
}

} // verus!
