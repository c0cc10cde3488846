//! The optional schema registry: a named model holds field definitions
//! keyed by full name, with an alias index; the registry maps model names
//! to definitions. It is an inert lookup table — parsing does not yet
//! consult it — so its contract is storage and retrieval alone.

use vstd::prelude::*;

use crate::value::Value;

verus! {

pub struct FieldDefinition {
    pub full_name: String,
    pub alias: String,
    pub field_type: String,
    pub field_id: Option<i64>,
}

pub struct ModelDefinition {
    pub name: String,
    pub fields: Vec<FieldDefinition>,
    pub alias_map: Vec<(String, String)>,
}

pub struct ModelRegistry {
    models: Vec<ModelDefinition>,
}

/// The view of a field definition: full name, alias, type name, field id.
pub open spec fn fd_view(f: FieldDefinition) -> (Seq<char>, Seq<char>, Seq<char>, Option<i64>) {
    (f.full_name@, f.alias@, f.field_type@, f.field_id)
}

/// First-match lookup of a field by full name.
pub open spec fn field_lookup(fs: Seq<FieldDefinition>, n: Seq<char>) -> Option<
    (Seq<char>, Seq<char>, Seq<char>, Option<i64>),
>
    decreases fs.len(),
{
    if fs.len() == 0 {
        None
    } else if fs.first().full_name@ == n {
        Some(fd_view(fs.first()))
    } else {
        field_lookup(fs.drop_first(), n)
    }
}

/// First-match lookup of a full name by alias.
pub open spec fn alias_lookup(am: Seq<(String, String)>, a: Seq<char>) -> Option<Seq<char>>
    decreases am.len(),
{
    if am.len() == 0 {
        None
    } else if am.first().0@ == a {
        Some(am.first().1@)
    } else {
        alias_lookup(am.drop_first(), a)
    }
}

/// The view of a model: its name, its fields in stored order, its alias
/// index in stored order.
pub open spec fn md_view(m: ModelDefinition) -> (
    Seq<char>,
    Seq<(Seq<char>, Seq<char>, Seq<char>, Option<i64>)>,
    Seq<(Seq<char>, Seq<char>)>,
) {
    (
        m.name@,
        Seq::new(m.fields@.len(), |i: int| fd_view(m.fields@[i])),
        Seq::new(m.alias_map@.len(), |i: int| (m.alias_map@[i].0@, m.alias_map@[i].1@)),
    )
}

/// First-match lookup of a model by name.
pub open spec fn model_lookup(ms: Seq<ModelDefinition>, n: Seq<char>) -> Option<
    (
        Seq<char>,
        Seq<(Seq<char>, Seq<char>, Seq<char>, Option<i64>)>,
        Seq<(Seq<char>, Seq<char>)>,
    ),
>
    decreases ms.len(),
{
    if ms.len() == 0 {
        None
    } else if ms.first().name@ == n {
        Some(md_view(ms.first()))
    } else {
        model_lookup(ms.drop_first(), n)
    }
}

proof fn lemma_field_lookup_update(fs: Seq<FieldDefinition>, j: int, x: FieldDefinition, n: Seq<char>)
    requires
        0 <= j < fs.len(),
        fs[j].full_name@ == x.full_name@,
        forall|t: int| 0 <= t < j ==> fs[t].full_name@ != x.full_name@,
    ensures
        field_lookup(fs.update(j, x), n) == if n == x.full_name@ {
            Some(fd_view(x))
        } else {
            field_lookup(fs, n)
        },
    decreases fs.len(),
{
    let fs2 = fs.update(j, x);
    if j == 0 {
        assert(fs2.first() == x);
        if n != x.full_name@ {
            assert(fs2.drop_first() =~= fs.drop_first());
        }
    } else {
        assert(fs2.first() == fs.first());
        assert(fs2.drop_first() =~= fs.drop_first().update(j - 1, x));
        assert forall|t: int| 0 <= t < j - 1 implies fs.drop_first()[t].full_name@
            != x.full_name@ by {
            assert(fs.drop_first()[t] == fs[t + 1]);
        }
        lemma_field_lookup_update(fs.drop_first(), j - 1, x, n);
    }
}

proof fn lemma_field_lookup_push(fs: Seq<FieldDefinition>, x: FieldDefinition, n: Seq<char>)
    requires
        forall|t: int| 0 <= t < fs.len() ==> fs[t].full_name@ != x.full_name@,
    ensures
        field_lookup(fs.push(x), n) == if n == x.full_name@ {
            Some(fd_view(x))
        } else {
            field_lookup(fs, n)
        },
    decreases fs.len(),
{
    let fs2 = fs.push(x);
    if fs.len() == 0 {
        assert(fs2.first() == x);
        assert(fs2.drop_first() =~= Seq::<FieldDefinition>::empty());
        assert(field_lookup(Seq::<FieldDefinition>::empty(), n) is None);
    } else {
        assert(fs2.first() == fs.first());
        assert(fs2.drop_first() =~= fs.drop_first().push(x));
        assert forall|t: int| 0 <= t < fs.drop_first().len() implies fs.drop_first()[t].full_name@
            != x.full_name@ by {
            assert(fs.drop_first()[t] == fs[t + 1]);
        }
        lemma_field_lookup_push(fs.drop_first(), x, n);
    }
}

proof fn lemma_alias_lookup_update(am: Seq<(String, String)>, j: int, x: (String, String), a: Seq<char>)
    requires
        0 <= j < am.len(),
        am[j].0@ == x.0@,
        forall|t: int| 0 <= t < j ==> am[t].0@ != x.0@,
    ensures
        alias_lookup(am.update(j, x), a) == if a == x.0@ {
            Some(x.1@)
        } else {
            alias_lookup(am, a)
        },
    decreases am.len(),
{
    let am2 = am.update(j, x);
    if j == 0 {
        assert(am2.first() == x);
        if a != x.0@ {
            assert(am2.drop_first() =~= am.drop_first());
        }
    } else {
        assert(am2.first() == am.first());
        assert(am2.drop_first() =~= am.drop_first().update(j - 1, x));
        assert forall|t: int| 0 <= t < j - 1 implies am.drop_first()[t].0@ != x.0@ by {
            assert(am.drop_first()[t] == am[t + 1]);
        }
        lemma_alias_lookup_update(am.drop_first(), j - 1, x, a);
    }
}

proof fn lemma_alias_lookup_push(am: Seq<(String, String)>, x: (String, String), a: Seq<char>)
    requires
        forall|t: int| 0 <= t < am.len() ==> am[t].0@ != x.0@,
    ensures
        alias_lookup(am.push(x), a) == if a == x.0@ {
            Some(x.1@)
        } else {
            alias_lookup(am, a)
        },
    decreases am.len(),
{
    let am2 = am.push(x);
    if am.len() == 0 {
        assert(am2.first() == x);
        assert(am2.drop_first() =~= Seq::<(String, String)>::empty());
        assert(alias_lookup(Seq::<(String, String)>::empty(), a) is None);
    } else {
        assert(am2.first() == am.first());
        assert(am2.drop_first() =~= am.drop_first().push(x));
        assert forall|t: int| 0 <= t < am.drop_first().len() implies am.drop_first()[t].0@
            != x.0@ by {
            assert(am.drop_first()[t] == am[t + 1]);
        }
        lemma_alias_lookup_push(am.drop_first(), x, a);
    }
}

proof fn lemma_model_lookup_update(ms: Seq<ModelDefinition>, j: int, x: ModelDefinition, n: Seq<char>)
    requires
        0 <= j < ms.len(),
        ms[j].name@ == x.name@,
        forall|t: int| 0 <= t < j ==> ms[t].name@ != x.name@,
    ensures
        model_lookup(ms.update(j, x), n) == if n == x.name@ {
            Some(md_view(x))
        } else {
            model_lookup(ms, n)
        },
    decreases ms.len(),
{
    let ms2 = ms.update(j, x);
    if j == 0 {
        assert(ms2.first() == x);
        if n != x.name@ {
            assert(ms2.drop_first() =~= ms.drop_first());
        }
    } else {
        assert(ms2.first() == ms.first());
        assert(ms2.drop_first() =~= ms.drop_first().update(j - 1, x));
        assert forall|t: int| 0 <= t < j - 1 implies ms.drop_first()[t].name@ != x.name@ by {
            assert(ms.drop_first()[t] == ms[t + 1]);
        }
        lemma_model_lookup_update(ms.drop_first(), j - 1, x, n);
    }
}

proof fn lemma_model_lookup_push(ms: Seq<ModelDefinition>, x: ModelDefinition, n: Seq<char>)
    requires
        forall|t: int| 0 <= t < ms.len() ==> ms[t].name@ != x.name@,
    ensures
        model_lookup(ms.push(x), n) == if n == x.name@ {
            Some(md_view(x))
        } else {
            model_lookup(ms, n)
        },
    decreases ms.len(),
{
    let ms2 = ms.push(x);
    if ms.len() == 0 {
        assert(ms2.first() == x);
        assert(ms2.drop_first() =~= Seq::<ModelDefinition>::empty());
        assert(model_lookup(Seq::<ModelDefinition>::empty(), n) is None);
    } else {
        assert(ms2.first() == ms.first());
        assert(ms2.drop_first() =~= ms.drop_first().push(x));
        assert forall|t: int| 0 <= t < ms.drop_first().len() implies ms.drop_first()[t].name@
            != x.name@ by {
            assert(ms.drop_first()[t] == ms[t + 1]);
        }
        lemma_model_lookup_push(ms.drop_first(), x, n);
    }
}

impl ModelDefinition {
    /// A model with the given name and no fields.
    pub fn new(name: String) -> (r: ModelDefinition)
        ensures
            r.name@ == name@,
            r.fields@.len() == 0,
            r.alias_map@.len() == 0,
    {
        ModelDefinition { name, fields: Vec::new(), alias_map: Vec::new() }
    }

    /// Stores a field under its full name and indexes its alias; an
    /// existing entry with the same key is overwritten in place.
    #[verifier::loop_isolation(false)]
    pub fn add_field(&mut self, field: FieldDefinition)
        ensures
            final(self).name@ == old(self).name@,
            forall|n: Seq<char>|
                #[trigger] field_lookup(final(self).fields@, n) == if n == field.full_name@ {
                    Some(fd_view(field))
                } else {
                    field_lookup(old(self).fields@, n)
                },
            forall|a: Seq<char>|
                #[trigger] alias_lookup(final(self).alias_map@, a) == if a == field.alias@ {
                    Some(field.full_name@)
                } else {
                    alias_lookup(old(self).alias_map@, a)
                },
    {
        let alias = clone_string(&field.alias);
        let full = clone_string(&field.full_name);
        let ghost am0 = self.alias_map@;
        let mut j: usize = 0;
        let mut placed: bool = false;
        while j < self.alias_map.len() && !placed
            invariant
                j <= self.alias_map@.len(),
                self.name@ == old(self).name@,
                self.fields@ == old(self).fields@,
                !placed ==> self.alias_map@ == am0,
                !placed ==> forall|t: int| 0 <= t < j ==> am0[t].0@ != field.alias@,
                alias@ == field.alias@,
                full@ == field.full_name@,
                placed ==> forall|a: Seq<char>|
                    #[trigger] alias_lookup(self.alias_map@, a) == if a == field.alias@ {
                        Some(field.full_name@)
                    } else {
                        alias_lookup(am0, a)
                    },
            decreases self.alias_map@.len() - j + if placed {
                0int
            } else {
                1int
            },
        {
            if crate::chars::str_eq(self.alias_map[j].0.as_str(), alias.as_str()) {
                let a2 = clone_string(&alias);
                let f2 = clone_string(&full);
                self.alias_map[j] = (a2, f2);
                placed = true;
                proof {
                    assert forall|a: Seq<char>|
                        #[trigger] alias_lookup(self.alias_map@, a) == if a == field.alias@ {
                            Some(field.full_name@)
                        } else {
                            alias_lookup(am0, a)
                        } by {
                        lemma_alias_lookup_update(am0, j as int, self.alias_map@[j as int], a);
                    }
                }
            } else {
                j = j + 1;
            }
        }
        if !placed {
            let a2 = clone_string(&alias);
            let f2 = clone_string(&full);
            self.alias_map.push((a2, f2));
            proof {
                assert forall|a: Seq<char>|
                    #[trigger] alias_lookup(self.alias_map@, a) == if a == field.alias@ {
                        Some(field.full_name@)
                    } else {
                        alias_lookup(am0, a)
                    } by {
                    lemma_alias_lookup_push(am0, self.alias_map@.last(), a);
                }
            }
        }
        let ghost fs0 = self.fields@;
        proof {
            assert(fs0 == old(self).fields@);
            assert forall|a: Seq<char>|
                #[trigger] alias_lookup(self.alias_map@, a) == if a == field.alias@ {
                    Some(field.full_name@)
                } else {
                    alias_lookup(old(self).alias_map@, a)
                } by {}
        }
        let mut i: usize = 0;
        while i < self.fields.len()
            invariant
                i <= self.fields@.len(),
                self.fields@ == fs0,
                self.name@ == old(self).name@,
                forall|a: Seq<char>|
                    #[trigger] alias_lookup(self.alias_map@, a) == if a == field.alias@ {
                        Some(field.full_name@)
                    } else {
                        alias_lookup(old(self).alias_map@, a)
                    },
                forall|t: int| 0 <= t < i ==> fs0[t].full_name@ != field.full_name@,
                full@ == field.full_name@,
            decreases self.fields@.len() - i,
        {
            if crate::chars::str_eq(self.fields[i].full_name.as_str(), full.as_str()) {
                self.fields[i] = field;
                proof {
                    assert(self.fields@[i as int].full_name@ == fs0[i as int].full_name@);
                    assert forall|n: Seq<char>|
                        #[trigger] field_lookup(self.fields@, n) == if n
                            == self.fields@[i as int].full_name@ {
                            Some(fd_view(self.fields@[i as int]))
                        } else {
                            field_lookup(fs0, n)
                        } by {
                        lemma_field_lookup_update(fs0, i as int, self.fields@[i as int], n);
                    }
                }
                return ;
            }
            i = i + 1;
        }
        self.fields.push(field);
        proof {
            assert forall|n: Seq<char>|
                #[trigger] field_lookup(self.fields@, n) == if n == field.full_name@ {
                    Some(fd_view(field))
                } else {
                    field_lookup(fs0, n)
                } by {
                lemma_field_lookup_push(fs0, self.fields@.last(), n);
            }
        }
    }
}

fn clone_string(s: &String) -> (r: String)
    ensures
        r@ == s@,
{
    let c = crate::chars::to_char_vec(s.as_str());
    crate::chars::chars_to_string(&c)
}

impl ModelRegistry {
    /// An empty registry.
    pub fn new() -> (r: ModelRegistry)
        ensures
            r.models_view().len() == 0,
    {
        ModelRegistry { models: Vec::new() }
    }

    pub closed spec fn models_view(self) -> Seq<ModelDefinition> {
        self.models@
    }

    /// Stores a model under its name; an existing model with the same
    /// name is overwritten in place.
    #[verifier::loop_isolation(false)]
    pub fn register_model(&mut self, model: ModelDefinition)
        ensures
            forall|n: Seq<char>|
                #[trigger] model_lookup(final(self).models_view(), n) == if n == model.name@ {
                    Some(md_view(model))
                } else {
                    model_lookup(old(self).models_view(), n)
                },
    {
        let name = clone_string(&model.name);
        let ghost ms0 = self.models@;
        let mut i: usize = 0;
        while i < self.models.len()
            invariant
                i <= self.models@.len(),
                self.models@ == ms0,
                forall|t: int| 0 <= t < i ==> ms0[t].name@ != model.name@,
                name@ == model.name@,
            decreases self.models@.len() - i,
        {
            if crate::chars::str_eq(self.models[i].name.as_str(), name.as_str()) {
                let ghost x = model;
                self.models[i] = model;
                proof {
                    assert forall|n: Seq<char>|
                        #[trigger] model_lookup(self.models@, n) == if n == x.name@ {
                            Some(md_view(x))
                        } else {
                            model_lookup(ms0, n)
                        } by {
                        lemma_model_lookup_update(ms0, i as int, x, n);
                    }
                }
                return ;
            }
            i = i + 1;
        }
        let ghost x = model;
        self.models.push(model);
        proof {
            assert forall|n: Seq<char>|
                #[trigger] model_lookup(self.models@, n) == if n == x.name@ {
                    Some(md_view(x))
                } else {
                    model_lookup(ms0, n)
                } by {
                lemma_model_lookup_push(ms0, x, n);
            }
        }
    }

    /// Retrieves the model stored under `name`, if any.
    #[verifier::loop_isolation(false)]
    pub fn get_model(&self, name: &str) -> (r: Option<&ModelDefinition>)
        ensures
            match r {
                Some(m) => model_lookup(self.models_view(), name@) == Some(md_view(*m)),
                None => model_lookup(self.models_view(), name@) is None,
            },
    {
        let mut i: usize = 0;
        while i < self.models.len()
            invariant
                i <= self.models@.len(),
                forall|t: int| 0 <= t < i ==> self.models@[t].name@ != name@,
            decreases self.models@.len() - i,
        {
            if crate::chars::str_eq(self.models[i].name.as_str(), name) {
                proof {
                    lemma_model_lookup_found(self.models@, i as int, name@);
                }
                return Some(&self.models[i]);
            }
            i = i + 1;
        }
        proof {
            lemma_model_lookup_missing(self.models@, name@);
        }
        None
    }
}

proof fn lemma_model_lookup_found(ms: Seq<ModelDefinition>, j: int, n: Seq<char>)
    requires
        0 <= j < ms.len(),
        ms[j].name@ == n,
        forall|t: int| 0 <= t < j ==> ms[t].name@ != n,
    ensures
        model_lookup(ms, n) == Some(md_view(ms[j])),
    decreases ms.len(),
{
    if ms.first().name@ != n {
        assert forall|t: int| 0 <= t < j - 1 implies ms.drop_first()[t].name@ != n by {
            assert(ms.drop_first()[t] == ms[t + 1]);
        }
        assert(ms.drop_first()[j - 1] == ms[j]);
        lemma_model_lookup_found(ms.drop_first(), j - 1, n);
    }
}

proof fn lemma_model_lookup_missing(ms: Seq<ModelDefinition>, n: Seq<char>)
    requires
        forall|t: int| 0 <= t < ms.len() ==> ms[t].name@ != n,
    ensures
        model_lookup(ms, n) is None,
    decreases ms.len(),
{
    if ms.len() > 0 {
        assert forall|t: int| 0 <= t < ms.drop_first().len() implies ms.drop_first()[t].name@
            != n by {
            assert(ms.drop_first()[t] == ms[t + 1]);
        }
        lemma_model_lookup_missing(ms.drop_first(), n);
    }
}

/// Parses Flow text; the registry is accepted for forward compatibility
/// but not yet consulted, so the result is exactly the plain parse.
#[allow(non_snake_case)]
pub fn ParseFlowWithModel(text: &str, registry: Option<&ModelRegistry>) -> (r: Value)
    ensures
        r.deep() == crate::parse::spec_parse(text@),
        r is Object,
{
    let _ = registry;
    crate::parse::ParseFlow(text)
}

} // verus!
