//! The format's laws: tab expansion does not change what a text denotes,
//! and serialization round-trips through the parser for well-formed
//! documents.

use vstd::prelude::*;

use crate::chars::{
    find_ch, is_ws, leading_ws, lemma_find_ch_at, lemma_leading_ws_at, lemma_trim_id, ltrim, rtrim,
    split_on, trim,
};
use crate::numbers::{
    int_repr, is_float_syntax, is_int_syntax, lemma_int_repr_roundtrip,
    lemma_int_syntax_is_float_syntax,
};
use crate::parse::spec_parse;
use crate::scalar::{false_chars, spec_coerce, true_chars};
use crate::serialize::{join_elems, render_elem, spec_stringify};
use crate::tokenize::{expand_tabs, spec_tokenize};
use crate::value::SpecValue;

verus! {

// ---------------------------------------------------------------------
// Tab equivalence
// ---------------------------------------------------------------------
proof fn lemma_expand_tabs_no_tab(t: Seq<char>)
    ensures
        forall|i: int| 0 <= i < expand_tabs(t).len() ==> #[trigger] expand_tabs(t)[i] != '\t',
    decreases t.len(),
{
    if t.len() > 0 {
        lemma_expand_tabs_no_tab(t.drop_last());
        let e = expand_tabs(t);
        let e0 = expand_tabs(t.drop_last());
        assert forall|i: int| 0 <= i < e.len() implies e[i] != '\t' by {
            if i < e0.len() {
                assert(e[i] == e0[i]);
            }
        }
    }
}

proof fn lemma_expand_tabs_id(s: Seq<char>)
    requires
        forall|i: int| 0 <= i < s.len() ==> #[trigger] s[i] != '\t',
    ensures
        expand_tabs(s) == s,
    decreases s.len(),
{
    if s.len() > 0 {
        assert(forall|i: int| 0 <= i < s.drop_last().len() ==> #[trigger] s.drop_last()[i] != '\t');
        lemma_expand_tabs_id(s.drop_last());
        assert(expand_tabs(s) =~= s.drop_last() + seq![s.last()]);
        assert(s.drop_last() + seq![s.last()] =~= s);
    }
}

/// Tab equivalence: a text parses exactly as the same text with every tab
/// replaced by two spaces, so one tab stands for one indentation level.
pub proof fn lemma_tab_equivalence(t: Seq<char>)
    ensures
        spec_parse(expand_tabs(t)) == spec_parse(t),
{
    lemma_expand_tabs_no_tab(t);
    lemma_expand_tabs_id(expand_tabs(t));
    assert(spec_tokenize(expand_tabs(t)) == spec_tokenize(t));
}

// ---------------------------------------------------------------------
// Well-formed documents: the shapes whose serialization parses back
// ---------------------------------------------------------------------
/// Characters that may occur in keys and strings without disturbing the
/// line structure: no quote, no comment mark, and no whitespace other
/// than the space itself.
pub open spec fn text_char_ok(c: char) -> bool {
    c != '"' && c != '#' && (!is_ws(c) || c == ' ')
}

/// A key: nonempty, made of acceptable characters, free of `=`, and with
/// no space at either edge.
pub open spec fn key_ok(k: Seq<char>) -> bool {
    &&& k.len() > 0
    &&& forall|i: int| 0 <= i < k.len() ==> text_char_ok(#[trigger] k[i])
    &&& forall|i: int| 0 <= i < k.len() ==> #[trigger] k[i] != '='
    &&& k.first() != ' '
    &&& k.last() != ' '
}

/// A string serialized without quotes: nonempty, no space, and not a
/// token that coercion would read as something else.
pub open spec fn bare_str_ok(s: Seq<char>) -> bool {
    &&& s.len() > 0
    &&& forall|i: int| 0 <= i < s.len() ==> text_char_ok(#[trigger] s[i]) && #[trigger] s[i] != ' '
    &&& s != true_chars()
    &&& s != false_chars()
    &&& !is_float_syntax(s)
    &&& !(s.len() >= 2 && s.first() == '[' && s.last() == ']')
    &&& s.last() != ':'
}

/// An array element: a boolean, an in-range integer, or a bare string
/// free of commas.
pub open spec fn elem_ok(v: SpecValue) -> bool {
    match v {
        SpecValue::Bool(_) => true,
        SpecValue::Int(i) => -9223372036854775808 <= i <= 9223372036854775807,
        SpecValue::Str(s) => bare_str_ok(s) && forall|i: int|
            0 <= i < s.len() ==> #[trigger] s[i] != ',',
        _ => false,
    }
}

/// A leaf value: a boolean, an in-range integer, a string (quoted when it
/// holds a space), or an array of acceptable elements.
pub open spec fn scalar_ok(v: SpecValue) -> bool {
    match v {
        SpecValue::Bool(_) => true,
        SpecValue::Int(i) => -9223372036854775808 <= i <= 9223372036854775807,
        SpecValue::Str(s) => if s.contains(' ') {
            forall|i: int| 0 <= i < s.len() ==> text_char_ok(#[trigger] s[i])
        } else {
            bare_str_ok(s)
        },
        SpecValue::Array(a) => forall|i: int| 0 <= i < a.len() ==> elem_ok(#[trigger] a[i]),
        _ => false,
    }
}

pub open spec fn keys_ok(es: Seq<(Seq<char>, SpecValue)>) -> bool {
    &&& forall|i: int| 0 <= i < es.len() ==> key_ok((#[trigger] es[i]).0)
    &&& forall|i: int, j: int| 0 <= i < j < es.len() ==> es[i].0 != es[j].0
}

/// An object all of whose values are leaves.
pub open spec fn flat_obj_ok(es: Seq<(Seq<char>, SpecValue)>) -> bool {
    &&& keys_ok(es)
    &&& forall|i: int| 0 <= i < es.len() ==> scalar_ok((#[trigger] es[i]).1)
}

/// A document whose serialization parses back: a root object whose
/// values are leaves or objects of leaves.
pub open spec fn wf_doc(v: SpecValue) -> bool {
    match v {
        SpecValue::Object(es) => {
            &&& keys_ok(es)
            &&& forall|i: int|
                0 <= i < es.len() ==> scalar_ok((#[trigger] es[i]).1) || ((#[trigger] es[i]).1
                    matches SpecValue::Object(es2) && flat_obj_ok(es2))
        },
        _ => false,
    }
}

// ---------------------------------------------------------------------
// Rendered leaves coerce back to themselves
// ---------------------------------------------------------------------
/// The rendering of a well-formed leaf has no whitespace at its edges,
/// is nonempty, and holds no `#`, newline or tab anywhere.
proof fn lemma_render_elem_chars(v: SpecValue)
    requires
        scalar_ok(v),
    ensures
        render_elem(v).len() > 0,
        !is_ws(render_elem(v).first()),
        !is_ws(render_elem(v).last()),
        render_elem(v).last() != ':',
        forall|i: int|
            0 <= i < render_elem(v).len() ==> (#[trigger] render_elem(v)[i]) != '#' && !(
            is_ws(render_elem(v)[i]) && render_elem(v)[i] != ' '),
{
    let r = render_elem(v);
    match v {
        SpecValue::Bool(b) => {},
        SpecValue::Int(i) => {
            lemma_int_repr_roundtrip(i);
            crate::numbers::lemma_digits_repr_digits(if i < 0 {
                -i
            } else {
                i
            });
            assert forall|t: int| 0 <= t < r.len() implies r[t] != '#' && !(is_ws(r[t]) && r[t]
                != ' ') by {
                if i < 0 {
                    if t > 0 {
                        assert(r[t] == int_repr(i)[t]);
                        assert(crate::numbers::is_digit(crate::numbers::digits_repr(-i)[t - 1]));
                        crate::numbers::lemma_digit_plain(r[t]);
                    }
                } else {
                    assert(crate::numbers::is_digit(r[t]));
                    crate::numbers::lemma_digit_plain(r[t]);
                }
            }
            if i < 0 {
                assert(r.last() == crate::numbers::digits_repr(-i).last());
                crate::numbers::lemma_digit_plain(r.last());
            } else {
                crate::numbers::lemma_digit_plain(r.last());
                crate::numbers::lemma_digit_plain(r.first());
            }
        },
        SpecValue::Str(s) => {
            if s.contains(' ') {
                assert(r == seq!['"'] + s + seq!['"']);
                assert(r.first() == '"');
                assert(r.last() == '"');
                assert forall|t: int| 0 <= t < r.len() implies r[t] != '#' && !(is_ws(r[t]) && r[t]
                    != ' ') by {
                    if 1 <= t < r.len() - 1 {
                        assert(r[t] == s[t - 1]);
                        assert(text_char_ok(s[t - 1]));
                    }
                }
            } else {
                assert(forall|i: int| 0 <= i < s.len() ==> text_char_ok(#[trigger] s[i]));
                assert(!is_ws(s.first()));
                assert(!is_ws(s.last()));
            }
        },
        SpecValue::Array(a) => {
            lemma_join_elems_chars(a);
            assert(r == seq!['['] + join_elems(a) + seq![']']);
            assert(r.first() == '[');
            assert(r.last() == ']');
            assert forall|t: int| 0 <= t < r.len() implies r[t] != '#' && !(is_ws(r[t]) && r[t]
                != ' ') by {
                if 1 <= t < r.len() - 1 {
                    assert(r[t] == join_elems(a)[t - 1]);
                }
            }
        },
        _ => {},
    }
}

/// The joined elements of a well-formed array hold no `#`, no exotic
/// whitespace, and no quote.
proof fn lemma_join_elems_chars(a: Seq<SpecValue>)
    requires
        forall|i: int| 0 <= i < a.len() ==> elem_ok(#[trigger] a[i]),
    ensures
        forall|i: int|
            0 <= i < join_elems(a).len() ==> (#[trigger] join_elems(a)[i]) != '#' && !(
            is_ws(join_elems(a)[i]) && join_elems(a)[i] != ' '),
    decreases a.len(),
{
    if a.len() > 0 {
        assert(forall|i: int| 0 <= i < a.drop_last().len() ==> elem_ok(#[trigger] a.drop_last()[i]));
        lemma_join_elems_chars(a.drop_last());
        assert(elem_ok(a.last()));
        lemma_elem_render_chars(a.last());
        let r = render_elem(a.last());
        if a.len() == 1 {
            assert(join_elems(a) == r);
        } else {
            let j = join_elems(a.drop_last()) + seq![',', ' '] + r;
            assert(join_elems(a) == j);
            assert forall|i: int| 0 <= i < j.len() implies j[i] != '#' && !(is_ws(j[i]) && j[i]
                != ' ') by {
                let n0 = join_elems(a.drop_last()).len();
                if i < n0 {
                    assert(j[i] == join_elems(a.drop_last())[i]);
                } else if i >= n0 + 2 {
                    assert(j[i] == r[i - n0 - 2]);
                }
            }
        }
    }
}

/// A well-formed array element renders to plain characters.
proof fn lemma_elem_render_chars(v: SpecValue)
    requires
        elem_ok(v),
    ensures
        forall|i: int|
            0 <= i < render_elem(v).len() ==> (#[trigger] render_elem(v)[i]) != '#' && !(
            is_ws(render_elem(v)[i]) && render_elem(v)[i] != ' '),
{
    match v {
        SpecValue::Bool(_) => {},
        SpecValue::Int(i) => {
            lemma_scalar_int_chars(i);
        },
        SpecValue::Str(s) => {
            assert(!s.contains(' ')) by {
                if s.contains(' ') {
                    let w = choose|w: int| 0 <= w < s.len() && s[w] == ' ';
                }
            }
        },
        _ => {},
    }
}

proof fn lemma_scalar_int_chars(i: int)
    requires
        -9223372036854775808 <= i <= 9223372036854775807,
    ensures
        forall|t: int|
            0 <= t < int_repr(i).len() ==> (#[trigger] int_repr(i)[t]) != '#' && !(
            is_ws(int_repr(i)[t]) && int_repr(i)[t] != ' ') && int_repr(i)[t] != ' ',
{
    let r = int_repr(i);
    crate::numbers::lemma_digits_repr_digits(if i < 0 {
        -i
    } else {
        i
    });
    assert forall|t: int| 0 <= t < r.len() implies r[t] != '#' && !(is_ws(r[t]) && r[t] != ' ')
        && r[t] != ' ' by {
        if i < 0 {
            if t > 0 {
                assert(crate::numbers::is_digit(crate::numbers::digits_repr(-i)[t - 1]));
                assert(r[t] == crate::numbers::digits_repr(-i)[t - 1]);
                crate::numbers::lemma_digit_plain(r[t]);
            }
        } else {
            assert(crate::numbers::is_digit(r[t]));
            crate::numbers::lemma_digit_plain(r[t]);
        }
    }
}

/// A rendered well-formed non-array leaf coerces back to itself.
proof fn lemma_coerce_render_leaf(v: SpecValue)
    requires
        scalar_ok(v),
        !(v is Array),
    ensures
        spec_coerce(render_elem(v)) == v,
{
    let r = render_elem(v);
    lemma_render_elem_chars(v);
    lemma_trim_id(r);
    assert(trim(r) == r);
    match v {
        SpecValue::Bool(b) => {
            if b {
                assert(r == true_chars());
            } else {
                assert(r == false_chars());
                assert(r != true_chars());
            }
        },
        SpecValue::Int(i) => {
            lemma_int_repr_roundtrip(i);
            assert(r != true_chars()) by {
                if r == true_chars() {
                    assert(r[0] == 't');
                    assert(r[0] == '-' || crate::numbers::is_digit(r[0]));
                    if crate::numbers::is_digit(r[0]) {
                        crate::numbers::lemma_digit_plain(r[0]);
                    }
                }
            }
            assert(r != false_chars()) by {
                if r == false_chars() {
                    assert(r[0] == 'f');
                    assert(r[0] == '-' || crate::numbers::is_digit(r[0]));
                    if crate::numbers::is_digit(r[0]) {
                        crate::numbers::lemma_digit_plain(r[0]);
                    }
                }
            }
            assert(!(r.len() >= 2 && r.first() == '"' && r.last() == '"')) by {
                crate::numbers::lemma_digit_plain(r.last());
            }
            assert(!(r.len() >= 2 && r.first() == '[' && r.last() == ']')) by {
                crate::numbers::lemma_digit_plain(r.last());
            }
            assert(spec_coerce(r) == SpecValue::Int(crate::numbers::spec_parse_int(r)));
        },
        SpecValue::Str(s) => {
            if s.contains(' ') {
                assert(r == seq!['"'] + s + seq!['"']);
                assert(r.len() >= 2 && r.first() == '"' && r.last() == '"');
                assert(r != true_chars()) by {
                    if r == true_chars() {
                        assert(r[0] == 't');
                    }
                }
                assert(r != false_chars()) by {
                    if r == false_chars() {
                        assert(r[0] == 'f');
                    }
                }
                assert(r.subrange(1, r.len() - 1) =~= s);
            } else {
                assert(r == s);
                assert(!(r.len() >= 2 && r.first() == '"' && r.last() == '"')) by {
                    assert(text_char_ok(r.first()));
                }
                assert(!is_int_syntax(r)) by {
                    if is_int_syntax(r) {
                        lemma_int_syntax_is_float_syntax(r);
                    }
                }
            }
        },
        _ => {},
    }
}

/// A rendered well-formed leaf coerces back to the value it came from,
/// also when one leading space from the line split still precedes it.
proof fn lemma_coerce_render(v: SpecValue, raw: Seq<char>)
    requires
        scalar_ok(v),
        raw == render_elem(v) || raw == seq![' '] + render_elem(v),
    ensures
        spec_coerce(raw) == v,
{
    lemma_render_elem_chars(v);
    assert(trim(raw) == render_elem(v)) by {
        lemma_trim_id(render_elem(v));
        if raw == seq![' '] + render_elem(v) {
            assert(raw.last() == render_elem(v).last());
            assert(rtrim(raw) == raw);
            assert(raw.first() == ' ');
            assert(raw.drop_first() =~= render_elem(v));
            assert(ltrim(raw) == ltrim(render_elem(v)));
        }
    }
    match v {
        SpecValue::Array(a) => {
            let r = render_elem(v);
            lemma_trim_id(r);
            lemma_join_elems_chars(a);
            let j = join_elems(a);
            assert(r == seq!['['] + j + seq![']']);
            assert(r != true_chars()) by {
                if r == true_chars() {
                    assert(r[0] == 't');
                }
            }
            assert(r != false_chars()) by {
                if r == false_chars() {
                    assert(r[0] == 'f');
                }
            }
            assert(r.len() >= 2 && r.first() == '[' && r.last() == ']');
            assert(!(r.first() == '"'));
            assert(trim(raw).subrange(1, trim(raw).len() - 1) =~= j);
            let sv = spec_coerce(raw);
            if a.len() == 0 {
                assert(trim(j) =~= Seq::<char>::empty());
                assert(sv == SpecValue::Array(Seq::<SpecValue>::empty()));
                assert(a =~= Seq::<SpecValue>::empty());
            } else {
                lemma_join_edges(a);
                lemma_trim_id(j);
                lemma_join_split(a);
                crate::chars::lemma_split_on_piece_len(j, ',');
                let ps = split_on(j, ',');
                assert(sv is Array);
                let mp = sv->Array_0;
                assert(mp == ps.map_values(
                    |p: Seq<char>|
                        if p.len() < raw.len() {
                            spec_coerce(p)
                        } else {
                            SpecValue::Null
                        },
                ));
                assert(mp =~= a) by {
                    assert(mp.len() == ps.len() == a.len());
                    assert forall|t: int| 0 <= t < a.len() implies mp[t] == a[t] by {
                        assert(ps[t].len() <= j.len() < r.len() <= raw.len());
                        assert(mp[t] == spec_coerce(ps[t]));
                        assert(elem_ok(a[t]));
                        if t == 0 {
                            lemma_coerce_elem_piece(a[0], ps[0]);
                        } else {
                            lemma_coerce_elem_piece(a[t], ps[t]);
                        }
                    }
                }
                assert(sv == SpecValue::Array(mp));
            }
        },
        _ => {
            lemma_coerce_render_leaf(v);
        },
    }
}

/// The pieces of the comma split of a join: the first piece is the first
/// rendering, each later piece is a space followed by a rendering.
proof fn lemma_join_split(a: Seq<SpecValue>)
    requires
        forall|i: int| 0 <= i < a.len() ==> elem_ok(#[trigger] a[i]),
    ensures
        a.len() > 0 ==> {
            let ps = split_on(join_elems(a), ',');
            &&& ps.len() == a.len()
            &&& ps[0] == render_elem(a[0])
            &&& forall|i: int|
                1 <= i < a.len() ==> #[trigger] ps[i] == seq![' '] + render_elem(a[i])
        },
    decreases a.len(),
{
    if a.len() == 1 {
        assert(elem_ok(a[0]));
        lemma_elem_no_comma(a[0]);
        lemma_split_no_sep(render_elem(a[0]));
    } else if a.len() > 1 {
        assert(forall|i: int| 0 <= i < a.drop_last().len() ==> elem_ok(#[trigger] a.drop_last()[i]));
        lemma_join_split(a.drop_last());
        let j0 = join_elems(a.drop_last());
        let r = render_elem(a.last());
        assert(join_elems(a) == j0 + seq![',', ' '] + r);
        lemma_elem_no_comma(a.last());
        lemma_split_append(j0, seq![' '] + r);
        let ps0 = split_on(j0, ',');
        let ps = split_on(join_elems(a), ',');
        assert(j0 + seq![','] + (seq![' '] + r) =~= join_elems(a));
        assert(ps =~= ps0.push(seq![' '] + r));
        assert(ps[0] == ps0[0]);
        assert(a.drop_last()[0] == a[0]);
        assert forall|i: int| 1 <= i < a.len() implies #[trigger] ps[i] == seq![' ']
            + render_elem(a[i]) by {
            if i < a.len() - 1 {
                assert(ps[i] == ps0[i]);
                assert(a.drop_last()[i] == a[i]);
            }
        }
    }
}

proof fn lemma_elem_no_comma(v: SpecValue)
    requires
        elem_ok(v),
    ensures
        forall|i: int| 0 <= i < render_elem(v).len() ==> #[trigger] render_elem(v)[i] != ',',
{
    match v {
        SpecValue::Int(i) => {
            let r = int_repr(i);
            crate::numbers::lemma_digits_repr_digits(if i < 0 {
                -i
            } else {
                i
            });
            assert forall|t: int| 0 <= t < r.len() implies r[t] != ',' by {
                if i < 0 {
                    if t > 0 {
                        assert(r[t] == crate::numbers::digits_repr(-i)[t - 1]);
                        assert(crate::numbers::is_digit(r[t]));
                        crate::numbers::lemma_digit_plain(r[t]);
                    }
                } else {
                    assert(crate::numbers::is_digit(r[t]));
                    crate::numbers::lemma_digit_plain(r[t]);
                }
            }
        },
        SpecValue::Str(s) => {
            assert(!s.contains(' ')) by {
                if s.contains(' ') {
                    let w = choose|w: int| 0 <= w < s.len() && s[w] == ' ';
                }
            }
        },
        _ => {},
    }
}

/// Splitting a separator-free sequence yields it as the one piece.
proof fn lemma_split_no_sep_gen(s: Seq<char>, sep: char)
    requires
        forall|i: int| 0 <= i < s.len() ==> #[trigger] s[i] != sep,
    ensures
        split_on(s, sep) == seq![s],
    decreases s.len(),
{
    if s.len() == 0 {
        assert(s =~= Seq::<char>::empty());
        assert(split_on(s, sep) == seq![Seq::<char>::empty()]);
    } else {
        assert(forall|i: int| 0 <= i < s.drop_last().len() ==> #[trigger] s.drop_last()[i] != sep);
        lemma_split_no_sep_gen(s.drop_last(), sep);
        let r = split_on(s.drop_last(), sep);
        assert(split_on(s, sep) == r.update(r.len() - 1, r.last().push(s.last())));
        assert(r.update(0, s.drop_last().push(s.last())) =~= seq![s.drop_last().push(s.last())]);
        assert(s.drop_last().push(s.last()) =~= s);
    }
}

proof fn lemma_split_no_sep(s: Seq<char>)
    requires
        forall|i: int| 0 <= i < s.len() ==> #[trigger] s[i] != ',',
    ensures
        split_on(s, ',') == seq![s],
{
    lemma_split_no_sep_gen(s, ',');
}

/// Appending a separator-free tail extends the last piece of a split.
proof fn lemma_split_append_tail(x: Seq<char>, y: Seq<char>, sep: char)
    requires
        forall|i: int| 0 <= i < y.len() ==> #[trigger] y[i] != sep,
    ensures
        ({
            let r = split_on(x, sep);
            split_on(x + y, sep) == r.update(r.len() - 1, r.last() + y)
        }),
    decreases y.len(),
{
    crate::chars::lemma_split_on_nonempty(x, sep);
    let r = split_on(x, sep);
    if y.len() == 0 {
        assert(x + y =~= x);
        assert(r.last() + y =~= r.last());
        assert(r.update(r.len() - 1, r.last()) =~= r);
    } else {
        assert(forall|i: int| 0 <= i < y.drop_last().len() ==> #[trigger] y.drop_last()[i] != sep);
        lemma_split_append_tail(x, y.drop_last(), sep);
        let w = x + y;
        assert(w.last() == y.last());
        assert(w.last() != sep);
        assert(w.drop_last() =~= x + y.drop_last());
        let r0 = split_on(x + y.drop_last(), sep);
        crate::chars::lemma_split_on_nonempty(x + y.drop_last(), sep);
        assert(split_on(w, sep) == r0.update(r0.len() - 1, r0.last().push(y.last())));
        assert(r0 == r.update(r.len() - 1, r.last() + y.drop_last()));
        assert(r0.update(r0.len() - 1, r0.last().push(y.last())) =~= r.update(
            r.len() - 1,
            r.last() + y,
        )) by {
            assert((r.last() + y.drop_last()).push(y.last()) =~= r.last() + y);
        }
    }
}

/// Splitting around one comma: the split of `x + "," + y`, with `y`
/// comma-free, is the split of `x` with `y` appended as one more piece.
proof fn lemma_split_append(x: Seq<char>, y: Seq<char>)
    requires
        forall|i: int| 0 <= i < y.len() ==> #[trigger] y[i] != ',',
    ensures
        split_on(x + seq![','] + y, ',') == split_on(x, ',').push(y),
    decreases y.len(),
{
    if y.len() == 0 {
        assert(x + seq![','] + y =~= x + seq![',']);
        assert((x + seq![',']).last() == ',');
        assert((x + seq![',']).drop_last() =~= x);
        assert(split_on(x + seq![','] + y, ',') == split_on(x, ',').push(Seq::empty()));
        assert(y =~= Seq::<char>::empty());
    } else {
        assert(forall|i: int| 0 <= i < y.drop_last().len() ==> #[trigger] y.drop_last()[i] != ',');
        lemma_split_append(x, y.drop_last());
        let w = x + seq![','] + y;
        assert(w.last() == y.last());
        assert(w.drop_last() =~= x + seq![','] + y.drop_last());
        let r0 = split_on(x + seq![','] + y.drop_last(), ',');
        crate::chars::lemma_split_on_nonempty(x + seq![','] + y.drop_last(), ',');
        assert(split_on(w, ',') == r0.update(r0.len() - 1, r0.last().push(y.last())));
        assert(r0 == split_on(x, ',').push(y.drop_last()));
        assert(r0.update(r0.len() - 1, r0.last().push(y.last())) =~= split_on(x, ',').push(
            y.drop_last().push(y.last()),
        ));
        assert(y.drop_last().push(y.last()) =~= y);
    }
}

/// The join of well-formed elements has no whitespace at its edges.
proof fn lemma_join_edges(a: Seq<SpecValue>)
    requires
        a.len() > 0,
        forall|i: int| 0 <= i < a.len() ==> elem_ok(#[trigger] a[i]),
    ensures
        join_elems(a).len() > 0,
        !is_ws(join_elems(a).first()),
        !is_ws(join_elems(a).last()),
    decreases a.len(),
{
    lemma_elem_render_edges(a.last());
    if a.len() == 1 {
    } else {
        assert(forall|i: int| 0 <= i < a.drop_last().len() ==> elem_ok(#[trigger] a.drop_last()[i]));
        lemma_join_edges(a.drop_last());
        let j = join_elems(a);
        assert(j == join_elems(a.drop_last()) + seq![',', ' '] + render_elem(a.last()));
        assert(j.first() == join_elems(a.drop_last()).first());
        assert(j.last() == render_elem(a.last()).last());
    }
}

proof fn lemma_elem_render_edges(v: SpecValue)
    requires
        elem_ok(v),
    ensures
        render_elem(v).len() > 0,
        !is_ws(render_elem(v).first()),
        !is_ws(render_elem(v).last()),
{
    match v {
        SpecValue::Int(i) => {
            lemma_int_repr_roundtrip(i);
            crate::numbers::lemma_digit_plain(render_elem(v).last());
            if i >= 0 {
                crate::numbers::lemma_digits_repr_digits(i);
                crate::numbers::lemma_digit_plain(render_elem(v).first());
            }
        },
        SpecValue::Str(s) => {
            assert(!s.contains(' ')) by {
                if s.contains(' ') {
                    let w = choose|w: int| 0 <= w < s.len() && s[w] == ' ';
                }
            }
        },
        _ => {},
    }
}

/// A split piece — a rendering, possibly behind one space — coerces to
/// its element.
proof fn lemma_coerce_elem_piece(v: SpecValue, p: Seq<char>)
    requires
        elem_ok(v),
        p == render_elem(v) || p == seq![' '] + render_elem(v),
    ensures
        spec_coerce(p) == v,
{
    assert(scalar_ok(v)) by {
        match v {
            SpecValue::Str(s) => {
                assert(!s.contains(' ')) by {
                    if s.contains(' ') {
                        let w = choose|w: int| 0 <= w < s.len() && s[w] == ' ';
                    }
                }
            },
            _ => {},
        }
    }
    lemma_coerce_render_leaf(v);
    if p == seq![' '] + render_elem(v) {
        lemma_render_elem_chars(v);
        assert(rtrim(p) == p) by {
            assert(p.last() == render_elem(v).last());
        }
        assert(ltrim(p) == ltrim(p.drop_first()));
        assert(p.drop_first() =~= render_elem(v));
        assert(trim(p) == trim(render_elem(v)));
    }
}


// ---------------------------------------------------------------------
// Tokenizing a concatenation of clean lines gives the lines back
// ---------------------------------------------------------------------
/// The text made of the given lines, each terminated by a newline.
pub open spec fn cat_lines(ls: Seq<Seq<char>>) -> Seq<char>
    decreases ls.len(),
{
    if ls.len() == 0 {
        Seq::empty()
    } else {
        cat_lines(ls.drop_last()) + ls.last() + seq!['\n']
    }
}

/// A line the tokenizer passes through unchanged: nonempty, free of
/// tabs and newlines, already comment-free and right-trimmed.
pub open spec fn clean_line(l: Seq<char>) -> bool {
    &&& l.len() > 0
    &&& forall|i: int| 0 <= i < l.len() ==> #[trigger] l[i] != '\t' && #[trigger] l[i] != '\n'
    &&& crate::tokenize::process_line(l) == l
}

proof fn lemma_cat_lines_chars(ls: Seq<Seq<char>>)
    requires
        forall|i: int| 0 <= i < ls.len() ==> clean_line(#[trigger] ls[i]),
    ensures
        forall|i: int| 0 <= i < cat_lines(ls).len() ==> #[trigger] cat_lines(ls)[i] != '\t',
        ls.len() > 0 ==> cat_lines(ls).last() == '\n',
    decreases ls.len(),
{
    if ls.len() > 0 {
        assert(forall|i: int| 0 <= i < ls.drop_last().len() ==> clean_line(
            #[trigger] ls.drop_last()[i],
        ));
        lemma_cat_lines_chars(ls.drop_last());
        assert(clean_line(ls.last()));
        let c = cat_lines(ls);
        let c0 = cat_lines(ls.drop_last());
        assert forall|i: int| 0 <= i < c.len() implies c[i] != '\t' by {
            if i < c0.len() {
                assert(c[i] == c0[i]);
            } else if i < c0.len() + ls.last().len() {
                assert(c[i] == ls.last()[i - c0.len()]);
            }
        }
    }
}

proof fn lemma_process_empty()
    ensures
        crate::tokenize::process_line(Seq::<char>::empty()) == Seq::<char>::empty(),
{
    crate::chars::lemma_find_ch(Seq::<char>::empty(), '#');
}

/// Tokenizing the concatenation of clean lines yields exactly the lines.
proof fn lemma_tok_cat(ls: Seq<Seq<char>>)
    requires
        forall|i: int| 0 <= i < ls.len() ==> clean_line(#[trigger] ls[i]),
    ensures
        spec_tokenize(cat_lines(ls)) == ls,
    decreases ls.len(),
{
    lemma_cat_lines_chars(ls);
    if ls.len() == 0 {
        lemma_expand_tabs_id(cat_lines(ls));
        lemma_process_empty();
        assert(split_on(Seq::<char>::empty(), '\n') == seq![Seq::<char>::empty()]);
        assert(seq![Seq::<char>::empty()].drop_last() =~= Seq::<Seq<char>>::empty());
        assert(seq![Seq::<char>::empty()].last() =~= Seq::<char>::empty());
        assert(crate::tokenize::tok_lines(seq![Seq::<char>::empty()])
            == crate::tokenize::tok_lines(Seq::<Seq<char>>::empty()));
        assert(spec_tokenize(cat_lines(ls)) =~= ls);
    } else {
        assert(forall|i: int| 0 <= i < ls.drop_last().len() ==> clean_line(
            #[trigger] ls.drop_last()[i],
        ));
        lemma_tok_cat(ls.drop_last());
        lemma_cat_lines_chars(ls.drop_last());
        let l = ls.last();
        let t0 = cat_lines(ls.drop_last());
        let c = cat_lines(ls);
        lemma_expand_tabs_id(c);
        lemma_expand_tabs_id(t0);
        assert(clean_line(l));
        // the last piece of split_on(t0) is empty
        crate::chars::lemma_split_on_nonempty(t0, '\n');
        let r0 = split_on(t0, '\n');
        assert(r0.last() =~= Seq::<char>::empty()) by {
            if t0.len() == 0 {
            } else {
                assert(t0.last() == '\n');
            }
        }
        // split of t0 + l extends that empty piece to l
        assert(forall|i: int| 0 <= i < l.len() ==> #[trigger] l[i] != '\n');
        lemma_split_append_tail(t0, l, '\n');
        let r1 = split_on(t0 + l, '\n');
        assert(r1 == r0.update(r0.len() - 1, r0.last() + l));
        assert(r0.last() + l =~= l);
        // the final newline adds one empty piece
        assert(c =~= (t0 + l) + seq!['\n']);
        assert(((t0 + l) + seq!['\n']).last() == '\n');
        assert(((t0 + l) + seq!['\n']).drop_last() =~= t0 + l);
        let r2 = split_on(c, '\n');
        assert(r2 == r1.push(Seq::empty()));
        // fold the processed lines
        lemma_process_empty();
        assert(r2.drop_last() =~= r1);
        assert(r2.last() =~= Seq::<char>::empty());
        assert(crate::tokenize::tok_lines(r2) == crate::tokenize::tok_lines(r1));
        assert(r1.drop_last() =~= r0.drop_last());
        assert(r1.last() == l);
        assert(crate::tokenize::tok_lines(r1) == crate::tokenize::tok_lines(r0.drop_last()).push(
            l,
        ));
        assert(crate::tokenize::tok_lines(r0) == crate::tokenize::tok_lines(r0.drop_last()));
        assert(spec_tokenize(t0) == crate::tokenize::tok_lines(r0));
        assert(spec_tokenize(c) =~= ls.drop_last().push(l));
        assert(ls.drop_last().push(l) =~= ls);
    }
}


// ---------------------------------------------------------------------
// The lines a well-formed document serializes to
// ---------------------------------------------------------------------
pub open spec fn sp2() -> Seq<char> {
    seq![' ', ' ']
}

pub open spec fn kv_line(pad: Seq<char>, k: Seq<char>, v: SpecValue) -> Seq<char> {
    pad + k + seq![' ', '=', ' '] + render_elem(v)
}

pub open spec fn hdr_line(pad: Seq<char>, k: Seq<char>) -> Seq<char> {
    pad + k + seq![':']
}

pub open spec fn flat_lines(es: Seq<(Seq<char>, SpecValue)>, pad: Seq<char>) -> Seq<Seq<char>>
    decreases es.len(),
{
    if es.len() == 0 {
        Seq::empty()
    } else {
        seq![kv_line(pad, es.first().0, es.first().1)] + flat_lines(es.drop_first(), pad)
    }
}

pub open spec fn entry_lines(k: Seq<char>, v: SpecValue, pad: Seq<char>) -> Seq<Seq<char>> {
    match v {
        SpecValue::Object(es2) => seq![hdr_line(pad, k)] + flat_lines(es2, pad + sp2()),
        _ => seq![kv_line(pad, k, v)],
    }
}

pub open spec fn doc_lines(es: Seq<(Seq<char>, SpecValue)>, pad: Seq<char>) -> Seq<Seq<char>>
    decreases es.len(),
{
    if es.len() == 0 {
        Seq::empty()
    } else {
        entry_lines(es.first().0, es.first().1, pad) + doc_lines(es.drop_first(), pad)
    }
}

proof fn lemma_cat_lines_concat(a: Seq<Seq<char>>, b: Seq<Seq<char>>)
    ensures
        cat_lines(a + b) == cat_lines(a) + cat_lines(b),
    decreases b.len(),
{
    if b.len() == 0 {
        assert(a + b =~= a);
        assert(cat_lines(a) + cat_lines(b) =~= cat_lines(a));
    } else {
        lemma_cat_lines_concat(a, b.drop_last());
        assert((a + b).drop_last() =~= a + b.drop_last());
        assert((a + b).last() == b.last());
        assert(cat_lines(a + b) == cat_lines(a + b.drop_last()) + b.last() + seq!['\n']);
        assert(cat_lines(a) + (cat_lines(b.drop_last()) + b.last() + seq!['\n']) =~= (cat_lines(a)
            + cat_lines(b.drop_last())) + b.last() + seq!['\n']);
    }
}

proof fn lemma_cat_singleton(l: Seq<char>)
    ensures
        cat_lines(seq![l]) == l + seq!['\n'],
{
    assert(seq![l].drop_last() =~= Seq::<Seq<char>>::empty());
    assert(cat_lines(Seq::<Seq<char>>::empty()) == Seq::<char>::empty());
    assert(cat_lines(seq![l]) =~= l + seq!['\n']);
}

proof fn lemma_flat_lines_snoc(es: Seq<(Seq<char>, SpecValue)>, e: (Seq<char>, SpecValue), pad: Seq<char>)
    ensures
        flat_lines(es.push(e), pad) == flat_lines(es, pad) + seq![kv_line(pad, e.0, e.1)],
    decreases es.len(),
{
    if es.len() == 0 {
        assert(es.push(e).first() == e);
        assert(es.push(e).drop_first() =~= Seq::<(Seq<char>, SpecValue)>::empty());
        assert(flat_lines(Seq::<(Seq<char>, SpecValue)>::empty(), pad) == Seq::<Seq<char>>::empty());
        assert(flat_lines(es.push(e), pad) =~= flat_lines(es, pad) + seq![kv_line(pad, e.0, e.1)]);
    } else {
        assert(es.push(e).first() == es.first());
        assert(es.push(e).drop_first() =~= es.drop_first().push(e));
        lemma_flat_lines_snoc(es.drop_first(), e, pad);
        assert(seq![kv_line(pad, es.first().0, es.first().1)] + (flat_lines(es.drop_first(), pad)
            + seq![kv_line(pad, e.0, e.1)]) =~= (seq![kv_line(pad, es.first().0, es.first().1)]
            + flat_lines(es.drop_first(), pad)) + seq![kv_line(pad, e.0, e.1)]);
    }
}

proof fn lemma_doc_lines_snoc(es: Seq<(Seq<char>, SpecValue)>, e: (Seq<char>, SpecValue), pad: Seq<char>)
    ensures
        doc_lines(es.push(e), pad) == doc_lines(es, pad) + entry_lines(e.0, e.1, pad),
    decreases es.len(),
{
    if es.len() == 0 {
        assert(es.push(e).first() == e);
        assert(es.push(e).drop_first() =~= Seq::<(Seq<char>, SpecValue)>::empty());
        assert(doc_lines(Seq::<(Seq<char>, SpecValue)>::empty(), pad) == Seq::<Seq<char>>::empty());
        assert(doc_lines(es.push(e), pad) =~= doc_lines(es, pad) + entry_lines(e.0, e.1, pad));
    } else {
        assert(es.push(e).first() == es.first());
        assert(es.push(e).drop_first() =~= es.drop_first().push(e));
        lemma_doc_lines_snoc(es.drop_first(), e, pad);
        assert(entry_lines(es.first().0, es.first().1, pad) + (doc_lines(es.drop_first(), pad)
            + entry_lines(e.0, e.1, pad)) =~= (entry_lines(es.first().0, es.first().1, pad)
            + doc_lines(es.drop_first(), pad)) + entry_lines(e.0, e.1, pad));
    }
}

/// The serialized text of leaf entries is the concatenation of their
/// lines.
proof fn lemma_flat_text(es: Seq<(Seq<char>, SpecValue)>, pad: Seq<char>)
    requires
        forall|i: int| 0 <= i < es.len() ==> scalar_ok((#[trigger] es[i]).1),
    ensures
        crate::serialize::render_entries(es, pad) == cat_lines(flat_lines(es, pad)),
    decreases es.len(),
{
    if es.len() == 0 {
        assert(flat_lines(es, pad) =~= Seq::<Seq<char>>::empty());
    } else {
        assert(forall|i: int| 0 <= i < es.drop_last().len() ==> scalar_ok(
            (#[trigger] es.drop_last()[i]).1,
        ));
        lemma_flat_text(es.drop_last(), pad);
        let e = es.last();
        assert(scalar_ok(e.1));
        assert(crate::serialize::render_entry(e.0, e.1, pad) == pad + e.0 + seq![' ', '=', ' ']
            + render_elem(e.1) + seq!['\n']);
        assert(es.drop_last().push(e) =~= es);
        lemma_flat_lines_snoc(es.drop_last(), e, pad);
        lemma_cat_lines_concat(flat_lines(es.drop_last(), pad), seq![kv_line(pad, e.0, e.1)]);
        lemma_cat_singleton(kv_line(pad, e.0, e.1));
        assert(crate::serialize::render_entries(es, pad) =~= cat_lines(flat_lines(es, pad))) by {
            assert(kv_line(pad, e.0, e.1) + seq!['\n'] =~= pad + e.0 + seq![' ', '=', ' ']
                + render_elem(e.1) + seq!['\n']);
        }
    }
}

/// The serialized text of a well-formed document is the concatenation of
/// its lines.
proof fn lemma_doc_text(es: Seq<(Seq<char>, SpecValue)>, pad: Seq<char>)
    requires
        forall|i: int|
            0 <= i < es.len() ==> scalar_ok((#[trigger] es[i]).1) || ((#[trigger] es[i]).1
                matches SpecValue::Object(es2) && flat_obj_ok(es2)),
    ensures
        crate::serialize::render_entries(es, pad) == cat_lines(doc_lines(es, pad)),
    decreases es.len(),
{
    if es.len() == 0 {
        assert(doc_lines(es, pad) =~= Seq::<Seq<char>>::empty());
    } else {
        assert(forall|i: int|
            0 <= i < es.drop_last().len() ==> scalar_ok((#[trigger] es.drop_last()[i]).1) || (
            (#[trigger] es.drop_last()[i]).1 matches SpecValue::Object(es2) && flat_obj_ok(es2)));
        lemma_doc_text(es.drop_last(), pad);
        let e = es.last();
        assert(es.drop_last().push(e) =~= es);
        lemma_doc_lines_snoc(es.drop_last(), e, pad);
        lemma_cat_lines_concat(doc_lines(es.drop_last(), pad), entry_lines(e.0, e.1, pad));
        match e.1 {
            SpecValue::Object(es2) => {
                assert(flat_obj_ok(es2));
                assert(crate::serialize::render_entry(e.0, e.1, pad) == pad + e.0 + seq![':', '\n']
                    + crate::serialize::render_entries(es2, pad + sp2()));
                lemma_flat_text(es2, pad + sp2());
                lemma_cat_lines_concat(seq![hdr_line(pad, e.0)], flat_lines(es2, pad + sp2()));
                lemma_cat_singleton(hdr_line(pad, e.0));
                let hx = pad + e.0 + seq![':', '\n'];
                let ry = crate::serialize::render_entries(es2, pad + sp2());
                let dd = cat_lines(doc_lines(es.drop_last(), pad));
                assert(hdr_line(pad, e.0) + seq!['\n'] =~= hx);
                assert(doc_lines(es, pad) == doc_lines(es.drop_last(), pad) + entry_lines(
                    e.0,
                    e.1,
                    pad,
                ));
                assert(cat_lines(entry_lines(e.0, e.1, pad)) =~= hx + ry);
                assert(cat_lines(doc_lines(es, pad)) == dd + cat_lines(entry_lines(e.0, e.1, pad)));
                assert(cat_lines(doc_lines(es, pad)) =~= dd + hx + ry);
                assert(crate::serialize::render_entries(es, pad) =~= dd + hx + ry);
            },
            _ => {
                assert(scalar_ok(e.1));
                lemma_cat_singleton(kv_line(pad, e.0, e.1));
                let dd = cat_lines(doc_lines(es.drop_last(), pad));
                let kx = kv_line(pad, e.0, e.1) + seq!['\n'];
                assert(doc_lines(es, pad) == doc_lines(es.drop_last(), pad) + entry_lines(
                    e.0,
                    e.1,
                    pad,
                ));
                assert(cat_lines(entry_lines(e.0, e.1, pad)) =~= kx);
                assert(cat_lines(doc_lines(es, pad)) == dd + cat_lines(entry_lines(e.0, e.1, pad)));
                assert(crate::serialize::render_entry(e.0, e.1, pad) =~= kx);
                assert(crate::serialize::render_entries(es, pad) =~= dd + kx);
                assert(cat_lines(doc_lines(es, pad)) =~= dd + kx);
            },
        }
    }
}


// ---------------------------------------------------------------------
// How the parser consumes the serialized lines
// ---------------------------------------------------------------------
proof fn lemma_ltrim_spaces(pad: Seq<char>, x: Seq<char>)
    requires
        forall|i: int| 0 <= i < pad.len() ==> #[trigger] pad[i] == ' ',
    ensures
        ltrim(pad + x) == ltrim(x),
    decreases pad.len(),
{
    if pad.len() == 0 {
        assert(pad + x =~= x);
    } else {
        assert(pad.drop_first() + x =~= (pad + x).drop_first());
        assert(forall|i: int|
            0 <= i < pad.drop_first().len() ==> #[trigger] pad.drop_first()[i] == ' ');
        lemma_ltrim_spaces(pad.drop_first(), x);
        assert((pad + x).first() == ' ');
    }
}

/// What the tokenizer and the line classifier see of a serialized leaf
/// line: it passes through tokenization unchanged, its indentation is the
/// pad, and its trimmed form is the key, ` = `, and the rendered value.
proof fn lemma_kv_line_facts(pad: Seq<char>, k: Seq<char>, v: SpecValue)
    requires
        forall|i: int| 0 <= i < pad.len() ==> #[trigger] pad[i] == ' ',
        key_ok(k),
        scalar_ok(v),
    ensures
        clean_line(kv_line(pad, k, v)),
        leading_ws(kv_line(pad, k, v)) == pad.len(),
        trim(kv_line(pad, k, v)) == k + seq![' ', '=', ' '] + render_elem(v),
{
    let l = kv_line(pad, k, v);
    let r = render_elem(v);
    let x = k + seq![' ', '=', ' '] + r;
    lemma_render_elem_chars(v);
    assert(l =~= pad + x);
    assert(l.len() == pad.len() + k.len() + 3 + r.len());
    assert forall|i: int| 0 <= i < l.len() implies #[trigger] l[i] != '\t' && l[i] != '\n' && l[i]
        != '#' by {
        if i < pad.len() {
            assert(l[i] == ' ');
        } else if i < pad.len() + k.len() {
            assert(l[i] == k[i - pad.len()]);
            assert(text_char_ok(k[i - pad.len()]));
        } else if i < pad.len() + k.len() + 3 {
        } else {
            assert(l[i] == r[i - pad.len() - k.len() - 3]);
        }
    }
    assert(l.last() == r.last());
    crate::chars::lemma_find_ch(l, '#');
    if find_ch(l, '#') >= 0 {
        assert(l[find_ch(l, '#')] == '#');
    }
    assert(crate::tokenize::before_hash(l) == l);
    assert(rtrim(l) == l);
    assert(crate::tokenize::process_line(l) == l);
    lemma_leading_ws_at(l, pad.len() as int);
    lemma_ltrim_spaces(pad, x);
    assert(x.first() == k.first());
    assert(!is_ws(x.first()));
    assert(ltrim(x) == x);
    assert(trim(l) == ltrim(rtrim(pad + x)));
}

/// The same for a block-header line.
proof fn lemma_hdr_line_facts(pad: Seq<char>, k: Seq<char>)
    requires
        forall|i: int| 0 <= i < pad.len() ==> #[trigger] pad[i] == ' ',
        key_ok(k),
    ensures
        clean_line(hdr_line(pad, k)),
        leading_ws(hdr_line(pad, k)) == pad.len(),
        trim(hdr_line(pad, k)) == k + seq![':'],
{
    let l = hdr_line(pad, k);
    let x = k + seq![':'];
    assert(l =~= pad + x);
    assert forall|i: int| 0 <= i < l.len() implies #[trigger] l[i] != '\t' && l[i] != '\n' && l[i]
        != '#' by {
        if i < pad.len() {
            assert(l[i] == ' ');
        } else if i < pad.len() + k.len() {
            assert(l[i] == k[i - pad.len()]);
            assert(text_char_ok(k[i - pad.len()]));
        }
    }
    assert(l.last() == ':');
    crate::chars::lemma_find_ch(l, '#');
    if find_ch(l, '#') >= 0 {
        assert(l[find_ch(l, '#')] == '#');
    }
    assert(crate::tokenize::before_hash(l) == l);
    assert(rtrim(l) == l);
    assert(crate::tokenize::process_line(l) == l);
    lemma_leading_ws_at(l, pad.len() as int);
    lemma_ltrim_spaces(pad, x);
    assert(x.first() == k.first());
    assert(!is_ws(x.first()));
    assert(ltrim(x) == x);
    assert(trim(l) == ltrim(rtrim(pad + x)));
}

use crate::parse::{collapse, finalize_once, init_stack, pop_to, run_lines, step_line, SpecFrame};
use crate::value::{find_key, lemma_find_key_present, obj_insert};

/// The effect of one serialized leaf line: frames pop for its
/// indentation, then the key and value join the top frame's object.
proof fn lemma_step_kv(st: Seq<SpecFrame>, pad: Seq<char>, k: Seq<char>, v: SpecValue)
    requires
        forall|i: int| 0 <= i < pad.len() ==> #[trigger] pad[i] == ' ',
        key_ok(k),
        scalar_ok(v),
        st.len() >= 1,
    ensures
        ({
            let st1 = pop_to(st, pad.len() as int / 2, true);
            let top = st1.last();
            step_line(st, kv_line(pad, k, v)) == st1.update(
                st1.len() - 1,
                (SpecFrame { obj: obj_insert(top.obj, k, v), ..top }),
            )
        }),
{
    let l = kv_line(pad, k, v);
    lemma_kv_line_facts(pad, k, v);
    lemma_render_elem_chars(v);
    let t = trim(l);
    let r = render_elem(v);
    assert(t == k + seq![' ', '=', ' '] + r);
    assert(t.last() == r.last());
    assert(t.last() != ':');
    assert(t[k.len() as int + 1] == '=');
    assert forall|i: int| 0 <= i < k.len() + 1 implies t[i] != '=' by {
        if i < k.len() {
            assert(t[i] == k[i]);
        } else {
            assert(t[i] == ' ');
        }
    }
    lemma_find_ch_at(t, '=', k.len() as int + 1);
    let p = find_ch(t, '=');
    assert(p == k.len() + 1);
    assert(t.take(p) =~= k + seq![' ']);
    assert((k + seq![' ']).last() == ' ');
    assert((k + seq![' ']).drop_last() =~= k);
    assert(rtrim(k + seq![' ']) == rtrim(k));
    assert(!is_ws(k.last()));
    assert(rtrim(k) == k);
    assert(!is_ws(k.first()));
    assert(ltrim(k) == k);
    assert(trim(t.take(p)) == k);
    assert(t.skip(p + 1) =~= seq![' '] + r);
    lemma_coerce_render(v, seq![' '] + r);
    assert(crate::scalar::spec_coerce(t.skip(p + 1)) == v);
    assert(leading_ws(l) / 2 == pad.len() as int / 2);
}

/// The effect of one block-header line: frames pop, then a frame one
/// level deeper opens with an empty object under the key.
proof fn lemma_step_hdr(st: Seq<SpecFrame>, pad: Seq<char>, k: Seq<char>)
    requires
        forall|i: int| 0 <= i < pad.len() ==> #[trigger] pad[i] == ' ',
        key_ok(k),
        st.len() >= 1,
    ensures
        ({
            let st1 = pop_to(st, pad.len() as int / 2, false);
            step_line(st, hdr_line(pad, k)) == st1.push(
                (SpecFrame { depth: pad.len() as int / 2 + 1, key: k, obj: Seq::empty() }),
            )
        }),
{
    let l = hdr_line(pad, k);
    lemma_hdr_line_facts(pad, k);
    let t = trim(l);
    assert(t == k + seq![':']);
    assert(t.len() > 0 && t.last() == ':');
    assert(t.drop_last() =~= k);
    assert(!is_ws(k.first()) && !is_ws(k.last()));
    assert(rtrim(k) == k);
    assert(ltrim(k) == k);
    assert(trim(t.drop_last()) == k);
    assert(leading_ws(l) / 2 == pad.len() as int / 2);
}

proof fn lemma_run_lines_concat(st: Seq<SpecFrame>, a: Seq<Seq<char>>, b: Seq<Seq<char>>)
    ensures
        run_lines(st, a + b) == run_lines(run_lines(st, a), b),
    decreases a.len(),
{
    if a.len() == 0 {
        assert(a + b =~= b);
    } else {
        assert((a + b).first() == a.first());
        assert((a + b).drop_first() =~= a.drop_first() + b);
        lemma_run_lines_concat(step_line(st, a.first()), a.drop_first(), b);
    }
}

proof fn lemma_run_singleton(st: Seq<SpecFrame>, l: Seq<char>)
    ensures
        run_lines(st, seq![l]) == step_line(st, l),
{
    assert(seq![l].first() == l);
    assert(seq![l].drop_first() =~= Seq::<Seq<char>>::empty());
    assert(run_lines(step_line(st, l), Seq::<Seq<char>>::empty()) == step_line(st, l));
}

proof fn lemma_no_key(es: Seq<(Seq<char>, SpecValue)>, k: Seq<char>)
    requires
        forall|j: int| 0 <= j < es.len() ==> (#[trigger] es[j]).0 != k,
    ensures
        find_key(es, k) == -1,
{
    lemma_find_key_present(es, k);
    if find_key(es, k) >= 0 {
        assert(es[find_key(es, k)].0 == k);
    }
}

/// The root object a frame stack denotes once every open frame closes.
pub open spec fn merged_obj(st: Seq<SpecFrame>) -> Seq<(Seq<char>, SpecValue)> {
    collapse(st).first().obj
}

/// Consuming the leaf lines of an open block fills its frame's object,
/// entry by entry, in order.
proof fn lemma_flat_parse(f0: SpecFrame, k: Seq<char>, done: Seq<(Seq<char>, SpecValue)>, rest: Seq<(Seq<char>, SpecValue)>)
    requires
        forall|i: int| 0 <= i < rest.len() ==> key_ok((#[trigger] rest[i]).0),
        forall|i: int| 0 <= i < rest.len() ==> scalar_ok((#[trigger] rest[i]).1),
        forall|i: int, j: int| 0 <= i < j < rest.len() ==> rest[i].0 != rest[j].0,
        forall|i: int, j: int|
            0 <= i < rest.len() && 0 <= j < done.len() ==> (#[trigger] rest[i]).0 != (
            #[trigger] done[j]).0,
    ensures
        run_lines(
            seq![f0, SpecFrame { depth: 1, key: k, obj: done }],
            flat_lines(rest, sp2()),
        ) == seq![f0, SpecFrame { depth: 1, key: k, obj: done + rest }],
    decreases rest.len(),
{
    let st = seq![f0, SpecFrame { depth: 1, key: k, obj: done }];
    if rest.len() == 0 {
        assert(flat_lines(rest, sp2()) =~= Seq::<Seq<char>>::empty());
        assert(done + rest =~= done);
        assert(run_lines(st, Seq::empty()) == st);
        assert(st =~~= seq![f0, SpecFrame { depth: 1, key: k, obj: done + rest }]);
    } else {
        let e = rest.first();
        assert(key_ok(e.0) && scalar_ok(e.1));
        assert(flat_lines(rest, sp2()) == seq![kv_line(sp2(), e.0, e.1)] + flat_lines(
            rest.drop_first(),
            sp2(),
        ));
        lemma_run_lines_concat(st, seq![kv_line(sp2(), e.0, e.1)], flat_lines(
            rest.drop_first(),
            sp2(),
        ));
        lemma_run_singleton(st, kv_line(sp2(), e.0, e.1));
        lemma_step_kv(st, sp2(), e.0, e.1);
        assert(pop_to(st, 1, true) == st);
        assert(st.last() == SpecFrame { depth: 1, key: k, obj: done });
        assert forall|j: int| 0 <= j < done.len() implies (#[trigger] done[j]).0 != e.0 by {
            assert(rest[0].0 != done[j].0);
        }
        lemma_no_key(done, e.0);
        assert(obj_insert(done, e.0, e.1) == done.push(e)) by {
            assert((e.0, e.1) == e);
        }
        let st2 = st.update(1, SpecFrame { depth: 1, key: k, obj: done.push(e) });
        assert(step_line(st, kv_line(sp2(), e.0, e.1)) == st2);
        assert(st2 =~~= seq![f0, SpecFrame { depth: 1, key: k, obj: done.push(e) }]);
        assert forall|i: int, j: int|
            0 <= i < rest.drop_first().len() && 0 <= j < done.push(e).len() implies (
        #[trigger] rest.drop_first()[i]).0 != (#[trigger] done.push(e)[j]).0 by {
            assert(rest.drop_first()[i] == rest[i + 1]);
            if j < done.len() {
            } else {
                assert(done.push(e)[j] == e);
                assert(rest[i + 1].0 != rest[0].0);
            }
        }
        assert(forall|i: int| 0 <= i < rest.drop_first().len() ==> key_ok(
            (#[trigger] rest.drop_first()[i]).0,
        ) && scalar_ok(rest.drop_first()[i].1)) by {
            assert(forall|i: int|
                0 <= i < rest.drop_first().len() ==> #[trigger] rest.drop_first()[i] == rest[i
                    + 1]);
        }
        assert(forall|i: int, j: int|
            0 <= i < j < rest.drop_first().len() ==> (#[trigger] rest.drop_first()[i]).0 != (
            #[trigger] rest.drop_first()[j]).0) by {
            assert(forall|i: int|
                0 <= i < rest.drop_first().len() ==> #[trigger] rest.drop_first()[i] == rest[i
                    + 1]);
        }
        lemma_flat_parse(f0, k, done.push(e), rest.drop_first());
        assert(done.push(e) + rest.drop_first() =~= done + rest);
    }
}


/// Every line a well-formed document serializes to is clean.
proof fn lemma_doc_lines_clean(es: Seq<(Seq<char>, SpecValue)>, pad: Seq<char>)
    requires
        forall|i: int| 0 <= i < pad.len() ==> #[trigger] pad[i] == ' ',
        keys_ok(es),
        forall|i: int|
            0 <= i < es.len() ==> scalar_ok((#[trigger] es[i]).1) || ((#[trigger] es[i]).1
                matches SpecValue::Object(es2) && flat_obj_ok(es2)),
    ensures
        forall|i: int| 0 <= i < doc_lines(es, pad).len() ==> clean_line(#[trigger] doc_lines(es, pad)[i]),
    decreases es.len(),
{
    if es.len() > 0 {
        let e = es.first();
        assert(key_ok(e.0));
        assert forall|i: int|
            0 <= i < es.drop_first().len() implies key_ok((#[trigger] es.drop_first()[i]).0) && (
        scalar_ok(es.drop_first()[i].1) || (es.drop_first()[i].1 matches SpecValue::Object(es2)
            && flat_obj_ok(es2))) by {
            assert(es.drop_first()[i] == es[i + 1]);
        }
        assert(keys_ok(es.drop_first())) by {
            assert(forall|i: int|
                0 <= i < es.drop_first().len() ==> #[trigger] es.drop_first()[i] == es[i + 1]);
        }
        lemma_doc_lines_clean(es.drop_first(), pad);
        let el = entry_lines(e.0, e.1, pad);
        assert forall|i: int| 0 <= i < el.len() implies clean_line(#[trigger] el[i]) by {
            match e.1 {
                SpecValue::Object(es2) => {
                    lemma_hdr_line_facts(pad, e.0);
                    if i > 0 {
                        let fl = flat_lines(es2, pad + sp2());
                        assert(el[i] == fl[i - 1]);
                        assert(forall|t: int|
                            0 <= t < (pad + sp2()).len() ==> #[trigger] (pad + sp2())[t] == ' ');
                        lemma_flat_lines_clean(es2, pad + sp2());
                    }
                },
                _ => {
                    assert(scalar_ok(e.1));
                    lemma_kv_line_facts(pad, e.0, e.1);
                    assert(el[i] == kv_line(pad, e.0, e.1));
                },
            }
        }
        assert forall|i: int| 0 <= i < doc_lines(es, pad).len() implies clean_line(
            #[trigger] doc_lines(es, pad)[i],
        ) by {
            if i < el.len() {
                assert(doc_lines(es, pad)[i] == el[i]);
            } else {
                assert(doc_lines(es, pad)[i] == doc_lines(es.drop_first(), pad)[i - el.len()]);
            }
        }
    }
}

proof fn lemma_flat_lines_clean(es: Seq<(Seq<char>, SpecValue)>, pad: Seq<char>)
    requires
        forall|i: int| 0 <= i < pad.len() ==> #[trigger] pad[i] == ' ',
        keys_ok(es),
        forall|i: int| 0 <= i < es.len() ==> scalar_ok((#[trigger] es[i]).1),
    ensures
        forall|i: int|
            0 <= i < flat_lines(es, pad).len() ==> clean_line(#[trigger] flat_lines(es, pad)[i]),
    decreases es.len(),
{
    if es.len() > 0 {
        let e = es.first();
        assert(key_ok(e.0) && scalar_ok(e.1));
        lemma_kv_line_facts(pad, e.0, e.1);
        assert forall|i: int|
            0 <= i < es.drop_first().len() implies key_ok((#[trigger] es.drop_first()[i]).0)
            && scalar_ok(es.drop_first()[i].1) by {
            assert(es.drop_first()[i] == es[i + 1]);
        }
        assert(keys_ok(es.drop_first())) by {
            assert(forall|i: int|
                0 <= i < es.drop_first().len() ==> #[trigger] es.drop_first()[i] == es[i + 1]);
        }
        lemma_flat_lines_clean(es.drop_first(), pad);
        assert forall|i: int| 0 <= i < flat_lines(es, pad).len() implies clean_line(
            #[trigger] flat_lines(es, pad)[i],
        ) by {
            if i == 0 {
                assert(flat_lines(es, pad)[0] == kv_line(pad, e.0, e.1));
            } else {
                assert(flat_lines(es, pad)[i] == flat_lines(es.drop_first(), pad)[i - 1]);
            }
        }
    }
}

/// Consuming the serialized lines of well-formed entries appends exactly
/// those entries to the document's root object.
proof fn lemma_doc_parse(st: Seq<SpecFrame>, es: Seq<(Seq<char>, SpecValue)>)
    requires
        st.len() == 1 || st.len() == 2,
        st[0].depth == 0,
        st.len() == 2 ==> st[1].depth == 1,
        keys_ok(es),
        forall|i: int|
            0 <= i < es.len() ==> scalar_ok((#[trigger] es[i]).1) || ((#[trigger] es[i]).1
                matches SpecValue::Object(es2) && flat_obj_ok(es2)),
        forall|i: int, j: int|
            0 <= i < es.len() && 0 <= j < merged_obj(st).len() ==> (#[trigger] es[i]).0 != (
            #[trigger] merged_obj(st)[j]).0,
    ensures
        collapse(run_lines(st, doc_lines(es, Seq::empty()))).first().obj == merged_obj(st) + es,
    decreases es.len(),
{
    let empty_pad = Seq::<char>::empty();
    if es.len() == 0 {
        assert(doc_lines(es, empty_pad) =~= Seq::<Seq<char>>::empty());
        assert(run_lines(st, Seq::<Seq<char>>::empty()) == st);
        assert(merged_obj(st) + es =~= merged_obj(st));
    } else {
        let e = es.first();
        let rest = es.drop_first();
        assert(key_ok(e.0));
        assert(doc_lines(es, empty_pad) == entry_lines(e.0, e.1, empty_pad) + doc_lines(
            rest,
            empty_pad,
        ));
        lemma_run_lines_concat(st, entry_lines(e.0, e.1, empty_pad), doc_lines(rest, empty_pad));
        // facts that both entry kinds share
        assert(keys_ok(rest)) by {
            assert(forall|i: int| 0 <= i < rest.len() ==> #[trigger] rest[i] == es[i + 1]);
        }
        assert(forall|i: int|
            0 <= i < rest.len() ==> scalar_ok((#[trigger] rest[i]).1) || ((#[trigger] rest[i]).1
                matches SpecValue::Object(es2) && flat_obj_ok(es2))) by {
            assert(forall|i: int| 0 <= i < rest.len() ==> #[trigger] rest[i] == es[i + 1]);
        }
        let m0 = merged_obj(st);
        assert forall|j: int| 0 <= j < m0.len() implies (#[trigger] m0[j]).0 != e.0 by {
            assert(es[0].0 != m0[j].0);
        }
        lemma_no_key(m0, e.0);
        // popping to indentation zero always leaves exactly the root,
        // holding the merged object
        let st1s = pop_to(st, 0, true);
        let st1h = pop_to(st, 0, false);
        if st.len() == 1 {
            assert(collapse(st) == st);
            assert(st1s == st && st1h == st);
        } else {
            assert(st.last().depth == 1);
            let f = finalize_once(st);
            assert(f.len() == 1);
            assert(collapse(st) == collapse(f));
            assert(collapse(f) == f);
            assert(pop_to(f, 0, true) == f && pop_to(f, 0, false) == f);
            assert(st1s == f && st1h == f);
        }
        assert(st1s == st1h);
        assert(st1s.len() == 1);
        assert(st1s.first().obj == m0);
        assert(st1s.first().depth == 0);
        match e.1 {
            SpecValue::Object(es2) => {
                assert(flat_obj_ok(es2));
                assert(entry_lines(e.0, e.1, empty_pad) == seq![hdr_line(empty_pad, e.0)]
                    + flat_lines(es2, empty_pad + sp2()));
                lemma_run_lines_concat(st, seq![hdr_line(empty_pad, e.0)], flat_lines(
                    es2,
                    empty_pad + sp2(),
                ));
                lemma_run_singleton(st, hdr_line(empty_pad, e.0));
                lemma_step_hdr(st, empty_pad, e.0);
                let stA = st1h.push(SpecFrame { depth: 1, key: e.0, obj: Seq::empty() });
                assert(step_line(st, hdr_line(empty_pad, e.0)) == stA);
                assert(empty_pad + sp2() =~= sp2());
                assert(stA =~~= seq![st1h.first(), SpecFrame { depth: 1, key: e.0, obj: Seq::empty() }]);
                assert forall|i: int, j: int|
                    0 <= i < es2.len() && 0 <= j < Seq::<(Seq<char>, SpecValue)>::empty().len()
                    implies (#[trigger] es2[i]).0 != (#[trigger] Seq::<(
                    Seq<char>,
                    SpecValue,
                )>::empty()[j]).0 by {}
                lemma_flat_parse(st1h.first(), e.0, Seq::empty(), es2);
                let stB = seq![st1h.first(), SpecFrame { depth: 1, key: e.0, obj: Seq::empty() + es2 }];
                assert(run_lines(stA, flat_lines(es2, sp2())) == stB);
                assert(Seq::<(Seq<char>, SpecValue)>::empty() + es2 =~= es2);
                let stB2 = seq![st1h.first(), SpecFrame { depth: 1, key: e.0, obj: es2 }];
                assert(stB =~~= stB2);
                // close the block: its object lands under its key
                assert(merged_obj(stB2) == m0.push((e.0, SpecValue::Object(es2)))) by {
                    let fz = finalize_once(stB2);
                    assert(fz.len() == 1);
                    assert(collapse(stB2) == collapse(fz));
                    assert(collapse(fz) == fz);
                    assert(fz.first().obj == obj_insert(m0, e.0, SpecValue::Object(es2)));
                }
                assert(m0.push((e.0, SpecValue::Object(es2))) == m0.push(e)) by {
                    assert((e.0, SpecValue::Object(es2)) == e);
                }
                assert forall|i: int, j: int|
                    0 <= i < rest.len() && 0 <= j < merged_obj(stB2).len() implies (
                #[trigger] rest[i]).0 != (#[trigger] merged_obj(stB2)[j]).0 by {
                    assert(merged_obj(stB2) == m0.push(e));
                    assert(rest[i] == es[i + 1]);
                    if j < m0.len() {
                        assert(merged_obj(stB2)[j] == m0[j]);
                    } else {
                        assert(merged_obj(stB2)[j] == e);
                        assert(es[i + 1].0 != es[0].0);
                    }
                }
                lemma_doc_parse(stB2, rest);
                assert(merged_obj(stB2) + rest =~= m0 + es) by {
                    assert(merged_obj(stB2) == m0.push(e));
                }
            },
            _ => {
                assert(scalar_ok(e.1));
                assert(entry_lines(e.0, e.1, empty_pad) == seq![kv_line(empty_pad, e.0, e.1)]);
                lemma_run_singleton(st, kv_line(empty_pad, e.0, e.1));
                lemma_step_kv(st, empty_pad, e.0, e.1);
                assert(obj_insert(m0, e.0, e.1) == m0.push(e)) by {
                    assert((e.0, e.1) == e);
                }
                let st2 = st1s.update(0, SpecFrame { depth: 0, key: st1s.first().key, obj: m0.push(e) });
                assert(step_line(st, kv_line(empty_pad, e.0, e.1)) =~~= st2) by {
                    assert(st1s.update(
                        st1s.len() - 1,
                        (SpecFrame {
                            obj: obj_insert(st1s.last().obj, e.0, e.1),
                            ..st1s.last()
                        }),
                    ) =~~= st2);
                }
                assert(st2.len() == 1 && st2[0].depth == 0);
                assert(merged_obj(st2) == m0.push(e)) by {
                    assert(collapse(st2) == st2);
                }
                assert forall|i: int, j: int|
                    0 <= i < rest.len() && 0 <= j < merged_obj(st2).len() implies (
                #[trigger] rest[i]).0 != (#[trigger] merged_obj(st2)[j]).0 by {
                    assert(rest[i] == es[i + 1]);
                    if j < m0.len() {
                        assert(merged_obj(st2)[j] == m0[j]);
                    } else {
                        assert(merged_obj(st2)[j] == e);
                        assert(es[i + 1].0 != es[0].0);
                    }
                }
                lemma_doc_parse(st2, rest);
                assert(merged_obj(st2) + rest =~= m0 + es);
            },
        }
    }
}

/// Serialization round-trips: parsing the serialized text of a
/// well-formed document yields the document back. Well-formed means: a
/// root object of booleans, in-range integers, strings and arrays of
/// such scalars, and nested objects of those leaves, under distinct keys
/// that carry no markup characters; floating-point values, whose textual
/// form the library does not model, are not covered.
pub proof fn lemma_stringify_parse_roundtrip(v: SpecValue)
    requires
        wf_doc(v),
    ensures
        spec_parse(spec_stringify(v)) == v,
{
    match v {
        SpecValue::Object(es) => {
            let empty_pad = Seq::<char>::empty();
            let ls = doc_lines(es, empty_pad);
            lemma_doc_text(es, empty_pad);
            assert(forall|i: int| 0 <= i < empty_pad.len() ==> #[trigger] empty_pad[i] == ' ');
            lemma_doc_lines_clean(es, empty_pad);
            lemma_tok_cat(ls);
            assert(spec_stringify(v) == cat_lines(ls));
            assert(spec_tokenize(spec_stringify(v)) == ls);
            assert(collapse(init_stack()) == init_stack());
            assert(merged_obj(init_stack()) =~= Seq::<(Seq<char>, SpecValue)>::empty());
            lemma_doc_parse(init_stack(), es);
            crate::parse::lemma_run_lines_len(init_stack(), ls);
            crate::parse::lemma_collapse_len(run_lines(init_stack(), ls));
            assert(merged_obj(init_stack()) + es =~= es);
            assert(spec_parse(spec_stringify(v)) == SpecValue::Object(es));
        },
        _ => {},
    }
}

} // verus!
