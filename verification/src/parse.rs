//! The indentation parser: tokenized lines become one root object. A
//! stack of frames pairs an indentation depth with the object being
//! populated at that depth; the root frame, at depth 0, is never popped.
//!
//! A block header (`key:`) pops frames while the top frame's depth is
//! greater than or equal to the line's indentation, then opens a new
//! frame one level deeper. A leaf entry (`key = value`) pops frames only
//! while the top frame's depth is strictly greater — the deliberate
//! asymmetry of the format. Lines matching neither pattern are ignored.

use vstd::prelude::*;

use crate::chars::{find_ch, leading_ws, trim};
use crate::scalar::spec_coerce;
use crate::tokenize::spec_tokenize;
use crate::value::{entries_deep, find_key, lemma_find_key_at, lemma_find_key_present, obj_insert,
    SpecValue, Value};

verus! {

/// A parse frame: the indentation depth at which the frame was opened
/// (in units, not characters), the key under which its object will be
/// stored in the parent, and the object collected so far. The root frame
/// has depth 0 and an empty key.
#[verifier::ext_equal]
pub struct SpecFrame {
    pub depth: int,
    pub key: Seq<char>,
    pub obj: Seq<(Seq<char>, SpecValue)>,
}

/// Closing the top frame: its object is stored in the frame below under
/// the top frame's key.
pub open spec fn finalize_once(st: Seq<SpecFrame>) -> Seq<SpecFrame> {
    let top = st.last();
    let p = st[st.len() - 2];
    st.drop_last().update(
        st.len() - 2,
        SpecFrame { obj: obj_insert(p.obj, top.key, SpecValue::Object(top.obj)), ..p },
    )
}

/// Popping for a new line at indentation `indent`: frames close while the
/// top frame is too deep — strictly deeper for leaf entries (`strict`),
/// at least as deep for block headers. The root frame never closes.
pub open spec fn pop_to(st: Seq<SpecFrame>, indent: int, strict: bool) -> Seq<SpecFrame>
    decreases st.len(),
{
    if st.len() > 1 && (if strict {
        st.last().depth > indent
    } else {
        st.last().depth >= indent
    }) {
        pop_to(finalize_once(st), indent, strict)
    } else {
        st
    }
}

/// The effect of one tokenized line on the frame stack.
pub open spec fn step_line(st: Seq<SpecFrame>, l: Seq<char>) -> Seq<SpecFrame> {
    let indent = leading_ws(l) / 2;
    let t = trim(l);
    if t.len() > 0 && t.last() == ':' {
        let key = trim(t.drop_last());
        let st1 = pop_to(st, indent, false);
        st1.push(SpecFrame { depth: indent + 1, key, obj: Seq::empty() })
    } else if find_ch(t, '=') >= 0 {
        let p = find_ch(t, '=');
        let key = trim(t.take(p));
        let raw = t.skip(p + 1);
        let st1 = pop_to(st, indent, true);
        let top = st1.last();
        st1.update(
            st1.len() - 1,
            SpecFrame { obj: obj_insert(top.obj, key, spec_coerce(raw)), ..top },
        )
    } else {
        st
    }
}

pub open spec fn run_lines(st: Seq<SpecFrame>, ls: Seq<Seq<char>>) -> Seq<SpecFrame>
    decreases ls.len(),
{
    if ls.len() == 0 {
        st
    } else {
        run_lines(step_line(st, ls.first()), ls.drop_first())
    }
}

/// Closing every open frame down to the root once all lines are consumed.
pub open spec fn collapse(st: Seq<SpecFrame>) -> Seq<SpecFrame>
    decreases st.len(),
{
    if st.len() > 1 {
        collapse(finalize_once(st))
    } else {
        st
    }
}

pub open spec fn init_stack() -> Seq<SpecFrame> {
    seq![SpecFrame { depth: 0, key: Seq::empty(), obj: Seq::empty() }]
}

/// The object denoted by a Flow text: the root frame's object after every
/// tokenized line has been consumed and every open frame has closed.
pub open spec fn spec_parse(t: Seq<char>) -> SpecValue {
    let fin = collapse(run_lines(init_stack(), spec_tokenize(t)));
    if fin.len() >= 1 {
        SpecValue::Object(fin.first().obj)
    } else {
        SpecValue::Object(Seq::empty())
    }
}

/// Every stack with at least one frame keeps at least one frame under
/// `pop_to`, `step_line`, `run_lines` and `collapse`.
pub proof fn lemma_pop_to_len(st: Seq<SpecFrame>, indent: int, strict: bool)
    requires
        st.len() >= 1,
    ensures
        1 <= pop_to(st, indent, strict).len() <= st.len(),
    decreases st.len(),
{
    if st.len() > 1 && (if strict {
        st.last().depth > indent
    } else {
        st.last().depth >= indent
    }) {
        lemma_pop_to_len(finalize_once(st), indent, strict);
    }
}

pub proof fn lemma_step_line_len(st: Seq<SpecFrame>, l: Seq<char>)
    requires
        st.len() >= 1,
    ensures
        step_line(st, l).len() >= 1,
{
    let indent = leading_ws(l) / 2;
    lemma_pop_to_len(st, indent, false);
    lemma_pop_to_len(st, indent, true);
}

pub proof fn lemma_run_lines_len(st: Seq<SpecFrame>, ls: Seq<Seq<char>>)
    requires
        st.len() >= 1,
    ensures
        run_lines(st, ls).len() >= 1,
    decreases ls.len(),
{
    if ls.len() > 0 {
        lemma_step_line_len(st, ls.first());
        lemma_run_lines_len(step_line(st, ls.first()), ls.drop_first());
    }
}

pub proof fn lemma_collapse_len(st: Seq<SpecFrame>)
    requires
        st.len() >= 1,
    ensures
        collapse(st).len() == 1,
    decreases st.len(),
{
    if st.len() > 1 {
        lemma_collapse_len(finalize_once(st));
    }
}

// ---------------------------------------------------------------------
// The executable parser
// ---------------------------------------------------------------------
struct Frame {
    depth: usize,
    key: String,
    obj: Vec<(String, Value)>,
}

impl Frame {
    spec fn deep(self) -> SpecFrame {
        SpecFrame { depth: self.depth as int, key: self.key@, obj: entries_deep(self.obj@) }
    }
}

spec fn stack_deep(st: Seq<Frame>) -> Seq<SpecFrame> {
    Seq::new(
        st.len(),
        |i: int|
            if 0 <= i < st.len() {
                st[i].deep()
            } else {
                SpecFrame { depth: 0, key: Seq::empty(), obj: Seq::empty() }
            },
    )
}

/// Last-writer-wins insertion into an object's entry list.
fn obj_insert_exec(obj: &mut Vec<(String, Value)>, k: String, v: Value)
    ensures
        entries_deep(final(obj)@) == obj_insert(entries_deep(old(obj)@), k@, v.deep()),
{
    let ghost es = entries_deep(old(obj)@);
    let mut j: usize = 0;
    while j < obj.len()
        invariant
            j <= obj@.len(),
            obj@ == old(obj)@,
            es == entries_deep(obj@),
            forall|t: int| 0 <= t < j ==> es[t].0 != k@,
        decreases obj@.len() - j,
    {
        if obj[j].0 == k {
            proof {
                lemma_find_key_at(es, k@, j as int);
            }
            let ghost before = obj@;
            obj[j] = (k, v);
            proof {
                assert(entries_deep(obj@) =~= obj_insert(entries_deep(before), k@, v.deep()));
            }
            return ;
        }
        proof {
            assert(es[j as int].0 == obj@[j as int].0@);
        }
        j = j + 1;
    }
    proof {
        lemma_find_key_present(es, k@);
        if find_key(es, k@) >= 0 {
            assert(es[find_key(es, k@)].0 == k@);
        }
    }
    let ghost before = obj@;
    obj.push((k, v));
    proof {
        assert(entries_deep(obj@) =~= obj_insert(entries_deep(before), k@, v.deep()));
    }
}

/// Closes the top frame into its parent.
fn finalize_once_exec(stack: &mut Vec<Frame>)
    requires
        old(stack)@.len() >= 2,
    ensures
        final(stack)@.len() == old(stack)@.len() - 1,
        stack_deep(final(stack)@) == finalize_once(stack_deep(old(stack)@)),
{
    let ghost st0 = stack_deep(old(stack)@);
    let top = match stack.pop() {
        Some(f) => f,
        None => {
            proof {
                assert(false);
            }
            return ;
        },
    };
    let n = stack.len();
    let ghost mid = stack@;
    let child = Value::Object(top.obj);
    proof {
        assert(child.deep() == SpecValue::Object(st0.last().obj));
    }
    let last = &mut stack[n - 1];
    obj_insert_exec(&mut last.obj, top.key, child);
    proof {
        assert(stack_deep(stack@) =~= finalize_once(st0));
    }
}

/// Parses Flow text into its root object. The parser is total: it never
/// fails, whatever the input.
#[allow(non_snake_case)]
pub fn ParseFlow(text: &str) -> (r: Value)
    ensures
        r.deep() == spec_parse(text@),
        r is Object,
{
    let lines = crate::tokenize::tokenize_to_lines(text);
    let ghost lviews = lines@.map_values(|l: Vec<char>| l@);
    let mut stack: Vec<Frame> = Vec::new();
    stack.push(Frame { depth: 0, key: String::new(), obj: Vec::new() });
    proof {
        assert(entries_deep(Seq::<(String, Value)>::empty()) =~= Seq::<(
            Seq<char>,
            SpecValue,
        )>::empty());
        assert(stack_deep(stack@) =~~= init_stack());
        assert(lviews.skip(0) =~= lviews);
    }
    let mut i: usize = 0;
    while i < lines.len()
        invariant
            i <= lines@.len(),
            lviews == lines@.map_values(|l: Vec<char>| l@),
            stack@.len() >= 1,
            run_lines(stack_deep(stack@), lviews.skip(i as int)) == run_lines(
                init_stack(),
                lviews,
            ),
        decreases lines@.len() - i,
    {
        let ghost st0 = stack_deep(stack@);
        let ghost lv = lviews[i as int];
        let line = &lines[i];
        proof {
            assert(lviews.skip(i as int).first() == lv);
            assert(lviews.skip(i as int).drop_first() =~= lviews.skip(i as int + 1));
            assert(lv == line@);
        }
        let leading = crate::chars::count_leading_ws(line);
        let indent = leading / 2;
        let t = crate::chars::trim_chars(line);
        if t.len() > 0 && t[t.len() - 1] == ':' {
            let keyc = crate::chars::trim_chars(&crate::chars::sub_vec(&t, 0, t.len() - 1));
            proof {
                assert(t@.subrange(0, t@.len() - 1) =~= t@.drop_last());
            }
            let key = crate::chars::chars_to_string(&keyc);
            while stack.len() > 1 && stack[stack.len() - 1].depth >= indent
                invariant
                    stack@.len() >= 1,
                    pop_to(stack_deep(stack@), indent as int, false) == pop_to(
                        st0,
                        indent as int,
                        false,
                    ),
                decreases stack@.len(),
            {
                proof {
                    assert(stack_deep(stack@).last() == stack@[stack@.len() - 1].deep());
                }
                finalize_once_exec(&mut stack);
            }
            proof {
                assert(stack_deep(stack@).last() == stack@[stack@.len() - 1].deep());
                assert(pop_to(stack_deep(stack@), indent as int, false) == stack_deep(stack@));
            }
            let ghost before = stack@;
            stack.push(Frame { depth: indent + 1, key, obj: Vec::new() });
            proof {
                assert(entries_deep(Seq::<(String, Value)>::empty()) =~= Seq::<(
                    Seq<char>,
                    SpecValue,
                )>::empty());
                assert(stack_deep(stack@) =~~= pop_to(st0, indent as int, false).push(
                    SpecFrame { depth: indent as int + 1, key: keyc@, obj: Seq::empty() },
                ));
                assert(stack_deep(stack@) == step_line(st0, lv));
            }
        } else {
            match crate::chars::find_char(&t, '=') {
                Some(p) => {
                    proof {
                        crate::chars::lemma_find_ch(t@, '=');
                    }
                    let keyc = crate::chars::trim_chars(&crate::chars::sub_vec(&t, 0, p));
                    let raw = crate::chars::sub_vec(&t, p + 1, t.len());
                    proof {
                        assert(t@.subrange(0, p as int) =~= t@.take(p as int));
                        assert(t@.subrange(p as int + 1, t@.len() as int) =~= t@.skip(p as int + 1));
                    }
                    let key = crate::chars::chars_to_string(&keyc);
                    let value = crate::scalar::coerce_chars(&raw);
                    while stack.len() > 1 && stack[stack.len() - 1].depth > indent
                        invariant
                            stack@.len() >= 1,
                            pop_to(stack_deep(stack@), indent as int, true) == pop_to(
                                st0,
                                indent as int,
                                true,
                            ),
                        decreases stack@.len(),
                    {
                        proof {
                            assert(stack_deep(stack@).last() == stack@[stack@.len() - 1].deep());
                        }
                        finalize_once_exec(&mut stack);
                    }
                    proof {
                        assert(stack_deep(stack@).last() == stack@[stack@.len() - 1].deep());
                        assert(pop_to(stack_deep(stack@), indent as int, true) == stack_deep(
                            stack@,
                        ));
                    }
                    let ghost before = stack_deep(stack@);
                    let n = stack.len();
                    let last = &mut stack[n - 1];
                    obj_insert_exec(&mut last.obj, key, value);
                    proof {
                        let top = before.last();
                        assert(stack_deep(stack@) =~= before.update(
                            before.len() - 1,
                            SpecFrame {
                                obj: obj_insert(top.obj, keyc@, spec_coerce(t@.skip(p as int + 1))),
                                ..top
                            },
                        ));
                        assert(stack_deep(stack@) == step_line(st0, lv));
                    }
                },
                None => {
                    proof {
                        assert(stack_deep(stack@) == step_line(st0, lv));
                    }
                },
            }
        }
        i = i + 1;
    }
    proof {
        assert(lviews.skip(i as int) =~= Seq::<Seq<char>>::empty());
        lemma_run_lines_len(init_stack(), lviews);
    }
    while stack.len() > 1
        invariant
            stack@.len() >= 1,
            collapse(stack_deep(stack@)) == collapse(run_lines(init_stack(), lviews)),
        decreases stack@.len(),
    {
        finalize_once_exec(&mut stack);
    }
    let ghost pre = stack@;
    let root = match stack.pop() {
        Some(f) => f,
        None => {
            proof {
                assert(false);
            }
            Frame { depth: 0, key: String::new(), obj: Vec::new() }
        },
    };
    let r = Value::Object(root.obj);
    proof {
        let fin = collapse(run_lines(init_stack(), lviews));
        assert(pre.len() == 1);
        assert(collapse(stack_deep(pre)) == stack_deep(pre));
        assert(root == pre[0]);
        assert(stack_deep(pre)[0] == pre[0].deep());
        assert(fin.first() == root.deep());
        assert(r.deep() == SpecValue::Object(entries_deep(root.obj@)));
    }
    r
}

} // verus!
