//! The line tokenizer: tabs become two spaces, the text splits into
//! physical lines, everything from the first `#` on is dropped, trailing
//! whitespace is removed, and blank lines disappear. Leading whitespace
//! is kept, since the parser derives indentation from it.
//!
//! A `#` inside a quoted string is not protected; that is a known,
//! deliberate limitation of the format.

use vstd::prelude::*;

use crate::chars::{find_ch, lemma_split_on_nonempty, rtrim, split_on, sub_vec, to_char_vec, ws_char};

verus! {

/// Every tab replaced by two spaces.
pub open spec fn expand_tabs(t: Seq<char>) -> Seq<char>
    decreases t.len(),
{
    if t.len() == 0 {
        Seq::empty()
    } else {
        expand_tabs(t.drop_last()) + (if t.last() == '\t' {
            seq![' ', ' ']
        } else {
            seq![t.last()]
        })
    }
}

/// The prefix of `l` before its first `#`, or all of `l`.
pub open spec fn before_hash(l: Seq<char>) -> Seq<char> {
    if find_ch(l, '#') >= 0 {
        l.take(find_ch(l, '#'))
    } else {
        l
    }
}

/// One physical line after comment stripping and right-trimming.
pub open spec fn process_line(l: Seq<char>) -> Seq<char> {
    rtrim(before_hash(l))
}

/// The processed lines that remain: blank results are dropped, order is
/// kept.
pub open spec fn tok_lines(ls: Seq<Seq<char>>) -> Seq<Seq<char>>
    decreases ls.len(),
{
    if ls.len() == 0 {
        Seq::empty()
    } else {
        let r = tok_lines(ls.drop_last());
        let p = process_line(ls.last());
        if p.len() > 0 {
            r.push(p)
        } else {
            r
        }
    }
}

/// The semantically significant lines of a text, in source order.
pub open spec fn spec_tokenize(t: Seq<char>) -> Seq<Seq<char>> {
    tok_lines(split_on(expand_tabs(t), '\n'))
}

fn expand_tabs_exec(v: &Vec<char>) -> (r: Vec<char>)
    ensures
        r@ == expand_tabs(v@),
{
    let mut r: Vec<char> = Vec::new();
    let mut i: usize = 0;
    proof {
        assert(v@.take(0) =~= Seq::<char>::empty());
    }
    while i < v.len()
        invariant
            i <= v.len(),
            r@ == expand_tabs(v@.take(i as int)),
        decreases v.len() - i,
    {
        proof {
            assert(v@.take(i as int + 1).drop_last() =~= v@.take(i as int));
            assert(v@.take(i as int + 1).last() == v@[i as int]);
        }
        if v[i] == '\t' {
            r.push(' ');
            r.push(' ');
            assert(r@ =~= expand_tabs(v@.take(i as int)) + seq![' ', ' ']);
        } else {
            r.push(v[i]);
            assert(r@ =~= expand_tabs(v@.take(i as int)) + seq![v@[i as int]]);
        }
        i = i + 1;
    }
    proof {
        assert(v@.take(v@.len() as int) =~= v@);
    }
    r
}

fn rtrim_chars(v: &Vec<char>) -> (r: Vec<char>)
    ensures
        r@ == rtrim(v@),
{
    let mut end: usize = v.len();
    assert(v@.take(end as int) =~= v@);
    while end > 0 && ws_char(v[end - 1])
        invariant
            end <= v.len(),
            rtrim(v@) == rtrim(v@.take(end as int)),
        decreases end,
    {
        assert(v@.take(end as int).drop_last() =~= v@.take(end as int - 1));
        end = end - 1;
    }
    assert(rtrim(v@.take(end as int)) == v@.take(end as int));
    sub_vec(v, 0, end)
}

fn process_line_exec(v: &Vec<char>) -> (r: Vec<char>)
    ensures
        r@ == process_line(v@),
{
    proof {
        crate::chars::lemma_find_ch(v@, '#');
    }
    let cut = match crate::chars::find_char(v, '#') {
        Some(p) => sub_vec(v, 0, p),
        None => sub_vec(v, 0, v.len()),
    };
    proof {
        assert(v@.subrange(0, v@.len() as int) =~= v@);
        assert(cut@ == before_hash(v@));
    }
    rtrim_chars(&cut)
}

/// The tokenized lines of `text`, as character vectors.
pub fn tokenize_to_lines(text: &str) -> (r: Vec<Vec<char>>)
    ensures
        r@.map_values(|l: Vec<char>| l@) == spec_tokenize(text@),
{
    let chars = to_char_vec(text);
    let e = expand_tabs_exec(&chars);
    let mut out: Vec<Vec<char>> = Vec::new();
    let mut cur: Vec<char> = Vec::new();
    let mut i: usize = 0;
    proof {
        assert(split_on(e@.take(0), '\n') =~= seq![cur@]);
        assert(seq![cur@].drop_last() =~= Seq::<Seq<char>>::empty());
        assert(out@.map_values(|l: Vec<char>| l@) =~= Seq::<Seq<char>>::empty());
    }
    while i < e.len()
        invariant
            i <= e.len(),
            split_on(e@.take(i as int), '\n').last() == cur@,
            out@.map_values(|l: Vec<char>| l@) == tok_lines(
                split_on(e@.take(i as int), '\n').drop_last(),
            ),
        decreases e.len() - i,
    {
        let c = e[i];
        proof {
            assert(e@.take(i as int + 1).drop_last() =~= e@.take(i as int));
            assert(e@.take(i as int + 1).last() == e@[i as int]);
        }
        if c == '\n' {
            proof {
                let r0 = split_on(e@.take(i as int), '\n');
                lemma_split_on_nonempty(e@.take(i as int), '\n');
                assert(split_on(e@.take(i as int + 1), '\n') == r0.push(Seq::empty()));
                assert(r0.push(Seq::empty()).drop_last() =~= r0);
                assert(r0 =~= r0.drop_last().push(cur@));
                assert(tok_lines(r0) == if process_line(cur@).len() > 0 {
                    tok_lines(r0.drop_last()).push(process_line(cur@))
                } else {
                    tok_lines(r0.drop_last())
                });
            }
            let p = process_line_exec(&cur);
            if p.len() > 0 {
                let ghost old_out = out@;
                out.push(p);
                proof {
                    assert(out@.map_values(|l: Vec<char>| l@) =~= old_out.map_values(
                        |l: Vec<char>| l@,
                    ).push(p@));
                }
            }
            cur = Vec::new();
            proof {
                assert(split_on(e@.take(i as int + 1), '\n').last() == cur@);
            }
        } else {
            proof {
                let r0 = split_on(e@.take(i as int), '\n');
                lemma_split_on_nonempty(e@.take(i as int), '\n');
                let r1 = r0.update(r0.len() - 1, r0.last().push(c));
                assert(split_on(e@.take(i as int + 1), '\n') == r1);
                assert(r1.drop_last() =~= r0.drop_last());
                assert(r1.last() == cur@.push(c));
            }
            cur.push(c);
        }
        i = i + 1;
    }
    proof {
        assert(e@.take(i as int) =~= e@);
        let r0 = split_on(e@, '\n');
        lemma_split_on_nonempty(e@, '\n');
        assert(r0 =~= r0.drop_last().push(cur@));
        assert(tok_lines(r0) == if process_line(cur@).len() > 0 {
            tok_lines(r0.drop_last()).push(process_line(cur@))
        } else {
            tok_lines(r0.drop_last())
        });
    }
    let p = process_line_exec(&cur);
    if p.len() > 0 {
        let ghost old_out = out@;
        out.push(p);
        proof {
            assert(out@.map_values(|l: Vec<char>| l@) =~= old_out.map_values(
                |l: Vec<char>| l@,
            ).push(p@));
        }
    }
    out
}

/// The significant lines of a Flow text, each with its indentation kept:
/// tabs expanded, comments stripped, trailing whitespace removed, blank
/// lines dropped, source order preserved.
pub fn tokenize_lines(text: &str) -> (r: Vec<String>)
    ensures
        r@.map_values(|s: String| s@) == spec_tokenize(text@),
{
    let lines = tokenize_to_lines(text);
    let mut r: Vec<String> = Vec::new();
    let mut i: usize = 0;
    while i < lines.len()
        invariant
            i <= lines.len(),
            lines@.map_values(|l: Vec<char>| l@) == spec_tokenize(text@),
            r@.len() == i,
            forall|j: int| 0 <= j < i ==> (#[trigger] r@[j])@ == lines@[j]@,
        decreases lines.len() - i,
    {
        r.push(crate::chars::chars_to_string(&lines[i]));
        i = i + 1;
    }
    proof {
        assert(r@.map_values(|s: String| s@) =~= lines@.map_values(|l: Vec<char>| l@));
    }
    r
}

} // verus!
