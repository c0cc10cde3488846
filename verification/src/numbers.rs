//! Decimal integers: a verified parser and formatter for the integer
//! scalars of the format. Floating-point scalars are delegated to the
//! numeric codec behind one trusted function; the library only states
//! which tokens that codec can accept.

use vstd::prelude::*;

verus! {

pub open spec fn is_digit(c: char) -> bool {
    48 <= c as u32 <= 57
}

pub open spec fn digit_val(c: char) -> int {
    c as u32 - 48
}

pub open spec fn all_digits(s: Seq<char>) -> bool {
    forall|i: int| 0 <= i < s.len() ==> is_digit(#[trigger] s[i])
}

/// The value of a sequence of decimal digits, most significant first.
pub open spec fn digits_val(s: Seq<char>) -> int
    decreases s.len(),
{
    if s.len() == 0 {
        0
    } else {
        digits_val(s.drop_last()) * 10 + digit_val(s.last())
    }
}

pub open spec fn is_sign(c: char) -> bool {
    c == '+' || c == '-'
}

/// The token without its optional leading sign.
pub open spec fn int_mag(v: Seq<char>) -> Seq<char> {
    if v.len() > 0 && is_sign(v[0]) {
        v.drop_first()
    } else {
        v
    }
}

/// The tokens accepted as 64-bit integers: an optional sign, then one or
/// more decimal digits, denoting a value within the signed 64-bit range.
pub open spec fn is_int_syntax(v: Seq<char>) -> bool {
    let m = int_mag(v);
    &&& m.len() > 0
    &&& all_digits(m)
    &&& if v.len() > 0 && v[0] == '-' {
        digits_val(m) <= 9223372036854775808
    } else {
        digits_val(m) < 9223372036854775808
    }
}

/// The value denoted by a token satisfying `is_int_syntax`.
pub open spec fn spec_parse_int(v: Seq<char>) -> int {
    if v.len() > 0 && v[0] == '-' {
        -digits_val(int_mag(v))
    } else {
        digits_val(int_mag(v))
    }
}

pub proof fn lemma_digits_val_nonneg(s: Seq<char>)
    requires
        all_digits(s),
    ensures
        digits_val(s) >= 0,
    decreases s.len(),
{
    if s.len() > 0 {
        assert(all_digits(s.drop_last()));
        lemma_digits_val_nonneg(s.drop_last());
    }
}

/// Appending digits never decreases the denoted value.
pub proof fn lemma_digits_val_prefix(s: Seq<char>, i: int)
    requires
        all_digits(s),
        0 <= i <= s.len(),
    ensures
        digits_val(s.take(i)) <= digits_val(s),
    decreases s.len() - i,
{
    if i < s.len() {
        assert(s.take(i + 1).drop_last() =~= s.take(i));
        assert(all_digits(s.take(i + 1)));
        assert(all_digits(s.take(i)));
        lemma_digits_val_nonneg(s.take(i));
        assert(digits_val(s.take(i + 1)) == digits_val(s.take(i)) * 10 + digit_val(s.take(i + 1).last()));
        lemma_digits_val_prefix(s, i + 1);
    } else {
        assert(s.take(i) =~= s);
    }
}

pub fn digit_of(c: char) -> (r: Option<u32>)
    ensures
        match r {
            Some(d) => is_digit(c) && d == digit_val(c),
            None => !is_digit(c),
        },
{
    let u = c as u32;
    if 48 <= u && u <= 57 {
        Some(u - 48)
    } else {
        None
    }
}

/// Parses an optionally signed decimal token as a 64-bit integer;
/// `None` exactly when the token is not integer syntax (bad characters,
/// empty magnitude, or out of range).
pub fn parse_int_chars(v: &Vec<char>) -> (r: Option<i64>)
    ensures
        match r {
            Some(i) => is_int_syntax(v@) && i as int == spec_parse_int(v@),
            None => !is_int_syntax(v@),
        },
{
    let mut start: usize = 0;
    let mut neg: bool = false;
    if v.len() > 0 && (v[0] == '+' || v[0] == '-') {
        start = 1;
        neg = v[0] == '-';
    }
    let ghost m = int_mag(v@);
    proof {
        assert(m =~= v@.skip(start as int));
    }
    if start >= v.len() {
        return None;
    }
    let mut acc: u128 = 0;
    let mut i: usize = start;
    while i < v.len()
        invariant
            start <= i <= v.len(),
            start < v.len(),
            m == v@.skip(start as int),
            m == int_mag(v@),
            neg <==> (v@.len() > 0 && v@[0] == '-'),
            acc == digits_val(m.take(i - start)),
            acc <= 9223372036854775808,
            all_digits(m.take(i - start)),
        decreases v.len() - i,
    {
        let d = match digit_of(v[i]) {
            Some(d) => d,
            None => {
                proof {
                    assert(m[i - start] == v@[i as int]);
                    assert(!is_digit(m[i - start]));
                    assert(!all_digits(m));
                }
                return None;
            },
        };
        proof {
            assert(m.take(i - start + 1).drop_last() =~= m.take(i - start));
            assert(m.take(i - start + 1).last() == v@[i as int]);
        }
        acc = acc * 10 + d as u128;
        i = i + 1;
        if acc > 9223372036854775808 {
            proof {
                if all_digits(m) {
                    lemma_digits_val_prefix(m, i - start);
                    assert(digits_val(m) >= acc > 9223372036854775808);
                }
            }
            return None;
        }
    }
    proof {
        assert(m.take(i - start) =~= m);
    }
    if neg {
        if acc == 9223372036854775808 {
            Some(i64::MIN)
        } else {
            Some(-((acc as u64) as i64))
        }
    } else {
        if acc == 9223372036854775808 {
            None
        } else {
            Some((acc as u64) as i64)
        }
    }
}

pub open spec fn digit_char(d: int) -> char {
    if d == 0 {
        '0'
    } else if d == 1 {
        '1'
    } else if d == 2 {
        '2'
    } else if d == 3 {
        '3'
    } else if d == 4 {
        '4'
    } else if d == 5 {
        '5'
    } else if d == 6 {
        '6'
    } else if d == 7 {
        '7'
    } else if d == 8 {
        '8'
    } else {
        '9'
    }
}

/// The decimal digits of `n`, most significant first.
pub open spec fn digits_repr(n: int) -> Seq<char>
    decreases n,
{
    if n < 10 {
        seq![digit_char(n)]
    } else {
        digits_repr(n / 10).push(digit_char(n % 10))
    }
}

/// The decimal rendering of an integer: a minus sign for negative values,
/// then the digits of the magnitude.
pub open spec fn int_repr(i: int) -> Seq<char> {
    if i < 0 {
        seq!['-'] + digits_repr(-i)
    } else {
        digits_repr(i)
    }
}

fn digit_char_of(d: u64) -> (c: char)
    requires
        d < 10,
    ensures
        c == digit_char(d as int),
        is_digit(c),
        digit_val(c) == d,
{
    match d {
        0 => '0',
        1 => '1',
        2 => '2',
        3 => '3',
        4 => '4',
        5 => '5',
        6 => '6',
        7 => '7',
        8 => '8',
        _ => '9',
    }
}

fn push_digits(n: u64, out: &mut Vec<char>)
    ensures
        final(out)@ == old(out)@ + digits_repr(n as int),
    decreases n,
{
    if n < 10 {
        out.push(digit_char_of(n));
        assert(out@ =~= old(out)@ + digits_repr(n as int));
    } else {
        push_digits(n / 10, out);
        out.push(digit_char_of(n % 10));
        assert(out@ =~= old(out)@ + digits_repr(n as int));
    }
}

/// The decimal rendering of a 64-bit integer.
pub fn int_to_chars(i: i64) -> (v: Vec<char>)
    ensures
        v@ == int_repr(i as int),
{
    let mut out: Vec<char> = Vec::new();
    if i < 0 {
        out.push('-');
        let mag: u64 = if i == i64::MIN {
            9223372036854775808
        } else {
            (-i) as u64
        };
        push_digits(mag, &mut out);
        assert(out@ =~= seq!['-'] + digits_repr(-(i as int)));
    } else {
        push_digits(i as u64, &mut out);
        assert(out@ =~= digits_repr(i as int));
    }
    out
}

pub proof fn lemma_digits_repr_digits(n: int)
    requires
        n >= 0,
    ensures
        all_digits(digits_repr(n)),
        digits_repr(n).len() > 0,
        is_digit(digits_repr(n).first()),
        is_digit(digits_repr(n).last()),
    decreases n,
{
    if n >= 10 {
        lemma_digits_repr_digits(n / 10);
        assert(digits_repr(n) == digits_repr(n / 10).push(digit_char(n % 10)));
        assert(digits_repr(n).first() == digits_repr(n / 10).first());
        assert forall|i: int| 0 <= i < digits_repr(n).len() implies is_digit(
            #[trigger] digits_repr(n)[i],
        ) by {
            if i < digits_repr(n / 10).len() {
                assert(digits_repr(n)[i] == digits_repr(n / 10)[i]);
            }
        }
    }
}

pub proof fn lemma_digit_char_val(d: int)
    requires
        0 <= d < 10,
    ensures
        digit_val(digit_char(d)) == d,
        is_digit(digit_char(d)),
{
}

/// Formatting then evaluating the digits of a non-negative integer gives
/// it back.
pub proof fn lemma_digits_repr_val(n: int)
    requires
        n >= 0,
    ensures
        digits_val(digits_repr(n)) == n,
    decreases n,
{
    if n < 10 {
        let s = seq![digit_char(n)];
        assert(s.drop_last() =~= Seq::<char>::empty());
        assert(digits_val(Seq::<char>::empty()) == 0);
        assert(s.last() == digit_char(n));
        assert(digits_val(s) == digit_val(digit_char(n)));
        lemma_digit_char_val(n);
    } else {
        lemma_digits_repr_val(n / 10);
        lemma_digit_char_val(n % 10);
        assert(digits_repr(n / 10).push(digit_char(n % 10)).drop_last() =~= digits_repr(n / 10));
    }
}

/// The decimal rendering of an in-range integer parses back to it.
pub proof fn lemma_int_repr_roundtrip(i: int)
    requires
        -9223372036854775808 <= i <= 9223372036854775807,
    ensures
        is_int_syntax(int_repr(i)),
        spec_parse_int(int_repr(i)) == i,
        int_repr(i).len() > 0,
        int_repr(i)[0] == '-' || is_digit(int_repr(i)[0]),
        is_digit(int_repr(i).last()),
{
    if i < 0 {
        lemma_digits_repr_digits(-i);
        lemma_digits_repr_val(-i);
        let v = int_repr(i);
        assert(v[0] == '-');
        assert(int_mag(v) =~= digits_repr(-i));
        assert(v.last() == digits_repr(-i).last());
    } else {
        lemma_digits_repr_digits(i);
        lemma_digits_repr_val(i);
        let v = int_repr(i);
        assert(is_digit(v[0]));
        assert(!is_sign(v[0]));
        assert(int_mag(v) == v);
    }
}

/// Digits and the minus sign are not whitespace and none of the
/// characters the format gives a meaning to.
pub proof fn lemma_digit_plain(c: char)
    requires
        is_digit(c),
    ensures
        !crate::chars::is_ws(c),
        c != '#' && c != '"' && c != '[' && c != ']' && c != ':' && c != '=' && c != ',',
        c != 't' && c != 'f',
{
}

// ---------------------------------------------------------------------
// Floating-point tokens
// ---------------------------------------------------------------------
/// Lower-casing for the letters of the special floating-point words.
pub open spec fn lc(c: char) -> char {
    if c == 'I' {
        'i'
    } else if c == 'N' {
        'n'
    } else if c == 'F' {
        'f'
    } else if c == 'T' {
        't'
    } else if c == 'Y' {
        'y'
    } else if c == 'A' {
        'a'
    } else {
        c
    }
}

/// The case-insensitive words `inf`, `infinity` and `nan`.
pub open spec fn is_special_float_word(m: Seq<char>) -> bool {
    ||| m.map_values(|c: char| lc(c)) == seq!['i', 'n', 'f']
    ||| m.map_values(|c: char| lc(c)) == seq!['i', 'n', 'f', 'i', 'n', 'i', 't', 'y']
    ||| m.map_values(|c: char| lc(c)) == seq!['n', 'a', 'n']
}

pub open spec fn count_ch(s: Seq<char>, c: char) -> int
    decreases s.len(),
{
    if s.len() == 0 {
        0
    } else {
        count_ch(s.drop_last(), c) + if s.last() == c {
            1int
        } else {
            0int
        }
    }
}

/// A mantissa: one or more digits with at most one decimal point among
/// them.
pub open spec fn is_mantissa(m: Seq<char>) -> bool {
    &&& m.len() > 0
    &&& forall|i: int| 0 <= i < m.len() ==> is_digit(#[trigger] m[i]) || m[i] == '.'
    &&& count_ch(m, '.') <= 1
    &&& exists|i: int| 0 <= i < m.len() && is_digit(#[trigger] m[i])
}

/// An exponent count: an optional sign, then one or more digits.
pub open spec fn is_signed_count(x: Seq<char>) -> bool {
    let y = int_mag(x);
    y.len() > 0 && all_digits(y)
}

pub open spec fn is_exp_char(c: char) -> bool {
    c == 'e' || c == 'E'
}

/// The tokens accepted by the standard floating-point parser: an optional
/// sign, then one of the special words, or a mantissa with an optional
/// exponent part.
pub open spec fn is_float_syntax(v: Seq<char>) -> bool {
    let b = int_mag(v);
    ||| is_special_float_word(b)
    ||| is_mantissa(b)
    ||| exists|i: int|
        0 <= i < b.len() && is_exp_char(#[trigger] b[i]) && is_mantissa(b.take(i))
            && is_signed_count(b.skip(i + 1))
}

/// Integer tokens are floating-point tokens as well, so a token that is
/// no floating-point token is no integer token either.
pub proof fn lemma_int_syntax_is_float_syntax(v: Seq<char>)
    requires
        is_int_syntax(v),
    ensures
        is_float_syntax(v),
{
    let m = int_mag(v);
    lemma_all_digits_no_dot(m);
    assert(is_digit(m[0]));
    assert(is_mantissa(m));
}

proof fn lemma_all_digits_no_dot(m: Seq<char>)
    requires
        all_digits(m),
    ensures
        count_ch(m, '.') == 0,
    decreases m.len(),
{
    if m.len() > 0 {
        assert(all_digits(m.drop_last()));
        lemma_all_digits_no_dot(m.drop_last());
        assert(is_digit(m.last()));
    }
}

/// The canonical decimal rendering that the numeric codec gives the
/// floating-point value denoted by a token, when the token denotes a
/// finite one.
pub uninterp spec fn spec_float_repr(s: Seq<char>) -> Option<Seq<char>>;

/// Relies on `str::parse::<f64>`, which accepts exactly the documented
/// floating-point grammar (an optional sign, then `inf`, `infinity`,
/// `nan` case-insensitively, or digits with at most one decimal point and
/// an optional exponent), and on `serde_json::Number::from_f64` and its
/// `ToString`, which render a finite double in canonical decimal form and
/// reject NaN and infinities. The rendering depends on the token alone.
#[verifier::external_body]
pub fn parse_float_repr(s: &str) -> (r: Option<String>)
    ensures
        match r {
            Some(t) => spec_float_repr(s@) == Some(t@),
            None => spec_float_repr(s@) is None,
        },
        r is Some ==> is_float_syntax(s@),
{
    match s.parse() {
        Ok(f) => serde_json::Number::from_f64(f).map(|n| n.to_string()),
        Err(_) => None,
    }
}

} // verus!
