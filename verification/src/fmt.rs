//! Text forms of numbers and strings.
use vstd::prelude::*;

use crate::lexer::{push_char, str_chars};

verus! {

/// The decimal digits of a natural number (no leading zeros; `0` is `"0"`).
pub open spec fn nat_digits(n: nat) -> Seq<char>
    decreases n,
{
    if n < 10 {
        seq![digit_char(n)]
    } else {
        nat_digits(n / 10).push(digit_char(n % 10))
    }
}

pub open spec fn digit_char(d: nat) -> char {
    if d == 0 {
        '0'
    } else if d == 1 {
        '1'
    } else if d == 2 {
        '2'
    } else if d == 3 {
        '3'
    } else if d == 4 {
        '4'
    } else if d == 5 {
        '5'
    } else if d == 6 {
        '6'
    } else if d == 7 {
        '7'
    } else if d == 8 {
        '8'
    } else {
        '9'
    }
}

/// The decimal text of an integer, with a leading `-` when negative.
pub open spec fn int_text(v: int) -> Seq<char> {
    if v < 0 {
        seq!['-'] + nat_digits((-v) as nat)
    } else {
        nat_digits(v as nat)
    }
}

fn digit_char_exec(d: u128) -> (c: char)
    requires
        d < 10,
    ensures
        c == digit_char(d as nat),
{
    if d == 0 {
        '0'
    } else if d == 1 {
        '1'
    } else if d == 2 {
        '2'
    } else if d == 3 {
        '3'
    } else if d == 4 {
        '4'
    } else if d == 5 {
        '5'
    } else if d == 6 {
        '6'
    } else if d == 7 {
        '7'
    } else if d == 8 {
        '8'
    } else {
        '9'
    }
}

fn digits_of(n: u128) -> (s: Vec<char>)
    ensures
        s@ == nat_digits(n as nat),
    decreases n,
{
    if n < 10 {
        let mut v: Vec<char> = Vec::new();
        v.push(digit_char_exec(n));
        assert(v@ =~= seq![digit_char(n as nat)]);
        v
    } else {
        let mut v = digits_of(n / 10);
        v.push(digit_char_exec(n % 10));
        v
    }
}

/// Appends characters to a string.
pub fn push_chars(s: &mut String, cs: &Vec<char>)
    ensures
        final(s)@ == old(s)@ + cs@,
{
    let mut k: usize = 0;
    while k < cs.len()
        invariant
            k <= cs@.len(),
            s@ == old(s)@ + cs@.take(k as int),
        decreases cs@.len() - k,
    {
        push_char(s, cs[k]);
        k = k + 1;
        assert(s@ =~= old(s)@ + cs@.take(k as int));
    }
    assert(cs@.take(cs@.len() as int) =~= cs@);
}

/// The decimal text of an integer (what `i128`'s `to_string` gives).
pub fn int_to_string(v: i128) -> (s: String)
    ensures
        s@ == int_text(v as int),
{
    let mut s = String::new();
    if v < 0 {
        push_char(&mut s, '-');
        let m: u128 = if v == i128::MIN {
            170141183460469231731687303715884105728u128
        } else {
            (-v) as u128
        };
        let d = digits_of(m);
        push_chars(&mut s, &d);
        assert(s@ =~= seq!['-'] + nat_digits((-v) as nat));
    } else {
        let d = digits_of(v as u128);
        push_chars(&mut s, &d);
        assert(s@ =~= nat_digits(v as nat));
    }
    s
}

/// What std's `Debug` (`{:?}`) gives a string: the string in double
/// quotes, with quotes, backslashes, and control, non-printable and
/// combining characters escaped.
pub uninterp spec fn str_debug(s: Seq<char>) -> Seq<char>;

/// A string as `{:?}` shows it (see `str_debug`).
pub open spec fn quoted(s: Seq<char>) -> Seq<char> {
    str_debug(s)
}

/// Calls `format!("{:?}", s)`, std's `Debug` for `str`.  The contract names
/// the result (`str_debug`) and says no more of it: the escaping rules take
/// Unicode tables to state.
#[verifier::external_body]
fn debug_str(s: &str) -> (r: String)
    ensures
        r@ == str_debug(s@),
{
    format!("{:?}", s)
}

/// Appends `s` as `{:?}` shows it.
pub fn push_quoted(out: &mut String, s: &String)
    ensures
        final(out)@ == old(out)@ + quoted(s@),
{
    let d = debug_str(s.as_str());
    push_str(out, d.as_str());
}

/// Appends a string.
pub fn push_str(out: &mut String, s: &str)
    ensures
        final(out)@ == old(out)@ + s@,
{
    let cs = str_chars(s);
    push_chars(out, &cs);
}

} // verus!
