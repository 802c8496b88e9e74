//! Messages with numbers in them, built a piece at a time.

use vstd::prelude::*;

verus! {

/// Appends `t`.
pub(crate) fn push_text(s: &mut String, t: &str)
    ensures
        final(s)@ == old(s)@ + t@,
{
    s.append(t);
}

/// Appends one character (`String::push`, which std documents as appending).
#[verifier::external_body]
pub(crate) fn push_char(s: &mut String, c: char)
    ensures
        final(s)@ == old(s)@.push(c),
{
    s.push(c);
}

/// The decimal digit `d` (`d < 10`).
pub open spec fn digit_char(d: nat) -> char {
    if d == 0 {
        '0'
    } else if d == 1 {
        '1'
    } else if d == 2 {
        '2'
    } else if d == 3 {
        '3'
    } else if d == 4 {
        '4'
    } else if d == 5 {
        '5'
    } else if d == 6 {
        '6'
    } else if d == 7 {
        '7'
    } else if d == 8 {
        '8'
    } else {
        '9'
    }
}

/// `n` written in decimal, without leading zeros.
pub open spec fn decimal(n: nat) -> Seq<char>
    decreases n,
{
    if n < 10 {
        seq![digit_char(n)]
    } else {
        decimal(n / 10).push(digit_char(n % 10))
    }
}

fn digit(d: u64) -> (c: char)
    requires
        d < 10,
    ensures
        c == digit_char(d as nat),
{
    if d == 0 {
        '0'
    } else if d == 1 {
        '1'
    } else if d == 2 {
        '2'
    } else if d == 3 {
        '3'
    } else if d == 4 {
        '4'
    } else if d == 5 {
        '5'
    } else if d == 6 {
        '6'
    } else if d == 7 {
        '7'
    } else if d == 8 {
        '8'
    } else {
        '9'
    }
}

/// Appends `n` in decimal.
pub(crate) fn push_decimal(s: &mut String, n: u64)
    ensures
        final(s)@ == old(s)@ + decimal(n as nat),
    decreases n,
{
    if n >= 10 {
        push_decimal(s, n / 10);
    }
    push_char(s, digit(n % 10));
    proof {
        if n >= 10 {
            assert(decimal(n as nat) == decimal((n / 10) as nat).push(digit_char((n % 10) as nat)));
        }
    }
    assert(s@ =~= old(s)@ + decimal(n as nat));
}

/// A new string holding `t`.
pub(crate) fn new_text(t: &str) -> (s: String)
    ensures
        s@ == t@,
{
    t.to_owned()
}

/// A search path with `added` in front of what was there before: `old`
/// when it is set and not empty, joined with `:`.
pub open spec fn spec_prepended(added: Seq<char>, old: Option<Seq<char>>) -> Seq<char> {
    match old {
        Some(o) => if o.len() > 0 { added + ":"@ + o } else { added },
        None => added,
    }
}

pub fn prepend_search_path(added: &str, old: Option<&str>) -> (v: String)
    ensures
        v@ == spec_prepended(
            added@,
            match old {
                Some(o) => Some(o@),
                None => None,
            },
        ),
{
    let mut v = new_text(added);
    if let Some(o) = old {
        if o.unicode_len() > 0 {
            push_text(&mut v, ":");
            push_text(&mut v, o);
        }
    }
    v
}

} // verus!
