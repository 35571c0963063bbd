//! Text built by the library: decimal numbers and characters appended to
//! strings.

use vstd::prelude::*;
use vstd::string::StringExecFns;

verus! {

/// The decimal digit for `d` (below 10).
pub open spec fn digit(d: nat) -> char {
    ((48 + d) as u8) as char
}

/// The decimal notation of `n`, without sign.
pub open spec fn nat_digits(n: nat) -> Seq<char>
    decreases n,
{
    if n < 10 {
        seq![digit(n)]
    } else {
        nat_digits(n / 10).push(digit(n % 10))
    }
}

/// The decimal notation of `n`, with a leading `-` when negative.
pub open spec fn decimal(n: int) -> Seq<char> {
    if n < 0 {
        seq!['-'] + nat_digits((-n) as nat)
    } else {
        nat_digits(n as nat)
    }
}

/// The contents of each string of `v`.
pub open spec fn string_views(v: Seq<String>) -> Seq<Seq<char>> {
    v.map_values(|s: String| s@)
}

/// Relies on `String::push`: the string gains `c` at its end.
#[verifier::external_body]
pub(crate) fn push_char(s: &mut String, c: char)
    ensures
        final(s)@ == old(s)@.push(c),
{
    s.push(c)
}

/// Appends the literal `t` to `s`.
pub(crate) fn push_text(s: &mut String, t: &str)
    ensures
        final(s)@ == old(s)@ + t@,
{
    s.append(t);
}

fn push_nat(s: &mut String, m: u64)
    ensures
        final(s)@ == old(s)@ + nat_digits(m as nat),
    decreases m,
{
    if m >= 10 {
        push_nat(s, m / 10);
    }
    let d = (m % 10) as u8;
    push_char(s, (48 + d) as char);
    if m >= 10 {
        assert(nat_digits(m as nat) == nat_digits((m / 10) as nat).push(digit((m % 10) as nat)));
    }
}

/// Appends the decimal notation of `n` to `s`.
pub fn push_decimal(s: &mut String, n: i32)
    ensures
        final(s)@ == old(s)@ + decimal(n as int),
{
    if n < 0 {
        push_char(s, '-');
        let m: u64 = (-(n as i64)) as u64;
        push_nat(s, m);
        assert(s@ =~= old(s)@ + (seq!['-'] + nat_digits(m as nat)));
    } else {
        push_nat(s, n as u64);
    }
}

/// The lines `ls` separated by line breaks.
pub open spec fn joined_lines(ls: Seq<Seq<char>>) -> Seq<char>
    decreases ls.len(),
{
    if ls.len() == 0 {
        Seq::empty()
    } else if ls.len() == 1 {
        ls[0]
    } else {
        joined_lines(ls.drop_last()) + seq!['\n'] + ls.last()
    }
}

/// Appends the line `s` to `lines`.
pub(crate) fn push_line(lines: &mut Vec<String>, s: String)
    ensures
        string_views(final(lines)@) == string_views(old(lines)@).push(s@),
{
    let ghost before = lines@;
    lines.push(s);
    assert(string_views(lines@) =~= string_views(before).push(s@));
}

/// Appends the lines `ls` to `s`, separated by line breaks.
pub(crate) fn push_lines(s: &mut String, ls: &Vec<String>)
    ensures
        final(s)@ == old(s)@ + joined_lines(string_views(ls@)),
{
    let ghost v = string_views(ls@);
    let mut i: usize = 0;
    while i < ls.len()
        invariant
            v == string_views(ls@),
            i <= ls@.len(),
            s@ == old(s)@ + joined_lines(v.take(i as int)),
        decreases ls@.len() - i,
    {
        if i > 0 {
            push_char(s, '\n');
        }
        push_text(s, ls[i].as_str());
        proof {
            let t = v.take(i + 1);
            assert(t.drop_last() == v.take(i as int));
            assert(t.last() == ls@[i as int]@);
            if i == 0 {
                assert(joined_lines(v.take(0)) == Seq::<char>::empty());
                assert(s@ =~= old(s)@ + joined_lines(t));
            } else {
                assert(s@ =~= old(s)@ + joined_lines(t));
            }
        }
        i += 1;
    }
    assert(v.take(i as int) == v);
}

} // verus!
