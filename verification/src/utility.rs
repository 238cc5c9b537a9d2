//! Helpers for laying out text.
use crate::text::chars_of;
use vstd::prelude::*;

verus! {

/// `amount` tab characters.
pub open spec fn tabs(amount: nat) -> Seq<char> {
    Seq::new(amount, |i: int| '\t')
}

/// What a character becomes in an indented text: a line feed takes the
/// tabs of the next line behind it.
pub open spec fn indented_char(c: char, amount: nat) -> Seq<char> {
    if c == '\n' {
        seq!['\n'] + tabs(amount)
    } else {
        seq![c]
    }
}

/// The text `s` with `amount` tabs behind each of its line feeds.
pub open spec fn indented_lines(s: Seq<char>, amount: nat) -> Seq<char>
    decreases s.len(),
{
    if s.len() == 0 {
        Seq::empty()
    } else {
        indented_lines(s.drop_last(), amount) + indented_char(s.last(), amount)
    }
}

/// The text `s` with `amount` tabs in front of each of its lines.
pub open spec fn indented(s: Seq<char>, amount: nat) -> Seq<char> {
    tabs(amount) + indented_lines(s, amount)
}

/// Appends `amount` tabs to `out`.
fn push_tabs(out: &mut String, amount: usize)
    ensures
        final(out)@ == old(out)@ + tabs(amount as nat),
{
    let mut i: usize = 0;
    assert(out@ =~= old(out)@ + tabs(0));
    while i < amount
        invariant
            i <= amount,
            out@ == old(out)@ + tabs(i as nat),
        decreases amount - i,
    {
        out.push('\t');
        assert(out@ =~= old(out)@ + tabs((i + 1) as nat));
        i += 1;
    }
}

/// Indents a string with a given amount of tabs: puts them in front of the
/// string and behind every line feed in it.
pub fn indent(string: &str, amount: usize) -> (r: String)
    ensures
        r@ == indented(string@, amount as nat),
{
    let chars = chars_of(string);
    let mut out = String::new();
    push_tabs(&mut out, amount);
    assert(out@ =~= tabs(amount as nat) + indented_lines(chars@.take(0), amount as nat));
    let mut i: usize = 0;
    while i < chars.len()
        invariant
            i <= chars.len(),
            chars@ == string@,
            out@ == tabs(amount as nat) + indented_lines(chars@.take(i as int), amount as nat),
        decreases chars.len() - i,
    {
        let ghost before = out@;
        let c = chars[i];
        out.push(c);
        if c == '\n' {
            push_tabs(&mut out, amount);
        }
        proof {
            let next = chars@.take(i + 1);
            assert(next.drop_last() =~= chars@.take(i as int));
            assert(next.last() == c);
            assert(out@ =~= before + indented_char(c, amount as nat));
            assert(out@ =~= tabs(amount as nat) + indented_lines(next, amount as nat));
        }
        i += 1;
    }
    assert(chars@.take(chars.len() as int) =~= chars@);
    out
}

} // verus!
