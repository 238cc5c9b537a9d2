//! Decimal literals: the form in which a fractional number is carried
//! through the token stream and the value tree.
//!
//! The library does no floating-point arithmetic. A float is kept as the
//! digits it was written with, and a caller that wants a number converts
//! the literal.
use crate::text::{chars_of, digit, is_digit, lemma_span_is, span};
use vstd::prelude::*;

verus! {

/// The text of a decimal literal: one or more digits, then optionally a
/// point and any number of further digits.
pub open spec fn is_decimal(s: Seq<char>) -> bool {
    let a = span(s, |c: char| is_digit(c));
    a >= 1 && (a == s.len() || (s[a as int] == '.' && a + 1 + span(
        s.skip(a as int + 1),
        |c: char| is_digit(c),
    ) == s.len()))
}

/// The digits in front of the point.
pub open spec fn whole_digits(s: Seq<char>) -> Seq<char> {
    s.take(span(s, |c: char| is_digit(c)) as int)
}

/// The text of a number: its whole digits, then the point and the digits
/// behind it where it has a point.
pub open spec fn literal_text(whole: Seq<char>, dotted: bool, fraction: Seq<char>) -> Seq<char> {
    if dotted {
        whole + seq!['.'] + fraction
    } else {
        whole
    }
}

/// Digits, with or without a point and further digits behind them, make a
/// decimal literal whose whole digits are the digits in front.
pub proof fn lemma_literal_is_decimal(whole: Seq<char>, dotted: bool, fraction: Seq<char>)
    requires
        whole.len() >= 1,
        forall|i: int| 0 <= i < whole.len() ==> is_digit(#[trigger] whole[i]),
        forall|i: int| 0 <= i < fraction.len() ==> is_digit(#[trigger] fraction[i]),
    ensures
        is_decimal(literal_text(whole, dotted, fraction)),
        whole_digits(literal_text(whole, dotted, fraction)) == whole,
{
    let text = literal_text(whole, dotted, fraction);
    let p = |c: char| is_digit(c);
    assert forall|j: int| 0 <= j < whole.len() implies p(#[trigger] text[j]) by {
        assert(text[j] == whole[j]);
    }
    lemma_span_is(text, p, whole.len() as int);
    assert(text.take(whole.len() as int) =~= whole);
    if dotted {
        assert(text.skip(whole.len() as int + 1) =~= fraction);
        lemma_span_is(fraction, p, fraction.len() as int);
    }
}

/// `n`, or `max` where `n` is larger.
pub open spec fn at_most(n: nat, max: nat) -> nat {
    if n <= max {
        n
    } else {
        max
    }
}

/// A non-negative decimal number, kept as the digits it was written with.
#[derive(Debug, PartialEq)]
pub struct Decimal {
    text: String,
}

impl View for Decimal {
    type V = Seq<char>;

    closed spec fn view(&self) -> Seq<char> {
        self.text@
    }
}

impl Clone for Decimal {
    fn clone(&self) -> (d: Decimal)
        ensures
            d@ == self@,
    {
        proof {
            use_type_invariant(self);
        }
        Decimal { text: self.text.clone() }
    }
}

impl Decimal {
    #[verifier::type_invariant]
    spec fn well_formed(self) -> bool {
        is_decimal(self.text@)
    }

    /// Wraps the text of a literal.
    pub(crate) fn from_literal(text: String) -> (d: Decimal)
        requires
            is_decimal(text@),
        ensures
            d@ == text@,
    {
        Decimal { text }
    }

    /// Reads a decimal literal. Gives `None` where `text` is not one.
    pub fn parse(text: &str) -> (r: Option<Decimal>)
        ensures
            r is Some == is_decimal(text@),
            r matches Some(d) ==> d@ == text@,
    {
        let chars = chars_of(text);
        let n = chars.len();
        let mut a: usize = 0;
        while a < n && digit(chars[a])
            invariant
                a <= n,
                n == chars.len(),
                forall|j: int| 0 <= j < a ==> is_digit(#[trigger] chars@[j]),
            decreases n - a,
        {
            a += 1;
        }
        proof {
            lemma_span_is(chars@, |c: char| is_digit(c), a as int);
        }
        if a == 0 {
            return None;
        }
        if a < n {
            if chars[a] != '.' {
                return None;
            }
            let mut b: usize = a + 1;
            while b < n && digit(chars[b])
                invariant
                    a + 1 <= b <= n,
                    n == chars.len(),
                    forall|j: int| a + 1 <= j < b ==> is_digit(#[trigger] chars@[j]),
                decreases n - b,
            {
                b += 1;
            }
            proof {
                let rest = chars@.skip(a + 1);
                assert forall|j: int| 0 <= j < b - a - 1 implies is_digit(#[trigger] rest[j]) by {
                    assert(rest[j] == chars@[j + a + 1]);
                }
                lemma_span_is(rest, |c: char| is_digit(c), b - a - 1);
            }
            if b < n {
                return None;
            }
        }
        Some(Decimal { text: text.to_owned() })
    }

    /// The literal as it was written.
    pub fn as_str(&self) -> (s: &str)
        ensures
            s@ == self@,
            is_decimal(s@),
    {
        proof {
            use_type_invariant(self);
        }
        self.text.as_str()
    }
}

} // verus!
