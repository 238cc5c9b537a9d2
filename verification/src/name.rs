//! The rules for names of keys and sections: a predicate that tells whether
//! a string is a valid name, and a function that turns any string into one.
use crate::text::{
    chars_of, digit, eq_ignore_case, is_digit, is_name_char, is_name_start, is_whitespace,
    lemma_span_is, lemma_span_props, letter, lower, name_char, span, whitespace,
};
use vstd::prelude::*;

verus! {

/// A valid name is not empty, starts with a letter or an underscore and
/// goes on with letters, digits and underscores.
pub open spec fn valid_name(s: Seq<char>) -> bool {
    &&& s.len() > 0
    &&& is_name_start(s[0])
    &&& forall|i: int| 1 <= i < s.len() ==> is_name_char(#[trigger] s[i])
}

/// The number of white-space characters at the end of `s`.
pub open spec fn trailing_space(s: Seq<char>) -> nat
    decreases s.len(),
{
    if s.len() > 0 && is_whitespace(s.last()) {
        1 + trailing_space(s.drop_last())
    } else {
        0
    }
}

/// The number of white-space characters at the start of `s`.
pub open spec fn leading_space(s: Seq<char>) -> nat {
    span(s, |c: char| is_whitespace(c))
}

/// `s` without the white space around it.
pub open spec fn trimmed(s: Seq<char>) -> Seq<char> {
    let rest = s.skip(leading_space(s) as int);
    rest.take(rest.len() - trailing_space(rest))
}

/// What a character becomes in a name: itself where it may stand in a name,
/// the replacement where it may not.
pub open spec fn replaced(c: char, repl: char) -> char {
    if is_name_char(c) {
        c
    } else {
        repl
    }
}

/// The name made from `s`: the trimmed text with every character that
/// cannot stand in a name replaced by `repl`, and an underscore in front
/// where the result would start with a digit. A blank `s` gives `repl` alone.
pub open spec fn sanitized(s: Seq<char>, repl: char) -> Seq<char> {
    let t = trimmed(s);
    if t.len() == 0 {
        seq![repl]
    } else {
        let m = Seq::new(t.len(), |i: int| replaced(t[i], repl));
        if is_digit(m[0]) {
            seq!['_'] + m
        } else {
            m
        }
    }
}

/// The inputs on which making a name twice differs from making it once:
/// a digit as replacement for a blank text, and a white-space replacement
/// that lands on the first or last place of a text of two or more characters.
pub open spec fn resanitizing_differs(s: Seq<char>, repl: char) -> bool {
    let t = trimmed(s);
    ||| (is_digit(repl) && t.len() == 0)
    ||| (is_whitespace(repl) && t.len() >= 2 && (!is_name_char(t[0]) || !is_name_char(t.last())))
}

/// Tells whether one of `names` is `name`, whatever the case of the
/// letters.
pub open spec fn has_name(names: Seq<Seq<char>>, name: Seq<char>) -> bool {
    exists|j: int| 0 <= j < names.len() && eq_ignore_case(#[trigger] names[j], name)
}

/// Tells whether no two of `names` are the same, whatever the case of the
/// letters.
pub open spec fn distinct_names(names: Seq<Seq<char>>) -> bool {
    forall|i: int, j: int|
        0 <= i < j < names.len() ==> !eq_ignore_case(#[trigger] names[i], #[trigger] names[j])
}

/// The first place in `names` that holds `name`, whatever the case of the
/// letters; the number of names where none holds it.
pub open spec fn position_of(names: Seq<Seq<char>>, name: Seq<char>) -> int
    decreases names.len(),
{
    if names.len() == 0 {
        0
    } else if eq_ignore_case(names[0], name) {
        0
    } else {
        1 + position_of(names.drop_first(), name)
    }
}

/// `position_of` gives the first place that holds the name, or the length
/// where there is none.
pub proof fn lemma_position_of(names: Seq<Seq<char>>, name: Seq<char>)
    ensures
        0 <= position_of(names, name) <= names.len(),
        position_of(names, name) < names.len() ==> eq_ignore_case(
            names[position_of(names, name)],
            name,
        ),
        forall|k: int|
            0 <= k < position_of(names, name) ==> !eq_ignore_case(#[trigger] names[k], name),
        has_name(names, name) == (position_of(names, name) < names.len()),
    decreases names.len(),
{
    if names.len() > 0 && !eq_ignore_case(names[0], name) {
        let rest = names.drop_first();
        lemma_position_of(rest, name);
        assert forall|k: int| 0 <= k < position_of(names, name) implies !eq_ignore_case(
            #[trigger] names[k],
            name,
        ) by {
            if k > 0 {
                assert(names[k] == rest[k - 1]);
            }
        }
        if position_of(names, name) < names.len() {
            assert(names[position_of(names, name)] == rest[position_of(rest, name)]);
        }
    }
}

/// A place that holds the name and has none before it that does is
/// `position_of`; so is the length where no place holds it.
pub proof fn lemma_position_is(names: Seq<Seq<char>>, name: Seq<char>, at: int)
    requires
        0 <= at <= names.len(),
        at < names.len() ==> eq_ignore_case(names[at], name),
        forall|k: int| 0 <= k < at ==> !eq_ignore_case(#[trigger] names[k], name),
    ensures
        position_of(names, name) == at,
{
    lemma_position_of(names, name);
    let p = position_of(names, name);
    if p < at {
        assert(!eq_ignore_case(names[p], name));
    } else if at < p {
        assert(!eq_ignore_case(names[at], name));
    }
}

/// Looking a name up does not depend on the case of its letters: two
/// names that differ in case only are found at the same place.
pub proof fn lemma_lookup_ignores_case(names: Seq<Seq<char>>, a: Seq<char>, b: Seq<char>)
    requires
        eq_ignore_case(a, b),
    ensures
        position_of(names, a) == position_of(names, b),
        has_name(names, a) == has_name(names, b),
    decreases names.len(),
{
    if names.len() > 0 {
        lemma_lookup_ignores_case(names.drop_first(), a, b);
        let n = names[0];
        if eq_ignore_case(n, a) {
            assert forall|i: int| 0 <= i < n.len() implies lower(#[trigger] n[i])
                == lower(b[i]) by {
                assert(lower(a[i]) == lower(b[i]));
            }
        }
        if eq_ignore_case(n, b) {
            assert forall|i: int| 0 <= i < n.len() implies lower(#[trigger] n[i])
                == lower(a[i]) by {
                assert(lower(a[i]) == lower(b[i]));
            }
        }
    }
    lemma_position_of(names, a);
    lemma_position_of(names, b);
}

/// Two names that are the same whatever the case of their letters are so
/// in either order.
pub proof fn lemma_same_name_symmetric(a: Seq<char>, b: Seq<char>)
    requires
        eq_ignore_case(a, b),
    ensures
        eq_ignore_case(b, a),
{
    assert forall|i: int| 0 <= i < b.len() implies lower(#[trigger] b[i]) == lower(a[i]) by {
        assert(lower(a[i]) == lower(b[i]));
    }
}

/// Names of which no two are the same stay so when a name that is new
/// among them is put in.
pub proof fn lemma_insert_distinct(names: Seq<Seq<char>>, at: int, name: Seq<char>)
    requires
        distinct_names(names),
        !has_name(names, name),
        0 <= at <= names.len(),
    ensures
        distinct_names(names.insert(at, name)),
{
    let all = names.insert(at, name);
    assert forall|i: int, j: int| 0 <= i < j < all.len() implies !eq_ignore_case(
        #[trigger] all[i],
        #[trigger] all[j],
    ) by {
        if j == at {
            assert(all[i] == names[i]);
        } else if i == at {
            assert(all[j] == names[j - 1]);
            if eq_ignore_case(all[i], all[j]) {
                lemma_same_name_symmetric(all[i], all[j]);
            }
        } else {
            let a = if i < at {
                i
            } else {
                i - 1
            };
            let b = if j < at {
                j
            } else {
                j - 1
            };
            assert(all[i] == names[a]);
            assert(all[j] == names[b]);
        }
    }
}

/// Names of which no two are the same stay so when one is taken out.
pub proof fn lemma_remove_distinct(names: Seq<Seq<char>>, at: int)
    requires
        distinct_names(names),
        0 <= at < names.len(),
    ensures
        distinct_names(names.remove(at)),
{
    let all = names.remove(at);
    assert forall|i: int, j: int| 0 <= i < j < all.len() implies !eq_ignore_case(
        #[trigger] all[i],
        #[trigger] all[j],
    ) by {
        let a = if i < at {
            i
        } else {
            i + 1
        };
        let b = if j < at {
            j
        } else {
            j + 1
        };
        assert(all[i] == names[a]);
        assert(all[j] == names[b]);
    }
}

/// The trailing space is no longer than the text.
pub proof fn lemma_trailing_bound(s: Seq<char>)
    ensures
        trailing_space(s) <= s.len(),
    decreases s.len(),
{
    if s.len() > 0 && is_whitespace(s.last()) {
        lemma_trailing_bound(s.drop_last());
    }
}

/// A suffix of `n` white-space characters, preceded by the start or by a
/// character that is none, is the trailing space.
pub proof fn lemma_trailing_is(s: Seq<char>, n: int)
    requires
        0 <= n <= s.len(),
        forall|j: int| s.len() - n <= j < s.len() ==> is_whitespace(#[trigger] s[j]),
        n == s.len() || !is_whitespace(s[s.len() - n - 1]),
    ensures
        trailing_space(s) == n,
    decreases n,
{
    if n > 0 {
        let t = s.drop_last();
        assert forall|j: int| t.len() - (n - 1) <= j < t.len() implies is_whitespace(
            #[trigger] t[j],
        ) by {
            assert(t[j] == s[j]);
        }
        lemma_trailing_is(t, n - 1);
    }
}

/// The trimmed text is a piece of the source that neither starts nor ends
/// with white space.
pub proof fn lemma_trimmed_props(s: Seq<char>)
    ensures
        trimmed(s).len() <= s.len(),
        trimmed(s).len() > 0 ==> !is_whitespace(trimmed(s)[0]) && !is_whitespace(
            trimmed(s).last(),
        ),
{
    let p = |c: char| is_whitespace(c);
    lemma_span_props(s, p);
    let a = span(s, p);
    let rest = s.skip(a as int);
    lemma_trailing_bound(rest);
    lemma_trailing_edge(rest);
    let t = trimmed(s);
    if t.len() > 0 {
        assert(t[0] == rest[0]);
        assert(rest[0] == s[a as int]);
        assert(t.last() == rest[rest.len() - trailing_space(rest) - 1]);
    }
}

/// The character before the trailing space, if any, is no white space.
pub proof fn lemma_trailing_edge(s: Seq<char>)
    ensures
        trailing_space(s) <= s.len(),
        trailing_space(s) < s.len() ==> !is_whitespace(s[s.len() - trailing_space(s) - 1]),
    decreases s.len(),
{
    if s.len() > 0 && is_whitespace(s.last()) {
        let t = s.drop_last();
        lemma_trailing_edge(t);
        if trailing_space(s) < s.len() {
            assert(s[s.len() - trailing_space(s) - 1] == t[t.len() - trailing_space(t) - 1]);
        }
    }
}

/// A text that neither starts nor ends with white space is its own trimmed
/// form.
pub proof fn lemma_trimmed_same(s: Seq<char>)
    requires
        s.len() > 0 ==> !is_whitespace(s[0]) && !is_whitespace(s.last()),
    ensures
        trimmed(s) == s,
{
    let p = |c: char| is_whitespace(c);
    lemma_span_is(s, p, 0);
    assert(s.skip(0) == s);
    lemma_trailing_is(s, 0);
    assert(s.take(s.len() as int) == s);
}

/// A text of white space alone trims to nothing.
pub proof fn lemma_trimmed_blank(s: Seq<char>)
    requires
        forall|j: int| 0 <= j < s.len() ==> is_whitespace(#[trigger] s[j]),
    ensures
        trimmed(s).len() == 0,
{
    let p = |c: char| is_whitespace(c);
    lemma_span_is(s, p, s.len() as int);
}

/// A valid name is left as it is, whatever the replacement character.
pub proof fn lemma_valid_name_unchanged(s: Seq<char>, repl: char)
    requires
        valid_name(s),
    ensures
        sanitized(s, repl) == s,
{
    assert(is_name_char(s[0]));
    assert(is_name_char(s.last()));
    lemma_trimmed_same(s);
    let m = Seq::new(s.len(), |i: int| replaced(s[i], repl));
    assert(m =~= s);
}

/// With a replacement character that may start a name, the name made from
/// any text is valid.
pub proof fn lemma_sanitized_is_valid(s: Seq<char>, repl: char)
    requires
        is_name_start(repl),
    ensures
        valid_name(sanitized(s, repl)),
{
    let t = trimmed(s);
    if t.len() > 0 {
        let m = Seq::new(t.len(), |i: int| replaced(t[i], repl));
        assert(is_name_char(m[0]));
        if is_digit(m[0]) {
            let out = seq!['_'] + m;
            assert forall|i: int| 1 <= i < out.len() implies is_name_char(#[trigger] out[i]) by {
                assert(out[i] == m[i - 1]);
            }
        }
    }
}

/// Making a name from a name gives the same name again:
/// `sanitized(sanitized(s, r), r) == sanitized(s, r)`, for every text and
/// every replacement but those of `resanitizing_differs`.
pub proof fn lemma_sanitize_idempotent(s: Seq<char>, repl: char)
    requires
        !resanitizing_differs(s, repl),
    ensures
        sanitized(sanitized(s, repl), repl) == sanitized(s, repl),
{
    let t = trimmed(s);
    let out = sanitized(s, repl);
    lemma_trimmed_props(s);
    if t.len() == 0 || (is_whitespace(repl) && t.len() == 1 && !is_name_char(t[0])) {
        // the name is the replacement character alone
        assert(out =~= seq![repl]);
        if is_whitespace(repl) {
            lemma_trimmed_blank(out);
        } else {
            lemma_trimmed_same(out);
            let m = Seq::new(out.len(), |i: int| replaced(out[i], repl));
            assert(m =~= out);
        }
    } else {
        let m = Seq::new(t.len(), |i: int| replaced(t[i], repl));
        assert(!is_whitespace(out[0]) && !is_whitespace(out.last())) by {
            if is_digit(m[0]) {
                assert(out.last() == m.last());
            }
            assert(m.last() == replaced(t.last(), repl));
        }
        lemma_trimmed_same(out);
        let m2 = Seq::new(out.len(), |i: int| replaced(out[i], repl));
        assert(m2 =~= out) by {
            assert forall|i: int| 0 <= i < out.len() implies replaced(out[i], repl) == out[i] by {
                if is_digit(m[0]) {
                    if i > 0 {
                        assert(out[i] == m[i - 1]);
                    }
                }
            }
        }
        assert(!is_digit(out[0]));
    }
}

/// With the underscore as replacement, making a name twice is the same as
/// making it once, for every text.
pub proof fn lemma_sanitize_idempotent_underscore(s: Seq<char>)
    ensures
        sanitized(sanitized(s, '_'), '_') == sanitized(s, '_'),
{
    lemma_sanitize_idempotent(s, '_');
}

/// Returns true if `name` is a valid name: not empty, a letter or an
/// underscore first, then letters, digits and underscores.
pub fn is_valid_name(name: &str) -> (r: bool)
    ensures
        r == valid_name(name@),
{
    let chars = chars_of(name);
    if chars.len() == 0 {
        return false;
    }
    if !(letter(chars[0]) || chars[0] == '_') {
        return false;
    }
    let mut i: usize = 1;
    while i < chars.len()
        invariant
            1 <= i <= chars.len(),
            chars@ == name@,
            forall|j: int| 1 <= j < i ==> is_name_char(#[trigger] chars@[j]),
        decreases chars.len() - i,
    {
        if !name_char(chars[i]) {
            return false;
        }
        i += 1;
    }
    true
}

/// Returns the name made from `name`: the text without the white space
/// around it, with `repl` in place of every character that cannot stand in a
/// name, and with an underscore in front where it would start with a digit.
/// A blank text gives `repl` alone.
pub fn as_valid_name(name: &str, repl: char) -> (r: String)
    ensures
        r@ == sanitized(name@, repl),
{
    let chars = chars_of(name);
    let n = chars.len();
    let mut a: usize = 0;
    while a < n && whitespace(chars[a])
        invariant
            a <= n,
            n == chars.len(),
            forall|j: int| 0 <= j < a ==> is_whitespace(#[trigger] chars@[j]),
        decreases n - a,
    {
        a += 1;
    }
    let mut b: usize = n;
    while b > a && whitespace(chars[b - 1])
        invariant
            a <= b <= n,
            n == chars.len(),
            forall|j: int| b <= j < n ==> is_whitespace(#[trigger] chars@[j]),
        decreases b,
    {
        b -= 1;
    }
    proof {
        let p = |c: char| is_whitespace(c);
        lemma_span_is(chars@, p, a as int);
        let rest = chars@.skip(a as int);
        assert forall|j: int| rest.len() - (n - b) <= j < rest.len() implies is_whitespace(
            #[trigger] rest[j],
        ) by {
            assert(rest[j] == chars@[j + a]);
        }
        if b > a {
            assert(rest[rest.len() - (n - b) - 1] == chars@[b - 1]);
        }
        lemma_trailing_is(rest, (n - b) as int);
        assert(trimmed(name@) =~= chars@.subrange(a as int, b as int));
    }
    let mut out = String::new();
    if a == b {
        out.push(repl);
        assert(out@ =~= seq![repl]);
        return out;
    }
    let ghost t = chars@.subrange(a as int, b as int);
    let ghost m = Seq::new(t.len(), |i: int| replaced(t[i], repl));
    let first = if name_char(chars[a]) {
        chars[a]
    } else {
        repl
    };
    assert(first == m[0]);
    if digit(first) {
        out.push('_');
    }
    let ghost head = out@;
    let mut i: usize = a;
    while i < b
        invariant
            a <= i <= b <= n,
            n == chars.len(),
            t == chars@.subrange(a as int, b as int),
            m == Seq::new(t.len(), |i: int| replaced(t[i], repl)),
            out@ == head + m.take(i - a),
        decreases b - i,
    {
        let c = if name_char(chars[i]) {
            chars[i]
        } else {
            repl
        };
        out.push(c);
        proof {
            assert(c == m[i - a]);
            assert(m.take(i - a).push(c) =~= m.take(i + 1 - a));
            assert((head + m.take(i - a)).push(c) =~= head + m.take(i + 1 - a));
        }
        i += 1;
    }
    proof {
        assert(m.take(b - a) =~= m);
        if is_digit(m[0]) {
            assert(head =~= seq!['_']);
        } else {
            assert(head =~= Seq::<char>::empty());
            assert(head + m =~= m);
        }
    }
    out
}

} // verus!
