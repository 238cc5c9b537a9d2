//! The tokenizer: what tokens a text stands for, and the scanner that
//! produces them.
//!
//! The rules are given as functions on the text that is still to be read:
//! `next_step` says what stands at its front and how many characters that
//! takes, and `lex` follows the steps to the end of the text.
use crate::decimal::{at_most, is_decimal, lemma_literal_is_decimal, literal_text, Decimal};
use crate::error::{LexError, LexErrorView};
use crate::text::{
    digit, digits_value, is_digit, is_name_char, is_name_start, is_whitespace, lemma_span_is,
    letter, name_char, parse_digits, span, string_of, whitespace,
};
use crate::token::{tokens_view, ScalarKind, Token, TokenView, COMMENT_CHAR};
use vstd::prelude::*;
use vstd::string::StringExecFns;

verus! {

/// What stands at the front of a text.
pub ghost enum Step {
    /// White space or a comment, of the given length.
    Skip(int),
    /// A token, written with the given number of characters.
    Emit(TokenView, int),
    /// Nothing that the tokenizer accepts.
    Fail(LexErrorView),
}

/// The token that a single character stands for, if it stands for one.
pub open spec fn punctuation(c: char) -> Option<TokenView> {
    if c == '=' {
        Some(TokenView::Equals)
    } else if c == ',' {
        Some(TokenView::Separator)
    } else if c == '+' {
        Some(TokenView::Add)
    } else if c == '-' {
        Some(TokenView::Subtract)
    } else if c == '*' {
        Some(TokenView::Multiply)
    } else if c == '/' {
        Some(TokenView::Divide)
    } else if c == '%' {
        Some(TokenView::Modulo)
    } else if c == '[' {
        Some(TokenView::OpenBracket)
    } else if c == ']' {
        Some(TokenView::CloseBracket)
    } else if c == '{' {
        Some(TokenView::OpenBrace)
    } else if c == '}' {
        Some(TokenView::CloseBrace)
    } else if c == '(' {
        Some(TokenView::OpenParen)
    } else if c == ')' {
        Some(TokenView::CloseParen)
    } else {
        None
    }
}

/// The type that a suffix letter gives to a number.
pub open spec fn suffix_kind(c: char) -> Option<ScalarKind> {
    if c == 'i' || c == 'I' {
        Some(ScalarKind::Integer)
    } else if c == 'u' || c == 'U' {
        Some(ScalarKind::Unsigned)
    } else if c == 'f' || c == 'F' {
        Some(ScalarKind::Float)
    } else {
        None
    }
}

/// A number starts at a digit, or at a point that a digit follows.
pub open spec fn starts_number(s: Seq<char>) -> bool {
    s.len() > 0 && (is_digit(s[0]) || (s[0] == '.' && s.len() > 1 && is_digit(s[1])))
}

/// The length of a comment: from its first character to the end of the
/// line, the line feed included, or to the end of the text.
pub open spec fn comment_len(s: Seq<char>) -> int {
    let n = 1 + span(s.skip(1), |c: char| c != '\n') as int;
    if n < s.len() {
        n + 1
    } else {
        n
    }
}

/// The token for a number of the given kind, written as `text` with whole
/// digits that denote `value`.
///
/// A float keeps its text. An integer written with a point is cut down to
/// its whole part, and to the largest value of its type where that is
/// smaller; one written without a point must fit its type.
pub open spec fn number_of(
    kind: ScalarKind,
    value: nat,
    dotted: bool,
    text: Seq<char>,
    used: int,
) -> Step {
    match kind {
        ScalarKind::Integer => if dotted {
            Step::Emit(TokenView::Integer(at_most(value, i64::MAX as nat) as i64), used)
        } else if value <= i64::MAX {
            Step::Emit(TokenView::Integer(value as i64), used)
        } else {
            Step::Fail(LexErrorView::MalformedNumber(text))
        },
        ScalarKind::Unsigned => if dotted {
            Step::Emit(TokenView::Unsigned(at_most(value, u64::MAX as nat) as u64), used)
        } else if value <= u64::MAX {
            Step::Emit(TokenView::Unsigned(value as u64), used)
        } else {
            Step::Fail(LexErrorView::MalformedNumber(text))
        },
        _ => Step::Emit(TokenView::Float(text), used),
    }
}

/// The digit zero denotes zero.
pub proof fn lemma_zero_digit()
    ensures
        digits_value(seq!['0']) == 0,
{
    let z = seq!['0'];
    assert(z.drop_last() =~= Seq::<char>::empty());
    assert(digits_value(z.drop_last()) == 0);
}

/// Reads a number from the front of `s`.
///
/// The number is a run of digits with at most one point in it; a second
/// point is an error. A suffix letter right behind it gives its type;
/// without one it is a float where it has a point and a signed integer
/// where it has none. A number that starts with its point is read as if a
/// zero stood before the point. An integer written with a point is cut
/// down to its whole part, and to the largest value of its type where that
/// is smaller; one written without a point must fit its type.
pub open spec fn number_step(s: Seq<char>) -> Step {
    let a = span(s, |c: char| is_digit(c)) as int;
    let dotted = a < s.len() && s[a] == '.';
    let n = if dotted {
        a + 1 + span(s.skip(a + 1), |c: char| is_digit(c))
    } else {
        a
    };
    number_from(s, a, dotted, n)
}

/// Reads the number at the front of `s` whose whole digits are the first
/// `a` characters and whose text, the point and the digits behind it
/// included, is the first `n`.
pub open spec fn number_from(s: Seq<char>, a: int, dotted: bool, n: int) -> Step {
    if dotted && n < s.len() && s[n] == '.' {
        Step::Fail(LexErrorView::MultipleDecimalPoints)
    } else {
        let suffix = if n < s.len() {
            suffix_kind(s[n])
        } else {
            None
        };
        let used = if suffix is Some {
            n + 1
        } else {
            n
        };
        let whole = if a == 0 {
            seq!['0']
        } else {
            s.take(a)
        };
        let fraction = if dotted {
            s.subrange(a + 1, n)
        } else {
            Seq::empty()
        };
        let kind = match suffix {
            Some(k) => k,
            None => if dotted {
                ScalarKind::Float
            } else {
                ScalarKind::Integer
            },
        };
        number_of(kind, digits_value(whole), dotted, literal_text(whole, dotted, fraction), used)
    }
}

/// Reads an identifier from the front of `s`: a letter or an underscore,
/// then letters, digits and underscores.
pub open spec fn identifier_step(s: Seq<char>) -> Step {
    let n = 1 + span(s.skip(1), |c: char| is_name_char(c)) as int;
    Step::Emit(TokenView::Identifier(s.take(n)), n)
}

/// Reads a string literal from the front of `s`: from the quote to the
/// next quote. The token holds what stands between the two.
pub open spec fn string_step(s: Seq<char>) -> Step {
    let n = span(s.skip(1), |c: char| c != '"') as int;
    if 1 + n >= s.len() {
        Step::Fail(LexErrorView::UnterminatedString)
    } else {
        Step::Emit(TokenView::String(s.subrange(1, 1 + n)), n + 2)
    }
}

/// What stands at the front of a text that is not empty.
pub open spec fn next_step(s: Seq<char>) -> Step {
    let c = s[0];
    if is_whitespace(c) {
        Step::Skip(1)
    } else if c == COMMENT_CHAR {
        Step::Skip(comment_len(s))
    } else if starts_number(s) {
        number_step(s)
    } else if is_name_start(c) {
        identifier_step(s)
    } else if c == '"' {
        string_step(s)
    } else {
        match punctuation(c) {
            Some(t) => Step::Emit(t, 1),
            None => Step::Fail(LexErrorView::UnrecognizedCharacter(c)),
        }
    }
}

/// The tokens `acc` with `t` added. A string that follows a string is
/// joined to it; any other token is put behind the others.
pub open spec fn emit(acc: Seq<TokenView>, t: TokenView) -> Seq<TokenView> {
    if acc.len() > 0 && acc.last() is String && t is String {
        acc.drop_last().push(TokenView::String(acc.last()->String_0 + t->String_0))
    } else {
        acc.push(t)
    }
}

/// The tokens that `acc` becomes when the text `s` is read to its end, or
/// the first error met.
pub open spec fn lex(s: Seq<char>, acc: Seq<TokenView>) -> Result<Seq<TokenView>, LexErrorView>
    decreases s.len(),
{
    if s.len() == 0 {
        Ok(acc)
    } else {
        match next_step(s) {
            Step::Skip(n) => if 0 < n <= s.len() {
                lex(s.skip(n), acc)
            } else {
                Ok(acc)
            },
            Step::Emit(t, n) => if 0 < n <= s.len() {
                lex(s.skip(n), emit(acc, t))
            } else {
                Ok(acc)
            },
            Step::Fail(e) => Err(e),
        }
    }
}

/// The tokens that the queue `acc` holds after the text `src` has been
/// read into it. A text with a character beyond ASCII is refused as a
/// whole.
pub open spec fn extended(acc: Seq<TokenView>, src: Seq<char>) -> Result<
    Seq<TokenView>,
    LexErrorView,
> {
    if !vstd::utf8::is_ascii_chars(src) {
        Err(LexErrorView::MultiByte)
    } else {
        lex(src, acc)
    }
}

/// The tokens that the text `src` stands for.
pub open spec fn tokenized(src: Seq<char>) -> Result<Seq<TokenView>, LexErrorView> {
    extended(Seq::empty(), src)
}

/// Tokens that stand in front of the tokens being read stay as they are:
/// reading a text into `pre + acc` gives `pre` followed by what reading it
/// into `acc` gives. This holds where `acc` is not empty, or `pre` does not
/// end in a string that the first token could be joined to.
pub proof fn lemma_lex_prefix(s: Seq<char>, pre: Seq<TokenView>, acc: Seq<TokenView>)
    requires
        acc.len() > 0 || pre.len() == 0 || !(pre.last() is String),
    ensures
        lex(s, pre + acc) == match lex(s, acc) {
            Ok(tokens) => Ok::<Seq<TokenView>, LexErrorView>(pre + tokens),
            Err(e) => Err(e),
        },
    decreases s.len(),
{
    if s.len() > 0 {
        match next_step(s) {
            Step::Skip(n) => {
                if 0 < n <= s.len() {
                    lemma_lex_prefix(s.skip(n), pre, acc);
                }
            },
            Step::Emit(t, n) => {
                if 0 < n <= s.len() {
                    assert(emit(pre + acc, t) =~= pre + emit(acc, t)) by {
                        if acc.len() > 0 {
                            assert((pre + acc).last() == acc.last());
                            assert((pre + acc).drop_last() =~= pre + acc.drop_last());
                        } else {
                            assert(pre + acc =~= pre);
                        }
                    }
                    lemma_lex_prefix(s.skip(n), pre, emit(acc, t));
                }
            },
            Step::Fail(e) => {},
        }
    }
}

/// What the scanner found at one place of the text.
enum Scan {
    Skip(usize),
    Emit(Token, usize),
    Fail(LexError),
}

impl View for Scan {
    type V = Step;

    closed spec fn view(&self) -> Step {
        match self {
            Scan::Skip(n) => Step::Skip(*n as int),
            Scan::Emit(t, n) => Step::Emit(t@, *n as int),
            Scan::Fail(e) => Step::Fail(e@),
        }
    }
}

/// A step that takes at least one character and no more than `left`.
spec fn within(step: Step, left: int) -> bool {
    match step {
        Step::Skip(n) => 0 < n <= left,
        Step::Emit(_, n) => 0 < n <= left,
        Step::Fail(_) => true,
    }
}

/// The end of the run of digits that starts at `from`.
fn digits_end(chars: &Vec<char>, from: usize) -> (end: usize)
    requires
        from <= chars.len(),
    ensures
        from <= end <= chars.len(),
        end - from == span(chars@.skip(from as int), |c: char| is_digit(c)),
        forall|j: int| from <= j < end ==> is_digit(#[trigger] chars@[j]),
{
    let mut end = from;
    while end < chars.len() && digit(chars[end])
        invariant
            from <= end <= chars.len(),
            forall|j: int| from <= j < end ==> is_digit(#[trigger] chars@[j]),
        decreases chars.len() - end,
    {
        end += 1;
    }
    proof {
        let s = chars@.skip(from as int);
        assert forall|j: int| 0 <= j < end - from implies is_digit(#[trigger] s[j]) by {
            assert(s[j] == chars@[from + j]);
        }
        lemma_span_is(s, |c: char| is_digit(c), end - from);
    }
    end
}

/// The end of the run of name characters that starts at `from`.
fn name_end(chars: &Vec<char>, from: usize) -> (end: usize)
    requires
        from <= chars.len(),
    ensures
        from <= end <= chars.len(),
        end - from == span(chars@.skip(from as int), |c: char| is_name_char(c)),
{
    let mut end = from;
    while end < chars.len() && name_char(chars[end])
        invariant
            from <= end <= chars.len(),
            forall|j: int| from <= j < end ==> is_name_char(#[trigger] chars@[j]),
        decreases chars.len() - end,
    {
        end += 1;
    }
    proof {
        let s = chars@.skip(from as int);
        assert forall|j: int| 0 <= j < end - from implies is_name_char(#[trigger] s[j]) by {
            assert(s[j] == chars@[from + j]);
        }
        lemma_span_is(s, |c: char| is_name_char(c), end - from);
    }
    end
}

/// The place of the first line feed at or after `from`, or the end of the
/// text.
fn line_end(chars: &Vec<char>, from: usize) -> (end: usize)
    requires
        from <= chars.len(),
    ensures
        from <= end <= chars.len(),
        end - from == span(chars@.skip(from as int), |c: char| c != '\n'),
{
    let mut end = from;
    while end < chars.len() && chars[end] != '\n'
        invariant
            from <= end <= chars.len(),
            forall|j: int| from <= j < end ==> #[trigger] chars@[j] != '\n',
        decreases chars.len() - end,
    {
        end += 1;
    }
    proof {
        let s = chars@.skip(from as int);
        let p = |c: char| c != '\n';
        assert forall|j: int| 0 <= j < end - from implies p(#[trigger] s[j]) by {
            assert(s[j] == chars@[from + j]);
        }
        lemma_span_is(s, p, end - from);
    }
    end
}

/// The place of the first quote at or after `from`, or the end of the
/// text.
fn quote_at(chars: &Vec<char>, from: usize) -> (end: usize)
    requires
        from <= chars.len(),
    ensures
        from <= end <= chars.len(),
        end - from == span(chars@.skip(from as int), |c: char| c != '"'),
{
    let mut end = from;
    while end < chars.len() && chars[end] != '"'
        invariant
            from <= end <= chars.len(),
            forall|j: int| from <= j < end ==> #[trigger] chars@[j] != '"',
        decreases chars.len() - end,
    {
        end += 1;
    }
    proof {
        let s = chars@.skip(from as int);
        let p = |c: char| c != '"';
        assert forall|j: int| 0 <= j < end - from implies p(#[trigger] s[j]) by {
            assert(s[j] == chars@[from + j]);
        }
        lemma_span_is(s, p, end - from);
    }
    end
}

/// The type that a suffix letter gives to a number.
fn suffix_of(c: char) -> (k: Option<ScalarKind>)
    ensures
        k == suffix_kind(c),
{
    if c == 'i' || c == 'I' {
        Some(ScalarKind::Integer)
    } else if c == 'u' || c == 'U' {
        Some(ScalarKind::Unsigned)
    } else if c == 'f' || c == 'F' {
        Some(ScalarKind::Float)
    } else {
        None
    }
}

/// The token that a single character stands for, if it stands for one.
fn punctuation_of(c: char) -> (t: Option<Token>)
    ensures
        match t {
            Some(t) => punctuation(c) == Some(t@),
            None => punctuation(c) is None,
        },
{
    if c == '=' {
        Some(Token::Equals)
    } else if c == ',' {
        Some(Token::Separator)
    } else if c == '+' {
        Some(Token::Add)
    } else if c == '-' {
        Some(Token::Subtract)
    } else if c == '*' {
        Some(Token::Multiply)
    } else if c == '/' {
        Some(Token::Divide)
    } else if c == '%' {
        Some(Token::Modulo)
    } else if c == '[' {
        Some(Token::OpenBracket)
    } else if c == ']' {
        Some(Token::CloseBracket)
    } else if c == '{' {
        Some(Token::OpenBrace)
    } else if c == '}' {
        Some(Token::CloseBrace)
    } else if c == '(' {
        Some(Token::OpenParen)
    } else if c == ')' {
        Some(Token::CloseParen)
    } else {
        None
    }
}

/// The text of the number whose whole digits are `chars[i..whole_end]` and
/// whose digits behind the point, where it has one, end at `end`. A number
/// without whole digits gets a zero for them.
fn literal_of(chars: &Vec<char>, i: usize, whole_end: usize, dotted: bool, end: usize) -> (r:
    String)
    requires
        i <= whole_end <= end <= chars.len(),
        dotted ==> whole_end < end,
    ensures
        r@ == literal_text(
            if whole_end == i {
                seq!['0']
            } else {
                chars@.subrange(i as int, whole_end as int)
            },
            dotted,
            if dotted {
                chars@.subrange(whole_end + 1, end as int)
            } else {
                Seq::empty()
            },
        ),
{
    let mut literal = String::new();
    if whole_end == i {
        literal.push('0');
        assert(literal@ =~= seq!['0']);
    } else {
        literal = string_of(chars, i, whole_end);
    }
    if dotted {
        let ghost whole = literal@;
        literal.push('.');
        let digits = string_of(chars, whole_end + 1, end);
        literal.append(digits.as_str());
        assert(literal@ =~= whole + seq!['.'] + digits@);
    }
    literal
}

/// The token for a number of the given kind.
fn number_token(
    kind: ScalarKind,
    value: Option<u64>,
    dotted: bool,
    literal: String,
    used: usize,
) -> (r: Scan)
    requires
        is_decimal(literal@),
    ensures
        r@ == number_of(
            kind,
            match value {
                Some(v) => v as nat,
                None => (u64::MAX + 1) as nat,
            },
            dotted,
            literal@,
            used as int,
        ),
{
    match kind {
        ScalarKind::Integer => {
            match value {
                Some(v) => {
                    if v <= 0x7fff_ffff_ffff_ffffu64 {
                        Scan::Emit(Token::Integer(v as i64), used)
                    } else if dotted {
                        Scan::Emit(Token::Integer(i64::MAX), used)
                    } else {
                        Scan::Fail(LexError::MalformedNumber(literal))
                    }
                },
                None => {
                    if dotted {
                        Scan::Emit(Token::Integer(i64::MAX), used)
                    } else {
                        Scan::Fail(LexError::MalformedNumber(literal))
                    }
                },
            }
        },
        ScalarKind::Unsigned => {
            match value {
                Some(v) => Scan::Emit(Token::Unsigned(v), used),
                None => {
                    if dotted {
                        Scan::Emit(Token::Unsigned(u64::MAX), used)
                    } else {
                        Scan::Fail(LexError::MalformedNumber(literal))
                    }
                },
            }
        },
        _ => Scan::Emit(Token::Float(Decimal::from_literal(literal)), used),
    }
}

/// Makes the token for the number whose whole digits are
/// `chars[i..whole_end]` and whose text ends at `end`.
fn finish_number(chars: &Vec<char>, i: usize, whole_end: usize, dotted: bool, end: usize) -> (r:
    Scan)
    requires
        i <= whole_end <= end <= chars.len(),
        i < end,
        dotted == (whole_end < chars.len() && chars@[whole_end as int] == '.'),
        dotted ==> whole_end < end,
        !dotted ==> whole_end == end,
        forall|j: int| i <= j < whole_end ==> is_digit(#[trigger] chars@[j]),
        forall|j: int| whole_end < j < end ==> is_digit(#[trigger] chars@[j]),
    ensures
        r@ == number_from(chars@.skip(i as int), whole_end - i, dotted, end - i),
        within(r@, chars.len() - i),
{
    let len = chars.len();
    let ghost s = chars@.skip(i as int);
    let ghost a = whole_end - i;
    proof {
        if end < len {
            assert(s[end - i] == chars@[end as int]);
        }
    }
    if dotted && end < len && chars[end] == '.' {
        return Scan::Fail(LexError::MultipleDecimalPoints);
    }
    let suffix = if end < len {
        suffix_of(chars[end])
    } else {
        None
    };
    let used = if suffix.is_some() {
        end + 1 - i
    } else {
        end - i
    };
    let kind = match suffix {
        Some(k) => k,
        None => if dotted {
            ScalarKind::Float
        } else {
            ScalarKind::Integer
        },
    };
    let ghost whole = if a == 0 {
        seq!['0']
    } else {
        s.take(a)
    };
    let ghost fraction = if dotted {
        s.subrange(a + 1, end - i)
    } else {
        Seq::empty()
    };
    proof {
        assert(s.take(a) =~= chars@.subrange(i as int, whole_end as int));
        if a == 0 {
            lemma_zero_digit();
        }
        if dotted {
            assert(fraction =~= chars@.subrange(whole_end + 1, end as int));
        }
        lemma_literal_is_decimal(whole, dotted, fraction);
    }
    let literal = literal_of(chars, i, whole_end, dotted, end);
    let value = if whole_end == i {
        Some(0u64)
    } else {
        parse_digits(chars, i, whole_end)
    };
    number_token(kind, value, dotted, literal, used)
}

/// Reads the number that starts at `i`.
fn scan_number(chars: &Vec<char>, i: usize) -> (r: Scan)
    requires
        i < chars.len(),
        starts_number(chars@.skip(i as int)),
    ensures
        r@ == number_step(chars@.skip(i as int)),
        within(r@, chars.len() - i),
{
    let len = chars.len();
    let ghost s = chars@.skip(i as int);
    let whole_end = digits_end(chars, i);
    let dotted = whole_end < len && chars[whole_end] == '.';
    let end = if dotted {
        digits_end(chars, whole_end + 1)
    } else {
        whole_end
    };
    proof {
        assert(s[0] == chars@[i as int]);
        if whole_end < len {
            assert(s[whole_end - i] == chars@[whole_end as int]);
        }
        if dotted {
            assert(s.skip(whole_end - i + 1) =~= chars@.skip(whole_end + 1));
        }
        if whole_end == i {
            assert(s[1] == chars@[i + 1]);
            assert(chars@.skip(whole_end + 1)[0] == chars@[whole_end + 1]);
        }
    }
    finish_number(chars, i, whole_end, dotted, end)
}

/// Reads what stands at `i`.
fn next_token(chars: &Vec<char>, i: usize) -> (r: Scan)
    requires
        i < chars.len(),
    ensures
        r@ == next_step(chars@.skip(i as int)),
        within(r@, chars.len() - i),
{
    let len = chars.len();
    let ghost s = chars@.skip(i as int);
    let c = chars[i];
    assert(s[0] == c);
    if whitespace(c) {
        return Scan::Skip(1);
    }
    if c == COMMENT_CHAR {
        let end = line_end(chars, i + 1);
        assert(s.skip(1) =~= chars@.skip(i + 1));
        return if end < len {
            Scan::Skip(end + 1 - i)
        } else {
            Scan::Skip(end - i)
        };
    }
    let number = digit(c) || (c == '.' && i + 1 < len && digit(chars[i + 1]));
    proof {
        if i + 1 < len {
            assert(s[1] == chars@[i + 1]);
        }
    }
    if number {
        return scan_number(chars, i);
    }
    if letter(c) || c == '_' {
        let end = name_end(chars, i + 1);
        assert(s.skip(1) =~= chars@.skip(i + 1));
        assert(s.take(end - i) =~= chars@.subrange(i as int, end as int));
        return Scan::Emit(Token::Identifier(string_of(chars, i, end)), end - i);
    }
    if c == '"' {
        let end = quote_at(chars, i + 1);
        assert(s.skip(1) =~= chars@.skip(i + 1));
        if end >= len {
            return Scan::Fail(LexError::UnterminatedString);
        }
        assert(s.subrange(1, end - i) =~= chars@.subrange(i + 1, end as int));
        return Scan::Emit(Token::String(string_of(chars, i + 1, end)), end + 1 - i);
    }
    match punctuation_of(c) {
        Some(t) => Scan::Emit(t, 1),
        None => Scan::Fail(LexError::UnrecognizedCharacter(c)),
    }
}

/// Adds a token to the tokens read so far. A string that follows a string
/// is joined to it.
fn push_token(out: &mut Vec<Token>, t: Token)
    ensures
        tokens_view(final(out)@) == emit(tokens_view(old(out)@), t@),
{
    let ghost before = tokens_view(out@);
    let n = out.len();
    let joins = n > 0 && matches!(out[n - 1], Token::String(_)) && matches!(t, Token::String(_));
    if joins {
        let last = out.pop();
        match (last, t) {
            (Some(Token::String(mut head)), Token::String(tail)) => {
                head.append(tail.as_str());
                out.push(Token::String(head));
                assert(tokens_view(out@) =~= emit(before, t@));
            },
            (Some(a), b) => {
                out.push(a);
                out.push(b);
            },
            (None, b) => {
                out.push(b);
            },
        }
    } else {
        out.push(t);
        assert(tokens_view(out@) =~= emit(before, t@));
    }
}

/// Reads the text `chars` to its end and adds its tokens to `acc`.
pub(crate) fn scan(chars: &Vec<char>, acc: Vec<Token>) -> (r: Result<Vec<Token>, LexError>)
    ensures
        match lex(chars@, tokens_view(acc@)) {
            Ok(tokens) => r is Ok && tokens_view(r->Ok_0@) == tokens,
            Err(e) => r is Err && r->Err_0@ == e,
        },
{
    let ghost start = tokens_view(acc@);
    let mut out = acc;
    let mut i: usize = 0;
    assert(chars@.skip(0) =~= chars@);
    while i < chars.len()
        invariant
            i <= chars.len(),
            start == tokens_view(acc@),
            lex(chars@.skip(i as int), tokens_view(out@)) == lex(chars@, start),
        decreases chars.len() - i,
    {
        let ghost s = chars@.skip(i as int);
        match next_token(chars, i) {
            Scan::Skip(n) => {
                assert(s.skip(n as int) =~= chars@.skip(i + n));
                i += n;
            },
            Scan::Emit(t, n) => {
                assert(s.skip(n as int) =~= chars@.skip(i + n));
                push_token(&mut out, t);
                i += n;
            },
            Scan::Fail(e) => {
                return Err(e);
            },
        }
    }
    Ok(out)
}

} // verus!
