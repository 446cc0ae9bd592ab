//! The text of a value, as it is shown to a user.
//!
//! Literals are written as a reader would take them. Collections have no
//! text of their own here. Neither have floats: a float is held as its bits,
//! and whoever has the text of its number hands it to `complex_to_text` or
//! shows it as it is.

use crate::types::same;
use crate::types::LispVal;
use crate::types::Procedure;
use vstd::prelude::*;
use vstd::string::StringExecFns;

verus! {

/// The character of a decimal digit.
pub open spec fn digit_char(d: int) -> char {
    if d == 0 {
        '0'
    } else if d == 1 {
        '1'
    } else if d == 2 {
        '2'
    } else if d == 3 {
        '3'
    } else if d == 4 {
        '4'
    } else if d == 5 {
        '5'
    } else if d == 6 {
        '6'
    } else if d == 7 {
        '7'
    } else if d == 8 {
        '8'
    } else {
        '9'
    }
}

/// A natural number in decimal, without leading zeros.
pub open spec fn digits(n: nat) -> Seq<char>
    decreases n,
{
    if n < 10 {
        seq![digit_char(n as int)]
    } else {
        digits(n / 10).push(digit_char((n % 10) as int))
    }
}

/// An integer in decimal, with a minus sign where it is negative.
pub open spec fn int_text(i: int) -> Seq<char> {
    if i < 0 {
        seq!['-'] + digits((-i) as nat)
    } else {
        digits(i as nat)
    }
}

/// The text of a string literal: its characters between double quotes, as
/// they are.
pub open spec fn quoted(content: Seq<char>) -> Seq<char> {
    seq!['"'] + content + seq!['"']
}

/// The text of a keyword: a colon, then its name.
pub open spec fn keyword_text(name: Seq<char>) -> Seq<char> {
    seq![':'] + name
}

/// The text of a procedure: the word `Procedure`, a colon, a space, and its
/// name.
pub open spec fn procedure_text(name: Seq<char>) -> Seq<char> {
    seq!['P', 'r', 'o', 'c', 'e', 'd', 'u', 'r', 'e', ':', ' '] + name
}

/// The text of a complex number, from the texts of its two parts: the real
/// part, `+i`, the imaginary part.
pub open spec fn complex_text(re: Seq<char>, im: Seq<char>) -> Seq<char> {
    re + seq!['+', 'i'] + im
}

/// The text of a value, for the kinds that have one without more ado:
/// `()` for nil, `#t` and `#f`, a string between quotes, a symbol's name, a
/// keyword behind its colon, an integer in decimal, and a procedure by its
/// name. A float is shown as its number is written, which its bits do not
/// tell here; lists, vectors, maps and sets are left to a printer.
pub open spec fn text_of(v: LispVal) -> Option<Seq<char>> {
    match v {
        LispVal::Nil => Some(seq!['(', ')']),
        LispVal::Bool(b) => Some(
            if b {
                seq!['#', 't']
            } else {
                seq!['#', 'f']
            },
        ),
        LispVal::Str(s) => Some(quoted(s@)),
        LispVal::Symbol(s) => Some(s@),
        LispVal::Keyword(s) => Some(keyword_text(s@)),
        LispVal::Int(i) => Some(int_text(i as int)),
        LispVal::Proc(p) => Some(procedure_text(p.spec_name())),
        _ => None,
    }
}

/// Whether a value is a literal that is written as it is read: nil, a
/// boolean, an integer, a symbol, a keyword or a string.
pub open spec fn is_plain_literal(v: LispVal) -> bool {
    v is Nil || v is Bool || v is Int || v is Symbol || v is Keyword || v is Str
}

/// Whether two values are of the same kind.
pub open spec fn same_kind(a: LispVal, b: LispVal) -> bool {
    match (a, b) {
        (LispVal::Nil, LispVal::Nil) => true,
        (LispVal::Bool(_), LispVal::Bool(_)) => true,
        (LispVal::Str(_), LispVal::Str(_)) => true,
        (LispVal::Symbol(_), LispVal::Symbol(_)) => true,
        (LispVal::Keyword(_), LispVal::Keyword(_)) => true,
        (LispVal::Float(_), LispVal::Float(_)) => true,
        (LispVal::Int(_), LispVal::Int(_)) => true,
        (LispVal::Complex(_, _), LispVal::Complex(_, _)) => true,
        (LispVal::List(_), LispVal::List(_)) => true,
        (LispVal::Vector(_), LispVal::Vector(_)) => true,
        (LispVal::MapVal(_), LispVal::MapVal(_)) => true,
        (LispVal::SetVal(_), LispVal::SetVal(_)) => true,
        (LispVal::Proc(_), LispVal::Proc(_)) => true,
        _ => false,
    }
}

/// Whether a character is a decimal digit.
pub open spec fn is_digit(c: char) -> bool {
    c == '0' || c == '1' || c == '2' || c == '3' || c == '4' || c == '5' || c == '6' || c == '7'
        || c == '8' || c == '9'
}

/// Whether a value is a symbol that is written as a plain literal of
/// another kind is: one named `()`, `#t` or `:a`, or like a number or a
/// quoted string. A reader takes its text for that other literal.
pub open spec fn reads_as_another(v: LispVal) -> bool {
    v is Symbol && exists|other: LispVal|
        is_plain_literal(other) && !(other is Symbol) && #[trigger] text_of(other) == text_of(v)
}

/// A number in decimal has at least one character, and each is a digit.
pub proof fn lemma_digits_shape(n: nat)
    ensures
        digits(n).len() >= 1,
        n >= 10 ==> digits(n).len() >= 2,
        forall|i: int| 0 <= i < digits(n).len() ==> is_digit(#[trigger] digits(n)[i]),
    decreases n,
{
    if n >= 10 {
        lemma_digits_shape(n / 10);
    }
}

/// Different digits have different characters.
proof fn lemma_digit_chars_differ(c: int, d: int)
    requires
        0 <= c < 10,
        0 <= d < 10,
        digit_char(c) == digit_char(d),
    ensures
        c == d,
{
}

/// Two natural numbers that are written alike in decimal are equal.
pub proof fn lemma_digits_tell_numbers_apart(a: nat, b: nat)
    requires
        digits(a) == digits(b),
    ensures
        a == b,
    decreases a,
{
    lemma_digits_shape(a);
    lemma_digits_shape(b);
    if a >= 10 && b >= 10 {
        let front_a = digits(a / 10);
        let front_b = digits(b / 10);
        let last_a = digit_char((a % 10) as int);
        let last_b = digit_char((b % 10) as int);
        assert(front_a.push(last_a).drop_last() =~= front_a);
        assert(front_b.push(last_b).drop_last() =~= front_b);
        assert(front_a.push(last_a).last() == last_a);
        assert(front_b.push(last_b).last() == last_b);
        assert(digits(a) == front_a.push(last_a));
        assert(digits(b) == front_b.push(last_b));
        assert(front_a == front_b);
        lemma_digits_tell_numbers_apart(a / 10, b / 10);
        lemma_digit_chars_differ((a % 10) as int, (b % 10) as int);
    } else if a < 10 && b < 10 {
        assert(digits(a)[0] == digit_char(a as int));
        assert(digits(b)[0] == digit_char(b as int));
        lemma_digit_chars_differ(a as int, b as int);
    }
}

/// Two integers that are written alike in decimal are equal.
pub proof fn lemma_int_text_tells_integers_apart(i: int, j: int)
    requires
        int_text(i) == int_text(j),
    ensures
        i == j,
{
    let mi: nat = if i < 0 {
        (-i) as nat
    } else {
        i as nat
    };
    let mj: nat = if j < 0 {
        (-j) as nat
    } else {
        j as nat
    };
    lemma_digits_shape(mi);
    lemma_digits_shape(mj);
    if i < 0 && j < 0 {
        assert((seq!['-'] + digits(mi)).drop_first() =~= digits(mi));
        assert((seq!['-'] + digits(mj)).drop_first() =~= digits(mj));
        lemma_digits_tell_numbers_apart(mi, mj);
    } else if i >= 0 && j >= 0 {
        lemma_digits_tell_numbers_apart(mi, mj);
    } else if i < 0 {
        assert(int_text(i)[0] == '-');
        assert(is_digit(digits(mj)[0]));
    } else {
        assert(int_text(j)[0] == '-');
        assert(is_digit(digits(mi)[0]));
    }
}

/// The text of a plain literal tells it from every other of its kind: two
/// plain literals of one kind that are written alike are the same value.
/// So a reader that knows the kind of what it reads gets the value back.
/// Across kinds the text alone does not decide: a symbol may be named `#t`.
pub proof fn lemma_text_tells_literals_apart(a: LispVal, b: LispVal)
    requires
        is_plain_literal(a),
        same_kind(a, b),
        text_of(a) == text_of(b),
    ensures
        same(a, b),
{
    match (a, b) {
        (LispVal::Bool(x), LispVal::Bool(y)) => {
            assert(text_of(a)->0[1] == text_of(b)->0[1]);
        },
        (LispVal::Str(x), LispVal::Str(y)) => {
            assert(quoted(x@).len() == quoted(y@).len());
            assert(quoted(x@).subrange(1, x@.len() as int + 1) =~= x@);
            assert(quoted(y@).subrange(1, y@.len() as int + 1) =~= y@);
        },
        (LispVal::Keyword(x), LispVal::Keyword(y)) => {
            assert(keyword_text(x@).drop_first() =~= x@);
            assert(keyword_text(y@).drop_first() =~= y@);
        },
        (LispVal::Int(x), LispVal::Int(y)) => {
            lemma_int_text_tells_integers_apart(x as int, y as int);
        },
        _ => {},
    }
}

/// The first character of an integer in decimal is a digit or a minus sign.
proof fn lemma_int_text_starts(i: int)
    ensures
        int_text(i).len() >= 1,
        is_digit(int_text(i)[0]) || int_text(i)[0] == '-',
{
    if i < 0 {
        lemma_digits_shape((-i) as nat);
    } else {
        lemma_digits_shape(i as nat);
    }
}

/// The text of a plain literal tells it from every other plain literal,
/// whatever their kinds, but for the symbols that are written as a literal
/// of another kind is: two plain literals that are written alike, neither of
/// them such a symbol, are the same value. So reading back what was written
/// gives the value that was written.
pub proof fn lemma_text_reads_back(a: LispVal, b: LispVal)
    requires
        is_plain_literal(a),
        is_plain_literal(b),
        !reads_as_another(a),
        !reads_as_another(b),
        text_of(a) == text_of(b),
    ensures
        same(a, b),
{
    if same_kind(a, b) {
        lemma_text_tells_literals_apart(a, b);
    } else if a is Symbol {
        assert(text_of(b) == text_of(a));
        assert(reads_as_another(a));
    } else if b is Symbol {
        assert(text_of(a) == text_of(b));
        assert(reads_as_another(b));
    } else {
        let ta = text_of(a)->0;
        let tb = text_of(b)->0;
        assert(ta[0] == tb[0]);
        if a is Int {
            lemma_int_text_starts(a->Int_0 as int);
        }
        if b is Int {
            lemma_int_text_starts(b->Int_0 as int);
        }
        if a is Nil || a is Bool {
            assert(ta.len() == 2);
        }
        if b is Nil || b is Bool {
            assert(tb.len() == 2);
        }
    }
}

/// Values that are the same are written alike, or both have no text.
pub proof fn lemma_same_values_read_alike(a: LispVal, b: LispVal)
    requires
        same(a, b),
    ensures
        text_of(a) == text_of(b),
{
}

/// The one-character string of a decimal digit.
fn digit_str(d: u64) -> (s: &'static str)
    requires
        d < 10,
    ensures
        s@ == seq![digit_char(d as int)],
{
    proof {
        reveal_strlit("0");
        reveal_strlit("1");
        reveal_strlit("2");
        reveal_strlit("3");
        reveal_strlit("4");
        reveal_strlit("5");
        reveal_strlit("6");
        reveal_strlit("7");
        reveal_strlit("8");
        reveal_strlit("9");
    }
    if d == 0 {
        "0"
    } else if d == 1 {
        "1"
    } else if d == 2 {
        "2"
    } else if d == 3 {
        "3"
    } else if d == 4 {
        "4"
    } else if d == 5 {
        "5"
    } else if d == 6 {
        "6"
    } else if d == 7 {
        "7"
    } else if d == 8 {
        "8"
    } else {
        "9"
    }
}

/// Writes `n` in decimal at the end of `out`.
fn push_digits(n: u64, out: &mut String)
    ensures
        final(out)@ == old(out)@ + digits(n as nat),
    decreases n,
{
    if n >= 10 {
        push_digits(n / 10, out);
    }
    out.append(digit_str(n % 10));
}

/// An integer in decimal.
pub fn int_to_text(i: i64) -> (text: String)
    ensures
        text@ == int_text(i as int),
{
    let mut text = String::new();
    if i < 0 {
        proof {
            reveal_strlit("-");
        }
        text.append("-");
        let magnitude: u64 = (-(i + 1)) as u64 + 1;
        push_digits(magnitude, &mut text);
    } else {
        push_digits(i as u64, &mut text);
    }
    text
}

/// The text of a complex number, from the texts of its two parts.
pub fn complex_to_text(re: &str, im: &str) -> (text: String)
    ensures
        text@ == complex_text(re@, im@),
{
    proof {
        reveal_strlit("+i");
    }
    let mut text = String::from_str(re);
    text.append("+i");
    text.append(im);
    text
}

impl Procedure {
    /// The text of the procedure: `Procedure: ` and its name.
    pub fn to_text(&self) -> (text: String)
        ensures
            text@ == procedure_text(self.spec_name()),
    {
        proof {
            reveal_strlit("Procedure: ");
        }
        let mut text = String::from_str("Procedure: ");
        text.append(self.name());
        text
    }
}

impl LispVal {
    /// The text of the value, where its kind has one: see `text_of`.
    pub fn to_text(&self) -> (text: Option<String>)
        ensures
            match text_of(*self) {
                Some(expected) => text.is_some() && text.unwrap()@ == expected,
                None => text.is_none(),
            },
    {
        match self {
            LispVal::Nil => {
                proof {
                    reveal_strlit("()");
                }
                let text = String::from_str("()");
                Some(text)
            },
            LispVal::Bool(b) => {
                proof {
                    reveal_strlit("#t");
                    reveal_strlit("#f");
                }
                let text = if *b {
                    String::from_str("#t")
                } else {
                    String::from_str("#f")
                };
                Some(text)
            },
            LispVal::Str(s) => {
                proof {
                    reveal_strlit("\"");
                }
                let mut text = String::from_str("\"");
                text.append(s.as_str());
                text.append("\"");
                Some(text)
            },
            LispVal::Symbol(s) => Some(s.clone()),
            LispVal::Keyword(s) => {
                proof {
                    reveal_strlit(":");
                }
                let mut text = String::from_str(":");
                text.append(s.as_str());
                Some(text)
            },
            LispVal::Int(i) => Some(int_to_text(*i)),
            LispVal::Proc(p) => Some(p.to_text()),
            _ => None,
        }
    }
}

} // verus!
