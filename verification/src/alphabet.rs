//! The two alphabets of the wire format and the codec between them.
//!
//! Integers travel as base-94 numerals whose digits are the characters of the
//! wire alphabet, `!` (zero) to `~` (ninety-three). Strings travel under a
//! substitution cipher: the wire character with index `i` stands for the
//! character with index `i` of the text alphabet.

use crate::chars::{chars_of, string_of};
use crate::error::Error;
use crate::integer::Integer;
use vstd::prelude::*;

verus! {

/// The number of characters in either alphabet, and the base of numerals.
pub const BASE: usize = 94;

/// The wire alphabet, in the order of its indices.
pub const INTEGER_ASCII: &'static str =
    "!\"#$%&'()*+,-./0123456789:;<=>?@ABCDEFGHIJKLMNOPQRSTUVWXYZ[\\]^_`abcdefghijklmnopqrstuvwxyz{|}~";

/// The text alphabet, in the order of its indices.
pub const STRING_ASCII: &'static str =
    "abcdefghijklmnopqrstuvwxyzABCDEFGHIJKLMNOPQRSTUVWXYZ0123456789!\"#$%&'()*+,-./:;<=>?@[\\]^_`|~ \n";

/// Whether `c` belongs to the wire alphabet.
pub open spec fn is_wire_char(c: char) -> bool {
    33 <= c as int <= 126
}

/// The index of `c` in the wire alphabet.
pub open spec fn wire_index(c: char) -> int
    recommends
        is_wire_char(c),
{
    c as int - 33
}

/// The character with index `i` in the wire alphabet.
pub open spec fn wire_char(i: int) -> char
    recommends
        0 <= i < 94,
{
    ((i + 33) as u8) as char
}

/// Whether `c` belongs to the text alphabet.
pub open spec fn is_text_char(c: char) -> bool {
    let code = c as int;
    ||| 33 <= code <= 96
    ||| 97 <= code <= 122
    ||| code == 124
    ||| code == 126
    ||| code == 32
    ||| code == 10
}

/// The index of `c` in the text alphabet.
pub open spec fn text_index(c: char) -> int
    recommends
        is_text_char(c),
{
    let code = c as int;
    if 97 <= code <= 122 {
        code - 97
    } else if 65 <= code <= 90 {
        code - 39
    } else if 48 <= code <= 57 {
        code + 4
    } else if 33 <= code <= 47 {
        code + 29
    } else if 58 <= code <= 64 {
        code + 19
    } else if 91 <= code <= 96 {
        code - 7
    } else if code == 124 {
        90
    } else if code == 126 {
        91
    } else if code == 32 {
        92
    } else {
        93
    }
}

/// The character with index `i` in the text alphabet: the lower-case
/// letters, the upper-case letters, the digits, the punctuation in ASCII
/// order without the braces, then space and line feed.
pub open spec fn text_char(i: int) -> char
    recommends
        0 <= i < 94,
{
    if i < 26 {
        ((i + 97) as u8) as char
    } else if i < 52 {
        ((i + 39) as u8) as char
    } else if i < 62 {
        ((i - 4) as u8) as char
    } else if i < 77 {
        ((i - 29) as u8) as char
    } else if i < 84 {
        ((i - 19) as u8) as char
    } else if i < 90 {
        ((i + 7) as u8) as char
    } else if i == 90 {
        '|'
    } else if i == 91 {
        '~'
    } else if i == 92 {
        ' '
    } else {
        '\n'
    }
}

/// Whether every character of `s` belongs to the wire alphabet.
pub open spec fn is_wire(s: Seq<char>) -> bool {
    forall|i: int| 0 <= i < s.len() ==> is_wire_char(#[trigger] s[i])
}

/// Whether every character of `s` belongs to the text alphabet.
pub open spec fn is_text(s: Seq<char>) -> bool {
    forall|i: int| 0 <= i < s.len() ==> is_text_char(#[trigger] s[i])
}

/// The text that the wire string `s` stands for.
pub open spec fn text_of_wire(s: Seq<char>) -> Seq<char> {
    Seq::new(s.len(), |i: int| text_char(wire_index(s[i])))
}

/// The wire string that stands for the text `s`.
pub open spec fn wire_of_text(s: Seq<char>) -> Seq<char> {
    Seq::new(s.len(), |i: int| wire_char(text_index(s[i])))
}

/// The number that the base-94 numeral `s` denotes, most significant digit
/// first. The empty numeral denotes zero.
pub open spec fn digits_value(s: Seq<char>) -> nat
    decreases s.len(),
{
    if s.len() == 0 {
        0
    } else {
        (digits_value(s.drop_last()) * 94 + wire_index(s.last())) as nat
    }
}

/// The canonical base-94 numeral of `n`: a single `!` for zero, and no
/// leading `!` otherwise.
pub open spec fn digits_of(n: nat) -> Seq<char>
    decreases n,
{
    if n < 94 {
        seq![wire_char(n as int)]
    } else {
        digits_of(n / 94).push(wire_char((n % 94) as int))
    }
}

/// Both alphabet constants list their characters in index order.
pub proof fn lemma_alphabet_constants()
    ensures
        INTEGER_ASCII@.len() == 94,
        STRING_ASCII@.len() == 94,
        forall|i: int| 0 <= i < 94 ==> INTEGER_ASCII@[i] == wire_char(i),
        forall|i: int| 0 <= i < 94 ==> STRING_ASCII@[i] == text_char(i),
{
    reveal_strlit(
        "!\"#$%&'()*+,-./0123456789:;<=>?@ABCDEFGHIJKLMNOPQRSTUVWXYZ[\\]^_`abcdefghijklmnopqrstuvwxyz{|}~",
    );
    reveal_strlit(
        "abcdefghijklmnopqrstuvwxyzABCDEFGHIJKLMNOPQRSTUVWXYZ0123456789!\"#$%&'()*+,-./:;<=>?@[\\]^_`|~ \n",
    );
}

/// Each alphabet has 94 distinct characters, and index and character are
/// inverse to each other in both.
pub proof fn lemma_alphabets_are_bijections()
    ensures
        forall|i: int| 0 <= i < 94 ==> is_wire_char(#[trigger] wire_char(i)) && wire_index(wire_char(i)) == i,
        forall|c: char| is_wire_char(c) ==> 0 <= #[trigger] wire_index(c) < 94 && wire_char(wire_index(c)) == c,
        forall|i: int| 0 <= i < 94 ==> is_text_char(#[trigger] text_char(i)) && text_index(text_char(i)) == i,
        forall|c: char| is_text_char(c) ==> 0 <= #[trigger] text_index(c) < 94 && text_char(text_index(c)) == c,
{
}

/// Encoding a number and decoding the numeral gives the number back, and the
/// numeral is canonical: it uses wire characters only, it is never empty, and
/// it starts with the zero digit only where the number is zero.
pub proof fn lemma_integer_round_trip(n: nat)
    ensures
        is_wire(digits_of(n)),
        digits_value(digits_of(n)) == n,
        digits_of(n).len() >= 1,
        digits_of(n).len() == 1 || digits_of(n)[0] != '!',
        n == 0 <==> digits_of(n) == seq!['!'],
    decreases n,
{
    lemma_alphabets_are_bijections();
    if n < 94 {
        let s = seq![wire_char(n as int)];
        assert(s.drop_last().len() == 0);
        assert(digits_value(s) == digits_value(s.drop_last()) * 94 + wire_index(s.last()));
        assert(wire_char(0) == '!');
        if digits_of(n) == seq!['!'] {
            assert(digits_of(n)[0] == '!');
            assert(wire_index(wire_char(n as int)) == wire_index(wire_char(0)));
        }
    } else {
        let q = n / 94;
        let d = wire_char((n % 94) as int);
        lemma_integer_round_trip(q);
        let s = digits_of(q).push(d);
        assert(s.drop_last() =~= digits_of(q));
        assert(s.last() == d);
        assert(s[0] == digits_of(q)[0]);
        assert(digits_of(q).len() == 1 ==> digits_of(q)[0] != '!') by {
            if digits_of(q).len() == 1 && digits_of(q)[0] == '!' {
                assert(digits_of(q) =~= seq!['!']);
            }
        }
        assert(s.len() >= 2);
        assert(seq!['!'].len() == 1);
    }
}

/// Decoding a canonical numeral and encoding the number gives the numeral
/// back.
pub proof fn lemma_numeral_round_trip(s: Seq<char>)
    requires
        is_wire(s),
        s.len() >= 1,
        s.len() == 1 || s[0] != '!',
    ensures
        digits_of(digits_value(s)) == s,
    decreases s.len(),
{
    lemma_alphabets_are_bijections();
    let head = s.drop_last();
    let d = wire_index(s.last());
    assert(is_wire_char(s.last()));
    if s.len() == 1 {
        assert(digits_value(head) == 0);
        assert(digits_value(s) == d);
        assert(digits_of(d as nat) =~= s);
    } else {
        assert(is_wire(head)) by {
            assert forall|i: int| 0 <= i < head.len() implies is_wire_char(#[trigger] head[i]) by {
                assert(head[i] == s[i]);
            }
        }
        assert(head[0] == s[0]);
        lemma_numeral_round_trip(head);
        lemma_leading_digit_bounds(head);
        let v = digits_value(head);
        assert(v >= 1);
        assert(digits_value(s) == v * 94 + d);
        assert((v * 94 + d) / 94 == v && (v * 94 + d) % 94 == d) by (nonlinear_arith)
            requires
                0 <= d < 94,
                v >= 1,
        ;
        assert(digits_of(digits_value(s)) =~= s);
    }
}

/// A numeral of wire characters that does not start with the zero digit
/// denotes a positive number.
proof fn lemma_leading_digit_bounds(s: Seq<char>)
    requires
        is_wire(s),
        s.len() >= 1,
        s[0] != '!',
    ensures
        digits_value(s) >= 1,
    decreases s.len(),
{
    assert(is_wire_char(s.last()));
    if s.len() == 1 {
        assert(digits_value(s.drop_last()) == 0);
        assert(s.last() == s[0]);
    } else {
        let head = s.drop_last();
        assert(is_wire(head)) by {
            assert forall|i: int| 0 <= i < head.len() implies is_wire_char(#[trigger] head[i]) by {
                assert(head[i] == s[i]);
            }
        }
        assert(head[0] == s[0]);
        lemma_leading_digit_bounds(head);
    }
}

/// Turning wire characters into text and back gives the wire characters
/// again.
pub proof fn lemma_text_round_trip(wire: Seq<char>)
    requires
        is_wire(wire),
    ensures
        is_text(text_of_wire(wire)),
        wire_of_text(text_of_wire(wire)) == wire,
{
    lemma_alphabets_are_bijections();
    let text = text_of_wire(wire);
    assert forall|i: int| 0 <= i < text.len() implies is_text_char(#[trigger] text[i]) && wire_char(
        text_index(text[i]),
    ) == wire[i] by {
        assert(is_wire_char(wire[i]));
        assert(is_text_char(text_char(wire_index(wire[i]))));
    }
    assert(wire_of_text(text) =~= wire);
}

/// Turning text into wire characters and back gives the text again.
pub proof fn lemma_wire_round_trip(text: Seq<char>)
    requires
        is_text(text),
    ensures
        is_wire(wire_of_text(text)),
        text_of_wire(wire_of_text(text)) == text,
{
    lemma_alphabets_are_bijections();
    let wire = wire_of_text(text);
    assert forall|i: int| 0 <= i < wire.len() implies is_wire_char(#[trigger] wire[i]) && text_char(
        wire_index(wire[i]),
    ) == text[i] by {
        assert(is_text_char(text[i]));
        assert(is_wire_char(wire_char(text_index(text[i]))));
    }
    assert(text_of_wire(wire) =~= text);
}

/// The index of `c` in the wire alphabet, if it has one.
pub fn wire_position(c: char) -> (r: Option<u8>)
    ensures
        is_wire_char(c) ==> r == Some(wire_index(c) as u8),
        !is_wire_char(c) ==> r is None,
{
    let code: u32 = c as u32;
    if 33 <= code && code <= 126 {
        Some((code - 33) as u8)
    } else {
        None
    }
}

/// The character with index `i` in the wire alphabet.
pub fn wire_symbol(i: u8) -> (c: char)
    requires
        i < 94,
    ensures
        c == wire_char(i as int),
{
    (i + 33) as char
}

/// The index of `c` in the text alphabet, if it has one.
pub fn text_position(c: char) -> (r: Option<u8>)
    ensures
        is_text_char(c) ==> r == Some(text_index(c) as u8),
        !is_text_char(c) ==> r is None,
{
    let code: u32 = c as u32;
    if 97 <= code && code <= 122 {
        Some((code - 97) as u8)
    } else if 65 <= code && code <= 90 {
        Some((code - 39) as u8)
    } else if 48 <= code && code <= 57 {
        Some((code + 4) as u8)
    } else if 33 <= code && code <= 47 {
        Some((code + 29) as u8)
    } else if 58 <= code && code <= 64 {
        Some((code + 19) as u8)
    } else if 91 <= code && code <= 96 {
        Some((code - 7) as u8)
    } else if code == 124 {
        Some(90)
    } else if code == 126 {
        Some(91)
    } else if code == 32 {
        Some(92)
    } else if code == 10 {
        Some(93)
    } else {
        None
    }
}

/// The character with index `i` in the text alphabet.
pub fn text_symbol(i: u8) -> (c: char)
    requires
        i < 94,
    ensures
        c == text_char(i as int),
{
    if i < 26 {
        (i + 97) as char
    } else if i < 52 {
        (i + 39) as char
    } else if i < 62 {
        (i - 4) as char
    } else if i < 77 {
        (i - 29) as char
    } else if i < 84 {
        (i - 19) as char
    } else if i < 90 {
        (i + 7) as char
    } else if i == 90 {
        '|'
    } else if i == 91 {
        '~'
    } else if i == 92 {
        ' '
    } else {
        '\n'
    }
}

/// The text that the wire characters stand for, or `Error::Alphabet` where
/// one of them is no wire character.
pub fn text_from_wire(wire: &[char]) -> (r: Result<Vec<char>, Error>)
    ensures
        is_wire(wire@) ==> r is Ok && r->Ok_0@ == text_of_wire(wire@),
        !is_wire(wire@) ==> r is Err && r->Err_0 == Error::Alphabet,
{
    let mut text: Vec<char> = Vec::new();
    let mut i: usize = 0;
    while i < wire.len()
        invariant
            i <= wire@.len(),
            is_wire(wire@.take(i as int)),
            text@ == text_of_wire(wire@.take(i as int)),
        decreases wire@.len() - i,
    {
        match wire_position(wire[i]) {
            Some(index) => {
                text.push(text_symbol(index));
            },
            None => {
                return Err(Error::Alphabet);
            },
        }
        i += 1;
        proof {
            let before = wire@.take(i - 1);
            let now = wire@.take(i as int);
            assert forall|k: int| 0 <= k < now.len() implies is_wire_char(#[trigger] now[k]) by {
                if k < i - 1 {
                    assert(now[k] == before[k]);
                }
            }
            assert(text@ =~= text_of_wire(now)) by {
                assert forall|k: int| 0 <= k < now.len() implies text@[k] == text_of_wire(now)[k] by {
                    if k < i - 1 {
                        assert(text@[k] == text_of_wire(before)[k]);
                        assert(now[k] == before[k]);
                    }
                }
            }
        }
    }
    proof {
        assert(wire@.take(i as int) =~= wire@);
    }
    Ok(text)
}

/// The wire characters that stand for the text, or `Error::Alphabet` where
/// one of its characters is not in the text alphabet.
pub fn wire_from_text(text: &[char]) -> (r: Result<Vec<char>, Error>)
    ensures
        is_text(text@) ==> r is Ok && r->Ok_0@ == wire_of_text(text@),
        !is_text(text@) ==> r is Err && r->Err_0 == Error::Alphabet,
{
    let mut wire: Vec<char> = Vec::new();
    let mut i: usize = 0;
    while i < text.len()
        invariant
            i <= text@.len(),
            is_text(text@.take(i as int)),
            wire@ == wire_of_text(text@.take(i as int)),
        decreases text@.len() - i,
    {
        match text_position(text[i]) {
            Some(index) => {
                wire.push(wire_symbol(index));
            },
            None => {
                return Err(Error::Alphabet);
            },
        }
        i += 1;
        proof {
            let before = text@.take(i - 1);
            let now = text@.take(i as int);
            assert forall|k: int| 0 <= k < now.len() implies is_text_char(#[trigger] now[k]) by {
                if k < i - 1 {
                    assert(now[k] == before[k]);
                }
            }
            assert(wire@ =~= wire_of_text(now)) by {
                assert forall|k: int| 0 <= k < now.len() implies wire@[k] == wire_of_text(now)[k] by {
                    if k < i - 1 {
                        assert(wire@[k] == wire_of_text(before)[k]);
                        assert(now[k] == before[k]);
                    }
                }
            }
        }
    }
    proof {
        assert(text@.take(i as int) =~= text@);
    }
    Ok(wire)
}

/// A numeral grows by one digit: its value is the old value times the
/// base, plus the digit.
proof fn lemma_digits_value_push(s: Seq<char>, i: int)
    requires
        0 <= i < s.len(),
        is_wire_char(s[i]),
    ensures
        digits_value(s.take(i + 1)) == digits_value(s.take(i)) * 94 + wire_index(s[i]),
{
    let now = s.take(i + 1);
    assert(now.drop_last() =~= s.take(i));
    assert(now.last() == s[i]);
}

/// A numeral of wire characters denotes at least what any of its prefixes
/// denotes.
proof fn lemma_digits_value_monotone(s: Seq<char>, i: int)
    requires
        is_wire(s),
        0 <= i <= s.len(),
    ensures
        digits_value(s.take(i)) <= digits_value(s),
    decreases s.len() - i,
{
    if i == s.len() {
        assert(s.take(i) =~= s);
    } else {
        assert(is_wire_char(s[i]));
        lemma_digits_value_push(s, i);
        lemma_digits_value_monotone(s, i + 1);
        assert(digits_value(s.take(i)) * 94 >= digits_value(s.take(i))) by (nonlinear_arith);
    }
}

/// Whether every character is a wire character.
pub fn all_wire(digits: &[char]) -> (r: bool)
    ensures
        r == is_wire(digits@),
{
    let mut i: usize = 0;
    while i < digits.len()
        invariant
            i <= digits@.len(),
            forall|k: int| 0 <= k < i ==> is_wire_char(#[trigger] digits@[k]),
        decreases digits@.len() - i,
    {
        if wire_position(digits[i]).is_none() {
            return false;
        }
        i += 1;
    }
    true
}

/// The number that a base-94 numeral denotes, or `Error::Alphabet` where one
/// of its characters is no wire character.
pub fn number_from_digits(digits: &[char]) -> (r: Result<Integer, Error>)
    ensures
        is_wire(digits@) ==> r is Ok && r->Ok_0@ == digits_value(digits@),
        !is_wire(digits@) ==> r is Err && r->Err_0 == Error::Alphabet,
{
    let base = Integer::from_u64(94);
    let mut value = Integer::from_u64(0);
    let mut i: usize = 0;
    while i < digits.len()
        invariant
            i <= digits@.len(),
            base@ == 94,
            forall|k: int| 0 <= k < i ==> is_wire_char(#[trigger] digits@[k]),
            value@ == digits_value(digits@.take(i as int)),
        decreases digits@.len() - i,
    {
        match wire_position(digits[i]) {
            Some(index) => {
                proof {
                    lemma_digits_value_push(digits@, i as int);
                }
                let digit = Integer::from_u64(index as u64);
                value = value.times(&base).plus(&digit);
            },
            None => {
                return Err(Error::Alphabet);
            },
        }
        i += 1;
    }
    proof {
        assert(digits@.take(i as int) =~= digits@);
    }
    Ok(value)
}

/// The number that a base-94 numeral denotes, as a machine word:
/// `Error::Alphabet` where one of its characters is no wire character,
/// `Error::Range` where the number is too large for a `usize`.
pub fn word_from_digits(digits: &[char]) -> (r: Result<usize, Error>)
    ensures
        is_wire(digits@) && digits_value(digits@) <= usize::MAX ==> r is Ok && r->Ok_0
            == digits_value(digits@),
        is_wire(digits@) && digits_value(digits@) > usize::MAX ==> r is Err && r->Err_0
            == Error::Range,
        !is_wire(digits@) ==> r is Err && r->Err_0 == Error::Alphabet,
{
    if !all_wire(digits) {
        return Err(Error::Alphabet);
    }
    let mut value: usize = 0;
    let mut i: usize = 0;
    while i < digits.len()
        invariant
            i <= digits@.len(),
            is_wire(digits@),
            value == digits_value(digits@.take(i as int)),
        decreases digits@.len() - i,
    {
        proof {
            assert(is_wire_char(digits@[i as int]));
            lemma_digits_value_push(digits@, i as int);
            lemma_digits_value_monotone(digits@, i + 1);
        }
        let index: usize = match wire_position(digits[i]) {
            Some(index) => index as usize,
            None => 0,
        };
        let grown = match value.checked_mul(BASE) {
            Some(scaled) => scaled.checked_add(index),
            None => None,
        };
        match grown {
            Some(next) => {
                value = next;
            },
            None => {
                return Err(Error::Range);
            },
        }
        i += 1;
    }
    proof {
        assert(digits@.take(i as int) =~= digits@);
    }
    Ok(value)
}

/// The characters of `v` in the opposite order.
fn reversed(v: &Vec<char>) -> (r: Vec<char>)
    ensures
        r@ == v@.reverse(),
{
    let mut r: Vec<char> = Vec::new();
    let mut i: usize = v.len();
    while i > 0
        invariant
            i <= v@.len(),
            r@.len() == v@.len() - i,
            forall|k: int| 0 <= k < r@.len() ==> r@[k] == v@[v@.len() - 1 - k],
        decreases i,
    {
        i -= 1;
        r.push(v[i]);
    }
    proof {
        assert(r@ =~= v@.reverse());
    }
    r
}

/// One step of writing a numeral from its last digit backwards: the numeral
/// of `cur` is that of its quotient by the base, followed by its last digit.
proof fn lemma_digits_of_step(n: nat, cur: nat, low: Seq<char>)
    requires
        digits_of(n) == digits_of(cur) + low.reverse(),
    ensures
        cur < 94 ==> digits_of(n) == low.push(wire_char(cur as int)).reverse(),
        cur >= 94 ==> digits_of(n) == digits_of(cur / 94) + low.push(
            wire_char((cur % 94) as int),
        ).reverse(),
{
    let d = wire_char((cur % 94) as int);
    let grown = low.push(d);
    assert(grown.reverse() =~= seq![d] + low.reverse());
    if cur < 94 {
        assert(digits_of(cur) + low.reverse() =~= grown.reverse());
    } else {
        assert(digits_of(cur / 94).push(d) + low.reverse() =~= digits_of(cur / 94)
            + grown.reverse());
    }
}

/// The canonical base-94 numeral of a machine word.
pub fn digits_from_word(n: usize) -> (r: Vec<char>)
    ensures
        r@ == digits_of(n as nat),
{
    let mut low: Vec<char> = Vec::new();
    let mut cur: usize = n;
    proof {
        assert(digits_of(n as nat) + low@.reverse() =~= digits_of(n as nat));
    }
    while cur >= BASE
        invariant
            digits_of(n as nat) == digits_of(cur as nat) + low@.reverse(),
        decreases cur,
    {
        proof {
            lemma_digits_of_step(n as nat, cur as nat, low@);
        }
        low.push(wire_symbol((cur % BASE) as u8));
        cur = cur / BASE;
    }
    proof {
        lemma_digits_of_step(n as nat, cur as nat, low@);
    }
    low.push(wire_symbol(cur as u8));
    reversed(&low)
}

/// The canonical base-94 numeral of a number that is not negative.
pub fn digits_from_number(n: &Integer) -> (r: Vec<char>)
    requires
        n@ >= 0,
    ensures
        r@ == digits_of(n@ as nat),
{
    let base = Integer::from_u64(94);
    let mut low: Vec<char> = Vec::new();
    let mut cur: Integer = n.clone();
    proof {
        assert(digits_of(n@ as nat) + low@.reverse() =~= digits_of(n@ as nat));
    }
    while !cur.less_than(&base)
        invariant
            base@ == 94,
            cur@ >= 0,
            digits_of(n@ as nat) == digits_of(cur@ as nat) + low@.reverse(),
        decreases cur@,
    {
        proof {
            lemma_digits_of_step(n@ as nat, cur@ as nat, low@);
        }
        let digit = cur.remainder(&base).unwrap().to_usize().unwrap();
        low.push(wire_symbol(digit as u8));
        cur = cur.quotient(&base).unwrap();
    }
    proof {
        lemma_digits_of_step(n@ as nat, cur@ as nat, low@);
    }
    let digit = cur.to_usize().unwrap();
    low.push(wire_symbol(digit as u8));
    reversed(&low)
}

/// The text that a wire string stands for, or `Error::Alphabet` where one of
/// its characters is no wire character.
pub fn convert_string(value: String) -> (r: Result<String, Error>)
    ensures
        is_wire(value@) ==> r is Ok && r->Ok_0@ == text_of_wire(value@),
        !is_wire(value@) ==> r is Err && r->Err_0 == Error::Alphabet,
{
    let wire = chars_of(value.as_str());
    match text_from_wire(wire.as_slice()) {
        Ok(text) => Ok(string_of(text.as_slice())),
        Err(e) => Err(e),
    }
}

/// The wire string that stands for a text, or `Error::Alphabet` where one of
/// its characters is not in the text alphabet.
pub fn deconvert_string(value: String) -> (r: Result<String, Error>)
    ensures
        is_text(value@) ==> r is Ok && r->Ok_0@ == wire_of_text(value@),
        !is_text(value@) ==> r is Err && r->Err_0 == Error::Alphabet,
{
    let text = chars_of(value.as_str());
    match wire_from_text(text.as_slice()) {
        Ok(wire) => Ok(string_of(wire.as_slice())),
        Err(e) => Err(e),
    }
}

/// The number that a base-94 numeral denotes, as a machine word:
/// `Error::Alphabet` where one of its characters is no wire character,
/// `Error::Range` where the number is too large for a `usize`.
pub fn convert_integer(value: String) -> (r: Result<usize, Error>)
    ensures
        is_wire(value@) && digits_value(value@) <= usize::MAX ==> r is Ok && r->Ok_0
            == digits_value(value@),
        is_wire(value@) && digits_value(value@) > usize::MAX ==> r is Err && r->Err_0
            == Error::Range,
        !is_wire(value@) ==> r is Err && r->Err_0 == Error::Alphabet,
{
    let digits = chars_of(value.as_str());
    word_from_digits(digits.as_slice())
}

/// The canonical base-94 numeral of a machine word.
pub fn deconvert_integer(value: usize) -> (r: String)
    ensures
        r@ == digits_of(value as nat),
{
    let digits = digits_from_word(value);
    string_of(digits.as_slice())
}

/// The number that a base-94 numeral of any length denotes, or
/// `Error::Alphabet` where one of its characters is no wire character.
pub fn convert_integer_to_bigint(value: String) -> (r: Result<Integer, Error>)
    ensures
        is_wire(value@) ==> r is Ok && r->Ok_0@ == digits_value(value@),
        !is_wire(value@) ==> r is Err && r->Err_0 == Error::Alphabet,
{
    let digits = chars_of(value.as_str());
    number_from_digits(digits.as_slice())
}

/// The canonical base-94 numeral of a number, or `Error::Range` for a
/// negative number, which has none.
pub fn deconvert_integer_from_bigint(value: Integer) -> (r: Result<String, Error>)
    ensures
        value@ >= 0 ==> r is Ok && r->Ok_0@ == digits_of(value@ as nat),
        value@ < 0 ==> r is Err && r->Err_0 == Error::Range,
{
    if value.is_negative() {
        Err(Error::Range)
    } else {
        let digits = digits_from_number(&value);
        Ok(string_of(digits.as_slice()))
    }
}

} // verus!
