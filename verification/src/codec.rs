//! The text forms of digraph keys and of counts in a persisted profile.

use crate::digraph::Digraph;
use crate::text::{chars_of, string_of};
use vstd::prelude::*;

verus! {

/// The key of `d` in persisted statistics: its first key, `-`, its second key.
pub open spec fn key_text(d: Digraph) -> Seq<char> {
    seq![d.0, '-', d.1]
}

/// The digraph that `text` is the key of: `text` is split at its first `-`,
/// and each of the two parts must be exactly one character.
pub open spec fn parsed_key(text: Seq<char>) -> Option<Digraph> {
    match text.index_of_first('-') {
        Some(at) => {
            let first = text.take(at);
            let second = text.skip(at + 1);
            if first.len() == 1 && second.len() == 1 {
                Some((first[0], second[0]))
            } else {
                None
            }
        },
        None => None,
    }
}

/// A text is a key exactly when it has three characters, the second of
/// which is its first `-`.
pub proof fn lemma_parsed_key_shape(text: Seq<char>)
    ensures
        parsed_key(text) == if text.len() == 3 && text[0] != '-' && text[1] == '-' {
            Some((text[0], text[2]))
        } else {
            None::<Digraph>
        },
{
    text.index_of_first_ensures('-');
    if text.len() == 3 && text[0] != '-' && text[1] == '-' {
        assert(text.contains('-'));
        let at = text.index_of_first('-')->0;
        if at > 1 {
            assert(text[1] != '-');
        }
        assert(at == 1);
    } else if text.index_of_first('-') is Some {
        let at = text.index_of_first('-')->0;
        if text.take(at).len() == 1 && text.skip(at + 1).len() == 1 {
            assert(at == 1);
            assert(text[0] != '-');
        }
    }
}

/// A key's text reads back as its digraph, unless the first key is `-`
/// itself: then the text is cut before that key and is no key at all.
pub proof fn lemma_key_round_trip(d: Digraph)
    ensures
        d.0 != '-' ==> parsed_key(key_text(d)) == Some(d),
        d.0 == '-' ==> parsed_key(key_text(d)) is None,
{
    lemma_parsed_key_shape(key_text(d));
}

/// Only the text of a digraph reads as that digraph, so no two texts read
/// as the same one.
pub proof fn lemma_parsed_key_is_text(text: Seq<char>)
    ensures
        parsed_key(text) matches Some(d) ==> text == key_text(d) && d.0 != '-',
{
    lemma_parsed_key_shape(text);
    if parsed_key(text) is Some {
        assert(text =~= key_text(parsed_key(text)->0));
    }
}

/// Writes the key of `d`.
pub fn format_digraph_key(d: Digraph) -> (text: String)
    ensures
        text@ == key_text(d),
{
    let mut chars: Vec<char> = Vec::new();
    chars.push(d.0);
    chars.push('-');
    chars.push(d.1);
    assert(chars@ =~= key_text(d));
    string_of(&chars)
}

/// Reads a key.
pub fn parse_digraph_key(text: &str) -> (digraph: Option<Digraph>)
    ensures
        digraph == parsed_key(text@),
{
    let chars = chars_of(text);
    proof {
        lemma_parsed_key_shape(text@);
    }
    if chars.len() == 3 && chars[0] != '-' && chars[1] == '-' {
        Some((chars[0], chars[2]))
    } else {
        None
    }
}

/// The character that stands for the decimal digit `d`.
pub open spec fn digit_char(d: nat) -> char {
    (48 + d) as char
}

/// Whether `c` is one of `0` to `9`.
pub open spec fn is_digit(c: char) -> bool {
    '0' <= c <= '9'
}

/// The digit that `c` stands for.
pub open spec fn digit_value(c: char) -> nat {
    (c as int - 48) as nat
}

/// The decimal numeral of `n`, without sign or leading zeros.
pub open spec fn decimal_text(n: nat) -> Seq<char>
    decreases n,
{
    if n < 10 {
        seq![digit_char(n)]
    } else {
        decimal_text(n / 10).push(digit_char(n % 10))
    }
}

/// Whether `digits` holds decimal digits only.
pub open spec fn all_digits(digits: Seq<char>) -> bool {
    forall|i: int| 0 <= i < digits.len() ==> is_digit(#[trigger] digits[i])
}

/// The number that a run of decimal digits denotes.
pub open spec fn digits_value(digits: Seq<char>) -> nat
    decreases digits.len(),
{
    if digits.len() == 0 {
        0
    } else {
        digits_value(digits.drop_last()) * 10 + digit_value(digits.last())
    }
}

/// The count that `text` denotes: an optional `+`, then at least one
/// decimal digit and nothing else, of a value that fits 32 bits.
pub open spec fn parsed_count(text: Seq<char>) -> Option<u32> {
    let digits = if text.len() > 0 && text[0] == '+' {
        text.skip(1)
    } else {
        text
    };
    if digits.len() > 0 && all_digits(digits) && digits_value(digits) <= u32::MAX {
        Some(digits_value(digits) as u32)
    } else {
        None
    }
}

/// A numeral is made of digits and denotes its number.
pub proof fn lemma_decimal_text(n: nat)
    ensures
        decimal_text(n).len() > 0,
        all_digits(decimal_text(n)),
        digits_value(decimal_text(n)) == n,
    decreases n,
{
    reveal_with_fuel(digits_value, 2);
    if n < 10 {
        assert(decimal_text(n).drop_last() =~= Seq::<char>::empty());
    } else {
        lemma_decimal_text(n / 10);
        assert(decimal_text(n).drop_last() =~= decimal_text(n / 10));
    }
}

/// The numeral of a count reads back as that count.
pub proof fn lemma_count_round_trip(n: u32)
    ensures
        parsed_count(decimal_text(n as nat)) == Some(n),
{
    lemma_decimal_text(n as nat);
    assert(is_digit(decimal_text(n as nat)[0]));
}

/// A longer run of digits denotes no smaller a number.
proof fn lemma_digits_value_grows(digits: Seq<char>, n: int)
    requires
        0 <= n <= digits.len(),
    ensures
        digits_value(digits.take(n)) <= digits_value(digits),
    decreases digits.len() - n,
{
    if n == digits.len() {
        assert(digits.take(n) =~= digits);
    } else {
        lemma_digits_value_grows(digits.drop_last(), n);
        assert(digits.drop_last().take(n) =~= digits.take(n));
    }
}

/// Appends the numeral of `n` to `out`.
fn push_decimal(n: u32, out: &mut Vec<char>)
    ensures
        final(out)@ == old(out)@ + decimal_text(n as nat),
    decreases n,
{
    if n >= 10 {
        push_decimal(n / 10, out);
    }
    let digit = n % 10;
    let c = match digit {
        0 => '0',
        1 => '1',
        2 => '2',
        3 => '3',
        4 => '4',
        5 => '5',
        6 => '6',
        7 => '7',
        8 => '8',
        _ => '9',
    };
    assert(c == digit_char(digit as nat));
    out.push(c);
    assert(out@ =~= old(out)@ + decimal_text(n as nat));
}

/// Writes `n` as a decimal numeral.
pub fn format_count(n: u32) -> (text: String)
    ensures
        text@ == decimal_text(n as nat),
{
    let mut chars: Vec<char> = Vec::new();
    push_decimal(n, &mut chars);
    assert(chars@ =~= decimal_text(n as nat));
    string_of(&chars)
}

/// Reads a count.
pub fn parse_count(text: &str) -> (count: Option<u32>)
    ensures
        count == parsed_count(text@),
{
    let chars = chars_of(text);
    let start: usize = if chars.len() > 0 && chars[0] == '+' {
        1
    } else {
        0
    };
    let ghost digits = if start == 1 {
        text@.skip(1)
    } else {
        text@
    };
    if start == chars.len() {
        return None;
    }
    assert(text@.skip(0) =~= text@);
    let mut value: u64 = 0;
    let mut i: usize = start;
    assert(digits.take(0) =~= Seq::<char>::empty());
    while i < chars.len()
        invariant
            start <= i <= chars@.len(),
            start <= 1,
            chars@ == text@,
            digits == chars@.skip(start as int),
            digits == if text@.len() > 0 && text@[0] == '+' {
                text@.skip(1)
            } else {
                text@
            },
            all_digits(digits.take(i - start)),
            value == digits_value(digits.take(i - start)),
            value <= u32::MAX,
        decreases chars.len() - i,
    {
        let c = chars[i];
        let ghost seen = digits.take(i - start);
        let ghost next = digits.take(i - start + 1);
        assert(next.drop_last() =~= seen && next.last() == c);
        if !(c >= '0' && c <= '9') {
            assert(!is_digit(digits[i - start]));
            return None;
        }
        let digit: u64 = (c as u32 - 48) as u64;
        assert(digit == digit_value(c));
        value = value * 10 + digit;
        assert(value == digits_value(next));
        if value > u32::MAX as u64 {
            proof {
                lemma_digits_value_grows(digits, i - start + 1);
            }
            return None;
        }
        assert forall|k: int| 0 <= k < next.len() implies is_digit(#[trigger] next[k]) by {
            if k < seen.len() {
                assert(seen[k] == next[k]);
            }
        }
        i += 1;
    }
    assert(digits.take(i - start) =~= digits);
    Some(value as u32)
}

/// Whether `c` is a sign.
pub open spec fn is_sign(c: char) -> bool {
    c == '+' || c == '-'
}

/// `text` without the sign it may begin with.
pub open spec fn without_sign(text: Seq<char>) -> Seq<char> {
    if text.len() > 0 && is_sign(text[0]) {
        text.skip(1)
    } else {
        text
    }
}

/// The number of decimal digits that `text` begins with.
pub open spec fn leading_digits(text: Seq<char>) -> nat
    decreases text.len(),
{
    if text.len() > 0 && is_digit(text[0]) {
        1 + leading_digits(text.drop_first())
    } else {
        0
    }
}

/// Whether `c` is the small letter `lower` or its capital.
pub open spec fn same_letter(c: char, lower: char) -> bool {
    c == lower || c as int + 32 == lower as int
}

/// Whether `text` is `word`, a word of small letters, in small letters or capitals.
pub open spec fn spells(text: Seq<char>, word: Seq<char>) -> bool {
    text.len() == word.len() && forall|i: int|
        0 <= i < word.len() ==> same_letter(text[i], #[trigger] word[i])
}

/// Whether `text` is an exponent: `e`, an optional sign, at least one digit.
pub open spec fn is_exponent(text: Seq<char>) -> bool {
    text.len() > 0 && same_letter(text[0], 'e') && without_sign(text.skip(1)).len() > 0
        && all_digits(without_sign(text.skip(1)))
}

/// Whether `text` is a decimal number: digits with at most one point among
/// them, before it or after it at least one digit, and then an optional exponent.
pub open spec fn is_decimal(text: Seq<char>) -> bool {
    let whole = leading_digits(text);
    let rest = text.skip(whole as int);
    let pointed = rest.len() > 0 && rest[0] == '.';
    let fraction = if pointed {
        leading_digits(rest.skip(1))
    } else {
        0
    };
    let tail = if pointed {
        rest.skip(1 + fraction as int)
    } else {
        rest
    };
    whole + fraction > 0 && (tail.len() == 0 || is_exponent(tail))
}

/// Whether `text` is a number as `str::parse` reads one: an optional sign,
/// then `inf`, `infinity`, `nan` or a decimal number.
pub open spec fn is_float_literal(text: Seq<char>) -> bool {
    let body = without_sign(text);
    spells(body, seq!['i', 'n', 'f']) || spells(
        body,
        seq!['i', 'n', 'f', 'i', 'n', 'i', 't', 'y'],
    ) || spells(body, seq!['n', 'a', 'n']) || is_decimal(body)
}

/// The number of decimal digits that `chars` holds from `from` onwards
/// before anything else.
fn count_digits(chars: &Vec<char>, from: usize) -> (n: usize)
    requires
        from <= chars@.len(),
    ensures
        n == leading_digits(chars@.skip(from as int)),
        from + n <= chars@.len(),
        forall|k: int| from <= k < from + n ==> is_digit(#[trigger] chars@[k]),
{
    let mut i: usize = from;
    while i < chars.len() && chars[i] >= '0' && chars[i] <= '9'
        invariant
            from <= i <= chars@.len(),
            leading_digits(chars@.skip(from as int)) == (i - from) + leading_digits(
                chars@.skip(i as int),
            ),
            forall|k: int| from <= k < i ==> is_digit(#[trigger] chars@[k]),
        decreases chars.len() - i,
    {
        assert(chars@.skip(i as int).drop_first() =~= chars@.skip(i + 1));
        i += 1;
    }
    i - from
}

/// Decides whether `c` is the small letter `lower` or its capital.
fn is_same_letter(c: char, lower: char) -> (yes: bool)
    ensures
        yes == same_letter(c, lower),
{
    c == lower || (c as u32) + 32 == (lower as u32)
}

/// Whether `chars`, from `from` onwards, spell `word`.
fn spells_from(chars: &Vec<char>, from: usize, word: &Vec<char>) -> (yes: bool)
    requires
        from <= chars@.len(),
    ensures
        yes == spells(chars@.skip(from as int), word@),
{
    if chars.len() - from != word.len() {
        return false;
    }
    let ghost text = chars@.skip(from as int);
    let mut i: usize = 0;
    while i < word.len()
        invariant
            i <= word@.len(),
            from <= chars@.len(),
            text == chars@.skip(from as int),
            chars@.len() - from == word@.len(),
            chars@.len() <= usize::MAX,
            forall|k: int| 0 <= k < i ==> same_letter(text[k], #[trigger] word@[k]),
        decreases word.len() - i,
    {
        let c = chars[from + i];
        let w = word[i];
        assert(text[i as int] == c);
        if !is_same_letter(c, w) {
            return false;
        }
        i += 1;
    }
    true
}

/// Whether `chars`, from `from` onwards, are an exponent.
fn exponent_from(chars: &Vec<char>, from: usize) -> (yes: bool)
    requires
        from <= chars@.len(),
    ensures
        yes == is_exponent(chars@.skip(from as int)),
{
    let ghost text = chars@.skip(from as int);
    if from == chars.len() {
        return false;
    }
    let c = chars[from];
    assert(text[0] == c);
    if !is_same_letter(c, 'e') {
        return false;
    }
    assert(text.skip(1) =~= chars@.skip(from + 1));
    let mut at = from + 1;
    if at < chars.len() && (chars[at] == '+' || chars[at] == '-') {
        assert(chars@.skip(from + 1).skip(1) =~= chars@.skip(from + 2));
        at = at + 1;
    }
    let ghost digits = chars@.skip(at as int);
    assert(digits == without_sign(text.skip(1)));
    let n = count_digits(chars, at);
    proof {
        if at + n == chars@.len() {
            assert forall|k: int| 0 <= k < digits.len() implies is_digit(#[trigger] digits[k]) by {
                assert(digits[k] == chars@[at + k]);
            }
        } else {
            lemma_leading_digits_end(digits);
        }
    }
    n > 0 && at + n == chars.len()
}

/// The leading digits of a text end at its end or before something that is no digit.
proof fn lemma_leading_digits_end(text: Seq<char>)
    ensures
        leading_digits(text) <= text.len(),
        leading_digits(text) < text.len() ==> !is_digit(text[leading_digits(text) as int]),
        forall|k: int| 0 <= k < leading_digits(text) ==> is_digit(#[trigger] text[k]),
    decreases text.len(),
{
    if text.len() > 0 && is_digit(text[0]) {
        lemma_leading_digits_end(text.drop_first());
        assert forall|k: int| 0 <= k < leading_digits(text) implies is_digit(#[trigger] text[k]) by {
            if k > 0 {
                assert(text.drop_first()[k - 1] == text[k]);
            }
        }
    }
}

/// Decides whether `text` is a number as `str::parse` reads one.
pub fn is_float_text(text: &str) -> (yes: bool)
    ensures
        yes == is_float_literal(text@),
{
    let chars = chars_of(text);
    let start: usize = if chars.len() > 0 && (chars[0] == '+' || chars[0] == '-') {
        1
    } else {
        0
    };
    let ghost body = chars@.skip(start as int);
    assert(body == without_sign(text@)) by {
        assert(text@.skip(0) =~= text@);
    }
    let inf: Vec<char> = vec!['i', 'n', 'f'];
    let infinity: Vec<char> = vec!['i', 'n', 'f', 'i', 'n', 'i', 't', 'y'];
    let nan: Vec<char> = vec!['n', 'a', 'n'];
    assert(inf@ =~= seq!['i', 'n', 'f']);
    assert(infinity@ =~= seq!['i', 'n', 'f', 'i', 'n', 'i', 't', 'y']);
    assert(nan@ =~= seq!['n', 'a', 'n']);
    if spells_from(&chars, start, &inf) || spells_from(&chars, start, &infinity) || spells_from(
        &chars,
        start,
        &nan,
    ) {
        return true;
    }
    let whole = count_digits(&chars, start);
    let after_whole = start + whole;
    assert(body.skip(whole as int) =~= chars@.skip(after_whole as int));
    let pointed = after_whole < chars.len() && chars[after_whole] == '.';
    let mut fraction: usize = 0;
    let mut tail = after_whole;
    if pointed {
        assert(chars@.skip(after_whole as int).skip(1) =~= chars@.skip(after_whole + 1));
        fraction = count_digits(&chars, after_whole + 1);
        tail = after_whole + 1 + fraction;
        assert(chars@.skip(after_whole as int).skip(1 + fraction) =~= chars@.skip(tail as int));
    }
    if whole + fraction == 0 {
        return false;
    }
    tail == chars.len() || exponent_from(&chars, tail)
}

} // verus!
