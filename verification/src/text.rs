//! Text as sequences of characters: decimal numbers, white space and
//! the words of a line.

use vstd::prelude::*;

verus! {

/// `c` is one of the ten decimal digits.
pub open spec fn is_digit(c: char) -> bool {
    '0' <= c && c <= '9'
}

/// The number that the digit `c` stands for.
pub open spec fn digit_value(c: char) -> nat {
    (c as u32 - '0' as u32) as nat
}

/// The digit that stands for `value`, a number below ten.
pub open spec fn digit_of(value: nat) -> char {
    (value + '0' as u32) as char
}

/// All of `text` is decimal digits.
pub open spec fn all_digits(text: Seq<char>) -> bool {
    forall|i: int| 0 <= i < text.len() ==> is_digit(#[trigger] text[i])
}

/// The number that the decimal digits `digits` stand for.
pub open spec fn decimal_value(digits: Seq<char>) -> nat
    decreases digits.len(),
{
    if digits.len() == 0 {
        0
    } else {
        decimal_value(digits.drop_last()) * 10 + digit_value(digits.last())
    }
}

/// The decimal digits of `value`, without leading zeros.
pub open spec fn decimal_text(value: nat) -> Seq<char>
    decreases value,
{
    if value < 10 {
        seq![digit_of(value)]
    } else {
        decimal_text(value / 10).push(digit_of(value % 10))
    }
}

/// The 32-bit number that `text` stands for: decimal digits, at least one,
/// after an optional plus sign, that stand for a number of at most 32 bits.
pub open spec fn parsed_u32(text: Seq<char>) -> Option<u32> {
    let digits = if text.len() > 0 && text[0] == '+' {
        text.drop_first()
    } else {
        text
    };
    if digits.len() > 0 && all_digits(digits) && decimal_value(digits) <= u32::MAX {
        Some(decimal_value(digits) as u32)
    } else {
        None
    }
}

/// A longer row of digits stands for no smaller number.
pub proof fn lemma_decimal_value_grows(digits: Seq<char>, upto: int)
    requires
        0 <= upto <= digits.len(),
    ensures
        decimal_value(digits.take(upto)) <= decimal_value(digits),
    decreases digits.len() - upto,
{
    if upto < digits.len() {
        lemma_decimal_value_grows(digits, upto + 1);
        assert(digits.take(upto + 1).drop_last() == digits.take(upto));
    } else {
        assert(digits.take(upto) == digits);
    }
}

/// The characters of `text`.
pub fn chars_of(text: &str) -> (chars: Vec<char>)
    ensures
        chars@ == text@,
{
    let mut chars: Vec<char> = Vec::new();
    for c in iter: text.chars()
        invariant
            iter.seq() == text@,
            chars@ == text@.take(iter.index()),
    {
        assert(text@.take(iter.index() + 1) == text@.take(iter.index()).push(c));
        chars.push(c);
    }
    assert(text@.take(text@.len() as int) == text@);
    chars
}

/// Reads a 32-bit number from `text`.
pub fn parse_u32(text: &Vec<char>) -> (number: Option<u32>)
    ensures
        number == parsed_u32(text@),
{
    let start: usize = if text.len() > 0 && text[0] == '+' {
        1
    } else {
        0
    };
    let ghost digits = text@.skip(start as int);
    assert(start == 1 ==> digits == text@.drop_first());
    assert(start == 0 ==> digits == text@);
    if text.len() == start {
        return None;
    }
    let mut value: u64 = 0;
    let mut i: usize = start;
    assert(digits.take(0) == Seq::<char>::empty());
    while i < text.len()
        invariant
            start <= i <= text@.len(),
            digits == text@.skip(start as int),
            digits == if text@.len() > 0 && text@[0] == '+' {
                text@.drop_first()
            } else {
                text@
            },
            digits.len() > 0,
            all_digits(digits.take(i - start)),
            value == decimal_value(digits.take(i - start)),
            value <= u32::MAX,
        decreases text@.len() - i,
    {
        let c = text[i];
        let ghost shorter = digits.take(i - start);
        let ghost longer = digits.take(i - start + 1);
        assert(longer.drop_last() == shorter);
        assert(longer.last() == c);
        if c < '0' || c > '9' {
            assert(!all_digits(digits)) by {
                assert(digits[i - start] == c);
            }
            return None;
        }
        let digit: u64 = (c as u32 - '0' as u32) as u64;
        value = value * 10 + digit;
        if value > u32::MAX as u64 {
            proof {
                lemma_decimal_value_grows(digits, i - start + 1);
            }
            return None;
        }
        assert(all_digits(longer)) by {
            assert forall|k: int| 0 <= k < longer.len() implies is_digit(#[trigger] longer[k]) by {
                if k < shorter.len() {
                    assert(shorter[k] == longer[k]);
                }
            }
        }
        i += 1;
    }
    assert(digits.take(i - start) == digits);
    Some(value as u32)
}

/// Writes the decimal digits of `value` at the end of `text`.
pub fn push_decimal(text: &mut Vec<char>, value: u64)
    ensures
        final(text)@ == old(text)@ + decimal_text(value as nat),
    decreases value,
{
    if value >= 10 {
        push_decimal(text, value / 10);
    }
    let digit: u8 = (value % 10) as u8;
    let c: char = (48u8 + digit) as char;
    assert(c == digit_of((value % 10) as nat));
    text.push(c);
    assert(text@ =~= old(text)@ + decimal_text(value as nat));
}

/// `c` is white space: a character with the Unicode property White_Space.
pub open spec fn is_white_space(c: char) -> bool {
    let code = c as u32;
    ||| 0x09 <= code <= 0x0D
    ||| code == 0x20
    ||| code == 0x85
    ||| code == 0xA0
    ||| code == 0x1680
    ||| 0x2000 <= code <= 0x200A
    ||| code == 0x2028
    ||| code == 0x2029
    ||| code == 0x202F
    ||| code == 0x205F
    ||| code == 0x3000
}

/// Tells whether `c` is white space.
pub fn is_whitespace(c: char) -> (white: bool)
    ensures
        white == is_white_space(c),
{
    let code: u32 = c as u32;
    (0x09 <= code && code <= 0x0D) || code == 0x20 || code == 0x85 || code == 0xA0 || code
        == 0x1680 || (0x2000 <= code && code <= 0x200A) || code == 0x2028 || code == 0x2029
        || code == 0x202F || code == 0x205F || code == 0x3000
}

/// The number of characters at the start of `text` that are no white space.
pub open spec fn word_length(text: Seq<char>) -> int
    decreases text.len(),
{
    if text.len() == 0 || is_white_space(text[0]) {
        0
    } else {
        1 + word_length(text.drop_first())
    }
}

/// The words of `text`: its longest runs of characters that are no white
/// space, from left to right.
pub open spec fn words(text: Seq<char>) -> Seq<Seq<char>>
    decreases text.len(),
{
    if text.len() == 0 {
        Seq::empty()
    } else if is_white_space(text[0]) {
        words(text.drop_first())
    } else {
        let length = word_length(text);
        if 0 < length <= text.len() {
            seq![text.take(length)] + words(text.skip(length))
        } else {
            Seq::empty()
        }
    }
}

/// A word is no longer than the text it starts.
pub proof fn lemma_word_length_bounds(text: Seq<char>)
    ensures
        0 <= word_length(text) <= text.len(),
        text.len() > 0 && !is_white_space(text[0]) ==> word_length(text) > 0,
    decreases text.len(),
{
    if text.len() > 0 && !is_white_space(text[0]) {
        lemma_word_length_bounds(text.drop_first());
    }
}

/// The words of the characters of `text` from `start` up to `end`.
pub fn split_words(text: &Vec<char>, start: usize, end: usize) -> (found: Vec<Vec<char>>)
    requires
        start <= end <= text@.len(),
    ensures
        found@.len() == words(text@.subrange(start as int, end as int)).len(),
        forall|k: int|
            0 <= k < found@.len() ==> (#[trigger] found@[k])@ == words(
                text@.subrange(start as int, end as int),
            )[k],
{
    let ghost line = text@.subrange(start as int, end as int);
    let ghost mut collected: Seq<Seq<char>> = Seq::empty();
    let mut found: Vec<Vec<char>> = Vec::new();
    let mut i: usize = start;
    assert(text@.subrange(start as int, end as int) == line);
    while i < end
        invariant
            start <= i <= end <= text@.len(),
            line == text@.subrange(start as int, end as int),
            words(line) == collected + words(text@.subrange(i as int, end as int)),
            found@.len() == collected.len(),
            forall|k: int| 0 <= k < found@.len() ==> (#[trigger] found@[k])@ == collected[k],
        decreases end - i,
    {
        let ghost rest = text@.subrange(i as int, end as int);
        assert(rest[0] == text@[i as int]);
        if is_whitespace(text[i]) {
            assert(rest.drop_first() == text@.subrange(i + 1, end as int));
            i += 1;
        } else {
            let mut word: Vec<char> = Vec::new();
            let begin = i;
            while i < end && !is_whitespace(text[i])
                invariant
                    begin <= i <= end <= text@.len(),
                    rest == text@.subrange(begin as int, end as int),
                    word@ == text@.subrange(begin as int, i as int),
                    word_length(rest) == (i - begin) + word_length(
                        text@.subrange(i as int, end as int),
                    ),
                decreases end - i,
            {
                let ghost tail = text@.subrange(i as int, end as int);
                assert(tail[0] == text@[i as int]);
                assert(tail.drop_first() == text@.subrange(i + 1, end as int));
                word.push(text[i]);
                assert(word@ == text@.subrange(begin as int, i + 1));
                i += 1;
            }
            proof {
                let tail = text@.subrange(i as int, end as int);
                if i < end {
                    assert(tail[0] == text@[i as int]);
                }
                assert(word_length(tail) == 0);
                lemma_word_length_bounds(rest);
                assert(rest.take(i - begin) == word@);
                assert(rest.skip(i - begin) == tail);
                collected = collected.push(word@);
                assert(words(line) == collected + words(tail));
            }
            found.push(word);
        }
    }
    proof {
        assert(text@.subrange(end as int, end as int) == Seq::<char>::empty());
        assert(words(line) == collected);
    }
    found
}

/// Tells whether `token` is `text`.
pub fn is_text(token: &Vec<char>, text: &str) -> (same: bool)
    ensures
        same == (token@ == text@),
{
    let length = text.unicode_len();
    if token.len() != length {
        return false;
    }
    let mut i: usize = 0;
    while i < length
        invariant
            i <= length,
            length == text@.len(),
            token@.len() == length,
            token@.take(i as int) == text@.take(i as int),
        decreases length - i,
    {
        if token[i] != text.get_char(i) {
            return false;
        }
        assert(token@.take(i + 1) == token@.take(i as int).push(token@[i as int]));
        assert(text@.take(i + 1) == text@.take(i as int).push(text@[i as int]));
        i += 1;
    }
    assert(token@.take(length as int) == token@);
    assert(text@.take(length as int) == text@);
    true
}

/// Writes `text` at the end of `chars`.
pub fn push_text(chars: &mut Vec<char>, text: &str)
    ensures
        final(chars)@ == old(chars)@ + text@,
{
    let ghost before = chars@;
    for c in iter: text.chars()
        invariant
            iter.seq() == text@,
            chars@ == before + text@.take(iter.index()),
    {
        assert(text@.take(iter.index() + 1) == text@.take(iter.index()).push(c));
        chars.push(c);
    }
    assert(text@.take(text@.len() as int) == text@);
}

/// The text made of `chars`. This is `String::from_iter` of the standard
/// library, taken on trust: the text holds the characters it is handed, in
/// their order.
#[verifier::external_body]
pub(crate) fn text_of(chars: &Vec<char>) -> (text: String)
    ensures
        text@ == chars@,
{
    String::from_iter(chars.iter())
}

/// The text `before`, the decimal digits of `number`, and `after`.
pub fn numbered(before: &str, number: u64, after: &str) -> (text: String)
    ensures
        text@ == before@ + decimal_text(number as nat) + after@,
{
    let mut chars: Vec<char> = Vec::new();
    push_text(&mut chars, before);
    push_decimal(&mut chars, number);
    push_text(&mut chars, after);
    text_of(&chars)
}

} // verus!
