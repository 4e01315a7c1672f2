//! Numbers as text, and text as numbers: the digits that the output lines
//! are made of, and the words and numbers that a command line is read as.

use vstd::prelude::*;
use vstd::string::StringExecFns;
use vstd::utf8::{decode_utf8, valid_utf8};

verus! {

/// The character of a digit below sixteen, in upper case.
pub open spec fn digit_char(digit: int) -> char {
    if digit == 0 {
        '0'
    } else if digit == 1 {
        '1'
    } else if digit == 2 {
        '2'
    } else if digit == 3 {
        '3'
    } else if digit == 4 {
        '4'
    } else if digit == 5 {
        '5'
    } else if digit == 6 {
        '6'
    } else if digit == 7 {
        '7'
    } else if digit == 8 {
        '8'
    } else if digit == 9 {
        '9'
    } else if digit == 10 {
        'A'
    } else if digit == 11 {
        'B'
    } else if digit == 12 {
        'C'
    } else if digit == 13 {
        'D'
    } else if digit == 14 {
        'E'
    } else {
        'F'
    }
}

/// The decimal digits of a number, without leading zeros.
pub open spec fn decimal_text(n: nat) -> Seq<char>
    decreases n,
{
    if n < 10 {
        seq![digit_char(n as int)]
    } else {
        decimal_text(n / 10).push(digit_char((n % 10) as int))
    }
}

/// The hexadecimal digits of a number in upper case, with leading zeros up
/// to `width` digits.
pub open spec fn hex_text(n: nat, width: nat) -> Seq<char>
    decreases n + width,
{
    if n < 16 && width <= 1 {
        seq![digit_char(n as int)]
    } else {
        hex_text(
            n / 16,
            if width > 0 {
                (width - 1) as nat
            } else {
                0
            },
        ).push(digit_char((n % 16) as int))
    }
}

/// An address as the output lines show it: `0x` and four hexadecimal digits
/// in upper case, more where four do not hold the number.
pub open spec fn address_text(address: nat) -> Seq<char> {
    "0x"@ + hex_text(address, 4)
}

/// The text of one digit below sixteen.
fn digit_str(digit: usize) -> (text: &'static str)
    requires
        digit < 16,
    ensures
        text@ == seq![digit_char(digit as int)],
{
    proof {
        reveal_strlit("0");
        reveal_strlit("1");
        reveal_strlit("2");
        reveal_strlit("3");
        reveal_strlit("4");
        reveal_strlit("5");
        reveal_strlit("6");
        reveal_strlit("7");
        reveal_strlit("8");
        reveal_strlit("9");
        reveal_strlit("A");
        reveal_strlit("B");
        reveal_strlit("C");
        reveal_strlit("D");
        reveal_strlit("E");
        reveal_strlit("F");
    }
    let text = if digit == 0 {
        "0"
    } else if digit == 1 {
        "1"
    } else if digit == 2 {
        "2"
    } else if digit == 3 {
        "3"
    } else if digit == 4 {
        "4"
    } else if digit == 5 {
        "5"
    } else if digit == 6 {
        "6"
    } else if digit == 7 {
        "7"
    } else if digit == 8 {
        "8"
    } else if digit == 9 {
        "9"
    } else if digit == 10 {
        "A"
    } else if digit == 11 {
        "B"
    } else if digit == 12 {
        "C"
    } else if digit == 13 {
        "D"
    } else if digit == 14 {
        "E"
    } else {
        "F"
    };
    assert(text@ =~= seq![digit_char(digit as int)]);
    text
}

/// Appends the decimal digits of `n` to `text`.
pub fn push_decimal(text: &mut String, n: usize)
    ensures
        final(text)@ == old(text)@ + decimal_text(n as nat),
    decreases n,
{
    if n >= 10 {
        push_decimal(text, n / 10);
    }
    text.append(digit_str(n % 10));
    assert(final(text)@ =~= old(text)@ + decimal_text(n as nat));
}

/// Appends the hexadecimal digits of `n` to `text`, `width` of them at
/// least.
pub fn push_hex(text: &mut String, n: usize, width: usize)
    ensures
        final(text)@ == old(text)@ + hex_text(n as nat, width as nat),
    decreases n + width,
{
    if n >= 16 || width > 1 {
        push_hex(
            text,
            n / 16,
            if width > 0 {
                width - 1
            } else {
                0
            },
        );
    }
    text.append(digit_str(n % 16));
    assert(final(text)@ =~= old(text)@ + hex_text(n as nat, width as nat));
}

/// Appends an address to `text`: `0x` and its hexadecimal digits, four of
/// them at least.
pub fn push_address(text: &mut String, address: usize)
    ensures
        final(text)@ == old(text)@ + address_text(address as nat),
{
    text.append("0x");
    push_hex(text, address, 4);
    assert(final(text)@ =~= old(text)@ + address_text(address as nat));
}

/// The decimal digits of `n`.
pub fn format_decimal(n: usize) -> (text: String)
    ensures
        text@ == decimal_text(n as nat),
{
    let mut text = String::new();
    push_decimal(&mut text, n);
    assert(text@ =~= decimal_text(n as nat));
    text
}

/// An address as the output lines show it.
pub fn format_address(address: usize) -> (text: String)
    ensures
        text@ == address_text(address as nat),
{
    let mut text = String::new();
    push_address(&mut text, address);
    assert(text@ =~= address_text(address as nat));
    text
}

/// Why a piece of text could not be read.
#[derive(Clone, Copy, Debug, PartialEq, Eq, Structural)]
pub enum ParseError {
    /// The line names no command, or gives a command too few arguments.
    UnknownCommand,
    /// A size or an identifier is not a number that the machine can hold.
    InvalidNumber,
    /// A hexadecimal payload holds a word that is not a byte.
    InvalidData,
}

/// The bytes that separate words: the space, and the tab, line feed,
/// vertical tab, form feed and carriage return.
pub open spec fn is_space(byte: u8) -> bool {
    byte == 0x20 || (0x09 <= byte && byte <= 0x0D)
}

/// A small letter as its capital; any other byte as it is.
pub open spec fn upper_byte(byte: u8) -> u8 {
    if 0x61 <= byte && byte <= 0x7A {
        (byte - 0x20) as u8
    } else {
        byte
    }
}

/// The text with every small letter as its capital.
pub open spec fn upper_text(text: Seq<u8>) -> Seq<u8> {
    Seq::new(text.len(), |i: int| upper_byte(text[i]))
}

/// The text without the spaces at its end.
pub open spec fn trim_end(text: Seq<u8>) -> Seq<u8>
    decreases text.len(),
{
    if text.len() > 0 && is_space(text.last()) {
        trim_end(text.drop_last())
    } else {
        text
    }
}

/// The text without the semicolons at its end.
pub open spec fn strip_semicolons(text: Seq<u8>) -> Seq<u8>
    decreases text.len(),
{
    if text.len() > 0 && text.last() == 0x3B {
        strip_semicolons(text.drop_last())
    } else {
        text
    }
}

/// The words of the text from the index `from` on, where `current` holds the
/// bytes of the word that `from` stands in.
pub open spec fn words_from(text: Seq<u8>, from: int, current: Seq<u8>) -> Seq<Seq<u8>>
    decreases text.len() - from,
{
    let done = if current.len() > 0 {
        seq![current]
    } else {
        Seq::empty()
    };
    if from < 0 || from >= text.len() {
        done
    } else if is_space(text[from]) {
        done + words_from(text, from + 1, Seq::empty())
    } else {
        words_from(text, from + 1, current.push(text[from]))
    }
}

/// The words of the text: its longest runs of bytes that are not spaces, in
/// their order.
pub open spec fn words(text: Seq<u8>) -> Seq<Seq<u8>> {
    words_from(text, 0, Seq::empty())
}

/// A run of bytes that can stand as a word: one byte at least, and no space
/// among them.
pub open spec fn is_word(bytes: Seq<u8>) -> bool {
    bytes.len() > 0 && forall|k: int| 0 <= k < bytes.len() ==> !is_space(#[trigger] bytes[k])
}

/// What is split off a text from an index on, with a word begun that holds
/// no space, are words.
proof fn lemma_words_from(text: Seq<u8>, from: int, current: Seq<u8>)
    requires
        0 <= from,
        forall|k: int| 0 <= k < current.len() ==> !is_space(#[trigger] current[k]),
    ensures
        forall|i: int|
            0 <= i < words_from(text, from, current).len() ==> is_word(
                #[trigger] words_from(text, from, current)[i],
            ),
    decreases text.len() - from,
{
    let found = words_from(text, from, current);
    let done = if current.len() > 0 {
        seq![current]
    } else {
        Seq::empty()
    };
    if from >= text.len() {
        assert(found == done);
        assert forall|i: int| 0 <= i < found.len() implies is_word(#[trigger] found[i]) by {
            assert(found[i] == current);
        }
    } else if is_space(text[from]) {
        let rest = words_from(text, from + 1, Seq::empty());
        lemma_words_from(text, from + 1, Seq::empty());
        assert(found == done + rest);
        assert forall|i: int| 0 <= i < found.len() implies is_word(#[trigger] found[i]) by {
            if i < done.len() {
                assert(found[i] == current);
            } else {
                assert(found[i] == rest[i - done.len()]);
            }
        }
    } else {
        let longer = current.push(text[from]);
        assert forall|k: int| 0 <= k < longer.len() implies !is_space(#[trigger] longer[k]) by {
            if k < current.len() {
                assert(longer[k] == current[k]);
            }
        }
        lemma_words_from(text, from + 1, longer);
        assert(found == words_from(text, from + 1, longer));
    }
}

/// Each word of a text holds a byte at least, and no space.
pub proof fn lemma_words(text: Seq<u8>)
    ensures
        forall|i: int| 0 <= i < words(text).len() ==> is_word(#[trigger] words(text)[i]),
{
    lemma_words_from(text, 0, Seq::empty());
}

/// The words with one space between each two of them.
pub open spec fn joined(words: Seq<Seq<u8>>) -> Seq<u8>
    decreases words.len(),
{
    if words.len() == 0 {
        Seq::empty()
    } else if words.len() == 1 {
        words[0]
    } else {
        joined(words.drop_last()) + seq![0x20u8] + words.last()
    }
}

/// The value of a byte as a digit in the radix; none where it is no such
/// digit.
pub open spec fn digit_of(byte: u8, radix: int) -> Option<int> {
    let value = if 0x30 <= byte && byte <= 0x39 {
        byte - 0x30
    } else if 0x61 <= byte && byte <= 0x7A {
        byte - 0x61 + 10
    } else if 0x41 <= byte && byte <= 0x5A {
        byte - 0x41 + 10
    } else {
        radix
    };
    if value < radix {
        Some(value)
    } else {
        None
    }
}

/// The number that the digits stand for in the radix; none where a byte is
/// no digit.
pub open spec fn digits_value(digits: Seq<u8>, radix: int) -> Option<int>
    decreases digits.len(),
{
    if digits.len() == 0 {
        Some(0)
    } else {
        match (digits_value(digits.drop_last(), radix), digit_of(digits.last(), radix)) {
            (Some(value), Some(digit)) => Some(value * radix + digit),
            _ => None,
        }
    }
}

/// The number that a word stands for: a plus sign or none, then one digit or
/// more, with a value of `max` at most.
pub open spec fn number_of(word: Seq<u8>, radix: int, max: int) -> Option<int> {
    let digits = if word.len() > 0 && word[0] == 0x2B {
        word.subrange(1, word.len() as int)
    } else {
        word
    };
    if digits.len() == 0 {
        None
    } else {
        match digits_value(digits, radix) {
            Some(value) => if value <= max {
                Some(value)
            } else {
                None
            },
            None => None,
        }
    }
}

/// Digits that stand for a number do so from their first digit on, and the
/// number only grows with each digit.
pub proof fn lemma_digits_prefix(digits: Seq<u8>, radix: int, k: int)
    requires
        radix >= 1,
        0 <= k <= digits.len(),
    ensures
        digits_value(digits, radix) matches Some(value) ==> (digits_value(
            digits.subrange(0, k),
            radix,
        ) matches Some(part) && 0 <= part <= value),
    decreases digits.len(),
{
    if k == digits.len() {
        assert(digits.subrange(0, k) =~= digits);
        if digits.len() > 0 {
            lemma_digits_prefix(digits.drop_last(), radix, k - 1);
            if let Some(value) = digits_value(digits.drop_last(), radix) {
                assert(value * radix >= 0) by (nonlinear_arith)
                    requires
                        value >= 0,
                        radix >= 1,
                ;
            }
        }
    } else {
        lemma_digits_prefix(digits.drop_last(), radix, k);
        assert(digits.drop_last().subrange(0, k) =~= digits.subrange(0, k));
        if let Some(value) = digits_value(digits.drop_last(), radix) {
            if let Some(part) = digits_value(digits.subrange(0, k), radix) {
                assert(value * radix >= value) by (nonlinear_arith)
                    requires
                        value >= 0,
                        radix >= 1,
                ;
            }
        }
    }
}

/// The value of a byte as a digit in the radix.
fn digit_value(byte: u8, radix: usize) -> (digit: Option<usize>)
    requires
        radix <= 36,
    ensures
        match digit {
            Some(d) => digit_of(byte, radix as int) == Some(d as int),
            None => digit_of(byte, radix as int) is None,
        },
{
    let value: usize = if 0x30 <= byte && byte <= 0x39 {
        (byte - 0x30) as usize
    } else if 0x61 <= byte && byte <= 0x7A {
        (byte - 0x61) as usize + 10
    } else if 0x41 <= byte && byte <= 0x5A {
        (byte - 0x41) as usize + 10
    } else {
        radix
    };
    if value < radix {
        Some(value)
    } else {
        None
    }
}

/// Reads a word as a number in the radix, no greater than `max`.
pub fn parse_number(word: &[u8], radix: usize, max: usize) -> (number: Option<usize>)
    requires
        2 <= radix <= 36,
    ensures
        match number {
            Some(n) => number_of(word@, radix as int, max as int) == Some(n as int),
            None => number_of(word@, radix as int, max as int) is None,
        },
{
    let start: usize = if word.len() > 0 && word[0] == 0x2B {
        1
    } else {
        0
    };
    if start == word.len() {
        return None;
    }
    let ghost digits = word@.subrange(start as int, word@.len() as int);
    assert(start == 0 ==> digits =~= word@);
    let mut value: usize = 0;
    let mut i: usize = start;
    assert(digits.subrange(0, 0) =~= Seq::<u8>::empty());
    while i < word.len()
        invariant
            2 <= radix <= 36,
            start <= i <= word@.len(),
            digits == word@.subrange(start as int, word@.len() as int),
            number_of(word@, radix as int, max as int) == match digits_value(digits, radix as int) {
                Some(value) => if value <= max {
                    Some(value)
                } else {
                    None
                },
                None => None,
            },
            digits_value(digits.subrange(0, i - start), radix as int) == Some(value as int),
            value <= max,
        decreases word@.len() - i,
    {
        proof {
            lemma_digits_prefix(digits, radix as int, i - start + 1);
            assert(digits.subrange(0, i - start + 1).drop_last() =~= digits.subrange(0, i - start));
            assert(digits.subrange(0, i - start + 1).last() == word@[i as int]);
        }
        let digit = match digit_value(word[i], radix) {
            Some(digit) => digit,
            None => {
                return None;
            },
        };
        let scaled = match value.checked_mul(radix) {
            Some(scaled) => scaled,
            None => {
                return None;
            },
        };
        let next = match scaled.checked_add(digit) {
            Some(next) => next,
            None => {
                return None;
            },
        };
        if next > max {
            return None;
        }
        value = next;
        i += 1;
    }
    assert(digits.subrange(0, i - start) =~= digits);
    Some(value)
}

/// The words as the contracts speak of them.
pub open spec fn word_views(words: Seq<Vec<u8>>) -> Seq<Seq<u8>> {
    Seq::new(words.len(), |i: int| words[i]@)
}

/// Whether the byte separates words.
pub fn is_space_byte(byte: u8) -> (space: bool)
    ensures
        space == is_space(byte),
{
    byte == 0x20 || (0x09 <= byte && byte <= 0x0D)
}

/// The text with every small letter as its capital.
pub fn to_upper(text: &[u8]) -> (upper: Vec<u8>)
    ensures
        upper@ == upper_text(text@),
{
    let mut upper: Vec<u8> = Vec::new();
    let mut i: usize = 0;
    while i < text.len()
        invariant
            i <= text@.len(),
            upper@ == upper_text(text@.subrange(0, i as int)),
        decreases text@.len() - i,
    {
        let byte = text[i];
        if 0x61 <= byte && byte <= 0x7A {
            upper.push(byte - 0x20);
        } else {
            upper.push(byte);
        }
        i += 1;
        assert(upper@ =~= upper_text(text@.subrange(0, i as int)));
    }
    assert(text@.subrange(0, i as int) =~= text@);
    upper
}

/// Drops the spaces at the end of the text, and then the semicolons at its
/// end.
pub fn strip_end(text: &mut Vec<u8>)
    ensures
        final(text)@ == strip_semicolons(trim_end(old(text)@)),
{
    let mut end: usize = text.len();
    assert(text@.subrange(0, end as int) =~= text@);
    while end > 0 && is_space_byte(text[end - 1])
        invariant
            end <= text@.len(),
            trim_end(text@) == trim_end(text@.subrange(0, end as int)),
        decreases end,
    {
        assert(text@.subrange(0, end as int).drop_last() =~= text@.subrange(0, end - 1));
        end -= 1;
    }
    let ghost trimmed = text@.subrange(0, end as int);
    assert(trim_end(text@) == trimmed);
    let ghost stop = end;
    while end > 0 && text[end - 1] == 0x3B
        invariant
            end <= stop <= text@.len(),
            trimmed == text@.subrange(0, stop as int),
            strip_semicolons(trimmed) == strip_semicolons(text@.subrange(0, end as int)),
        decreases end,
    {
        assert(text@.subrange(0, end as int).drop_last() =~= text@.subrange(0, end - 1));
        end -= 1;
    }
    assert(strip_semicolons(trimmed) == text@.subrange(0, end as int));
    text.truncate(end);
}

/// The words of the text.
pub fn split_words(text: &[u8]) -> (found: Vec<Vec<u8>>)
    ensures
        word_views(found@) == words(text@),
{
    let mut found: Vec<Vec<u8>> = Vec::new();
    let mut current: Vec<u8> = Vec::new();
    let mut i: usize = 0;
    assert(word_views(found@) + words_from(text@, 0, current@) =~= words(text@));
    while i < text.len()
        invariant
            i <= text@.len(),
            words(text@) == word_views(found@) + words_from(text@, i as int, current@),
        decreases text@.len() - i,
    {
        let byte = text[i];
        let ghost before = word_views(found@);
        let ghost word = current@;
        if is_space_byte(byte) {
            if current.len() > 0 {
                found.push(current);
                current = Vec::new();
                assert(word_views(found@) =~= before + seq![word]);
            }
            assert(current@ =~= Seq::<u8>::empty());
            let ghost done = if word.len() > 0 {
                seq![word]
            } else {
                Seq::<Seq<u8>>::empty()
            };
            assert(word_views(found@) =~= before + done);
            assert(words_from(text@, i as int, word) == done + words_from(
                text@,
                i + 1,
                Seq::<u8>::empty(),
            ));
            assert((before + done) + words_from(text@, i + 1, Seq::<u8>::empty()) =~= before + (done
                + words_from(text@, i + 1, Seq::<u8>::empty())));
        } else {
            current.push(byte);
        }
        i += 1;
    }
    let ghost before = word_views(found@);
    if current.len() > 0 {
        found.push(current);
        assert(word_views(found@) =~= before + seq![current@]);
    }
    assert(word_views(found@) =~= words(text@));
    found
}

/// The words from the index `from` on, with one space between each two of
/// them.
pub fn join_words(words: &Vec<Vec<u8>>, from: usize) -> (text: Vec<u8>)
    requires
        from <= words@.len(),
    ensures
        text@ == joined(word_views(words@).subrange(from as int, words@.len() as int)),
{
    let mut text: Vec<u8> = Vec::new();
    let mut i: usize = from;
    let ghost all = word_views(words@);
    assert(all.subrange(from as int, from as int) =~= Seq::<Seq<u8>>::empty());
    while i < words.len()
        invariant
            from <= i <= words@.len(),
            all == word_views(words@),
            text@ == joined(all.subrange(from as int, i as int)),
        decreases words@.len() - i,
    {
        let ghost before = text@;
        if i > from {
            text.push(0x20);
        }
        let word = &words[i];
        let mut k: usize = 0;
        while k < word.len()
            invariant
                k <= word@.len(),
                text@ == before + (if i > from {
                    seq![0x20u8]
                } else {
                    Seq::<u8>::empty()
                }) + word@.subrange(0, k as int),
            decreases word@.len() - k,
        {
            text.push(word[k]);
            k += 1;
            assert(text@ =~= before + (if i > from {
                seq![0x20u8]
            } else {
                Seq::<u8>::empty()
            }) + word@.subrange(0, k as int));
        }
        proof {
            assert(word@.subrange(0, k as int) =~= word@);
            let part = all.subrange(from as int, i + 1);
            assert(part.drop_last() =~= all.subrange(from as int, i as int));
            assert(part.last() == word@);
            if i == from {
                assert(text@ =~= word@);
                assert(part[0] == word@);
            }
        }
        i += 1;
    }
    text
}

/// The text that bytes are shown as: what they decode to where they are
/// UTF-8, with a replacement character for each part that is not.
pub uninterp spec fn utf8_lossy(bytes: Seq<u8>) -> Seq<char>;

/// The text that the bytes are shown as, from `String::from_utf8_lossy` of
/// the standard library. Verus takes two things on trust: that the call
/// gives the same text for the same bytes, and that bytes that are UTF-8 are
/// shown as the text that they encode. Of other bytes nothing is claimed.
#[verifier::external_body]
pub(crate) fn lossy_text(bytes: &[u8]) -> (text: String)
    ensures
        text@ == utf8_lossy(bytes@),
        valid_utf8(bytes@) ==> text@ == decode_utf8(bytes@),
{
    String::from_utf8_lossy(bytes).into_owned()
}

} // verus!
