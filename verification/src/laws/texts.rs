//! Texts: what falls apart at separators, and numbers in their notations.

use crate::signing::{hex_bytes, hex_digit, hex_text, hex_value};
use crate::text::{
    cut, decimal, digit, digit_value, digits_value, ends_with, fields, first_occurrence,
    hexadecimal, lemma_occurrence, occurs_at, parsed_decimal, texts,
};
use vstd::prelude::*;

verus! {

/// The first occurrence is one, and there is none before it; where none is found, there is none.
pub proof fn the_first_occurrence_is_found(text: Seq<char>, part: Seq<char>, i: int)
    requires
        0 <= i <= text.len() - part.len(),
    ensures
        first_occurrence(text, part) matches Some(at) ==> 0 <= at <= text.len() - part.len()
            && text.subrange(at, at + part.len()) == part,
        first_occurrence(text, part) matches Some(at) ==> i < at ==> text.subrange(
            i,
            i + part.len(),
        ) != part,
        first_occurrence(text, part) is None ==> text.subrange(i, i + part.len()) != part,
{
    lemma_occurrence(text, part, 0);
    assert(occurs_at(text, part, i) <==> text.subrange(i, i + part.len()) == part);
}

/// A text is cut at the first separator: before it, the separator and what follows make up the
/// text, and the separator does not stand earlier. It is not cut where there is no separator.
pub proof fn cuts_are_at_the_first_separator(text: Seq<char>, separator: Seq<char>, i: int)
    requires
        0 <= i <= text.len() - separator.len(),
    ensures
        cut(text, separator) matches Some((before, after)) ==> text == before + separator + after,
        cut(text, separator) matches Some((before, _)) ==> i < before.len() ==> text.subrange(
            i,
            i + separator.len(),
        ) != separator,
        cut(text, separator) is None ==> text.subrange(i, i + separator.len()) != separator,
{
    the_first_occurrence_is_found(text, separator, i);
    if let Some(at) = first_occurrence(text, separator) {
        let after = text.skip(at + separator.len());
        assert(text =~= text.take(at) + text.subrange(at, at + separator.len()) + after);
    }
}

/// A text shorter than the separator is not cut.
pub proof fn short_texts_are_not_cut(text: Seq<char>, separator: Seq<char>)
    requires
        text.len() < separator.len(),
    ensures
        cut(text, separator) is None,
        fields(text, separator) == seq![text],
{
}

/// Pieces with a separator between each two.
pub open spec fn joined(pieces: Seq<Seq<char>>, separator: Seq<char>) -> Seq<char>
    decreases pieces.len(),
{
    if pieces.len() == 0 {
        Seq::empty()
    } else if pieces.len() == 1 {
        pieces[0]
    } else {
        pieces[0] + separator + joined(pieces.skip(1), separator)
    }
}

/// The fields of a text make it up again with the separators between them.
pub proof fn fields_make_up_the_text(text: Seq<char>, separator: Seq<char>)
    ensures
        fields(text, separator).len() > 0,
        joined(fields(text, separator), separator) == text,
    decreases text.len(),
{
    match cut(text, separator) {
        Some((before, after)) => if after.len() < text.len() {
            lemma_occurrence(text, separator, 0);
            cuts_are_at_the_first_separator(text, separator, 0);
            fields_make_up_the_text(after, separator);
            assert(fields(text, separator).skip(1) =~= fields(after, separator));
        },
        None => {},
    }
}

/// No field holds a separator.
pub proof fn fields_hold_no_separator(text: Seq<char>, separator: Seq<char>, k: int, i: int)
    requires
        separator.len() > 0,
        0 <= k < fields(text, separator).len(),
        0 <= i <= fields(text, separator)[k].len() - separator.len(),
    ensures
        fields(text, separator)[k].subrange(i, i + separator.len()) != separator,
    decreases text.len(),
{
    lemma_occurrence(text, separator, 0);
    match cut(text, separator) {
        Some((before, after)) => {
            if k == 0 {
                assert(before.subrange(i, i + separator.len()) =~= text.subrange(
                    i,
                    i + separator.len(),
                ));
                assert(!occurs_at(text, separator, i));
            } else {
                fields_hold_no_separator(after, separator, k - 1, i);
            }
        },
        None => {
            assert(!occurs_at(text, separator, i));
        },
    }
}

/// The first field goes as far as the first separator, and the other fields are those of what
/// follows it. An empty separator separates nothing.
pub proof fn fields_fall_off_in_turn(text: Seq<char>, separator: Seq<char>)
    ensures
        separator.len() > 0 ==> (cut(text, separator) matches Some((before, after)) ==> fields(
            text,
            separator,
        ) == seq![before] + fields(after, separator)),
        cut(text, separator) is None ==> fields(text, separator) == seq![text],
        separator.len() == 0 ==> fields(text, separator) == seq![text],
{
    lemma_occurrence(text, separator, 0);
    if separator.len() == 0 {
        assert(text.subrange(0, 0) =~= separator);
        assert(text.skip(0) =~= text);
    }
}

/// What ends with a tail is that tail behind something else, and the other way round.
pub proof fn tails_stand_at_the_end(head: Seq<u8>, tail: Seq<u8>, bytes: Seq<u8>)
    ensures
        ends_with(head + tail, tail),
        ends_with(bytes, tail) ==> tail.len() <= bytes.len() && bytes == bytes.take(
            bytes.len() - tail.len(),
        ) + tail,
        bytes.len() < tail.len() ==> !ends_with(bytes, tail),
{
    assert((head + tail).skip(head.len() as int) =~= tail);
    if ends_with(bytes, tail) {
        let at = bytes.len() - tail.len();
        assert(bytes =~= bytes.take(at) + bytes.skip(at));
    }
}

/// The decimal digits are the characters from 48 to 57, in order.
pub proof fn decimal_digits_are_in_order(n: nat, character: char)
    ensures
        n < 10 ==> digit(n) as nat == 48 + n,
        48 <= character as nat <= 57 ==> digit_value(character) == Some(
            (character as nat - 48) as nat,
        ),
        !(48 <= character as nat <= 57) ==> digit_value(character) is None,
{
}

/// A number gets ten times as large, and larger by what a digit stands for, when that digit is
/// written behind it; and the digits of a number start with zero only where it is that.
pub proof fn digits_are_appended(n: nat, low: nat)
    requires
        low < 10,
    ensures
        n > 0 ==> decimal(10 * n + low) == decimal(n) + seq![((48 + low) as nat) as char],
        decimal(low) == seq![((48 + low) as nat) as char],
        n > 0 ==> decimal(n)[0] as nat != 48,
{
    if n > 0 {
        assert((10 * n + low) / 10 == n && (10 * n + low) % 10 == low);
        lemma_no_leading_zero(n);
    }
}

proof fn lemma_no_leading_zero(n: nat)
    requires
        n > 0,
    ensures
        decimal(n).len() > 0,
        decimal(n)[0] as nat != 48,
    decreases n,
{
    if n >= 10 {
        lemma_no_leading_zero(n / 10);
        assert(decimal(n)[0] == decimal(n / 10)[0]);
    }
}

/// A text with one more digit denotes ten times as much, and what the digit stands for; with
/// another character it denotes nothing.
pub proof fn numbers_are_read_digit_by_digit(text: Seq<char>, last: char, n: nat, max: nat)
    requires
        parsed_decimal(text, max) == Some(n),
    ensures
        48 <= last as nat <= 57 && 10 * n + (last as nat - 48) <= max ==> parsed_decimal(
            text.push(last),
            max,
        ) == Some((10 * n + (last as nat - 48)) as nat),
        48 <= last as nat <= 57 && 10 * n + (last as nat - 48) > max ==> parsed_decimal(
            text.push(last),
            max,
        ) is None,
        !(48 <= last as nat <= 57) ==> parsed_decimal(text.push(last), max) is None,
        n <= max,
{
    let longer = text.push(last);
    assert(longer[0] == text[0]);
    if text[0] == '+' {
        assert(longer.skip(1).drop_last() =~= text.skip(1));
    } else {
        assert(longer.drop_last() =~= text);
    }
}

/// A single digit denotes what it stands for, and nothing or a mere plus sign denotes nothing. A
/// plus sign before digits changes nothing, nor does a zero.
pub proof fn signs_and_zeros_do_not_matter(text: Seq<char>, max: nat, n: nat)
    ensures
        n < 10 && n <= max ==> parsed_decimal(seq![((48 + n) as nat) as char], max) == Some(n),
        parsed_decimal(Seq::empty(), max) is None,
        parsed_decimal(seq!['+'], max) is None,
        text.len() > 0 && text[0] != '+' ==> parsed_decimal(seq!['+'] + text, max)
            == parsed_decimal(text, max),
        text.len() > 0 && text[0] != '+' ==> parsed_decimal(seq!['0'] + text, max)
            == parsed_decimal(text, max),
        text.len() > 0 && text[0] == '+' ==> parsed_decimal(seq!['+'] + text, max) is None,
        text.len() > 0 && text[0] == '+' ==> parsed_decimal(seq!['0'] + text, max) is None,
{
    let one = seq![((48 + n) as nat) as char];
    if n < 10 {
        assert(one.drop_last() =~= Seq::<char>::empty());
        assert(digits_value(one.drop_last()) == Some(0nat));
        assert(digits_value(one) == Some(n));
    }
    assert(seq!['+'].skip(1) =~= Seq::<char>::empty());
    let signed = seq!['+'] + text;
    assert(signed.skip(1) =~= text);
    let zero = seq!['0'] + text;
    if text.len() > 0 {
        lemma_leading_zero(text);
        if text[0] == '+' {
            lemma_no_digit(text, 0);
        }
    }
}

proof fn lemma_leading_zero(digits: Seq<char>)
    ensures
        digits_value(seq!['0'] + digits) == digits_value(digits),
    decreases digits.len(),
{
    let all = seq!['0'] + digits;
    if digits.len() == 0 {
        assert(all.drop_last() =~= Seq::<char>::empty());
        assert(digits_value(all.drop_last()) == Some(0nat));
    } else {
        lemma_leading_zero(digits.drop_last());
        assert(all.drop_last() =~= seq!['0'] + digits.drop_last());
    }
}

proof fn lemma_no_digit(digits: Seq<char>, i: int)
    requires
        0 <= i < digits.len(),
        !(48 <= digits[i] as nat <= 57),
    ensures
        digits_value(digits) is None,
    decreases digits.len(),
{
    if i < digits.len() - 1 {
        lemma_no_digit(digits.drop_last(), i);
    }
}

/// A text with a character in it that is no digit, behind the first, denotes no number.
pub proof fn other_characters_make_no_number(text: Seq<char>, i: int, max: nat)
    requires
        0 <= i < text.len(),
        !(48 <= text[i] as nat <= 57),
        i == 0 ==> text[i] != '+',
    ensures
        parsed_decimal(text, max) is None,
{
    if text[0] == '+' {
        assert(text.skip(1)[i - 1] == text[i]);
        lemma_no_digit(text.skip(1), i - 1);
    } else {
        lemma_no_digit(text, i);
    }
}

/// How large a number may be decides only whether it is read, not which one it is.
pub proof fn limits_do_not_change_numbers(text: Seq<char>, max: nat, more: nat)
    requires
        max <= more,
    ensures
        parsed_decimal(text, max) == match parsed_decimal(text, more) {
            Some(n) => if n <= max {
                Some(n)
            } else {
                None
            },
            None => None,
        },
{
}

/// The hexadecimal digits: those from zero to nine, and the letters from a to f. Read are those in
/// upper case too, and no other characters.
pub proof fn hexadecimal_digits_are_in_order(n: u8, character: char)
    ensures
        n < 10 ==> hex_digit(n) as nat == 48 + n,
        10 <= n < 16 ==> hex_digit(n) as nat == 97 + (n - 10),
        48 <= character as nat <= 57 ==> (hex_value(character) matches Some(value) && value
            == character as nat - 48),
        97 <= character as nat <= 102 ==> (hex_value(character) matches Some(value) && value
            == character as nat - 97 + 10),
        65 <= character as nat <= 70 ==> (hex_value(character) matches Some(value) && value
            == character as nat - 65 + 10),
        !(48 <= character as nat <= 57) && !(97 <= character as nat <= 102) && !(65
            <= character as nat <= 70) ==> hex_value(character) is None,
{
}

/// A number in hexadecimal notation gets sixteen times as large, and larger by what a digit stands
/// for, when that digit is written behind it.
pub proof fn hexadecimal_digits_are_appended(n: nat, low: u8)
    requires
        low < 16,
    ensures
        n > 0 ==> hexadecimal(16 * n + low as nat) == hexadecimal(n) + seq![hex_digit(low)],
        hexadecimal(low as nat) == seq![hex_digit(low)],
{
    if n > 0 {
        assert((16 * n + low as nat) / 16 == n && (16 * n + low as nat) % 16 == low as nat);
    }
}

/// Bytes in hexadecimal notation: two digits for each, the high half first, one byte after the
/// other.
pub proof fn bytes_are_written_one_by_one(byte: u8, head: Seq<u8>, tail: Seq<u8>)
    ensures
        hex_text(seq![byte]) == seq![hex_digit(byte / 16), hex_digit(byte % 16)],
        hex_text(head + tail) == hex_text(head) + hex_text(tail),
        hex_text(Seq::empty()) == Seq::<char>::empty(),
{
    assert(hex_text(seq![byte]) =~= seq![hex_digit(byte / 16), hex_digit(byte % 16)]);
    assert(hex_text(head + tail) =~= hex_text(head) + hex_text(tail));
    assert(hex_text(Seq::empty()) =~= Seq::<char>::empty());
}

/// Bytes are read of pairs of hexadecimal digits, one byte after the other; of anything else
/// nothing is read.
pub proof fn bytes_are_read_one_by_one(text: Seq<char>, i: int)
    ensures
        hex_bytes(text) matches Some(bytes) ==> 2 * bytes.len() == text.len(),
        (hex_bytes(text) matches Some(bytes) && 0 <= i < bytes.len()) ==> (hex_value(text[2 * i])
            == Some((hex_bytes(text)->0[i] / 16) as u8) && hex_value(text[2 * i + 1]) == Some(
            (hex_bytes(text)->0[i] % 16) as u8,
        )),
        text.len() % 2 == 1 ==> hex_bytes(text) is None,
        0 <= i < text.len() && hex_value(text[i]) is None ==> hex_bytes(text) is None,
        hex_bytes(text) is None && text.len() % 2 == 0 ==> exists|k: int|
            0 <= k < text.len() && hex_value(#[trigger] text[k]) is None,
{
    if let Some(bytes) = hex_bytes(text) {
        if 0 <= i < bytes.len() {
            assert(hex_value(text[2 * i]) is Some && hex_value(text[2 * i + 1]) is Some);
            let high = hex_value(text[2 * i])->0;
            let low = hex_value(text[2 * i + 1])->0;
            assert(high < 16 && low < 16);
            assert(bytes[i] == 16 * high + low);
        }
    }
}

/// The views of texts are those of each, in order.
pub proof fn texts_are_viewed_one_by_one(parts: Seq<String>, i: int)
    ensures
        texts(parts).len() == parts.len(),
        0 <= i < parts.len() ==> texts(parts)[i] == parts[i]@,
{
}

} // verus!
