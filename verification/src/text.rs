//! Text: taking it apart at separators, and numbers in decimal notation.

use crate::signing::{hex_digit, lemma_hex_digit};
use vstd::prelude::*;
use vstd::utf8::{decode_utf8, encode_utf8, valid_utf8};

verus! {

/// Whether `part` stands in `text` at the index `at`.
pub open spec fn occurs_at(text: Seq<char>, part: Seq<char>, at: int) -> bool {
    0 <= at && at + part.len() <= text.len() && text.subrange(at, at + part.len()) == part
}

/// The first index, from `from` on, at which `part` stands in `text`.
pub open spec fn occurrence_from(text: Seq<char>, part: Seq<char>, from: int) -> Option<int>
    decreases text.len() - from,
{
    if from + part.len() > text.len() {
        None
    } else if occurs_at(text, part, from) {
        Some(from)
    } else if from < text.len() {
        occurrence_from(text, part, from + 1)
    } else {
        None
    }
}

/// The first index at which `part` stands in `text`.
pub open spec fn first_occurrence(text: Seq<char>, part: Seq<char>) -> Option<int> {
    occurrence_from(text, part, 0)
}

/// What stands before and after the first `separator` in `text`.
pub open spec fn cut(text: Seq<char>, separator: Seq<char>) -> Option<(Seq<char>, Seq<char>)> {
    match first_occurrence(text, separator) {
        Some(at) => Some((text.take(at), text.skip(at + separator.len()))),
        None => None,
    }
}

/// The pieces of `text` between the separators in it; the whole of it where there is none.
pub open spec fn fields(text: Seq<char>, separator: Seq<char>) -> Seq<Seq<char>>
    decreases text.len(),
{
    match cut(text, separator) {
        Some((before, after)) => if after.len() < text.len() {
            seq![before] + fields(after, separator)
        } else {
            seq![text]
        },
        None => seq![text],
    }
}

/// The occurrence that is found is one, and none stands before it.
pub proof fn lemma_occurrence(text: Seq<char>, part: Seq<char>, from: int)
    requires
        0 <= from,
    ensures
        match occurrence_from(text, part, from) {
            Some(at) => from <= at && occurs_at(text, part, at) && forall|i: int|
                from <= i < at ==> !#[trigger] occurs_at(text, part, i),
            None => forall|i: int| from <= i ==> !#[trigger] occurs_at(text, part, i),
        },
    decreases text.len() - from,
{
    if from + part.len() <= text.len() && !occurs_at(text, part, from) && from < text.len() {
        lemma_occurrence(text, part, from + 1);
    }
}

/// An occurrence before which there is none is the one that is found.
pub proof fn lemma_occurrence_unique(text: Seq<char>, part: Seq<char>, at: int)
    requires
        occurs_at(text, part, at),
        forall|i: int| 0 <= i < at ==> !#[trigger] occurs_at(text, part, i),
    ensures
        first_occurrence(text, part) == Some(at),
{
    lemma_occurrence(text, part, 0);
    if let Some(found) = first_occurrence(text, part) {
        assert(occurs_at(text, part, found));
        assert(occurs_at(text, part, at));
    } else {
        assert(occurs_at(text, part, at));
    }
}

/// `String::push` appends a character at the end of a text.
pub assume_specification[ String::push ](text: &mut String, character: char)
    ensures
        final(text)@ == old(text)@.push(character),
;

/// The characters of a text.
pub fn characters(text: &str) -> (characters: Vec<char>)
    ensures
        characters@ == text@,
{
    let mut characters: Vec<char> = Vec::new();
    for character in it: text.chars()
        invariant
            it.seq() == text@,
            characters@ == text@.take(it.index() as int),
    {
        characters.push(character);
        assert(text@.take(it.index() + 1) =~= text@.take(it.index() as int).push(character));
    }
    assert(text@.take(text@.len() as int) =~= text@);
    characters
}

/// Whether two texts are the same.
pub fn same_text(left: &str, right: &str) -> (same: bool)
    ensures
        same == (left@ == right@),
{
    let left = characters(left);
    let right = characters(right);
    left.len() == right.len() && stands_at(&left, &right, 0)
}

fn stands_at(text: &Vec<char>, part: &Vec<char>, at: usize) -> (stands: bool)
    requires
        at + part@.len() <= text@.len(),
    ensures
        stands == occurs_at(text@, part@, at as int),
        part@.len() == text@.len() ==> stands == (text@ == part@),
{
    let length: usize = text.len();
    let mut i: usize = 0;
    while i < part.len()
        invariant
            at + part@.len() <= text@.len(),
            text@.len() == length,
            i <= part@.len(),
            forall|k: int| 0 <= k < i ==> text@[at + k] == part@[k],
        decreases part@.len() - i,
    {
        if text[at + i] != part[i] {
            proof {
                let here = text@.subrange(at as int, at + part@.len());
                assert(here[i as int] == text@[at + i]);
            }
            return false;
        }
        i = i + 1;
    }
    assert(text@.subrange(at as int, at + part@.len()) =~= part@);
    assert(part@.len() == text@.len() ==> text@ =~= part@);
    true
}

fn find(text: &Vec<char>, part: &Vec<char>, from: usize) -> (found: Option<usize>)
    requires
        from <= text@.len(),
    ensures
        match found {
            Some(at) => occurrence_from(text@, part@, from as int) == Some(at as int),
            None => occurrence_from(text@, part@, from as int) is None,
        },
{
    let mut at = from;
    while part.len() <= text.len() - at
        invariant
            at <= text@.len(),
            occurrence_from(text@, part@, at as int) == occurrence_from(
                text@,
                part@,
                from as int,
            ),
        decreases text@.len() - at,
    {
        if stands_at(text, part, at) {
            return Some(at);
        }
        if at == text.len() {
            return None;
        }
        at = at + 1;
    }
    None
}

/// Whether `bytes` end with `tail`.
pub open spec fn ends_with(bytes: Seq<u8>, tail: Seq<u8>) -> bool {
    tail.len() <= bytes.len() && bytes.skip(bytes.len() - tail.len()) == tail
}

/// Whether `bytes` end with `tail`.
pub fn has_tail(bytes: &[u8], tail: &[u8]) -> (ends: bool)
    ensures
        ends == ends_with(bytes@, tail@),
{
    if bytes.len() < tail.len() {
        return false;
    }
    let length: usize = bytes.len();
    let start: usize = length - tail.len();
    let mut i: usize = 0;
    while i < tail.len()
        invariant
            bytes@.len() == length,
            start == length - tail@.len(),
            i <= tail@.len(),
            forall|k: int| 0 <= k < i ==> bytes@[start + k] == tail@[k],
        decreases tail@.len() - i,
    {
        if bytes[start + i] != tail[i] {
            assert(bytes@.skip(start as int)[i as int] == bytes@[start + i]);
            return false;
        }
        i = i + 1;
    }
    assert(bytes@.skip(start as int) =~= tail@);
    true
}

/// Whether two runs of bytes are the same.
pub fn same_bytes(left: &[u8], right: &[u8]) -> (same: bool)
    ensures
        same == (left@ == right@),
{
    assert(left@.skip(0) =~= left@);
    left.len() == right.len() && has_tail(left, right)
}

/// `String::from_utf8` takes bytes for text, where they are the UTF-8 encoding of one.
#[verifier::external_body]
pub(crate) fn text_of(bytes: Vec<u8>) -> (text: Option<String>)
    ensures
        match text {
            Some(read) => valid_utf8(bytes@) && read@ == decode_utf8(bytes@),
            None => !valid_utf8(bytes@),
        },
{
    String::from_utf8(bytes).ok()
}

/// The text that the characters from `from` up to `to` make.
fn gather(characters: &Vec<char>, from: usize, to: usize) -> (text: String)
    requires
        from <= to <= characters@.len(),
    ensures
        text@ == characters@.subrange(from as int, to as int),
{
    let mut text = String::new();
    let mut i = from;
    assert(characters@.subrange(from as int, from as int) =~= Seq::<char>::empty());
    while i < to
        invariant
            from <= i <= to <= characters@.len(),
            text@ == characters@.subrange(from as int, i as int),
        decreases to - i,
    {
        text.push(characters[i]);
        assert(characters@.subrange(from as int, i + 1) =~= characters@.subrange(
            from as int,
            i as int,
        ).push(characters@[i as int]));
        i = i + 1;
    }
    text
}

/// What stands before and after the first `separator` in `text`.
pub fn split_once(text: &str, separator: &str) -> (parts: Option<(String, String)>)
    ensures
        match parts {
            Some((before, after)) => cut(text@, separator@) == Some((before@, after@)),
            None => cut(text@, separator@) is None,
        },
{
    let text = characters(text);
    let separator = characters(separator);
    let length: usize = text.len();
    match find(&text, &separator, 0) {
        Some(at) => {
            proof {
                lemma_occurrence(text@, separator@, 0);
            }
            let before = gather(&text, 0, at);
            let after = gather(&text, at + separator.len(), length);
            assert(before@ =~= text@.take(at as int));
            assert(after@ =~= text@.skip(at + separator@.len()));
            Some((before, after))
        },
        None => None,
    }
}

/// The views of texts.
pub open spec fn texts(parts: Seq<String>) -> Seq<Seq<char>> {
    parts.map_values(|part: String| part@)
}

/// To look from an index on is to look in what stands there.
proof fn lemma_occurrence_skip(text: Seq<char>, part: Seq<char>, from: int)
    requires
        0 <= from <= text.len(),
    ensures
        match occurrence_from(text, part, from) {
            Some(at) => first_occurrence(text.skip(from), part) == Some(at - from),
            None => first_occurrence(text.skip(from), part) is None,
        },
{
    let rest = text.skip(from);
    assert forall|i: int| 0 <= i implies #[trigger] occurs_at(rest, part, i) == occurs_at(
        text,
        part,
        from + i,
    ) by {
        if i + part.len() <= rest.len() {
            assert(rest.subrange(i, i + part.len()) =~= text.subrange(
                from + i,
                from + i + part.len(),
            ));
        }
    }
    lemma_occurrence(text, part, from);
    lemma_occurrence(rest, part, 0);
    if let Some(at) = occurrence_from(text, part, from) {
        assert(occurs_at(rest, part, at - from));
        lemma_occurrence_unique(rest, part, at - from);
    } else if let Some(at) = first_occurrence(rest, part) {
        assert(occurs_at(text, part, from + at));
    }
}

/// The pieces of `text` between the separators in it; the whole of it where there is none.
pub fn split(text: &str, separator: &str) -> (parts: Vec<String>)
    ensures
        texts(parts@) == fields(text@, separator@),
{
    let text = characters(text);
    let separator = characters(separator);
    let length: usize = text.len();
    let mut parts: Vec<String> = Vec::new();
    let mut from: usize = 0;
    assert(text@.skip(0) =~= text@);
    assert(texts(parts@) + fields(text@, separator@) =~= fields(text@, separator@));
    let mut found: Option<usize> = if separator.len() > 0 {
        find(&text, &separator, 0)
    } else {
        None
    };
    while found.is_some()
        invariant
            from <= length,
            length == text@.len(),
            found matches Some(at) ==> separator@.len() > 0 && occurrence_from(
                text@,
                separator@,
                from as int,
            ) == Some(at as int),
            found is None && separator@.len() > 0 ==> occurrence_from(
                text@,
                separator@,
                from as int,
            ) is None,
            separator@.len() == 0 ==> from == 0,
            texts(parts@) + fields(text@.skip(from as int), separator@) == fields(
                text@,
                separator@,
            ),
        decreases length - from, found,
    {
        let at = found.unwrap();
        proof {
            lemma_occurrence(text@, separator@, from as int);
            lemma_occurrence_skip(text@, separator@, from as int);
        }
        let piece = gather(&text, from, at);
        let ghost rest = text@.skip(from as int);
        let ghost done = texts(parts@);
        parts.push(piece);
        let next: usize = at + separator.len();
        proof {
            assert(rest.take(at - from) =~= piece@);
            assert(rest.skip(at - from + separator@.len()) =~= text@.skip(next as int));
            assert(texts(parts@) =~= done.push(piece@));
            let behind = fields(text@.skip(next as int), separator@);
            assert(done + (seq![piece@] + behind) =~= done.push(piece@) + behind);
        }
        from = next;
        found = find(&text, &separator, from);
    }
    proof {
        lemma_occurrence_skip(text@, separator@, from as int);
    }
    let ghost done = texts(parts@);
    let piece = gather(&text, from, length);
    parts.push(piece);
    assert(piece@ =~= text@.skip(from as int));
    assert(separator@.len() == 0 ==> text@.subrange(0, 0) =~= separator@);
    assert(texts(parts@) =~= done + seq![piece@]);
    parts
}

/// A text in which the separator is first found behind `before` falls apart there.
pub proof fn lemma_fields_at(before: Seq<char>, separator: Seq<char>, after: Seq<char>)
    requires
        separator.len() > 0,
        first_occurrence(before + separator + after, separator) == Some(before.len() as int),
    ensures
        fields(before + separator + after, separator) == seq![before] + fields(after, separator),
{
    let text = before + separator + after;
    assert(text.take(before.len() as int) =~= before);
    assert(text.skip((before.len() + separator.len()) as int) =~= after);
}

/// What follows the first separator has no part in finding it.
pub proof fn lemma_occurrence_extends(before: Seq<char>, separator: Seq<char>, after: Seq<char>)
    requires
        first_occurrence(before + separator, separator) == Some(before.len() as int),
    ensures
        first_occurrence(before + separator + after, separator) == Some(before.len() as int),
{
    let short = before + separator;
    let text = short + after;
    lemma_occurrence(short, separator, 0);
    assert forall|i: int| 0 <= i <= before.len() implies #[trigger] occurs_at(text, separator, i)
        == occurs_at(short, separator, i) by {
        assert(text.subrange(i, i + separator.len()) =~= short.subrange(i, i + separator.len()));
    }
    lemma_occurrence_unique(text, separator, before.len() as int);
}

/// A word falls off a text that goes on behind it with a separator that is not in it.
pub proof fn lemma_fields_after_word(word: Seq<char>, separator: char, after: Seq<char>)
    requires
        forall|i: int| 0 <= i < word.len() ==> #[trigger] word[i] != separator,
    ensures
        fields(word + seq![separator] + after, seq![separator]) == seq![word] + fields(
            after,
            seq![separator],
        ),
{
    let text = word + seq![separator] + after;
    assert(text.subrange(word.len() as int, word.len() as int + 1) =~= seq![separator]);
    assert forall|i: int| 0 <= i < word.len() implies !#[trigger] occurs_at(
        text,
        seq![separator],
        i,
    ) by {
        assert(text.subrange(i, i + 1)[0] == word[i]);
    }
    lemma_occurrence_unique(text, seq![separator], word.len() as int);
    lemma_fields_at(word, seq![separator], after);
}

/// A text without a separator in it stays whole.
pub proof fn lemma_fields_of_word(word: Seq<char>, separator: char)
    requires
        forall|i: int| 0 <= i < word.len() ==> #[trigger] word[i] != separator,
    ensures
        fields(word, seq![separator]) == seq![word],
{
    lemma_occurrence(word, seq![separator], 0);
    if let Some(at) = first_occurrence(word, seq![separator]) {
        assert(word.subrange(at, at + 1)[0] == word[at]);
    }
}

/// The encoding of two texts, one behind the other.
proof fn lemma_encoded_concat(head: Seq<char>, tail: Seq<char>)
    ensures
        encode_utf8(head + tail) == encode_utf8(head) + encode_utf8(tail),
    decreases head.len(),
{
    if head.len() == 0 {
        assert(head + tail =~= tail);
        assert(encode_utf8(head) + encode_utf8(tail) =~= encode_utf8(tail));
    } else {
        lemma_encoded_concat(head.drop_first(), tail);
        assert((head + tail).drop_first() =~= head.drop_first() + tail);
        assert(encode_utf8(head + tail) =~= encode_utf8(head) + encode_utf8(tail));
    }
}

/// The encoding of a text ends with that of its tail.
pub proof fn lemma_encoded_tail(head: Seq<char>, tail: Seq<char>)
    ensures
        ends_with(encode_utf8(head + tail), encode_utf8(tail)),
{
    lemma_encoded_concat(head, tail);
    let whole = encode_utf8(head) + encode_utf8(tail);
    assert(whole.skip(encode_utf8(head).len() as int) =~= encode_utf8(tail));
}

/// The decimal digit that stands for `n`, which is less than ten.
pub open spec fn digit(n: nat) -> char {
    ('0' as nat + n) as char
}

/// The number that a decimal digit stands for.
pub open spec fn digit_value(character: char) -> Option<nat> {
    if '0' <= character <= '9' {
        Some((character as nat - '0' as nat) as nat)
    } else {
        None
    }
}

/// A number in decimal notation.
pub open spec fn decimal(n: nat) -> Seq<char>
    decreases n,
{
    if n < 10 {
        seq![digit(n)]
    } else {
        decimal(n / 10).push(digit(n % 10))
    }
}

/// The number that decimal digits stand for; no digits stand for zero.
pub open spec fn digits_value(digits: Seq<char>) -> Option<nat>
    decreases digits.len(),
{
    if digits.len() == 0 {
        Some(0)
    } else {
        match (digits_value(digits.drop_last()), digit_value(digits.last())) {
            (Some(high), Some(low)) => Some(10 * high + low),
            _ => None,
        }
    }
}

/// The number, up to `max`, that a text denotes: digits, with or without a plus sign before
/// them.
pub open spec fn parsed_decimal(text: Seq<char>, max: nat) -> Option<nat> {
    let digits = if text.len() > 0 && text[0] == '+' {
        text.skip(1)
    } else {
        text
    };
    match digits_value(digits) {
        Some(n) => if digits.len() > 0 && n <= max {
            Some(n)
        } else {
            None
        },
        None => None,
    }
}

/// A number is read back from its decimal notation.
pub proof fn decimal_reads_back(n: nat, max: nat)
    requires
        n <= max,
    ensures
        parsed_decimal(decimal(n), max) == Some(n),
{
    lemma_decimal(n);
}

/// The decimal notation holds digits only, and they stand for the number.
pub proof fn lemma_decimal(n: nat)
    ensures
        decimal(n).len() > 0,
        forall|i: int| 0 <= i < decimal(n).len() ==> '0' <= #[trigger] decimal(n)[i] <= '9',
        digits_value(decimal(n)) == Some(n),
    decreases n,
{
    if n < 10 {
        assert(decimal(n).drop_last() =~= Seq::<char>::empty());
        assert(digits_value(decimal(n).drop_last()) == Some(0nat));
    } else {
        lemma_decimal(n / 10);
        assert(decimal(n).drop_last() =~= decimal(n / 10));
    }
}

/// A larger number has no fewer digits.
proof fn lemma_decimal_grows(n: nat, m: nat)
    requires
        n <= m,
    ensures
        decimal(n).len() <= decimal(m).len(),
    decreases m,
{
    if m >= 10 {
        lemma_decimal_grows(n / 10, m / 10);
        lemma_decimal(m / 10);
    }
}

/// An integer of 64 bits has twenty digits at most.
pub proof fn lemma_decimal_len(n: u64)
    ensures
        decimal(n as nat).len() <= 20,
{
    lemma_decimal_grows(n as nat, u64::MAX as nat);
    reveal_with_fuel(decimal, 20);
    assert(decimal(18446744073709551615).len() == 20);
}

fn write_digit(n: u64) -> (character: char)
    requires
        n < 10,
    ensures
        character == digit(n as nat),
{
    (48 + n as u8) as char
}

/// Writes a number in decimal notation.
pub fn format_decimal(n: u64) -> (text: String)
    ensures
        text@ == decimal(n as nat),
    decreases n,
{
    let mut text = if n < 10 {
        String::new()
    } else {
        format_decimal(n / 10)
    };
    text.push(write_digit(n % 10));
    assert(n < 10 ==> text@ =~= seq![digit(n as nat)]);
    text
}

/// More digits do not stand for less.
proof fn lemma_digits_grow(digits: Seq<char>, i: int)
    requires
        0 <= i <= digits.len(),
    ensures
        digits_value(digits) matches Some(n) ==> digits_value(digits.take(i)) matches Some(m) && m
            <= n,
    decreases digits.len() - i,
{
    if i < digits.len() {
        lemma_digits_grow(digits, i + 1);
        assert(digits.take(i + 1).drop_last() =~= digits.take(i));
    } else {
        assert(digits.take(i) =~= digits);
    }
}

/// Reads a number, up to `max`, in decimal notation.
pub fn parse_decimal(text: &str, max: u64) -> (number: Option<u64>)
    ensures
        match number {
            Some(n) => parsed_decimal(text@, max as nat) == Some(n as nat),
            None => parsed_decimal(text@, max as nat) is None,
        },
{
    let characters = characters(text);
    let start: usize = if characters.len() > 0 && characters[0] == '+' {
        1
    } else {
        0
    };
    let ghost digits = text@.skip(start as int);
    assert(start == 0 ==> digits =~= text@);
    if start == characters.len() {
        return None;
    }
    let mut number: u64 = 0;
    let mut i = start;
    while i < characters.len()
        invariant
            start <= i <= characters@.len(),
            characters@ == text@,
            digits == characters@.skip(start as int),
            number <= max,
            digits_value(digits.take(i - start)) == Some(number as nat),
            characters@.len() > start,
            parsed_decimal(text@, max as nat) == match digits_value(digits) {
                Some(n) => if n <= max {
                    Some(n)
                } else {
                    None
                },
                None => None,
            },
        decreases characters@.len() - i,
    {
        let character = characters[i];
        proof {
            let longer = digits.take(i - start + 1);
            assert(longer.drop_last() =~= digits.take(i - start));
            assert(longer.last() == character);
            lemma_digits_grow(digits, i - start + 1);
        }
        if character < '0' || character > '9' {
            return None;
        }
        let low: u64 = character as u64 - '0' as u64;
        if low > max || number > (max - low) / 10 {
            return None;
        }
        number = number * 10 + low;
        i = i + 1;
    }
    assert(digits.take(i - start) =~= digits);
    Some(number)
}

/// A number in hexadecimal notation, in lower case.
pub open spec fn hexadecimal(n: nat) -> Seq<char>
    decreases n,
{
    if n < 16 {
        seq![hex_digit(n as u8)]
    } else {
        hexadecimal(n / 16).push(hex_digit((n % 16) as u8))
    }
}

/// Different numbers differ in hexadecimal notation.
pub proof fn hexadecimal_is_unique(left: nat, right: nat)
    requires
        left != right,
    ensures
        hexadecimal(left) != hexadecimal(right),
    decreases left + right,
{
    lemma_hex_digit((left % 16) as u8);
    lemma_hex_digit((right % 16) as u8);
    lemma_hexadecimal_len(left);
    lemma_hexadecimal_len(right);
    if left % 16 == right % 16 {
        if left >= 16 && right >= 16 {
            hexadecimal_is_unique(left / 16, right / 16);
            assert(hexadecimal(left).drop_last() =~= hexadecimal(left / 16));
            assert(hexadecimal(right).drop_last() =~= hexadecimal(right / 16));
        }
    } else {
        assert(hexadecimal(left).last() == hex_digit((left % 16) as u8));
        assert(hexadecimal(right).last() == hex_digit((right % 16) as u8));
    }
}

proof fn lemma_hexadecimal_len(n: nat)
    ensures
        hexadecimal(n).len() >= 1,
        n >= 16 ==> hexadecimal(n).len() >= 2,
        n < 16 ==> hexadecimal(n).len() == 1,
    decreases n,
{
    if n >= 16 {
        lemma_hexadecimal_len(n / 16);
    }
}

fn write_hex_digit(n: u64) -> (character: char)
    requires
        n < 16,
    ensures
        character == hex_digit(n as u8),
{
    if n < 10 {
        (48 + n as u8) as char
    } else {
        (87 + n as u8) as char
    }
}

/// Writes a number in hexadecimal notation, in lower case.
pub fn format_hexadecimal(n: u64) -> (text: String)
    ensures
        text@ == hexadecimal(n as nat),
    decreases n,
{
    let mut text = if n < 16 {
        String::new()
    } else {
        format_hexadecimal(n / 16)
    };
    text.push(write_hex_digit(n % 16));
    assert(n < 16 ==> text@ =~= seq![hex_digit(n as u8)]);
    text
}

} // verus!
