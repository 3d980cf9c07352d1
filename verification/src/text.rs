//! Text: decimal numbers, and text out of bytes.

use vstd::prelude::*;

verus! {

/// The digit `digit` in writing.
pub open spec fn digit_text(digit: int) -> Seq<char> {
    if digit == 0 {
        "0"@
    } else if digit == 1 {
        "1"@
    } else if digit == 2 {
        "2"@
    } else if digit == 3 {
        "3"@
    } else if digit == 4 {
        "4"@
    } else if digit == 5 {
        "5"@
    } else if digit == 6 {
        "6"@
    } else if digit == 7 {
        "7"@
    } else if digit == 8 {
        "8"@
    } else {
        "9"@
    }
}

/// The number `number` in decimal writing.
pub open spec fn decimal_text(number: nat) -> Seq<char>
    decreases number,
{
    if number < 10 {
        digit_text(number as int)
    } else {
        decimal_text(number / 10) + digit_text((number % 10) as int)
    }
}

fn digit(number: u64) -> (text: &'static str)
    requires
        number < 10,
    ensures
        text@ == digit_text(number as int),
{
    match number {
        0 => "0",
        1 => "1",
        2 => "2",
        3 => "3",
        4 => "4",
        5 => "5",
        6 => "6",
        7 => "7",
        8 => "8",
        _ => "9",
    }
}

/// Writes `number` in decimal.
pub fn decimal(number: u64) -> (text: String)
    ensures
        text@ == decimal_text(number as nat),
    decreases number,
{
    if number < 10 {
        return digit(number).to_string();
    }
    let mut text = decimal(number / 10);
    text.append(digit(number % 10));
    text
}

/// Reads `bytes` as text with `String::from_utf8`. The claim: this succeeds
/// exactly on well-formed UTF-8, and gives the characters that it encodes.
#[verifier::external_body]
fn read_utf8(bytes: &[u8]) -> (text: Option<String>)
    ensures
        text is Some <==> vstd::utf8::valid_utf8(bytes@),
        text is Some ==> text->0@ == vstd::utf8::decode_utf8(bytes@),
{
    String::from_utf8(bytes.to_vec()).ok()
}

/// The text that `bytes` hold, if they are well-formed UTF-8.
pub fn text_from_bytes(bytes: &[u8]) -> (text: Option<String>)
    ensures
        match text {
            Some(found) => vstd::utf8::valid_utf8(bytes@) && found@ == vstd::utf8::decode_utf8(
                bytes@,
            ),
            None => !vstd::utf8::valid_utf8(bytes@),
        },
{
    read_utf8(bytes)
}

/// The text that shows `bytes`, with every ill-formed part replaced.
pub uninterp spec fn lossy_text(bytes: Seq<u8>) -> Seq<char>;

/// Reads `bytes` as text with `String::from_utf8_lossy`. The claim: the text depends
/// on the bytes alone, and well-formed UTF-8 is read as it stands. What stands in
/// place of an ill-formed part is left unsaid.
#[verifier::external_body]
fn read_lossy(bytes: &[u8]) -> (text: String)
    ensures
        text@ == lossy_text(bytes@),
        vstd::utf8::valid_utf8(bytes@) ==> text@ == vstd::utf8::decode_utf8(bytes@),
{
    String::from_utf8_lossy(bytes).into_owned()
}

/// The text that `bytes` hold, with every ill-formed part replaced.
pub fn lossy(bytes: &[u8]) -> (text: String)
    ensures
        text@ == lossy_text(bytes@),
        vstd::utf8::valid_utf8(bytes@) ==> text@ == vstd::utf8::decode_utf8(bytes@),
{
    read_lossy(bytes)
}

/// The characters of `text`.
pub fn chars_of(text: &str) -> (chars: Vec<char>)
    ensures
        chars@ == text@,
{
    let mut chars: Vec<char> = Vec::new();
    for c in it: text.chars()
        invariant
            it.seq() == text@,
            chars@ == text@.take(it.index()),
    {
        chars.push(c);
        assert(chars@ =~= text@.take(it.index() + 1));
    }
    assert(chars@ =~= text@);
    chars
}

/// Whether a character has the Unicode property White_Space.
pub open spec fn white_space(c: char) -> bool {
    ||| '\u{9}' <= c <= '\u{d}'
    ||| c == ' ' || c == '\u{85}' || c == '\u{a0}' || c == '\u{1680}'
    ||| '\u{2000}' <= c <= '\u{200a}'
    ||| c == '\u{2028}' || c == '\u{2029}' || c == '\u{202f}' || c == '\u{205f}'
    ||| c == '\u{3000}'
}

/// Whether a character has the Unicode property White_Space.
fn is_white_space(c: char) -> (white: bool)
    ensures
        white == white_space(c),
{
    match c {
        '\u{9}'..='\u{d}' | '\u{2000}'..='\u{200a}' => true,
        ' ' | '\u{85}' | '\u{a0}' | '\u{1680}' => true,
        '\u{2028}' | '\u{2029}' | '\u{202f}' | '\u{205f}' | '\u{3000}' => true,
        _ => false,
    }
}

/// A text without the white space in front.
pub open spec fn trimmed_start(text: Seq<char>) -> Seq<char>
    decreases text.len(),
{
    if text.len() > 0 && white_space(text[0]) {
        trimmed_start(text.drop_first())
    } else {
        text
    }
}

/// A text without the white space behind.
pub open spec fn trimmed_end(text: Seq<char>) -> Seq<char>
    decreases text.len(),
{
    if text.len() > 0 && white_space(text.last()) {
        trimmed_end(text.drop_last())
    } else {
        text
    }
}

/// A text without the white space at its ends.
pub open spec fn trimmed(text: Seq<char>) -> Seq<char> {
    trimmed_end(trimmed_start(text))
}

/// A text without the white space at its ends.
pub fn trim(text: &str) -> (rest: &str)
    ensures
        rest@ == trimmed(text@),
{
    let chars = chars_of(text);
    let mut start: usize = 0;
    assert(text@.skip(0) =~= text@);
    while start < chars.len() && is_white_space(chars[start])
        invariant
            start <= chars@.len(),
            chars@ == text@,
            trimmed_start(text@) == trimmed_start(text@.skip(start as int)),
        decreases chars.len() - start,
    {
        assert(text@.skip(start as int).drop_first() =~= text@.skip(start + 1));
        start = start + 1;
    }
    let ghost rest = text@.skip(start as int);
    assert(trimmed_start(text@) == rest);
    let mut end: usize = chars.len();
    assert(text@.subrange(start as int, end as int) =~= rest);
    while start < end && is_white_space(chars[end - 1])
        invariant
            start <= end <= chars@.len(),
            chars@ == text@,
            trimmed_end(rest) == trimmed_end(text@.subrange(start as int, end as int)),
        decreases end,
    {
        assert(text@.subrange(start as int, end as int).drop_last() =~= text@.subrange(
            start as int,
            end - 1,
        ));
        end = end - 1;
    }
    text.substring_char(start, end)
}

/// The first position from `from` on at which `wanted` stands.
pub open spec fn first_at(text: Seq<char>, wanted: char, from: int) -> Option<int>
    decreases text.len() - from,
{
    if from < 0 || from >= text.len() {
        None
    } else if text[from] == wanted {
        Some(from)
    } else {
        first_at(text, wanted, from + 1)
    }
}

/// The first position at which `wanted` stands.
pub fn find_char(text: &Vec<char>, wanted: char) -> (position: Option<usize>)
    ensures
        match first_at(text@, wanted, 0) {
            Some(k) => position matches Some(found) && found == k && k < text@.len(),
            None => position is None,
        },
{
    let mut index: usize = 0;
    while index < text.len()
        invariant
            index <= text@.len(),
            first_at(text@, wanted, 0) == first_at(text@, wanted, index as int),
        decreases text.len() - index,
    {
        if text[index] == wanted {
            return Some(index);
        }
        index = index + 1;
    }
    None
}

/// A position that was found holds the character, and none before it does.
pub proof fn lemma_first_at(text: Seq<char>, wanted: char, from: int)
    requires
        0 <= from,
    ensures
        match first_at(text, wanted, from) {
            Some(k) => {
                &&& from <= k < text.len()
                &&& text[k] == wanted
                &&& forall|i: int| from <= i < k ==> #[trigger] text[i] != wanted
            },
            None => forall|i: int| from <= i < text.len() ==> #[trigger] text[i] != wanted,
        },
    decreases text.len() - from,
{
    if from < text.len() && text[from] != wanted {
        lemma_first_at(text, wanted, from + 1);
    }
}

/// The number `number` in decimal writing, with zeros in front up to `width`
/// digits.
pub open spec fn padded_text(number: nat, width: int) -> Seq<char> {
    zeros(width - decimal_text(number).len()) + decimal_text(number)
}

/// So many zeros in writing.
pub open spec fn zeros(count: int) -> Seq<char>
    decreases count,
{
    if count <= 0 {
        Seq::empty()
    } else {
        "0"@ + zeros(count - 1)
    }
}

/// Writes `number` in decimal, with zeros in front up to `width` digits.
pub fn padded(number: u64, width: usize) -> (text: String)
    ensures
        text@ == padded_text(number as nat, width as int),
{
    let digits = decimal(number);
    let mut text = digits.clone();
    let mut len: usize = digits.as_str().unicode_len();
    let ghost mut added: int = 0;
    assert(zeros(0) + digits@ =~= digits@);
    while len < width
        invariant
            digits@ == decimal_text(number as nat),
            0 <= added,
            len == digits@.len() + added,
            added > 0 ==> len <= width,
            text@ == zeros(added) + digits@,
        decreases width - len,
    {
        let ghost before = text@;
        let mut longer = "0".to_string();
        longer.append(text.as_str());
        text = longer;
        proof {
            assert(zeros(added + 1) == "0"@ + zeros(added));
            assert(text@ =~= zeros(added + 1) + digits@);
            added = added + 1;
        }
        len = len + 1;
    }
    proof {
        if added == 0 {
            assert(zeros(width - digits@.len()) =~= Seq::<char>::empty());
            assert(zeros(0) =~= Seq::<char>::empty());
        }
    }
    text
}

/// A text without the white space at its ends is what stands between two runs of white
/// space, and neither begins nor ends with any.
pub proof fn lemma_trimming_takes_white_space_alone(text: Seq<char>) -> (cuts: (int, int))
    ensures
        0 <= cuts.0 <= cuts.1 <= text.len(),
        trimmed(text) == text.subrange(cuts.0, cuts.1),
        forall|i: int| 0 <= i < cuts.0 ==> white_space(#[trigger] text[i]),
        forall|i: int| cuts.1 <= i < text.len() ==> white_space(#[trigger] text[i]),
        trimmed(text).len() > 0 ==> !white_space(trimmed(text)[0]) && !white_space(
            trimmed(text).last(),
        ),
{
    let start = lemma_trimmed_start(text);
    let rest = trimmed_start(text);
    let end = lemma_trimmed_end(rest);
    assert(trimmed(text) =~= text.subrange(start, start + end));
    assert forall|i: int| start + end <= i < text.len() implies white_space(#[trigger] text[i]) by {
        assert(rest[i - start] == text[i]);
    }
    if trimmed(text).len() > 0 {
        assert(trimmed(text)[0] == rest[0]);
    }
    (start, start + end)
}

proof fn lemma_trimmed_start(text: Seq<char>) -> (start: int)
    ensures
        0 <= start <= text.len(),
        trimmed_start(text) == text.skip(start),
        forall|i: int| 0 <= i < start ==> white_space(#[trigger] text[i]),
        trimmed_start(text).len() > 0 ==> !white_space(trimmed_start(text)[0]),
    decreases text.len(),
{
    if text.len() > 0 && white_space(text[0]) {
        let rest = text.drop_first();
        let start = lemma_trimmed_start(rest);
        assert(text.skip(start + 1) =~= rest.skip(start));
        assert forall|i: int| 0 <= i < start + 1 implies white_space(#[trigger] text[i]) by {
            if i > 0 {
                assert(rest[i - 1] == text[i]);
            }
        }
        start + 1
    } else {
        assert(text.skip(0) =~= text);
        0
    }
}

proof fn lemma_trimmed_end(text: Seq<char>) -> (end: int)
    ensures
        0 <= end <= text.len(),
        trimmed_end(text) == text.take(end),
        forall|i: int| end <= i < text.len() ==> white_space(#[trigger] text[i]),
        trimmed_end(text).len() > 0 ==> !white_space(trimmed_end(text).last()),
    decreases text.len(),
{
    if text.len() > 0 && white_space(text.last()) {
        let rest = text.drop_last();
        let end = lemma_trimmed_end(rest);
        assert(text.take(end) =~= rest.take(end));
        assert forall|i: int| end <= i < text.len() implies white_space(#[trigger] text[i]) by {
            if i < rest.len() {
                assert(rest[i] == text[i]);
            }
        }
        end
    } else {
        assert(text.take(text.len() as int) =~= text);
        text.len() as int
    }
}

/// The number that a text of digits writes.
pub open spec fn number_written(text: Seq<char>) -> int
    decreases text.len(),
{
    if text.len() == 0 {
        0
    } else {
        number_written(text.drop_last()) * 10 + (text.last() as int - '0' as int)
    }
}

proof fn lemma_digit_is_written(digit: int)
    requires
        0 <= digit < 10,
    ensures
        digit_text(digit).len() == 1,
        digit_text(digit)[0] as int == '0' as int + digit,
{
    reveal_strlit("0");
    reveal_strlit("1");
    reveal_strlit("2");
    reveal_strlit("3");
    reveal_strlit("4");
    reveal_strlit("5");
    reveal_strlit("6");
    reveal_strlit("7");
    reveal_strlit("8");
    reveal_strlit("9");
}

/// A number in decimal writing is made of digits, is read back as the number, and does not
/// begin with a zero unless it is zero.
pub proof fn lemma_decimals_are_read_back(number: nat)
    ensures
        decimal_text(number).len() > 0,
        forall|i: int|
            0 <= i < decimal_text(number).len() ==> '0' <= #[trigger] decimal_text(number)[i]
                <= '9',
        number_written(decimal_text(number)) == number,
        number > 0 ==> decimal_text(number)[0] != '0',
    decreases number,
{
    let text = decimal_text(number);
    if number < 10 {
        lemma_digit_is_written(number as int);
        assert(text.drop_last() =~= Seq::<char>::empty());
        assert(number_written(text.drop_last()) == 0);
    } else {
        let last = (number % 10) as int;
        lemma_decimals_are_read_back(number / 10);
        lemma_digit_is_written(last);
        assert(text.drop_last() =~= decimal_text(number / 10));
        assert forall|i: int| 0 <= i < text.len() implies '0' <= #[trigger] text[i] <= '9' by {
            if i < text.len() - 1 {
                assert(text[i] == decimal_text(number / 10)[i]);
            }
        }
        assert(text[0] == decimal_text(number / 10)[0]);
    }
}

proof fn lemma_zeros(count: int)
    ensures
        zeros(count).len() == if count <= 0 {
            0
        } else {
            count
        },
        forall|i: int| 0 <= i < zeros(count).len() ==> #[trigger] zeros(count)[i] == '0',
    decreases count,
{
    reveal_strlit("0");
    if count > 0 {
        lemma_zeros(count - 1);
    }
}

/// A number is padded with zeros in front, just so many that it has the width asked for. A
/// number that is longer stays as it is.
pub proof fn lemma_padding_fills_the_width(number: nat, width: int)
    ensures
        ({
            let text = padded_text(number, width);
            let digits = decimal_text(number);
            &&& text.len() == if digits.len() < width {
                width
            } else {
                digits.len() as int
            }
            &&& text.skip(text.len() - digits.len()) == digits
            &&& forall|i: int| 0 <= i < text.len() - digits.len() ==> #[trigger] text[i] == '0'
        }),
{
    lemma_zeros(width - decimal_text(number).len());
    let text = padded_text(number, width);
    let digits = decimal_text(number);
    assert(text.skip(text.len() - digits.len()) =~= digits);
}

} // verus!
