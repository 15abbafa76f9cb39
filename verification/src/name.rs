//! How a segment file is named after its base offset, and how a name is
//! read back.
//!
//! A segment file is called by its base offset in decimal, filled with
//! zeros on the left to eight digits, then a dot and the extension. Reading
//! a name takes the extension off where it is there, then an optional plus
//! sign and decimal digits that fit a `u64`.

use vstd::prelude::*;
use vstd::string::is_ascii_spec_bytes;
use vstd::utf8::is_ascii_chars;

verus! {

/// Extension of a segment file.
pub const FILE_EXTENSION: &'static str = "segment";

/// Number of digits to which a base offset is filled.
pub const NAME_WIDTH: usize = 8;

/// The character for a decimal digit.
pub open spec fn digit_char(digit: nat) -> char
    recommends
        digit < 10,
{
    if digit == 0 {
        '0'
    } else if digit == 1 {
        '1'
    } else if digit == 2 {
        '2'
    } else if digit == 3 {
        '3'
    } else if digit == 4 {
        '4'
    } else if digit == 5 {
        '5'
    } else if digit == 6 {
        '6'
    } else if digit == 7 {
        '7'
    } else if digit == 8 {
        '8'
    } else {
        '9'
    }
}

/// The decimal digit that a character stands for, if it stands for one.
pub open spec fn digit_value(c: char) -> Option<nat> {
    if '0' <= c <= '9' {
        Some((c as nat - '0' as nat) as nat)
    } else {
        None
    }
}

/// The decimal digits of `n`, without leading zeros.
pub open spec fn decimal(n: nat) -> Seq<char>
    decreases n,
{
    if n < 10 {
        seq![digit_char(n)]
    } else {
        decimal(n / 10).push(digit_char(n % 10))
    }
}

/// The decimal digits of `n`, filled with zeros on the left to `width`.
pub open spec fn zero_padded(n: nat, width: nat) -> Seq<char> {
    let digits = decimal(n);
    if digits.len() < width {
        Seq::new((width - digits.len()) as nat, |i: int| '0') + digits
    } else {
        digits
    }
}

/// The dot and the extension that end the name of a segment file.
pub open spec fn extension_suffix() -> Seq<char> {
    seq!['.', 's', 'e', 'g', 'm', 'e', 'n', 't']
}

/// The name of the segment file with this base offset.
pub open spec fn segment_name(base_offset: u64) -> Seq<char> {
    zero_padded(base_offset as nat, NAME_WIDTH as nat) + extension_suffix()
}

/// The number that a run of decimal digits stands for; `None` where a
/// character is no digit. The empty run stands for zero.
pub open spec fn digits_value(digits: Seq<char>) -> Option<nat>
    decreases digits.len(),
{
    if digits.len() == 0 {
        Some(0)
    } else {
        match (digits_value(digits.drop_last()), digit_value(digits.last())) {
            (Some(high), Some(low)) => Some(high * 10 + low),
            _ => None,
        }
    }
}

/// What is left of `text` when a plus sign at its start is taken off.
pub open spec fn unsigned_part(text: Seq<char>) -> Seq<char> {
    if text.len() > 0 && text[0] == '+' {
        text.skip(1)
    } else {
        text
    }
}

/// The number that `text` stands for: an optional plus sign, then at least
/// one decimal digit, with a value that fits a `u64`.
pub open spec fn number_value(text: Seq<char>) -> Option<u64> {
    let digits = unsigned_part(text);
    match digits_value(digits) {
        Some(value) => if digits.len() > 0 && value <= u64::MAX {
            Some(value as u64)
        } else {
            None
        },
        None => None,
    }
}

/// Whether `name` ends with the dot and the extension.
pub open spec fn has_extension(name: Seq<char>) -> bool {
    name.len() >= extension_suffix().len() && name.skip(name.len() - extension_suffix().len())
        =~= extension_suffix()
}

/// The name without the dot and the extension, where it ends with them.
pub open spec fn name_stem(name: Seq<char>) -> Seq<char> {
    if has_extension(name) {
        name.take(name.len() - extension_suffix().len())
    } else {
        name
    }
}

/// The base offset that a file name stands for, if it stands for one.
pub open spec fn name_offset(name: Seq<char>) -> Option<u64> {
    number_value(name_stem(name))
}

/// The digits of a number stand for that number.
pub proof fn lemma_decimal_value(n: nat)
    ensures
        decimal(n).len() > 0,
        digits_value(decimal(n)) == Some(n),
    decreases n,
{
    if n < 10 {
        let digits = decimal(n);
        assert(digits.drop_last() =~= Seq::<char>::empty());
        assert(digits_value(digits.drop_last()) == Some(0nat));
        assert(digit_value(digits.last()) == Some(n));
    } else {
        lemma_decimal_value(n / 10);
        let digits = decimal(n);
        assert(digits.drop_last() =~= decimal(n / 10));
        assert(digit_value(digits.last()) == Some(n % 10));
    }
}

/// Zeros on the left change no value.
pub proof fn lemma_leading_zeros(count: nat, digits: Seq<char>)
    ensures
        digits_value(Seq::new(count, |i: int| '0') + digits) == digits_value(digits),
    decreases digits.len(),
{
    let zeros = Seq::new(count, |i: int| '0');
    if digits.len() == 0 {
        assert(zeros + digits =~= zeros);
        lemma_zeros_value(count);
    } else {
        lemma_leading_zeros(count, digits.drop_last());
        assert((zeros + digits).drop_last() =~= zeros + digits.drop_last());
        assert((zeros + digits).last() == digits.last());
    }
}

/// A run of zeros stands for zero.
proof fn lemma_zeros_value(count: nat)
    ensures
        digits_value(Seq::new(count, |i: int| '0')) == Some(0nat),
    decreases count,
{
    let zeros = Seq::new(count, |i: int| '0');
    if count > 0 {
        lemma_zeros_value((count - 1) as nat);
        assert(zeros.drop_last() =~= Seq::new((count - 1) as nat, |i: int| '0'));
        assert(digit_value(zeros.last()) == Some(0nat));
    }
}

/// Reading the name of a segment file gives back the base offset that the
/// name was made from.
pub proof fn lemma_name_round_trip(base_offset: u64)
    ensures
        name_offset(segment_name(base_offset)) == Some(base_offset),
{
    let n = base_offset as nat;
    let padded = zero_padded(n, NAME_WIDTH as nat);
    let name = segment_name(base_offset);
    lemma_decimal_value(n);
    assert(name.skip(name.len() - extension_suffix().len()) =~= extension_suffix());
    assert(name.take(name.len() - extension_suffix().len()) =~= padded);
    assert(name_stem(name) == padded);
    let digits = decimal(n);
    if digits.len() < NAME_WIDTH {
        lemma_leading_zeros((NAME_WIDTH - digits.len()) as nat, digits);
        assert(padded[0] == '0');
    } else {
        lemma_decimal_first(n);
    }
    assert(padded[0] != '+');
}

/// A number starts with a digit.
proof fn lemma_decimal_first(n: nat)
    ensures
        digit_value(decimal(n)[0]) is Some,
    decreases n,
{
    if n >= 10 {
        lemma_decimal_first(n / 10);
        lemma_decimal_value(n / 10);
    }
}

/// A run that holds a character that is no digit stands for no number.
pub proof fn lemma_digits_value_none(digits: Seq<char>, index: int)
    requires
        0 <= index < digits.len(),
        digit_value(digits[index]) is None,
    ensures
        digits_value(digits) is None,
    decreases digits.len(),
{
    if index < digits.len() - 1 {
        lemma_digits_value_none(digits.drop_last(), index);
    }
}

/// The first digits of a number stand for a number that is not larger.
pub proof fn lemma_digits_value_prefix(digits: Seq<char>, count: int)
    requires
        0 <= count <= digits.len(),
        digits_value(digits) is Some,
    ensures
        digits_value(digits.take(count)) is Some,
        digits_value(digits.take(count))->Some_0 <= digits_value(digits)->Some_0,
    decreases digits.len(),
{
    if count == digits.len() {
        assert(digits.take(count) =~= digits);
    } else {
        lemma_digits_value_prefix(digits.drop_last(), count);
        assert(digits.drop_last().take(count) =~= digits.take(count));
    }
}

/// A name that stands for a base offset is made of ASCII characters.
pub proof fn lemma_name_offset_ascii(name: Seq<char>)
    requires
        name_offset(name) is Some,
    ensures
        is_ascii_chars(name),
{
    let stem = name_stem(name);
    let digits = unsigned_part(stem);
    assert forall|i: int| 0 <= i < name.len() implies '\0' <= #[trigger] name[i] <= '\u{7f}' by {
        if i >= stem.len() {
            let suffix = name.skip(name.len() - extension_suffix().len());
            assert(name[i] == suffix[i - stem.len()]);
        } else {
            let shift = stem.len() - digits.len();
            if i >= shift {
                if digit_value(digits[i - shift]) is None {
                    lemma_digits_value_none(digits, i - shift);
                }
            }
        }
    }
}

/// The text of one decimal digit.
fn digit_text(digit: u64) -> (text: &'static str)
    requires
        digit < 10,
    ensures
        text@ == seq![digit_char(digit as nat)],
{
    proof {
        reveal_strlit("0");
        reveal_strlit("1");
        reveal_strlit("2");
        reveal_strlit("3");
        reveal_strlit("4");
        reveal_strlit("5");
        reveal_strlit("6");
        reveal_strlit("7");
        reveal_strlit("8");
        reveal_strlit("9");
    }
    let text = if digit == 0 {
        "0"
    } else if digit == 1 {
        "1"
    } else if digit == 2 {
        "2"
    } else if digit == 3 {
        "3"
    } else if digit == 4 {
        "4"
    } else if digit == 5 {
        "5"
    } else if digit == 6 {
        "6"
    } else if digit == 7 {
        "7"
    } else if digit == 8 {
        "8"
    } else {
        "9"
    };
    assert(text@ =~= seq![digit_char(digit as nat)]);
    text
}

/// Number of decimal digits of `n`.
fn decimal_width(n: u64) -> (width: u64)
    ensures
        width == decimal(n as nat).len(),
        width <= n / 10 + 1,
    decreases n,
{
    if n < 10 {
        1
    } else {
        decimal_width(n / 10) + 1
    }
}

/// Appends the decimal digits of `n` to `text`.
fn push_decimal(text: &mut String, n: u64)
    ensures
        final(text)@ == old(text)@ + decimal(n as nat),
    decreases n,
{
    if n >= 10 {
        push_decimal(text, n / 10);
    }
    text.append(digit_text(n % 10));
    assert(text@ =~= old(text)@ + decimal(n as nat));
}

/// The name of the segment file with this base offset.
pub fn file_name(base_offset: u64) -> (name: String)
    ensures
        name@ == segment_name(base_offset),
{
    let width = decimal_width(base_offset);
    let mut name = String::new();
    let mut filled: u64 = width;
    while filled < NAME_WIDTH as u64
        invariant
            width <= filled,
            filled <= NAME_WIDTH || filled == width,
            name@ =~= Seq::new((filled - width) as nat, |i: int| '0'),
        decreases NAME_WIDTH - filled,
    {
        proof {
            reveal_strlit("0");
        }
        name.append("0");
        filled = filled + 1;
    }
    push_decimal(&mut name, base_offset);
    proof {
        reveal_strlit(".");
        reveal_strlit("segment");
    }
    name.append(".");
    name.append(FILE_EXTENSION);
    assert(name@ =~= segment_name(base_offset));
    name
}

/// Whether the bytes of an ASCII name end with the dot and the extension.
fn ends_with_extension(bytes: &[u8], Ghost(name): Ghost<Seq<char>>) -> (found: bool)
    requires
        is_ascii_chars(name),
        bytes@ =~= Seq::new(name.len(), |i: int| name[i] as u8),
    ensures
        found == has_extension(name),
{
    let length = bytes.len();
    if length < 8 {
        return false;
    }
    let start = length - 8;
    let found = bytes[start] == '.' as u8 && bytes[start + 1] == 's' as u8 && bytes[start + 2] == 'e' as u8
        && bytes[start + 3] == 'g' as u8 && bytes[start + 4] == 'm' as u8 && bytes[start + 5] == 'e' as u8
        && bytes[start + 6] == 'n' as u8 && bytes[start + 7] == 't' as u8;
    proof {
        let tail = name.skip(name.len() - 8);
        assert(tail[0] == name[start + 0] && bytes@[start + 0] == name[start + 0] as u8);
        assert(tail[1] == name[start + 1] && bytes@[start + 1] == name[start + 1] as u8);
        assert(tail[2] == name[start + 2] && bytes@[start + 2] == name[start + 2] as u8);
        assert(tail[3] == name[start + 3] && bytes@[start + 3] == name[start + 3] as u8);
        assert(tail[4] == name[start + 4] && bytes@[start + 4] == name[start + 4] as u8);
        assert(tail[5] == name[start + 5] && bytes@[start + 5] == name[start + 5] as u8);
        assert(tail[6] == name[start + 6] && bytes@[start + 6] == name[start + 6] as u8);
        assert(tail[7] == name[start + 7] && bytes@[start + 7] == name[start + 7] as u8);
        if found {
            assert(tail =~= extension_suffix());
        }
    }
    found
}

/// Reads the base offset out of the name of a segment file.
pub fn parse_file_name(name: &str) -> (result: Option<u64>)
    ensures
        result == name_offset(name@),
{
    if !name.is_ascii() {
        proof {
            if name_offset(name@) is Some {
                lemma_name_offset_ascii(name@);
            }
        }
        return None;
    }
    let bytes = name.as_bytes();
    proof {
        is_ascii_spec_bytes(name);
    }
    let end = if ends_with_extension(bytes, Ghost(name@)) {
        bytes.len() - 8
    } else {
        bytes.len()
    };
    let start: usize = if end > 0 && bytes[0] == '+' as u8 {
        1
    } else {
        0
    };
    let ghost stem = name_stem(name@);
    let ghost digits = unsigned_part(stem);
    assert(stem =~= name@.take(end as int));
    assert(start == 1 <==> (stem.len() > 0 && stem[0] == '+'));
    assert(digits =~= stem.skip(start as int));
    if start == end {
        return None;
    }
    let mut value: u64 = 0;
    let mut index = start;
    while index < end
        invariant
            start <= index <= end <= bytes@.len(),
            is_ascii_chars(name@),
            bytes@ =~= Seq::new(name@.len(), |i: int| name@[i] as u8),
            stem == name_stem(name@),
            stem =~= name@.take(end as int),
            start < end,
            start == 1 || start == 0,
            digits == unsigned_part(stem),
            digits =~= stem.skip(start as int),
            digits_value(digits.take(index - start)) == Some(value as nat),
        decreases end - index,
    {
        let byte = bytes[index];
        let ghost c = digits[index - start];
        assert(c == name@[index as int]);
        assert(byte == c as u8);
        if byte < ('0' as u8) || byte > ('9' as u8) {
            proof {
                lemma_digits_value_none(digits, index - start);
            }
            return None;
        }
        let digit = (byte - ('0' as u8)) as u64;
        assert(digit_value(c) == Some(digit as nat));
        let ghost longer = digits.take(index - start + 1);
        assert(longer.drop_last() =~= digits.take(index - start));
        assert(longer.last() == c);
        assert(digits_value(longer) == Some((value * 10 + digit) as nat));
        if value > (u64::MAX - digit) / 10 {
            proof {
                if digits_value(digits) is Some {
                    lemma_digits_value_prefix(digits, index - start + 1);
                }
            }
            return None;
        }
        value = value * 10 + digit;
        index = index + 1;
    }
    assert(digits.take(index - start) =~= digits);
    Some(value)
}

} // verus!
