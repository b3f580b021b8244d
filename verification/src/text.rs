//! Text: numbers in decimal, hexadecimal digits, prefixes and suffixes.
use vstd::prelude::*;
use vstd::utf8::*;

verus! {

/// `String::push`: the character goes behind those that are there.
pub assume_specification[ std::string::String::push ](string: &mut String, c: char)
    ensures
        final(string)@ == old(string)@.push(c),
;

/// The sixteen digits, the ten decimal ones first.
pub open spec fn digits() -> Seq<char> {
    seq!['0', '1', '2', '3', '4', '5', '6', '7', '8', '9', 'a', 'b', 'c', 'd', 'e', 'f']
}

/// A number in decimal, without leading zeros.
pub open spec fn decimal_text(n: nat) -> Seq<char>
    decreases n,
{
    if n < 10 {
        seq![digits()[n as int]]
    } else {
        decimal_text(n / 10).push(digits()[(n % 10) as int])
    }
}

/// Whether a character is one of `0` to `9`.
pub open spec fn is_decimal_digit(c: char) -> bool {
    '0' <= c <= '9'
}

/// The number that a row of decimal digits writes.
pub open spec fn decimal_value(text: Seq<char>) -> int
    decreases text.len(),
{
    if text.len() == 0 {
        0
    } else {
        decimal_value(text.drop_last()) * 10 + (text.last() as int - '0' as int)
    }
}

/// How many bytes a text takes in UTF-8.
pub open spec fn utf8_len(text: Seq<char>) -> nat {
    encode_utf8(text).len()
}

pub open spec fn has_suffix(text: Seq<char>, suffix: Seq<char>) -> bool {
    text.len() >= suffix.len() && text.subrange(text.len() - suffix.len(), text.len() as int)
        == suffix
}

pub open spec fn has_prefix(text: Seq<char>, prefix: Seq<char>) -> bool {
    text.len() >= prefix.len() && text.subrange(0, prefix.len() as int) == prefix
}

/// The text in front of a suffix that it has.
pub open spec fn without_suffix(text: Seq<char>, suffix: Seq<char>) -> Seq<char> {
    text.subrange(0, text.len() - suffix.len())
}

/// A number written in decimal is a row of digits, and is the number that they write.
pub proof fn decimal_text_is_digits(n: nat)
    ensures
        decimal_text(n).len() > 0,
        forall|i: int| 0 <= i < decimal_text(n).len() ==> is_decimal_digit(#[trigger] decimal_text(n)[i]),
        decimal_value(decimal_text(n)) == n,
    decreases n,
{
    if n < 10 {
        assert(decimal_text(n).drop_last() =~= Seq::empty());
        assert(decimal_value(Seq::<char>::empty()) == 0);
        assert(digits()[n as int] as int - '0' as int == n);
    } else {
        decimal_text_is_digits(n / 10);
        assert(decimal_text(n).drop_last() =~= decimal_text(n / 10));
        let d = n % 10;
        assert(digits()[d as int] as int - '0' as int == d);
    }
}

/// Two numbers written alike are one number.
pub proof fn decimal_text_is_injective(n: nat, m: nat)
    ensures
        decimal_text(n) == decimal_text(m) ==> n == m,
{
    decimal_text_is_digits(n);
    decimal_text_is_digits(m);
}

/// The digit for a value below sixteen.
pub fn digit(value: u8) -> (c: char)
    requires
        value < 16,
    ensures
        c == digits()[value as int],
{
    match value {
        0 => '0',
        1 => '1',
        2 => '2',
        3 => '3',
        4 => '4',
        5 => '5',
        6 => '6',
        7 => '7',
        8 => '8',
        9 => '9',
        10 => 'a',
        11 => 'b',
        12 => 'c',
        13 => 'd',
        14 => 'e',
        _ => 'f',
    }
}

pub fn decimal(n: u64) -> (text: String)
    ensures
        text@ == decimal_text(n as nat),
    decreases n,
{
    let mut text = if n < 10 {
        String::new()
    } else {
        decimal(n / 10)
    };
    text.push(digit((n % 10) as u8));
    proof {
        if n < 10 {
            assert(text@ =~= decimal_text(n as nat));
        }
    }
    text
}

pub fn same_text(a: &str, b: &str) -> (same: bool)
    ensures
        same == (a@ == b@),
{
    let a = a.to_owned();
    let b = b.to_owned();
    a == b
}

/// How many bytes a text takes.
pub fn byte_len(text: &str) -> (len: usize)
    ensures
        len == utf8_len(text@),
{
    text.as_bytes().len()
}

pub fn strip_suffix<'a>(text: &'a str, suffix: &str) -> (stem: Option<&'a str>)
    ensures
        stem is Some <==> has_suffix(text@, suffix@),
        stem is Some ==> stem->0@ == without_suffix(text@, suffix@),
{
    let len: usize = text.unicode_len();
    let suffix_len: usize = suffix.unicode_len();
    if len < suffix_len {
        return None;
    }
    if same_text(text.substring_char(len - suffix_len, len), suffix) {
        Some(text.substring_char(0, len - suffix_len))
    } else {
        None
    }
}

pub fn starts_with(text: &str, prefix: &str) -> (found: bool)
    ensures
        found == has_prefix(text@, prefix@),
{
    let len: usize = text.unicode_len();
    let prefix_len: usize = prefix.unicode_len();
    len >= prefix_len && same_text(text.substring_char(0, prefix_len), prefix)
}

pub fn join2(a: &str, b: &str) -> (text: String)
    ensures
        text@ == a@ + b@,
{
    let mut text = a.to_owned();
    text.append(b);
    text
}

pub fn join3(a: &str, b: &str, c: &str) -> (text: String)
    ensures
        text@ == a@ + b@ + c@,
{
    let mut text = a.to_owned();
    text.append(b);
    text.append(c);
    text
}

pub fn join4(a: &str, b: &str, c: &str, d: &str) -> (text: String)
    ensures
        text@ == a@ + b@ + c@ + d@,
{
    let mut text = join3(a, b, c);
    text.append(d);
    text
}

/// The digits are those of ASCII: `0` to `9`, and then `a` to `f`.
pub proof fn digits_in_order(value: u8)
    requires
        value < 16,
    ensures
        digits()[value as int] == if value < 10 {
            (48 + value) as char
        } else {
            (87 + value) as char
        },
{
    assert(digits()[value as int] as u32 == if value < 10 {
        48 + value
    } else {
        87 + value
    });
}

/// A number below ten is its digit; ten times a number and a digit is the number, and behind it the
/// digit.
pub proof fn decimal_text_by_digits(rest: nat, low: u8)
    requires
        low < 10,
    ensures
        decimal_text(low as nat) == seq![(48 + low) as char],
        rest > 0 ==> decimal_text(10 * rest + low as nat) == decimal_text(rest).push(
            (48 + low) as char,
        ),
{
    digits_in_order(low);
    let n = 10 * rest + low as nat;
    assert(n % 10 == low && n / 10 == rest);
}

/// A prefix is what a text starts with, whatever follows.
pub proof fn prefix_is_the_front(text: Seq<char>, prefix: Seq<char>)
    ensures
        has_prefix(text, prefix) <==> exists|rest: Seq<char>| text == #[trigger] (prefix + rest),
{
    if has_prefix(text, prefix) {
        assert(text =~= prefix + text.skip(prefix.len() as int));
    }
    assert forall|rest: Seq<char>| text == #[trigger] (prefix + rest) implies has_prefix(
        text,
        prefix,
    ) by {
        assert(text.subrange(0, prefix.len() as int) =~= prefix);
    }
}

/// A suffix is what a text ends with, and taking it away leaves what stands in front of it.
pub proof fn suffix_is_the_back(text: Seq<char>, suffix: Seq<char>)
    ensures
        has_suffix(text, suffix) <==> exists|stem: Seq<char>| text == #[trigger] (stem + suffix),
        has_suffix(text, suffix) ==> text == without_suffix(text, suffix) + suffix,
{
    if has_suffix(text, suffix) {
        assert(text =~= without_suffix(text, suffix) + suffix);
    }
    assert forall|stem: Seq<char>| text == #[trigger] (stem + suffix) implies has_suffix(
        text,
        suffix,
    ) by {
        assert(text.subrange(text.len() - suffix.len(), text.len() as int) =~= suffix);
    }
}

} // verus!
