//! The ways in which a colour is written, and that each is read as that colour.

use crate::color::{
    channel_value, channels_start, char_bytes, color_readable, hex_color, hex_cuttable,
    lemma_ascii_bytes, pair_value, read_color, text_bytes, unquoted,
};
use crate::text::{
    bounded_value, decimal, digit_value, digits_value, hex_char, is_white, lemma_decimal_read,
    lemma_not_split, lemma_split_joined, lemma_trimmed, Kind,
};
use vstd::prelude::*;

verus! {

/// Whether a text holds hexadecimal digits only.
pub open spec fn hex_digits(s: Seq<char>) -> bool {
    forall|i: int| 0 <= i < s.len() ==> digit_value(#[trigger] s[i], 16) is Some
}

/// The value of a hexadecimal digit.
pub open spec fn hex_value(c: char) -> nat {
    digit_value(c, 16)->0
}

/// The value of two hexadecimal digits.
pub open spec fn hex_byte(high: char, low: char) -> u8 {
    (16 * hex_value(high) + hex_value(low)) as u8
}

/// Two hexadecimal digits are read as the number they write.
proof fn lemma_pair_read(s: Seq<char>, i: int)
    requires
        0 <= i,
        i + 2 <= s.len(),
        digit_value(s[i], 16) is Some,
        digit_value(s[i + 1], 16) is Some,
    ensures
        char_bytes(s[i]) == 1,
        char_bytes(s[i + 1]) == 1,
        pair_value(s, i) == Some(16 * hex_value(s[i]) + hex_value(s[i + 1])),
        16 * hex_value(s[i]) + hex_value(s[i + 1]) <= 255,
{
    reveal(bounded_value);
    let pair = s.subrange(i, i + 2);
    let first = pair.drop_last();
    assert(pair[0] == s[i]);
    assert(pair.last() == s[i + 1]);
    assert(first.last() == s[i]);
    assert(digits_value(first, 16) == Some(0 * 16 + hex_value(s[i])));
    assert(digits_value(pair, 16) == Some(hex_value(s[i]) * 16 + hex_value(s[i + 1])));
}

proof fn lemma_digits_bytes(s: Seq<char>)
    requires
        hex_digits(s),
    ensures
        text_bytes(s) == s.len(),
{
    assert forall|i: int| 0 <= i < s.len() implies char_bytes(#[trigger] s[i]) == 1 by {
        assert(digit_value(s[i], 16) is Some);
    }
    lemma_ascii_bytes(s);
}

/// Six or eight hexadecimal digits write a colour, two to a channel; the last two of eight
/// are ignored.
proof fn lemma_long_read(s: Seq<char>)
    requires
        hex_digits(s),
        s.len() == 6 || s.len() == 8,
    ensures
        hex_cuttable(s),
        hex_color(s) == Some(
            seq![hex_byte(s[0], s[1]), hex_byte(s[2], s[3]), hex_byte(s[4], s[5])],
        ),
{
    lemma_digits_bytes(s);
    lemma_pair_read(s, 0);
    lemma_pair_read(s, 2);
    lemma_pair_read(s, 4);
}

/// Hexadecimal digits write a colour if and only if there are three, four, six or eight of
/// them. Three write what each of them twice writes, and what follows the third of four or
/// the sixth of eight is ignored.
pub proof fn lemma_hex_color(s: Seq<char>)
    requires
        hex_digits(s),
    ensures
        hex_cuttable(s),
        hex_color(s) is Some <==> s.len() == 3 || s.len() == 4 || s.len() == 6 || s.len() == 8,
        s.len() == 3 || s.len() == 4 ==> hex_color(s) == hex_color(
            seq![s[0], s[0], s[1], s[1], s[2], s[2]],
        ),
        s.len() == 6 || s.len() == 8 ==> hex_color(s) == Some(
            seq![hex_byte(s[0], s[1]), hex_byte(s[2], s[3]), hex_byte(s[4], s[5])],
        ),
        s.len() == 4 ==> hex_color(s) == hex_color(s.take(3)),
        s.len() == 8 ==> hex_color(s) == hex_color(s.take(6)),
{
    lemma_digits_bytes(s);
    if s.len() == 6 || s.len() == 8 {
        lemma_long_read(s);
        if s.len() == 8 {
            lemma_long_read(s.take(6));
        }
    } else if s.len() == 3 || s.len() == 4 {
        let long = seq![s[0], s[0], s[1], s[1], s[2], s[2]];
        assert(digit_value(s[0], 16) is Some);
        assert(digit_value(s[1], 16) is Some);
        assert(digit_value(s[2], 16) is Some);
        lemma_long_read(long);
        assert(hex_color(s) == Some(
            seq![hex_byte(s[0], s[0]), hex_byte(s[1], s[1]), hex_byte(s[2], s[2])],
        ));
        if s.len() == 4 {
            let short = s.take(3);
            assert forall|i: int| 0 <= i < short.len() implies digit_value(
                #[trigger] short[i],
                16,
            ) is Some by {
                assert(short[i] == s[i]);
            }
            lemma_digits_bytes(short);
        }
    }
}

/// Whether a text neither starts nor ends with white space or a quote.
spec fn bare(s: Seq<char>) -> bool {
    &&& s.len() > 0
    &&& !is_white(s[0]) && s[0] != '"' && s[0] != '\''
    &&& !is_white(s.last()) && s.last() != '"' && s.last() != '\''
}

/// A text in quotes, if any, with something before and after them.
pub open spec fn wrapped(before: Seq<char>, form: Seq<char>, after: Seq<char>, quote: Option<char>) -> Seq<
    char,
> {
    match quote {
        None => before + form + after,
        Some(q) => before + (seq![q] + form + seq![q]) + after,
    }
}

/// Whether what stands around a text is white space, and its quotes are quotes.
pub open spec fn blank_around(before: Seq<char>, after: Seq<char>, quote: Option<char>) -> bool {
    &&& forall|i: int| 0 <= i < before.len() ==> is_white(#[trigger] before[i])
    &&& forall|i: int| 0 <= i < after.len() ==> is_white(#[trigger] after[i])
    &&& quote matches Some(q) ==> q == '"' || q == '\''
}

/// What is left without white space and quotes is what they stand around.
proof fn lemma_unwrapped(before: Seq<char>, form: Seq<char>, after: Seq<char>, quote: Option<char>)
    requires
        bare(form),
        blank_around(before, after, quote),
    ensures
        unquoted(wrapped(before, form, after, quote)) == form,
{
    let none = Seq::<char>::empty();
    assert(none + form + none =~= form);
    lemma_trimmed(none, form, none, Kind::Only('\''));
    lemma_trimmed(none, form, none, Kind::Only('"'));
    match quote {
        None => {
            lemma_trimmed(before, form, after, Kind::White);
        },
        Some(q) => {
            let quoted = seq![q] + form + seq![q];
            assert(quoted[0] == q);
            assert(quoted.last() == q);
            lemma_trimmed(before, quoted, after, Kind::White);
            lemma_trimmed(seq![q], form, seq![q], Kind::Only(q));
            if q == '\'' {
                assert(none + quoted + none =~= quoted);
                lemma_trimmed(none, quoted, none, Kind::Only('"'));
            }
        },
    }
}

/// A hash and hexadecimal digits are read as the colour that the digits write, in white space
/// or quotes or neither.
pub proof fn lemma_hash_read(
    before: Seq<char>,
    digits: Seq<char>,
    after: Seq<char>,
    quote: Option<char>,
)
    requires
        hex_digits(digits),
        blank_around(before, after, quote),
    ensures
        color_readable(wrapped(before, seq!['#'] + digits, after, quote)),
        read_color(wrapped(before, seq!['#'] + digits, after, quote)) == hex_color(digits),
{
    let form = seq!['#'] + digits;
    if digits.len() > 0 {
        assert(form.last() == digits[digits.len() - 1]);
        assert(digit_value(form.last(), 16) is Some);
    }
    lemma_unwrapped(before, form, after, quote);
    assert(form.drop_first() =~= digits);
    lemma_hex_color(digits);
    reveal(read_color);
}

/// The character of a hexadecimal digit, in upper or lower case.
pub open spec fn hex_letter(n: nat, upper: bool) -> char {
    if upper && n >= 10 {
        ('A' as int + n - 10) as char
    } else {
        hex_char(n)
    }
}

/// A byte in two hexadecimal digits.
pub open spec fn hex_form(n: u8, upper: bool) -> Seq<char> {
    seq![hex_letter((n / 16) as nat, upper), hex_letter((n % 16) as nat, upper)]
}

/// A colour as a hash and two hexadecimal digits to a channel.
pub open spec fn hash_form(r: u8, g: u8, b: u8, upper: bool) -> Seq<char> {
    seq!['#'] + (hex_form(r, upper) + hex_form(g, upper) + hex_form(b, upper))
}

/// A colour with its opacity as a hash and two hexadecimal digits to a channel.
pub open spec fn alpha_form(r: u8, g: u8, b: u8, a: u8, upper: bool) -> Seq<char> {
    seq!['#'] + (hex_form(r, upper) + hex_form(g, upper) + hex_form(b, upper) + hex_form(a, upper))
}

/// A colour as its channels in decimal digits.
pub open spec fn channels_form(r: u8, g: u8, b: u8) -> Seq<char> {
    channels_start() + (decimal(r as nat) + seq![','] + (seq![' '] + decimal(g as nat) + seq![',']
        + (seq![' '] + decimal(b as nat)))) + seq![')']
}

proof fn lemma_hex_form(n: u8, upper: bool)
    ensures
        hex_digits(hex_form(n, upper)),
        hex_byte(hex_form(n, upper)[0], hex_form(n, upper)[1]) == n,
{
    let high = (n / 16) as nat;
    let low = (n % 16) as nat;
    assert(high < 16 && low < 16 && 16 * high + low == n);
    assert(digit_value(hex_letter(high, upper), 16) == Some(high));
    assert(digit_value(hex_letter(low, upper), 16) == Some(low));
}

/// A colour written in hexadecimal digits is read as that colour, in upper or lower case, with
/// or without an opacity, in white space or quotes or neither.
pub proof fn lemma_hash_form_read(
    before: Seq<char>,
    after: Seq<char>,
    quote: Option<char>,
    r: u8,
    g: u8,
    b: u8,
    a: u8,
    upper: bool,
)
    requires
        blank_around(before, after, quote),
    ensures
        color_readable(wrapped(before, hash_form(r, g, b, upper), after, quote)),
        color_readable(wrapped(before, alpha_form(r, g, b, a, upper), after, quote)),
        read_color(wrapped(before, hash_form(r, g, b, upper), after, quote)) == Some(
            seq![r, g, b],
        ),
        read_color(wrapped(before, alpha_form(r, g, b, a, upper), after, quote)) == Some(
            seq![r, g, b],
        ),
{
    let six = hex_form(r, upper) + hex_form(g, upper) + hex_form(b, upper);
    let eight = six + hex_form(a, upper);
    lemma_hex_form(r, upper);
    lemma_hex_form(g, upper);
    lemma_hex_form(b, upper);
    lemma_hex_form(a, upper);
    assert(six =~= seq![
        hex_form(r, upper)[0],
        hex_form(r, upper)[1],
        hex_form(g, upper)[0],
        hex_form(g, upper)[1],
        hex_form(b, upper)[0],
        hex_form(b, upper)[1],
    ]);
    assert(eight =~= six.push(hex_form(a, upper)[0]).push(hex_form(a, upper)[1]));
    lemma_hash_read(before, six, after, quote);
    lemma_hash_read(before, eight, after, quote);
    lemma_hex_color(six);
    lemma_hex_color(eight);
}

/// A channel in decimal digits is read as its value, with or without a blank before it.
proof fn lemma_channel_read(n: u8, blank: Seq<char>)
    requires
        blank == Seq::<char>::empty() || blank == seq![' '],
    ensures
        channel_value(blank + decimal(n as nat)) == Some(n as nat),
        forall|i: int|
            0 <= i < (blank + decimal(n as nat)).len() ==> (blank + decimal(n as nat))[i] != ',',
{
    reveal(bounded_value);
    let digits = decimal(n as nat);
    lemma_decimal_read(n as nat);
    assert('0' <= digits[0] <= '9');
    assert('0' <= digits[digits.len() - 1] <= '9');
    let none = Seq::<char>::empty();
    assert(blank + digits + none =~= blank + digits);
    lemma_trimmed(blank, digits, none, Kind::White);
    assert forall|i: int| 0 <= i < (blank + digits).len() implies (blank + digits)[i] != ',' by {
        if i >= blank.len() {
            assert((blank + digits)[i] == digits[i - blank.len()]);
        }
    }
}

/// A colour written as its channels is read as that colour, in white space or quotes or
/// neither.
pub proof fn lemma_channels_form_read(
    before: Seq<char>,
    after: Seq<char>,
    quote: Option<char>,
    r: u8,
    g: u8,
    b: u8,
)
    requires
        blank_around(before, after, quote),
    ensures
        color_readable(wrapped(before, channels_form(r, g, b), after, quote)),
        read_color(wrapped(before, channels_form(r, g, b), after, quote)) == Some(seq![r, g, b]),
{
    let form = channels_form(r, g, b);
    let first = decimal(r as nat);
    let second = seq![' '] + decimal(g as nat);
    let third = seq![' '] + decimal(b as nat);
    let rest = second + seq![','] + third;
    let inner = first + seq![','] + rest;
    let none = Seq::<char>::empty();
    lemma_channel_read(r, none);
    lemma_channel_read(g, seq![' ']);
    lemma_channel_read(b, seq![' ']);
    assert(none + first =~= first);
    lemma_split_joined(first, ',', rest);
    lemma_split_joined(second, ',', third);
    lemma_not_split(third, ',');
    assert(form =~= channels_start() + inner + seq![')']);
    assert(form[0] == 'r');
    assert(form.last() == ')');
    assert(form.take(4) =~= channels_start());
    assert(form.subrange(4, form.len() - 1) =~= inner);
    lemma_unwrapped(before, form, after, quote);
    reveal(read_color);
}

} // verus!
