//! Colours as they are written on the command line and in style sheets.

use crate::text::{
    begins, bounded_value, characters, contains, digit, digit_value, find, first_of, holds_text,
    lemma_first_of, parse_unsigned, split_at_first, split_once, starts_with, trim, trim_end,
    trim_start, trimmed, trimmed_end, trimmed_start, Kind,
};
use vstd::prelude::*;
use vstd::slice::slice_subrange;

verus! {

/// How many bytes a character takes.
pub open spec fn char_bytes(c: char) -> nat {
    let n = c as u32;
    if n < 0x80 {
        1
    } else if n < 0x800 {
        2
    } else if n < 0x1_0000 {
        3
    } else {
        4
    }
}

/// How many bytes a text takes.
pub open spec fn text_bytes(s: Seq<char>) -> nat
    decreases s.len(),
{
    if s.len() == 0 {
        0
    } else {
        text_bytes(s.drop_last()) + char_bytes(s.last())
    }
}

/// Whether two bytes can be cut out of a text at character `i`.
pub open spec fn cuttable(s: Seq<char>, i: int) -> bool {
    ||| char_bytes(s[i]) == 2
    ||| char_bytes(s[i]) == 1 && char_bytes(s[i + 1]) == 1
}

/// The value of two hexadecimal digits at character `i`.
pub open spec fn pair_value(s: Seq<char>, i: int) -> Option<nat> {
    if char_bytes(s[i]) == 1 {
        bounded_value(s.subrange(i, i + 2), 16, 255)
    } else {
        None
    }
}

/// Whether the channels of a colour of six or eight bytes can be cut out of a text, as far
/// as they are looked at.
pub open spec fn hex_cuttable(s: Seq<char>) -> bool {
    text_bytes(s) == 6 || text_bytes(s) == 8 ==> {
        &&& cuttable(s, 0)
        &&& pair_value(s, 0) is Some ==> cuttable(s, 2)
        &&& pair_value(s, 0) is Some && pair_value(s, 2) is Some ==> cuttable(s, 4)
    }
}

/// A colour of three channels, if all are there.
pub open spec fn three(r: Option<nat>, g: Option<nat>, b: Option<nat>) -> Option<Seq<u8>> {
    if r is Some && g is Some && b is Some {
        Some(seq![r->0 as u8, g->0 as u8, b->0 as u8])
    } else {
        None
    }
}

/// The value of a hexadecimal digit written twice.
pub open spec fn doubled(c: char) -> Option<nat> {
    match digit_value(c, 16) {
        Some(n) => Some(n * 17),
        None => None,
    }
}

/// The colour that hexadecimal digits write.
pub open spec fn hex_color(s: Seq<char>) -> Option<Seq<u8>> {
    let bytes = text_bytes(s);
    if bytes == 6 || bytes == 8 {
        if pair_value(s, 0) is None || pair_value(s, 2) is None {
            None
        } else {
            three(pair_value(s, 0), pair_value(s, 2), pair_value(s, 4))
        }
    } else if (bytes == 3 || bytes == 4) && s.len() >= 3 {
        three(doubled(s[0]), doubled(s[1]), doubled(s[2]))
    } else {
        None
    }
}

/// The value of a channel in decimal digits.
pub open spec fn channel_value(s: Seq<char>) -> Option<nat> {
    bounded_value(trimmed(s, Kind::White), 10, 255)
}

/// The colour that channels separated by commas write; what follows the third is ignored.
pub open spec fn channels_color(s: Seq<char>) -> Option<Seq<u8>> {
    match split_at_first(s, ',') {
        None => None,
        Some((r, rest)) => match split_at_first(rest, ',') {
            None => None,
            Some((g, tail)) => {
                let b = match split_at_first(tail, ',') {
                    Some((b, _)) => b,
                    None => tail,
                };
                three(channel_value(r), channel_value(g), channel_value(b))
            },
        },
    }
}

/// What is left of a colour without white space and quotes around it.
pub open spec fn unquoted(s: Seq<char>) -> Seq<char> {
    trimmed(trimmed(trimmed(s, Kind::White), Kind::Only('"')), Kind::Only('\''))
}

/// What comes before the colour channels.
pub open spec fn channels_start() -> Seq<char> {
    seq!['r', 'g', 'b', '(']
}

/// The colour that a text writes.
#[verifier::opaque]
pub open spec fn read_color(s: Seq<char>) -> Option<Seq<u8>> {
    let bare = unquoted(s);
    if bare.len() > 0 && bare[0] == '#' {
        hex_color(bare.drop_first())
    } else if starts_with(bare, channels_start()) && bare.len() > 4 && bare.last() == ')' {
        channels_color(bare.subrange(4, bare.len() - 1))
    } else {
        None
    }
}

/// Whether a colour can be read from a text: the bytes of its channels are not cut inside a
/// character.
pub open spec fn color_readable(s: Seq<char>) -> bool {
    let bare = unquoted(s);
    bare.len() > 0 && bare[0] == '#' ==> hex_cuttable(bare.drop_first())
}

fn bytes_of(c: char) -> (bytes: usize)
    ensures
        bytes == char_bytes(c),
{
    let n: u32 = c as u32;
    if n < 0x80 {
        1
    } else if n < 0x800 {
        2
    } else if n < 0x1_0000 {
        3
    } else {
        4
    }
}

/// A text takes at least a byte for each character, and at most four.
proof fn lemma_bytes_bound(s: Seq<char>)
    ensures
        s.len() <= text_bytes(s) <= 4 * s.len(),
    decreases s.len(),
{
    if s.len() > 0 {
        lemma_bytes_bound(s.drop_last());
    }
}

/// The bytes of the first `k` characters and of the rest.
proof fn lemma_bytes_split(s: Seq<char>, k: int)
    requires
        0 <= k <= s.len(),
    ensures
        text_bytes(s) == text_bytes(s.take(k)) + text_bytes(s.skip(k)),
    decreases s.len() - k,
{
    if k == s.len() {
        assert(s.take(k) =~= s);
        assert(s.skip(k).len() == 0);
    } else {
        lemma_bytes_split(s.drop_last(), k);
        assert(s.drop_last().take(k) =~= s.take(k));
        assert(s.skip(k).drop_last() =~= s.drop_last().skip(k));
        assert(s.skip(k).last() == s.last());
    }
}

/// The bytes of a text of up to nine characters; nine or more otherwise.
fn few_bytes(s: &[char]) -> (bytes: usize)
    ensures
        s@.len() <= 8 ==> bytes == text_bytes(s@),
        s@.len() > 8 ==> bytes > 8 && text_bytes(s@) > 8,
{
    if s.len() > 8 {
        proof {
            lemma_bytes_bound(s@);
        }
        return 9;
    }
    let mut bytes: usize = 0;
    let mut i: usize = 0;
    while i < s.len()
        invariant
            i <= s@.len() <= 8,
            bytes == text_bytes(s@.take(i as int)),
            bytes <= 4 * i,
        decreases s@.len() - i,
    {
        proof {
            assert(s@.take(i + 1).drop_last() =~= s@.take(i as int));
        }
        bytes += bytes_of(s[i]);
        i += 1;
    }
    proof {
        assert(s@.take(s@.len() as int) =~= s@);
    }
    bytes
}

/// Where a text of six or eight bytes starts with `k` characters of one byte and goes on
/// with one that can be cut, its next two characters are there if they are cut.
proof fn lemma_next_there(s: Seq<char>, k: int)
    requires
        0 <= k <= 4,
        text_bytes(s) >= 6,
        k <= s.len(),
        forall|j: int| 0 <= j < k ==> char_bytes(#[trigger] s[j]) == 1,
    ensures
        k < s.len(),
        char_bytes(s[k]) == 1 ==> k + 1 < s.len(),
{
    lemma_bytes_split(s, k);
    lemma_ascii_bytes(s.take(k));
    let rest = s.skip(k);
    if rest.len() == 0 {
        assert(text_bytes(rest) == 0);
    } else if rest.len() == 1 {
        assert(rest.drop_last().len() == 0);
        assert(text_bytes(rest.drop_last()) == 0);
        assert(rest.last() == s[k]);
    }
}

/// A text of characters of one byte takes as many bytes as it has characters.
pub proof fn lemma_ascii_bytes(s: Seq<char>)
    requires
        forall|j: int| 0 <= j < s.len() ==> char_bytes(#[trigger] s[j]) == 1,
    ensures
        text_bytes(s) == s.len(),
    decreases s.len(),
{
    if s.len() > 0 {
        assert forall|j: int| 0 <= j < s.drop_last().len() implies char_bytes(
            #[trigger] s.drop_last()[j],
        ) == 1 by {
            assert(s.drop_last()[j] == s[j]);
        }
        lemma_ascii_bytes(s.drop_last());
    }
}

/// Digits take one byte each.
proof fn lemma_digits_ascii(s: Seq<char>)
    requires
        s.len() == 2,
        bounded_value(s, 16, 255) is Some,
    ensures
        char_bytes(s[0]) == 1,
        char_bytes(s[1]) == 1,
{
    reveal(bounded_value);
    if s[0] == '+' {
        let d = s.drop_first();
        assert(crate::text::digits_value(d, 16) is Some);
        assert(d.last() == s[1]);
        assert(digit_value(s[1], 16) is Some);
    } else {
        assert(crate::text::digits_value(s, 16) is Some);
        assert(s.last() == s[1]);
        let d = s.drop_last();
        assert(crate::text::digits_value(d, 16) is Some);
        assert(d.last() == s[0]);
        assert(digit_value(s[0], 16) is Some);
        assert(digit_value(s[1], 16) is Some);
    }
}

fn pair(s: &[char], i: usize) -> (value: Option<u8>)
    requires
        i < s@.len() <= 8,
        cuttable(s@, i as int),
        char_bytes(s@[i as int]) == 1 ==> i + 1 < s@.len(),
    ensures
        match pair_value(s@, i as int) {
            Some(n) => value == Some(n as u8) && n <= 255,
            None => value is None,
        },
{
    if bytes_of(s[i]) != 1 {
        return None;
    }
    match parse_unsigned(slice_subrange(s, i, i + 2), 16, 255) {
        Some(n) => Some(n as u8),
        None => None,
    }
}

fn doubled_digit(c: char) -> (value: Option<u8>)
    ensures
        match doubled(c) {
            Some(n) => value == Some(n as u8) && n <= 255,
            None => value is None,
        },
{
    match digit(c, 16) {
        Some(n) => Some((n * 17) as u8),
        None => None,
    }
}

/// The colour that hexadecimal digits write.
pub fn parse_hex_color(s: &[char]) -> (color: Option<[u8; 3]>)
    requires
        hex_cuttable(s@),
    ensures
        match hex_color(s@) {
            Some(expected) => color matches Some(found) && found@ == expected,
            None => color is None,
        },
{
    let bytes: usize = few_bytes(s);
    if bytes == 6 || bytes == 8 {
        proof {
            lemma_next_there(s@, 0);
        }
        let r: u8 = match pair(s, 0) {
            Some(value) => value,
            None => {
                return None;
            },
        };
        proof {
            lemma_digits_ascii(s@.subrange(0, 2));
            lemma_next_there(s@, 2);
        }
        let g: u8 = match pair(s, 2) {
            Some(value) => value,
            None => {
                return None;
            },
        };
        proof {
            lemma_digits_ascii(s@.subrange(2, 4));
            lemma_next_there(s@, 4);
        }
        let b: u8 = match pair(s, 4) {
            Some(value) => value,
            None => {
                return None;
            },
        };
        let color: [u8; 3] = [r, g, b];
        proof {
            assert(color@ =~= hex_color(s@)->0);
        }
        return Some(color);
    }
    if (bytes == 3 || bytes == 4) && s.len() >= 3 {
        if let (Some(r), Some(g), Some(b)) = (
            doubled_digit(s[0]),
            doubled_digit(s[1]),
            doubled_digit(s[2]),
        ) {
            let color: [u8; 3] = [r, g, b];
            proof {
                assert(color@ =~= hex_color(s@)->0);
            }
            return Some(color);
        }
    }
    None
}

fn parse_channel(s: &[char]) -> (value: Option<u8>)
    ensures
        match channel_value(s@) {
            Some(n) => value == Some(n as u8) && n <= 255,
            None => value is None,
        },
{
    match parse_unsigned(trim(s, Kind::White), 10, 255) {
        Some(n) => Some(n as u8),
        None => None,
    }
}

/// The colour that channels separated by commas write.
fn parse_channels(s: &[char]) -> (color: Option<[u8; 3]>)
    ensures
        match channels_color(s@) {
            Some(expected) => color matches Some(found) && found@ == expected,
            None => color is None,
        },
{
    let (first, rest) = match split_once(s, ',') {
        Some(parts) => parts,
        None => {
            return None;
        },
    };
    let (second, tail) = match split_once(rest, ',') {
        Some(parts) => parts,
        None => {
            return None;
        },
    };
    let third = match split_once(tail, ',') {
        Some((third, _)) => third,
        None => tail,
    };
    if let (Some(r), Some(g), Some(b)) = (
        parse_channel(first),
        parse_channel(second),
        parse_channel(third),
    ) {
        let color: [u8; 3] = [r, g, b];
        proof {
            assert(color@ =~= channels_color(s@)->0);
        }
        return Some(color);
    }
    None
}

fn without_quotes(s: &[char]) -> (bare: &[char])
    ensures
        bare@ == unquoted(s@),
{
    trim(trim(trim(s, Kind::White), Kind::Only('"')), Kind::Only('\''))
}

fn parse_color_chars(s: &[char]) -> (color: Option<[u8; 3]>)
    requires
        color_readable(s@),
    ensures
        match read_color(s@) {
            Some(expected) => color matches Some(found) && found@ == expected,
            None => color is None,
        },
{
    proof {
        reveal(read_color);
    }
    let bare = without_quotes(s);
    if bare.len() > 0 && bare[0] == '#' {
        proof {
            assert(bare@.subrange(1, bare@.len() as int) =~= bare@.drop_first());
        }
        return parse_hex_color(slice_subrange(bare, 1, bare.len()));
    }
    let start: [char; 4] = ['r', 'g', 'b', '('];
    proof {
        assert(start@ =~= channels_start());
    }
    if begins(bare, &start) && bare.len() > 4 && bare[bare.len() - 1] == ')' {
        return parse_channels(slice_subrange(bare, 4, bare.len() - 1));
    }
    None
}

/// The colour that a text writes.
pub fn parse_color(value: &str) -> (color: Option<[u8; 3]>)
    requires
        color_readable(value@),
    ensures
        match read_color(value@) {
            Some(expected) => color matches Some(found) && found@ == expected,
            None => color is None,
        },
{
    let chars = characters(value);
    parse_color_chars(chars.as_slice())
}

fn can_cut(s: &[char], i: usize) -> (result: bool)
    requires
        i < s@.len() <= 8,
        char_bytes(s@[i as int]) == 1 ==> i + 1 < s@.len(),
    ensures
        result == cuttable(s@, i as int),
{
    let bytes: usize = bytes_of(s[i]);
    bytes == 2 || (bytes == 1 && bytes_of(s[i + 1]) == 1)
}

fn hex_can_be_cut(s: &[char]) -> (result: bool)
    ensures
        result == hex_cuttable(s@),
{
    let bytes: usize = few_bytes(s);
    if bytes != 6 && bytes != 8 {
        return true;
    }
    proof {
        lemma_next_there(s@, 0);
    }
    if !can_cut(s, 0) {
        return false;
    }
    if pair(s, 0).is_none() {
        return true;
    }
    proof {
        lemma_digits_ascii(s@.subrange(0, 2));
        lemma_next_there(s@, 2);
    }
    if !can_cut(s, 2) {
        return false;
    }
    if pair(s, 2).is_none() {
        return true;
    }
    proof {
        lemma_digits_ascii(s@.subrange(2, 4));
        lemma_next_there(s@, 4);
    }
    can_cut(s, 4)
}

/// Whether a colour can be read from a text.
pub fn is_color_readable(value: &str) -> (readable: bool)
    ensures
        readable == color_readable(value@),
{
    let chars = characters(value);
    let bare = without_quotes(chars.as_slice());
    if bare.len() > 0 && bare[0] == '#' {
        proof {
            assert(bare@.subrange(1, bare@.len() as int) =~= bare@.drop_first());
        }
        hex_can_be_cut(slice_subrange(bare, 1, bare.len()))
    } else {
        true
    }
}

/// The first word of a text and what follows it.
pub open spec fn next_word(s: Seq<char>) -> Option<(Seq<char>, Seq<char>)> {
    let bare = trimmed_start(s, Kind::White);
    let end = first_of(bare, Kind::White);
    if bare.len() == 0 {
        None
    } else {
        Some((bare.take(end), bare.skip(end)))
    }
}

/// The second and third word of a text, where there are so many.
pub open spec fn definition(s: Seq<char>) -> Option<(Seq<char>, Seq<char>)> {
    match next_word(s) {
        None => None,
        Some((_, after)) => match next_word(after) {
            None => None,
            Some((name, rest)) => match next_word(rest) {
                None => None,
                Some((value, _)) => Some((name, value)),
            },
        },
    }
}

/// What a line of a style sheet gives for a name.
pub open spec fn line_value(raw: Seq<char>, name: Seq<char>) -> Option<Seq<char>> {
    let line = trimmed(raw, Kind::White);
    let defined = definition(trimmed_end(line, Kind::Only(';')));
    if !holds_text(line, name) {
        None
    } else if starts_with(line, "@define-color"@) && defined is Some && (defined->0).0 == name {
        Some((defined->0).1)
    } else {
        match split_at_first(line, ':') {
            Some((_, value)) => Some(
                trimmed_end(trimmed(value, Kind::White), Kind::Only(';')),
            ),
            None => None,
        }
    }
}

/// What a style sheet gives for a name: what the first line gives that gives anything.
pub open spec fn sheet_value(content: Seq<char>, name: Seq<char>) -> Option<Seq<char>>
    decreases content.len(),
{
    match split_at_first(content, '\n') {
        None => line_value(content, name),
        Some((line, rest)) => if line_value(line, name) is Some {
            line_value(line, name)
        } else {
            proof {
                lemma_first_of(content, Kind::Only('\n'));
            }
            sheet_value(rest, name)
        },
    }
}

/// The colour that a style sheet gives for a name.
pub open spec fn named_color(content: Seq<char>, name: Seq<char>) -> Option<Seq<u8>> {
    match sheet_value(content, name) {
        Some(value) => read_color(value),
        None => None,
    }
}

/// Whether a colour can be read from what a style sheet gives for a name.
pub open spec fn named_readable(content: Seq<char>, name: Seq<char>) -> bool {
    sheet_value(content, name) matches Some(value) ==> color_readable(value)
}

fn word(s: &[char]) -> (parts: Option<(&[char], &[char])>)
    ensures
        match next_word(s@) {
            Some(expected) => parts matches Some(found) && found.0@ == expected.0 && found.1@
                == expected.1,
            None => parts is None,
        },
{
    let bare = trim_start(s, Kind::White);
    if bare.len() == 0 {
        return None;
    }
    let end: usize = find(bare, Kind::White);
    proof {
        assert(bare@.subrange(0, end as int) =~= bare@.take(end as int));
        assert(bare@.subrange(end as int, bare@.len() as int) =~= bare@.skip(end as int));
    }
    Some((slice_subrange(bare, 0, end), slice_subrange(bare, end, bare.len())))
}

fn defined(s: &[char]) -> (parts: Option<(&[char], &[char])>)
    ensures
        match definition(s@) {
            Some(expected) => parts matches Some(found) && found.0@ == expected.0 && found.1@
                == expected.1,
            None => parts is None,
        },
{
    if let Some((_, after)) = word(s) {
        if let Some((name, rest)) = word(after) {
            if let Some((value, _)) = word(rest) {
                return Some((name, value));
            }
        }
    }
    None
}

fn equal_chars(a: &[char], b: &[char]) -> (same: bool)
    ensures
        same == (a@ == b@),
{
    if a.len() != b.len() {
        return false;
    }
    proof {
        assert(a@.take(b@.len() as int) =~= a@);
    }
    begins(a, b)
}

fn value_in_line<'a>(raw: &'a [char], name: &[char]) -> (value: Option<&'a [char]>)
    ensures
        match line_value(raw@, name@) {
            Some(expected) => value matches Some(found) && found@ == expected,
            None => value is None,
        },
{
    let line = trim(raw, Kind::White);
    if !contains(line, name) {
        return None;
    }
    let directive = characters("@define-color");
    if begins(line, directive.as_slice()) {
        if let Some((defined_name, value)) = defined(trim_end(line, Kind::Only(';'))) {
            if equal_chars(defined_name, name) {
                return Some(value);
            }
        }
    }
    match split_once(line, ':') {
        Some((_, value)) => Some(trim_end(trim(value, Kind::White), Kind::Only(';'))),
        None => None,
    }
}

fn value_in_sheet<'a>(content: &'a [char], name: &[char]) -> (value: Option<&'a [char]>)
    ensures
        match sheet_value(content@, name@) {
            Some(expected) => value matches Some(found) && found@ == expected,
            None => value is None,
        },
{
    let mut rest = content;
    loop
        invariant
            sheet_value(content@, name@) == sheet_value(rest@, name@),
        decreases rest@.len(),
    {
        match split_once(rest, '\n') {
            None => {
                return value_in_line(rest, name);
            },
            Some((line, after)) => {
                if let Some(value) = value_in_line(line, name) {
                    return Some(value);
                }
                proof {
                    lemma_first_of(rest@, Kind::Only('\n'));
                }
                rest = after;
            },
        }
    }
}

/// The colour that a style sheet gives for a name.
pub fn find_css_color(content: &str, name: &str) -> (color: Option<[u8; 3]>)
    requires
        named_readable(content@, name@),
    ensures
        match named_color(content@, name@) {
            Some(expected) => color matches Some(found) && found@ == expected,
            None => color is None,
        },
{
    let chars = characters(content);
    let name_chars = characters(name);
    match value_in_sheet(chars.as_slice(), name_chars.as_slice()) {
        Some(value) => parse_color_chars(value),
        None => None,
    }
}

/// Whether a colour can be read from what a style sheet gives for a name.
pub fn is_named_readable(content: &str, name: &str) -> (readable: bool)
    ensures
        readable == named_readable(content@, name@),
{
    let chars = characters(content);
    let name_chars = characters(name);
    match value_in_sheet(chars.as_slice(), name_chars.as_slice()) {
        Some(value) => {
            let bare = without_quotes(value);
            if bare.len() > 0 && bare[0] == '#' {
                proof {
                    assert(bare@.subrange(1, bare@.len() as int) =~= bare@.drop_first());
                }
                hex_can_be_cut(slice_subrange(bare, 1, bare.len()))
            } else {
                true
            }
        },
        None => true,
    }
}

/// The names under which a style sheet gives the accent colour.
pub open spec fn accent_names() -> Seq<Seq<char>> {
    seq!["accent_color"@, "theme_selected_bg_color"@, "primary"@]
}

/// The accent colour that a style sheet gives, by the first of the names from `k` on that it
/// has a colour for.
pub open spec fn sheet_accent(content: Seq<char>, k: int) -> Option<Seq<u8>>
    decreases accent_names().len() - k,
{
    if k < 0 || k >= accent_names().len() {
        None
    } else if named_color(content, accent_names()[k]) is Some {
        named_color(content, accent_names()[k])
    } else {
        sheet_accent(content, k + 1)
    }
}

/// Whether the colours that are looked at in a style sheet can be read.
pub open spec fn sheet_readable(content: Seq<char>, k: int) -> bool
    decreases accent_names().len() - k,
{
    if k < 0 || k >= accent_names().len() {
        true
    } else {
        &&& named_readable(content, accent_names()[k])
        &&& named_color(content, accent_names()[k]) is None ==> sheet_readable(content, k + 1)
    }
}

/// The accent colour that style sheets give from the `k`th on: that of the first that gives
/// one, else white.
pub open spec fn sheets_accent(sheets: Seq<String>, k: int) -> Seq<u8>
    decreases sheets.len() - k,
{
    if k < 0 || k >= sheets.len() {
        seq![255u8, 255u8, 255u8]
    } else {
        match sheet_accent(sheets[k]@, 0) {
            Some(color) => color,
            None => sheets_accent(sheets, k + 1),
        }
    }
}

/// Whether the colours that are looked at in style sheets can be read.
pub open spec fn sheets_readable(sheets: Seq<String>, k: int) -> bool
    decreases sheets.len() - k,
{
    if k < 0 || k >= sheets.len() {
        true
    } else {
        &&& sheet_readable(sheets[k]@, 0)
        &&& sheet_accent(sheets[k]@, 0) is None ==> sheets_readable(sheets, k + 1)
    }
}

/// The accent colour: the one asked for, else that of the style sheets.
pub open spec fn accent(wanted: Option<String>, sheets: Seq<String>) -> Seq<u8> {
    if wanted is Some && read_color((wanted->0)@) is Some {
        read_color((wanted->0)@)->0
    } else {
        sheets_accent(sheets, 0)
    }
}

/// Whether the colours that are looked at for the accent can be read.
pub open spec fn accent_readable(wanted: Option<String>, sheets: Seq<String>) -> bool {
    &&& wanted is Some ==> color_readable((wanted->0)@)
    &&& !(wanted is Some && read_color((wanted->0)@) is Some) ==> sheets_readable(sheets, 0)
}

fn accent_of_sheet(content: &str) -> (color: Option<[u8; 3]>)
    requires
        sheet_readable(content@, 0),
    ensures
        match sheet_accent(content@, 0) {
            Some(expected) => color matches Some(found) && found@ == expected,
            None => color is None,
        },
{
    proof {
        reveal_with_fuel(sheet_readable, 4);
        reveal_with_fuel(sheet_accent, 4);
    }
    if let Some(color) = find_css_color(content, "accent_color") {
        return Some(color);
    }
    if let Some(color) = find_css_color(content, "theme_selected_bg_color") {
        return Some(color);
    }
    find_css_color(content, "primary")
}

/// The accent colour: the one asked for, else that of the first style sheet that gives one,
/// else white.
pub fn resolve_accent_color(wanted: Option<String>, sheets: &Vec<String>) -> (color: [u8; 3])
    requires
        accent_readable(wanted, sheets@),
    ensures
        color@ == accent(wanted, sheets@),
{
    if let Some(text) = &wanted {
        if let Some(color) = parse_color(text.as_str()) {
            return color;
        }
    }
    let mut i: usize = 0;
    while i < sheets.len()
        invariant
            i <= sheets@.len(),
            sheets_readable(sheets@, i as int),
            sheets_accent(sheets@, 0) == sheets_accent(sheets@, i as int),
            accent(wanted, sheets@) == sheets_accent(sheets@, 0),
        decreases sheets@.len() - i,
    {
        if let Some(color) = accent_of_sheet(sheets[i].as_str()) {
            return color;
        }
        i += 1;
    }
    let white: [u8; 3] = [255, 255, 255];
    proof {
        assert(white@ =~= seq![255u8, 255u8, 255u8]);
    }
    white
}

fn is_sheet_readable(content: &str) -> (readable: bool)
    ensures
        readable == sheet_readable(content@, 0),
{
    proof {
        reveal_with_fuel(sheet_readable, 4);
    }
    if !is_named_readable(content, "accent_color") {
        return false;
    }
    if find_css_color(content, "accent_color").is_some() {
        return true;
    }
    if !is_named_readable(content, "theme_selected_bg_color") {
        return false;
    }
    if find_css_color(content, "theme_selected_bg_color").is_some() {
        return true;
    }
    is_named_readable(content, "primary")
}

/// Whether the colours that are looked at for the accent can be read.
pub fn is_accent_readable(wanted: Option<String>, sheets: &Vec<String>) -> (readable: bool)
    ensures
        readable == accent_readable(wanted, sheets@),
{
    if let Some(text) = &wanted {
        if !is_color_readable(text.as_str()) {
            return false;
        }
        if parse_color(text.as_str()).is_some() {
            return true;
        }
    }
    let mut i: usize = 0;
    while i < sheets.len()
        invariant
            i <= sheets@.len(),
            sheets_readable(sheets@, 0) == sheets_readable(sheets@, i as int),
            accent_readable(wanted, sheets@) == sheets_readable(sheets@, 0),
        decreases sheets@.len() - i,
    {
        if !is_sheet_readable(sheets[i].as_str()) {
            return false;
        }
        if accent_of_sheet(sheets[i].as_str()).is_some() {
            return true;
        }
        i += 1;
    }
    true
}

/// The folder that style sheets are looked for in.
#[derive(Clone, Copy, Debug, PartialEq, Eq, Structural)]
pub enum SheetFolder {
    /// The folder for configuration.
    Config,
    /// The folder `.config` in the home folder.
    HomeConfig,
}

/// The folder that style sheets are looked for in, by whether the folders for configuration and
/// for the home are set; none where neither is.
pub fn sheet_folder(config: bool, home: bool) -> (folder: Option<SheetFolder>)
    ensures
        folder == if config {
            Some(SheetFolder::Config)
        } else if home {
            Some(SheetFolder::HomeConfig)
        } else {
            None
        },
{
    if config {
        Some(SheetFolder::Config)
    } else if home {
        Some(SheetFolder::HomeConfig)
    } else {
        None
    }
}

/// The style sheets that are looked at, in order.
pub fn sheet_names() -> (names: [&'static str; 4])
    ensures
        names@.len() == 4,
        names@[0]@ == "gtk-4.0/gtk.css"@,
        names@[1]@ == "gtk-3.0/gtk.css"@,
        names@[2]@ == "waybar/colors.css"@,
        names@[3]@ == "swayosd/colors.css"@,
{
    ["gtk-4.0/gtk.css", "gtk-3.0/gtk.css", "waybar/colors.css", "swayosd/colors.css"]
}

} // verus!
