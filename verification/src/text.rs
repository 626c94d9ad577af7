//! Text as sequences of characters: trimming, splitting, numbers.

use vstd::prelude::*;
use vstd::slice::slice_subrange;

verus! {

/// Whether a character is white space.
pub open spec fn is_white(c: char) -> bool {
    let n = c as u32;
    ||| 0x9 <= n <= 0xd
    ||| n == 0x20
    ||| n == 0x85
    ||| n == 0xa0
    ||| n == 0x1680
    ||| 0x2000 <= n <= 0x200a
    ||| n == 0x2028
    ||| n == 0x2029
    ||| n == 0x202f
    ||| n == 0x205f
    ||| n == 0x3000
}

/// A kind of characters.
#[derive(Clone, Copy, Debug)]
pub enum Kind {
    White,
    Only(char),
}

impl Kind {
    /// Whether a character is of the kind.
    pub open spec fn holds(self, c: char) -> bool {
        match self {
            Kind::White => is_white(c),
            Kind::Only(d) => c == d,
        }
    }

    /// Whether a character is of the kind.
    pub fn matches(self, c: char) -> (result: bool)
        ensures
            result == self.holds(c),
    {
        match self {
            Kind::White => {
                let n: u32 = c as u32;
                (0x9 <= n && n <= 0xd) || n == 0x20 || n == 0x85 || n == 0xa0 || n == 0x1680 || (
                0x2000 <= n && n <= 0x200a) || n == 0x2028 || n == 0x2029 || n == 0x202f || n
                    == 0x205f || n == 0x3000
            },
            Kind::Only(d) => c == d,
        }
    }
}

/// A text without the characters of a kind at its start.
pub open spec fn trimmed_start(s: Seq<char>, kind: Kind) -> Seq<char>
    decreases s.len(),
{
    if s.len() > 0 && kind.holds(s[0]) {
        trimmed_start(s.drop_first(), kind)
    } else {
        s
    }
}

/// A text without the characters of a kind at its end.
pub open spec fn trimmed_end(s: Seq<char>, kind: Kind) -> Seq<char>
    decreases s.len(),
{
    if s.len() > 0 && kind.holds(s.last()) {
        trimmed_end(s.drop_last(), kind)
    } else {
        s
    }
}

/// A text without the characters of a kind at both ends.
pub open spec fn trimmed(s: Seq<char>, kind: Kind) -> Seq<char> {
    trimmed_end(trimmed_start(s, kind), kind)
}

/// Where a character of a kind comes first; the length of the text where none does.
pub open spec fn first_of(s: Seq<char>, kind: Kind) -> int
    decreases s.len(),
{
    if s.len() == 0 || kind.holds(s[0]) {
        0
    } else {
        1 + first_of(s.drop_first(), kind)
    }
}

/// The place of the first character of a kind lies in the text or at its end.
pub proof fn lemma_first_of(s: Seq<char>, kind: Kind)
    ensures
        0 <= first_of(s, kind) <= s.len(),
    decreases s.len(),
{
    if s.len() > 0 && !kind.holds(s[0]) {
        lemma_first_of(s.drop_first(), kind);
    }
}

/// What comes before and after the first of a character.
pub open spec fn split_at_first(s: Seq<char>, c: char) -> Option<(Seq<char>, Seq<char>)> {
    let i = first_of(s, Kind::Only(c));
    if i < s.len() {
        Some((s.take(i), s.skip(i + 1)))
    } else {
        None
    }
}

/// Whether a text starts with another.
pub open spec fn starts_with(s: Seq<char>, prefix: Seq<char>) -> bool {
    prefix.len() <= s.len() && s.take(prefix.len() as int) == prefix
}

/// Whether a text holds another at a place.
pub open spec fn holds_at(s: Seq<char>, part: Seq<char>, i: int) -> bool {
    0 <= i && i + part.len() <= s.len() && s.subrange(i, i + part.len()) == part
}

/// Whether a text holds another.
pub open spec fn holds_text(s: Seq<char>, part: Seq<char>) -> bool {
    exists|i: int| holds_at(s, part, i)
}

/// The value of a digit.
pub open spec fn digit_value(c: char, radix: nat) -> Option<nat> {
    let n = c as int;
    let value = if '0' as int <= n <= '9' as int {
        n - '0' as int
    } else if 'a' as int <= n <= 'z' as int {
        n - 'a' as int + 10
    } else if 'A' as int <= n <= 'Z' as int {
        n - 'A' as int + 10
    } else {
        99
    };
    if value < radix {
        Some(value as nat)
    } else {
        None
    }
}

/// The number that digits write; nothing for no digits or for other characters.
pub open spec fn digits_value(s: Seq<char>, radix: nat) -> Option<nat>
    decreases s.len(),
{
    if s.len() == 0 {
        None
    } else {
        match (
            if s.len() == 1 {
                Some(0nat)
            } else {
                digits_value(s.drop_last(), radix)
            },
            digit_value(s.last(), radix),
        ) {
            (Some(high), Some(low)) => Some(high * radix + low),
            _ => None,
        }
    }
}

/// The number without a minus that a text writes.
pub open spec fn unsigned_value(s: Seq<char>, radix: nat) -> Option<nat> {
    if s.len() > 1 && s[0] == '+' {
        digits_value(s.drop_first(), radix)
    } else {
        digits_value(s, radix)
    }
}

/// The number that a text writes.
pub open spec fn signed_value(s: Seq<char>) -> Option<int> {
    if s.len() > 1 && s[0] == '-' {
        match digits_value(s.drop_first(), 10) {
            Some(n) => Some(-n),
            None => None,
        }
    } else {
        match unsigned_value(s, 10) {
            Some(n) => Some(n as int),
            None => None,
        }
    }
}

/// The number up to `max` that a text writes.
#[verifier::opaque]
pub open spec fn bounded_value(s: Seq<char>, radix: nat, max: nat) -> Option<nat> {
    match unsigned_value(s, radix) {
        Some(n) if n <= max => Some(n),
        _ => None,
    }
}

/// The number of 32 bits that a text writes.
pub open spec fn i32_value(s: Seq<char>) -> Option<int> {
    match signed_value(s) {
        Some(n) if i32::MIN <= n <= i32::MAX => Some(n),
        _ => None,
    }
}

/// The characters of a text.
pub fn characters(text: &str) -> (chars: Vec<char>)
    ensures
        chars@ == text@,
{
    let mut chars: Vec<char> = Vec::new();
    for c in it: text.chars()
        invariant
            chars@ == it.seq().take(it.index()),
            it.seq() == text@,
    {
        chars.push(c);
        proof {
            assert(it.seq().take(it.index() + 1) =~= it.seq().take(it.index()).push(c));
        }
    }
    proof {
        assert(text@.take(text@.len() as int) =~= text@);
    }
    chars
}

/// A text without the characters of a kind at its start.
pub fn trim_start(s: &[char], kind: Kind) -> (result: &[char])
    ensures
        result@ == trimmed_start(s@, kind),
{
    let mut i: usize = 0;
    proof {
        assert(s@.skip(0) =~= s@);
    }
    while i < s.len() && kind.matches(s[i])
        invariant
            i <= s@.len(),
            trimmed_start(s@, kind) == trimmed_start(s@.skip(i as int), kind),
        decreases s@.len() - i,
    {
        proof {
            assert(s@.skip(i as int).drop_first() =~= s@.skip(i + 1));
        }
        i += 1;
    }
    proof {
        assert(s@.subrange(i as int, s@.len() as int) =~= s@.skip(i as int));
    }
    slice_subrange(s, i, s.len())
}

/// A text without the characters of a kind at its end.
pub fn trim_end(s: &[char], kind: Kind) -> (result: &[char])
    ensures
        result@ == trimmed_end(s@, kind),
{
    let mut n: usize = s.len();
    proof {
        assert(s@.take(n as int) =~= s@);
    }
    while n > 0 && kind.matches(s[n - 1])
        invariant
            n <= s@.len(),
            trimmed_end(s@, kind) == trimmed_end(s@.take(n as int), kind),
        decreases n,
    {
        proof {
            assert(s@.take(n as int).drop_last() =~= s@.take(n - 1));
        }
        n -= 1;
    }
    proof {
        assert(s@.subrange(0, n as int) =~= s@.take(n as int));
    }
    slice_subrange(s, 0, n)
}

/// A text without the characters of a kind at both ends.
pub fn trim(s: &[char], kind: Kind) -> (result: &[char])
    ensures
        result@ == trimmed(s@, kind),
{
    trim_end(trim_start(s, kind), kind)
}

/// Where a character of a kind comes first; the length of the text where none does.
pub fn find(s: &[char], kind: Kind) -> (place: usize)
    ensures
        place == first_of(s@, kind),
        place <= s@.len(),
{
    let mut i: usize = 0;
    proof {
        assert(s@.skip(0) =~= s@);
    }
    while i < s.len() && !kind.matches(s[i])
        invariant
            i <= s@.len(),
            first_of(s@, kind) == i + first_of(s@.skip(i as int), kind),
        decreases s@.len() - i,
    {
        proof {
            assert(s@.skip(i as int).drop_first() =~= s@.skip(i + 1));
        }
        i += 1;
    }
    i
}

/// What comes before and after the first of a character.
pub fn split_once(s: &[char], c: char) -> (parts: Option<(&[char], &[char])>)
    ensures
        match split_at_first(s@, c) {
            Some(expected) => parts matches Some(found) && found.0@ == expected.0 && found.1@
                == expected.1,
            None => parts is None,
        },
{
    let i: usize = find(s, Kind::Only(c));
    if i < s.len() {
        proof {
            assert(s@.subrange(0, i as int) =~= s@.take(i as int));
            assert(s@.subrange(i + 1, s@.len() as int) =~= s@.skip(i + 1));
        }
        Some((slice_subrange(s, 0, i), slice_subrange(s, i + 1, s.len())))
    } else {
        None
    }
}

/// Whether two texts are the same.
pub fn same_text(a: &str, b: &str) -> (same: bool)
    ensures
        same == (a@ == b@),
{
    a.to_owned() == b.to_owned()
}

/// Whether a text holds another at a place.
fn matches_at(s: &[char], part: &[char], start: usize) -> (result: bool)
    requires
        start + part@.len() <= s@.len(),
    ensures
        result == (s@.subrange(start as int, start + part@.len()) == part@),
{
    let length: usize = s.len();
    let mut k: usize = 0;
    while k < part.len()
        invariant
            k <= part@.len(),
            start + part@.len() <= s@.len(),
            s@.len() == length,
            forall|j: int| 0 <= j < k ==> s@[start + j] == part@[j],
        decreases part@.len() - k,
    {
        if s[start + k] != part[k] {
            proof {
                assert(s@.subrange(start as int, start + part@.len())[k as int] != part@[k as int]);
            }
            return false;
        }
        k += 1;
    }
    proof {
        assert(s@.subrange(start as int, start + part@.len()) =~= part@);
    }
    true
}

/// Whether a text starts with another.
pub fn begins(s: &[char], prefix: &[char]) -> (result: bool)
    ensures
        result == starts_with(s@, prefix@),
{
    if prefix.len() > s.len() {
        return false;
    }
    proof {
        assert(s@.subrange(0, prefix@.len() as int) =~= s@.take(prefix@.len() as int));
    }
    matches_at(s, prefix, 0)
}

/// Whether a text holds another.
pub fn contains(s: &[char], part: &[char]) -> (result: bool)
    ensures
        result == holds_text(s@, part@),
{
    if part.len() > s.len() {
        return false;
    }
    let last: usize = s.len() - part.len();
    let mut i: usize = 0;
    while i < last
        invariant
            i <= last,
            last + part@.len() == s@.len(),
            forall|j: int| 0 <= j < i ==> !#[trigger] holds_at(s@, part@, j),
        decreases last - i,
    {
        if matches_at(s, part, i) {
            proof {
                assert(holds_at(s@, part@, i as int));
            }
            return true;
        }
        i += 1;
    }
    let found: bool = matches_at(s, part, last);
    proof {
        assert(found == holds_at(s@, part@, last as int));
    }
    found
}

/// The value of a digit.
pub fn digit(c: char, radix: u32) -> (value: Option<u32>)
    requires
        radix <= 36,
    ensures
        match digit_value(c, radix as nat) {
            Some(n) => value == Some(n as u32) && n < radix,
            None => value is None,
        },
{
    let n: u32 = c as u32;
    let value: u32 = if 48 <= n && n <= 57 {
        n - 48
    } else if 97 <= n && n <= 122 {
        n - 97 + 10
    } else if 65 <= n && n <= 90 {
        n - 65 + 10
    } else {
        99
    };
    if value < radix {
        Some(value)
    } else {
        None
    }
}

/// More digits make no smaller number.
proof fn lemma_prefix_smaller(s: Seq<char>, k: int, radix: nat)
    requires
        0 < k <= s.len(),
        radix > 0,
        digits_value(s, radix) is Some,
    ensures
        digits_value(s.take(k), radix) is Some,
        digits_value(s.take(k), radix)->0 <= digits_value(s, radix)->0,
    decreases s.len() - k,
{
    if k == s.len() {
        assert(s.take(k) =~= s);
    } else {
        let shorter = s.drop_last();
        assert(digits_value(shorter, radix) is Some);
        lemma_prefix_smaller(shorter, k, radix);
        assert(shorter.take(k) =~= s.take(k));
        let high = digits_value(shorter, radix)->0;
        assert(high <= high * radix) by (nonlinear_arith)
            requires
                radix >= 1,
        ;
    }
}

/// The number up to `max` that digits write.
fn parse_digits(s: &[char], radix: u32, max: u64) -> (value: Option<u64>)
    requires
        2 <= radix <= 36,
    ensures
        match digits_value(s@, radix as nat) {
            Some(n) => if n <= max {
                value == Some(n as u64)
            } else {
                value is None
            },
            None => value is None,
        },
{
    if s.len() == 0 {
        return None;
    }
    let mut n: u128 = 0;
    let mut i: usize = 0;
    while i < s.len()
        invariant
            i <= s@.len(),
            2 <= radix <= 36,
            n <= max,
            i == 0 ==> n == 0,
            i > 0 ==> digits_value(s@.take(i as int), radix as nat) == Some(n as nat),
        decreases s@.len() - i,
    {
        let ghost prefix = s@.take(i + 1);
        proof {
            assert(prefix.drop_last() =~= s@.take(i as int));
            assert(prefix.last() == s@[i as int]);
        }
        match digit(s[i], radix) {
            None => {
                proof {
                    assert(digits_value(prefix, radix as nat) is None);
                    if digits_value(s@, radix as nat) is Some {
                        lemma_prefix_smaller(s@, i + 1, radix as nat);
                    }
                }
                return None;
            },
            Some(low) => {
                proof {
                    assert(n * radix <= 0xffff_ffff_ffff_ffff * 36) by (nonlinear_arith)
                        requires
                            0 <= n <= 0xffff_ffff_ffff_ffff,
                            radix <= 36,
                    ;
                }
                n = n * radix as u128 + low as u128;
                proof {
                    assert(digits_value(prefix, radix as nat) == Some(n as nat));
                    if n > max && digits_value(s@, radix as nat) is Some {
                        lemma_prefix_smaller(s@, i + 1, radix as nat);
                    }
                }
                if n > max as u128 {
                    return None;
                }
            },
        }
        i += 1;
    }
    proof {
        assert(s@.take(s@.len() as int) =~= s@);
    }
    Some(n as u64)
}

/// The number up to `max` that a text writes.
pub fn parse_unsigned(s: &[char], radix: u32, max: u64) -> (value: Option<u64>)
    requires
        2 <= radix <= 36,
    ensures
        match bounded_value(s@, radix as nat, max as nat) {
            Some(n) => value == Some(n as u64) && n <= max,
            None => value is None,
        },
{
    proof {
        reveal(bounded_value);
    }
    if s.len() > 1 && s[0] == '+' {
        proof {
            assert(s@.subrange(1, s@.len() as int) =~= s@.drop_first());
        }
        parse_digits(slice_subrange(s, 1, s.len()), radix, max)
    } else {
        parse_digits(s, radix, max)
    }
}

/// The number of 32 bits that a text writes.
pub fn parse_i32(s: &[char]) -> (value: Option<i32>)
    ensures
        match i32_value(s@) {
            Some(n) => value == Some(n as i32) && i32::MIN <= n <= i32::MAX,
            None => value is None,
        },
{
    if s.len() > 1 && s[0] == '-' {
        proof {
            assert(s@.subrange(1, s@.len() as int) =~= s@.drop_first());
        }
        match parse_digits(slice_subrange(s, 1, s.len()), 10, 0x8000_0000) {
            Some(n) => Some((-(n as i64)) as i32),
            None => None,
        }
    } else {
        proof {
            reveal(bounded_value);
        }
        match parse_unsigned(s, 10, 0x7fff_ffff) {
            Some(n) => Some(n as i32),
            None => None,
        }
    }
}

/// The character of a decimal digit.
pub open spec fn digit_char(n: nat) -> char {
    ('0' as int + n) as char
}

/// A number in decimal digits.
pub open spec fn decimal(n: nat) -> Seq<char>
    decreases n,
{
    if n < 10 {
        seq![digit_char(n)]
    } else {
        decimal(n / 10).push(digit_char(n % 10))
    }
}

/// A number in decimal digits, with a minus where it is negative.
pub open spec fn signed_decimal(n: int) -> Seq<char> {
    if n < 0 {
        seq!['-'] + decimal((-n) as nat)
    } else {
        decimal(n as nat)
    }
}

/// Adds a digit to a text.
fn append_digit(text: &mut String, n: u64)
    requires
        n < 10,
    ensures
        final(text)@ == old(text)@.push(digit_char(n as nat)),
{
    let digit: &str = match n {
        0 => "0",
        1 => "1",
        2 => "2",
        3 => "3",
        4 => "4",
        5 => "5",
        6 => "6",
        7 => "7",
        8 => "8",
        _ => "9",
    };
    proof {
        reveal_strlit("0");
        reveal_strlit("1");
        reveal_strlit("2");
        reveal_strlit("3");
        reveal_strlit("4");
        reveal_strlit("5");
        reveal_strlit("6");
        reveal_strlit("7");
        reveal_strlit("8");
        reveal_strlit("9");
        assert(digit@ =~= seq![digit_char(n as nat)]);
        assert(text@ + digit@ =~= text@.push(digit_char(n as nat)));
    }
    text.append(digit);
}

/// Adds a number in decimal digits to a text.
pub fn append_decimal(text: &mut String, n: u128)
    ensures
        final(text)@ == old(text)@ + decimal(n as nat),
    decreases n,
{
    let ghost before = text@;
    if n >= 10 {
        append_decimal(text, n / 10);
    }
    append_digit(text, (n % 10) as u64);
    proof {
        assert(text@ =~= before + decimal(n as nat));
    }
}

/// Adds a number in decimal digits to a text.
pub fn append_signed(text: &mut String, n: i32)
    ensures
        final(text)@ == old(text)@ + signed_decimal(n as int),
{
    let ghost before = text@;
    if n < 0 {
        text.append("-");
        append_decimal(text, (-(n as i64)) as u128);
        proof {
            reveal_strlit("-");
            assert("-"@ =~= seq!['-']);
        }
    } else {
        append_decimal(text, n as u128);
    }
    proof {
        assert(text@ =~= before + signed_decimal(n as int));
    }
}

/// Decimal digits write the number they were made from.
pub proof fn lemma_decimal_read(n: nat)
    ensures
        decimal(n).len() > 0,
        digits_value(decimal(n), 10) == Some(n),
        forall|i: int| 0 <= i < decimal(n).len() ==> '0' <= #[trigger] decimal(n)[i] <= '9',
    decreases n,
{
    if n >= 10 {
        lemma_decimal_read(n / 10);
        assert(decimal(n).drop_last() =~= decimal(n / 10));
        assert(decimal(n).last() == digit_char(n % 10));
    } else {
        assert(decimal(n).last() == digit_char(n));
    }
}

/// A decimal number is read as the number it was made from.
pub proof fn lemma_signed_read(n: int)
    ensures
        signed_decimal(n).len() > 0,
        signed_value(signed_decimal(n)) == Some(n),
        forall|i: int|
            0 <= i < signed_decimal(n).len() ==> ('0' <= #[trigger] signed_decimal(n)[i] <= '9'
                || signed_decimal(n)[i] == '-'),
{
    if n < 0 {
        lemma_decimal_read((-n) as nat);
        assert(signed_decimal(n).drop_first() =~= decimal((-n) as nat));
    } else {
        lemma_decimal_read(n as nat);
        assert(signed_decimal(n)[0] != '-');
        assert(signed_decimal(n)[0] != '+');
    }
}

/// A text that does not hold a character is what comes before it.
pub proof fn lemma_split_joined(a: Seq<char>, c: char, b: Seq<char>)
    requires
        forall|i: int| 0 <= i < a.len() ==> a[i] != c,
    ensures
        first_of(a + seq![c] + b, Kind::Only(c)) == a.len(),
        split_at_first(a + seq![c] + b, c) == Some((a, b)),
    decreases a.len(),
{
    let s = a + seq![c] + b;
    if a.len() > 0 {
        lemma_split_joined(a.drop_first(), c, b);
        assert(s.drop_first() =~= a.drop_first() + seq![c] + b);
    }
    assert(s.take(a.len() as int) =~= a);
    assert(s.skip(a.len() as int + 1) =~= b);
}

/// A text that does not hold a character is not split at it.
pub proof fn lemma_not_split(s: Seq<char>, c: char)
    requires
        forall|i: int| 0 <= i < s.len() ==> s[i] != c,
    ensures
        first_of(s, Kind::Only(c)) == s.len(),
        split_at_first(s, c) is None,
    decreases s.len(),
{
    if s.len() > 0 {
        lemma_not_split(s.drop_first(), c);
    }
}

pub proof fn lemma_trimmed_start(before: Seq<char>, rest: Seq<char>, kind: Kind)
    requires
        forall|i: int| 0 <= i < before.len() ==> kind.holds(#[trigger] before[i]),
        rest.len() > 0,
        !kind.holds(rest[0]),
    ensures
        trimmed_start(before + rest, kind) == rest,
    decreases before.len(),
{
    if before.len() > 0 {
        let fewer = before.drop_first();
        assert forall|i: int| 0 <= i < fewer.len() implies kind.holds(#[trigger] fewer[i]) by {
            assert(fewer[i] == before[i + 1]);
        }
        lemma_trimmed_start(fewer, rest, kind);
        assert((before + rest)[0] == before[0]);
        assert((before + rest).drop_first() =~= fewer + rest);
    } else {
        assert(before + rest =~= rest);
    }
}

pub proof fn lemma_trimmed_end(core: Seq<char>, after: Seq<char>, kind: Kind)
    requires
        forall|i: int| 0 <= i < after.len() ==> kind.holds(#[trigger] after[i]),
        core.len() > 0,
        !kind.holds(core.last()),
    ensures
        trimmed_end(core + after, kind) == core,
    decreases after.len(),
{
    if after.len() > 0 {
        let fewer = after.drop_last();
        assert forall|i: int| 0 <= i < fewer.len() implies kind.holds(#[trigger] fewer[i]) by {
            assert(fewer[i] == after[i]);
        }
        lemma_trimmed_end(core, fewer, kind);
        assert((core + after).last() == after.last());
        assert((core + after).drop_last() =~= core + fewer);
    } else {
        assert(core + after =~= core);
    }
}

/// What stands between characters of a kind is what is left without them, if it neither
/// starts nor ends with such a character.
pub proof fn lemma_trimmed(before: Seq<char>, core: Seq<char>, after: Seq<char>, kind: Kind)
    requires
        forall|i: int| 0 <= i < before.len() ==> kind.holds(#[trigger] before[i]),
        forall|i: int| 0 <= i < after.len() ==> kind.holds(#[trigger] after[i]),
        core.len() > 0,
        !kind.holds(core[0]),
        !kind.holds(core.last()),
    ensures
        trimmed(before + core + after, kind) == core,
{
    let rest = core + after;
    assert(before + core + after =~= before + rest);
    assert(rest[0] == core[0]);
    lemma_trimmed_start(before, rest, kind);
    lemma_trimmed_end(core, after, kind);
}

/// The character of a hexadecimal digit.
pub open spec fn hex_char(n: nat) -> char {
    if n < 10 {
        digit_char(n)
    } else {
        ('a' as int + n - 10) as char
    }
}

/// The lowest `k` hexadecimal digits of a number.
pub open spec fn hex_text(n: nat, k: nat) -> Seq<char>
    decreases k,
{
    if k == 0 {
        Seq::empty()
    } else {
        hex_text(n / 16, (k - 1) as nat).push(hex_char(n % 16))
    }
}

/// Adds a hexadecimal digit to a text.
fn append_hex_digit(text: &mut String, n: u32)
    requires
        n < 16,
    ensures
        final(text)@ == old(text)@.push(hex_char(n as nat)),
{
    if n < 10 {
        append_digit(text, n as u64);
        return;
    }
    let digit: &str = match n {
        10 => "a",
        11 => "b",
        12 => "c",
        13 => "d",
        14 => "e",
        _ => "f",
    };
    proof {
        reveal_strlit("a");
        reveal_strlit("b");
        reveal_strlit("c");
        reveal_strlit("d");
        reveal_strlit("e");
        reveal_strlit("f");
        assert(digit@ =~= seq![hex_char(n as nat)]);
        assert(text@ + digit@ =~= text@.push(hex_char(n as nat)));
    }
    text.append(digit);
}

/// Adds the lowest `k` hexadecimal digits of a number to a text.
pub fn append_hex(text: &mut String, n: u32, k: u32)
    ensures
        final(text)@ == old(text)@ + hex_text(n as nat, k as nat),
    decreases k,
{
    let ghost before = text@;
    if k > 0 {
        append_hex(text, n / 16, k - 1);
        append_hex_digit(text, n % 16);
    }
    proof {
        assert(text@ =~= before + hex_text(n as nat, k as nat));
    }
}

/// A number in at least `k` decimal digits.
pub open spec fn padded_decimal(n: nat, k: nat) -> Seq<char> {
    if decimal(n).len() < k {
        Seq::new((k - decimal(n).len()) as nat, |i: int| '0') + decimal(n)
    } else {
        decimal(n)
    }
}

fn decimal_length(n: u64) -> (length: usize)
    ensures
        length == decimal(n as nat).len(),
        1 <= length <= 20,
{
    proof {
        assert(n < vstd::arithmetic::power::pow(10, 20)) by {
            lemma_ten_powers();
        }
        lemma_decimal_length(n as nat, 20);
    }
    let mut length: usize = 1;
    let mut rest: u64 = n;
    while rest >= 10
        invariant
            length + decimal(rest as nat).len() == decimal(n as nat).len() + 1,
            decimal(n as nat).len() <= 20,
            1 <= length,
        decreases rest,
    {
        proof {
            assert(decimal(rest as nat).len() == decimal(rest as nat / 10).len() + 1);
        }
        rest = rest / 10;
        length += 1;
    }
    length
}

proof fn lemma_ten_powers()
    ensures
        vstd::arithmetic::power::pow(10, 20) == 100000000000000000000int,
{
    reveal(vstd::arithmetic::power::pow);
    reveal_with_fuel(vstd::arithmetic::power::pow, 21);
}

/// A number below a power of ten has no more digits than the power.
proof fn lemma_decimal_length(n: nat, k: nat)
    requires
        k > 0,
        n < vstd::arithmetic::power::pow(10, k),
    ensures
        1 <= decimal(n).len() <= k,
    decreases k,
{
    if n >= 10 {
        if k == 1 {
            vstd::arithmetic::power::lemma_pow1(10);
        } else {
            vstd::arithmetic::power::lemma_pow_adds(10, 1, (k - 1) as nat);
            vstd::arithmetic::power::lemma_pow1(10);
            lemma_decimal_length(n / 10, (k - 1) as nat);
        }
    }
}

/// Adds a number in at least `k` decimal digits to a text.
pub fn append_padded(text: &mut String, n: u64, k: usize)
    ensures
        final(text)@ == old(text)@ + padded_decimal(n as nat, k as nat),
{
    let ghost before = text@;
    let length: usize = decimal_length(n);
    let mut i: usize = length;
    while i < k
        invariant
            length == decimal(n as nat).len(),
            length <= i,
            i <= k || i == length,
            text@ =~= before + Seq::new((i - length) as nat, |j: int| '0'),
        decreases k - i,
    {
        append_digit(text, 0);
        i += 1;
    }
    append_decimal(text, n as u128);
    proof {
        assert(text@ =~= before + padded_decimal(n as nat, k as nat));
    }
}

} // verus!
