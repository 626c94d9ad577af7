//! Which colour style sheets give the accent.

use crate::color::{
    definition, line_value, named_color, next_word, sheet_accent, sheet_value, sheets_accent,
};
use crate::text::{
    first_of, holds_at, is_white, lemma_split_joined, lemma_trimmed, lemma_trimmed_end,
    lemma_trimmed_start, starts_with, Kind,
};
use vstd::prelude::*;

verus! {

/// Whether a text is a word: not empty, without white space.
pub open spec fn is_word(s: Seq<char>) -> bool {
    &&& s.len() > 0
    &&& forall|i: int| 0 <= i < s.len() ==> !is_white(#[trigger] s[i])
}

proof fn lemma_word_ends(word: Seq<char>, rest: Seq<char>)
    requires
        forall|i: int| 0 <= i < word.len() ==> !is_white(#[trigger] word[i]),
        rest.len() == 0 || is_white(rest[0]),
    ensures
        first_of(word + rest, Kind::White) == word.len(),
    decreases word.len(),
{
    if word.len() > 0 {
        let shorter = word.drop_first();
        assert forall|i: int| 0 <= i < shorter.len() implies !is_white(#[trigger] shorter[i]) by {
            assert(shorter[i] == word[i + 1]);
        }
        lemma_word_ends(shorter, rest);
        assert((word + rest).drop_first() =~= shorter + rest);
        assert((word + rest)[0] == word[0]);
    } else {
        assert(word + rest =~= rest);
    }
}

/// A word is read as far as it goes, whatever white space comes before it.
proof fn lemma_word_read(before: Seq<char>, word: Seq<char>, rest: Seq<char>)
    requires
        forall|i: int| 0 <= i < before.len() ==> is_white(#[trigger] before[i]),
        is_word(word),
        rest.len() == 0 || is_white(rest[0]),
    ensures
        next_word(before + (word + rest)) == Some((word, rest)),
{
    let s = word + rest;
    assert(s[0] == word[0]);
    lemma_trimmed_start(before, s, Kind::White);
    lemma_word_ends(word, rest);
    assert(s.take(word.len() as int) =~= word);
    assert(s.skip(word.len() as int) =~= rest);
}

/// A line that defines a colour gives its name the word that follows it.
pub proof fn lemma_definition_read(
    before: Seq<char>,
    name: Seq<char>,
    value: Seq<char>,
    after: Seq<char>,
)
    requires
        forall|i: int| 0 <= i < before.len() ==> is_white(#[trigger] before[i]),
        forall|i: int| 0 <= i < after.len() ==> is_white(#[trigger] after[i]),
        is_word(name),
        is_word(value),
        value.last() != ';',
    ensures
        line_value(
            before + ("@define-color"@ + seq![' '] + name + seq![' '] + value + seq![';']) + after,
            name,
        ) == Some(value),
{
    let start = "@define-color"@;
    reveal_strlit("@define-color");
    let gap = seq![' '];
    let core = start + gap + name + gap + value;
    let line = core + seq![';'];
    assert(start.len() == 13);
    assert(is_white(' '));
    assert forall|i: int| 0 <= i < start.len() implies !is_white(#[trigger] start[i]) by {
        assert(start[0] == '@' && start[1] == 'd' && start[2] == 'e' && start[3] == 'f' && start[4]
            == 'i' && start[5] == 'n' && start[6] == 'e' && start[7] == '-' && start[8] == 'c'
            && start[9] == 'o' && start[10] == 'l' && start[11] == 'o' && start[12] == 'r');
        assert(i == 0 || i == 1 || i == 2 || i == 3 || i == 4 || i == 5 || i == 6 || i == 7 || i
            == 8 || i == 9 || i == 10 || i == 11 || i == 12);
    }
    assert(line[0] == start[0]);
    assert(line.last() == ';');
    lemma_trimmed(before, line, after, Kind::White);
    assert(core.last() == value.last());
    lemma_trimmed_end(core, seq![';'], Kind::Only(';'));
    let none = Seq::<char>::empty();
    let third = gap + (value + none);
    let second = gap + (name + third);
    assert(core =~= none + (start + second));
    lemma_word_read(none, start, second);
    lemma_word_read(gap, name, third);
    lemma_word_read(gap, value, none);
    assert(definition(core) == Some((name, value)));
    let at = start.len() as int + 1;
    assert(line.subrange(at, at + name.len()) =~= name);
    assert(holds_at(line, name, at));
    assert(line.take(start.len() as int) =~= start);
    assert(starts_with(line, start));
}

/// A line that gives a property the colour gives what stands after its colon.
pub proof fn lemma_property_read(name: Seq<char>, before: Seq<char>, value: Seq<char>)
    requires
        is_word(name),
        forall|i: int| 0 <= i < name.len() ==> name[i] != ':',
        name[0] != '@',
        forall|i: int| 0 <= i < before.len() ==> is_white(#[trigger] before[i]),
        value.len() > 0,
        !is_white(value[0]),
        value.last() != ';',
    ensures
        line_value(name + seq![':'] + (before + value + seq![';']), name) == Some(value),
{
    let tail = value + seq![';'];
    let line = name + seq![':'] + (before + value + seq![';']);
    let none = Seq::<char>::empty();
    reveal_strlit("@define-color");
    assert("@define-color"@[0] == '@');
    assert("@define-color"@.len() == 13);
    assert(line[0] == name[0] && line.last() == ';');
    assert(none + line + none =~= line);
    lemma_trimmed(none, line, none, Kind::White);
    assert(line.subrange(0, name.len() as int) =~= name);
    assert(holds_at(line, name, 0));
    if starts_with(line, "@define-color"@) {
        assert(line.take(13)[0] == line[0]);
    }
    lemma_split_joined(name, ':', before + value + seq![';']);
    assert(before + value + seq![';'] =~= before + tail + none);
    assert(tail[0] == value[0]);
    lemma_trimmed(before, tail, none, Kind::White);
    lemma_trimmed_end(value, seq![';'], Kind::Only(';'));
}

/// A line without the name gives nothing, and what a style sheet gives is what its first line
/// gives that gives anything.
pub proof fn lemma_first_line(line: Seq<char>, rest: Seq<char>, name: Seq<char>)
    requires
        forall|i: int| 0 <= i < line.len() ==> line[i] != '\n',
    ensures
        sheet_value(line + seq!['\n'] + rest, name) == if line_value(line, name) is Some {
            line_value(line, name)
        } else {
            sheet_value(rest, name)
        },
{
    lemma_split_joined(line, '\n', rest);
}

/// A style sheet is asked for the accent colour, then for the colour of what is selected, then
/// for the primary colour.
pub proof fn lemma_names_in_order(content: Seq<char>)
    ensures
        ({
            let accent = named_color(content, "accent_color"@);
            let selected = named_color(content, "theme_selected_bg_color"@);
            let primary = named_color(content, "primary"@);
            &&& accent is Some ==> sheet_accent(content, 0) == accent
            &&& accent is None && selected is Some ==> sheet_accent(content, 0) == selected
            &&& accent is None && selected is None ==> sheet_accent(content, 0) == primary
        }),
{
    reveal_with_fuel(sheet_accent, 5);
}

/// The first style sheet that gives an accent colour decides, and where none does, it is white.
pub proof fn lemma_first_sheet(sheets: Seq<String>, k: int, deciding: int)
    requires
        0 <= k <= deciding <= sheets.len(),
        forall|i: int| k <= i < deciding ==> sheet_accent(#[trigger] sheets[i]@, 0) is None,
        deciding < sheets.len() ==> sheet_accent(sheets[deciding]@, 0) is Some,
    ensures
        sheets_accent(sheets, k) == if deciding < sheets.len() {
            sheet_accent(sheets[deciding]@, 0)->0
        } else {
            seq![255u8, 255u8, 255u8]
        },
    decreases deciding - k,
{
    if k < deciding {
        assert(sheet_accent(sheets[k]@, 0) is None);
        lemma_first_sheet(sheets, k + 1, deciding);
    }
}

} // verus!
