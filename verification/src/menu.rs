//! Menus and the line of input by which a capture is controlled.

use crate::config::text_of;
use crate::text::{
    append_decimal, characters, contains, decimal, holds_text, same_text, trim_end, trim_start,
    trimmed, trimmed_end, trimmed_start, Kind,
};
use vstd::prelude::*;

verus! {

/// What is to be done after a frame captured one by one.
#[derive(Clone, Copy, Debug, PartialEq, Eq, Structural)]
pub enum GrimAction {
    Next,
    Finish,
    Abort,
}

/// The words of the menus.
#[derive(Clone, Copy, Debug)]
pub struct UiText {
    pub capture_next: &'static str,
    pub finish: &'static str,
    pub abort: &'static str,
    pub stop: &'static str,
    pub recording: &'static str,
    pub grim_mode: &'static str,
}

/// A text with its letters from A to Z made small.
pub open spec fn lowered(s: Seq<char>) -> Seq<char> {
    Seq::new(
        s.len(),
        |i: int|
            if 'A' <= s[i] <= 'Z' {
                (s[i] as int + 32) as char
            } else {
                s[i]
            },
    )
}

/// Whether a language is Chinese.
pub open spec fn is_chinese(lang: Seq<char>) -> bool {
    holds_text(lowered(lang), seq!['z', 'h'])
}

fn lower(c: char) -> (result: char)
    ensures
        result == if 'A' <= c <= 'Z' {
            (c as int + 32) as char
        } else {
            c
        },
{
    match c {
        'A' => 'a',
        'B' => 'b',
        'C' => 'c',
        'D' => 'd',
        'E' => 'e',
        'F' => 'f',
        'G' => 'g',
        'H' => 'h',
        'I' => 'i',
        'J' => 'j',
        'K' => 'k',
        'L' => 'l',
        'M' => 'm',
        'N' => 'n',
        'O' => 'o',
        'P' => 'p',
        'Q' => 'q',
        'R' => 'r',
        'S' => 's',
        'T' => 't',
        'U' => 'u',
        'V' => 'v',
        'W' => 'w',
        'X' => 'x',
        'Y' => 'y',
        'Z' => 'z',
        _ => c,
    }
}

/// The words of the menus in a language.
pub fn ui_text(lang: &str) -> (text: UiText)
    ensures
        is_chinese(lang@) ==> text.capture_next@ == "截取下一张"@ && text.finish@ == "完成"@
            && text.abort@ == "放弃"@ && text.stop@ == "停止"@ && text.recording@ == "录制中"@
            && text.grim_mode@ == "Grim 模式"@,
        !is_chinese(lang@) ==> text.capture_next@ == "Capture Next"@ && text.finish@ == "Finish"@
            && text.abort@ == "Abort"@ && text.stop@ == "Stop"@ && text.recording@ == "Recording"@
            && text.grim_mode@ == "Grim Mode"@,
{
    let chars = characters(lang);
    let mut small: Vec<char> = Vec::new();
    let mut i: usize = 0;
    while i < chars.len()
        invariant
            i <= chars@.len(),
            chars@ == lang@,
            small@.len() == i,
            forall|j: int| 0 <= j < i ==> (#[trigger] small@[j]) == lowered(lang@)[j],
        decreases chars@.len() - i,
    {
        small.push(lower(chars[i]));
        i += 1;
    }
    let zh: [char; 2] = ['z', 'h'];
    proof {
        assert(small@ =~= lowered(lang@));
        assert(zh@ =~= seq!['z', 'h']);
    }
    if contains(small.as_slice(), &zh) {
        UiText {
            capture_next: "截取下一张",
            finish: "完成",
            abort: "放弃",
            stop: "停止",
            recording: "录制中",
            grim_mode: "Grim 模式",
        }
    } else {
        UiText {
            capture_next: "Capture Next",
            finish: "Finish",
            abort: "Abort",
            stop: "Stop",
            recording: "Recording",
            grim_mode: "Grim Mode",
        }
    }
}

/// The texts of a list.
pub open spec fn texts_of(list: Seq<String>) -> Seq<Seq<char>> {
    Seq::new(list.len(), |i: int| list[i]@)
}

/// A program to run and its arguments.
#[derive(Debug)]
pub struct MenuCommand {
    pub program: String,
    pub args: Vec<String>,
}

/// How a menu is shown.
pub struct Menu {
    pub program: Seq<char>,
    pub args: Seq<Seq<char>>,
}

impl View for MenuCommand {
    type V = Menu;

    open spec fn view(&self) -> Menu {
        Menu { program: self.program@, args: texts_of(self.args@) }
    }
}

/// How a menu of `items` choices is shown by a menu program; any other command is run by the
/// shell.
pub open spec fn menu_of(command: Seq<char>, prompt: Seq<char>, items: nat, stop: bool) -> Menu {
    let lines = decimal(if items > 1 { items } else { 1 });
    if command == "fuzzel"@ {
        let start = seq!["-d"@, "--anchor"@, "top"@, "--y-margin"@, "20"@];
        Menu {
            program: "fuzzel"@,
            args: start + if stop {
                seq!["--lines"@, "1"@, "--width"@, "12"@, "-p"@, prompt + " "@]
            } else {
                seq!["--lines"@, lines, "--width"@, "20"@, "-p"@, prompt + ": "@]
            },
        }
    } else if command == "rofi"@ {
        let start = seq!["-dmenu"@, "-disable-history"@, "-p"@, prompt];
        Menu {
            program: "rofi"@,
            args: start + if stop {
                seq![
                    "-location"@,
                    "2"@,
                    "-yoffset"@,
                    "20"@,
                    "-theme-str"@,
                    "window {width: 250px;}"@,
                    "-l"@,
                    "1"@,
                ]
            } else {
                seq!["-theme-str"@, "window {width: 230px;}"@]
            },
        }
    } else if command == "wofi"@ {
        let start = seq!["-d"@, "-i"@, "-p"@, prompt, "--cache-file"@, "/dev/null"@];
        Menu {
            program: "wofi"@,
            args: start + if stop {
                seq![
                    "-l"@,
                    "top"@,
                    "-y"@,
                    "20"@,
                    "-W"@,
                    "250"@,
                    "-H"@,
                    "45"@,
                    "--lines"@,
                    "1"@,
                ]
            } else {
                seq!["--lines"@, lines, "-W"@, "230"@]
            },
        }
    } else {
        Menu {
            program: "sh"@,
            args: seq!["-c"@, command + " -p '"@ + prompt + ": '"@],
        }
    }
}

fn joined(start: &str, end: &str) -> (text: String)
    ensures
        text@ == start@ + end@,
{
    let mut text = start.to_owned();
    text.append(end);
    text
}

fn add_all(list: &mut Vec<String>, words: &[&str])
    ensures
        texts_of(final(list)@) =~= texts_of(old(list)@) + Seq::new(
            words@.len(),
            |i: int| words@[i]@,
        ),
{
    let ghost before = texts_of(list@);
    let mut i: usize = 0;
    while i < words.len()
        invariant
            i <= words@.len(),
            before == texts_of(old(list)@),
            texts_of(list@) =~= before + Seq::new(i as nat, |j: int| words@[j]@),
        decreases words@.len() - i,
    {
        let ghost now = list@;
        list.push(words[i].to_owned());
        proof {
            assert(texts_of(list@) =~= texts_of(now).push(words@[i as int]@));
        }
        i += 1;
    }
}

fn fuzzel_menu(prompt: &str, lines: &str, stop: bool) -> (args: Vec<String>)
    ensures
        texts_of(args@) =~= seq!["-d"@, "--anchor"@, "top"@, "--y-margin"@, "20"@] + if stop {
            seq!["--lines"@, "1"@, "--width"@, "12"@, "-p"@, prompt@ + " "@]
        } else {
            seq!["--lines"@, lines@, "--width"@, "20"@, "-p"@, prompt@ + ": "@]
        },
{
    let mut args: Vec<String> = Vec::new();
    add_all(&mut args, &["-d", "--anchor", "top", "--y-margin", "20"]);
    if stop {
        let spaced = joined(prompt, " ");
        add_all(&mut args, &["--lines", "1", "--width", "12", "-p", spaced.as_str()]);
    } else {
        let colon = joined(prompt, ": ");
        add_all(&mut args, &["--lines", lines, "--width", "20", "-p", colon.as_str()]);
    }
    args
}

fn rofi_menu(prompt: &str, stop: bool) -> (args: Vec<String>)
    ensures
        texts_of(args@) =~= seq!["-dmenu"@, "-disable-history"@, "-p"@, prompt@] + if stop {
            seq![
                "-location"@,
                "2"@,
                "-yoffset"@,
                "20"@,
                "-theme-str"@,
                "window {width: 250px;}"@,
                "-l"@,
                "1"@,
            ]
        } else {
            seq!["-theme-str"@, "window {width: 230px;}"@]
        },
{
    let mut args: Vec<String> = Vec::new();
    add_all(&mut args, &["-dmenu", "-disable-history", "-p", prompt]);
    if stop {
        add_all(
            &mut args,
            &[
                "-location",
                "2",
                "-yoffset",
                "20",
                "-theme-str",
                "window {width: 250px;}",
                "-l",
                "1",
            ],
        );
    } else {
        add_all(&mut args, &["-theme-str", "window {width: 230px;}"]);
    }
    args
}

fn wofi_menu(prompt: &str, lines: &str, stop: bool) -> (args: Vec<String>)
    ensures
        texts_of(args@) =~= seq!["-d"@, "-i"@, "-p"@, prompt@, "--cache-file"@, "/dev/null"@]
            + if stop {
            seq![
                "-l"@,
                "top"@,
                "-y"@,
                "20"@,
                "-W"@,
                "250"@,
                "-H"@,
                "45"@,
                "--lines"@,
                "1"@,
            ]
        } else {
            seq!["--lines"@, lines@, "-W"@, "230"@]
        },
{
    let mut args: Vec<String> = Vec::new();
    add_all(&mut args, &["-d", "-i", "-p", prompt, "--cache-file", "/dev/null"]);
    if stop {
        add_all(
            &mut args,
            &["-l", "top", "-y", "20", "-W", "250", "-H", "45", "--lines", "1"],
        );
    } else {
        add_all(&mut args, &["--lines", lines, "-W", "230"]);
    }
    args
}

/// How a menu is shown by a menu program.
pub fn menu_command(menu_cmd: &str, prompt: &str, items: usize, stop: bool) -> (command: MenuCommand)
    ensures
        command@ == menu_of(menu_cmd@, prompt@, items as nat, stop),
{
    let mut lines = String::new();
    append_decimal(&mut lines, if items > 1 { items as u128 } else { 1 });
    proof {
        let n: nat = if items > 1 {
            items as nat
        } else {
            1
        };
        assert(lines@ =~= decimal(n));
    }
    if same_text(menu_cmd, "fuzzel") {
        MenuCommand { program: "fuzzel".to_owned(), args: fuzzel_menu(prompt, lines.as_str(), stop) }
    } else if same_text(menu_cmd, "rofi") {
        MenuCommand { program: "rofi".to_owned(), args: rofi_menu(prompt, stop) }
    } else if same_text(menu_cmd, "wofi") {
        MenuCommand { program: "wofi".to_owned(), args: wofi_menu(prompt, lines.as_str(), stop) }
    } else {
        let mut script = joined(menu_cmd, " -p '");
        script.append(prompt);
        script.append(": '");
        let mut args: Vec<String> = Vec::new();
        add_all(&mut args, &["-c", script.as_str()]);
        proof {
            assert(texts_of(args@) =~= seq![
                "-c"@,
                menu_cmd@ + " -p '"@ + prompt@ + ": '"@,
            ]);
        }
        MenuCommand { program: "sh".to_owned(), args }
    }
}

/// What a menu program is given: each choice on a line of its own; a single empty line where
/// there are none.
pub open spec fn choices_text(items: Seq<&str>) -> Seq<char>
    decreases items.len(),
{
    if items.len() <= 1 {
        (if items.len() == 1 { items[0]@ } else { Seq::empty() }) + "\n"@
    } else {
        choices_text(items.drop_last()) + items.last()@ + "\n"@
    }
}

/// What a menu program is given.
pub fn menu_input(items: &[&str]) -> (input: String)
    ensures
        input@ == choices_text(items@),
{
    let mut input = String::new();
    let mut i: usize = 0;
    if items.len() == 0 {
        input.append("\n");
        proof {
            assert(input@ =~= choices_text(items@));
        }
        return input;
    }
    while i < items.len()
        invariant
            i <= items@.len(),
            0 < items@.len(),
            i == 0 ==> input@ == Seq::<char>::empty(),
            i > 0 ==> input@ == choices_text(items@.take(i as int)),
        decreases items@.len() - i,
    {
        proof {
            assert(items@.take(i + 1).drop_last() =~= items@.take(i as int));
        }
        input.append(items[i]);
        input.append("\n");
        proof {
            if i == 0 {
                assert(input@ =~= choices_text(items@.take(1)));
            } else {
                assert(input@ =~= choices_text(items@.take(i + 1)));
            }
        }
        i += 1;
    }
    proof {
        assert(items@.take(items@.len() as int) =~= items@);
    }
    input
}

/// Trimming drops characters at both ends only.
proof fn lemma_trim_part(s: Seq<char>, kind: Kind)
    ensures
        trimmed_start(s, kind).len() <= s.len(),
        trimmed_start(s, kind) == s.skip(s.len() - trimmed_start(s, kind).len()),
    decreases s.len(),
{
    if s.len() > 0 && kind.holds(s[0]) {
        lemma_trim_part(s.drop_first(), kind);
        let rest = trimmed_start(s, kind);
        assert(s.drop_first().skip(s.len() - 1 - rest.len()) =~= s.skip(s.len() - rest.len()));
    } else {
        assert(s.skip(0) =~= s);
    }
}

proof fn lemma_trim_end_part(s: Seq<char>, kind: Kind)
    ensures
        trimmed_end(s, kind).len() <= s.len(),
        trimmed_end(s, kind) == s.take(trimmed_end(s, kind).len() as int),
    decreases s.len(),
{
    if s.len() > 0 && kind.holds(s.last()) {
        lemma_trim_end_part(s.drop_last(), kind);
        let rest = trimmed_end(s, kind);
        assert(s.drop_last().take(rest.len() as int) =~= s.take(rest.len() as int));
    } else {
        assert(s.take(s.len() as int) =~= s);
    }
}

/// A text without white space at both ends.
pub fn trimmed_text(text: &str) -> (bare: String)
    ensures
        bare@ == trimmed(text@, Kind::White),
{
    let chars = characters(text);
    let start = trim_start(chars.as_slice(), Kind::White);
    let bare = trim_end(start, Kind::White);
    proof {
        lemma_trim_part(text@, Kind::White);
        lemma_trim_end_part(start@, Kind::White);
    }
    let from: usize = chars.len() - start.len();
    let to: usize = from + bare.len();
    proof {
        assert(text@.subrange(from as int, to as int) =~= bare@);
    }
    text.substring_char(from, to).to_owned()
}

/// The choice that a menu program tells, if any.
pub fn menu_choice(output: &str) -> (choice: Option<String>)
    ensures
        match choice {
            Some(text) => text@ == trimmed(output@, Kind::White) && text@.len() > 0,
            None => trimmed(output@, Kind::White).len() == 0,
        },
{
    let choice = trimmed_text(output);
    if choice.as_str().is_empty() {
        None
    } else {
        Some(choice)
    }
}

/// Whether the choice is to stop.
pub fn is_stop(choice: &Option<String>, text: &UiText) -> (stop: bool)
    ensures
        stop == (choice matches Some(value) && value@ == text.stop@),
{
    match choice {
        Some(value) => same_text(value.as_str(), text.stop),
        None => false,
    }
}

/// What a choice means after a frame captured one by one.
pub open spec fn meant(choice: Option<Seq<char>>, text: UiText) -> Option<GrimAction> {
    if choice is None {
        None
    } else if choice->0 == text.capture_next@ {
        Some(GrimAction::Next)
    } else if choice->0 == text.finish@ {
        Some(GrimAction::Finish)
    } else if choice->0 == text.abort@ {
        Some(GrimAction::Abort)
    } else {
        None
    }
}

/// What a choice means after a frame captured one by one.
pub fn grim_action_of(choice: &Option<String>, text: &UiText) -> (action: Option<GrimAction>)
    ensures
        action == meant(
            text_of(*choice),
            *text,
        ),
{
    match choice {
        None => None,
        Some(value) => {
            if same_text(value.as_str(), text.capture_next) {
                Some(GrimAction::Next)
            } else if same_text(value.as_str(), text.finish) {
                Some(GrimAction::Finish)
            } else if same_text(value.as_str(), text.abort) {
                Some(GrimAction::Abort)
            } else {
                None
            }
        },
    }
}

/// What a line of input means after a frame captured one by one; no line at all finishes.
pub open spec fn line_meant(line: Option<Seq<char>>) -> GrimAction {
    match line {
        None => GrimAction::Finish,
        Some(line) => {
            let bare = trimmed(line, Kind::White);
            if bare == "f"@ || bare == "finish"@ {
                GrimAction::Finish
            } else if bare == "q"@ || bare == "abort"@ {
                GrimAction::Abort
            } else {
                GrimAction::Next
            }
        },
    }
}

/// What a line of input means after a frame captured one by one.
pub fn line_action(line: Option<String>) -> (action: GrimAction)
    ensures
        action == line_meant(
            text_of(line),
        ),
{
    match line {
        None => GrimAction::Finish,
        Some(line) => {
            let bare = trimmed_text(line.as_str());
            if same_text(bare.as_str(), "f") || same_text(bare.as_str(), "finish") {
                GrimAction::Finish
            } else if same_text(bare.as_str(), "q") || same_text(bare.as_str(), "abort") {
                GrimAction::Abort
            } else {
                GrimAction::Next
            }
        },
    }
}

/// Whether a text holds nothing but white space.
pub fn is_blank(text: &str) -> (blank: bool)
    ensures
        blank == (trimmed(text@, Kind::White).len() == 0),
{
    trimmed_text(text).as_str().is_empty()
}

/// The menu command that was asked for, if any.
pub fn configured_menu(menu_cmd: &Option<String>) -> (command: Option<String>)
    ensures
        match menu_cmd {
            Some(text) => if trimmed(text@, Kind::White).len() > 0 {
                command matches Some(found) && found@ == text@
            } else {
                command is None
            },
            None => command is None,
        },
{
    match menu_cmd {
        Some(text) => {
            if is_blank(text.as_str()) {
                None
            } else {
                Some(text.clone())
            }
        },
        None => None,
    }
}

/// The menu programs that are known, in the order in which they are preferred.
pub open spec fn known_menus() -> Seq<Seq<char>> {
    seq!["fuzzel"@, "rofi"@, "wofi"@]
}

/// The menu programs that are known.
pub fn menu_programs() -> (names: Vec<String>)
    ensures
        texts_of(names@) =~= known_menus(),
{
    let mut names: Vec<String> = Vec::new();
    add_all(&mut names, &["fuzzel", "rofi", "wofi"]);
    names
}

/// The script that tells whether a program is there.
pub fn probe_script(program: &str) -> (script: String)
    ensures
        script@ == "command -v "@ + program@ + " >/dev/null 2>&1"@,
{
    let mut script = joined("command -v ", program);
    script.append(" >/dev/null 2>&1");
    script
}

/// The menu command: the one asked for, else the first of the known programs that is there.
pub open spec fn menu_found(wanted: Option<Seq<char>>, there: Seq<bool>, k: int) -> Option<Seq<char>>
    decreases there.len() - k,
{
    if wanted is Some && trimmed(wanted->0, Kind::White).len() > 0 {
        wanted
    } else if k < 0 || k >= there.len() || k >= known_menus().len() {
        None
    } else if there[k] {
        Some(known_menus()[k])
    } else {
        menu_found(wanted, there, k + 1)
    }
}

/// How choices are offered.
#[derive(Debug)]
pub enum MenuChoice {
    /// By a menu program.
    Program(String),
    /// As a text on the command line.
    Text,
}

/// How choices are offered: by the menu command asked for, else by the first of the known
/// programs that is there, else as a text on the command line.
pub fn resolve_menu_cmd(menu_cmd: &Option<String>, there: &Vec<bool>) -> (choice: MenuChoice)
    ensures
        match menu_found(text_of(*menu_cmd), there@, 0) {
            Some(name) => choice matches MenuChoice::Program(found) && found@ == name,
            None => choice is Text,
        },
{
    if let Some(command) = configured_menu(menu_cmd) {
        return MenuChoice::Program(command);
    }
    let ghost wanted = text_of(*menu_cmd);
    let names = menu_programs();
    proof {
        assert(texts_of(names@).len() == names@.len());
    }
    let mut k: usize = 0;
    while k < there.len() && k < names.len()
        invariant
            k <= there@.len(),
            wanted == text_of(*menu_cmd),
            texts_of(names@) == known_menus(),
            names@.len() == known_menus().len(),
            menu_found(wanted, there@, 0) == menu_found(wanted, there@, k as int),
            !(wanted is Some && trimmed(wanted->0, Kind::White).len() > 0),
        decreases there@.len() - k,
    {
        if there[k] {
            proof {
                assert(texts_of(names@)[k as int] == names@[k as int]@);
            }
            return MenuChoice::Program(names[k].clone());
        }
        k += 1;
    }
    MenuChoice::Text
}

} // verus!
