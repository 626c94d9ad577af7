use wl_longshot::color::{
    find_css_color, is_accent_readable, is_color_readable, is_named_readable, parse_color,
    parse_hex_color, resolve_accent_color, sheet_folder, sheet_names, SheetFolder,
};
use wl_longshot::config::{
    classify, parse_args, parse_backend, parse_control_mode, parse_grim_mode, read_args, take_arg,
    Backend, Config, ControlMode, GrimMode, Request, SwitchOption, ValueOption, Word,
};
use wl_longshot::menu::{
    configured_menu, grim_action_of, is_blank, is_stop, line_action, menu_choice, menu_command,
    menu_input, menu_programs, probe_script, resolve_menu_cmd, trimmed_text, ui_text, GrimAction,
    MenuChoice,
};
use wl_longshot::preview::Rect;
use wl_longshot::stream::{manifest, StreamWriter};
use wl_longshot::text::{
    append_decimal, append_hex, append_padded, append_signed, begins, characters, contains, digit,
    find, parse_i32, parse_unsigned, same_text, split_once, trim, Kind,
};

fn strings(words: &[&str]) -> Vec<String> {
    words.iter().map(|word| word.to_string()).collect()
}

fn config(words: &[&str]) -> Config {
    match parse_args(strings(words)).unwrap() {
        Request::Run(config) => config,
        other => panic!("{other:?}"),
    }
}

fn fault(words: &[&str]) -> String {
    parse_args(strings(words)).unwrap_err()
}

#[test]
fn white_space_is_that_of_the_machine() {
    for code in 0..=0x10ffffu32 {
        if let Some(c) = char::from_u32(code) {
            assert_eq!(Kind::White.matches(c), c.is_whitespace(), "{code:x}");
        }
    }
}

#[test]
fn digits_are_those_of_the_machine() {
    for code in 0..0x3000u32 {
        if let Some(c) = char::from_u32(code) {
            assert_eq!(digit(c, 10), c.to_digit(10));
            assert_eq!(digit(c, 16), c.to_digit(16));
        }
    }
}

#[test]
fn numbers_are_read_as_by_the_machine() {
    for text in [
        "", "+", "-", "0", "-0", "+7", "007", "12a", " 1", "2147483647", "2147483648",
        "-2147483648", "-2147483649", "99999999999999999999999", "٣", "--1", "+-1",
    ] {
        let chars = characters(text);
        assert_eq!(parse_i32(&chars), text.parse::<i32>().ok(), "{text}");
        let number = parse_unsigned(&chars, 10, u32::MAX as u64);
        assert_eq!(number, text.parse::<u32>().ok().map(u64::from), "{text}");
        let number = parse_unsigned(&chars, 10, u64::MAX);
        assert_eq!(number, text.parse::<u64>().ok(), "{text}");
    }
    let chars = characters("fF");
    assert_eq!(parse_unsigned(&chars, 16, 255), Some(255));
    assert_eq!(parse_unsigned(&chars, 10, 255), None);
}

#[test]
fn numbers_are_written_as_by_the_machine() {
    for n in [0u128, 9, 10, 1234567890, u64::MAX as u128, u128::MAX] {
        let mut text = "n=".to_string();
        append_decimal(&mut text, n);
        assert_eq!(text, format!("n={n}"));
    }
    for n in [0i32, -1, 42, i32::MAX, i32::MIN] {
        let mut text = String::new();
        append_signed(&mut text, n);
        assert_eq!(text, format!("{n}"));
    }
    let mut text = String::new();
    append_hex(&mut text, 0x34324241, 8);
    append_padded(&mut text, 42, 6);
    append_padded(&mut text, 1234567, 6);
    assert_eq!(text, "343242410000421234567");
}

#[test]
fn texts_are_searched() {
    let chars = characters("  a:b:c ");
    let bare = trim(&chars, Kind::White);
    assert_eq!(bare, &['a', ':', 'b', ':', 'c']);
    let (left, right) = split_once(bare, ':').unwrap();
    assert_eq!((left, right), (&['a'][..], &['b', ':', 'c'][..]));
    assert!(split_once(bare, ';').is_none());
    assert_eq!(find(&chars, Kind::White), 0);
    assert!(begins(bare, &['a', ':']) && !begins(bare, &['b']));
    assert!(contains(bare, &[':', 'c']) && !contains(bare, &['c', ':']));
    assert!(same_text("é", "é") && !same_text("é", "e") && !same_text("a", "ab"));
}

#[test]
fn geometry_is_read() {
    let rect = Rect::parse("10,-20 800x1200").unwrap();
    assert_eq!((rect.x, rect.y, rect.width, rect.height), (10, -20, 800, 1200));
    assert_eq!(rect.to_text(), "10,-20 800x1200");
    for (text, message) in [
        ("10,20", "geometry must look like 'x,y WIDTHxHEIGHT'"),
        ("10 20x30", "geometry must include x,y position"),
        ("10,20 30", "geometry must include WIDTHxHEIGHT size"),
        ("a,20 30x40", "invalid geometry x"),
        ("10,b 30x40", "invalid geometry y"),
        ("10,20 cx40", "invalid geometry width"),
        ("10,20 30xd", "invalid geometry height"),
        ("10,20 30x40 ", "invalid geometry height"),
        ("10,20 0x40", "geometry width and height must be positive"),
        ("10,20 30x-4", "geometry width and height must be positive"),
    ] {
        assert_eq!(Rect::parse(text).unwrap_err(), message, "{text}");
    }
}

#[test]
fn written_geometry_is_read_back() {
    for (x, y, width, height) in [(0, 0, 1, 1), (i32::MIN, i32::MAX, i32::MAX, 7), (-5, 9, 3, 2)] {
        let rect = Rect::parse(&Rect { x, y, width, height }.to_text()).unwrap();
        assert_eq!((rect.x, rect.y, rect.width, rect.height), (x, y, width, height));
    }
    let flat = Rect { x: 1, y: 2, width: 3, height: 0 };
    assert_eq!(
        Rect::parse(&flat.to_text()).unwrap_err(),
        "geometry width and height must be positive"
    );
}

#[test]
fn colors_are_read() {
    assert_eq!(parse_color("#d2c973"), Some([0xd2, 0xc9, 0x73]));
    assert_eq!(parse_color(" \"#d2c973\" "), Some([0xd2, 0xc9, 0x73]));
    assert_eq!(parse_color("'#d2c97380'"), Some([0xd2, 0xc9, 0x73]));
    assert_eq!(parse_color("#abc"), Some([0xaa, 0xbb, 0xcc]));
    assert_eq!(parse_color("#abcd"), Some([0xaa, 0xbb, 0xcc]));
    assert_eq!(parse_color("#ab"), None);
    assert_eq!(parse_color("#ggg"), None);
    assert_eq!(parse_color("#gggggg"), None);
    assert_eq!(parse_color("#+1+2+3"), Some([1, 2, 3]));
    assert_eq!(parse_color("rgb(1, 2,3)"), Some([1, 2, 3]));
    assert_eq!(parse_color("rgb(1,2,3,4)"), Some([1, 2, 3]));
    assert_eq!(parse_color("rgb(1,2)"), None);
    assert_eq!(parse_color("rgb(1,2,256)"), None);
    assert_eq!(parse_color("rgb(1,2,3"), None);
    assert_eq!(parse_color("red"), None);
    assert_eq!(parse_color(""), None);
}

#[test]
fn colors_are_not_cut_inside_a_character() {
    assert!(is_color_readable("#d2c973"));
    assert!(is_color_readable("red"));
    assert!(!is_color_readable("#aéaaa"));
    assert!(is_color_readable("#ééé"));
    assert_eq!(parse_color("#ééé"), None);
    assert!(is_named_readable("accent_color: #abcdef;", "accent_color"));
}

#[test]
fn colors_are_found_in_style_sheets() {
    let sheet = "a { }\n@define-color accent_color #112233;\n";
    assert_eq!(find_css_color(sheet, "accent_color"), Some([0x11, 0x22, 0x33]));
    assert_eq!(find_css_color("  --primary: rgb(4,5,6);", "primary"), Some([4, 5, 6]));
    assert_eq!(find_css_color("--primary: none;\n--primary: #123;", "primary"), None);
    assert_eq!(find_css_color(sheet, "primary"), None);
    assert_eq!(find_css_color("@define-color accent_color_two #123;", "accent_color"), None);
    assert_eq!(find_css_color("accent_color\n", "accent_color"), None);
}

#[test]
fn accent_comes_from_the_first_that_has_one() {
    let sheets = strings(&["", "primary: #010203", "accent_color: #040506"]);
    assert!(is_accent_readable(None, &sheets));
    assert_eq!(resolve_accent_color(None, &sheets), [1, 2, 3]);
    assert_eq!(resolve_accent_color(Some("#fff".to_string()), &sheets), [255, 255, 255]);
    assert_eq!(resolve_accent_color(Some("nothing".to_string()), &sheets), [1, 2, 3]);
    assert_eq!(resolve_accent_color(None, &vec![]), [255, 255, 255]);
    let both = strings(&["primary: #010203\naccent_color: #040506"]);
    assert_eq!(resolve_accent_color(None, &both), [4, 5, 6]);
    assert!(!is_accent_readable(Some("#aéaaa".to_string()), &sheets));
}

#[test]
fn command_line_has_defaults() {
    let config = config(&[]);
    assert_eq!((config.output, config.geometry, config.menu_cmd), (None, None, None));
    assert_eq!((config.backend, config.fps), (Backend::Frame, 15));
    assert_eq!((config.copy, config.open, config.edit), (true, false, false));
    assert_eq!((config.debug_dir, config.debug_timing), (None, false));
    assert_eq!((config.show_border, config.border_color), (true, None));
    assert_eq!((config.preview, config.preview_width), (true, 320));
    assert_eq!((config.stream, config.stream_keep_frames), (None, false));
    assert_eq!((config.stream_every, config.grim_mode), (1, GrimMode::Auto));
    assert_eq!((config.grim_fixed_width, config.grim_dedup), (true, true));
    assert_eq!(config.control, ControlMode::Stdin);
}

#[test]
fn command_line_sets_everything() {
    let config = config(&[
        "-o", "a.png", "-g", "1,2 3x4", "-b", "grim", "-f", "30", "--no-copy", "--open", "--edit",
        "--debug-dir", "d", "--debug-timing", "--no-border", "--border-color", "#010203",
        "--no-preview", "--preview-width", "80", "--stream", "s", "--stream-keep-frames",
        "--stream-every", "3", "--grim-mode", "manual", "--no-grim-fixed-width",
        "--no-grim-dedup", "--control", "menu", "--menu-cmd", "m",
    ]);
    assert_eq!(config.output.as_deref(), Some("a.png"));
    assert_eq!(config.geometry.as_deref(), Some("1,2 3x4"));
    assert_eq!((config.backend, config.fps), (Backend::Grim, 30));
    assert_eq!((config.copy, config.open, config.edit), (false, true, true));
    assert_eq!(config.debug_dir.as_deref(), Some("d"));
    assert!(config.debug_timing && !config.show_border && !config.preview);
    assert_eq!((config.border_color, config.preview_width), (Some([1, 2, 3]), 80));
    assert_eq!(config.stream.as_deref(), Some("s"));
    assert_eq!((config.stream_keep_frames, config.stream_every), (true, 3));
    assert_eq!(config.grim_mode, GrimMode::Manual);
    assert!(!config.grim_fixed_width && !config.grim_dedup);
    assert_eq!(config.control, ControlMode::Menu);
    assert_eq!(config.menu_cmd.as_deref(), Some("m"));
}

#[test]
fn last_switch_wins() {
    assert!(config(&["--no-copy", "--copy"]).copy);
    assert!(!config(&["--copy", "--no-copy"]).copy);
    assert!(config(&["--no-preview", "--preview"]).preview);
    assert!(config(&["--no-grim-dedup", "--grim-dedup"]).grim_dedup);
    assert!(config(&["--no-grim-fixed-width", "--grim-fixed-width"]).grim_fixed_width);
}

#[test]
fn output_may_come_last() {
    assert_eq!(config(&["b.png"]).output.as_deref(), Some("b.png"));
    assert_eq!(config(&["-o", "a.png", "b.png"]).output.as_deref(), Some("a.png"));
    assert_eq!(config(&["--no-copy", "-o", "-"]).output.as_deref(), Some("-"));
}

#[test]
fn command_line_is_refused() {
    assert_eq!(fault(&["a", "b"]), "too many output files");
    assert_eq!(fault(&["-o", "-"]), "--copy cannot be used with stdout output");
    assert_eq!(
        fault(&["-o", "-", "--no-copy", "--open"]),
        "--open cannot be used with stdout output"
    );
    assert_eq!(
        fault(&["-o", "-", "--no-copy", "--edit"]),
        "--edit cannot be used with stdout output"
    );
    assert_eq!(fault(&["--nothing"]), "unknown option: --nothing");
    assert_eq!(fault(&["-"]), "unknown option: -");
    assert_eq!(fault(&["-g"]), "missing argument for --geometry");
    assert_eq!(fault(&["--border-color"]), "missing argument for --boarder-color");
    assert_eq!(fault(&["-b", "x"]), "invalid backend: x");
    assert_eq!(fault(&["-f", "x"]), "fps must be an integer");
    assert_eq!(fault(&["-f", "0"]), "fps must be in 1..120");
    assert_eq!(fault(&["-f", "121"]), "fps must be in 1..120");
    assert_eq!(fault(&["--boarder-color", "x"]), "invalid border color: x");
    assert_eq!(fault(&["--preview-width", "x"]), "preview width must be an integer");
    assert_eq!(fault(&["--preview-width", "79"]), "preview width must be in 80..1200");
    assert_eq!(fault(&["--stream-every", "x"]), "stream every must be an integer");
    assert_eq!(fault(&["--stream-every", "0"]), "stream every must be greater than 0");
    assert_eq!(fault(&["--grim-mode", "x"]), "invalid grim mode: x");
    assert_eq!(fault(&["--control", "x"]), "invalid control mode: x");
}

#[test]
fn command_line_asks_for_help() {
    assert!(matches!(parse_args(strings(&["-h", "--nothing"])), Ok(Request::Help)));
    assert!(matches!(parse_args(strings(&["--version"])), Ok(Request::Version)));
    assert!(matches!(parse_args(strings(&["--list-backends"])), Ok(Request::ListBackends)));
    assert!(read_args(&strings(&["--border-color", "#aéaaa"])).is_none());
    assert!(read_args(&strings(&["--no-copy", "-o", "--border-color", "#aéaaa"])).is_some());
    assert!(read_args(&strings(&["-x", "--border-color", "#aéaaa"])).is_some());
}

#[test]
fn words_are_told_apart() {
    assert_eq!(classify("--output"), Word::Value(ValueOption::Output));
    assert_eq!(classify("-c"), Word::Switch(SwitchOption::Copy));
    assert_eq!(classify("-"), Word::Unknown);
    assert_eq!(classify(""), Word::Output);
    assert_eq!(parse_backend("frame-helper"), Ok(Backend::Frame));
    assert_eq!(parse_grim_mode("auto"), Ok(GrimMode::Auto));
    assert_eq!(parse_control_mode("stdin"), Ok(ControlMode::Stdin));
    assert_eq!(take_arg(&strings(&["a"]), 0, "--x"), Ok("a".to_string()));
    assert_eq!(take_arg(&strings(&["a"]), 1, "--x"), Err("missing argument for --x".to_string()));
}

#[test]
fn texts_follow_the_language() {
    assert_eq!(ui_text("en_US.UTF-8").stop, "Stop");
    assert_eq!(ui_text("").capture_next, "Capture Next");
    assert_eq!(ui_text("ZH_CN.UTF-8").stop, "停止");
    assert_eq!(ui_text("zh").grim_mode, "Grim 模式");
}

#[test]
fn menus_are_started() {
    let args = |command: &str, stop: bool| {
        let command = menu_command(command, "Grim Mode", 3, stop);
        (command.program, command.args.join("|"))
    };
    assert_eq!(
        args("fuzzel", true),
        (
            "fuzzel".to_string(),
            "-d|--anchor|top|--y-margin|20|--lines|1|--width|12|-p|Grim Mode ".to_string()
        )
    );
    assert_eq!(
        args("fuzzel", false).1,
        "-d|--anchor|top|--y-margin|20|--lines|3|--width|20|-p|Grim Mode: "
    );
    assert_eq!(
        args("rofi", true).1,
        "-dmenu|-disable-history|-p|Grim Mode|-location|2|-yoffset|20|-theme-str|window {width: 250px;}|-l|1"
    );
    assert_eq!(
        args("rofi", false).1,
        "-dmenu|-disable-history|-p|Grim Mode|-theme-str|window {width: 230px;}"
    );
    assert_eq!(
        args("wofi", true).1,
        "-d|-i|-p|Grim Mode|--cache-file|/dev/null|-l|top|-y|20|-W|250|-H|45|--lines|1"
    );
    assert_eq!(
        args("wofi", false).1,
        "-d|-i|-p|Grim Mode|--cache-file|/dev/null|--lines|3|-W|230"
    );
    assert_eq!(args("bemenu -i", false), ("sh".to_string(), "-c|bemenu -i -p 'Grim Mode: '".to_string()));
}

#[test]
fn menus_are_read() {
    assert_eq!(menu_input(&["a", "b"]), "a\nb\n");
    assert_eq!(menu_input(&["a"]), "a\n");
    assert_eq!(menu_input(&[]), "\n");
    assert_eq!(menu_choice(" Stop\n"), Some("Stop".to_string()));
    assert_eq!(menu_choice(" \n"), None);
    let text = ui_text("en");
    assert!(is_stop(&Some("Stop".to_string()), &text));
    assert!(!is_stop(&Some("stop".to_string()), &text) && !is_stop(&None, &text));
    let action = |choice: &str| grim_action_of(&Some(choice.to_string()), &text);
    assert_eq!(action("Capture Next"), Some(GrimAction::Next));
    assert_eq!(action("Finish"), Some(GrimAction::Finish));
    assert_eq!(action("Abort"), Some(GrimAction::Abort));
    assert_eq!(action("?"), None);
    assert_eq!(grim_action_of(&None, &text), None);
}

#[test]
fn lines_are_read() {
    let action = |line: &str| line_action(Some(line.to_string()));
    assert_eq!(action("\n"), GrimAction::Next);
    assert_eq!(action("f\n"), GrimAction::Finish);
    assert_eq!(action(" finish \n"), GrimAction::Finish);
    assert_eq!(action("q\n"), GrimAction::Abort);
    assert_eq!(action("abort\n"), GrimAction::Abort);
    assert_eq!(action("F\n"), GrimAction::Next);
    assert_eq!(line_action(None), GrimAction::Finish);
    assert_eq!(trimmed_text("\u{3000}x y\u{85}"), "x y");
    assert!(is_blank(" \t") && is_blank("") && !is_blank("."));
}

#[test]
fn menu_is_found() {
    assert_eq!(menu_programs(), strings(&["fuzzel", "rofi", "wofi"]));
    assert_eq!(probe_script("rofi"), "command -v rofi >/dev/null 2>&1");
    assert_eq!(configured_menu(&Some(" m".to_string())), Some(" m".to_string()));
    assert_eq!(configured_menu(&Some(" ".to_string())), None);
    let program = |choice: MenuChoice| match choice {
        MenuChoice::Program(name) => Some(name),
        MenuChoice::Text => None,
    };
    let asked = resolve_menu_cmd(&Some("m".to_string()), &vec![]);
    assert_eq!(program(asked), Some("m".to_string()));
    let found = resolve_menu_cmd(&None, &vec![false, true]);
    assert_eq!(program(found), Some("rofi".to_string()));
    let none = vec![false, false, false];
    assert_eq!(program(resolve_menu_cmd(&None, &none)), None);
    assert_eq!(program(resolve_menu_cmd(&Some(" ".to_string()), &none)), None);
}

#[test]
fn stream_writes_its_share() {
    let mut stream = StreamWriter::new(true, 3);
    let mut written = Vec::new();
    for n in 1..=10 {
        if let Some(update) = stream.next_update() {
            written.push((n, update.index, update.frame));
        }
    }
    assert_eq!(stream.seen(), 10);
    assert_eq!(
        written,
        vec![
            (3, 1, "frames/000001.png".to_string()),
            (6, 2, "frames/000002.png".to_string()),
            (9, 3, "frames/000003.png".to_string()),
        ]
    );
}

#[test]
fn stream_is_described() {
    let update = StreamWriter::new(true, 1).next_update().unwrap();
    assert_eq!(
        manifest(&update, 10, 20, 3, 2, 1700000000000),
        "{\n  \"version\": 1,\n  \"index\": 1,\n  \"latest\": \"latest.png\",\n  \"frame\": \"frames/000001.png\",\n  \"width\": 10,\n  \"height\": 20,\n  \"frames\": 3,\n  \"accepted\": 2,\n  \"updated_at_ms\": 1700000000000\n}\n"
    );
    let update = StreamWriter::new(false, 1).next_update().unwrap();
    assert!(manifest(&update, 1, 1, 1, 1, 0).contains("  \"frame\": null,\n"));
}

#[test]
fn style_sheets_are_looked_for() {
    assert_eq!(sheet_folder(true, true), Some(SheetFolder::Config));
    assert_eq!(sheet_folder(false, true), Some(SheetFolder::HomeConfig));
    assert_eq!(sheet_folder(false, false), None);
    assert_eq!(
        sheet_names(),
        ["gtk-4.0/gtk.css", "gtk-3.0/gtk.css", "waybar/colors.css", "swayosd/colors.css"]
    );
}

#[test]
fn written_colors_are_read_back() {
    for [r, g, b] in [[0u8, 0, 0], [255, 255, 255], [0xd2, 0xc9, 0x73], [9, 10, 160]] {
        for form in [
            format!("#{r:02x}{g:02x}{b:02x}"),
            format!("#{r:02X}{g:02X}{b:02X}"),
            format!("#{r:02x}{g:02x}{b:02x}7f"),
            format!("#{r:02X}{g:02X}{b:02X}7F"),
            format!("rgb({r}, {g}, {b})"),
        ] {
            for text in [
                form.clone(),
                format!(" \t{form}\n"),
                format!("\"{form}\""),
                format!(" '{form}' "),
            ] {
                assert!(is_color_readable(&text));
                assert_eq!(parse_color(&text), Some([r, g, b]), "{text}");
            }
        }
    }
}

#[test]
fn digits_of_a_color_are_counted() {
    for n in 0..12 {
        let digits: Vec<char> = "0123456789abcdef".chars().take(n).collect();
        let text = format!("#{}", digits.iter().collect::<String>());
        let counted = n == 3 || n == 4 || n == 6 || n == 8;
        assert_eq!(parse_hex_color(&digits), parse_color(&text));
        assert_eq!(parse_color(&text).is_some(), counted, "{text}");
    }
    assert_eq!(parse_color("#1aF"), parse_color("#11aaFF"));
    assert_eq!(parse_color("#1aF0"), parse_color("#1aF"));
    assert_eq!(parse_color("#11aaFF00"), parse_color("#11aaFF"));
}
