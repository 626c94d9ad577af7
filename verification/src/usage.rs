//! What the command line, the menus and the steps of a capture mean.

use crate::codec::{colors_of, opaque_of, too_large, with_alpha};
use crate::config::{
    default_settings, named_backend, named_control, named_grim_mode, parsed, parsed_from,
    switch_option, value_option, word_of, Backend, Config, ControlMode, Extra, GrimMode, Parsed, Settings, SwitchOption, ValueOption, Word,
};
use crate::course::{manner_of, Course, Manner, Reply, Step};
use crate::geometry::{is_target, middle, on_output};
use crate::menu::{
    choices_text, is_chinese, line_meant, lowered, meant, menu_found, menu_of, GrimAction, UiText,
};
use crate::preview::{OutputInfo, Rect};
use crate::protocol::{can_show, named_interface, obstacle, used_version, Globals, Interface};
use crate::raster::{lemma_offset_inside, Picture};
use crate::session::Turn;
use crate::stream::frame_name;
use crate::surface::surface_fault;
use crate::text::{
    bounded_value, decimal, digits_value, holds_at, lemma_decimal_read, trimmed, Kind,
};
use vstd::prelude::*;

verus! {

/// A number in decimal digits is read as that number, up to the bound.
proof fn lemma_number(n: nat, max: nat)
    ensures
        bounded_value(decimal(n), 10, max) == if n <= max {
            Some(n)
        } else {
            None
        },
{
    reveal(bounded_value);
    lemma_decimal_read(n);
    assert('0' <= decimal(n)[0] <= '9');
}

/// The frames in a second are taken from 1 to 120, the width of the preview from 80 to 1200, and
/// pictures are streamed one in any positive number; nothing else changes.
pub proof fn lemma_numbers_given(settings: Settings, n: nat)
    requires
        n <= u32::MAX,
    ensures
        settings.valued(ValueOption::Fps, decimal(n)) is Ok <==> 1 <= n <= 120,
        settings.valued(ValueOption::Fps, decimal(n)) matches Ok(after) ==> after == (Settings {
            fps: n as int,
            ..settings
        }),
        settings.valued(ValueOption::PreviewWidth, decimal(n)) is Ok <==> 80 <= n <= 1200,
        settings.valued(ValueOption::PreviewWidth, decimal(n)) matches Ok(after) ==> after == (
        Settings { preview_width: n as int, ..settings }),
        settings.valued(ValueOption::StreamEvery, decimal(n)) is Ok <==> 1 <= n,
        settings.valued(ValueOption::StreamEvery, decimal(n)) matches Ok(after) ==> after == (
        Settings { stream_every: n as int, ..settings }),
{
    lemma_number(n, u32::MAX as nat);
    lemma_number(n, usize::MAX as nat);
}

/// A text that is given is taken as it is, and nothing else changes.
pub proof fn lemma_texts_given(settings: Settings, value: Seq<char>)
    ensures
        settings.valued(ValueOption::Output, value) == Ok::<Settings, Seq<char>>(
            Settings { output: Some(value), ..settings },
        ),
        settings.valued(ValueOption::Geometry, value) == Ok::<Settings, Seq<char>>(
            Settings { geometry: Some(value), ..settings },
        ),
        settings.valued(ValueOption::DebugDir, value) == Ok::<Settings, Seq<char>>(
            Settings { debug_dir: Some(value), ..settings },
        ),
        settings.valued(ValueOption::Stream, value) == Ok::<Settings, Seq<char>>(
            Settings { stream: Some(value), ..settings },
        ),
        settings.valued(ValueOption::MenuCmd, value) == Ok::<Settings, Seq<char>>(
            Settings { menu_cmd: Some(value), ..settings },
        ),
{
}

/// An option without a value turns on or off what it is named after, whatever held before.
pub proof fn lemma_switches(settings: Settings)
    ensures
        settings.switched(SwitchOption::Copy) == (Settings { copy: true, ..settings }),
        settings.switched(SwitchOption::NoCopy) == (Settings { copy: false, ..settings }),
        settings.switched(SwitchOption::Open) == (Settings { open: true, ..settings }),
        settings.switched(SwitchOption::Edit) == (Settings { edit: true, ..settings }),
        settings.switched(SwitchOption::NoBorder) == (Settings { show_border: false, ..settings }),
        settings.switched(SwitchOption::Preview) == (Settings { preview: true, ..settings }),
        settings.switched(SwitchOption::NoPreview) == (Settings { preview: false, ..settings }),
        settings.switched(SwitchOption::FixedWidth) == (Settings {
            grim_fixed_width: true,
            ..settings
        }),
        settings.switched(SwitchOption::NoFixedWidth) == (Settings {
            grim_fixed_width: false,
            ..settings
        }),
        settings.switched(SwitchOption::Dedup) == (Settings { grim_dedup: true, ..settings }),
        settings.switched(SwitchOption::NoDedup) == (Settings { grim_dedup: false, ..settings }),
        settings.switched(SwitchOption::StreamKeepFrames) == (Settings {
            stream_keep_frames: true,
            ..settings
        }),
        settings.switched(SwitchOption::DebugTiming) == (Settings {
            debug_timing: true,
            ..settings
        }),
{
}

/// What is asked for is done as it was asked for, except that a file named without an option is
/// the output where none was named with it. It is refused if and only if more than one file is
/// named so, or what goes to the standard output is to be copied, opened or edited.
pub proof fn lemma_completed(settings: Settings, extra: Extra)
    ensures
        ({
            let output = match settings.output {
                Some(name) => Some(name),
                None => extra.last,
            };
            let used = settings.copy || settings.open || settings.edit;
            let refused = extra.count > 1 || (used && output == Some("-"@));
            &&& refused <==> settings.completed(extra) is Fault
            &&& !refused ==> settings.completed(extra) == Parsed::Run(
                Settings { output, ..settings },
            )
        }),
{
}

/// Frames come as the backend and its mode say.
pub proof fn lemma_manner(config: Config)
    ensures
        config.backend == Backend::Frame ==> manner_of(config) == Manner::Frames,
        config.backend == Backend::Grim && config.grim_mode == GrimMode::Auto ==> manner_of(config)
            == Manner::Repeated,
        config.backend == Backend::Grim && config.grim_mode == GrimMode::Manual ==> manner_of(
            config,
        ) == Manner::Asked,
{
}

/// A frame that is streamed, shown and then asked about takes four steps to the next one; without
/// a preview it takes fewer. In a capture whose frames are asked for it waits to be told then; in
/// any other the time until the next frame is spent, except after the first of a capture by
/// `grim`.
pub proof fn lemma_round(course: Course, stream: bool, redraw: bool)
    requires
        course.step == Step::Capture,
    ensures
        ({
            let next = if course.manner == Manner::Asked {
                Step::Await
            } else if course.manner == Manner::Repeated && course.first {
                Step::Capture
            } else {
                Step::Rest
            };
            let given = course.after(Reply::Given { stream });
            let streamed = if stream {
                given.after(Reply::Done)
            } else {
                given
            };
            let asked = streamed.after(Reply::Done).after(Reply::Asked { redraw });
            let over = if !course.preview {
                streamed
            } else if redraw {
                asked.after(Reply::Done)
            } else {
                asked
            };
            &&& stream ==> given.step == Step::Stream
            &&& course.preview ==> streamed.step == Step::Show && streamed.after(Reply::Done).step
                == Step::Ask && (redraw ==> asked.step == Step::Redraw)
            &&& over.step == next
            &&& !over.first
            &&& over.manner == course.manner && over.preview == course.preview
            &&& course.after(Reply::Ended).step == Step::Write
        }),
{
}

/// A capture goes on as it is told, and with the region that is selected: where none is selected
/// at first, it is left, and later it is asked again what to do.
pub proof fn lemma_told(course: Course, region: bool)
    ensures
        course.step == Step::Await ==> {
            &&& course.after(Reply::Told(Turn::Select)).step == Step::Select
            &&& course.after(Reply::Told(Turn::Finish)).step == Step::Write
            &&& course.after(Reply::Told(Turn::Abort)).step == Step::Leave
        },
        course.step == Step::Select ==> course.after(Reply::Selected { region }).step == if region {
            Step::Capture
        } else {
            Step::Await
        },
        course.step == Step::Choose ==> course.after(Reply::Selected { region }).step == if region {
            Step::Capture
        } else {
            Step::Leave
        },
        course.step == Step::Rest ==> course.after(Reply::Done).step == Step::Capture,
        course.step == Step::Write || course.step == Step::Leave ==> forall|reply: Reply|
            course.after(reply) == course,
{
}

/// Every choice of a menu stands on a line of its own.
pub proof fn lemma_choices(items: Seq<&str>, item: &str)
    requires
        items.len() > 0,
    ensures
        choices_text(items.push(item)) == choices_text(items) + item@ + "\n"@,
        choices_text(seq![item]) == item@ + "\n"@,
        choices_text(Seq::empty()) == "\n"@,
{
    assert(items.push(item).drop_last() =~= items);
    assert(items.push(item).last() == item);
    assert(Seq::<char>::empty() + "\n"@ =~= "\n"@);
}

/// A choice means what its text says, and nothing if it is none of those offered.
pub proof fn lemma_meant(choice: Seq<char>, text: UiText)
    requires
        text.capture_next@ != text.finish@,
        text.capture_next@ != text.abort@,
        text.finish@ != text.abort@,
    ensures
        meant(Some(choice), text) == Some(GrimAction::Next) <==> choice == text.capture_next@,
        meant(Some(choice), text) == Some(GrimAction::Finish) <==> choice == text.finish@,
        meant(Some(choice), text) == Some(GrimAction::Abort) <==> choice == text.abort@,
        meant(None, text) is None,
{
}

/// A blank line asks for the next frame, and no line at all finishes.
pub proof fn lemma_line(line: Seq<char>)
    ensures
        trimmed(line, Kind::White).len() == 0 ==> line_meant(Some(line)) == GrimAction::Next,
        line_meant(None) == GrimAction::Finish,
        ({
            let bare = trimmed(line, Kind::White);
            &&& bare == seq!['f'] ==> line_meant(Some(line)) == GrimAction::Finish
            &&& bare == seq!['q'] ==> line_meant(Some(line)) == GrimAction::Abort
            &&& bare == seq!['a', 'b', 'o', 'r', 't'] ==> line_meant(Some(line))
                == GrimAction::Abort
            &&& bare == seq!['f', 'i', 'n', 'i', 's', 'h'] ==> line_meant(Some(line))
                == GrimAction::Finish
            &&& bare.len() > 0 && bare[0] != 'f' && bare[0] != 'q' && bare[0] != 'a' ==> line_meant(
                Some(line),
            ) == GrimAction::Next
        }),
{
    reveal_strlit("f");
    reveal_strlit("finish");
    reveal_strlit("q");
    reveal_strlit("abort");
    assert("f"@ =~= seq!['f']);
    assert("q"@ =~= seq!['q']);
    assert("abort"@ =~= seq!['a', 'b', 'o', 'r', 't']);
    assert("finish"@ =~= seq!['f', 'i', 'n', 'i', 's', 'h']);
    assert("abort"@.len() == 5 && "finish"@.len() == 6 && "f"@.len() == 1 && "q"@.len() == 1);
    assert("q"@[0] == 'q');
}

/// A language is Chinese if its name holds the two letters somewhere, small or capital.
pub proof fn lemma_chinese(before: Seq<char>, after: Seq<char>)
    ensures
        is_chinese(before + seq!['z', 'h'] + after),
        is_chinese(before + seq!['Z', 'H'] + after),
        is_chinese(before) <==> is_chinese(lowered(before)),
        is_chinese(before) ==> before.len() >= 2,
{
    let small = lowered(before + seq!['z', 'h'] + after);
    let capital = lowered(before + seq!['Z', 'H'] + after);
    let at = before.len() as int;
    assert(small.subrange(at, at + 2) =~= seq!['z', 'h']);
    assert(capital.subrange(at, at + 2) =~= seq!['z', 'h']);
    assert(holds_at(small, seq!['z', 'h'], at));
    assert(holds_at(capital, seq!['z', 'h'], at));
    assert(lowered(lowered(before)) =~= lowered(before));
}

/// The menu program that is asked for is taken; else the first of those known that is there.
pub proof fn lemma_menu_found(wanted: Option<Seq<char>>, there: Seq<bool>)
    requires
        there.len() == 3,
    ensures
        wanted matches Some(name) && trimmed(name, Kind::White).len() > 0 ==> menu_found(
            wanted,
            there,
            0,
        ) == wanted,
        wanted is None ==> {
            let found = menu_found(wanted, there, 0);
            &&& there[0] ==> found == Some("fuzzel"@)
            &&& !there[0] && there[1] ==> found == Some("rofi"@)
            &&& !there[0] && !there[1] && there[2] ==> found == Some("wofi"@)
            &&& !there[0] && !there[1] && !there[2] ==> found is None
        },
{
    reveal_with_fuel(menu_found, 4);
}

/// The middle of a region lies in it, and as far from one end as from the other.
pub proof fn lemma_middle(start: int, length: int)
    requires
        0 < length,
    ensures
        start <= middle(start, length) < start + length,
        0 <= (start + length - middle(start, length)) - (middle(start, length) - start) <= 1,
{
}

/// A region is captured from a screen on which its middle lies, if there is one.
pub proof fn lemma_target(outputs: Seq<OutputInfo>, geometry: Rect, index: int, other: int)
    requires
        is_target(outputs, geometry, index),
        0 <= other < outputs.len(),
        on_output(
            outputs[other],
            middle(geometry.x as int, geometry.width as int),
            middle(geometry.y as int, geometry.height as int),
        ),
    ensures
        index <= other,
        ({
            let screen = outputs[index];
            let x = middle(geometry.x as int, geometry.width as int);
            let y = middle(geometry.y as int, geometry.height as int);
            &&& screen.has_geometry
            &&& screen.x <= x < screen.x + screen.width
            &&& screen.y <= y < screen.y + screen.height
        }),
{
}

/// An interface is used in no version that the compositor does not have or that is not known.
pub proof fn lemma_version(interface: Interface, offered: u32)
    requires
        0 < offered,
    ensures
        1 <= used_version(interface, offered) <= offered,
        interface == Interface::Shm ==> used_version(interface, offered) == 1,
        interface == Interface::Output && offered >= 2 ==> used_version(interface, offered) == 2,
        interface == Interface::Screencopy && offered >= 3 ==> used_version(interface, offered)
            == 3,
        interface == Interface::XdgOutput && offered >= 3 ==> used_version(interface, offered) == 3,
        (interface == Interface::Compositor || interface == Interface::LayerShell) && offered >= 4
            ==> used_version(interface, offered) == 4,
        interface == Interface::Seat && offered >= 8 ==> used_version(interface, offered) == 8,
        interface != Interface::Shm && offered <= 2 ==> used_version(interface, offered) == offered,
{
}

/// Nothing is shown on a screen without a size, or without what it takes to show it.
pub proof fn lemma_can_show(globals: Globals, target: OutputInfo)
    ensures
        can_show(globals, target) <==> globals.compositor && globals.layer_shell
            && target.has_geometry && 0 < target.width && 0 < target.height,
{
}

/// A surface can be drawn if and only if its bytes, four to a pixel, can be counted.
pub proof fn lemma_surface(width: int, height: int)
    requires
        0 <= width,
        0 < height,
    ensures
        surface_fault(width, height) is None <==> height * (width * 4) <= 0xffff_ffff,
{
    assert(height * (width * 4) >= width * 4) by (nonlinear_arith)
        requires
            0 < height,
            0 <= width,
    ;
    assert(height * (width * 4) == width * height * 4) by (nonlinear_arith);
    assert(height * (width * 4) == height * width * 4) by (nonlinear_arith);
    assert(width * height * 4 == 4 * (width * height)) by (nonlinear_arith);
}

/// A picture is opaque once its alpha is left out, and keeps its colours.
pub proof fn lemma_opaque(p: Picture, x: int, y: int)
    requires
        p.complete(),
        0 <= x < p.width,
        0 <= y < p.height,
    ensures
        opaque_of(p).pixel(x, y) == seq![
            p.pixel(x, y)[0],
            p.pixel(x, y)[1],
            p.pixel(x, y)[2],
            255u8,
        ],
{
    lemma_offset_inside(p, x, y);
    let start = p.offset(x, y);
    let row = y * p.width;
    assert(y * (p.width * 4) == 4 * row) by (nonlinear_arith)
        requires
            row == y * p.width,
    ;
    assert(start == 4 * (row + x));
    assert(start % 4 == 0 && (start + 1) % 4 == 1 && (start + 2) % 4 == 2 && (start + 3) % 4 == 3);
    assert(opaque_of(p).pixel(x, y) =~= seq![
        p.pixel(x, y)[0],
        p.pixel(x, y)[1],
        p.pixel(x, y)[2],
        255u8,
    ]);
}

/// The colours of a picture, made opaque again, are those of the opaque picture.
pub proof fn lemma_colors(p: Picture)
    requires
        p.bytes.len() % 4 == 0,
    ensures
        with_alpha(colors_of(p)) == opaque_of(p).bytes,
{
    assert(with_alpha(colors_of(p)) =~= opaque_of(p).bytes) by {
        assert forall|i: int| 0 <= i < p.bytes.len() && i % 4 != 3 implies colors_of(p)[i / 4 * 3 + i
            % 4] == p.bytes[i] by {
            let j = i / 4 * 3 + i % 4;
            assert(j / 3 == i / 4 && j % 3 == i % 4);
        }
    }
}

/// A picture is scaled down for the clipboard if it has more than twenty-four million pixels or
/// more than sixteen thousand rows.
pub proof fn lemma_clipboard(p: Picture)
    ensures
        too_large(p) <==> p.width * p.height > 24000000 || p.height > 16000,
{
}

/// Different pictures of a stream have different names.
pub proof fn lemma_names_apart(a: nat, b: nat)
    requires
        a != b,
        decimal(a).len() <= 6,
        decimal(b).len() <= 6,
    ensures
        frame_name(a) != frame_name(b),
        frame_name(a).len() == 17,
{
    reveal_strlit("frames/");
    reveal_strlit(".png");
    let x = crate::text::padded_decimal(a, 6);
    let y = crate::text::padded_decimal(b, 6);
    lemma_decimal_read(a);
    lemma_decimal_read(b);
    assert(frame_name(a).subrange(7, 13) =~= x);
    assert(frame_name(b).subrange(7, 13) =~= y);
    lemma_zeros_before((6 - decimal(a).len()) as nat, decimal(a));
    lemma_zeros_before((6 - decimal(b).len()) as nat, decimal(b));
    assert(Seq::new((6 - decimal(a).len()) as nat, |i: int| '0') + decimal(a) =~= x);
    assert(Seq::new((6 - decimal(b).len()) as nat, |i: int| '0') + decimal(b) =~= y);
}

/// Zeros before a number do not change it.
proof fn lemma_zeros_before(k: nat, digits: Seq<char>)
    requires
        digits_value(digits, 10) is Some,
        digits.len() > 0,
    ensures
        digits_value(Seq::new(k, |i: int| '0') + digits, 10) == digits_value(digits, 10),
    decreases k + digits.len(),
{
    let all = Seq::new(k, |i: int| '0') + digits;
    if k == 0 {
        assert(all =~= digits);
    } else if digits.len() == 1 {
        let zeros = Seq::new((k - 1) as nat, |i: int| '0') + seq!['0'];
        lemma_zeros_before((k - 1) as nat, seq!['0']);
        assert(all.drop_last() =~= zeros);
        assert(all.last() == digits.last());
        assert(digits.drop_last() =~= Seq::empty());
    } else {
        lemma_zeros_before(k, digits.drop_last());
        assert(all.drop_last() =~= Seq::new(k, |i: int| '0') + digits.drop_last());
        assert(all.last() == digits.last());
    }
}

/// Every option with a value has its own names, and no other argument is one.
pub proof fn lemma_value_names(arg: Seq<char>)
    ensures
        value_option(arg) == Some(ValueOption::Output) <==> arg == "-o"@ || arg == "--output"@,
        value_option(arg) == Some(ValueOption::Geometry) <==> arg == "-g"@ || arg == "--geometry"@,
        value_option(arg) == Some(ValueOption::Backend) <==> arg == "-b"@ || arg == "--backend"@,
        value_option(arg) == Some(ValueOption::Fps) <==> arg == "-f"@ || arg == "--fps"@,
        value_option(arg) == Some(ValueOption::DebugDir) <==> arg == "--debug-dir"@,
        value_option(arg) == Some(ValueOption::BorderColor) <==> arg == "--boarder-color"@ || arg == "--border-color"@,
        value_option(arg) == Some(ValueOption::PreviewWidth) <==> arg == "--preview-width"@,
        value_option(arg) == Some(ValueOption::Stream) <==> arg == "--stream"@,
        value_option(arg) == Some(ValueOption::StreamEvery) <==> arg == "--stream-every"@,
        value_option(arg) == Some(ValueOption::GrimMode) <==> arg == "--grim-mode"@,
        value_option(arg) == Some(ValueOption::Control) <==> arg == "--control"@,
        value_option(arg) == Some(ValueOption::MenuCmd) <==> arg == "--menu-cmd"@,
{
    reveal_strlit("-o");
    reveal_strlit("--output");
    reveal_strlit("-g");
    reveal_strlit("--geometry");
    reveal_strlit("-b");
    reveal_strlit("--backend");
    reveal_strlit("-f");
    reveal_strlit("--fps");
    reveal_strlit("--debug-dir");
    reveal_strlit("--boarder-color");
    reveal_strlit("--border-color");
    reveal_strlit("--preview-width");
    reveal_strlit("--stream");
    reveal_strlit("--stream-every");
    reveal_strlit("--grim-mode");
    reveal_strlit("--control");
    reveal_strlit("--menu-cmd");
    assert("-o"@.len() == 2);
    assert("--output"@.len() == 8);
    assert("-g"@.len() == 2);
    assert("--geometry"@.len() == 10);
    assert("-b"@.len() == 2);
    assert("--backend"@.len() == 9);
    assert("-f"@.len() == 2);
    assert("--fps"@.len() == 5);
    assert("--debug-dir"@.len() == 11);
    assert("--boarder-color"@.len() == 15);
    assert("--border-color"@.len() == 14);
    assert("--preview-width"@.len() == 15);
    assert("--stream"@.len() == 8);
    assert("--stream-every"@.len() == 14);
    assert("--grim-mode"@.len() == 11);
    assert("--control"@.len() == 9);
    assert("--menu-cmd"@.len() == 10);
    assert("--backend"@[2] == 'b');
    assert("--boarder-color"@[2] == 'b');
    assert("--border-color"@[2] == 'b');
    assert("--control"@[2] == 'c');
    assert("--debug-dir"@[2] == 'd');
    assert("--geometry"@[2] == 'g');
    assert("--grim-mode"@[2] == 'g');
    assert("--menu-cmd"@[2] == 'm');
    assert("--output"@[2] == 'o');
    assert("--preview-width"@[2] == 'p');
    assert("--stream"@[2] == 's');
    assert("--stream-every"@[2] == 's');
    assert("-b"@[1] == 'b');
    assert("-f"@[1] == 'f');
    assert("-g"@[1] == 'g');
    assert("-o"@[1] == 'o');
}

/// Every option without a value has its own names, and no other argument is one.
pub proof fn lemma_switch_names(arg: Seq<char>)
    ensures
        switch_option(arg) == Some(SwitchOption::Copy) <==> arg == "-c"@ || arg == "--copy"@,
        switch_option(arg) == Some(SwitchOption::NoCopy) <==> arg == "--no-copy"@,
        switch_option(arg) == Some(SwitchOption::Open) <==> arg == "--open"@,
        switch_option(arg) == Some(SwitchOption::Edit) <==> arg == "--edit"@,
        switch_option(arg) == Some(SwitchOption::DebugTiming) <==> arg == "--debug-timing"@,
        switch_option(arg) == Some(SwitchOption::NoBorder) <==> arg == "--no-boarder"@ || arg == "--no-border"@,
        switch_option(arg) == Some(SwitchOption::Preview) <==> arg == "--preview"@,
        switch_option(arg) == Some(SwitchOption::NoPreview) <==> arg == "--no-preview"@,
        switch_option(arg) == Some(SwitchOption::StreamKeepFrames) <==> arg == "--stream-keep-frames"@,
        switch_option(arg) == Some(SwitchOption::FixedWidth) <==> arg == "--grim-fixed-width"@,
        switch_option(arg) == Some(SwitchOption::NoFixedWidth) <==> arg == "--no-grim-fixed-width"@,
        switch_option(arg) == Some(SwitchOption::Dedup) <==> arg == "--grim-dedup"@,
        switch_option(arg) == Some(SwitchOption::NoDedup) <==> arg == "--no-grim-dedup"@,
{
    reveal_strlit("-c");
    reveal_strlit("--copy");
    reveal_strlit("--no-copy");
    reveal_strlit("--open");
    reveal_strlit("--edit");
    reveal_strlit("--debug-timing");
    reveal_strlit("--no-boarder");
    reveal_strlit("--no-border");
    reveal_strlit("--preview");
    reveal_strlit("--no-preview");
    reveal_strlit("--stream-keep-frames");
    reveal_strlit("--grim-fixed-width");
    reveal_strlit("--no-grim-fixed-width");
    reveal_strlit("--grim-dedup");
    reveal_strlit("--no-grim-dedup");
    assert("-c"@.len() == 2);
    assert("--copy"@.len() == 6);
    assert("--no-copy"@.len() == 9);
    assert("--open"@.len() == 6);
    assert("--edit"@.len() == 6);
    assert("--debug-timing"@.len() == 14);
    assert("--no-boarder"@.len() == 12);
    assert("--no-border"@.len() == 11);
    assert("--preview"@.len() == 9);
    assert("--no-preview"@.len() == 12);
    assert("--stream-keep-frames"@.len() == 20);
    assert("--grim-fixed-width"@.len() == 18);
    assert("--no-grim-fixed-width"@.len() == 21);
    assert("--grim-dedup"@.len() == 12);
    assert("--no-grim-dedup"@.len() == 15);
    assert("--copy"@[2] == 'c');
    assert("--edit"@[2] == 'e');
    assert("--grim-dedup"@[2] == 'g');
    assert("--no-boarder"@[2] == 'n');
    assert("--no-boarder"@[5] == 'b');
    assert("--no-copy"@[2] == 'n');
    assert("--no-preview"@[2] == 'n');
    assert("--no-preview"@[5] == 'p');
    assert("--open"@[2] == 'o');
    assert("--preview"@[2] == 'p');
}

/// Every interface has its own name.
pub proof fn lemma_interface_names(arg: Seq<char>)
    ensures
        named_interface(arg) == Some(Interface::Shm) <==> arg == "wl_shm"@,
        named_interface(arg) == Some(Interface::Compositor) <==> arg == "wl_compositor"@,
        named_interface(arg) == Some(Interface::Output) <==> arg == "wl_output"@,
        named_interface(arg) == Some(Interface::Screencopy) <==> arg == "zwlr_screencopy_manager_v1"@,
        named_interface(arg) == Some(Interface::LayerShell) <==> arg == "zwlr_layer_shell_v1"@,
        named_interface(arg) == Some(Interface::XdgOutput) <==> arg == "zxdg_output_manager_v1"@,
        named_interface(arg) == Some(Interface::Seat) <==> arg == "wl_seat"@,
{
    reveal_strlit("wl_shm");
    reveal_strlit("wl_compositor");
    reveal_strlit("wl_output");
    reveal_strlit("zwlr_screencopy_manager_v1");
    reveal_strlit("zwlr_layer_shell_v1");
    reveal_strlit("zxdg_output_manager_v1");
    reveal_strlit("wl_seat");
    assert("wl_shm"@.len() == 6);
    assert("wl_compositor"@.len() == 13);
    assert("wl_output"@.len() == 9);
    assert("zwlr_screencopy_manager_v1"@.len() == 26);
    assert("zwlr_layer_shell_v1"@.len() == 19);
    assert("zxdg_output_manager_v1"@.len() == 22);
    assert("wl_seat"@.len() == 7);
}

/// Every backend has its own names.
pub proof fn lemma_backend_names(arg: Seq<char>)
    ensures
        named_backend(arg) == Some(Backend::Frame) <==> arg == "frame"@ || arg == "frame-helper"@,
        named_backend(arg) == Some(Backend::Grim) <==> arg == "grim"@,
{
    reveal_strlit("frame");
    reveal_strlit("frame-helper");
    reveal_strlit("grim");
    assert("frame"@.len() == 5);
    assert("frame-helper"@.len() == 12);
    assert("grim"@.len() == 4);
}

/// Every mode has its own name.
pub proof fn lemma_mode_names(arg: Seq<char>)
    ensures
        named_grim_mode(arg) == Some(GrimMode::Auto) <==> arg == "auto"@,
        named_grim_mode(arg) == Some(GrimMode::Manual) <==> arg == "manual"@,
{
    reveal_strlit("auto");
    reveal_strlit("manual");
    assert("auto"@.len() == 4);
    assert("manual"@.len() == 6);
}

/// Every control has its own name.
pub proof fn lemma_control_names(arg: Seq<char>)
    ensures
        named_control(arg) == Some(ControlMode::Stdin) <==> arg == "stdin"@,
        named_control(arg) == Some(ControlMode::Menu) <==> arg == "menu"@,
{
    reveal_strlit("stdin");
    reveal_strlit("menu");
    assert("stdin"@.len() == 5);
    assert("menu"@.len() == 4);
}

/// Help, the version and the backends are asked for by their own names.
pub proof fn lemma_command_names(arg: Seq<char>)
    ensures
        word_of(arg) == Word::Help <==> arg == "-h"@ || arg == "--help"@,
        word_of(arg) == Word::Version <==> arg == "-v"@ || arg == "--version"@,
        word_of(arg) == Word::ListBackends <==> arg == "--list-backends"@,
{
    reveal_strlit("-h");
    reveal_strlit("--help");
    reveal_strlit("-v");
    reveal_strlit("--version");
    reveal_strlit("--list-backends");
    assert("-h"@.len() == 2);
    assert("--help"@.len() == 6);
    assert("-v"@.len() == 2);
    assert("--version"@.len() == 9);
    assert("--list-backends"@.len() == 15);
    assert("-h"@[1] == 'h');
    assert("-v"@[1] == 'v');
}

/// An argument that does not begin with a dash is an output.
pub proof fn lemma_plain_argument(arg: Seq<char>)
    requires
        arg.len() == 0 || arg[0] != '-',
    ensures
        word_of(arg) == Word::Output,
{
    reveal_strlit("-h");
    reveal_strlit("--help");
    reveal_strlit("-v");
    reveal_strlit("--version");
    reveal_strlit("--list-backends");
    reveal_strlit("-o");
    reveal_strlit("--output");
    reveal_strlit("-g");
    reveal_strlit("--geometry");
    reveal_strlit("-b");
    reveal_strlit("--backend");
    reveal_strlit("-f");
    reveal_strlit("--fps");
    reveal_strlit("--debug-dir");
    reveal_strlit("--boarder-color");
    reveal_strlit("--border-color");
    reveal_strlit("--preview-width");
    reveal_strlit("--stream");
    reveal_strlit("--stream-every");
    reveal_strlit("--grim-mode");
    reveal_strlit("--control");
    reveal_strlit("--menu-cmd");
    reveal_strlit("-c");
    reveal_strlit("--copy");
    reveal_strlit("--no-copy");
    reveal_strlit("--open");
    reveal_strlit("--edit");
    reveal_strlit("--debug-timing");
    reveal_strlit("--no-boarder");
    reveal_strlit("--no-border");
    reveal_strlit("--preview");
    reveal_strlit("--no-preview");
    reveal_strlit("--stream-keep-frames");
    reveal_strlit("--grim-fixed-width");
    reveal_strlit("--no-grim-fixed-width");
    reveal_strlit("--grim-dedup");
    reveal_strlit("--no-grim-dedup");
    assert("-h"@.len() == 2 && "-h"@[0] == '-');
    assert("--help"@.len() == 6 && "--help"@[0] == '-');
    assert("-v"@.len() == 2 && "-v"@[0] == '-');
    assert("--version"@.len() == 9 && "--version"@[0] == '-');
    assert("--list-backends"@.len() == 15 && "--list-backends"@[0] == '-');
    assert("-o"@.len() == 2 && "-o"@[0] == '-');
    assert("--output"@.len() == 8 && "--output"@[0] == '-');
    assert("-g"@.len() == 2 && "-g"@[0] == '-');
    assert("--geometry"@.len() == 10 && "--geometry"@[0] == '-');
    assert("-b"@.len() == 2 && "-b"@[0] == '-');
    assert("--backend"@.len() == 9 && "--backend"@[0] == '-');
    assert("-f"@.len() == 2 && "-f"@[0] == '-');
    assert("--fps"@.len() == 5 && "--fps"@[0] == '-');
    assert("--debug-dir"@.len() == 11 && "--debug-dir"@[0] == '-');
    assert("--boarder-color"@.len() == 15 && "--boarder-color"@[0] == '-');
    assert("--border-color"@.len() == 14 && "--border-color"@[0] == '-');
    assert("--preview-width"@.len() == 15 && "--preview-width"@[0] == '-');
    assert("--stream"@.len() == 8 && "--stream"@[0] == '-');
    assert("--stream-every"@.len() == 14 && "--stream-every"@[0] == '-');
    assert("--grim-mode"@.len() == 11 && "--grim-mode"@[0] == '-');
    assert("--control"@.len() == 9 && "--control"@[0] == '-');
    assert("--menu-cmd"@.len() == 10 && "--menu-cmd"@[0] == '-');
    assert("-c"@.len() == 2 && "-c"@[0] == '-');
    assert("--copy"@.len() == 6 && "--copy"@[0] == '-');
    assert("--no-copy"@.len() == 9 && "--no-copy"@[0] == '-');
    assert("--open"@.len() == 6 && "--open"@[0] == '-');
    assert("--edit"@.len() == 6 && "--edit"@[0] == '-');
    assert("--debug-timing"@.len() == 14 && "--debug-timing"@[0] == '-');
    assert("--no-boarder"@.len() == 12 && "--no-boarder"@[0] == '-');
    assert("--no-border"@.len() == 11 && "--no-border"@[0] == '-');
    assert("--preview"@.len() == 9 && "--preview"@[0] == '-');
    assert("--no-preview"@.len() == 12 && "--no-preview"@[0] == '-');
    assert("--stream-keep-frames"@.len() == 20 && "--stream-keep-frames"@[0] == '-');
    assert("--grim-fixed-width"@.len() == 18 && "--grim-fixed-width"@[0] == '-');
    assert("--no-grim-fixed-width"@.len() == 21 && "--no-grim-fixed-width"@[0] == '-');
    assert("--grim-dedup"@.len() == 12 && "--grim-dedup"@[0] == '-');
    assert("--no-grim-dedup"@.len() == 15 && "--no-grim-dedup"@[0] == '-');
}

/// Nothing but a file named: all is as it is where nothing is asked for, and the picture goes to
/// that file. Two files are refused.
pub proof fn lemma_files_named(args: Seq<String>)
    requires
        1 <= args.len() <= 2,
        args[0]@.len() == 0 || args[0]@[0] != '-',
        args.len() == 2 ==> args[1]@.len() == 0 || args[1]@[0] != '-',
    ensures
        args.len() == 1 ==> parsed(args) == Parsed::Run(
            Settings { output: Some(args[0]@), ..default_settings() },
        ),
        args.len() == 2 ==> parsed(args) is Fault,
{
    lemma_plain_argument(args[0]@);
    reveal_strlit("-");
    assert("-"@[0] == '-' && "-"@.len() == 1);
    if args.len() == 2 {
        lemma_plain_argument(args[1]@);
    }
    reveal_with_fuel(parsed_from, 4);
}

/// What holds where nothing is asked for: fifteen frames in a second, a border and a preview 320
/// pixels wide, and the picture on the clipboard.
pub proof fn lemma_nothing_asked(args: Seq<String>)
    requires
        args.len() == 0,
    ensures
        parsed(args) matches Parsed::Run(settings) && {
            &&& settings.output is None && settings.geometry is None
            &&& settings.backend == Backend::Frame
            &&& settings.fps == 15
            &&& settings.copy && !settings.open && !settings.edit
            &&& settings.show_border && settings.border_color is None
            &&& settings.preview && settings.preview_width == 320
            &&& settings.stream is None && !settings.stream_keep_frames && settings.stream_every == 1
            &&& settings.grim_mode == GrimMode::Auto
            &&& settings.grim_fixed_width && settings.grim_dedup
            &&& settings.control == ControlMode::Stdin && settings.menu_cmd is None
            &&& settings.debug_dir is None && !settings.debug_timing
        },
{
}

/// An option whose value is missing is refused, whatever came before it.
pub proof fn lemma_value_missing(args: Seq<String>, settings: Settings, extra: Extra)
    requires
        args.len() > 0,
        word_of(args.last()@) is Value,
    ensures
        parsed_from(args, args.len() - 1, settings, extra) is Fault,
{
}

/// Switches given after one another are carried out in that order, before what follows them.
pub proof fn lemma_switches_in_order(
    args: Seq<String>,
    i: int,
    settings: Settings,
    extra: Extra,
    a: SwitchOption,
    b: SwitchOption,
)
    requires
        0 <= i,
        i + 2 <= args.len(),
        word_of(args[i]@) == Word::Switch(a),
        word_of(args[i + 1]@) == Word::Switch(b),
    ensures
        parsed_from(args, i, settings, extra) == parsed_from(
            args,
            i + 2,
            settings.switched(a).switched(b),
            extra,
        ),
{
    reveal_with_fuel(parsed_from, 3);
}

/// A value is given to the option before it, and what follows goes on from there.
pub proof fn lemma_value_follows(
    args: Seq<String>,
    i: int,
    settings: Settings,
    extra: Extra,
    option: ValueOption,
)
    requires
        0 <= i,
        i + 2 <= args.len(),
        word_of(args[i]@) == Word::Value(option),
        option != ValueOption::BorderColor,
    ensures
        settings.valued(option, args[i + 1]@) matches Ok(next) ==> parsed_from(
            args,
            i,
            settings,
            extra,
        ) == parsed_from(args, i + 2, next, extra),
        settings.valued(option, args[i + 1]@) matches Err(message) ==> parsed_from(
            args,
            i,
            settings,
            extra,
        ) == Parsed::Fault(message),
{
}

/// A command that is no menu program known is run by the shell with the prompt; one that is known
/// is run itself and told the prompt and how many choices there are.
pub proof fn lemma_menu_run(command: Seq<char>, prompt: Seq<char>, items: nat, stop: bool)
    ensures
        ({
            let menu = menu_of(command, prompt, items, stop);
            let known = command == "fuzzel"@ || command == "rofi"@ || command == "wofi"@;
            let shown = decimal(if items > 1 { items } else { 1 });
            &&& known ==> menu.program == command
            &&& !known ==> menu.program == "sh"@ && menu.args == seq![
                "-c"@,
                command + " -p '"@ + prompt + ": '"@,
            ]
            &&& command == "rofi"@ || command == "wofi"@ ==> menu.args[3] == prompt && menu.args[2]
                == "-p"@
            &&& command == "fuzzel"@ ==> menu.args[9] == "-p"@ && menu.args[10] == prompt + if stop {
                " "@
            } else {
                ": "@
            }
            &&& command == "fuzzel"@ && !stop ==> menu.args[5] == "--lines"@ && menu.args[6] == shown
            &&& command == "fuzzel"@ && stop ==> menu.args[5] == "--lines"@ && menu.args[6] == "1"@
            &&& command == "wofi"@ && !stop ==> menu.args[6] == "--lines"@ && menu.args[7] == shown
        }),
{
    reveal_strlit("fuzzel");
    reveal_strlit("rofi");
    reveal_strlit("wofi");
    assert("fuzzel"@.len() == 6 && "rofi"@.len() == 4 && "wofi"@.len() == 4);
    assert("rofi"@[0] == 'r' && "wofi"@[0] == 'w');
}

/// Frames can be captured if and only if the two protocols that it takes are there, and a screen.
pub proof fn lemma_obstacle(globals: Globals, outputs: Seq<OutputInfo>)
    ensures
        obstacle(globals, outputs) is None <==> globals.shm && globals.screencopy && outputs.len()
            > 0,
{
}

} // verus!
