//! The command line.

use crate::color::{color_readable, is_color_readable, parse_color, read_color};
use crate::text::{bounded_value, characters, parse_unsigned, same_text};
use vstd::prelude::*;

verus! {

/// The frames captured in a second, unless told otherwise.
pub const DEFAULT_FPS: u32 = 15;

/// How frames are captured.
#[derive(Clone, Copy, Debug, PartialEq, Eq, Structural)]
pub enum Backend {
    Frame,
    Grim,
}

/// Whether frames are captured on their own or one by one.
#[derive(Clone, Copy, Debug, PartialEq, Eq, Structural)]
pub enum GrimMode {
    Auto,
    Manual,
}

/// How the capture is controlled.
#[derive(Clone, Copy, Debug, PartialEq, Eq, Structural)]
pub enum ControlMode {
    Stdin,
    Menu,
}

/// What the command line asks for.
#[derive(Debug)]
pub struct Config {
    pub output: Option<String>,
    pub geometry: Option<String>,
    pub backend: Backend,
    pub fps: u32,
    pub copy: bool,
    pub open: bool,
    pub edit: bool,
    pub debug_dir: Option<String>,
    pub debug_timing: bool,
    pub show_border: bool,
    pub border_color: Option<[u8; 3]>,
    pub preview: bool,
    pub preview_width: u32,
    pub stream: Option<String>,
    pub stream_keep_frames: bool,
    pub stream_every: usize,
    pub grim_mode: GrimMode,
    pub grim_fixed_width: bool,
    pub grim_dedup: bool,
    pub control: ControlMode,
    pub menu_cmd: Option<String>,
}

/// What the command line asks for.
pub struct Settings {
    pub output: Option<Seq<char>>,
    pub geometry: Option<Seq<char>>,
    pub backend: Backend,
    pub fps: int,
    pub copy: bool,
    pub open: bool,
    pub edit: bool,
    pub debug_dir: Option<Seq<char>>,
    pub debug_timing: bool,
    pub show_border: bool,
    pub border_color: Option<Seq<u8>>,
    pub preview: bool,
    pub preview_width: int,
    pub stream: Option<Seq<char>>,
    pub stream_keep_frames: bool,
    pub stream_every: int,
    pub grim_mode: GrimMode,
    pub grim_fixed_width: bool,
    pub grim_dedup: bool,
    pub control: ControlMode,
    pub menu_cmd: Option<Seq<char>>,
}

/// A text that may be missing.
pub open spec fn text_of(text: Option<String>) -> Option<Seq<char>> {
    match text {
        Some(text) => Some(text@),
        None => None,
    }
}

/// A colour that may be missing.
pub open spec fn color_of(color: Option<[u8; 3]>) -> Option<Seq<u8>> {
    match color {
        Some(color) => Some(color@),
        None => None,
    }
}

impl View for Config {
    type V = Settings;

    open spec fn view(&self) -> Settings {
        Settings {
            output: text_of(self.output),
            geometry: text_of(self.geometry),
            backend: self.backend,
            fps: self.fps as int,
            copy: self.copy,
            open: self.open,
            edit: self.edit,
            debug_dir: text_of(self.debug_dir),
            debug_timing: self.debug_timing,
            show_border: self.show_border,
            border_color: color_of(self.border_color),
            preview: self.preview,
            preview_width: self.preview_width as int,
            stream: text_of(self.stream),
            stream_keep_frames: self.stream_keep_frames,
            stream_every: self.stream_every as int,
            grim_mode: self.grim_mode,
            grim_fixed_width: self.grim_fixed_width,
            grim_dedup: self.grim_dedup,
            control: self.control,
            menu_cmd: text_of(self.menu_cmd),
        }
    }
}

/// What holds when nothing is asked for.
pub open spec fn default_settings() -> Settings {
    Settings {
        output: None,
        geometry: None,
        backend: Backend::Frame,
        fps: DEFAULT_FPS as int,
        copy: true,
        open: false,
        edit: false,
        debug_dir: None,
        debug_timing: false,
        show_border: true,
        border_color: None,
        preview: true,
        preview_width: 320,
        stream: None,
        stream_keep_frames: false,
        stream_every: 1,
        grim_mode: GrimMode::Auto,
        grim_fixed_width: true,
        grim_dedup: true,
        control: ControlMode::Stdin,
        menu_cmd: None,
    }
}

/// An argument by its meaning.
#[derive(Clone, Copy, Debug, PartialEq, Eq, Structural)]
pub enum Word {
    Help,
    Version,
    ListBackends,
    /// An option that is followed by a value.
    Value(ValueOption),
    /// An option that stands alone.
    Switch(SwitchOption),
    /// Something that looks like an option and is none.
    Unknown,
    /// Anything else: the output.
    Output,
}

/// An option that is followed by a value.
#[derive(Clone, Copy, Debug, PartialEq, Eq, Structural)]
pub enum ValueOption {
    Output,
    Geometry,
    Backend,
    Fps,
    DebugDir,
    BorderColor,
    PreviewWidth,
    Stream,
    StreamEvery,
    GrimMode,
    Control,
    MenuCmd,
}

/// An option that stands alone.
#[derive(Clone, Copy, Debug, PartialEq, Eq, Structural)]
pub enum SwitchOption {
    Copy,
    NoCopy,
    Open,
    Edit,
    DebugTiming,
    NoBorder,
    Preview,
    NoPreview,
    StreamKeepFrames,
    FixedWidth,
    NoFixedWidth,
    Dedup,
    NoDedup,
}

/// The meaning of an argument that is an option with a value.
pub open spec fn value_option(arg: Seq<char>) -> Option<ValueOption> {
    if arg == "-o"@ || arg == "--output"@ {
        Some(ValueOption::Output)
    } else if arg == "-g"@ || arg == "--geometry"@ {
        Some(ValueOption::Geometry)
    } else if arg == "-b"@ || arg == "--backend"@ {
        Some(ValueOption::Backend)
    } else if arg == "-f"@ || arg == "--fps"@ {
        Some(ValueOption::Fps)
    } else if arg == "--debug-dir"@ {
        Some(ValueOption::DebugDir)
    } else if arg == "--boarder-color"@ || arg == "--border-color"@ {
        Some(ValueOption::BorderColor)
    } else if arg == "--preview-width"@ {
        Some(ValueOption::PreviewWidth)
    } else if arg == "--stream"@ {
        Some(ValueOption::Stream)
    } else if arg == "--stream-every"@ {
        Some(ValueOption::StreamEvery)
    } else if arg == "--grim-mode"@ {
        Some(ValueOption::GrimMode)
    } else if arg == "--control"@ {
        Some(ValueOption::Control)
    } else if arg == "--menu-cmd"@ {
        Some(ValueOption::MenuCmd)
    } else {
        None
    }
}

/// The meaning of an argument that is an option without a value.
pub open spec fn switch_option(arg: Seq<char>) -> Option<SwitchOption> {
    if arg == "-c"@ || arg == "--copy"@ {
        Some(SwitchOption::Copy)
    } else if arg == "--no-copy"@ {
        Some(SwitchOption::NoCopy)
    } else if arg == "--open"@ {
        Some(SwitchOption::Open)
    } else if arg == "--edit"@ {
        Some(SwitchOption::Edit)
    } else if arg == "--debug-timing"@ {
        Some(SwitchOption::DebugTiming)
    } else if arg == "--no-boarder"@ || arg == "--no-border"@ {
        Some(SwitchOption::NoBorder)
    } else if arg == "--preview"@ {
        Some(SwitchOption::Preview)
    } else if arg == "--no-preview"@ {
        Some(SwitchOption::NoPreview)
    } else if arg == "--stream-keep-frames"@ {
        Some(SwitchOption::StreamKeepFrames)
    } else if arg == "--grim-fixed-width"@ {
        Some(SwitchOption::FixedWidth)
    } else if arg == "--no-grim-fixed-width"@ {
        Some(SwitchOption::NoFixedWidth)
    } else if arg == "--grim-dedup"@ {
        Some(SwitchOption::Dedup)
    } else if arg == "--no-grim-dedup"@ {
        Some(SwitchOption::NoDedup)
    } else {
        None
    }
}

/// The meaning of an argument.
pub open spec fn word_of(arg: Seq<char>) -> Word {
    if arg == "-h"@ || arg == "--help"@ {
        Word::Help
    } else if arg == "-v"@ || arg == "--version"@ {
        Word::Version
    } else if arg == "--list-backends"@ {
        Word::ListBackends
    } else if value_option(arg) is Some {
        Word::Value(value_option(arg)->0)
    } else if switch_option(arg) is Some {
        Word::Switch(switch_option(arg)->0)
    } else if arg.len() > 0 && arg[0] == '-' {
        Word::Unknown
    } else {
        Word::Output
    }
}

/// The name by which an option is told to lack its value.
pub open spec fn option_name(option: ValueOption) -> Seq<char> {
    match option {
        ValueOption::Output => "--output"@,
        ValueOption::Geometry => "--geometry"@,
        ValueOption::Backend => "--backend"@,
        ValueOption::Fps => "--fps"@,
        ValueOption::DebugDir => "--debug-dir"@,
        ValueOption::BorderColor => "--boarder-color"@,
        ValueOption::PreviewWidth => "--preview-width"@,
        ValueOption::Stream => "--stream"@,
        ValueOption::StreamEvery => "--stream-every"@,
        ValueOption::GrimMode => "--grim-mode"@,
        ValueOption::Control => "--control"@,
        ValueOption::MenuCmd => "--menu-cmd"@,
    }
}

impl Settings {
    /// The settings after an option without a value.
    pub open spec fn switched(self, option: SwitchOption) -> Settings {
        match option {
            SwitchOption::Copy => Settings { copy: true, ..self },
            SwitchOption::NoCopy => Settings { copy: false, ..self },
            SwitchOption::Open => Settings { open: true, ..self },
            SwitchOption::Edit => Settings { edit: true, ..self },
            SwitchOption::DebugTiming => Settings { debug_timing: true, ..self },
            SwitchOption::NoBorder => Settings { show_border: false, ..self },
            SwitchOption::Preview => Settings { preview: true, ..self },
            SwitchOption::NoPreview => Settings { preview: false, ..self },
            SwitchOption::StreamKeepFrames => Settings { stream_keep_frames: true, ..self },
            SwitchOption::FixedWidth => Settings { grim_fixed_width: true, ..self },
            SwitchOption::NoFixedWidth => Settings { grim_fixed_width: false, ..self },
            SwitchOption::Dedup => Settings { grim_dedup: true, ..self },
            SwitchOption::NoDedup => Settings { grim_dedup: false, ..self },
        }
    }

    /// The settings after an option with a value, or what is wrong with the value.
    pub open spec fn valued(self, option: ValueOption, value: Seq<char>) -> Result<
        Settings,
        Seq<char>,
    > {
        let number = bounded_value(value, 10, u32::MAX as nat);
        match option {
            ValueOption::Output => Ok(Settings { output: Some(value), ..self }),
            ValueOption::Geometry => Ok(Settings { geometry: Some(value), ..self }),
            ValueOption::Backend => match named_backend(value) {
                Some(backend) => Ok(Settings { backend, ..self }),
                None => Err("invalid backend: "@ + value),
            },
            ValueOption::Fps => if number is None {
                Err("fps must be an integer"@)
            } else if 1 <= number->0 <= 120 {
                Ok(Settings { fps: number->0 as int, ..self })
            } else {
                Err("fps must be in 1..120"@)
            },
            ValueOption::DebugDir => Ok(Settings { debug_dir: Some(value), ..self }),
            ValueOption::BorderColor => match read_color(value) {
                Some(color) => Ok(Settings { border_color: Some(color), ..self }),
                None => Err("invalid border color: "@ + value),
            },
            ValueOption::PreviewWidth => if number is None {
                Err("preview width must be an integer"@)
            } else if 80 <= number->0 <= 1200 {
                Ok(Settings { preview_width: number->0 as int, ..self })
            } else {
                Err("preview width must be in 80..1200"@)
            },
            ValueOption::Stream => Ok(Settings { stream: Some(value), ..self }),
            ValueOption::StreamEvery => match bounded_value(value, 10, usize::MAX as nat) {
                None => Err("stream every must be an integer"@),
                Some(every) => if every == 0 {
                    Err("stream every must be greater than 0"@)
                } else {
                    Ok(Settings { stream_every: every as int, ..self })
                },
            },
            ValueOption::GrimMode => match named_grim_mode(value) {
                Some(grim_mode) => Ok(Settings { grim_mode, ..self }),
                None => Err("invalid grim mode: "@ + value),
            },
            ValueOption::Control => match named_control(value) {
                Some(control) => Ok(Settings { control, ..self }),
                None => Err("invalid control mode: "@ + value),
            },
            ValueOption::MenuCmd => Ok(Settings { menu_cmd: Some(value), ..self }),
        }
    }

    /// The settings with the output given last, or why they do not go together.
    pub open spec fn completed(self, extra: Extra) -> Parsed {
        let output = if self.output is None {
            extra.last
        } else {
            self.output
        };
        let stdout = output == Some("-"@);
        if extra.count > 1 {
            Parsed::Fault("too many output files"@)
        } else if self.copy && stdout {
            Parsed::Fault("--copy cannot be used with stdout output"@)
        } else if self.open && stdout {
            Parsed::Fault("--open cannot be used with stdout output"@)
        } else if self.edit && stdout {
            Parsed::Fault("--edit cannot be used with stdout output"@)
        } else {
            Parsed::Run(Settings { output, ..self })
        }
    }
}

/// The backend of a name.
pub open spec fn named_backend(value: Seq<char>) -> Option<Backend> {
    if value == "frame"@ || value == "frame-helper"@ {
        Some(Backend::Frame)
    } else if value == "grim"@ {
        Some(Backend::Grim)
    } else {
        None
    }
}

/// The mode of a name.
pub open spec fn named_grim_mode(value: Seq<char>) -> Option<GrimMode> {
    if value == "auto"@ {
        Some(GrimMode::Auto)
    } else if value == "manual"@ {
        Some(GrimMode::Manual)
    } else {
        None
    }
}

/// The control of a name.
pub open spec fn named_control(value: Seq<char>) -> Option<ControlMode> {
    if value == "stdin"@ {
        Some(ControlMode::Stdin)
    } else if value == "menu"@ {
        Some(ControlMode::Menu)
    } else {
        None
    }
}

/// The arguments that are no options: how many, and the last.
pub struct Extra {
    pub count: nat,
    pub last: Option<Seq<char>>,
}

/// What comes of the command line.
pub enum Parsed {
    Help,
    Version,
    Backends,
    Run(Settings),
    Fault(Seq<char>),
    /// A colour was given that cannot be read at all.
    Unreadable,
}

/// What comes of the arguments from an index on.
pub open spec fn parsed_from(args: Seq<String>, index: int, settings: Settings, extra: Extra) -> Parsed
    decreases args.len() - index,
{
    if index < 0 || index >= args.len() {
        settings.completed(extra)
    } else {
        let arg = args[index]@;
        match word_of(arg) {
            Word::Help => Parsed::Help,
            Word::Version => Parsed::Version,
            Word::ListBackends => Parsed::Backends,
            Word::Unknown => Parsed::Fault("unknown option: "@ + arg),
            Word::Output => parsed_from(
                args,
                index + 1,
                settings,
                Extra { count: extra.count + 1, last: Some(arg) },
            ),
            Word::Switch(option) => parsed_from(
                args,
                index + 1,
                settings.switched(option),
                extra,
            ),
            Word::Value(option) => if index + 1 >= args.len() {
                Parsed::Fault("missing argument for "@ + option_name(option))
            } else if option == ValueOption::BorderColor && !color_readable(args[index + 1]@) {
                Parsed::Unreadable
            } else {
                match settings.valued(option, args[index + 1]@) {
                    Ok(next) => parsed_from(args, index + 2, next, extra),
                    Err(message) => Parsed::Fault(message),
                }
            },
        }
    }
}

/// What comes of the command line.
pub open spec fn parsed(args: Seq<String>) -> Parsed {
    parsed_from(args, 0, default_settings(), Extra { count: 0, last: None })
}

/// What the command line asks to do.
#[derive(Debug)]
pub enum Request {
    Help,
    Version,
    ListBackends,
    Run(Config),
}

/// Whether what is told of the command line is what comes of it.
pub open spec fn request_is(request: Result<Request, String>, expected: Parsed) -> bool {
    match request {
        Ok(Request::Help) => expected is Help,
        Ok(Request::Version) => expected is Version,
        Ok(Request::ListBackends) => expected is Backends,
        Ok(Request::Run(config)) => expected == Parsed::Run(config@),
        Err(text) => expected == Parsed::Fault(text@),
    }
}

/// Whether a step on the command line gave what is expected of it.
pub open spec fn config_is(
    result: Result<Config, String>,
    expected: Result<Settings, Seq<char>>,
) -> bool {
    match expected {
        Ok(settings) => result matches Ok(config) && config@ == settings,
        Err(message) => result matches Err(text) && text@ == message,
    }
}

fn joined(start: &str, end: &str) -> (text: String)
    ensures
        text@ == start@ + end@,
{
    let mut text = start.to_owned();
    text.append(end);
    text
}

/// The backend of a name, or what is wrong with it.
pub fn parse_backend(value: &str) -> (result: Result<Backend, String>)
    ensures
        match named_backend(value@) {
            Some(backend) => result == Ok::<Backend, String>(backend),
            None => result matches Err(text) && text@ == "invalid backend: "@ + value@,
        },
{
    if same_text(value, "frame") || same_text(value, "frame-helper") {
        Ok(Backend::Frame)
    } else if same_text(value, "grim") {
        Ok(Backend::Grim)
    } else {
        Err(joined("invalid backend: ", value))
    }
}

/// The mode of a name, or what is wrong with it.
pub fn parse_grim_mode(value: &str) -> (result: Result<GrimMode, String>)
    ensures
        match named_grim_mode(value@) {
            Some(mode) => result == Ok::<GrimMode, String>(mode),
            None => result matches Err(text) && text@ == "invalid grim mode: "@ + value@,
        },
{
    if same_text(value, "auto") {
        Ok(GrimMode::Auto)
    } else if same_text(value, "manual") {
        Ok(GrimMode::Manual)
    } else {
        Err(joined("invalid grim mode: ", value))
    }
}

/// The control of a name, or what is wrong with it.
pub fn parse_control_mode(value: &str) -> (result: Result<ControlMode, String>)
    ensures
        match named_control(value@) {
            Some(mode) => result == Ok::<ControlMode, String>(mode),
            None => result matches Err(text) && text@ == "invalid control mode: "@ + value@,
        },
{
    if same_text(value, "stdin") {
        Ok(ControlMode::Stdin)
    } else if same_text(value, "menu") {
        Ok(ControlMode::Menu)
    } else {
        Err(joined("invalid control mode: ", value))
    }
}

/// The argument with an index, or that an option lacks its value.
pub fn take_arg(args: &Vec<String>, index: usize, option: &str) -> (result: Result<String, String>)
    ensures
        match result {
            Ok(value) => index < args@.len() && value@ == args@[index as int]@,
            Err(text) => index >= args@.len() && text@ == "missing argument for "@ + option@,
        },
{
    if index < args.len() {
        Ok(args[index].clone())
    } else {
        Err(joined("missing argument for ", option))
    }
}

fn find_value_option(arg: &str) -> (option: Option<ValueOption>)
    ensures
        option == value_option(arg@),
{
    if same_text(arg, "-o") || same_text(arg, "--output") {
        Some(ValueOption::Output)
    } else if same_text(arg, "-g") || same_text(arg, "--geometry") {
        Some(ValueOption::Geometry)
    } else if same_text(arg, "-b") || same_text(arg, "--backend") {
        Some(ValueOption::Backend)
    } else if same_text(arg, "-f") || same_text(arg, "--fps") {
        Some(ValueOption::Fps)
    } else if same_text(arg, "--debug-dir") {
        Some(ValueOption::DebugDir)
    } else if same_text(arg, "--boarder-color") || same_text(arg, "--border-color") {
        Some(ValueOption::BorderColor)
    } else if same_text(arg, "--preview-width") {
        Some(ValueOption::PreviewWidth)
    } else if same_text(arg, "--stream") {
        Some(ValueOption::Stream)
    } else if same_text(arg, "--stream-every") {
        Some(ValueOption::StreamEvery)
    } else if same_text(arg, "--grim-mode") {
        Some(ValueOption::GrimMode)
    } else if same_text(arg, "--control") {
        Some(ValueOption::Control)
    } else if same_text(arg, "--menu-cmd") {
        Some(ValueOption::MenuCmd)
    } else {
        None
    }
}

fn find_switch_option(arg: &str) -> (option: Option<SwitchOption>)
    ensures
        option == switch_option(arg@),
{
    if same_text(arg, "-c") || same_text(arg, "--copy") {
        Some(SwitchOption::Copy)
    } else if same_text(arg, "--no-copy") {
        Some(SwitchOption::NoCopy)
    } else if same_text(arg, "--open") {
        Some(SwitchOption::Open)
    } else if same_text(arg, "--edit") {
        Some(SwitchOption::Edit)
    } else if same_text(arg, "--debug-timing") {
        Some(SwitchOption::DebugTiming)
    } else if same_text(arg, "--no-boarder") || same_text(arg, "--no-border") {
        Some(SwitchOption::NoBorder)
    } else if same_text(arg, "--preview") {
        Some(SwitchOption::Preview)
    } else if same_text(arg, "--no-preview") {
        Some(SwitchOption::NoPreview)
    } else if same_text(arg, "--stream-keep-frames") {
        Some(SwitchOption::StreamKeepFrames)
    } else if same_text(arg, "--grim-fixed-width") {
        Some(SwitchOption::FixedWidth)
    } else if same_text(arg, "--no-grim-fixed-width") {
        Some(SwitchOption::NoFixedWidth)
    } else if same_text(arg, "--grim-dedup") {
        Some(SwitchOption::Dedup)
    } else if same_text(arg, "--no-grim-dedup") {
        Some(SwitchOption::NoDedup)
    } else {
        None
    }
}

/// The meaning of an argument.
pub fn classify(arg: &str) -> (word: Word)
    ensures
        word == word_of(arg@),
{
    if same_text(arg, "-h") || same_text(arg, "--help") {
        return Word::Help;
    }
    if same_text(arg, "-v") || same_text(arg, "--version") {
        return Word::Version;
    }
    if same_text(arg, "--list-backends") {
        return Word::ListBackends;
    }
    if let Some(option) = find_value_option(arg) {
        return Word::Value(option);
    }
    if let Some(option) = find_switch_option(arg) {
        return Word::Switch(option);
    }
    let chars = characters(arg);
    if chars.len() > 0 && chars[0] == '-' {
        Word::Unknown
    } else {
        Word::Output
    }
}

fn name_of_option(option: ValueOption) -> (name: &'static str)
    ensures
        name@ == option_name(option),
{
    match option {
        ValueOption::Output => "--output",
        ValueOption::Geometry => "--geometry",
        ValueOption::Backend => "--backend",
        ValueOption::Fps => "--fps",
        ValueOption::DebugDir => "--debug-dir",
        ValueOption::BorderColor => "--boarder-color",
        ValueOption::PreviewWidth => "--preview-width",
        ValueOption::Stream => "--stream",
        ValueOption::StreamEvery => "--stream-every",
        ValueOption::GrimMode => "--grim-mode",
        ValueOption::Control => "--control",
        ValueOption::MenuCmd => "--menu-cmd",
    }
}

fn number_in(value: &str, max: u64) -> (number: Option<u64>)
    ensures
        match bounded_value(value@, 10, max as nat) {
            Some(n) => number == Some(n as u64) && n <= max,
            None => number is None,
        },
{
    let chars = characters(value);
    parse_unsigned(chars.as_slice(), 10, max)
}

impl Config {
    fn new() -> (config: Config)
        ensures
            config@ == default_settings(),
    {
        Config {
            output: None,
            geometry: None,
            backend: Backend::Frame,
            fps: DEFAULT_FPS,
            copy: true,
            open: false,
            edit: false,
            debug_dir: None,
            debug_timing: false,
            show_border: true,
            border_color: None,
            preview: true,
            preview_width: 320,
            stream: None,
            stream_keep_frames: false,
            stream_every: 1,
            grim_mode: GrimMode::Auto,
            grim_fixed_width: true,
            grim_dedup: true,
            control: ControlMode::Stdin,
            menu_cmd: None,
        }
    }

    fn switch(self, option: SwitchOption) -> (config: Config)
        ensures
            config@ == self@.switched(option),
    {
        match option {
            SwitchOption::Copy => Config { copy: true, ..self },
            SwitchOption::NoCopy => Config { copy: false, ..self },
            SwitchOption::Open => Config { open: true, ..self },
            SwitchOption::Edit => Config { edit: true, ..self },
            SwitchOption::DebugTiming => Config { debug_timing: true, ..self },
            SwitchOption::NoBorder => Config { show_border: false, ..self },
            SwitchOption::Preview => Config { preview: true, ..self },
            SwitchOption::NoPreview => Config { preview: false, ..self },
            SwitchOption::StreamKeepFrames => Config { stream_keep_frames: true, ..self },
            SwitchOption::FixedWidth => Config { grim_fixed_width: true, ..self },
            SwitchOption::NoFixedWidth => Config { grim_fixed_width: false, ..self },
            SwitchOption::Dedup => Config { grim_dedup: true, ..self },
            SwitchOption::NoDedup => Config { grim_dedup: false, ..self },
        }
    }

    fn set_number(self, option: ValueOption, value: &str) -> (result: Result<Config, String>)
        requires
            option == ValueOption::Fps || option == ValueOption::PreviewWidth || option
                == ValueOption::StreamEvery,
        ensures
            config_is(result, self@.valued(option, value@)),
    {
        if option == ValueOption::StreamEvery {
            return match number_in(value, usize::MAX as u64) {
                None => Err("stream every must be an integer".to_owned()),
                Some(0) => Err("stream every must be greater than 0".to_owned()),
                Some(n) => Ok(Config { stream_every: n as usize, ..self }),
            };
        }
        let number = number_in(value, u32::MAX as u64);
        if option == ValueOption::Fps {
            match number {
                None => Err("fps must be an integer".to_owned()),
                Some(n) => if 1 <= n && n <= 120 {
                    Ok(Config { fps: n as u32, ..self })
                } else {
                    Err("fps must be in 1..120".to_owned())
                },
            }
        } else {
            match number {
                None => Err("preview width must be an integer".to_owned()),
                Some(n) => if 80 <= n && n <= 1200 {
                    Ok(Config { preview_width: n as u32, ..self })
                } else {
                    Err("preview width must be in 80..1200".to_owned())
                },
            }
        }
    }

    fn set_text(self, option: ValueOption, value: String) -> (config: Config)
        requires
            option == ValueOption::Output || option == ValueOption::Geometry || option
                == ValueOption::DebugDir || option == ValueOption::Stream || option
                == ValueOption::MenuCmd,
        ensures
            self@.valued(option, value@) == Ok::<Settings, Seq<char>>(config@),
    {
        match option {
            ValueOption::Output => Config { output: Some(value), ..self },
            ValueOption::Geometry => Config { geometry: Some(value), ..self },
            ValueOption::DebugDir => Config { debug_dir: Some(value), ..self },
            ValueOption::Stream => Config { stream: Some(value), ..self },
            _ => Config { menu_cmd: Some(value), ..self },
        }
    }

    fn set_named(self, option: ValueOption, value: &str) -> (result: Result<Config, String>)
        requires
            option == ValueOption::Backend || option == ValueOption::GrimMode || option
                == ValueOption::Control,
        ensures
            config_is(result, self@.valued(option, value@)),
    {
        match option {
            ValueOption::Backend => match parse_backend(value) {
                Ok(backend) => Ok(Config { backend, ..self }),
                Err(text) => Err(text),
            },
            ValueOption::GrimMode => match parse_grim_mode(value) {
                Ok(grim_mode) => Ok(Config { grim_mode, ..self }),
                Err(text) => Err(text),
            },
            _ => match parse_control_mode(value) {
                Ok(control) => Ok(Config { control, ..self }),
                Err(text) => Err(text),
            },
        }
    }

    fn set_color(self, value: &str) -> (result: Result<Config, String>)
        requires
            color_readable(value@),
        ensures
            config_is(result, self@.valued(ValueOption::BorderColor, value@)),
    {
        match parse_color(value) {
            Some(color) => Ok(Config { border_color: Some(color), ..self }),
            None => Err(joined("invalid border color: ", value)),
        }
    }

    fn set_value(self, option: ValueOption, value: String) -> (result: Result<Config, String>)
        requires
            option == ValueOption::BorderColor ==> color_readable(value@),
        ensures
            config_is(result, self@.valued(option, value@)),
    {
        match option {
            ValueOption::Backend | ValueOption::GrimMode | ValueOption::Control => self.set_named(
                option,
                value.as_str(),
            ),
            ValueOption::Fps | ValueOption::PreviewWidth | ValueOption::StreamEvery => {
                self.set_number(option, value.as_str())
            },
            ValueOption::BorderColor => self.set_color(value.as_str()),
            _ => Ok(self.set_text(option, value)),
        }
    }

    fn complete(self, count: usize, last: Option<String>) -> (result: Result<Request, String>)
        ensures
            request_is(
                result,
                self@.completed(Extra { count: count as nat, last: text_of(last) }),
            ),
    {
        if count > 1 {
            return Err("too many output files".to_owned());
        }
        let mut config = self;
        if config.output.is_none() {
            config.output = last;
        }
        let stdout: bool = match &config.output {
            Some(output) => same_text(output.as_str(), "-"),
            None => false,
        };
        if config.copy && stdout {
            return Err("--copy cannot be used with stdout output".to_owned());
        }
        if config.open && stdout {
            return Err("--open cannot be used with stdout output".to_owned());
        }
        if config.edit && stdout {
            return Err("--edit cannot be used with stdout output".to_owned());
        }
        Ok(Request::Run(config))
    }
}

/// What the command line asks to do, or what is wrong with it; nothing where a colour cannot
/// be read at all.
pub fn read_args(args: &Vec<String>) -> (result: Option<Result<Request, String>>)
    ensures
        match result {
            Some(request) => request_is(request, parsed(args@)),
            None => parsed(args@) is Unreadable,
        },
{
    let mut config = Config::new();
    let mut count: usize = 0;
    let mut last: Option<String> = None;
    let mut index: usize = 0;
    while index < args.len()
        invariant
            index <= args@.len(),
            count <= index,
            parsed(args@) == parsed_from(
                args@,
                index as int,
                config@,
                Extra { count: count as nat, last: text_of(last) },
            ),
        decreases args@.len() - index,
    {
        match classify(args[index].as_str()) {
            Word::Help => {
                return Some(Ok(Request::Help));
            },
            Word::Version => {
                return Some(Ok(Request::Version));
            },
            Word::ListBackends => {
                return Some(Ok(Request::ListBackends));
            },
            Word::Unknown => {
                return Some(Err(joined("unknown option: ", args[index].as_str())));
            },
            Word::Output => {
                last = Some(args[index].clone());
                count += 1;
                index += 1;
            },
            Word::Switch(option) => {
                config = config.switch(option);
                index += 1;
            },
            Word::Value(option) => {
                let value = match take_arg(args, index + 1, name_of_option(option)) {
                    Ok(value) => value,
                    Err(text) => {
                        return Some(Err(text));
                    },
                };
                if option == ValueOption::BorderColor && !is_color_readable(value.as_str()) {
                    return None;
                }
                match config.set_value(option, value) {
                    Ok(next) => {
                        config = next;
                    },
                    Err(text) => {
                        return Some(Err(text));
                    },
                }
                index += 2;
            },
        }
    }
    Some(config.complete(count, last))
}

/// What the command line asks to do, or what is wrong with it.
pub fn parse_args(args: Vec<String>) -> (result: Result<Request, String>)
    requires
        !(parsed(args@) is Unreadable),
    ensures
        request_is(result, parsed(args@)),
{
    match read_args(&args) {
        Some(result) => result,
        None => Err(String::new()),
    }
}

/// Whether what a command line asks for can be told to run has the limits that were asked of
/// its values.
pub open spec fn sensible(settings: Settings) -> bool {
    &&& 1 <= settings.fps <= 120
    &&& 80 <= settings.preview_width <= 1200
    &&& 1 <= settings.stream_every
}

/// A command line that is told to run has sensible numbers, and does not copy, open or edit
/// what goes to the standard output.
pub proof fn lemma_run_is_sensible(args: Seq<String>, index: int, settings: Settings, extra: Extra)
    requires
        sensible(settings),
    ensures
        parsed_from(args, index, settings, extra) matches Parsed::Run(result) ==> sensible(result)
            && (result.output == Some("-"@) ==> !result.copy && !result.open && !result.edit),
    decreases args.len() - index,
{
    if 0 <= index < args.len() {
        match word_of(args[index]@) {
            Word::Output => {
                lemma_run_is_sensible(
                    args,
                    index + 1,
                    settings,
                    Extra { count: extra.count + 1, last: Some(args[index]@) },
                );
            },
            Word::Switch(option) => {
                lemma_run_is_sensible(args, index + 1, settings.switched(option), extra);
            },
            Word::Value(option) => {
                if index + 1 < args.len() {
                    match settings.valued(option, args[index + 1]@) {
                        Ok(next) => {
                            lemma_run_is_sensible(args, index + 2, next, extra);
                        },
                        Err(_) => {},
                    }
                }
            },
            _ => {},
        }
    }
}

/// A later option outdoes an earlier one of the opposite sense.
pub proof fn lemma_last_switch_wins(settings: Settings)
    ensures
        settings.switched(SwitchOption::NoCopy).switched(SwitchOption::Copy).copy,
        !settings.switched(SwitchOption::Copy).switched(SwitchOption::NoCopy).copy,
        settings.switched(SwitchOption::NoPreview).switched(SwitchOption::Preview).preview,
        !settings.switched(SwitchOption::Preview).switched(SwitchOption::NoPreview).preview,
{
}

} // verus!
