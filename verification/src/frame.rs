//! Frames as the compositor hands them over.

use crate::raster::{byte_count, Image};
use crate::text::{append_hex, hex_text};
use vstd::prelude::*;

verus! {

/// Blue, green, red and alpha.
pub const ARGB8888: u32 = 0;

/// Blue, green, red and a byte of no meaning.
pub const XRGB8888: u32 = 1;

/// Red, green, blue and alpha.
pub const ABGR8888: u32 = 0x3432_4241;

/// Red, green, blue and a byte of no meaning.
pub const XBGR8888: u32 = 0x3432_4258;

/// Whether the first byte of a pixel is blue.
pub open spec fn blue_first(format: u32) -> bool {
    format == ARGB8888 || format == XRGB8888
}

/// Whether the first byte of a pixel is red.
pub open spec fn red_first(format: u32) -> bool {
    format == ABGR8888 || format == XBGR8888
}

/// Whether the rows come from the bottom up.
pub open spec fn upside_down(flags: u32) -> bool {
    flags % 2 == 1
}

/// The row of the payload that holds row `y` of a frame.
pub open spec fn payload_row(height: int, flags: u32, y: int) -> int {
    if upside_down(flags) {
        height - 1 - y
    } else {
        y
    }
}

/// Where the bytes of a pixel of a frame start in the payload.
pub open spec fn payload_offset(height: int, stride: int, flags: u32, x: int, y: int) -> int {
    payload_row(height, flags, y) * stride + x * 4
}

/// A pixel of a frame: it is opaque.
pub open spec fn frame_pixel(
    payload: Seq<u8>,
    height: int,
    stride: int,
    format: u32,
    flags: u32,
    x: int,
    y: int,
) -> Seq<u8> {
    let i = payload_offset(height, stride, flags, x, y);
    if blue_first(format) {
        seq![payload[i + 2], payload[i + 1], payload[i], 255u8]
    } else {
        seq![payload[i], payload[i + 1], payload[i + 2], 255u8]
    }
}

/// Whether a pixel shows the bytes at a place of the payload, which are blue, green and red, or
/// red, green and blue: it is opaque.
pub open spec fn shows_bytes(pixel: Seq<u8>, payload: Seq<u8>, i: int, blue: bool) -> bool {
    &&& pixel.len() == 4
    &&& pixel[0] == payload[if blue {
        i + 2
    } else {
        i
    }]
    &&& pixel[1] == payload[i + 1]
    &&& pixel[2] == payload[if blue {
        i
    } else {
        i + 2
    }]
    &&& pixel[3] == 255
}

/// The text told of a format that is not supported.
pub open spec fn unsupported_text(format: u32) -> Seq<char> {
    "unsupported wl_shm format: 0x"@ + hex_text(format as nat, 8)
}

/// The text told of a format that is not supported.
pub fn unsupported_format(format: u32) -> (text: String)
    ensures
        text@ == unsupported_text(format),
{
    let mut text = "unsupported wl_shm format: 0x".to_owned();
    append_hex(&mut text, format, 8);
    text
}

/// Whether the payload holds the pixels of a frame that are looked at: all of them, or the
/// first where the format is not supported.
pub open spec fn payload_holds(
    length: int,
    width: int,
    height: int,
    stride: int,
    format: u32,
    flags: u32,
) -> bool {
    width > 0 && height > 0 ==> if blue_first(format) || red_first(format) {
        (height - 1) * stride + width * 4 <= length
    } else {
        payload_offset(height, stride, flags, 0, 0) + 4 <= length
    }
}

/// Whether a frame of the given size can be held, and a payload of the given length holds it.
pub fn is_payload_complete(
    length: usize,
    width: u32,
    height: u32,
    stride: usize,
    format: u32,
    flags: u32,
) -> (result: bool)
    ensures
        result == (byte_count(width as int, height as int) <= usize::MAX && payload_holds(
            length as int,
            width as int,
            height as int,
            stride as int,
            format,
            flags,
        )),
{
    proof {
        assert(height * (width * 4) <= 0xffff_ffff * 0x3_ffff_fffc) by (nonlinear_arith)
            requires
                height <= 0xffff_ffff,
                width <= 0xffff_ffff,
        ;
        assert(0 * stride == 0);
    }
    if height as u128 * (width as u128 * 4) > usize::MAX as u128 {
        return false;
    }
    if width == 0 || height == 0 {
        return true;
    }
    proof {
        assert((height - 1) * stride <= 0xffff_ffff * 0xffff_ffff_ffff_ffff) by (nonlinear_arith)
            requires
                height <= 0xffff_ffff,
                stride <= 0xffff_ffff_ffff_ffff,
                height >= 1,
        ;
    }
    let last: u128 = (height as u128 - 1) * stride as u128;
    if format == ARGB8888 || format == XRGB8888 || format == ABGR8888 || format == XBGR8888 {
        last + width as u128 * 4 <= length as u128
    } else if flags % 2 == 1 {
        last + 4 <= length as u128
    } else {
        4 <= length
    }
}

/// A pixel lies in the payload.
proof fn lemma_in_payload(
    length: int,
    width: int,
    height: int,
    stride: int,
    flags: u32,
    x: int,
    y: int,
)
    requires
        0 <= x < width,
        0 <= y < height,
        0 <= stride,
        (height - 1) * stride + width * 4 <= length,
    ensures
        0 <= payload_row(height, flags, y) * stride,
        0 <= payload_offset(height, stride, flags, x, y),
        payload_offset(height, stride, flags, x, y) + 4 <= length,
{
    let row = payload_row(height, flags, y);
    assert(0 <= row * stride && row * stride <= (height - 1) * stride) by (nonlinear_arith)
        requires
            0 <= row <= height - 1,
            0 <= stride,
    ;
}

/// The image of a frame, or what is wrong with it.
pub fn decode_wl_shm_frame(
    payload: &[u8],
    width: u32,
    height: u32,
    stride: usize,
    format: u32,
    flags: u32,
) -> (result: Result<Image, String>)
    requires
        byte_count(width as int, height as int) <= usize::MAX,
        payload_holds(
            payload@.len() as int,
            width as int,
            height as int,
            stride as int,
            format,
            flags,
        ),
    ensures
        match result {
            Ok(image) => {
                &&& width == 0 || height == 0 || blue_first(format) || red_first(format)
                &&& image@.complete()
                &&& image@.width == width
                &&& image@.height == height
                &&& forall|x: int, y: int|
                    0 <= x < width && 0 <= y < height ==> #[trigger] image@.pixel(x, y)
                        == frame_pixel(
                        payload@,
                        height as int,
                        stride as int,
                        format,
                        flags,
                        x,
                        y,
                    )
            },
            Err(text) => {
                &&& width > 0 && height > 0
                &&& !blue_first(format) && !red_first(format)
                &&& text@ == unsupported_text(format)
            },
        },
        width > 0 && height > 0 ==> (result is Ok <==> format == 0 || format == 1 || format
            == 0x3432_4241 || format == 0x3432_4258),
        result matches Ok(image) ==> forall|x: int, y: int|
            0 <= x < width && 0 <= y < height ==> shows_bytes(
                #[trigger] image@.pixel(x, y),
                payload@,
                (if flags % 2 == 1 {
                    height - 1 - y
                } else {
                    y
                }) * stride + x * 4,
                format == 0 || format == 1,
            ),
{
    let length: usize = payload.len();
    let mut image = Image::new(width, height);
    let blue: bool = format == ARGB8888 || format == XRGB8888;
    let red: bool = format == ABGR8888 || format == XBGR8888;
    if width > 0 && height > 0 && !blue && !red {
        return Err(unsupported_format(format));
    }
    let mut y: u32 = 0;
    while y < height
        invariant
            y <= height,
            length == payload@.len(),
            width > 0 && height > 0 ==> blue || red,
            blue == blue_first(format),
            red == red_first(format),
            payload_holds(
                payload@.len() as int,
                width as int,
                height as int,
                stride as int,
                format,
                flags,
            ),
            image@.complete(),
            image@.width == width,
            image@.height == height,
            forall|v: int, w: int|
                0 <= v < width && 0 <= w < y ==> #[trigger] image@.pixel(v, w) == frame_pixel(
                    payload@,
                    height as int,
                    stride as int,
                    format,
                    flags,
                    v,
                    w,
                ),
        decreases height - y,
    {
        let row: u32 = if flags % 2 == 1 {
            height - 1 - y
        } else {
            y
        };
        let mut x: u32 = 0;
        while x < width
            invariant
                x <= width,
                y < height,
                row == payload_row(height as int, flags, y as int),
                length == payload@.len(),
                width > 0 && height > 0 ==> blue || red,
                blue == blue_first(format),
                red == red_first(format),
                payload_holds(
                    payload@.len() as int,
                    width as int,
                    height as int,
                    stride as int,
                    format,
                    flags,
                ),
                image@.complete(),
                image@.width == width,
                image@.height == height,
                forall|v: int, w: int|
                    0 <= v < width && 0 <= w < height && (w < y || (w == y && v < x))
                        ==> #[trigger] image@.pixel(v, w) == frame_pixel(
                        payload@,
                        height as int,
                        stride as int,
                        format,
                        flags,
                        v,
                        w,
                    ),
            decreases width - x,
        {
            proof {
                lemma_in_payload(
                    length as int,
                    width as int,
                    height as int,
                    stride as int,
                    flags,
                    x as int,
                    y as int,
                );
            }
            let i: usize = row as usize * stride + x as usize * 4;
            let pixel: [u8; 4] = if blue {
                [payload[i + 2], payload[i + 1], payload[i], 255]
            } else {
                [payload[i], payload[i + 1], payload[i + 2], 255]
            };
            proof {
                assert(pixel@ =~= frame_pixel(
                    payload@,
                    height as int,
                    stride as int,
                    format,
                    flags,
                    x as int,
                    y as int,
                ));
            }
            image.put_pixel(x, y, pixel);
            x += 1;
        }
        y += 1;
    }
    Ok(image)
}

/// The bytes of the buffer that a surface of the given size is drawn in: those of a row, and
/// all of them.
pub fn surface_buffer_size(width: u32, height: u32) -> (size: Result<(u32, u32), String>)
    ensures
        match size {
            Ok((stride, bytes)) => stride == width * 4 && bytes == byte_count(
                width as int,
                height as int,
            ),
            Err(text) => if width * 4 > u32::MAX {
                text@ == "overlay stride overflow"@
            } else {
                byte_count(width as int, height as int) > u32::MAX && text@
                    == "overlay buffer size overflow"@
            },
        },
{
    let stride: u32 = match width.checked_mul(4) {
        Some(stride) => stride,
        None => {
            return Err("overlay stride overflow".to_owned());
        },
    };
    proof {
        assert(stride * height == height * (width * 4)) by (nonlinear_arith)
            requires
                stride == width * 4,
        ;
    }
    match stride.checked_mul(height) {
        Some(bytes) => Ok((stride, bytes)),
        None => Err("overlay buffer size overflow".to_owned()),
    }
}

/// The format of a buffer, and whether it is one that the compositor's protocol names.
#[derive(Clone, Copy, Debug)]
pub enum ShmFormat {
    Known(u32),
    Unknown(u32),
}

/// The bytes of the buffer that a frame is captured in.
pub fn capture_buffer_size(format: ShmFormat, height: u32, stride: u32) -> (size: Result<u32, String>)
    ensures
        match size {
            Ok(bytes) => format is Known && bytes == stride * height,
            Err(text) => if stride * height > u32::MAX {
                text@ == "capture buffer size overflow"@
            } else {
                format matches ShmFormat::Unknown(value) && text@ == unsupported_text(value)
            },
        },
{
    let bytes: u32 = match stride.checked_mul(height) {
        Some(bytes) => bytes,
        None => {
            return Err("capture buffer size overflow".to_owned());
        },
    };
    match format {
        ShmFormat::Known(_) => Ok(bytes),
        ShmFormat::Unknown(value) => Err(unsupported_format(value)),
    }
}

/// How far the capture of a frame has come.
#[derive(Clone, Copy, Debug, PartialEq, Eq, Structural)]
pub struct FrameProgress {
    pub done: bool,
    pub failed: bool,
    pub flags: u32,
    pub buffered: bool,
}

/// What the compositor tells of a frame.
#[derive(Clone, Copy, Debug)]
pub enum FrameEvent {
    /// A buffer is asked for, and it could be made or not.
    Buffer { made: bool },
    Flags { flags: u32 },
    Ready,
    Failed,
    /// All kinds of buffers were told.
    BufferDone,
}

impl FrameProgress {
    /// A frame that was just asked for.
    pub open spec fn asked() -> FrameProgress {
        FrameProgress { done: false, failed: false, flags: 0, buffered: false }
    }

    /// How far the capture has come after an event.
    pub open spec fn after(self, event: FrameEvent) -> FrameProgress {
        match event {
            FrameEvent::Buffer { made: true } => FrameProgress { buffered: true, ..self },
            FrameEvent::Buffer { made: false } => FrameProgress {
                failed: true,
                done: true,
                ..self
            },
            FrameEvent::Flags { flags } => FrameProgress { flags, ..self },
            FrameEvent::Ready => FrameProgress { done: true, ..self },
            FrameEvent::Failed => FrameProgress { failed: true, done: true, ..self },
            FrameEvent::BufferDone => if self.buffered {
                self
            } else {
                FrameProgress { failed: true, done: true, ..self }
            },
        }
    }

    /// Starts anew with a frame.
    pub fn request() -> (progress: FrameProgress)
        ensures
            progress == FrameProgress::asked(),
    {
        FrameProgress { done: false, failed: false, flags: 0, buffered: false }
    }

    /// Takes note of what the compositor tells of a frame, and tells whether the frame is to
    /// be copied into the buffer now.
    pub fn handle_event(&mut self, event: FrameEvent) -> (copy: bool)
        ensures
            *final(self) == old(self).after(event),
            copy == (event is BufferDone && old(self).buffered),
    {
        match event {
            FrameEvent::Buffer { made } => {
                if made {
                    self.buffered = true;
                } else {
                    self.failed = true;
                    self.done = true;
                }
                false
            },
            FrameEvent::Flags { flags } => {
                self.flags = flags;
                false
            },
            FrameEvent::Ready => {
                self.done = true;
                false
            },
            FrameEvent::Failed => {
                self.failed = true;
                self.done = true;
                false
            },
            FrameEvent::BufferDone => {
                if !self.buffered {
                    self.failed = true;
                    self.done = true;
                }
                self.buffered
            },
        }
    }
}

/// A capture that failed is done.
pub proof fn lemma_failed_is_done(progress: FrameProgress, event: FrameEvent)
    requires
        progress.failed ==> progress.done,
    ensures
        progress.after(event).failed ==> progress.after(event).done,
{
}

/// What is done next while a frame is awaited.
#[derive(Clone, Copy, Debug, PartialEq, Eq, Structural)]
pub enum Waiting {
    /// The frame is there.
    Done,
    /// No more frames are wanted.
    Stop,
    /// Events may have come meanwhile.
    Again,
    /// Nothing came, so events are waited for.
    Wait,
}

/// What is done before events are handled: whether the wait is over.
pub fn before_events(progress: &FrameProgress, stop: bool) -> (next: Waiting)
    ensures
        next == if progress.done {
            Waiting::Done
        } else if stop {
            Waiting::Stop
        } else {
            Waiting::Again
        },
{
    if progress.done {
        Waiting::Done
    } else if stop {
        Waiting::Stop
    } else {
        Waiting::Again
    }
}

/// What is done after the events at hand were handled.
pub fn after_events(progress: &FrameProgress, handled: usize) -> (next: Waiting)
    ensures
        next == if handled > 0 || progress.done {
            Waiting::Again
        } else {
            Waiting::Wait
        },
{
    if handled > 0 || progress.done {
        Waiting::Again
    } else {
        Waiting::Wait
    }
}

/// The time between two frames, in nanoseconds; none where frames are not timed.
pub fn frame_interval(fps: u32) -> (interval: Option<u64>)
    ensures
        match interval {
            None => fps == 0,
            Some(nanos) => fps > 0 && nanos == 1_000_000_000u64 / fps as u64,
        },
{
    if fps == 0 {
        None
    } else {
        Some(1_000_000_000u64 / fps as u64)
    }
}

/// How long to sleep next on the way to a time, in steps of a given length; not at all when
/// the time has come or no more is wanted.
pub fn next_delay(slept: u128, total: u128, step: u128, stop: bool) -> (delay: Option<u128>)
    ensures
        match delay {
            None => slept >= total || stop,
            Some(delay) => {
                &&& slept < total
                &&& !stop
                &&& delay == if total - slept < step {
                    total - slept
                } else {
                    step as int
                }
            },
        },
{
    if slept >= total || stop {
        None
    } else if total - slept < step {
        Some(total - slept)
    } else {
        Some(step)
    }
}

/// A pixel of a frame is opaque and shows the red, green and blue bytes that the payload holds for
/// it: blue first in the formats 0 and 1, red first in the formats 0x34324241 and 0x34324258; the
/// rows come from the bottom up where the lowest flag is set.
pub proof fn lemma_frame_pixel(
    payload: Seq<u8>,
    height: int,
    stride: int,
    format: u32,
    flags: u32,
    x: int,
    y: int,
)
    requires
        format == 0 || format == 1 || format == 0x3432_4241 || format == 0x3432_4258,
    ensures
        ({
            let pixel = frame_pixel(payload, height, stride, format, flags, x, y);
            let down = y * stride + x * 4;
            let up = (height - 1 - y) * stride + x * 4;
            let i = if flags % 2 == 1 {
                up
            } else {
                down
            };
            &&& pixel.len() == 4
            &&& pixel[3] == 255
            &&& pixel[1] == payload[i + 1]
            &&& format <= 1 ==> pixel[0] == payload[i + 2] && pixel[2] == payload[i]
            &&& format > 1 ==> pixel[0] == payload[i] && pixel[2] == payload[i + 2]
        }),
{
}

/// A frame is decoded if and only if its format is one of four, and a payload is looked at as far
/// as its last pixel.
pub proof fn lemma_formats(length: int, width: int, height: int, stride: int, format: u32, flags: u32)
    requires
        width > 0,
        height > 0,
    ensures
        blue_first(format) <==> format == 0 || format == 1,
        red_first(format) <==> format == 0x3432_4241 || format == 0x3432_4258,
        format == 0 || format == 1 || format == 0x3432_4241 || format == 0x3432_4258 ==> (
        payload_holds(length, width, height, stride, format, flags) <==> stride * (height - 1) + 4
            * width <= length),
{
    assert(stride * (height - 1) == (height - 1) * stride) by (nonlinear_arith);
}

} // verus!
