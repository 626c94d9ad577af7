//! Regions of the screen: how they are written, and which screen they lie on.

use crate::preview::{OutputInfo, Rect};
use crate::text::{
    append_signed, characters, i32_value, lemma_signed_read, lemma_split_joined, parse_i32,
    signed_decimal, split_at_first, split_once,
};
use vstd::prelude::*;

verus! {

/// The region that a text writes, or what is wrong with it.
pub open spec fn read_rect(text: Seq<char>) -> Result<Rect, Seq<char>> {
    match split_at_first(text, ' ') {
        None => Err("geometry must look like 'x,y WIDTHxHEIGHT'"@),
        Some((position, size)) => match split_at_first(position, ',') {
            None => Err("geometry must include x,y position"@),
            Some((x, y)) => match split_at_first(size, 'x') {
                None => Err("geometry must include WIDTHxHEIGHT size"@),
                Some((width, height)) => if i32_value(x) is None {
                    Err("invalid geometry x"@)
                } else if i32_value(y) is None {
                    Err("invalid geometry y"@)
                } else if i32_value(width) is None {
                    Err("invalid geometry width"@)
                } else if i32_value(height) is None {
                    Err("invalid geometry height"@)
                } else if i32_value(width)->0 <= 0 || i32_value(height)->0 <= 0 {
                    Err("geometry width and height must be positive"@)
                } else {
                    Ok(
                        Rect {
                            x: i32_value(x)->0 as i32,
                            y: i32_value(y)->0 as i32,
                            width: i32_value(width)->0 as i32,
                            height: i32_value(height)->0 as i32,
                        },
                    )
                },
            },
        },
    }
}

/// How a region is written.
pub open spec fn rect_text(rect: Rect) -> Seq<char> {
    signed_decimal(rect.x as int) + seq![','] + signed_decimal(rect.y as int) + seq![' ']
        + signed_decimal(rect.width as int) + seq!['x'] + signed_decimal(rect.height as int)
}

impl Rect {
    /// The region that a text writes, or what is wrong with it.
    pub fn parse(text: &str) -> (result: Result<Rect, String>)
        ensures
            match read_rect(text@) {
                Ok(rect) => result == Ok::<Rect, String>(rect),
                Err(message) => result matches Err(told) && told@ == message,
            },
    {
        let chars = characters(text);
        let (position, size) = match split_once(chars.as_slice(), ' ') {
            Some(parts) => parts,
            None => {
                return Err("geometry must look like 'x,y WIDTHxHEIGHT'".to_owned());
            },
        };
        let (x, y) = match split_once(position, ',') {
            Some(parts) => parts,
            None => {
                return Err("geometry must include x,y position".to_owned());
            },
        };
        let (width, height) = match split_once(size, 'x') {
            Some(parts) => parts,
            None => {
                return Err("geometry must include WIDTHxHEIGHT size".to_owned());
            },
        };
        let x: i32 = match parse_i32(x) {
            Some(n) => n,
            None => {
                return Err("invalid geometry x".to_owned());
            },
        };
        let y: i32 = match parse_i32(y) {
            Some(n) => n,
            None => {
                return Err("invalid geometry y".to_owned());
            },
        };
        let width: i32 = match parse_i32(width) {
            Some(n) => n,
            None => {
                return Err("invalid geometry width".to_owned());
            },
        };
        let height: i32 = match parse_i32(height) {
            Some(n) => n,
            None => {
                return Err("invalid geometry height".to_owned());
            },
        };
        if width <= 0 || height <= 0 {
            return Err("geometry width and height must be positive".to_owned());
        }
        Ok(Rect { x, y, width, height })
    }

    /// The region as a text.
    pub fn to_text(&self) -> (text: String)
        ensures
            text@ == rect_text(*self),
    {
        let mut text = String::new();
        append_signed(&mut text, self.x);
        text.append(",");
        append_signed(&mut text, self.y);
        text.append(" ");
        append_signed(&mut text, self.width);
        text.append("x");
        append_signed(&mut text, self.height);
        proof {
            reveal_strlit(",");
            reveal_strlit(" ");
            reveal_strlit("x");
            assert(","@ =~= seq![',']);
            assert(" "@ =~= seq![' ']);
            assert("x"@ =~= seq!['x']);
            assert(text@ =~= rect_text(*self));
        }
        text
    }
}

/// A region of positive size is read as it was written, and any other is refused for its size.
pub proof fn lemma_rect_read(rect: Rect)
    ensures
        read_rect(rect_text(rect)) == if rect.width > 0 && rect.height > 0 {
            Ok::<Rect, Seq<char>>(rect)
        } else {
            Err("geometry width and height must be positive"@)
        },
{
    let x = signed_decimal(rect.x as int);
    let y = signed_decimal(rect.y as int);
    let width = signed_decimal(rect.width as int);
    let height = signed_decimal(rect.height as int);
    lemma_signed_read(rect.x as int);
    lemma_signed_read(rect.y as int);
    lemma_signed_read(rect.width as int);
    lemma_signed_read(rect.height as int);
    let position = x + seq![','] + y;
    let size = width + seq!['x'] + height;
    assert(rect_text(rect) =~= position + seq![' '] + size);
    assert forall|i: int| 0 <= i < position.len() implies position[i] != ' ' by {
        if i < x.len() {
            assert(position[i] == x[i]);
        } else if i > x.len() {
            assert(position[i] == y[i - x.len() - 1]);
        }
    }
    lemma_split_joined(position, ' ', size);
    lemma_split_joined(x, ',', y);
    lemma_split_joined(width, 'x', height);
}

/// Whether a point lies on a screen whose place is known.
pub open spec fn on_output(output: OutputInfo, x: int, y: int) -> bool {
    &&& output.has_geometry
    &&& output.x <= x < output.x + output.width
    &&& output.y <= y < output.y + output.height
}

/// The middle of a region along one axis.
pub open spec fn middle(start: int, length: int) -> int {
    start + if length < 0 {
        -((-length) / 2)
    } else {
        length / 2
    }
}

/// Whether the screen with the given index is the one that a region is captured from: the
/// first on which its middle lies, or else the first of all.
pub open spec fn is_target(outputs: Seq<OutputInfo>, geometry: Rect, index: int) -> bool {
    let x = middle(geometry.x as int, geometry.width as int);
    let y = middle(geometry.y as int, geometry.height as int);
    &&& 0 <= index < outputs.len()
    &&& (on_output(outputs[index], x, y) && forall|j: int|
        0 <= j < index ==> !on_output(#[trigger] outputs[j], x, y)) || (index == 0 && forall|j: int|
        0 <= j < outputs.len() ==> !on_output(#[trigger] outputs[j], x, y))
}

/// The screen that a region is captured from, if there is any.
pub fn find_target_output(outputs: &Vec<OutputInfo>, geometry: Rect) -> (target: Option<usize>)
    requires
        i32::MIN <= middle(geometry.x as int, geometry.width as int) <= i32::MAX,
        i32::MIN <= middle(geometry.y as int, geometry.height as int) <= i32::MAX,
    ensures
        target is None <==> outputs@.len() == 0,
        target matches Some(index) ==> is_target(outputs@, geometry, index as int),
{
    let half_width: i64 = if geometry.width < 0 {
        -(-(geometry.width as i64) / 2)
    } else {
        geometry.width as i64 / 2
    };
    let half_height: i64 = if geometry.height < 0 {
        -(-(geometry.height as i64) / 2)
    } else {
        geometry.height as i64 / 2
    };
    let x: i64 = geometry.x as i64 + half_width;
    let y: i64 = geometry.y as i64 + half_height;
    let mut i: usize = 0;
    while i < outputs.len()
        invariant
            i <= outputs@.len(),
            x == middle(geometry.x as int, geometry.width as int),
            y == middle(geometry.y as int, geometry.height as int),
            forall|j: int| 0 <= j < i ==> !on_output(#[trigger] outputs@[j], x as int, y as int),
        decreases outputs@.len() - i,
    {
        let output = &outputs[i];
        if output.has_geometry && output.x as i64 <= x && x < output.x as i64 + output.width as i64
            && output.y as i64 <= y && y < output.y as i64 + output.height as i64 {
            return Some(i);
        }
        i += 1;
    }
    if outputs.len() > 0 {
        Some(0)
    } else {
        None
    }
}

/// A region seen from the screen it is captured from.
pub fn local_region(geometry: Rect, target: OutputInfo) -> (region: Rect)
    requires
        i32::MIN <= geometry.x - target.x <= i32::MAX,
        i32::MIN <= geometry.y - target.y <= i32::MAX,
    ensures
        region == (Rect {
            x: (geometry.x - target.x) as i32,
            y: (geometry.y - target.y) as i32,
            width: geometry.width,
            height: geometry.height,
        }),
{
    Rect {
        x: geometry.x - target.x,
        y: geometry.y - target.y,
        width: geometry.width,
        height: geometry.height,
    }
}

/// Where the box around a region is drawn on the screen: its place, at least zero, and its
/// size, at least one.
pub fn overlay_region(geometry: Rect, target: OutputInfo) -> (region: (u32, u32, u32, u32))
    requires
        i32::MIN <= geometry.x - target.x <= i32::MAX,
        i32::MIN <= geometry.y - target.y <= i32::MAX,
    ensures
        region.0 == crate::preview::most(geometry.x - target.x, 0),
        region.1 == crate::preview::most(geometry.y - target.y, 0),
        region.2 == crate::preview::most(geometry.width as int, 1),
        region.3 == crate::preview::most(geometry.height as int, 1),
{
    let local = local_region(geometry, target);
    (
        if local.x > 0 {
            local.x as u32
        } else {
            0
        },
        if local.y > 0 {
            local.y as u32
        } else {
            0
        },
        if local.width > 1 {
            local.width as u32
        } else {
            1
        },
        if local.height > 1 {
            local.height as u32
        } else {
            1
        },
    )
}

/// The region captured after the first: where the width is fixed, it keeps the column and
/// the width of the first.
pub fn next_region(first: Rect, selected: Rect, fixed_width: bool) -> (region: Rect)
    ensures
        region == if fixed_width {
            Rect { x: first.x, y: selected.y, width: first.width, height: selected.height }
        } else {
            selected
        },
{
    if fixed_width {
        Rect { x: first.x, y: selected.y, width: first.width, height: selected.height }
    } else {
        selected
    }
}

/// What is told about a screen.
#[derive(Clone, Copy, Debug)]
pub enum OutputEvent {
    Position { x: i32, y: i32 },
    Size { width: i32, height: i32 },
}

impl OutputInfo {
    /// A screen of which nothing is known.
    pub fn unknown() -> (output: OutputInfo)
        ensures
            output == (OutputInfo { x: 0, y: 0, width: 0, height: 0, has_geometry: false }),
    {
        OutputInfo { x: 0, y: 0, width: 0, height: 0, has_geometry: false }
    }

    /// Takes note of what is told about a screen.
    pub fn update(&mut self, event: OutputEvent)
        ensures
            *final(self) == match event {
                OutputEvent::Position { x, y } => OutputInfo { x, y, ..*old(self) },
                OutputEvent::Size { width, height } => OutputInfo {
                    width,
                    height,
                    has_geometry: width > 0 && height > 0,
                    ..*old(self)
                },
            },
    {
        match event {
            OutputEvent::Position { x, y } => {
                self.x = x;
                self.y = y;
            },
            OutputEvent::Size { width, height } => {
                self.width = width;
                self.height = height;
                self.has_geometry = width > 0 && height > 0;
            },
        }
    }

    /// Whether something can be shown on the screen.
    pub fn drawable(&self) -> (drawable: bool)
        ensures
            drawable == (self.has_geometry && self.width > 0 && self.height > 0),
    {
        self.has_geometry && self.width > 0 && self.height > 0
    }
}

} // verus!
