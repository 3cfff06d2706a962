//! Plain data types of a vector document: colors, fill rules, shapes,
//! fill states and the small style enumerations.

use vstd::prelude::*;

verus! {

/// An RGBA color with 8-bit channels.
#[derive(Clone, Copy, Debug, PartialEq, Eq, Structural)]
pub struct Color {
    pub r: u8,
    pub g: u8,
    pub b: u8,
    pub a: u8,
}

/// Fill rule for determining inside/outside of shapes.
#[derive(Clone, Copy, Debug, PartialEq, Eq, Structural)]
pub enum FillRule {
    /// Non-zero winding rule (standard for most vector graphics).
    NonZero,
    /// Even-odd rule (alternating fills).
    EvenOdd,
}

impl Default for FillRule {
    fn default() -> (r: Self)
        ensures
            r == FillRule::NonZero,
    {
        FillRule::NonZero
    }
}

/// A shape is an ordered collection of edges forming a closed or open path.
#[derive(Clone, Debug)]
pub struct Shape {
    pub id: u32,
    /// Edge IDs forming this shape, in order.
    pub edges: Vec<u32>,
    /// Whether the shape forms a closed loop.
    pub closed: bool,
    /// Fill rule for determining inside/outside.
    pub fill_rule: FillRule,
}

/// Fill state of a region: whether it is filled and with which color.
#[derive(Clone, Copy, Debug, PartialEq, Eq, Structural)]
pub struct FillState {
    pub filled: bool,
    pub color: Option<Color>,
}

/// The items created by converting a text element to outlines.
#[derive(Clone, Debug)]
pub struct TextOutlineResult {
    /// Shape IDs created for each glyph.
    pub shapes: Vec<u32>,
    /// Node IDs created.
    pub nodes: Vec<u32>,
    /// Edge IDs created.
    pub edges: Vec<u32>,
}

/// How the two handles of a cubic edge are tied together.
#[derive(Clone, Copy, Debug, PartialEq, Eq, Structural)]
pub enum HandleMode {
    Free,
    Mirrored,
    Aligned,
}

/// The numeric code of a handle mode (0: Free, 1: Mirrored, 2: Aligned).
pub open spec fn handle_mode_code(m: HandleMode) -> u8 {
    match m {
        HandleMode::Free => 0,
        HandleMode::Mirrored => 1,
        HandleMode::Aligned => 2,
    }
}

/// The handle mode that a numeric code selects; unknown codes select `Free`.
pub open spec fn handle_mode_of_code(code: u8) -> HandleMode {
    if code == 1 {
        HandleMode::Mirrored
    } else if code == 2 {
        HandleMode::Aligned
    } else {
        HandleMode::Free
    }
}

impl HandleMode {
    /// Decode a handle mode from its numeric code (1: Mirrored, 2: Aligned, anything else: Free).
    pub fn from_code(code: u8) -> (m: HandleMode)
        ensures
            m == handle_mode_of_code(code),
    {
        match code {
            1 => HandleMode::Mirrored,
            2 => HandleMode::Aligned,
            _ => HandleMode::Free,
        }
    }

    /// The numeric code of this mode (0: Free, 1: Mirrored, 2: Aligned).
    pub fn code(&self) -> (c: u8)
        ensures
            c == handle_mode_code(*self),
    {
        match self {
            HandleMode::Free => 0,
            HandleMode::Mirrored => 1,
            HandleMode::Aligned => 2,
        }
    }
}

/// Decoding a mode's code gives the mode back.
pub proof fn lemma_handle_mode_code_roundtrip(m: HandleMode)
    ensures
        handle_mode_of_code(handle_mode_code(m)) == m,
{
}

/// Gradient coordinate system.
#[derive(Clone, Copy, Debug, PartialEq, Eq, Structural)]
pub enum GradientUnits {
    /// Coordinates relative to object bounding box (0-1).
    ObjectBoundingBox,
    /// Absolute coordinates in user space.
    UserSpaceOnUse,
}

impl Default for GradientUnits {
    fn default() -> (r: Self)
        ensures
            r == GradientUnits::ObjectBoundingBox,
    {
        GradientUnits::ObjectBoundingBox
    }
}

/// Spread method when a gradient does not cover the entire object.
#[derive(Clone, Copy, Debug, PartialEq, Eq, Structural)]
pub enum SpreadMethod {
    /// Extend edge colors.
    Pad,
    /// Mirror gradient.
    Reflect,
    /// Tile gradient.
    Repeat,
}

impl Default for SpreadMethod {
    fn default() -> (r: Self)
        ensures
            r == SpreadMethod::Pad,
    {
        SpreadMethod::Pad
    }
}

/// Gradient identifier type.
pub type GradientId = u32;

/// Paint type: unified fill/stroke specification.
#[derive(Clone, Copy, Debug, PartialEq, Eq, Structural)]
pub enum Paint {
    /// No paint (transparent).
    Transparent,
    /// Solid color.
    Solid { color: Color },
    /// Reference to a gradient by ID.
    Gradient { id: GradientId },
}

/// Font style.
#[derive(Clone, Copy, Debug, PartialEq, Eq, Structural)]
pub enum FontStyle {
    Normal,
    Italic,
    Oblique,
}

impl Default for FontStyle {
    fn default() -> (r: Self)
        ensures
            r == FontStyle::Normal,
    {
        FontStyle::Normal
    }
}

/// Horizontal text alignment.
#[derive(Clone, Copy, Debug, PartialEq, Eq, Structural)]
pub enum TextAlign {
    Left,
    Center,
    Right,
}

impl Default for TextAlign {
    fn default() -> (r: Self)
        ensures
            r == TextAlign::Left,
    {
        TextAlign::Left
    }
}

/// Vertical text alignment (for text boxes).
#[derive(Clone, Copy, Debug, PartialEq, Eq, Structural)]
pub enum VerticalAlign {
    Top,
    Middle,
    Bottom,
}

impl Default for VerticalAlign {
    fn default() -> (r: Self)
        ensures
            r == VerticalAlign::Top,
    {
        VerticalAlign::Top
    }
}

/// Text overflow behavior (for text boxes).
#[derive(Clone, Copy, Debug, PartialEq, Eq, Structural)]
pub enum TextOverflow {
    /// Clip text at boundaries.
    Clip,
    /// Show ellipsis for overflow.
    Ellipsis,
    /// Allow text to overflow boundaries.
    Visible,
}

impl Default for TextOverflow {
    fn default() -> (r: Self)
        ensures
            r == TextOverflow::Clip,
    {
        TextOverflow::Clip
    }
}

/// The gradient units that a numeric code selects (1: UserSpaceOnUse, anything else: ObjectBoundingBox).
pub open spec fn gradient_units_of_code(units: u8) -> GradientUnits {
    if units == 1 {
        GradientUnits::UserSpaceOnUse
    } else {
        GradientUnits::ObjectBoundingBox
    }
}

/// The spread method that a numeric code selects (1: Reflect, 2: Repeat, anything else: Pad).
pub open spec fn spread_method_of_code(spread: u8) -> SpreadMethod {
    if spread == 1 {
        SpreadMethod::Reflect
    } else if spread == 2 {
        SpreadMethod::Repeat
    } else {
        SpreadMethod::Pad
    }
}

/// Parse gradient units from a numeric code (0 = ObjectBoundingBox, 1 = UserSpaceOnUse).
pub fn parse_gradient_units(units: u8) -> (r: GradientUnits)
    ensures
        r == gradient_units_of_code(units),
{
    match units {
        1 => GradientUnits::UserSpaceOnUse,
        _ => GradientUnits::ObjectBoundingBox,
    }
}

/// Parse a spread method from a numeric code (0 = Pad, 1 = Reflect, 2 = Repeat).
pub fn parse_spread_method(spread: u8) -> (r: SpreadMethod)
    ensures
        r == spread_method_of_code(spread),
{
    match spread {
        1 => SpreadMethod::Reflect,
        2 => SpreadMethod::Repeat,
        _ => SpreadMethod::Pad,
    }
}

/// The member of a three-member enum that a numeric code selects: codes
/// 0, 1 and 2 in declaration order, nothing for any other code.
pub open spec fn code_choice<T>(code: u8, first: T, second: T, third: T) -> Option<T> {
    if code == 0 {
        Some(first)
    } else if code == 1 {
        Some(second)
    } else if code == 2 {
        Some(third)
    } else {
        None
    }
}

impl TextAlign {
    /// 0: Left, 1: Center, 2: Right; nothing for another code.
    pub fn from_code(code: u8) -> (r: Option<TextAlign>)
        ensures
            r == code_choice(code, TextAlign::Left, TextAlign::Center, TextAlign::Right),
    {
        match code {
            0 => Some(TextAlign::Left),
            1 => Some(TextAlign::Center),
            2 => Some(TextAlign::Right),
            _ => None,
        }
    }
}

impl FontStyle {
    /// 0: Normal, 1: Italic, 2: Oblique; nothing for another code.
    pub fn from_code(code: u8) -> (r: Option<FontStyle>)
        ensures
            r == code_choice(code, FontStyle::Normal, FontStyle::Italic, FontStyle::Oblique),
    {
        match code {
            0 => Some(FontStyle::Normal),
            1 => Some(FontStyle::Italic),
            2 => Some(FontStyle::Oblique),
            _ => None,
        }
    }
}

impl VerticalAlign {
    /// 0: Top, 1: Middle, 2: Bottom; nothing for another code.
    pub fn from_code(code: u8) -> (r: Option<VerticalAlign>)
        ensures
            r == code_choice(code, VerticalAlign::Top, VerticalAlign::Middle, VerticalAlign::Bottom),
    {
        match code {
            0 => Some(VerticalAlign::Top),
            1 => Some(VerticalAlign::Middle),
            2 => Some(VerticalAlign::Bottom),
            _ => None,
        }
    }
}

impl TextOverflow {
    /// 0: Clip, 1: Ellipsis, 2: Visible; nothing for another code.
    pub fn from_code(code: u8) -> (r: Option<TextOverflow>)
        ensures
            r == code_choice(code, TextOverflow::Clip, TextOverflow::Ellipsis, TextOverflow::Visible),
    {
        match code {
            0 => Some(TextOverflow::Clip),
            1 => Some(TextOverflow::Ellipsis),
            2 => Some(TextOverflow::Visible),
            _ => None,
        }
    }
}

} // verus!
