//! Text elements: labels, wrapped text boxes and text that runs along a
//! path of edges, kept in id-indexed slots beside the network.
//!
//! Sizes, positions, angles and offsets are values of the scalar type `F`
//! that the store keeps and hands back as it was given them.

use vstd::prelude::*;
use crate::graph::{count_some, live_ids, Graph};
use crate::errors::{err, invalid_id, invalid_id_reply, non_finite, ok, plain_error_reply, is_error_reply, text_field, Reply};
use crate::model::{code_choice, Color, FontStyle, TextAlign, TextOverflow, VerticalAlign};
use crate::replies::first_unknown_edge;
use crate::store::Slots;

verus! {

/// How a text element is set.
pub struct TextStyle<F> {
    pub font_family: String,
    pub font_size: F,
    /// 100 to 900; 400 is normal, 700 bold.
    pub font_weight: u16,
    pub font_style: FontStyle,
    pub fill_color: Option<Color>,
    pub stroke_color: Option<Color>,
    pub stroke_width: F,
    /// In em units.
    pub letter_spacing: F,
    /// Multiple of the font size.
    pub line_height: F,
}

/// What kind of text element it is.
pub enum TextType<F> {
    /// Text anchored at its position.
    Label,
    /// Text wrapped inside a box.
    Box { width: F, height: F, vertical_align: VerticalAlign, overflow: TextOverflow },
    /// Text running along the edges `edge_ids`, from `start_offset` (a
    /// fraction of the path's length).
    OnPath { edge_ids: Vec<u32>, start_offset: F },
}

/// A point given by its two coordinates.
pub struct Position<F> {
    pub x: F,
    pub y: F,
}

/// A text element of the document.
pub struct TextElement<F> {
    pub id: u32,
    pub content: String,
    /// Anchor position.
    pub position: Position<F>,
    /// In radians.
    pub rotation: F,
    pub style: TextStyle<F>,
    pub align: TextAlign,
    pub text_type: TextType<F>,
}

/// The text elements of a document, with the values that new elements
/// start from.
pub struct Texts<F> {
    pub slots: Slots<TextElement<F>>,
    /// The scalar zero: the rotation of a new element and the start offset
    /// of new text on a path.
    pub zero: F,
    /// The style of a new element.
    pub default_style: TextStyle<F>,
}

/// The style that new text elements get: the given family-independent
/// sizes, "sans-serif", weight 400, upright, opaque black fill, no stroke.
pub open spec fn is_default_style<F>(s: TextStyle<F>, font_size: F, zero: F, line_height: F) -> bool {
    &&& s.font_family@ == "sans-serif"@
    &&& s.font_size == font_size
    &&& s.font_weight == 400
    &&& s.font_style == FontStyle::Normal
    &&& s.fill_color == Some(Color { r: 0, g: 0, b: 0, a: 255 })
    &&& s.stroke_color is None
    &&& s.stroke_width == zero
    &&& s.letter_spacing == zero
    &&& s.line_height == line_height
}

/// Every id of `ids` names an existing edge of `g`.
pub open spec fn all_edges_exist<N, E>(g: &Graph<N, E>, ids: Seq<u32>) -> bool {
    forall|k: int| 0 <= k < ids.len() ==> g.edge_live(#[trigger] ids[k] as int)
}

/// `t` with its type changed to a box of the given size, alignment and overflow.
pub open spec fn as_box<F>(t: TextElement<F>, width: F, height: F, vertical_align: VerticalAlign, overflow: TextOverflow) -> TextElement<F> {
    TextElement { text_type: TextType::Box { width, height, vertical_align, overflow }, ..t }
}

/// `t` with its type changed to text on the path `edge_ids` from `start_offset`.
pub open spec fn as_on_path<F>(t: TextElement<F>, edge_ids: Vec<u32>, start_offset: F) -> TextElement<F> {
    TextElement { text_type: TextType::OnPath { edge_ids, start_offset }, ..t }
}

/// `t` with its style changed to `style`.
pub open spec fn with_style<F>(t: TextElement<F>, style: TextStyle<F>) -> TextElement<F> {
    TextElement { style, ..t }
}

/// A font weight brought into 100..=900.
pub open spec fn clamped_weight(w: u16) -> u16 {
    if w < 100 {
        100
    } else if w > 900 {
        900
    } else {
        w
    }
}

impl<F: Copy> TextStyle<F> {
    /// The style of a new text element, with the given font size, line
    /// height and zero for the stroke width and letter spacing.
    pub fn default_style(font_size: F, zero: F, line_height: F) -> (s: Self)
        ensures
            is_default_style(s, font_size, zero, line_height),
    {
        proof {
            reveal_strlit("sans-serif");
        }
        TextStyle {
            font_family: "sans-serif".to_owned(),
            font_size,
            font_weight: 400,
            font_style: FontStyle::Normal,
            fill_color: Some(Color { r: 0, g: 0, b: 0, a: 255 }),
            stroke_color: None,
            stroke_width: zero,
            letter_spacing: zero,
            line_height,
        }
    }

    /// A copy of the style.
    pub fn copy(&self) -> (s: Self)
        ensures
            s == *self,
    {
        TextStyle {
            font_family: self.font_family.clone(),
            font_size: self.font_size,
            font_weight: self.font_weight,
            font_style: self.font_style,
            fill_color: self.fill_color,
            stroke_color: self.stroke_color,
            stroke_width: self.stroke_width,
            letter_spacing: self.letter_spacing,
            line_height: self.line_height,
        }
    }
}

impl<F> Texts<F> {
    /// Every element sits in the slot of its id, and ids fit in a `u32`.
    pub open spec fn wf(&self) -> bool {
        &&& self.slots.items@.len() <= u32::MAX
        &&& forall|i: int|
            0 <= i < self.slots.items@.len() && #[trigger] self.slots.items@[i] is Some ==> self.slots.items@[i]->0.id == i
    }

    /// Text element `id` exists.
    pub open spec fn has(&self, id: u32) -> bool {
        self.slots.live(id as int)
    }

    /// Text element `id`.
    pub open spec fn text(&self, id: u32) -> TextElement<F> {
        self.slots.items@[id as int]->0
    }

    /// `self` is `other` with element `id` replaced by `t`.
    pub open spec fn replaced(&self, other: &Self, id: u32, t: TextElement<F>) -> bool {
        &&& self.slots.items@ == other.slots.items@.update(id as int, Some(t))
        &&& self.zero == other.zero
        &&& self.default_style == other.default_style
    }

    /// `self` is `other` with `t` added under a new id, `id`.
    pub open spec fn appended(&self, other: &Self, id: u32, t: TextElement<F>) -> bool {
        &&& id == other.slots.items@.len()
        &&& self.slots.items@ == other.slots.items@.push(Some(t))
        &&& self.zero == other.zero
        &&& self.default_style == other.default_style
    }
}

impl<F: Copy> TextElement<F> {
    /// A label anchored at (x, y), upright and left-aligned.
    pub fn new_label(id: u32, content: String, x: F, y: F, zero: F, style: TextStyle<F>) -> (t: Self)
        ensures
            t == (TextElement { id, content, position: Position { x, y }, rotation: zero, style, align: TextAlign::Left, text_type: TextType::Label }),
    {
        TextElement { id, content, position: Position { x, y }, rotation: zero, style, align: TextAlign::Left, text_type: TextType::Label }
    }

    /// A text box at (x, y) of the given size, top-aligned and clipped.
    pub fn new_box(id: u32, content: String, x: F, y: F, width: F, height: F, zero: F, style: TextStyle<F>) -> (t: Self)
        ensures
            t == as_box(
                TextElement { id, content, position: Position { x, y }, rotation: zero, style, align: TextAlign::Left, text_type: TextType::Label },
                width,
                height,
                VerticalAlign::Top,
                TextOverflow::Clip,
            ),
    {
        TextElement {
            id,
            content,
            position: Position { x, y },
            rotation: zero,
            style,
            align: TextAlign::Left,
            text_type: TextType::Box { width, height, vertical_align: VerticalAlign::Top, overflow: TextOverflow::Clip },
        }
    }

    /// Text along the edges `edge_ids`, from the start of the path; its
    /// position is that of the path, so it is kept at (zero, zero).
    pub fn new_on_path(id: u32, content: String, edge_ids: Vec<u32>, zero: F, style: TextStyle<F>) -> (t: Self)
        ensures
            t == as_on_path(
                TextElement { id, content, position: Position { x: zero, y: zero }, rotation: zero, style, align: TextAlign::Left, text_type: TextType::Label },
                edge_ids,
                zero,
            ),
    {
        TextElement {
            id,
            content,
            position: Position { x: zero, y: zero },
            rotation: zero,
            style,
            align: TextAlign::Left,
            text_type: TextType::OnPath { edge_ids, start_offset: zero },
        }
    }
}

/// Whether every id of `ids` names an existing edge of `g`.
pub fn edges_exist<N, E>(g: &Graph<N, E>, ids: &[u32]) -> (r: bool)
    ensures
        r == all_edges_exist(g, ids@),
{
    let mut i: usize = 0;
    while i < ids.len()
        invariant
            i <= ids@.len(),
            forall|k: int| 0 <= k < i ==> g.edge_live(#[trigger] ids@[k] as int),
        decreases ids@.len() - i,
    {
        if g.get_edge(ids[i]).is_none() {
            return false;
        }
        i = i + 1;
    }
    true
}

impl<F: Copy> Texts<F> {
    /// An empty store whose new elements start from `zero` and `default_style`.
    pub fn new(zero: F, default_style: TextStyle<F>) -> (t: Self)
        ensures
            t.wf(),
            t.slots.items@.len() == 0,
            t.zero == zero,
            t.default_style == default_style,
    {
        Texts { slots: Slots::new(), zero, default_style }
    }

    /// Remove every element; ids start again from zero.
    pub fn clear(&mut self)
        ensures
            final(self).wf(),
            final(self).slots.items@.len() == 0,
            final(self).zero == old(self).zero,
            final(self).default_style == old(self).default_style,
    {
        self.slots = Slots::new();
    }

    /// Whether element `id` exists.
    pub fn contains(&self, id: u32) -> (r: bool)
        ensures
            r == self.has(id),
    {
        (id as usize) < self.slots.items.len() && self.slots.items[id as usize].is_some()
    }

    /// Whether element `id` exists and is a text box.
    fn is_box(&self, id: u32) -> (r: bool)
        ensures
            r == (self.has(id) && self.text(id).text_type is Box),
    {
        if (id as usize) < self.slots.items.len() {
            match &self.slots.items[id as usize] {
                Some(t) => match &t.text_type {
                    TextType::Box { .. } => true,
                    _ => false,
                },
                None => false,
            }
        } else {
            false
        }
    }

    /// Whether element `id` exists and runs along a path.
    fn is_on_path(&self, id: u32) -> (r: bool)
        ensures
            r == (self.has(id) && self.text(id).text_type is OnPath),
    {
        if (id as usize) < self.slots.items.len() {
            match &self.slots.items[id as usize] {
                Some(t) => match &t.text_type {
                    TextType::OnPath { .. } => true,
                    _ => false,
                },
                None => false,
            }
        } else {
            false
        }
    }

    /// Add a label with `content` at (x, y); returns its id.
    pub fn add_text(&mut self, content: &str, x: F, y: F) -> (id: u32)
        requires
            old(self).wf(),
            old(self).slots.items@.len() < u32::MAX,
        ensures
            final(self).wf(),
            final(self).text(id).content@ == content@,
            final(self).appended(
                old(self),
                id,
                TextElement {
                    id,
                    content: final(self).text(id).content,
                    position: Position { x, y },
                    rotation: old(self).zero,
                    style: old(self).default_style,
                    align: TextAlign::Left,
                    text_type: TextType::Label,
                },
            ),
    {
        let id = self.slots.items.len() as u32;
        let style = self.default_style.copy();
        let t = TextElement::new_label(id, content.to_owned(), x, y, self.zero, style);
        self.slots.add(t);
        id
    }

    /// Add a text box with `content` at (x, y) of the given size; returns its id.
    pub fn add_text_box(&mut self, content: &str, x: F, y: F, width: F, height: F) -> (id: u32)
        requires
            old(self).wf(),
            old(self).slots.items@.len() < u32::MAX,
        ensures
            final(self).wf(),
            final(self).text(id).content@ == content@,
            final(self).appended(
                old(self),
                id,
                as_box(
                    TextElement {
                        id,
                        content: final(self).text(id).content,
                        position: Position { x, y },
                        rotation: old(self).zero,
                        style: old(self).default_style,
                        align: TextAlign::Left,
                        text_type: TextType::Label,
                    },
                    width,
                    height,
                    VerticalAlign::Top,
                    TextOverflow::Clip,
                ),
            ),
    {
        let id = self.slots.items.len() as u32;
        let style = self.default_style.copy();
        let t = TextElement::new_box(id, content.to_owned(), x, y, width, height, self.zero, style);
        self.slots.add(t);
        id
    }

    /// Add text with `content` along the edges `edge_ids`; returns its id.
    /// The edges are not checked here; `add_text_on_path_res` checks them.
    pub fn add_text_on_path(&mut self, content: &str, edge_ids: Vec<u32>) -> (id: u32)
        requires
            old(self).wf(),
            old(self).slots.items@.len() < u32::MAX,
        ensures
            final(self).wf(),
            final(self).text(id).content@ == content@,
            final(self).appended(
                old(self),
                id,
                as_on_path(
                    TextElement {
                        id,
                        content: final(self).text(id).content,
                        position: Position { x: old(self).zero, y: old(self).zero },
                        rotation: old(self).zero,
                        style: old(self).default_style,
                        align: TextAlign::Left,
                        text_type: TextType::Label,
                    },
                    edge_ids,
                    old(self).zero,
                ),
            ),
    {
        let id = self.slots.items.len() as u32;
        let style = self.default_style.copy();
        let t = TextElement::new_on_path(id, content.to_owned(), edge_ids, self.zero, style);
        self.slots.add(t);
        id
    }

    /// Remove element `id`; true when it existed. Its id is not reused.
    pub fn remove_text(&mut self, id: u32) -> (removed: bool)
        requires
            old(self).wf(),
        ensures
            final(self).wf(),
            removed == old(self).has(id),
            removed ==> final(self).slots.items@ == old(self).slots.items@.update(id as int, None),
            final(self).zero == old(self).zero,
            final(self).default_style == old(self).default_style,
            !removed ==> *final(self) == *old(self),
    {
        self.slots.remove(id)
    }

    /// Element `id`, if it exists.
    pub fn get_text(&self, id: u32) -> (r: Option<&TextElement<F>>)
        ensures
            r == (if self.has(id) {
                Some(&self.text(id))
            } else {
                None
            }),
    {
        self.slots.get(id)
    }

    /// The ids of the existing elements, in increasing order.
    pub fn get_text_ids(&self) -> (ids: Vec<u32>)
        requires
            self.wf(),
        ensures
            ids@ == live_ids(self.slots.items@, self.slots.items@.len() as int),
    {
        self.slots.ids()
    }

    /// The number of existing elements.
    pub fn text_count(&self) -> (c: u32)
        requires
            self.wf(),
        ensures
            c == count_some(self.slots.items@),
    {
        self.slots.count()
    }

    /// Replace the content of element `id`; false when there is none.
    pub fn set_text_content(&mut self, id: u32, content: &str) -> (r: bool)
        requires
            old(self).wf(),
        ensures
            final(self).wf(),
            r == old(self).has(id),
            r ==> final(self).text(id).content@ == content@ && final(self).replaced(
                old(self),
                id,
                TextElement { content: final(self).text(id).content, ..old(self).text(id) },
            ),
            !r ==> *final(self) == *old(self),
    {
        if !self.contains(id) {
            return false;
        }
        match &mut self.slots.items[id as usize] {
            Some(t) => {
                t.content = content.to_owned();
            },
            None => {},
        }
        true
    }

    /// Move element `id` to (x, y); false when there is none.
    pub fn set_text_position(&mut self, id: u32, x: F, y: F) -> (r: bool)
        requires
            old(self).wf(),
        ensures
            final(self).wf(),
            r == old(self).has(id),
            r ==> final(self).replaced(old(self), id, TextElement { position: Position { x, y }, ..old(self).text(id) }),
            !r ==> *final(self) == *old(self),
    {
        if !self.contains(id) {
            return false;
        }
        match &mut self.slots.items[id as usize] {
            Some(t) => {
                t.position = Position { x, y };
            },
            None => {},
        }
        true
    }

    /// Set the rotation of element `id` (radians); false when there is none.
    pub fn set_text_rotation(&mut self, id: u32, radians: F) -> (r: bool)
        requires
            old(self).wf(),
        ensures
            final(self).wf(),
            r == old(self).has(id),
            r ==> final(self).replaced(old(self), id, TextElement { rotation: radians, ..old(self).text(id) }),
            !r ==> *final(self) == *old(self),
    {
        if !self.contains(id) {
            return false;
        }
        match &mut self.slots.items[id as usize] {
            Some(t) => {
                t.rotation = radians;
            },
            None => {},
        }
        true
    }

    /// Set the horizontal alignment of element `id`; false when there is none.
    pub fn set_text_align(&mut self, id: u32, align: TextAlign) -> (r: bool)
        requires
            old(self).wf(),
        ensures
            final(self).wf(),
            r == old(self).has(id),
            r ==> final(self).replaced(old(self), id, TextElement { align, ..old(self).text(id) }),
            !r ==> *final(self) == *old(self),
    {
        if !self.contains(id) {
            return false;
        }
        match &mut self.slots.items[id as usize] {
            Some(t) => {
                t.align = align;
            },
            None => {},
        }
        true
    }

    /// Replace the whole style of element `id`; false when there is none.
    pub fn set_text_style(&mut self, id: u32, style: TextStyle<F>) -> (r: bool)
        requires
            old(self).wf(),
        ensures
            final(self).wf(),
            r == old(self).has(id),
            r ==> final(self).replaced(old(self), id, with_style(old(self).text(id), style)),
            !r ==> *final(self) == *old(self),
    {
        if !self.contains(id) {
            return false;
        }
        match &mut self.slots.items[id as usize] {
            Some(t) => {
                t.style = style;
            },
            None => {},
        }
        true
    }

    /// Set the font family and size of element `id`; false when there is none.
    pub fn set_text_font(&mut self, id: u32, font_family: &str, font_size: F) -> (r: bool)
        requires
            old(self).wf(),
        ensures
            final(self).wf(),
            r == old(self).has(id),
            r ==> final(self).text(id).style.font_family@ == font_family@ && final(self).replaced(
                old(self),
                id,
                with_style(
                    old(self).text(id),
                    TextStyle { font_family: final(self).text(id).style.font_family, font_size, ..old(self).text(id).style },
                ),
            ),
            !r ==> *final(self) == *old(self),
    {
        if !self.contains(id) {
            return false;
        }
        match &mut self.slots.items[id as usize] {
            Some(t) => {
                t.style.font_family = font_family.to_owned();
                t.style.font_size = font_size;
            },
            None => {},
        }
        true
    }

    /// Set the font weight of element `id`, brought into 100..=900; false
    /// when there is none.
    pub fn set_text_font_weight(&mut self, id: u32, weight: u16) -> (r: bool)
        requires
            old(self).wf(),
        ensures
            final(self).wf(),
            r == old(self).has(id),
            r ==> final(self).replaced(
                old(self),
                id,
                with_style(old(self).text(id), TextStyle { font_weight: clamped_weight(weight), ..old(self).text(id).style }),
            ),
            !r ==> *final(self) == *old(self),
    {
        if !self.contains(id) {
            return false;
        }
        let w: u16 = if weight < 100 {
            100
        } else if weight > 900 {
            900
        } else {
            weight
        };
        match &mut self.slots.items[id as usize] {
            Some(t) => {
                t.style.font_weight = w;
            },
            None => {},
        }
        true
    }

    /// Set the font style of element `id`; false when there is none.
    pub fn set_text_font_style(&mut self, id: u32, style: FontStyle) -> (r: bool)
        requires
            old(self).wf(),
        ensures
            final(self).wf(),
            r == old(self).has(id),
            r ==> final(self).replaced(
                old(self),
                id,
                with_style(old(self).text(id), TextStyle { font_style: style, ..old(self).text(id).style }),
            ),
            !r ==> *final(self) == *old(self),
    {
        if !self.contains(id) {
            return false;
        }
        match &mut self.slots.items[id as usize] {
            Some(t) => {
                t.style.font_style = style;
            },
            None => {},
        }
        true
    }

    /// Fill element `id` with the color (r, g, b, a); false when there is none.
    pub fn set_text_fill_color(&mut self, id: u32, r: u8, g: u8, b: u8, a: u8) -> (found: bool)
        requires
            old(self).wf(),
        ensures
            final(self).wf(),
            found == old(self).has(id),
            found ==> final(self).replaced(
                old(self),
                id,
                with_style(old(self).text(id), TextStyle { fill_color: Some(Color { r, g, b, a }), ..old(self).text(id).style }),
            ),
            !found ==> *final(self) == *old(self),
    {
        if !self.contains(id) {
            return false;
        }
        match &mut self.slots.items[id as usize] {
            Some(t) => {
                t.style.fill_color = Some(Color { r, g, b, a });
            },
            None => {},
        }
        true
    }

    /// Leave element `id` unfilled; false when there is none.
    pub fn clear_text_fill_color(&mut self, id: u32) -> (r: bool)
        requires
            old(self).wf(),
        ensures
            final(self).wf(),
            r == old(self).has(id),
            r ==> final(self).replaced(
                old(self),
                id,
                with_style(old(self).text(id), TextStyle { fill_color: None, ..old(self).text(id).style }),
            ),
            !r ==> *final(self) == *old(self),
    {
        if !self.contains(id) {
            return false;
        }
        match &mut self.slots.items[id as usize] {
            Some(t) => {
                t.style.fill_color = None;
            },
            None => {},
        }
        true
    }

    /// Outline element `id` in the color (r, g, b, a); false when there is none.
    pub fn set_text_stroke_color(&mut self, id: u32, r: u8, g: u8, b: u8, a: u8) -> (found: bool)
        requires
            old(self).wf(),
        ensures
            final(self).wf(),
            found == old(self).has(id),
            found ==> final(self).replaced(
                old(self),
                id,
                with_style(old(self).text(id), TextStyle { stroke_color: Some(Color { r, g, b, a }), ..old(self).text(id).style }),
            ),
            !found ==> *final(self) == *old(self),
    {
        if !self.contains(id) {
            return false;
        }
        match &mut self.slots.items[id as usize] {
            Some(t) => {
                t.style.stroke_color = Some(Color { r, g, b, a });
            },
            None => {},
        }
        true
    }

    /// Set the outline width of element `id`; false when there is none.
    /// The width is stored as given: raising a negative width to zero is a
    /// comparison of scalars, which the caller makes.
    pub fn set_text_stroke_width(&mut self, id: u32, width: F) -> (r: bool)
        requires
            old(self).wf(),
        ensures
            final(self).wf(),
            r == old(self).has(id),
            r ==> final(self).replaced(
                old(self),
                id,
                with_style(old(self).text(id), TextStyle { stroke_width: width, ..old(self).text(id).style }),
            ),
            !r ==> *final(self) == *old(self),
    {
        if !self.contains(id) {
            return false;
        }
        match &mut self.slots.items[id as usize] {
            Some(t) => {
                t.style.stroke_width = width;
            },
            None => {},
        }
        true
    }

    /// Set the letter spacing of element `id` (em units); false when there is none.
    pub fn set_text_letter_spacing(&mut self, id: u32, spacing: F) -> (r: bool)
        requires
            old(self).wf(),
        ensures
            final(self).wf(),
            r == old(self).has(id),
            r ==> final(self).replaced(
                old(self),
                id,
                with_style(old(self).text(id), TextStyle { letter_spacing: spacing, ..old(self).text(id).style }),
            ),
            !r ==> *final(self) == *old(self),
    {
        if !self.contains(id) {
            return false;
        }
        match &mut self.slots.items[id as usize] {
            Some(t) => {
                t.style.letter_spacing = spacing;
            },
            None => {},
        }
        true
    }

    /// Set the line height of element `id`; false when there is none.
    /// The value is stored as given: raising it to the least line height
    /// is a comparison of scalars, which the caller makes.
    pub fn set_text_line_height(&mut self, id: u32, line_height: F) -> (r: bool)
        requires
            old(self).wf(),
        ensures
            final(self).wf(),
            r == old(self).has(id),
            r ==> final(self).replaced(
                old(self),
                id,
                with_style(old(self).text(id), TextStyle { line_height, ..old(self).text(id).style }),
            ),
            !r ==> *final(self) == *old(self),
    {
        if !self.contains(id) {
            return false;
        }
        match &mut self.slots.items[id as usize] {
            Some(t) => {
                t.style.line_height = line_height;
            },
            None => {},
        }
        true
    }

    /// Make element `id` a top-aligned, clipped box of the given size; false
    /// when there is none.
    pub fn convert_text_to_box(&mut self, id: u32, width: F, height: F) -> (r: bool)
        requires
            old(self).wf(),
        ensures
            final(self).wf(),
            r == old(self).has(id),
            r ==> final(self).replaced(
                old(self),
                id,
                as_box(old(self).text(id), width, height, VerticalAlign::Top, TextOverflow::Clip),
            ),
            !r ==> *final(self) == *old(self),
    {
        if !self.contains(id) {
            return false;
        }
        match &mut self.slots.items[id as usize] {
            Some(t) => {
                t.text_type = TextType::Box { width, height, vertical_align: VerticalAlign::Top, overflow: TextOverflow::Clip };
            },
            None => {},
        }
        true
    }

    /// Make element `id` run along the edges `edge_ids` of `g` from
    /// `start_offset`; false, and nothing changed, when an edge does not
    /// exist or element `id` does not.
    /// The offset is stored as given: bringing it into 0..=1 is a
    /// comparison of scalars, which the caller makes.
    pub fn convert_text_to_on_path<N, E>(&mut self, id: u32, edge_ids: Vec<u32>, start_offset: F, g: &Graph<N, E>) -> (r: bool)
        requires
            old(self).wf(),
        ensures
            final(self).wf(),
            r == (all_edges_exist(g, edge_ids@) && old(self).has(id)),
            r ==> final(self).replaced(old(self), id, as_on_path(old(self).text(id), edge_ids, start_offset)),
            !r ==> *final(self) == *old(self),
    {
        if !edges_exist(g, edge_ids.as_slice()) {
            return false;
        }
        if !self.contains(id) {
            return false;
        }
        match &mut self.slots.items[id as usize] {
            Some(t) => {
                t.text_type = TextType::OnPath { edge_ids, start_offset };
            },
            None => {},
        }
        true
    }

    /// Make element `id` a label again; false when there is none.
    pub fn convert_text_to_label(&mut self, id: u32) -> (r: bool)
        requires
            old(self).wf(),
        ensures
            final(self).wf(),
            r == old(self).has(id),
            r ==> final(self).replaced(old(self), id, TextElement { text_type: TextType::Label, ..old(self).text(id) }),
            !r ==> *final(self) == *old(self),
    {
        if !self.contains(id) {
            return false;
        }
        match &mut self.slots.items[id as usize] {
            Some(t) => {
                t.text_type = TextType::Label;
            },
            None => {},
        }
        true
    }

    /// Resize text box `id`, keeping its alignment and overflow; false when
    /// there is no such element or it is not a box.
    pub fn set_text_box_size(&mut self, id: u32, width: F, height: F) -> (r: bool)
        requires
            old(self).wf(),
        ensures
            final(self).wf(),
            r == (old(self).has(id) && old(self).text(id).text_type is Box),
            r ==> final(self).replaced(
                old(self),
                id,
                as_box(
                    old(self).text(id),
                    width,
                    height,
                    old(self).text(id).text_type->vertical_align,
                    old(self).text(id).text_type->overflow,
                ),
            ),
            !r ==> *final(self) == *old(self),
    {
        if !self.is_box(id) {
            return false;
        }
        match &mut self.slots.items[id as usize] {
            Some(t) => match &mut t.text_type {
                TextType::Box { width: w, height: h, .. } => {
                    *w = width;
                    *h = height;
                },
                _ => {},
            },
            None => {},
        }
        true
    }

    /// Set the vertical alignment of text box `id`; false when there is no
    /// such element or it is not a box.
    pub fn set_text_box_vertical_align(&mut self, id: u32, align: VerticalAlign) -> (r: bool)
        requires
            old(self).wf(),
        ensures
            final(self).wf(),
            r == (old(self).has(id) && old(self).text(id).text_type is Box),
            r ==> final(self).replaced(
                old(self),
                id,
                as_box(
                    old(self).text(id),
                    old(self).text(id).text_type->width,
                    old(self).text(id).text_type->height,
                    align,
                    old(self).text(id).text_type->overflow,
                ),
            ),
            !r ==> *final(self) == *old(self),
    {
        if !self.is_box(id) {
            return false;
        }
        match &mut self.slots.items[id as usize] {
            Some(t) => match &mut t.text_type {
                TextType::Box { vertical_align, .. } => {
                    *vertical_align = align;
                },
                _ => {},
            },
            None => {},
        }
        true
    }

    /// Set the overflow behavior of text box `id`; false when there is no
    /// such element or it is not a box.
    pub fn set_text_box_overflow(&mut self, id: u32, overflow: TextOverflow) -> (r: bool)
        requires
            old(self).wf(),
        ensures
            final(self).wf(),
            r == (old(self).has(id) && old(self).text(id).text_type is Box),
            r ==> final(self).replaced(
                old(self),
                id,
                as_box(
                    old(self).text(id),
                    old(self).text(id).text_type->width,
                    old(self).text(id).text_type->height,
                    old(self).text(id).text_type->vertical_align,
                    overflow,
                ),
            ),
            !r ==> *final(self) == *old(self),
    {
        if !self.is_box(id) {
            return false;
        }
        match &mut self.slots.items[id as usize] {
            Some(t) => match &mut t.text_type {
                TextType::Box { overflow: o, .. } => {
                    *o = overflow;
                },
                _ => {},
            },
            None => {},
        }
        true
    }

    /// Set where along its path text `id` starts; false when there is no
    /// such element or it is not on a path.
    /// The offset is stored as given: bringing it into 0..=1 is a
    /// comparison of scalars, which the caller makes.
    pub fn set_text_path_offset(&mut self, id: u32, offset: F) -> (r: bool)
        requires
            old(self).wf(),
        ensures
            final(self).wf(),
            r == (old(self).has(id) && old(self).text(id).text_type is OnPath),
            r ==> final(self).replaced(
                old(self),
                id,
                as_on_path(old(self).text(id), old(self).text(id).text_type->edge_ids, offset),
            ),
            !r ==> *final(self) == *old(self),
    {
        if !self.is_on_path(id) {
            return false;
        }
        match &mut self.slots.items[id as usize] {
            Some(t) => match &mut t.text_type {
                TextType::OnPath { start_offset, .. } => {
                    *start_offset = offset;
                },
                _ => {},
            },
            None => {},
        }
        true
    }

    /// Make text `id` run along the edges `edge_ids` of `g`, keeping its
    /// offset; false, and nothing changed, when an edge does not exist or
    /// element `id` does not or is not on a path.
    pub fn set_text_path_edges<N, E>(&mut self, id: u32, edge_ids: Vec<u32>, g: &Graph<N, E>) -> (r: bool)
        requires
            old(self).wf(),
        ensures
            final(self).wf(),
            r == (all_edges_exist(g, edge_ids@) && old(self).has(id) && old(self).text(id).text_type is OnPath),
            r ==> final(self).replaced(
                old(self),
                id,
                as_on_path(old(self).text(id), edge_ids, old(self).text(id).text_type->start_offset),
            ),
            !r ==> *final(self) == *old(self),
    {
        if !edges_exist(g, edge_ids.as_slice()) {
            return false;
        }
        if !self.is_on_path(id) {
            return false;
        }
        match &mut self.slots.items[id as usize] {
            Some(t) => match &mut t.text_type {
                TextType::OnPath { edge_ids: e, .. } => {
                    *e = edge_ids;
                },
                _ => {},
            },
            None => {},
        }
        true
    }
}

/// The first id of `ids`, in order, that names no existing edge of `g`.
pub fn first_missing_edge<N, E>(g: &Graph<N, E>, ids: &[u32]) -> (r: Option<u32>)
    ensures
        r == first_unknown_edge(g, ids@),
{
    let mut i: usize = 0;
    assert(ids@.skip(0) =~= ids@);
    while i < ids.len()
        invariant
            i <= ids@.len(),
            first_unknown_edge(g, ids@) == first_unknown_edge(g, ids@.skip(i as int)),
        decreases ids@.len() - i,
    {
        let id = ids[i];
        assert(ids@.skip(i as int)[0] == id);
        if g.get_edge(id).is_none() {
            return Some(id);
        }
        assert(ids@.skip(i as int).drop_first() =~= ids@.skip(i + 1));
        i = i + 1;
    }
    assert(ids@.skip(i as int) =~= Seq::<u32>::empty());
    None
}

/// The reply `r` is the error `code` with message `message` and no data.
pub open spec fn code_error<V>(r: Reply<V>, code: Seq<char>, message: Seq<char>) -> bool {
    plain_error_reply(r, code, message)
}

impl<F: Copy> Texts<F> {
    /// Add text along the edges `edge_ids` of `g`: an `invalid_id` error
    /// for the first edge that does not exist, else the new element's id.
    pub fn add_text_on_path_res<N, E>(&mut self, content: &str, edge_ids: Vec<u32>, g: &Graph<N, E>) -> (r: Reply<u32>)
        requires
            old(self).wf(),
            old(self).slots.items@.len() < u32::MAX,
        ensures
            final(self).wf(),
            first_unknown_edge(g, edge_ids@) matches Some(e) ==> invalid_id_reply(r, "edge"@, e) && *final(self) == *old(self),
            first_unknown_edge(g, edge_ids@) is None ==> {
                let id = old(self).slots.items@.len() as u32;
                &&& r == Reply::<u32>::Success(id)
                &&& final(self).text(id).content@ == content@
                &&& final(self).appended(
                    old(self),
                    id,
                    as_on_path(
                        TextElement {
                            id,
                            content: final(self).text(id).content,
                            position: Position { x: old(self).zero, y: old(self).zero },
                            rotation: old(self).zero,
                            style: old(self).default_style,
                            align: TextAlign::Left,
                            text_type: TextType::Label,
                        },
                        edge_ids,
                        old(self).zero,
                    ),
                )
            },
    {
        match first_missing_edge(g, edge_ids.as_slice()) {
            Some(e) => invalid_id("edge", e),
            None => ok(self.add_text_on_path(content, edge_ids)),
        }
    }

    /// Remove element `id`: an `invalid_id` error when there is none.
    pub fn remove_text_res(&mut self, id: u32) -> (r: Reply<bool>)
        requires
            old(self).wf(),
        ensures
            final(self).wf(),
            !old(self).has(id) ==> invalid_id_reply(r, "text"@, id) && *final(self) == *old(self),
            old(self).has(id) ==> r == Reply::<bool>::Success(true)
                && final(self).slots.items@ == old(self).slots.items@.update(id as int, None)
                && final(self).zero == old(self).zero && final(self).default_style == old(self).default_style,
    {
        if !self.contains(id) {
            return invalid_id("text", id);
        }
        ok(self.remove_text(id))
    }

    /// Element `id`: an `invalid_id` error when there is none.
    pub fn get_text_res(&self, id: u32) -> (r: Reply<&TextElement<F>>)
        ensures
            !self.has(id) ==> invalid_id_reply(r, "text"@, id),
            self.has(id) ==> r == Reply::<&TextElement<F>>::Success(&self.text(id)),
    {
        match self.get_text(id) {
            Some(t) => ok(t),
            None => invalid_id("text", id),
        }
    }

    /// Replace the content of element `id`: an `invalid_id` error when there is none.
    pub fn set_text_content_res(&mut self, id: u32, content: &str) -> (r: Reply<bool>)
        requires
            old(self).wf(),
        ensures
            final(self).wf(),
            !old(self).has(id) ==> invalid_id_reply(r, "text"@, id) && *final(self) == *old(self),
            old(self).has(id) ==> r == Reply::<bool>::Success(true) && final(self).text(id).content@ == content@
                && final(self).replaced(old(self), id, TextElement { content: final(self).text(id).content, ..old(self).text(id) }),
    {
        if !self.contains(id) {
            return invalid_id("text", id);
        }
        ok(self.set_text_content(id, content))
    }

    /// Set the alignment of element `id` from a code (0: left, 1: center,
    /// 2: right): an `invalid_id` error when there is no such element,
    /// else an `invalid_align` error for another code.
    pub fn set_text_align_res(&mut self, id: u32, align: u8) -> (r: Reply<bool>)
        requires
            old(self).wf(),
        ensures
            final(self).wf(),
            !old(self).has(id) ==> invalid_id_reply(r, "text"@, id) && *final(self) == *old(self),
            old(self).has(id) && align > 2 ==> code_error(r, "invalid_align"@, "align must be 0, 1, or 2"@)
                && *final(self) == *old(self),
            old(self).has(id) && align <= 2 ==> r == Reply::<bool>::Success(true) && final(self).replaced(
                old(self),
                id,
                TextElement {
                    align: code_choice(align, TextAlign::Left, TextAlign::Center, TextAlign::Right)->0,
                    ..old(self).text(id)
                },
            ),
    {
        if !self.contains(id) {
            return invalid_id("text", id);
        }
        match TextAlign::from_code(align) {
            Some(a) => ok(self.set_text_align(id, a)),
            None => err("invalid_align", String::from_str("align must be 0, 1, or 2"), None),
        }
    }

    /// Set the font weight of element `id`: an `invalid_id` error when
    /// there is no such element, else an `invalid_weight` error for a
    /// weight outside 100..=900.
    pub fn set_text_font_weight_res(&mut self, id: u32, weight: u16) -> (r: Reply<bool>)
        requires
            old(self).wf(),
        ensures
            final(self).wf(),
            !old(self).has(id) ==> invalid_id_reply(r, "text"@, id) && *final(self) == *old(self),
            old(self).has(id) && (weight < 100 || weight > 900) ==> code_error(r, "invalid_weight"@, "weight must be 100-900"@)
                && *final(self) == *old(self),
            old(self).has(id) && 100 <= weight <= 900 ==> r == Reply::<bool>::Success(true) && final(self).replaced(
                old(self),
                id,
                with_style(old(self).text(id), TextStyle { font_weight: weight, ..old(self).text(id).style }),
            ),
    {
        if !self.contains(id) {
            return invalid_id("text", id);
        }
        if weight < 100 || weight > 900 {
            return err("invalid_weight", String::from_str("weight must be 100-900"), None);
        }
        ok(self.set_text_font_weight(id, weight))
    }

    /// Set the font style of element `id` from a code (0: normal, 1:
    /// italic, 2: oblique): an `invalid_id` error when there is no such
    /// element, else an `invalid_style` error for another code.
    pub fn set_text_font_style_res(&mut self, id: u32, style: u8) -> (r: Reply<bool>)
        requires
            old(self).wf(),
        ensures
            final(self).wf(),
            !old(self).has(id) ==> invalid_id_reply(r, "text"@, id) && *final(self) == *old(self),
            old(self).has(id) && style > 2 ==> code_error(r, "invalid_style"@, "style must be 0, 1, or 2"@)
                && *final(self) == *old(self),
            old(self).has(id) && style <= 2 ==> r == Reply::<bool>::Success(true) && final(self).replaced(
                old(self),
                id,
                with_style(
                    old(self).text(id),
                    TextStyle {
                        font_style: code_choice(style, FontStyle::Normal, FontStyle::Italic, FontStyle::Oblique)->0,
                        ..old(self).text(id).style
                    },
                ),
            ),
    {
        if !self.contains(id) {
            return invalid_id("text", id);
        }
        match FontStyle::from_code(style) {
            Some(s) => ok(self.set_text_font_style(id, s)),
            None => err("invalid_style", String::from_str("style must be 0, 1, or 2"), None),
        }
    }

    /// Fill element `id` with (r, g, b, a): an `invalid_id` error when there is none.
    pub fn set_text_fill_color_res(&mut self, id: u32, r: u8, g: u8, b: u8, a: u8) -> (reply: Reply<bool>)
        requires
            old(self).wf(),
        ensures
            final(self).wf(),
            !old(self).has(id) ==> invalid_id_reply(reply, "text"@, id) && *final(self) == *old(self),
            old(self).has(id) ==> reply == Reply::<bool>::Success(true) && final(self).replaced(
                old(self),
                id,
                with_style(old(self).text(id), TextStyle { fill_color: Some(Color { r, g, b, a }), ..old(self).text(id).style }),
            ),
    {
        if !self.contains(id) {
            return invalid_id("text", id);
        }
        ok(self.set_text_fill_color(id, r, g, b, a))
    }

    /// Outline element `id` in (r, g, b, a): an `invalid_id` error when there is none.
    pub fn set_text_stroke_color_res(&mut self, id: u32, r: u8, g: u8, b: u8, a: u8) -> (reply: Reply<bool>)
        requires
            old(self).wf(),
        ensures
            final(self).wf(),
            !old(self).has(id) ==> invalid_id_reply(reply, "text"@, id) && *final(self) == *old(self),
            old(self).has(id) ==> reply == Reply::<bool>::Success(true) && final(self).replaced(
                old(self),
                id,
                with_style(old(self).text(id), TextStyle { stroke_color: Some(Color { r, g, b, a }), ..old(self).text(id).style }),
            ),
    {
        if !self.contains(id) {
            return invalid_id("text", id);
        }
        ok(self.set_text_stroke_color(id, r, g, b, a))
    }

    /// Make element `id` a label: an `invalid_id` error when there is none.
    pub fn convert_text_to_label_res(&mut self, id: u32) -> (r: Reply<bool>)
        requires
            old(self).wf(),
        ensures
            final(self).wf(),
            !old(self).has(id) ==> invalid_id_reply(r, "text"@, id) && *final(self) == *old(self),
            old(self).has(id) ==> r == Reply::<bool>::Success(true)
                && final(self).replaced(old(self), id, TextElement { text_type: TextType::Label, ..old(self).text(id) }),
    {
        if !self.contains(id) {
            return invalid_id("text", id);
        }
        ok(self.convert_text_to_label(id))
    }

    /// Set the vertical alignment of text box `id` from a code (0: top, 1:
    /// middle, 2: bottom): an `invalid_id` error when there is no such
    /// element, an `invalid_align` error for another code, and otherwise
    /// whether the element is a box (only a box changes).
    pub fn set_text_box_vertical_align_res(&mut self, id: u32, align: u8) -> (r: Reply<bool>)
        requires
            old(self).wf(),
        ensures
            final(self).wf(),
            !old(self).has(id) ==> invalid_id_reply(r, "text"@, id) && *final(self) == *old(self),
            old(self).has(id) && align > 2 ==> code_error(r, "invalid_align"@, "align must be 0, 1, or 2"@)
                && *final(self) == *old(self),
            old(self).has(id) && align <= 2 && !(old(self).text(id).text_type is Box) ==> r == Reply::<bool>::Success(false)
                && *final(self) == *old(self),
            old(self).has(id) && align <= 2 && old(self).text(id).text_type is Box ==> r == Reply::<bool>::Success(true)
                && final(self).replaced(
                old(self),
                id,
                as_box(
                    old(self).text(id),
                    old(self).text(id).text_type->width,
                    old(self).text(id).text_type->height,
                    code_choice(align, VerticalAlign::Top, VerticalAlign::Middle, VerticalAlign::Bottom)->0,
                    old(self).text(id).text_type->overflow,
                ),
            ),
    {
        if !self.contains(id) {
            return invalid_id("text", id);
        }
        match VerticalAlign::from_code(align) {
            Some(a) => ok(self.set_text_box_vertical_align(id, a)),
            None => err("invalid_align", String::from_str("align must be 0, 1, or 2"), None),
        }
    }

    /// Set the overflow behavior of text box `id` from a code (0: clip, 1:
    /// ellipsis, 2: visible): an `invalid_id` error when there is no such
    /// element, an `invalid_overflow` error for another code, and otherwise
    /// whether the element is a box (only a box changes).
    pub fn set_text_box_overflow_res(&mut self, id: u32, overflow: u8) -> (r: Reply<bool>)
        requires
            old(self).wf(),
        ensures
            final(self).wf(),
            !old(self).has(id) ==> invalid_id_reply(r, "text"@, id) && *final(self) == *old(self),
            old(self).has(id) && overflow > 2 ==> code_error(r, "invalid_overflow"@, "overflow must be 0, 1, or 2"@)
                && *final(self) == *old(self),
            old(self).has(id) && overflow <= 2 && !(old(self).text(id).text_type is Box) ==> r == Reply::<bool>::Success(false)
                && *final(self) == *old(self),
            old(self).has(id) && overflow <= 2 && old(self).text(id).text_type is Box ==> r == Reply::<bool>::Success(true)
                && final(self).replaced(
                old(self),
                id,
                as_box(
                    old(self).text(id),
                    old(self).text(id).text_type->width,
                    old(self).text(id).text_type->height,
                    old(self).text(id).text_type->vertical_align,
                    code_choice(overflow, TextOverflow::Clip, TextOverflow::Ellipsis, TextOverflow::Visible)->0,
                ),
            ),
    {
        if !self.contains(id) {
            return invalid_id("text", id);
        }
        match TextOverflow::from_code(overflow) {
            Some(o) => ok(self.set_text_box_overflow(id, o)),
            None => err("invalid_overflow", String::from_str("overflow must be 0, 1, or 2"), None),
        }
    }

    /// Make element `id` run along the edges `edge_ids` of `g` from
    /// `start_offset`, checking in this order: an `invalid_id` error when
    /// there is no such element, an `invalid_id` error for the first edge
    /// that does not exist, a `non_finite` error when the offset is not
    /// finite (`start_offset_finite` is false).
    pub fn convert_text_to_on_path_res<N, E>(
        &mut self,
        id: u32,
        edge_ids: Vec<u32>,
        start_offset: F,
        start_offset_finite: bool,
        g: &Graph<N, E>,
    ) -> (r: Reply<bool>)
        requires
            old(self).wf(),
        ensures
            final(self).wf(),
            !old(self).has(id) ==> invalid_id_reply(r, "text"@, id) && *final(self) == *old(self),
            old(self).has(id) ==> (first_unknown_edge(g, edge_ids@) matches Some(e) ==> invalid_id_reply(r, "edge"@, e)
                && *final(self) == *old(self)),
            old(self).has(id) && first_unknown_edge(g, edge_ids@) is None && !start_offset_finite ==> is_error_reply(
                r,
                "non_finite"@,
                "parameter '"@ + "start_offset"@ + "' must be finite"@,
                seq!["param"@],
            ) && text_field(r, 0) == Some("start_offset"@) && *final(self) == *old(self),
            old(self).has(id) && first_unknown_edge(g, edge_ids@) is None && start_offset_finite ==> r == Reply::<bool>::Success(true)
                && final(self).replaced(old(self), id, as_on_path(old(self).text(id), edge_ids, start_offset)),
    {
        if !self.contains(id) {
            return invalid_id("text", id);
        }
        match first_missing_edge(g, edge_ids.as_slice()) {
            Some(e) => {
                return invalid_id("edge", e);
            },
            None => {},
        }
        if !start_offset_finite {
            return non_finite("start_offset");
        }
        proof {
            lemma_no_unknown_edge(g, edge_ids@);
        }
        ok(self.convert_text_to_on_path(id, edge_ids, start_offset, g))
    }

    /// Make text `id` run along the edges `edge_ids` of `g`, checking in
    /// this order: an `invalid_id` error when there is no such element, an
    /// `invalid_id` error for the first edge that does not exist; otherwise
    /// whether the element is on a path (only such an element changes).
    pub fn set_text_path_edges_res<N, E>(&mut self, id: u32, edge_ids: Vec<u32>, g: &Graph<N, E>) -> (r: Reply<bool>)
        requires
            old(self).wf(),
        ensures
            final(self).wf(),
            !old(self).has(id) ==> invalid_id_reply(r, "text"@, id) && *final(self) == *old(self),
            old(self).has(id) ==> (first_unknown_edge(g, edge_ids@) matches Some(e) ==> invalid_id_reply(r, "edge"@, e)
                && *final(self) == *old(self)),
            old(self).has(id) && first_unknown_edge(g, edge_ids@) is None && !(old(self).text(id).text_type is OnPath)
                ==> r == Reply::<bool>::Success(false) && *final(self) == *old(self),
            old(self).has(id) && first_unknown_edge(g, edge_ids@) is None && old(self).text(id).text_type is OnPath
                ==> r == Reply::<bool>::Success(true) && final(self).replaced(
                old(self),
                id,
                as_on_path(old(self).text(id), edge_ids, old(self).text(id).text_type->start_offset),
            ),
    {
        if !self.contains(id) {
            return invalid_id("text", id);
        }
        match first_missing_edge(g, edge_ids.as_slice()) {
            Some(e) => {
                return invalid_id("edge", e);
            },
            None => {},
        }
        proof {
            lemma_no_unknown_edge(g, edge_ids@);
        }
        ok(self.set_text_path_edges(id, edge_ids, g))
    }
}

/// An id list with no unknown edge names only existing edges.
proof fn lemma_no_unknown_edge<N, E>(g: &Graph<N, E>, ids: Seq<u32>)
    requires
        first_unknown_edge(g, ids) is None,
    ensures
        all_edges_exist(g, ids),
    decreases ids.len(),
{
    if ids.len() > 0 {
        lemma_no_unknown_edge(g, ids.drop_first());
        assert forall|k: int| 0 <= k < ids.len() implies g.edge_live(#[trigger] ids[k] as int) by {
            if k > 0 {
                assert(ids.drop_first()[k - 1] == ids[k]);
            }
        }
    }
}

/// A new text element gets an id that no element had before, even one
/// since removed, and it is then found under that id while every other
/// slot stays as it was.
pub proof fn lemma_new_text_id_fresh<F>(a: &Texts<F>, b: &Texts<F>, id: u32, t: TextElement<F>, other: u32)
    requires
        a.wf(),
        b.appended(a, id, t),
    ensures
        !a.has(id),
        other < a.slots.items@.len() ==> other != id,
        b.has(id) && b.text(id) == t,
        other != id ==> b.has(other) == a.has(other) && (a.has(other) ==> b.text(other) == a.text(other)),
{
}

/// Changing one text element leaves every other element, and which ids
/// exist, as they were.
pub proof fn lemma_edit_keeps_other_texts<F>(a: &Texts<F>, b: &Texts<F>, id: u32, t: TextElement<F>, other: u32)
    requires
        a.has(id),
        b.replaced(a, id, t),
    ensures
        b.has(id) && b.text(id) == t,
        b.has(other) == a.has(other),
        other != id && a.has(other) ==> b.text(other) == a.text(other),
{
}

} // verus!
