//! How a primitive is painted.
use vstd::prelude::*;

verus! {

/// Stroke and fill settings of a primitive.
#[derive(Debug, Clone, Copy)]
pub struct Style<C> {
    /// Colour of the stroke; `None` paints no stroke at all.
    pub stroke_color: Option<C>,
    /// Colour of the fill; `None` leaves the interior unpainted.
    pub fill_color: Option<C>,
    /// Thickness of the stroke in pixels.
    pub stroke_width: u8,
}

impl<C: Copy> Style<C> {
    /// A style that paints a one pixel wide stroke in `color` and no fill.
    pub fn stroke_color(color: C) -> (r: Style<C>)
        ensures
            r.stroke_color == Some(color),
            r.fill_color.is_none(),
            r.stroke_width == 1,
    {
        Style { stroke_color: Some(color), fill_color: None, stroke_width: 1 }
    }
}

impl<C: Copy> Default for Style<C> {
    /// No stroke colour, no fill, and a one pixel wide stroke.
    fn default() -> (r: Style<C>)
        ensures
            r.stroke_color.is_none(),
            r.fill_color.is_none(),
            r.stroke_width == 1,
    {
        Style { stroke_color: None, fill_color: None, stroke_width: 1 }
    }
}

} // verus!
