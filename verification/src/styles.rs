//! Styling value objects shared by the content model.

use vstd::prelude::*;

verus! {

/// Vertical placement of cell content within a table row.
#[derive(Debug, Clone, Copy)]
pub enum VerticalAlign {
    Top,
    Middle,
    Bottom,
}

/// Horizontal placement of a line, image or path within its width.
#[derive(Debug, Clone, Copy)]
pub enum HorizontalAlign {
    Left,
    Center,
    Right,
}

/// Style of a drawn path; paths default to centered placement.
#[derive(Debug, Clone, Copy)]
pub struct PathStyle {
    pub horizontal_align: HorizontalAlign,
}

impl PathStyle {
    /// The default path style: centered.
    pub fn new() -> (r: PathStyle)
        ensures
            r.horizontal_align is Center,
    {
        PathStyle { horizontal_align: HorizontalAlign::Center }
    }
}

} // verus!
