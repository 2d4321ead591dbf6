//! The types shared by every backend of the window system interface.
use vstd::prelude::*;

verus! {

/// Returned when a function/method is called from an invalid thread.
#[derive(Debug, Clone, Copy, PartialEq, Eq, Structural, Hash)]
pub struct BadThread;

impl BadThread {
    /// The message that describes the error.
    pub fn message(&self) -> (r: String)
        ensures
            r@ == "the operation is invalid for the current thread"@,
    {
        "the operation is invalid for the current thread".to_owned()
    }
}

/// Describes the appearance of the mouse cursor.
#[derive(Debug, Clone, Copy, PartialEq, Eq, Structural, Hash)]
pub enum CursorShape {
    Default,
    Crosshair,
    Hand,
    Arrow,
    Move,
    Text,
    Wait,
    Help,
    Progress,
    NotAllowed,
    ContextMenu,
    Cell,
    VerticalText,
    Alias,
    Copy,
    NoDrop,
    Grab,
    Grabbing,
    AllScroll,
    ZoomIn,
    ZoomOut,
    EResize,
    NResize,
    NeResize,
    NwResize,
    SResize,
    SeResize,
    SwResize,
    WResize,
    EwResize,
    NsResize,
    NeswResize,
    NwseResize,
    ColResize,
    RowResize,
}

/// The name of the CSS cursor that GTK shows for `shape`.
pub open spec fn gtk_cursor_name_spec(shape: CursorShape) -> Seq<char> {
    match shape {
        CursorShape::Default => "default"@,
        CursorShape::Crosshair => "crosshair"@,
        CursorShape::Hand => "pointer"@,
        CursorShape::Arrow => "default"@,
        CursorShape::Move => "move"@,
        CursorShape::Text => "text"@,
        CursorShape::Wait => "wait"@,
        CursorShape::Help => "help"@,
        CursorShape::Progress => "progress"@,
        CursorShape::NotAllowed => "not-allowed"@,
        CursorShape::ContextMenu => "context-menu"@,
        CursorShape::Cell => "cell"@,
        CursorShape::VerticalText => "vertical-text"@,
        CursorShape::Alias => "alias"@,
        CursorShape::Copy => "copy"@,
        CursorShape::NoDrop => "no-drop"@,
        CursorShape::Grab => "grab"@,
        CursorShape::Grabbing => "grabbing"@,
        CursorShape::AllScroll => "all-scroll"@,
        CursorShape::ZoomIn => "zoom-in"@,
        CursorShape::ZoomOut => "zoom-out"@,
        CursorShape::EResize => "e-resize"@,
        CursorShape::NResize => "n-resize"@,
        CursorShape::NeResize => "ne-resize"@,
        CursorShape::NwResize => "ne-resize"@,
        CursorShape::SResize => "s-resize"@,
        CursorShape::SeResize => "se-resize"@,
        CursorShape::SwResize => "sw-resize"@,
        CursorShape::WResize => "w-resize"@,
        CursorShape::EwResize => "ew-resize"@,
        CursorShape::NsResize => "ns-resize"@,
        CursorShape::NeswResize => "nesw-resize"@,
        CursorShape::NwseResize => "nwse-resize"@,
        CursorShape::ColResize => "col-resize"@,
        CursorShape::RowResize => "row-resize"@,
    }
}

/// The name of the CSS cursor that GTK shows for `shape`. Shapes with no
/// cursor of their own share one (`Arrow` shows `default`; `NwResize`
/// shows `ne-resize`).
pub fn gtk_cursor_name(shape: CursorShape) -> (r: &'static str)
    ensures
        r@ == gtk_cursor_name_spec(shape),
{
    match shape {
        CursorShape::Default => "default",
        CursorShape::Crosshair => "crosshair",
        CursorShape::Hand => "pointer",
        CursorShape::Arrow => "default",
        CursorShape::Move => "move",
        CursorShape::Text => "text",
        CursorShape::Wait => "wait",
        CursorShape::Help => "help",
        CursorShape::Progress => "progress",
        CursorShape::NotAllowed => "not-allowed",
        CursorShape::ContextMenu => "context-menu",
        CursorShape::Cell => "cell",
        CursorShape::VerticalText => "vertical-text",
        CursorShape::Alias => "alias",
        CursorShape::Copy => "copy",
        CursorShape::NoDrop => "no-drop",
        CursorShape::Grab => "grab",
        CursorShape::Grabbing => "grabbing",
        CursorShape::AllScroll => "all-scroll",
        CursorShape::ZoomIn => "zoom-in",
        CursorShape::ZoomOut => "zoom-out",
        CursorShape::EResize => "e-resize",
        CursorShape::NResize => "n-resize",
        CursorShape::NeResize => "ne-resize",
        CursorShape::NwResize => "ne-resize",
        CursorShape::SResize => "s-resize",
        CursorShape::SeResize => "se-resize",
        CursorShape::SwResize => "sw-resize",
        CursorShape::WResize => "w-resize",
        CursorShape::EwResize => "ew-resize",
        CursorShape::NsResize => "ns-resize",
        CursorShape::NeswResize => "nesw-resize",
        CursorShape::NwseResize => "nwse-resize",
        CursorShape::ColResize => "col-resize",
        CursorShape::RowResize => "row-resize",
    }
}

impl Default for CursorShape {
    fn default() -> (r: Self)
        ensures
            r == CursorShape::Default,
    {
        CursorShape::Default
    }
}

/// A immutable, ref-counted bitmap image.
pub trait Bitmap: Clone + Sized {
    /// The dimensions of the bitmap.
    spec fn spec_size(&self) -> [u32; 2];

    /// Get the dimensions of a bitmap.
    fn size(&self) -> (r: [u32; 2])
        ensures
            r == self.spec_size(),
    ;
}

/// The shape at the endpoints of stroked lines.
#[derive(Debug, Clone, Copy, PartialEq, Eq, Structural, Hash)]
pub enum LineCap {
    Butt,
    Round,
    Square,
}

/// The shape at the corners of stroked lines.
#[derive(Debug, Clone, Copy, PartialEq, Eq, Structural, Hash)]
pub enum LineJoin {
    Miter,
    Round,
    Bevel,
}

/// A builder type for [`Bitmap`]. The drawing operations live with the
/// backends.
pub trait BitmapBuilder {
    type Bitmap: Bitmap;

    fn into_bitmap(self) -> Self::Bitmap;
}

/// A [`BitmapBuilder`] that can be created for a given size.
pub trait BitmapBuilderNew: BitmapBuilder + Sized {
    /// Create a [`BitmapBuilder`] with a R8G8B8A8 backing bitmap.
    fn new(size: [u32; 2]) -> Self;
}

/// The system fonts.
#[derive(Debug, Clone, Copy, PartialEq, Eq, Structural, Hash)]
pub enum SysFontType {
    /// The font used for UI elements.
    Normal,
    /// The font used for emphasis in UI elements.
    Emph,
    /// The font used for small UI elements.
    Small,
    /// The font used for emphasis in small UI elements.
    SmallEmph,
    /// The font used for editable document.
    User,
    /// The monospace font used for editable document.
    UserMonospace,
}

} // verus!
