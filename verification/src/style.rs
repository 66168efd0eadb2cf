//! The computed-style values the text, layout and selector code reads.

use vstd::prelude::*;

verus! {

/// The CSS `display` value.
#[derive(Clone, Copy, PartialEq, Eq, Debug, Structural)]
pub enum Display {
    /// `display: none`.
    NoBox,
    Inline,
    Block,
    InlineBlock,
    Flex,
    InlineFlex,
    Grid,
    InlineGrid,
    Table,
    TableCaption,
    TableRow,
    TableCell,
    TableRowGroup,
    TableHeaderGroup,
    TableFooterGroup,
    TableColumn,
    TableColumnGroup,
}

#[derive(Clone, Copy, PartialEq, Eq, Debug, Structural)]
pub enum Position {
    Static,
    Relative,
    Absolute,
    Fixed,
    Sticky,
}

#[derive(Clone, Copy, PartialEq, Eq, Debug, Structural)]
pub enum Visibility {
    Visible,
    Hidden,
    Collapse,
}

#[derive(Clone, Copy, PartialEq, Eq, Debug, Structural)]
pub enum WhiteSpace {
    Normal,
    Nowrap,
    Pre,
    PreWrap,
    PreLine,
}

#[derive(Clone, Copy, PartialEq, Eq, Debug, Structural)]
pub enum TextTransform {
    /// `text-transform: none`.
    Identity,
    Uppercase,
    Lowercase,
    Capitalize,
}

/// The CSS `word-break` value.
#[derive(Clone, Copy, PartialEq, Eq, Debug, Structural)]
pub enum WordBreak {
    Normal,
    BreakAll,
    KeepAll,
}

#[derive(Clone, Copy, PartialEq, Eq, Debug, Structural)]
pub enum Float {
    /// `float: none`.
    NoFloat,
    Left,
    Right,
}

#[derive(Clone, Copy, PartialEq, Eq, Debug, Structural)]
pub enum Clear {
    /// `clear: none`.
    NoClear,
    Left,
    Right,
    Both,
}

#[derive(Clone, Copy, PartialEq, Eq, Debug, Structural)]
pub enum TextAlign {
    Left,
    Center,
    Right,
    Justify,
}

/// The flex `justify-content` value.
#[derive(Clone, Copy, PartialEq, Eq, Debug, Structural)]
pub enum JustifyContent {
    FlexStart,
    FlexEnd,
    Center,
    SpaceBetween,
    SpaceAround,
    SpaceEvenly,
}

/// The `list-style-type` keywords the engine renders.
#[derive(Clone, Copy, PartialEq, Eq, Debug, Structural)]
pub enum ListStyleType {
    Disc,
    Circle,
    Square,
    Decimal,
    /// `list-style-type: none`.
    NoMarker,
}

/// The cascaded style of one element, as far as the text and box-tree code reads it.
/// `display_none` and `display_block` are legacy flags that older style producers set instead
/// of (or besides) `display`.
#[derive(Clone, Copy, PartialEq, Eq, Debug, Structural)]
pub struct ComputedStyle {
    pub display: Display,
    pub display_none: bool,
    pub display_block: bool,
    pub position: Position,
    pub visibility: Visibility,
    pub white_space: WhiteSpace,
    pub text_transform: TextTransform,
    pub word_break: WordBreak,
    pub float: Float,
    pub clear: Clear,
    pub text_align: TextAlign,
    pub underline: bool,
    pub line_through: bool,
    pub overline: bool,
}

} // verus!
