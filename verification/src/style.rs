//! The style properties that hold no lengths or colours.
use vstd::prelude::*;

verus! {

#[derive(Debug, Clone, Copy, PartialEq, Eq, Structural)]
pub enum Display {
    /// Not displayed: no box, no paint, no hit.
    NotDisplayed,
    Block,
    Flex,
}

impl Default for Display {
    fn default() -> (r: Self)
        ensures
            r == Display::Block,
    {
        Display::Block
    }
}

#[derive(Debug, Clone, Copy, PartialEq, Eq, Structural)]
pub enum FlexDirection {
    Row,
    Column,
}

#[derive(Debug, Clone, Copy, PartialEq, Eq, Structural)]
pub enum AlignItems {
    Start,
    Center,
    End,
    Stretch,
}

#[derive(Debug, Clone, Copy, PartialEq, Eq, Structural)]
pub enum JustifyContent {
    Start,
    Center,
    End,
    SpaceBetween,
}

#[derive(Debug, Clone, Copy, PartialEq, Eq, Structural)]
pub enum Position {
    Relative,
    Absolute,
}

#[derive(Debug, Clone, Copy, PartialEq, Eq, Structural)]
pub enum Overflow {
    Visible,
    Hidden,
    Scroll,
}

#[derive(Debug, Clone, Copy, PartialEq, Eq, Structural)]
pub struct FlexStyle {
    pub display: Display,
    pub direction: FlexDirection,
    pub align_items: AlignItems,
    pub justify_content: JustifyContent,
}

impl Default for FlexStyle {
    /// Block display; as a flex container, a stretched row from the start.
    fn default() -> (r: Self)
        ensures
            r == (FlexStyle {
                display: Display::Block,
                direction: FlexDirection::Row,
                align_items: AlignItems::Stretch,
                justify_content: JustifyContent::Start,
            }),
    {
        FlexStyle {
            display: Display::Block,
            direction: FlexDirection::Row,
            align_items: AlignItems::Stretch,
            justify_content: JustifyContent::Start,
        }
    }
}

#[derive(Debug, Clone, Copy, PartialEq, Eq, Structural)]
pub struct PositionStyle {
    pub position: Position,
}

impl Default for PositionStyle {
    fn default() -> (r: Self)
        ensures
            r.position == Position::Relative,
    {
        PositionStyle { position: Position::Relative }
    }
}

#[derive(Debug, Clone, Copy, PartialEq, Eq, Structural)]
pub struct OverflowStyle {
    pub x: Overflow,
    pub y: Overflow,
}

impl Default for OverflowStyle {
    fn default() -> (r: Self)
        ensures
            r.x == Overflow::Visible,
            r.y == Overflow::Visible,
    {
        OverflowStyle { x: Overflow::Visible, y: Overflow::Visible }
    }
}

} // verus!
