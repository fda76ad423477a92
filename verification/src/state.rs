//! Per-node state that holds no lengths or colours.
use vstd::prelude::*;

verus! {

/// The text of a text node.
#[derive(Debug, Clone, Default, PartialEq, Eq)]
pub struct TextContent {
    pub value: String,
}

/// Where an image comes from.
#[derive(Debug, Clone, PartialEq, Eq)]
pub enum ImageSource {
    Asset(String),
    Texture(String),
    Path(String),
}

/// The image of an image node.
#[derive(Debug, Clone, PartialEq, Eq)]
pub struct ImageState {
    pub source: ImageSource,
}

/// How the user is interacting with a node.
#[derive(Debug, Clone, Copy, Default, PartialEq, Eq, Structural)]
pub struct InteractionState {
    pub hovered: bool,
    pub pressed: bool,
    pub focus_visible: bool,
    pub disabled: bool,
}

/// The value of a text input.
#[derive(Debug, Clone, Default, PartialEq, Eq)]
pub struct TextInputState {
    pub value: String,
}

} // verus!
