//! The tools of the whiteboard.
use vstd::prelude::*;

verus! {

#[derive(Debug, Clone, Copy, PartialEq, Eq, Hash, Structural)]
pub enum ToolKind {
    Select,
    Pan,
    Rect,
    Ellipse,
    Line,
    Arrow,
    Text,
    Image,
}

pub open spec fn tool_label(tool: ToolKind) -> Seq<char> {
    match tool {
        ToolKind::Select => "Select"@,
        ToolKind::Pan => "Pan"@,
        ToolKind::Rect => "Rect"@,
        ToolKind::Ellipse => "Ellipse"@,
        ToolKind::Line => "Line"@,
        ToolKind::Arrow => "Arrow"@,
        ToolKind::Text => "Text"@,
        ToolKind::Image => "Image"@,
    }
}

impl ToolKind {
    /// The name shown on the tool's button.
    pub fn label(self) -> (r: &'static str)
        ensures
            r@ == tool_label(self),
    {
        match self {
            ToolKind::Select => "Select",
            ToolKind::Pan => "Pan",
            ToolKind::Rect => "Rect",
            ToolKind::Ellipse => "Ellipse",
            ToolKind::Line => "Line",
            ToolKind::Arrow => "Arrow",
            ToolKind::Text => "Text",
            ToolKind::Image => "Image",
        }
    }
}

} // verus!
