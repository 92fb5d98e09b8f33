//! Plain data behind the user-interface panels and text boxes.

use vstd::prelude::*;

verus! {

/// Where a panel sits horizontally on the screen.
#[derive(Debug, Copy, Clone, PartialEq, Eq, Structural)]
pub enum HorizontalAlignment {
    RIGHT,
    LEFT,
    CENTER,
    FREE,
}

/// Where a panel sits vertically on the screen.
#[derive(Debug, Copy, Clone, PartialEq, Eq, Structural)]
pub enum VerticalAlignment {
    TOP,
    BOTTOM,
    CENTER,
    FREE,
}

/// The player's stat card, remembering which side it is docked to.
#[derive(Debug)]
pub struct PlayerCard {
    pub alignment: HorizontalAlignment,
}

impl PlayerCard {
    pub fn new() -> (r: Self)
        ensures
            r.alignment == HorizontalAlignment::RIGHT,
    {
        PlayerCard { alignment: HorizontalAlignment::RIGHT }
    }
}

/// Marks the debug information box entity.
#[derive(Debug, Default)]
pub struct DebugInfoBox;

/// Accumulates the settings of a text box before it is built.
pub struct TextBoxBuilder {
    max_width: usize,
    max_height: usize,
    raw_text: String,
    animated: bool,
    close_on_end: bool,
    focused: bool,
}

impl TextBoxBuilder {
    pub closed spec fn spec_max_width(&self) -> usize {
        self.max_width
    }

    pub closed spec fn spec_max_height(&self) -> usize {
        self.max_height
    }

    pub closed spec fn spec_text(&self) -> Seq<char> {
        self.raw_text@
    }

    pub closed spec fn spec_animated(&self) -> bool {
        self.animated
    }

    pub closed spec fn spec_close_on_end(&self) -> bool {
        self.close_on_end
    }

    pub closed spec fn spec_focused(&self) -> bool {
        self.focused
    }

    /// An unconfigured text box: no size, no text, unanimated, closing on
    /// end and focused.
    pub fn new() -> (r: Self)
        ensures
            r.spec_max_width() == 0,
            r.spec_max_height() == 0,
            r.spec_text().len() == 0,
            !r.spec_animated(),
            r.spec_close_on_end(),
            r.spec_focused(),
    {
        TextBoxBuilder {
            max_width: 0,
            max_height: 0,
            raw_text: String::new(),
            animated: false,
            close_on_end: true,
            focused: true,
        }
    }

    pub fn max_width(self, width: usize) -> (r: Self)
        ensures
            r.spec_max_width() == width,
            r.spec_max_height() == self.spec_max_height(),
            r.spec_text() == self.spec_text(),
            r.spec_animated() == self.spec_animated(),
            r.spec_close_on_end() == self.spec_close_on_end(),
            r.spec_focused() == self.spec_focused(),
    {
        TextBoxBuilder { max_width: width, ..self }
    }

    pub fn max_height(self, height: usize) -> (r: Self)
        ensures
            r.spec_max_height() == height,
            r.spec_max_width() == self.spec_max_width(),
            r.spec_text() == self.spec_text(),
            r.spec_animated() == self.spec_animated(),
            r.spec_close_on_end() == self.spec_close_on_end(),
            r.spec_focused() == self.spec_focused(),
    {
        TextBoxBuilder { max_height: height, ..self }
    }

    /// Stores the text shown by the box.
    pub fn text(self, text: String) -> (r: Self)
        ensures
            r.spec_text() == text@,
            r.spec_max_width() == self.spec_max_width(),
            r.spec_max_height() == self.spec_max_height(),
            r.spec_animated() == self.spec_animated(),
            r.spec_close_on_end() == self.spec_close_on_end(),
            r.spec_focused() == self.spec_focused(),
    {
        TextBoxBuilder { raw_text: text, ..self }
    }

    pub fn is_animated(self, animated: bool) -> (r: Self)
        ensures
            r.spec_animated() == animated,
            r.spec_max_width() == self.spec_max_width(),
            r.spec_max_height() == self.spec_max_height(),
            r.spec_text() == self.spec_text(),
            r.spec_close_on_end() == self.spec_close_on_end(),
            r.spec_focused() == self.spec_focused(),
    {
        TextBoxBuilder { animated, ..self }
    }

    pub fn is_close_on_end(self, close: bool) -> (r: Self)
        ensures
            r.spec_close_on_end() == close,
            r.spec_max_width() == self.spec_max_width(),
            r.spec_max_height() == self.spec_max_height(),
            r.spec_text() == self.spec_text(),
            r.spec_animated() == self.spec_animated(),
            r.spec_focused() == self.spec_focused(),
    {
        TextBoxBuilder { close_on_end: close, ..self }
    }

    pub fn is_focused(self, focused: bool) -> (r: Self)
        ensures
            r.spec_focused() == focused,
            r.spec_max_width() == self.spec_max_width(),
            r.spec_max_height() == self.spec_max_height(),
            r.spec_text() == self.spec_text(),
            r.spec_animated() == self.spec_animated(),
            r.spec_close_on_end() == self.spec_close_on_end(),
    {
        TextBoxBuilder { focused, ..self }
    }
}

} // verus!
