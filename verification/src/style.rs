//! Visual styles attached to runs of text.
//!
//! A [`Style`] is a small value type: every field is either a flag or an
//! optional plain value, and an unset field means "inherit from the
//! surroundings".  Styles combine by override: a child scope only replaces
//! the fields it sets itself.

use vstd::prelude::*;

verus! {

/// An opaque foreground colour, one byte per channel.
#[derive(Clone, Copy, Debug, PartialEq, Eq)]
pub struct Rgb {
    pub r: u8,
    pub g: u8,
    pub b: u8,
}

/// A visual style for a run of text.
///
/// `font_family` refers to a family registered with the rendering backend;
/// `line_spacing` is a factor in hundredths, so `150` means one-and-a-half
/// line height.
#[derive(Clone, Copy, Debug, PartialEq, Eq)]
pub struct Style {
    pub color: Option<Rgb>,
    pub bold: bool,
    pub italic: bool,
    pub font_family: Option<u32>,
    pub font_size: Option<u8>,
    pub line_spacing: Option<u32>,
}

impl Style {
    /// The neutral style: nothing set, everything inherited.
    pub fn new() -> (r: Style)
        ensures
            r == (Style {
                color: None,
                bold: false,
                italic: false,
                font_family: None,
                font_size: None,
                line_spacing: None,
            }),
    {
        Style { color: None, bold: false, italic: false, font_family: None, font_size: None, line_spacing: None }
    }

    /// Copy of `self` with the bold flag set.
    pub fn bold(self) -> (r: Style)
        ensures
            r == (Style { bold: true, ..self }),
    {
        Style { bold: true, ..self }
    }

    /// Copy of `self` with the italic flag set.
    pub fn italic(self) -> (r: Style)
        ensures
            r == (Style { italic: true, ..self }),
    {
        Style { italic: true, ..self }
    }

    /// Copy of `self` with the given foreground colour.
    pub fn with_color(self, c: Rgb) -> (r: Style)
        ensures
            r == (Style { color: Some(c), ..self }),
    {
        Style { color: Some(c), ..self }
    }

    /// Copy of `self` using the given font family.
    pub fn with_font_family(self, family: u32) -> (r: Style)
        ensures
            r == (Style { font_family: Some(family), ..self }),
    {
        Style { font_family: Some(family), ..self }
    }

    /// Copy of `self` with the given font size.
    pub fn with_font_size(self, size: u8) -> (r: Style)
        ensures
            r == (Style { font_size: Some(size), ..self }),
    {
        Style { font_size: Some(size), ..self }
    }

    /// Copy of `self` with the given line-spacing factor, in hundredths.
    pub fn with_line_spacing(self, spacing: u32) -> (r: Style)
        ensures
            r == (Style { line_spacing: Some(spacing), ..self }),
    {
        Style { line_spacing: Some(spacing), ..self }
    }

    /// What overriding `self` with `over` yields: optional fields that
    /// `over` sets replace those of `self`, and the flags accumulate.
    pub open spec fn merged_spec(self, over: Style) -> Style {
        Style {
            color: if over.color is Some { over.color } else { self.color },
            bold: self.bold || over.bold,
            italic: self.italic || over.italic,
            font_family: if over.font_family is Some { over.font_family } else { self.font_family },
            font_size: if over.font_size is Some { over.font_size } else { self.font_size },
            line_spacing: if over.line_spacing is Some { over.line_spacing } else { self.line_spacing },
        }
    }

    /// Combine by override: fields set by `over` win, flags accumulate.
    pub fn merged(self, over: Style) -> (r: Style)
        ensures
            r == self.merged_spec(over),
    {
        Style {
            color: if over.color.is_some() { over.color } else { self.color },
            bold: self.bold || over.bold,
            italic: self.italic || over.italic,
            font_family: if over.font_family.is_some() { over.font_family } else { self.font_family },
            font_size: if over.font_size.is_some() { over.font_size } else { self.font_size },
            line_spacing: if over.line_spacing.is_some() { over.line_spacing } else { self.line_spacing },
        }
    }
}

/// The neutral style value, as a spec constant.
pub open spec fn empty_style() -> Style {
    Style {
        color: None,
        bold: false,
        italic: false,
        font_family: None,
        font_size: None,
        line_spacing: None,
    }
}

/// A contiguous span of text rendered with one resolved style.
#[derive(Clone, Debug, PartialEq, Eq)]
pub struct StyledRun {
    pub text: String,
    pub style: Style,
}

/// The mathematical value of a [`StyledRun`]: its characters and style.
#[verifier::ext_equal]
pub struct RunModel {
    pub text: Seq<char>,
    pub style: Style,
}

impl View for StyledRun {
    type V = RunModel;

    open spec fn view(&self) -> RunModel {
        RunModel { text: self.text@, style: self.style }
    }
}

impl DeepView for StyledRun {
    type V = RunModel;

    open spec fn deep_view(&self) -> RunModel {
        self@
    }
}

impl StyledRun {
    /// Pair a piece of text with its style.
    pub fn new(text: String, style: Style) -> (r: StyledRun)
        ensures
            r@ == (RunModel { text: text@, style }),
    {
        StyledRun { text, style }
    }
}

} // verus!
