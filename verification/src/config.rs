//! Configuration values the layout core consumes: the font size for each
//! heading level and the choice of highlighting backend.

use vstd::prelude::*;

use crate::strutil::str_eq;

verus! {

/// Which highlighting backend a caller should use: the out-of-process
/// one when it is available, only in-process engines, or none at all.
#[allow(non_camel_case_types)]
#[derive(Clone, Copy, Debug, PartialEq, Eq)]
pub enum Highlight {
    all,
    no_node,
    none,
}

impl Default for Highlight {
    /// Highlighting defaults to every available backend.
    fn default() -> (r: Self)
        ensures
            r == Highlight::all,
    {
        Highlight::all
    }
}

/// Font sizes for the title, the six heading levels, and body text.
#[derive(Clone, Copy, Debug, PartialEq, Eq)]
pub struct FontSize {
    pub title: u8,
    pub h1: u8,
    pub h2: u8,
    pub h3: u8,
    pub h4: u8,
    pub h5: u8,
    pub h6: u8,
    pub text: u8,
}

/// The size `FontSize::get` answers for a section tag: the matching
/// heading size, or the body text size for anything else.
pub open spec fn font_size_get(fs: FontSize, section: Seq<char>) -> u8 {
    if section == "h1"@ {
        fs.h1
    } else if section == "h2"@ {
        fs.h2
    } else if section == "h3"@ {
        fs.h3
    } else if section == "h4"@ {
        fs.h4
    } else if section == "h5"@ {
        fs.h5
    } else if section == "h6"@ {
        fs.h6
    } else {
        fs.text
    }
}

impl FontSize {
    /// Get the text size for a given section tag.
    pub fn get(&self, section: &str) -> (r: u8)
        ensures
            r == font_size_get(*self, section@),
    {
        if str_eq(section, "h1") {
            self.h1
        } else if str_eq(section, "h2") {
            self.h2
        } else if str_eq(section, "h3") {
            self.h3
        } else if str_eq(section, "h4") {
            self.h4
        } else if str_eq(section, "h5") {
            self.h5
        } else if str_eq(section, "h6") {
            self.h6
        } else {
            self.text
        }
    }
}

impl Default for FontSize {
    /// The stock sizes: a large title, heading sizes stepping down from
    /// twenty-two points, and ten-point body text.
    fn default() -> (r: Self)
        ensures
            r == (FontSize { title: 25, h1: 22, h2: 20, h3: 17, h4: 14, h5: 12, h6: 12, text: 10 }),
    {
        FontSize { title: 25, h1: 22, h2: 20, h3: 17, h4: 14, h5: 12, h6: 12, text: 10 }
    }
}

} // verus!
