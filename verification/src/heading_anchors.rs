//! Heading anchors: which headings get one, and what it holds.

use vstd::prelude::*;
use vstd::string::*;

verus! {

/// Where the anchor stands in its heading, if it is shown at all.
#[derive(Debug, Clone, Copy, PartialEq, Eq, Structural)]
pub enum AnchorPosition {
    Start,
    End,
    Omitted,
}

/// How headings get their anchors.
#[derive(Debug, Clone)]
pub struct HeadingAnchorOptions {
    /// Minimum heading level to add anchors to.
    pub min_level: u8,
    /// Maximum heading level to add anchors to.
    pub max_level: u8,
    /// Whether to add the id attribute to the heading itself.
    pub id_on_heading: bool,
    /// Where to add the anchor.
    pub position: AnchorPosition,
    /// Classes to add to the anchor.
    pub classes: Vec<String>,
    /// Inner HTML of the anchor.
    pub inner_html: String,
}

/// The anchor of a heading in the document tree.
#[derive(Debug, Clone, PartialEq, Eq)]
pub struct Permalink {
    pub href: String,
    pub id: Option<String>,
    pub inner_html: String,
}

/// The icon that an anchor shows unless the options say otherwise.
pub const DEFAULT_INNER_HTML: &'static str =
    "<svg class=\"octicon octicon-link\" viewBox=\"0 0 16 16\" version=\"1.1\" width=\"16\" height=\"16\" aria-hidden=\"true\"><path d=\"m7.775 3.275 1.25-1.25a3.5 3.5 0 1 1 4.95 4.95l-2.5 2.5a3.5 3.5 0 0 1-4.95 0 .751.751 0 0 1 .018-1.042.751.751 0 0 1 1.042-.018 1.998 1.998 0 0 0 2.83 0l2.5-2.5a2.002 2.002 0 0 0-2.83-2.83l-1.25 1.25a.751.751 0 0 1-1.042-.018.751.751 0 0 1-.018-1.042Zm-4.69 9.64a1.998 1.998 0 0 0 2.83 0l1.25-1.25a.751.751 0 0 1 1.042.018.751.751 0 0 1 .018 1.042l-1.25 1.25a3.5 3.5 0 1 1-4.95-4.95l2.5-2.5a3.5 3.5 0 0 1 4.95 0 .751.751 0 0 1-.018 1.042.751.751 0 0 1-1.042.018 1.998 1.998 0 0 0-2.83 0l-2.5 2.5a1.998 1.998 0 0 0 0 2.83Z\"></path></svg>";

impl Default for HeadingAnchorOptions {
    /// Anchors on the headings of all six levels, at the start of the
    /// heading, with the class `anchor` and the link icon.
    fn default() -> (r: HeadingAnchorOptions)
        ensures
            r.min_level == 1,
            r.max_level == 6,
            !r.id_on_heading,
            r.position == AnchorPosition::Start,
            r.classes@.len() == 1,
            r.classes@[0]@ == "anchor"@,
            r.inner_html@ == DEFAULT_INNER_HTML@,
    {
        let mut classes: Vec<String> = Vec::new();
        classes.push(String::from_str("anchor"));
        HeadingAnchorOptions {
            min_level: 1,
            max_level: 6,
            id_on_heading: false,
            position: AnchorPosition::Start,
            classes,
            inner_html: String::from_str(DEFAULT_INNER_HTML),
        }
    }
}

impl HeadingAnchorOptions {
    /// Whether headings of `level` get an anchor.
    pub open spec fn covers(&self, level: u8) -> bool {
        self.min_level <= level <= self.max_level
    }

    /// Whether headings of `level` get an anchor.
    #[verifier::when_used_as_spec(covers)]
    pub fn applies_to(&self, level: u8) -> (r: bool)
        ensures
            r == self.covers(level),
    {
        self.min_level <= level && level <= self.max_level
    }

    /// The anchor for a heading whose slug is `slug`, and the id to put on
    /// the heading itself. The id stands on the heading or on the anchor,
    /// as the options say, never on both.
    pub fn anchor_for(&self, slug: &str) -> (r: (Option<String>, Permalink))
        ensures
            r.1.href@ == slug@,
            r.1.inner_html@ == self.inner_html@,
            self.id_on_heading ==> r.0 is Some && r.0->0@ == slug@ && r.1.id is None,
            !self.id_on_heading ==> r.0 is None && r.1.id is Some && r.1.id->0@ == slug@,
    {
        let permalink = Permalink {
            href: slug.to_owned(),
            id: if self.id_on_heading {
                None
            } else {
                Some(slug.to_owned())
            },
            inner_html: self.inner_html.clone(),
        };
        let heading_id = if self.id_on_heading {
            Some(slug.to_owned())
        } else {
            None
        };
        (heading_id, permalink)
    }
}

} // verus!
