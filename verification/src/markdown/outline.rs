//! A document outline: its headings in order.
use vstd::prelude::*;
use crate::markdown::heading::{extract_headings, heading_view, headings_of, MarkdownHeading};

verus! {

/// A simple heading outline for a Markdown document.
#[derive(Clone, Debug, Eq, PartialEq)]
pub struct MarkdownOutline {
    /// The headings found in document order.
    pub headings: Vec<MarkdownHeading>,
}

/// The headings of an outline, each by its view.
pub open spec fn outline_view(o: MarkdownOutline) -> Seq<(int, Seq<char>, int, Seq<char>)> {
    o.headings@.map_values(|h: MarkdownHeading| heading_view(h))
}

impl Default for MarkdownOutline {
    fn default() -> (r: Self)
        ensures
            r.headings@.len() == 0,
    {
        MarkdownOutline { headings: Vec::new() }
    }
}

/// Extracts a lightweight document outline from headings.
pub fn extract_outline(markdown: &str) -> (r: MarkdownOutline)
    ensures
        outline_view(r) == headings_of(markdown@),
{
    MarkdownOutline { headings: extract_headings(markdown) }
}

} // verus!
