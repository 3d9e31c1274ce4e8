//! Inline images `![alt](source "title")`.
use vstd::prelude::*;
use crate::markdown::code_fence::{opt_string, opt_view};
use crate::markdown::link::{
    extract_inline_references, inline_refs, ref_views, InlineReferenceKind,
};
use crate::text::{chars_of, string_of};

verus! {

/// A Markdown inline image.
#[derive(Clone, Debug, Eq, PartialEq)]
pub struct MarkdownImage {
    /// The cleaned alt text.
    pub alt: String,
    /// The image source.
    pub source: String,
    /// The optional inline title.
    pub title: Option<String>,
    /// The 1-based line where the image was found.
    pub line: usize,
}

/// Alt text, source, title and line of an image.
pub open spec fn image_view(m: MarkdownImage) -> (Seq<char>, Seq<char>, Option<Seq<char>>, int) {
    (m.alt@, m.source@, opt_view(m.title), m.line as int)
}

/// Extracts inline images while ignoring fenced code blocks.
pub fn extract_images(markdown: &str) -> (r: Vec<MarkdownImage>)
    ensures
        r@.map_values(|m: MarkdownImage| image_view(m)) == inline_refs(markdown@, true),
{
    let v = chars_of(markdown);
    let refs = extract_inline_references(&v, InlineReferenceKind::Image);
    let mut images: Vec<MarkdownImage> = Vec::new();
    let mut i: usize = 0;
    while i < refs.len()
        invariant
            i <= refs@.len(),
            images@.map_values(|m: MarkdownImage| image_view(m)) == ref_views(refs@).take(i as int),
        decreases refs@.len() - i,
    {
        let r = &refs[i];
        let image = MarkdownImage {
            alt: string_of(&r.label),
            source: string_of(&r.target),
            title: opt_string(&r.title),
            line: r.line,
        };
        let ghost prev = images@;
        let ghost mv = image_view(image);
        assert(mv == ref_views(refs@)[i as int]);
        images.push(image);
        assert(images@.map_values(|m: MarkdownImage| image_view(m)) =~= prev.map_values(
            |m: MarkdownImage| image_view(m),
        ).push(mv));
        assert(ref_views(refs@).take(i + 1) =~= ref_views(refs@).take(i as int).push(mv));
        i = i + 1;
    }
    assert(ref_views(refs@).take(refs@.len() as int) =~= ref_views(refs@));
    images
}

} // verus!
