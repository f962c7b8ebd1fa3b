//! The layout options of an article preview: which parts are shown, how
//! the preview flows, and how large it renders.  A layout starts from the
//! default and is narrowed by the builder methods.

use vstd::prelude::*;

verus! {

/// Whether a preview flows beside or below its image.
#[derive(Debug, Clone, Copy, PartialEq, Eq, Structural)]
pub enum ArticleDirection {
    Horizontal,
    Vertical,
}

/// How prominently a preview renders.
#[derive(Debug, Clone, Copy, PartialEq, Eq, Structural)]
pub enum ArticleSize {
    Hero,
    Normal,
}

/// The layout options of one article preview.
#[derive(Debug, Clone, Copy, PartialEq, Eq, Structural)]
pub struct ArticlePreviewLayout {
    pub blurb: bool,
    pub image: bool,
    pub category: bool,
    pub direction: ArticleDirection,
    pub size: ArticleSize,
}

impl ArticlePreviewLayout {
    /// The same layout without the blurb.
    pub fn without_blurb(self) -> (r: ArticlePreviewLayout)
        ensures
            r == (ArticlePreviewLayout { blurb: false, ..self }),
    {
        ArticlePreviewLayout { blurb: false, ..self }
    }

    /// The same layout without the image.
    pub fn without_image(self) -> (r: ArticlePreviewLayout)
        ensures
            r == (ArticlePreviewLayout { image: false, ..self }),
    {
        ArticlePreviewLayout { image: false, ..self }
    }

    /// The same layout flowing horizontally.
    pub fn horizontal(self) -> (r: ArticlePreviewLayout)
        ensures
            r == (ArticlePreviewLayout { direction: ArticleDirection::Horizontal, ..self }),
    {
        ArticlePreviewLayout { direction: ArticleDirection::Horizontal, ..self }
    }

    /// The same layout at hero size.
    pub fn hero(self) -> (r: ArticlePreviewLayout)
        ensures
            r == (ArticlePreviewLayout { size: ArticleSize::Hero, ..self }),
    {
        ArticlePreviewLayout { size: ArticleSize::Hero, ..self }
    }

    /// The same layout without the category line.
    pub fn without_category(self) -> (r: ArticlePreviewLayout)
        ensures
            r == (ArticlePreviewLayout { category: false, ..self }),
    {
        ArticlePreviewLayout { category: false, ..self }
    }
}

impl Default for ArticlePreviewLayout {
    /// Everything shown, flowing vertically, at normal size.
    fn default() -> (r: ArticlePreviewLayout)
        ensures
            r == (ArticlePreviewLayout {
                blurb: true,
                image: true,
                category: true,
                direction: ArticleDirection::Vertical,
                size: ArticleSize::Normal,
            }),
    {
        ArticlePreviewLayout {
            blurb: true,
            image: true,
            category: true,
            direction: ArticleDirection::Vertical,
            size: ArticleSize::Normal,
        }
    }
}

} // verus!
