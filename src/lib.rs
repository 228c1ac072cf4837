//! Renders the math of a Pandoc-style document tree into cropped SVG views.
//!
//! The verified parts: the formatting context of inline math (`style`), the walk
//! that finds math and raw TeX nodes (`tree`), their deduplication and the
//! typesetting source with the lines of each fragment (`fragment`), the merge
//! of glyph boxes into per-page regions (`region`), the rewrite of the tree
//! (`render`), the splitting of the SVG stream and the loading of embedded
//! fonts (`svg`), and the patch of a font's name table (`font`).

pub mod font;
pub mod fragment;
pub mod region;
pub mod render;
pub mod style;
pub mod svg;
pub mod text;
pub mod tree;
