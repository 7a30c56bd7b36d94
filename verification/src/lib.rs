//! A width-aware pretty-printer and a path-addressed structural editor for
//! nested-list expression trees.
//!
//! The tree model and its layout engine live in [`sxfmt`]; their mathematical
//! counterparts (the ghost tree, widths, layout and emission functions) live
//! in [`model`]. The structural cursor that navigates and edits a tree is
//! [`sexpr_view::SexprView`]; the character grid that rendered frames are
//! written into is [`textbuffer::TextBuffer`]. General laws of the layout
//! engine and of the editor are stated and proved in [`laws`].

pub mod model;
pub mod sxfmt;
pub mod laws;
pub mod styles;
pub mod events;
pub mod sexpr_view;
pub mod textbuffer;
pub mod ui;
