//! Resilient text anchors: pointers to a span of text that can be located
//! again after the document has been edited.

pub mod adapter;
pub mod anchor;
pub mod ident;
pub mod range;
pub mod scroll;
pub mod text;

pub use adapter::MdAdapter;
pub use adapter::TextAdapter;
pub use adapter::TxtAdapter;
pub use adapter::pick_adapter;
pub use anchor::Anchor;
pub use anchor::CONTEXT;
pub use ident::DocumentId;
pub use range::Range;
pub use text::normalize_eol;
pub use text::to_lines;
