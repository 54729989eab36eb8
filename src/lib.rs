//! A format-preserving reader and editor for INI-like documents.
//!
//! A document is read line by line into items (headers, properties, comments, blank lines and
//! lines that cannot be read), grouped into sections. Sections that share a key, up to ASCII
//! case, act as one. Writing a document back reproduces every unchanged line exactly.
pub mod group;
pub mod ini;
pub mod item;
pub mod laws;
pub mod number;
pub mod parse;
pub mod section;
pub mod span;
pub mod text;
pub mod view;
pub mod world;

pub use ini::Ini;
pub use item::{Item, Padding, Padding4, Prop, SourcedItem};
pub use parse::{next_line, trimmed_range, trimmed_range_end, trimmed_range_start, Line, Parser};
pub use section::ConcreteSection;
pub use span::{Source, Span};
pub use view::{VirtualSection, VirtualSectionMut};
