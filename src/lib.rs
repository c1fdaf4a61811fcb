//! Canonical ordering of GTF/GFF3 annotation files: chromosome, then gene by
//! start, then transcript, then the transcript's features in natural order.
pub mod attr;
pub mod bytes;
pub mod chunks;
pub mod features;
pub mod index;
pub mod ingest;
pub mod layers;
pub mod layout;
pub mod mmap;
pub mod ord;
pub mod pipeline;
pub mod record;
pub mod regions;

pub use attr::{Attribute, ParseError};
pub use layers::Layers;
pub use layout::LayoutError;
pub use mmap::Madvice;
pub use ord::CowNaturalSort;
pub use pipeline::{sort_annotations_text, SortedIndex};
pub use record::Record;
