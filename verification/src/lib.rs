//! A small catalogue of bird records, each tagged with an ordered list of
//! taxonomic classification labels. A hierarchy among the labels is inferred
//! purely from co-occurrence statistics: a label carried by more records is
//! assumed to sit higher, and a label can only become the parent of another
//! when the two share a record. A transitive search then answers which birds
//! carry a label that descends from a given root label.

pub mod bird;
pub mod collection;
pub mod hierarchy;
pub mod label;
pub mod lineage;
pub mod text;

pub use bird::Bird;
pub use collection::Collection;
pub use hierarchy::sort_by_classification;
pub use label::Classification;
