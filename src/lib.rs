//! Preparation of citation-tagged corpus text for word-embedding training:
//! lines are assembled, normalised, segmented into locus-keyed sentences,
//! lemmatised into bags of words, filtered of stopwords and framed for storage.

pub mod assemble;
pub mod bagging;
pub mod keyed;
pub mod laws;
pub mod morphology;
pub mod normalize;
pub mod pipeline;
pub mod queries;
pub mod records;
pub mod segment;
pub mod stopwords;
pub mod store;
pub mod text;
