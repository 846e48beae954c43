//! Term-document matrices over tokenized text: a vocabulary index that hands
//! out ids in first-seen order, per-document frequency counts, the matrix of
//! raw counts built from both, and the document frequencies that tf-idf
//! weighting needs.

pub mod collections;
pub mod matrix;
pub mod preprocessing;
