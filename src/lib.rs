//! Related-articles scoring for a corpus of markdown articles: text cleaning,
//! lemmatization, term-frequency vectors, pairwise cosine similarity in exact
//! integer form, and top-K neighbour selection.

pub mod text;
pub mod article;
pub mod lemma;
pub mod vector;
pub mod corpus;
pub mod similarity;
pub mod top_k;
