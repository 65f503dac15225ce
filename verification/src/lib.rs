//! An inverted index over the path components of archive listings, with a
//! ranked term-overlap search.
//!
//! Every document is an archive named by a content hash; its terms are the
//! components of the paths it holds. The index maps each term to the documents
//! that hold it, and a query is scored against a document by the Jaccard
//! similarity of the two term sets.

pub mod types;
pub mod terms;
pub mod index;
pub mod builder;
pub mod merge;
pub mod consistency;
pub mod query;
pub mod rank;
pub mod search;

pub use types::{DocumentId, DocumentName, FileData, Score, SearchData, SearchMatch, SearchResult, Term};
pub use terms::{extract_terms, split_path};
pub use index::{Idf, IndexView, IndexedData, Posting};
pub use builder::{load_data, BuildError, CorpusLine};
pub use search::{run_search, search, Candidate};
pub use rank::Ranked;
