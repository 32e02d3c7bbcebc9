//! Core of a minimal in-memory full-text search engine: a whitespace
//! analyzer, an inverted index keyed by term, a document-at-a-time
//! disjunctive searcher, a query parser producing a small AST, and a
//! byte-level codec for persisting an index as a segment.

pub mod analyzer;
pub mod codec;
pub mod index;
pub mod query;
pub mod query_parser;
pub mod searcher;

pub use analyzer::analyze;
pub use analyzer::Token;
pub use codec::decode;
pub use codec::encode;
pub use codec::CodecError;
pub use index::Index;
pub use index::PostingsList;
pub use query::BooleanQuery;
pub use query::Occur;
pub use query::PhraseQuery;
pub use query::Query;
pub use query::SubQuery;
pub use query::TermQuery;
pub use query_parser::ParseError;
pub use query_parser::QueryParser;
pub use searcher::Cursor;
pub use searcher::SearchResult;
pub use searcher::Searcher;
