//! The core of a GraphQL server: the query-language lexer and parser, a
//! printer, static validation rules, the per-resolution execution context,
//! and the field collection and error bubbling of the resolver dispatch.

pub mod ast;
pub mod context;
pub mod execute;
pub mod grammar;
pub mod lexer;
pub mod parser;
pub mod printer;
pub mod registry;
pub mod round_trip;
pub mod scalars;
mod span;
mod text;
pub mod validation;
mod value;

pub use context::{
    Context, ContextBase, ContextSelectionSet, Environment, Error, ErrorKind, InputValueType, QueryError,
    QueryPathNode, QueryPathSegment, ResolveId, ResolveIdCounter, Variables,
};
pub use lexer::ParseError;
pub use parser::parse_query;
pub use scalars::ID;
pub use span::{Pos, Span, Spanned};
pub use validation::{ComplexityCalculate, OverlappingFieldsCanBeMerged, RuleError, UploadFile, VisitorContext};
pub use value::Value;
