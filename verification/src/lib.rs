//! A static data-flow analysis pass for Clarity smart contracts.
//!
//! The heart of the crate is a taint-propagation engine: function parameters
//! carrying externally supplied data are registered as taint sources, taint
//! flows through the expression tree as it is walked, validating checks and
//! source annotations filter it back out, and any tainted value that reaches
//! a sensitive sink is reported as a diagnostic.

pub mod annotation;
pub mod assoc;
pub mod ast;
pub mod checker;
pub mod collections;
pub mod dependency;
pub mod detectors;
pub mod diagnostic;
pub mod graph;
pub mod node;
pub mod semantics;
pub mod state;
pub mod span;
mod text;

pub use annotation::Annotation;
pub use annotation::AnnotationKind;
pub use annotation::WarningKind;
pub use ast::Expr;
pub use ast::ExprKind;
pub use ast::ParamType;
pub use ast::TypedParam;
pub use checker::CheckError;
pub use checker::FunctionInfo;
pub use checker::Gecko;
pub use collections::NodeSet;
pub use dependency::Dependency;
pub use dependency::DependencySet;
pub use diagnostic::DiagGroup;
pub use diagnostic::Diagnostic;
pub use diagnostic::Level;
pub use graph::Graph;
pub use graph::GraphWalker;
pub use node::NodeId;
pub use node::NodeKey;
pub use span::Span;
pub use state::TaintGraph;
