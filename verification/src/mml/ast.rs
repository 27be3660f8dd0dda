//! The MML syntax tree: the same flowchart tree that gph compiles.
use vstd::prelude::*;

verus! {

/// The direction in which Mermaid lays out a flowchart.
pub type Direction = crate::ast::Direction;

/// A node's Mermaid shape.
pub type Shape = crate::ast::Shape;

/// An edge's Mermaid arrow style.
pub type Arrow = crate::ast::Arrow;

/// An optionally labelled node declaration.
pub type NodeDecl = crate::ast::NodeDecl;

/// A same-style chain of two or more edges; a label applies only to the final hop.
pub type EdgeDecl = crate::ast::EdgeDecl;

/// A graph statement.
pub type Stmt = crate::ast::Stmt;

/// The parsed MML graph.
pub type Graph = crate::ast::Graph;

} // verus!
