//! The flowchart syntax tree shared by the gph compiler and MML.
use vstd::prelude::*;

verus! {

/// The direction in which Mermaid lays out a flowchart.
#[derive(Debug, Clone, Copy, PartialEq, Eq, Structural)]
pub enum Direction {
    LR,
    RL,
    TD,
    BT,
}

/// A node's Mermaid shape.
#[derive(Debug, Clone, Copy, PartialEq, Eq, Structural, Default)]
pub enum Shape {
    #[default]
    Box,
    Round,
    Diamond,
    Stadium,
    Hex,
    Sub,
}

/// An edge's Mermaid arrow style.
#[derive(Debug, Clone, Copy, PartialEq, Eq, Structural, Default)]
pub enum Arrow {
    #[default]
    Normal,
    Dotted,
    Thick,
    Circle,
    Cross,
}

/// An optionally labelled node declaration.
#[derive(Debug, Clone, PartialEq, Eq)]
pub struct NodeDecl {
    pub id: String,
    pub label: Option<String>,
    pub shape: Shape,
}

/// A same-style chain of edges; a label applies only to the final hop.
#[derive(Debug, Clone, PartialEq, Eq)]
pub struct EdgeDecl {
    pub chain: Vec<String>,
    pub label: Option<String>,
    pub arrow: Arrow,
}

/// A graph statement.
#[derive(Debug, Clone, PartialEq, Eq)]
pub enum Stmt {
    Node(NodeDecl),
    Edge(EdgeDecl),
}

/// A parsed flowchart.
#[derive(Debug, Clone, PartialEq, Eq)]
pub struct Graph {
    pub direction: Direction,
    pub stmts: Vec<Stmt>,
}

/// The mathematical form of a node declaration.
pub struct SpecNode {
    pub id: Seq<char>,
    pub label: Option<Seq<char>>,
    pub shape: Shape,
}

/// The mathematical form of an edge chain.
pub struct SpecEdge {
    pub chain: Seq<Seq<char>>,
    pub label: Option<Seq<char>>,
    pub arrow: Arrow,
}

/// The mathematical form of a statement.
pub enum SpecStmt {
    Node(SpecNode),
    Edge(SpecEdge),
}

/// The mathematical form of a graph.
pub struct SpecGraph {
    pub direction: Direction,
    pub stmts: Seq<SpecStmt>,
}

pub open spec fn opt_view(o: Option<String>) -> Option<Seq<char>> {
    match o {
        Some(s) => Some(s@),
        None => None,
    }
}

pub open spec fn strings_view(v: Seq<String>) -> Seq<Seq<char>> {
    v.map_values(|s: String| s@)
}

impl View for NodeDecl {
    type V = SpecNode;

    open spec fn view(&self) -> SpecNode {
        SpecNode { id: self.id@, label: opt_view(self.label), shape: self.shape }
    }
}

impl View for EdgeDecl {
    type V = SpecEdge;

    open spec fn view(&self) -> SpecEdge {
        SpecEdge { chain: strings_view(self.chain@), label: opt_view(self.label), arrow: self.arrow }
    }
}

impl View for Stmt {
    type V = SpecStmt;

    open spec fn view(&self) -> SpecStmt {
        match self {
            Stmt::Node(n) => SpecStmt::Node(n@),
            Stmt::Edge(e) => SpecStmt::Edge(e@),
        }
    }
}

pub open spec fn stmts_view(v: Seq<Stmt>) -> Seq<SpecStmt> {
    v.map_values(|s: Stmt| s@)
}

impl View for Graph {
    type V = SpecGraph;

    open spec fn view(&self) -> SpecGraph {
        SpecGraph { direction: self.direction, stmts: stmts_view(self.stmts@) }
    }
}

/// A copy of a string with the same characters.
pub fn copy_string(s: &String) -> (r: String)
    ensures
        r@ == s@,
{
    s.clone()
}

pub fn copy_opt_string(s: &Option<String>) -> (r: Option<String>)
    ensures
        opt_view(r) == opt_view(*s),
{
    match s {
        Some(s) => Some(s.clone()),
        None => None,
    }
}

impl NodeDecl {
    /// A copy of the declaration.
    pub fn copy(&self) -> (r: NodeDecl)
        ensures
            r@ == self@,
    {
        NodeDecl { id: self.id.clone(), label: copy_opt_string(&self.label), shape: self.shape }
    }
}

} // verus!
