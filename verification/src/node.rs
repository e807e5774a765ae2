use vstd::prelude::*;
use crate::value::{HeavyValue, Kind, LightValue};

verus! {

/// A branch of a condition: the stations that decide it and those it runs.
#[derive(Debug)]
pub struct ConditionBranch<N> {
    pub condition: Vec<N>,
    pub body: Vec<N>,
}

/// A parsed program element, with names still as text.
#[derive(Debug)]
pub enum Node {
    Literal(LightValue),
    HeavyLiteral(HeavyValue),
    Apply { operator: String, arguments: Vec<Node> },
    Pipeline(Vec<Node>),
    RelativeReference(u16, u16),
    Variable(String),
    SoftAssignment(String),
    Assignment(String, Kind),
    DefineFunction { operator: String, parameters: Vec<Node>, body: Vec<Node>, result: Kind },
    Condition { branches: Vec<ConditionBranch<Node>>, final_branch: Vec<Node> },
    Return(Box<Node>),
    Array(Vec<Node>),
}

/// A program element whose names are resolved to slots and functions.
#[derive(Debug)]
pub enum ResolvedNode {
    Literal(LightValue),
    HeavyLiteral(HeavyValue),
    BuiltinCall { index: u16, arguments: Vec<ResolvedNode> },
    Call { arguments: Vec<ResolvedNode>, function_index: u32 },
    Pipeline(Vec<ResolvedNode>),
    /// Slot among the pipeline's captures, second coordinate, variable index.
    RelativeReference(u16, u16, u32),
    /// Slot among the pipeline's captures and variable index of a station's result.
    StationCapture(u16, u32),
    Variable(u16, u32),
    SoftAssignment(u16, u32),
    Assignment(u16, u32, Kind),
    DefineFunction { function_index: u32, body: AST },
    Condition { branches: Vec<ConditionBranch<ResolvedNode>>, final_branch: Vec<ResolvedNode> },
    Return(Box<ResolvedNode>),
    Array(Vec<ResolvedNode>),
}

/// A program element with the kind of every value known.
#[derive(Debug)]
pub enum TypedNode {
    Literal(LightValue),
    HeavyLiteral(HeavyValue),
    BuiltinCall { index: u16, arguments: Vec<TypedNode>, result: Kind },
    Call { function_index: u32, arguments: Vec<TypedNode>, result: Kind },
    Pipeline(Vec<TypedNode>),
    RelativeReference(u16, u16, Kind),
    StationCapture(u16, Kind),
    Variable(u16, Kind),
    Assignment(u16, Kind),
    DefineFunction { function_index: u32, body: TypedAST },
    Condition { branches: Vec<ConditionBranch<TypedNode>>, final_branch: Vec<TypedNode> },
    Return(Box<TypedNode>),
    Array(Vec<TypedNode>),
    Add(Vec<TypedNode>, Kind, Kind),
    Minus(Vec<TypedNode>, Kind, Kind),
    Multiply(Vec<TypedNode>, Kind, Kind),
    Equal(Vec<TypedNode>, Kind, Kind),
    LessThan(Vec<TypedNode>, Kind, Kind),
    GreaterThan(Vec<TypedNode>, Kind, Kind),
    LessThanOrEqual(Vec<TypedNode>, Kind, Kind),
    GreaterThanOrEqual(Vec<TypedNode>, Kind, Kind),
    NotEqual(Vec<TypedNode>, Kind, Kind),
}

/// A resolved program or function body, with its frame layout.
#[derive(Debug)]
pub struct AST {
    pub nodes: Vec<ResolvedNode>,
    pub variables_count: u16,
    pub arity: u8,
    pub max_relative_reference: u8,
}

/// A typed program or function body, with its frame layout.
#[derive(Debug)]
pub struct TypedAST {
    pub nodes: Vec<TypedNode>,
    pub variables_count: u16,
    pub arity: u8,
    pub max_relative_reference: u8,
}

} // verus!
