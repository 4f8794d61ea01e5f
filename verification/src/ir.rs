//! The typed intermediate representation of a P4 program.
//!
//! Names have been resolved: variables, functions and types are known by number.

use vstd::prelude::*;

verus! {

/// The number of a variable.
pub type VariableId = u64;

/// The number of an action.
pub type FunctionId = u64;

/// The number of a type.
pub type TypeId = u64;

/// A whole program.
#[derive(Debug, PartialEq)]
pub struct IrProgram {
    pub declarations: Vec<IrDeclaration>,
}

/// A declaration at the top level of a program.
#[derive(Debug, PartialEq)]
pub enum IrDeclaration {
    Constant(IrVariableDecl),
    Control(IrControlDecl),
    Instantiation(IrInstantiation),
}

/// A control block.
#[derive(Debug, PartialEq)]
pub struct IrControlDecl {
    pub local_decls: Vec<IrControlLocalDecl>,
    pub apply_body: IrBlockStatement,
}

/// A declaration inside a control block.
#[derive(Debug, PartialEq)]
pub enum IrControlLocalDecl {
    Variable(IrVariableDecl),
    Instantiation(IrInstantiation),
    Action(IrActionDecl),
    Table(IrTableDecl),
}

/// An action: a function of a control block.
#[derive(Debug, PartialEq)]
pub struct IrActionDecl {
    pub id: FunctionId,
    pub body: IrBlockStatement,
}

/// A match-action table.
#[derive(Debug, PartialEq)]
pub struct IrTableDecl {
    pub id: VariableId,
}

/// Statements and declarations that run in order.
#[derive(Debug, PartialEq)]
pub struct IrBlockStatement(pub Vec<IrStatementOrDecl>);

/// An element of a block.
#[derive(Debug, PartialEq)]
pub enum IrStatementOrDecl {
    Statement(IrStatement),
    VariableDecl(IrVariableDecl),
    Instantiation(IrInstantiation),
}

/// A statement.
#[derive(Debug, PartialEq)]
pub enum IrStatement {
    Block(IrBlockStatement),
    If(IrIfStatement),
    Assignment(IrAssignment),
    FunctionCall(IrFunctionCall),
}

/// The declaration of a variable or a constant.
#[derive(Debug, PartialEq)]
pub struct IrVariableDecl {
    pub id: VariableId,
    pub ty: IrType,
    pub is_const: bool,
    pub value: Option<IrExpr>,
}

/// The instantiation of a control block or a package.
#[derive(Debug, PartialEq)]
pub struct IrInstantiation {
    pub id: VariableId,
    pub ty: IrType,
}

/// An assignment to a variable.
#[derive(Debug, PartialEq)]
pub struct IrAssignment {
    pub var: VariableId,
    pub value: IrExpr,
}

/// A conditional.
#[derive(Debug, PartialEq)]
pub struct IrIfStatement {
    pub condition: IrExpr,
    pub then_case: Box<IrStatement>,
    pub else_case: Option<Box<IrStatement>>,
}

/// An expression with its type.
#[derive(Debug, PartialEq)]
pub struct IrExpr {
    pub ty: IrType,
    pub data: IrExprData,
}

/// What an expression computes.
#[derive(Debug, PartialEq)]
pub enum IrExprData {
    Bool(bool),
    Var(VariableId),
    And(Box<IrExpr>, Box<IrExpr>),
    Or(Box<IrExpr>, Box<IrExpr>),
    Negation(Box<IrExpr>),
    FunctionCall(IrFunctionCall),
}

/// A call of an action.
#[derive(Debug, PartialEq)]
pub struct IrFunctionCall {
    pub target: FunctionId,
    pub arguments: Vec<IrExpr>,
}

/// A type.
#[derive(Debug, PartialEq)]
pub enum IrType {
    Bool,
    Struct(IrStructType),
}

/// A struct, or a package such as a switch.
#[derive(Debug, PartialEq)]
pub struct IrStructType {
    pub id: TypeId,
}

} // verus!
