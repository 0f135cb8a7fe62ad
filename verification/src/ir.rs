//! The analyzed design that is turned into CSS.
//!
//! Variables are known by number. A construct that CSS cannot express is held as the text that
//! shows it to the user.

use vstd::prelude::*;

use crate::value::Value;

verus! {

/// An analyzed design.
pub struct Ir {
    pub components: Vec<Component>,
}

/// A top-level component of a design.
pub enum Component {
    Module(Module),
    Interface,
    SystemVerilog,
}

/// A module.
pub struct Module {
    pub name: String,
    /// The variables by number, in the order in which they are walked.
    pub variables: Vec<(u32, Variable)>,
    pub declarations: Vec<Declaration>,
}

/// A variable of a module.
pub struct Variable {
    /// The hierarchical name, its segments separated by dots.
    pub path: String,
    pub kind: VarKind,
    /// The type, as shown to the user.
    pub type_text: String,
}

/// What a variable is in its module.
#[derive(Clone, Copy, Debug, PartialEq, Eq, Structural)]
pub enum VarKind {
    Param,
    Const,
    Input,
    Output,
    Inout,
    Variable,
    Let,
}

/// A declaration in a module.
pub enum Declaration {
    Comb(CombDeclaration),
    Ff(FfDeclaration),
    Null,
    /// Any other declaration, as shown to the user.
    Other(String),
}

/// An `always_comb` block.
pub struct CombDeclaration {
    pub statements: Vec<Statement>,
}

/// An `always_ff` block.
pub struct FfDeclaration {
    pub clock: u32,
    pub reset: Option<u32>,
    pub statements: Vec<Statement>,
}

/// A statement.
pub enum Statement {
    Assign(AssignStatement),
    If(IfStatement),
    IfReset(IfResetStatement),
    Null,
    /// Any other statement, as shown to the user.
    Other(String),
}

/// An assignment.
pub struct AssignStatement {
    pub dst: Vec<AssignDestination>,
    pub expr: Expression,
}

/// What an assignment writes to.
pub struct AssignDestination {
    pub id: u32,
    /// The number of array dimensions that are indexed.
    pub dimension: usize,
    /// The bit or part select, empty where there is none.
    pub select: String,
}

/// A conditional statement.
pub struct IfStatement {
    pub cond: Expression,
    /// The condition, as shown to the user.
    pub cond_text: String,
    pub true_side: Vec<Statement>,
    pub false_side: Vec<Statement>,
}

/// A statement that is conditional on the reset.
pub struct IfResetStatement {
    pub true_side: Vec<Statement>,
    pub false_side: Vec<Statement>,
    /// The whole statement, as shown to the user.
    pub text: String,
}

/// An expression.
pub enum Expression {
    Term(Box<Factor>),
    Unary(Op, Box<Expression>),
    Binary(Box<Expression>, Op, Box<Expression>),
    /// Any other expression, as shown to the user.
    Other(String),
}

/// An operand.
pub enum Factor {
    Variable {
        id: u32,
        /// The number of array dimensions that are indexed.
        dimension: usize,
        /// The bit or part select, empty where there is none.
        select: String,
    },
    /// A constant, absent where it could not be evaluated.
    Value(Option<Value>),
    /// Any other operand, as shown to the user.
    Other(String),
}

/// An operator.
pub enum Op {
    Add,
    Sub,
    Mul,
    Div,
    Rem,
    Less,
    LessEq,
    Greater,
    GreaterEq,
    Eq,
    Ne,
    /// Any other operator, as shown to the user.
    Other(String),
}

/// How an operator is shown to the user.
pub open spec fn op_text(op: Op) -> Seq<char> {
    match op {
        Op::Add => "+"@,
        Op::Sub => "-"@,
        Op::Mul => "*"@,
        Op::Div => "/"@,
        Op::Rem => "%"@,
        Op::Less => "<:"@,
        Op::LessEq => "<="@,
        Op::Greater => ">:"@,
        Op::GreaterEq => ">="@,
        Op::Eq => "=="@,
        Op::Ne => "!="@,
        Op::Other(text) => text@,
    }
}

/// The `Display` format of `veryl_analyzer::ir::Op`, which is the operator's symbol in Veryl.
#[verifier::external_body]
fn display_op(op: &Op) -> (text: String)
    requires
        !(op is Other),
    ensures
        text@ == op_text(*op),
{
    let op = match op {
        Op::Add => veryl_analyzer::ir::Op::Add,
        Op::Sub => veryl_analyzer::ir::Op::Sub,
        Op::Mul => veryl_analyzer::ir::Op::Mul,
        Op::Div => veryl_analyzer::ir::Op::Div,
        Op::Rem => veryl_analyzer::ir::Op::Rem,
        Op::Less => veryl_analyzer::ir::Op::Less,
        Op::LessEq => veryl_analyzer::ir::Op::LessEq,
        Op::Greater => veryl_analyzer::ir::Op::Greater,
        Op::GreaterEq => veryl_analyzer::ir::Op::GreaterEq,
        Op::Eq => veryl_analyzer::ir::Op::Eq,
        Op::Ne | Op::Other(_) => veryl_analyzer::ir::Op::Ne,
    };
    op.to_string()
}

/// Shows an operator to the user.
pub fn show_op(op: &Op) -> (text: String)
    ensures
        text@ == op_text(*op),
{
    match op {
        Op::Other(text) => text.clone(),
        _ => display_op(op),
    }
}

} // verus!
