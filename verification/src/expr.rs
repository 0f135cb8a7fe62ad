//! Expressions and conditions.

use std::collections::BTreeMap;

use vstd::prelude::*;

use crate::constant::{value_css, value_to_css_int};
use crate::context::Ctx;
use crate::css::{CompFn, CssCond, CssValue};
use crate::error::{text_outcome, Error};
use crate::ir::{op_text, show_op, AssignDestination, AssignStatement, Expression, Factor, Op};
use crate::order::views;
use crate::text::{nat_text, u128_text};

verus! {

broadcast use vstd::std_specs::btree::group_btree_axioms;

/// How a variable's number is shown to the user.
pub open spec fn id_text(id: u32) -> Seq<char> {
    "var"@ + nat_text(id as nat)
}

/// Shows a variable's number to the user.
pub fn show_id(id: u32) -> (s: String)
    ensures
        s@ == id_text(id),
{
    let mut s = "var".to_owned();
    s.append(&u128_text(id as u128));
    s
}

/// A value as it is written.
pub open spec fn written(value: Result<CssValue, Seq<char>>) -> Result<Seq<char>, Seq<char>> {
    match value {
        Ok(value) => Ok(value.text()),
        Err(message) => Err(message),
    }
}

/// The CSS value of an operand.
pub open spec fn factor_css(factor: Factor, names: Map<u32, Seq<char>>) -> Result<
    CssValue,
    Seq<char>,
> {
    match factor {
        Factor::Variable { id, dimension, select } => if dimension != 0 {
            Err("array indexing is unsupported"@)
        } else if select@.len() != 0 {
            Err("bit/part-select is unsupported"@)
        } else if names.contains_key(id) {
            Ok(CssValue::Var(names[id]))
        } else {
            Err("unknown variable id: "@ + id_text(id))
        },
        Factor::Value(None) => Err("failed to evaluate literal value"@),
        Factor::Value(Some(value)) => match value_css(value) {
            Ok(numeral) => Ok(CssValue::Int(numeral)),
            Err(message) => Err(message),
        },
        Factor::Other(text) => Err("unsupported factor: "@ + text@),
    }
}

/// The CSS value of an operation on two values.
pub open spec fn binary_css(op: Op, l: CssValue, r: CssValue) -> Result<CssValue, Seq<char>> {
    match op {
        Op::Add => Ok(CssValue::Add(Box::new(l), Box::new(r))),
        Op::Sub => Ok(CssValue::Sub(Box::new(l), Box::new(r))),
        Op::Mul => Ok(CssValue::Mul(Box::new(l), Box::new(r))),
        Op::Div => Ok(CssValue::Div(Box::new(l), Box::new(r))),
        Op::Rem => Ok(CssValue::Rem(Box::new(l), Box::new(r))),
        _ => Err("unsupported binary operator: "@ + op_text(op)),
    }
}

/// The CSS value of an expression, operands before their operators.
pub open spec fn expr_css(expr: Expression, names: Map<u32, Seq<char>>) -> Result<
    CssValue,
    Seq<char>,
>
    decreases expr,
{
    match expr {
        Expression::Term(factor) => factor_css(*factor, names),
        Expression::Unary(op, inner) => match expr_css(*inner, names) {
            Err(message) => Err(message),
            Ok(x) => match op {
                Op::Add => Ok(x),
                Op::Sub => Ok(CssValue::Neg(Box::new(x))),
                _ => Err("unsupported unary operator: "@ + op_text(op)),
            },
        },
        Expression::Binary(lhs, op, rhs) => match expr_css(*lhs, names) {
            Err(message) => Err(message),
            Ok(l) => match expr_css(*rhs, names) {
                Err(message) => Err(message),
                Ok(r) => binary_css(op, l, r),
            },
        },
        Expression::Other(text) => Err("unsupported expression: "@ + text@),
    }
}

/// Writes an operand.
pub fn emit_factor(factor: &Factor, names: &BTreeMap<u32, String>) -> (r: Result<String, Error>)
    ensures
        text_outcome(r) == written(factor_css(*factor, views(names@))),
{
    match factor {
        Factor::Variable { id, dimension, select } => {
            if *dimension != 0 {
                return Err(Error::new("array indexing is unsupported"));
            }
            if !select.as_str().is_empty() {
                return Err(Error::new("bit/part-select is unsupported"));
            }
            match names.get(id) {
                Some(css_name) => {
                    assert(views(names@)[*id] == css_name@);
                    let mut s = "var(".to_owned();
                    s.append(css_name);
                    s.append(")");
                    Ok(s)
                },
                None => Err(Error::about("unknown variable id: ", &show_id(*id))),
            }
        },
        Factor::Value(None) => Err(Error::new("failed to evaluate literal value")),
        Factor::Value(Some(value)) => value_to_css_int(value),
        Factor::Other(text) => Err(Error::about("unsupported factor: ", text)),
    }
}

/// How an operation on two written values is written.
pub open spec fn binary_text(op: Op, lhs: Seq<char>, rhs: Seq<char>) -> Result<
    Seq<char>,
    Seq<char>,
> {
    match op {
        Op::Add => Ok("calc(("@ + lhs + ") + ("@ + rhs + "))"@),
        Op::Sub => Ok("calc(("@ + lhs + ") - ("@ + rhs + "))"@),
        Op::Mul => Ok("calc(("@ + lhs + ") * ("@ + rhs + "))"@),
        Op::Div => Ok("round(to-zero, calc(("@ + lhs + ") / ("@ + rhs + ")), 1)"@),
        Op::Rem => Ok("rem(("@ + lhs + "), ("@ + rhs + "))"@),
        _ => Err("unsupported binary operator: "@ + op_text(op)),
    }
}

/// Writes an operation on two values.
pub fn emit_binary(op: &Op, lhs: &str, rhs: &str) -> (r: Result<String, Error>)
    ensures
        text_outcome(r) == binary_text(*op, lhs@, rhs@),
{
    let (open, middle, close) = match op {
        Op::Add => ("calc((", ") + (", "))"),
        Op::Sub => ("calc((", ") - (", "))"),
        Op::Mul => ("calc((", ") * (", "))"),
        Op::Div => ("round(to-zero, calc((", ") / (", ")), 1)"),
        Op::Rem => ("rem((", "), (", "))"),
        _ => {
            return Err(Error::about("unsupported binary operator: ", &show_op(op)));
        },
    };
    let mut s = open.to_owned();
    s.append(lhs);
    s.append(middle);
    s.append(rhs);
    s.append(close);
    Ok(s)
}

/// Writes an expression.
pub fn emit_expr(expr: &Expression, names: &BTreeMap<u32, String>) -> (r: Result<String, Error>)
    ensures
        text_outcome(r) == written(expr_css(*expr, views(names@))),
    decreases expr,
{
    match expr {
        Expression::Term(factor) => emit_factor(factor, names),
        Expression::Unary(op, inner) => {
            let inner = emit_expr(inner, names)?;
            match op {
                Op::Add => Ok(inner),
                Op::Sub => {
                    let mut s = "calc(-1 * (".to_owned();
                    s.append(&inner);
                    s.append("))");
                    Ok(s)
                },
                _ => Err(Error::about("unsupported unary operator: ", &show_op(op))),
            }
        },
        Expression::Binary(lhs, op, rhs) => {
            let lhs = emit_expr(lhs, names)?;
            let rhs = emit_expr(rhs, names)?;
            emit_binary(op, &lhs, &rhs)
        },
        Expression::Other(text) => Err(Error::about("unsupported expression: ", text)),
    }
}

/// The comparison that an operator makes, if it makes one.
pub open spec fn comparison(op: Op) -> Option<CompFn> {
    match op {
        Op::Less => Some(CompFn::Lt),
        Op::LessEq => Some(CompFn::Lte),
        Op::Greater => Some(CompFn::Gt),
        Op::GreaterEq => Some(CompFn::Gte),
        Op::Eq => Some(CompFn::Eq),
        Op::Ne => Some(CompFn::Neq),
        _ => None,
    }
}

/// The comparison that a condition comes to. `text` shows the condition to the user.
pub open spec fn condition_css(
    expr: Expression,
    text: Seq<char>,
    names: Map<u32, Seq<char>>,
) -> Result<CssCond, Seq<char>> {
    match expr {
        Expression::Binary(lhs, op, rhs) => match expr_css(*lhs, names) {
            Err(message) => Err(message),
            Ok(l) => match expr_css(*rhs, names) {
                Err(message) => Err(message),
                Ok(r) => match comparison(op) {
                    Some(f) => Ok(CssCond { f, l, r }),
                    None => Err("unsupported condition operator: "@ + op_text(op)),
                },
            },
        },
        _ => Err("unsupported condition expression: "@ + text),
    }
}

/// Writes a condition as a CSS value that resolves to 0 or 1, and notes the comparison it uses.
pub fn emit_condition(expr: &Expression, text: &str, ctx: &mut Ctx) -> (r: Result<String, Error>)
    requires
        old(ctx).wf(),
    ensures
        final(ctx).wf(),
        final(ctx).names == old(ctx).names,
        final(ctx).cond_counter == old(ctx).cond_counter,
        match condition_css(*expr, text@, views(old(ctx).names@)) {
            Ok(cond) => {
                &&& r matches Ok(css) && css@ == cond.text()
                &&& final(ctx).used_comp_fns@ == old(ctx).used_comp_fns@.insert(cond.f)
            },
            Err(message) => {
                &&& r matches Err(error) && error.message@ == message
                &&& final(ctx).used_comp_fns == old(ctx).used_comp_fns
            },
        },
{
    match expr {
        Expression::Binary(lhs, op, rhs) => {
            let l = emit_expr(lhs, ctx.names)?;
            let r = emit_expr(rhs, ctx.names)?;
            let comp = match op {
                Op::Less => CompFn::Lt,
                Op::LessEq => CompFn::Lte,
                Op::Greater => CompFn::Gt,
                Op::GreaterEq => CompFn::Gte,
                Op::Eq => CompFn::Eq,
                Op::Ne => CompFn::Neq,
                _ => {
                    return Err(Error::about("unsupported condition operator: ", &show_op(op)));
                },
            };
            ctx.used_comp_fns.insert(comp);
            let mut s = comp.name().to_owned();
            s.append("(");
            s.append(&l);
            s.append(", ");
            s.append(&r);
            s.append(")");
            Ok(s)
        },
        _ => Err(Error::about("unsupported condition expression: ", text)),
    }
}

/// The variable that an assignment writes and the value that it writes there.
pub open spec fn assign_css(assign: AssignStatement, names: Map<u32, Seq<char>>) -> Result<
    (u32, CssValue),
    Seq<char>,
> {
    if assign.dst@.len() != 1 {
        Err("only single-destination assignments are supported"@)
    } else if assign.dst@[0].dimension != 0 {
        Err("array destination is unsupported"@)
    } else if assign.dst@[0].select@.len() != 0 {
        Err("bit/part-select destination is unsupported"@)
    } else {
        match expr_css(assign.expr, names) {
            Ok(value) => Ok((assign.dst@[0].id, value)),
            Err(message) => Err(message),
        }
    }
}

/// Takes an assignment to a single whole variable apart.
pub fn unpack_assign_expr<'a>(assign: &'a AssignStatement, names: &BTreeMap<u32, String>) -> (r:
    Result<(&'a AssignDestination, String), Error>)
    ensures
        match assign_css(*assign, views(names@)) {
            Ok((id, value)) => {
                &&& r matches Ok((dst, expr))
                &&& *dst == assign.dst@[0]
                &&& dst.id == id
                &&& expr@ == value.text()
            },
            Err(message) => r matches Err(error) && error.message@ == message,
        },
{
    if assign.dst.len() != 1 {
        return Err(Error::new("only single-destination assignments are supported"));
    }
    let dst = &assign.dst[0];
    if dst.dimension != 0 {
        return Err(Error::new("array destination is unsupported"));
    }
    if !dst.select.as_str().is_empty() {
        return Err(Error::new("bit/part-select destination is unsupported"));
    }
    let expr = emit_expr(&assign.expr, names)?;
    Ok((dst, expr))
}

} // verus!
