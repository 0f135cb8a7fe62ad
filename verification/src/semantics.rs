//! What designs and style sheets compute, over the integers.

use vstd::prelude::*;

use crate::branch::{branch_css, if_css, law_if_balanced};
use crate::constant::{constant_value, is_exact, law_constant_value};
use crate::css::{cond_name, CompFn, CssCond, CssValue};
use crate::expr::{condition_css, expr_css};
use crate::ir::{Expression, Factor, IfStatement, Op, Statement};
use crate::text::{digit_char, int_text, nat_text};

verus! {

/// The quotient of two integers, rounded toward zero.
pub open spec fn quotient(a: int, b: int) -> int {
    let magnitude = vstd::math::abs(a) as int / vstd::math::abs(b) as int;
    if (a < 0) == (b < 0) {
        magnitude
    } else {
        -magnitude
    }
}

/// What is left of a division that is rounded toward zero.
pub open spec fn remainder(a: int, b: int) -> int {
    a - b * quotient(a, b)
}

/// Whether a comparison holds.
pub open spec fn holds(f: CompFn, a: int, b: int) -> bool {
    match f {
        CompFn::Lt => a < b,
        CompFn::Lte => a <= b,
        CompFn::Gt => a > b,
        CompFn::Gte => a >= b,
        CompFn::Eq => a == b,
        CompFn::Neq => a != b,
    }
}

/// The number that decimal digits denote.
pub open spec fn numeral_nat(s: Seq<char>) -> nat
    decreases s.len(),
{
    if s.len() == 0 {
        0
    } else {
        numeral_nat(s.drop_last()) * 10 + (s.last() as int - '0' as int) as nat
    }
}

/// The integer that a CSS integer denotes.
pub open spec fn numeral_int(s: Seq<char>) -> int {
    if s.len() > 0 && s.first() == '-' {
        -(numeral_nat(s.drop_first()) as int)
    } else {
        numeral_nat(s) as int
    }
}

proof fn lemma_nat_numeral(n: nat)
    ensures
        numeral_nat(nat_text(n)) == n,
    decreases n,
{
    let s = nat_text(n);
    if n < 10 {
        assert(s.drop_last() == Seq::<char>::empty());
        assert(numeral_nat(Seq::<char>::empty()) == 0);
        assert(s.last() == digit_char(n));
    } else {
        lemma_nat_numeral(n / 10);
        assert(s.drop_last() == nat_text(n / 10));
        assert(s.last() == digit_char(n % 10));
    }
}

/// Law: the numeral of an integer denotes that integer.
pub proof fn law_numeral_denotes(n: int)
    ensures
        numeral_int(int_text(n)) == n,
{
    if n < 0 {
        lemma_nat_numeral((-n) as nat);
        assert(int_text(n).drop_first() == nat_text((-n) as nat));
    } else {
        lemma_nat_numeral(n as nat);
        crate::text::lemma_nat_text_digits(n as nat);
        assert('0' <= nat_text(n as nat)[0]);
    }
}

/// What a CSS value comes to where custom properties have the given values.
pub open spec fn css_value(value: CssValue, env: Map<Seq<char>, int>) -> int
    decreases value,
{
    match value {
        CssValue::Int(numeral) => numeral_int(numeral),
        CssValue::Var(name) => env[name],
        CssValue::VarOrZero(name) => if env.contains_key(name) {
            env[name]
        } else {
            0
        },
        CssValue::Neg(x) => -1 * css_value(*x, env),
        CssValue::Add(l, r) => css_value(*l, env) + css_value(*r, env),
        CssValue::Sub(l, r) => css_value(*l, env) - css_value(*r, env),
        CssValue::Mul(l, r) => css_value(*l, env) * css_value(*r, env),
        CssValue::Div(l, r) => quotient(css_value(*l, env), css_value(*r, env)),
        CssValue::Rem(l, r) => remainder(css_value(*l, env), css_value(*r, env)),
        CssValue::IfCond(n, t, f) => if env[cond_name(n)] == 1 {
            css_value(*t, env)
        } else {
            css_value(*f, env)
        },
        CssValue::IfReset(t, f) => if env["--rst"@] == 1 {
            css_value(*t, env)
        } else {
            css_value(*f, env)
        },
    }
}

/// What a condition comes to: 1 where its comparison holds, else 0.
pub open spec fn cond_value(cond: CssCond, env: Map<Seq<char>, int>) -> int {
    if holds(cond.f, css_value(cond.l, env), css_value(cond.r, env)) {
        1
    } else {
        0
    }
}

/// The value of an operand where variables have the given values.
pub open spec fn factor_value(factor: Factor, state: spec_fn(u32) -> int) -> int {
    match factor {
        Factor::Variable { id, .. } => state(id),
        Factor::Value(Some(value)) => constant_value(value),
        _ => 0,
    }
}

/// The value of an expression where variables have the given values.
pub open spec fn expr_value(expr: Expression, state: spec_fn(u32) -> int) -> int
    decreases expr,
{
    match expr {
        Expression::Term(factor) => factor_value(*factor, state),
        Expression::Unary(op, inner) => match op {
            Op::Add => expr_value(*inner, state),
            Op::Sub => -expr_value(*inner, state),
            _ => 0,
        },
        Expression::Binary(lhs, op, rhs) => {
            let l = expr_value(*lhs, state);
            let r = expr_value(*rhs, state);
            match op {
                Op::Add => l + r,
                Op::Sub => l - r,
                Op::Mul => l * r,
                Op::Div => quotient(l, r),
                Op::Rem => remainder(l, r),
                _ => 0,
            }
        },
        Expression::Other(_) => 0,
    }
}

/// Whether a condition holds where variables have the given values.
pub open spec fn cond_holds(expr: Expression, state: spec_fn(u32) -> int) -> bool {
    match expr {
        Expression::Binary(lhs, op, rhs) => {
            let l = expr_value(*lhs, state);
            let r = expr_value(*rhs, state);
            match op {
                Op::Less => l < r,
                Op::LessEq => l <= r,
                Op::Greater => l > r,
                Op::GreaterEq => l >= r,
                Op::Eq => l == r,
                Op::Ne => l != r,
                _ => false,
            }
        },
        _ => false,
    }
}

/// Whether all constants in an expression are exact.
pub open spec fn expr_exact(expr: Expression) -> bool
    decreases expr,
{
    match expr {
        Expression::Term(factor) => match *factor {
            Factor::Value(Some(value)) => is_exact(value),
            _ => true,
        },
        Expression::Unary(_, inner) => expr_exact(*inner),
        Expression::Binary(lhs, _, rhs) => expr_exact(*lhs) && expr_exact(*rhs),
        Expression::Other(_) => true,
    }
}

/// Whether custom properties have the values of the variables that they stand for.
pub open spec fn agrees(
    env: Map<Seq<char>, int>,
    names: Map<u32, Seq<char>>,
    state: spec_fn(u32) -> int,
) -> bool {
    forall|id: u32| #[trigger] names.contains_key(id) ==> env[names[id]] == state(id)
}

/// Law: an expression is turned into a CSS value that computes what the expression computes,
/// where custom properties have the values of the variables that they stand for.
pub proof fn law_expr_value(
    expr: Expression,
    names: Map<u32, Seq<char>>,
    env: Map<Seq<char>, int>,
    state: spec_fn(u32) -> int,
)
    requires
        expr_css(expr, names) is Ok,
        expr_exact(expr),
        agrees(env, names, state),
    ensures
        css_value(expr_css(expr, names)->Ok_0, env) == expr_value(expr, state),
    decreases expr,
{
    match expr {
        Expression::Term(factor) => {
            if let Factor::Value(Some(value)) = *factor {
                law_constant_value(value);
                law_numeral_denotes(constant_value(value));
            }
        },
        Expression::Unary(_, inner) => {
            law_expr_value(*inner, names, env, state);
        },
        Expression::Binary(lhs, _, rhs) => {
            law_expr_value(*lhs, names, env, state);
            law_expr_value(*rhs, names, env, state);
        },
        Expression::Other(_) => {},
    }
}

/// Law: a condition is turned into a comparison that is 1 where the condition holds, and 0 where
/// it does not.
pub proof fn law_cond_value(
    expr: Expression,
    text: Seq<char>,
    names: Map<u32, Seq<char>>,
    env: Map<Seq<char>, int>,
    state: spec_fn(u32) -> int,
)
    requires
        condition_css(expr, text, names) is Ok,
        expr_exact(expr),
        agrees(env, names, state),
    ensures
        cond_value(condition_css(expr, text, names)->Ok_0, env) == (if cond_holds(expr, state) {
            1int
        } else {
            0
        }),
{
    if let Expression::Binary(lhs, _, rhs) = expr {
        law_expr_value(*lhs, names, env, state);
        law_expr_value(*rhs, names, env, state);
    }
}

/// The values that a statement assigns, where variables have the given values. All statements
/// inside read those same values; of assignments to one variable the last one counts. A variable
/// that only one side of a reset assigns is assigned there in either case.
pub open spec fn statement_writes(stmt: Statement, state: spec_fn(u32) -> int, reset: bool) -> Map<
    u32,
    int,
>
    decreases stmt,
{
    match stmt {
        Statement::Assign(assign) => map![assign.dst@[0].id => expr_value(assign.expr, state)],
        Statement::If(s) => if cond_holds(s.cond, state) {
            writes(s.true_side@, state, reset)
        } else {
            writes(s.false_side@, state, reset)
        },
        Statement::IfReset(s) => if reset {
            writes(s.false_side@, state, reset).union_prefer_right(
                writes(s.true_side@, state, reset),
            )
        } else {
            writes(s.true_side@, state, reset).union_prefer_right(
                writes(s.false_side@, state, reset),
            )
        },
        Statement::Null => Map::empty(),
        Statement::Other(_) => Map::empty(),
    }
}

/// The values that statements assign, where variables have the given values.
pub open spec fn writes(stmts: Seq<Statement>, state: spec_fn(u32) -> int, reset: bool) -> Map<
    u32,
    int,
>
    decreases stmts,
{
    if stmts.len() == 0 {
        Map::empty()
    } else {
        writes(stmts.drop_last(), state, reset).union_prefer_right(
            statement_writes(stmts.last(), state, reset),
        )
    }
}

/// Whether all constants in a statement are exact.
pub open spec fn statement_exact(stmt: Statement) -> bool
    decreases stmt,
{
    match stmt {
        Statement::Assign(assign) => expr_exact(assign.expr),
        Statement::If(s) => expr_exact(s.cond) && statements_exact(s.true_side@)
            && statements_exact(s.false_side@),
        Statement::IfReset(s) => statements_exact(s.true_side@) && statements_exact(s.false_side@),
        Statement::Null => true,
        Statement::Other(_) => true,
    }
}

/// Whether all constants in statements are exact.
pub open spec fn statements_exact(stmts: Seq<Statement>) -> bool
    decreases stmts,
{
    stmts.len() > 0 ==> statements_exact(stmts.drop_last()) && statement_exact(stmts.last())
}

/// Whether the custom properties of conditions have the values of the conditions.
pub open spec fn conds_set(env: Map<Seq<char>, int>, n: nat, conds: Seq<CssCond>) -> bool {
    forall|i: int|
        0 <= i < conds.len() ==> env[cond_name((n + i) as nat)] == cond_value(
            #[trigger] conds[i],
            env,
        )
}

/// What CSS values come to.
pub open spec fn css_values(values: Map<u32, CssValue>, env: Map<Seq<char>, int>) -> Map<u32, int> {
    values.map_values(|value: CssValue| css_value(value, env))
}

/// The conditions of joined parts are set if and only if those of each part are.
pub proof fn lemma_conds_set_add(
    env: Map<Seq<char>, int>,
    n: nat,
    a: Seq<CssCond>,
    b: Seq<CssCond>,
)
    ensures
        conds_set(env, n, a + b) <==> conds_set(env, n, a) && conds_set(env, n + a.len(), b),
{
    let c = a + b;
    if conds_set(env, n, c) {
        assert forall|i: int| 0 <= i < a.len() implies env[cond_name((n + i) as nat)] == cond_value(
            #[trigger] a[i],
            env,
        ) by {
            assert(c[i] == a[i]);
        }
        assert forall|i: int|
            0 <= i < b.len() implies env[cond_name((n + a.len() + i) as nat)] == cond_value(
            #[trigger] b[i],
            env,
        ) by {
            assert(c[a.len() + i] == b[i]);
            assert(n + a.len() + i == n + (a.len() + i));
        }
    }
    if conds_set(env, n, a) && conds_set(env, n + a.len(), b) {
        assert forall|i: int| 0 <= i < c.len() implies env[cond_name((n + i) as nat)] == cond_value(
            #[trigger] c[i],
            env,
        ) by {
            if i < a.len() {
                assert(c[i] == a[i]);
            } else {
                assert(c[i] == b[i - a.len()]);
                assert((n + a.len() + (i - a.len())) as nat == (n + i) as nat);
            }
        }
    }
}

/// Law: a list of statements is turned into values that compute what the statements assign, where
/// custom properties have the values of the variables and conditions that they stand for.
pub proof fn law_branch_value(
    stmts: Seq<Statement>,
    names: Map<u32, Seq<char>>,
    n: nat,
    env: Map<Seq<char>, int>,
    state: spec_fn(u32) -> int,
    reset: bool,
)
    requires
        branch_css(stmts, names, n) is Ok,
        statements_exact(stmts),
        agrees(env, names, state),
        conds_set(env, n, branch_css(stmts, names, n)->Ok_0.conds),
    ensures
        css_values(branch_css(stmts, names, n)->Ok_0.values, env) == writes(stmts, state, reset),
    decreases stmts,
{
    let all = branch_css(stmts, names, n)->Ok_0;
    if stmts.len() == 0 {
        assert(css_values(all.values, env) == Map::<u32, int>::empty());
    } else {
        let before = branch_css(stmts.drop_last(), names, n)->Ok_0;
        let last = statement_writes(stmts.last(), state, reset);
        assert(statement_exact(stmts.last()));
        match stmts.last() {
            Statement::Assign(assign) => {
                law_branch_value(stmts.drop_last(), names, n, env, state, reset);
                law_expr_value(assign.expr, names, env, state);
                assert(css_values(all.values, env) == writes(stmts, state, reset));
            },
            Statement::If(stmt) => {
                let nested = if_css(stmt, names, n + before.conds.len())->Ok_0;
                lemma_conds_set_add(env, n, before.conds, nested.conds);
                law_branch_value(stmts.drop_last(), names, n, env, state, reset);
                law_if_value(stmt, names, n + before.conds.len(), env, state, reset);
                assert(css_values(all.values, env) == css_values(
                    before.values,
                    env,
                ).union_prefer_right(css_values(nested.values, env)));
            },
            _ => {
                law_branch_value(stmts.drop_last(), names, n, env, state, reset);
                assert(css_values(all.values, env) == writes(stmts, state, reset));
            },
        }
    }
}

/// Law: a conditional statement is turned into values that compute what the statement assigns,
/// where custom properties have the values of the variables and conditions that they stand for.
pub proof fn law_if_value(
    stmt: IfStatement,
    names: Map<u32, Seq<char>>,
    n: nat,
    env: Map<Seq<char>, int>,
    state: spec_fn(u32) -> int,
    reset: bool,
)
    requires
        if_css(stmt, names, n) is Ok,
        statement_exact(Statement::If(stmt)),
        agrees(env, names, state),
        conds_set(env, n, if_css(stmt, names, n)->Ok_0.conds),
    ensures
        css_values(if_css(stmt, names, n)->Ok_0.values, env) == statement_writes(
            Statement::If(stmt),
            state,
            reset,
        ),
    decreases stmt,
{
    let all = if_css(stmt, names, n)->Ok_0;
    let cond = condition_css(stmt.cond, stmt.cond_text@, names)->Ok_0;
    let t = branch_css(stmt.true_side@, names, n + 1)->Ok_0;
    let f = branch_css(stmt.false_side@, names, n + 1 + t.conds.len())->Ok_0;
    law_if_balanced(stmt, names, n);
    lemma_conds_set_add(env, n, seq![cond] + t.conds, f.conds);
    lemma_conds_set_add(env, n, seq![cond], t.conds);
    law_branch_value(stmt.true_side@, names, n + 1, env, state, reset);
    law_branch_value(stmt.false_side@, names, n + 1 + t.conds.len(), env, state, reset);
    law_cond_value(stmt.cond, stmt.cond_text@, names, env, state);
    assert(env[cond_name(n)] == cond_value(cond, env)) by {
        assert(seq![cond][0] == cond);
        assert((n + 0) as nat == n);
    }
    let chosen = if cond_holds(stmt.cond, state) {
        t.values
    } else {
        f.values
    };
    assert(css_values(all.values, env) == css_values(chosen, env));
}

} // verus!
