//! Why a design has no style sheet, and what parts of one come to together.

use vstd::prelude::*;

use crate::branch::{branch_css, if_css, lemma_select, select_values, Branch};
use crate::css::{cond_lines, CssLine, CssValue};
use crate::expr::{
    assign_css, binary_css, binary_text, condition_css, expr_css, factor_css, id_text,
};
use crate::ir::{
    op_text, Declaration, Expression, Factor, IfResetStatement, IfStatement, Ir, Op, Statement,
    Variable,
};
use crate::module::{comb_css, declarations_css, ff_css, ir_css, modules_of};
use crate::naming::is_accepted;
use crate::order::ascending;
use crate::reading::{law_written_value, readable, text_value};
use crate::semantics::{css_value, law_numeral_denotes, quotient, remainder};
use crate::signal::{signal_map, FfRoles, SignalMap};
use crate::statement::{
    assign_lines, assigned_lines, comb_statement_css, ff_statement_css, ff_statement_lines,
    if_block, if_lines, lemma_assigned_lines, reset_values, Block,
};
use crate::text::nat_text;

verus! {

/// Law: an operation is refused for the first of its operands that is refused, whatever the
/// operator, and so is a condition.
pub proof fn law_operand_refused(
    lhs: Box<Expression>,
    op: Op,
    rhs: Box<Expression>,
    text: Seq<char>,
    names: Map<u32, Seq<char>>,
)
    ensures
        expr_css(*lhs, names) matches Err(message) ==> {
            &&& expr_css(Expression::Unary(op, lhs), names) == Err::<CssValue, _>(message)
            &&& expr_css(Expression::Binary(lhs, op, rhs), names) == Err::<CssValue, _>(message)
            &&& condition_css(Expression::Binary(lhs, op, rhs), text, names) matches Err(other)
            &&& other == message
        },
        expr_css(*lhs, names) is Ok ==> (expr_css(*rhs, names) matches Err(message) ==> {
            &&& expr_css(Expression::Binary(lhs, op, rhs), names) == Err::<CssValue, _>(message)
            &&& condition_css(Expression::Binary(lhs, op, rhs), text, names) matches Err(other)
            &&& other == message
        }),
{
}

/// Variables are told apart by how they are shown.
proof fn lemma_ids_told_apart(a: u32, b: u32)
    requires
        id_text(a) == id_text(b),
    ensures
        a == b,
{
    reveal_strlit("var");
    assert(id_text(a).skip(3) == nat_text(a as nat));
    assert(id_text(b).skip(3) == nat_text(b as nat));
    law_numeral_denotes(a as int);
    law_numeral_denotes(b as int);
}

/// Law: an unknown variable is refused with a message that tells it from every other one.
pub proof fn law_unknown_told(a: Factor, b: Factor, names: Map<u32, Seq<char>>)
    requires
        a matches Factor::Variable { id, dimension, select } && dimension == 0 && select@.len() == 0
            && !names.contains_key(id),
        b matches Factor::Variable { id, dimension, select } && dimension == 0 && select@.len() == 0
            && !names.contains_key(id),
        factor_css(a, names) == factor_css(b, names),
    ensures
        a->Variable_id == b->Variable_id,
{
    reveal_strlit("unknown variable id: ");
    let head = "unknown variable id: "@;
    let x = id_text(a->Variable_id);
    let y = id_text(b->Variable_id);
    assert((head + x).skip(head.len() as int) == x);
    assert((head + y).skip(head.len() as int) == y);
    lemma_ids_told_apart(a->Variable_id, b->Variable_id);
}

/// Whether a message ends with a text that it is about.
pub open spec fn about(message: Seq<char>, text: Seq<char>) -> bool {
    text.len() < message.len() && message.skip(message.len() - text.len()) == text
}

proof fn lemma_about(head: Seq<char>, text: Seq<char>)
    requires
        head.len() > 0,
    ensures
        about(head + text, text),
{
    assert((head + text).skip(head.len() as int) == text);
}

/// Law: what is unsupported as a whole is refused with a message that ends with how it is shown.
pub proof fn law_unsupported_shown(
    text: String,
    reset: IfResetStatement,
    names: Map<u32, Seq<char>>,
    next: Map<u32, Seq<char>>,
    n: nat,
)
    ensures
        factor_css(Factor::Other(text), names) matches Err(message) && about(message, text@),
        expr_css(Expression::Other(text), names) matches Err(message) && about(message, text@),
        comb_statement_css(Statement::Other(text), names, n) matches Err(message) && about(
            message,
            text@,
        ),
        comb_statement_css(Statement::IfReset(reset), names, n) matches Err(message) && about(
            message,
            reset.text@,
        ),
        ff_statement_css(Statement::Other(text), names, next, n) matches Err(message) && about(
            message,
            text@,
        ),
        branch_css(seq![Statement::Other(text)], names, n) matches Err(message) && about(
            message,
            text@,
        ),
        branch_css(seq![Statement::IfReset(reset)], names, n) matches Err(message) && about(
            message,
            reset.text@,
        ),
        declarations_css(seq![Declaration::Other(text)], names, next) matches Err(message) && about(
            message,
            text@,
        ),
{
    reveal_strlit("unsupported factor: ");
    reveal_strlit("unsupported expression: ");
    reveal_strlit("unsupported statement: ");
    reveal_strlit("unsupported ff statement: ");
    reveal_strlit("unsupported statement in branch: ");
    reveal_strlit("unsupported declaration: ");
    lemma_about("unsupported factor: "@, text@);
    lemma_about("unsupported expression: "@, text@);
    lemma_about("unsupported statement: "@, text@);
    lemma_about("unsupported statement: "@, reset.text@);
    lemma_about("unsupported ff statement: "@, text@);
    lemma_about("unsupported statement in branch: "@, text@);
    lemma_about("unsupported statement in branch: "@, reset.text@);
    lemma_about("unsupported declaration: "@, text@);
    let a = seq![Statement::Other(text)];
    let b = seq![Statement::IfReset(reset)];
    let c = seq![Declaration::Other(text)];
    assert(a.drop_last() == Seq::<Statement>::empty());
    assert(b.drop_last() == Seq::<Statement>::empty());
    assert(c.drop_last() == Seq::<Declaration>::empty());
    assert(branch_css(a.drop_last(), names, n) is Ok);
    assert(branch_css(b.drop_last(), names, n) is Ok);
    assert(declarations_css(c.drop_last(), names, next) is Ok);
}

/// Law: an operator that is unsupported between accepted operands is refused with a message that
/// ends with the operator, and so is a comparison by no comparison operator.
pub proof fn law_operator_shown(
    lhs: Box<Expression>,
    op: Op,
    rhs: Box<Expression>,
    text: Seq<char>,
    names: Map<u32, Seq<char>>,
)
    requires
        expr_css(*lhs, names) is Ok,
        expr_css(*rhs, names) is Ok,
    ensures
        !(op is Add || op is Sub) ==> (expr_css(Expression::Unary(op, lhs), names) matches Err(
            message,
        ) && about(message, op_text(op))),
        !(op is Add || op is Sub || op is Mul || op is Div || op is Rem) ==> (expr_css(
            Expression::Binary(lhs, op, rhs),
            names,
        ) matches Err(message) && about(message, op_text(op))),
        !(op is Less || op is LessEq || op is Greater || op is GreaterEq || op is Eq || op is Ne)
            ==> (condition_css(Expression::Binary(lhs, op, rhs), text, names) matches Err(message)
            && about(message, op_text(op))),
        condition_css(Expression::Unary(op, lhs), text, names) matches Err(message) && about(
            message,
            text,
        ),
{
    reveal_strlit("unsupported unary operator: ");
    reveal_strlit("unsupported binary operator: ");
    reveal_strlit("unsupported condition operator: ");
    reveal_strlit("unsupported condition expression: ");
    lemma_about("unsupported unary operator: "@, op_text(op));
    lemma_about("unsupported binary operator: "@, op_text(op));
    lemma_about("unsupported condition operator: "@, op_text(op));
    lemma_about("unsupported condition expression: "@, text);
}

/// Law: variables that are refused for their types are refused with messages that show the type and
/// the path, in the same words for all.
pub proof fn law_type_shown(
    a: (u32, Variable),
    b: (u32, Variable),
    module: Seq<char>,
    roles: FfRoles,
)
    requires
        !is_accepted(a, roles),
        !is_accepted(b, roles),
    ensures
        exists|head: Seq<char>, middle: Seq<char>, tail: Seq<char>|
            signal_map(seq![a], module, roles) == Err::<SignalMap, _>(
                #[trigger] (head + a.1.type_text@ + middle + a.1.path@ + tail),
            ) && signal_map(seq![b], module, roles) == Err::<SignalMap, _>(
                head + b.1.type_text@ + middle + b.1.path@ + tail,
            ),
{
    let head = "only `signed bit<32>` variables are supported, got `"@;
    let middle = "` for `"@;
    let tail = "`"@;
    assert(seq![a].drop_last() == Seq::<(u32, Variable)>::empty());
    assert(seq![b].drop_last() == Seq::<(u32, Variable)>::empty());
    assert(signal_map(Seq::<(u32, Variable)>::empty(), module, roles) is Ok);
    assert(signal_map(seq![a], module, roles) == Err::<SignalMap, _>(
        head + a.1.type_text@ + middle + a.1.path@ + tail,
    ));
    assert(signal_map(seq![b], module, roles) == Err::<SignalMap, _>(
        head + b.1.type_text@ + middle + b.1.path@ + tail,
    ));
}

/// Law: a design that does not consist of one module is refused with a message that ends with the
/// number of its modules.
pub proof fn law_modules_counted(ir: Ir)
    requires
        modules_of(ir.components@).len() != 1,
    ensures
        ir_css(ir) matches Err(message) && about(
            message,
            nat_text(modules_of(ir.components@).len()),
        ),
{
    reveal_strlit("expected exactly one top module, found ");
    lemma_about(
        "expected exactly one top module, found "@,
        nat_text(modules_of(ir.components@).len()),
    );
}

/// Law: a register that only one side of a reset assigns is written as what that side assigns, with
/// no choice; one that both sides assign comes to the reset side's value where `--rst` is 1, and to
/// the other's otherwise.
pub proof fn law_reset_values(
    reset: Map<u32, CssValue>,
    normal: Map<u32, CssValue>,
    id: u32,
    env: Map<Seq<char>, int>,
)
    ensures
        reset_values(reset, normal).contains_key(id) <==> reset.contains_key(id)
            || normal.contains_key(id),
        reset.contains_key(id) && !normal.contains_key(id) ==> reset_values(reset, normal)[id]
            == reset[id],
        !reset.contains_key(id) && normal.contains_key(id) ==> reset_values(reset, normal)[id]
            == normal[id],
        reset.contains_key(id) && normal.contains_key(id) && readable(reset[id]) && readable(
            normal[id],
        ) ==> text_value(reset_values(reset, normal)[id].text(), env) == (if env["--rst"@] == 1 {
            text_value(reset[id].text(), env)
        } else {
            text_value(normal[id].text(), env)
        }),
{
    if reset.contains_key(id) && normal.contains_key(id) && readable(reset[id]) && readable(
        normal[id],
    ) {
        law_written_value(reset[id], env);
        law_written_value(normal[id], env);
        law_written_value(reset_values(reset, normal)[id], env);
    }
}

/// What two lists of statements come to, one behind the other.
pub open spec fn joined_branches(a: Branch, b: Branch) -> Branch {
    Branch { conds: a.conds + b.conds, values: a.values.union_prefer_right(b.values) }
}

/// Law: statements inside another come to what they come to one after the other. The first refused
/// one decides the error, conditions are numbered on, and a later assignment replaces an earlier
/// one.
pub proof fn law_branch_joined(
    a: Seq<Statement>,
    b: Seq<Statement>,
    names: Map<u32, Seq<char>>,
    n: nat,
)
    ensures
        branch_css(a + b, names, n) == (match branch_css(a, names, n) {
            Err(message) => Err(message),
            Ok(first) => match branch_css(b, names, n + first.conds.len()) {
                Err(message) => Err(message),
                Ok(second) => Ok(joined_branches(first, second)),
            },
        }),
    decreases b.len(),
{
    if b.len() == 0 {
        assert(a + b == a);
        if let Ok(first) = branch_css(a, names, n) {
            let none = Branch { conds: Seq::empty(), values: Map::empty() };
            assert(joined_branches(first, none).conds == first.conds);
            assert(joined_branches(first, none).values == first.values);
        }
    } else {
        let rest = b.drop_last();
        law_branch_joined(a, rest, names, n);
        assert((a + b).drop_last() == a + rest);
        assert((a + b).last() == b.last());
        if let Ok(first) = branch_css(a, names, n) {
            let m = n + first.conds.len();
            if let Ok(second) = branch_css(rest, names, m) {
                let both = joined_branches(first, second);
                assert(n + both.conds.len() == m + second.conds.len());
                match b.last() {
                    Statement::Assign(assign) => {
                        if let Ok((id, value)) = assign_css(assign, names) {
                            assert(both.values.insert(id, value) == first.values.union_prefer_right(
                                second.values.insert(id, value),
                            ));
                        }
                    },
                    Statement::If(stmt) => {
                        if let Ok(nested) = if_css(stmt, names, m + second.conds.len()) {
                            assert(both.values.union_prefer_right(nested.values)
                                == first.values.union_prefer_right(
                                second.values.union_prefer_right(nested.values),
                            ));
                            assert(both.conds + nested.conds == first.conds + (second.conds
                                + nested.conds));
                        }
                    },
                    _ => {},
                }
            }
        }
    }
}

/// What two blocks come to, one behind the other.
pub open spec fn joined_blocks(a: Block, b: Block) -> Block {
    Block { conds: a.conds + b.conds, lines: a.lines + b.lines }
}

/// Law: the statements of an `always_comb` block come to what they come to one after the other. The
/// first refused one decides the error, and conditions are numbered on.
pub proof fn law_comb_joined(
    a: Seq<Statement>,
    b: Seq<Statement>,
    names: Map<u32, Seq<char>>,
    n: nat,
)
    ensures
        comb_css(a + b, names, n) == (match comb_css(a, names, n) {
            Err(message) => Err(message),
            Ok(first) => match comb_css(b, names, n + first.conds.len()) {
                Err(message) => Err(message),
                Ok(second) => Ok(joined_blocks(first, second)),
            },
        }),
    decreases b.len(),
{
    if b.len() == 0 {
        assert(a + b == a);
        if let Ok(first) = comb_css(a, names, n) {
            let none = Block { conds: Seq::empty(), lines: Seq::empty() };
            assert(joined_blocks(first, none).conds == first.conds);
            assert(joined_blocks(first, none).lines == first.lines);
        }
    } else {
        let rest = b.drop_last();
        law_comb_joined(a, rest, names, n);
        assert((a + b).drop_last() == a + rest);
        assert((a + b).last() == b.last());
        if let Ok(first) = comb_css(a, names, n) {
            let m = n + first.conds.len();
            if let Ok(second) = comb_css(rest, names, m) {
                let both = joined_blocks(first, second);
                assert(n + both.conds.len() == m + second.conds.len());
                if let Ok(last) = comb_statement_css(b.last(), names, m + second.conds.len()) {
                    assert(both.conds + last.conds == first.conds + (second.conds + last.conds));
                    assert(both.lines + last.lines == first.lines + (second.lines + last.lines));
                }
            }
        }
    }
}

/// Law: the statements of an `always_ff` block come to what they come to one after the other. The
/// first refused one decides the error, and conditions are numbered on.
pub proof fn law_ff_joined(
    a: Seq<Statement>,
    b: Seq<Statement>,
    names: Map<u32, Seq<char>>,
    next: Map<u32, Seq<char>>,
    n: nat,
)
    ensures
        ff_css(a + b, names, next, n) == (match ff_css(a, names, next, n) {
            Err(message) => Err(message),
            Ok(first) => match ff_css(b, names, next, n + first.conds.len()) {
                Err(message) => Err(message),
                Ok(second) => Ok(joined_blocks(first, second)),
            },
        }),
    decreases b.len(),
{
    if b.len() == 0 {
        assert(a + b == a);
        if let Ok(first) = ff_css(a, names, next, n) {
            let none = Block { conds: Seq::empty(), lines: Seq::empty() };
            assert(joined_blocks(first, none).conds == first.conds);
            assert(joined_blocks(first, none).lines == first.lines);
        }
    } else {
        let rest = b.drop_last();
        law_ff_joined(a, rest, names, next, n);
        assert((a + b).drop_last() == a + rest);
        assert((a + b).last() == b.last());
        if let Ok(first) = ff_css(a, names, next, n) {
            let m = n + first.conds.len();
            if let Ok(second) = ff_css(rest, names, next, m) {
                let both = joined_blocks(first, second);
                assert(n + both.conds.len() == m + second.conds.len());
                if let Ok(last) = ff_statement_css(
                    b.last(),
                    names,
                    next,
                    m + second.conds.len(),
                ) {
                    assert(both.conds + last.conds == first.conds + (second.conds + last.conds));
                    assert(both.lines + last.lines == first.lines + (second.lines + last.lines));
                }
            }
        }
    }
}

/// Law: declarations of which some first ones are refused are refused for the same reason.
pub proof fn law_first_refused(
    a: Seq<Declaration>,
    b: Seq<Declaration>,
    names: Map<u32, Seq<char>>,
    next: Map<u32, Seq<char>>,
)
    requires
        declarations_css(a, names, next) is Err,
    ensures
        declarations_css(a + b, names, next) == declarations_css(a, names, next),
    decreases b.len(),
{
    if b.len() == 0 {
        assert(a + b == a);
    } else {
        law_first_refused(a, b.drop_last(), names, next);
        assert((a + b).drop_last() == a + b.drop_last());
    }
}

/// Law: variables of which some first ones are refused are refused for the same reason.
pub proof fn law_first_variable_refused(
    a: Seq<(u32, Variable)>,
    b: Seq<(u32, Variable)>,
    module: Seq<char>,
    roles: FfRoles,
)
    requires
        signal_map(a, module, roles) is Err,
    ensures
        signal_map(a + b, module, roles) == signal_map(a, module, roles),
    decreases b.len(),
{
    if b.len() == 0 {
        assert(a + b == a);
    } else {
        law_first_variable_refused(a, b.drop_last(), module, roles);
        assert((a + b).drop_last() == a + b.drop_last());
    }
}

/// Law: a choice between two sides that do not assign the same variables is refused for the first
/// variable that a side lacks, and tells which side that is.
pub proof fn law_first_unbalanced(
    ids: Seq<u32>,
    k: int,
    on_true: Map<u32, CssValue>,
    on_false: Map<u32, CssValue>,
    n: nat,
    other: u32,
)
    requires
        0 <= k < ids.len(),
        forall|i: int|
            0 <= i < k ==> on_true.contains_key(#[trigger] ids[i]) && on_false.contains_key(ids[i]),
        !on_true.contains_key(ids[k]) || !on_false.contains_key(ids[k]),
        !on_true.contains_key(other),
    ensures
        select_values(ids, on_true, on_false, n) is Err,
        select_values(ids, on_true, on_false, n) == select_values(
            seq![ids[k]],
            on_true,
            on_false,
            n,
        ),
        on_true.contains_key(ids[k]) ==> select_values(ids, on_true, on_false, n) != select_values(
            seq![other],
            on_true,
            on_false,
            n,
        ),
    decreases ids.len(),
{
    let one = seq![ids[k]];
    assert(one.drop_last() == Seq::<u32>::empty());
    assert(select_values(one.drop_last(), on_true, on_false, n) is Ok);
    if k < ids.len() - 1 {
        let rest = ids.drop_last();
        assert forall|i: int| 0 <= i < k implies on_true.contains_key(#[trigger] rest[i])
            && on_false.contains_key(rest[i]) by {
            assert(rest[i] == ids[i]);
        }
        law_first_unbalanced(rest, k, on_true, on_false, n, other);
        assert(rest[k] == ids[k]);
    } else {
        let rest = ids.drop_last();
        assert forall|id: u32| #[trigger] rest.contains(id) implies on_true.contains_key(id)
            && on_false.contains_key(id) by {
            let i = rest.index_of(id);
            assert(ids[i] == id);
        }
        lemma_select(rest, on_true, on_false, n);
        reveal_strlit(" not assigned in true branch of if");
        reveal_strlit(" not assigned in false branch of if");
        let x = seq![other];
        assert(x.drop_last() == Seq::<u32>::empty());
        assert(select_values(x.drop_last(), on_true, on_false, n) is Ok);
        if on_true.contains_key(ids[k]) {
            let a = "variable "@ + id_text(ids[k]) + " not assigned in false branch of if"@;
            let b = "variable "@ + id_text(other) + " not assigned in true branch of if"@;
            assert(a[a.len() - 14] == 'e' && b[b.len() - 14] == 'e');
            assert(a[a.len() - 15] == 's' && b[b.len() - 15] == 'u');
        }
    }
}

/// Law: assignments to several variables are written one by one up to the first variable that has
/// no custom property there. If there is one, it decides the error.
pub proof fn law_assignments_written(
    ids: Seq<u32>,
    k: int,
    values: Map<u32, CssValue>,
    targets: Map<u32, Seq<char>>,
    missing: Seq<char>,
)
    requires
        0 <= k <= ids.len(),
        forall|i: int| 0 <= i < k ==> targets.contains_key(#[trigger] ids[i]),
        k < ids.len() ==> !targets.contains_key(ids[k]),
    ensures
        assigned_lines(ids, values, targets) == Seq::new(
            k as nat,
            |i: int| CssLine::Assign(targets[ids[i]], values[ids[i]]),
        ),
        k == ids.len() ==> assign_lines(ids, values, targets, missing) == Ok::<_, Seq<char>>(
            assigned_lines(ids, values, targets),
        ),
        k < ids.len() ==> assign_lines(ids, values, targets, missing) == Err::<Seq<CssLine>, _>(
            missing + id_text(ids[k]),
        ),
    decreases ids.len(),
{
    let want = Seq::new(k as nat, |i: int| CssLine::Assign(targets[ids[i]], values[ids[i]]));
    lemma_assigned_lines(ids, values, targets, missing);
    if ids.len() > 0 {
        let rest = ids.drop_last();
        let j = if k == ids.len() {
            k - 1
        } else {
            k
        };
        assert forall|i: int| 0 <= i < j implies targets.contains_key(#[trigger] rest[i]) by {
            assert(rest[i] == ids[i]);
        }
        if k < ids.len() {
            assert(k < rest.len() ==> rest[k] == ids[k]);
        }
        law_assignments_written(rest, j, values, targets, missing);
        lemma_assigned_lines(rest, values, targets, missing);
        let before = assigned_lines(rest, values, targets);
        if k == ids.len() {
            assert(ids[k - 1] == ids.last());
            assert(assigned_lines(ids, values, targets) == want);
        } else {
            assert(assigned_lines(ids, values, targets) == want);
        }
    } else {
        assert(assigned_lines(ids, values, targets) == want);
    }
}

/// Whether some custom properties are among others.
pub open spec fn among(targets: Map<u32, Seq<char>>, more: Map<u32, Seq<char>>) -> bool {
    forall|id: u32| #[trigger]
        targets.contains_key(id) ==> more.contains_key(id) && more[id] == targets[id]
}

/// Whether declarations are the first ones of others, up to the first one for a variable that has
/// no custom property in `targets`.
pub open spec fn stops_at_missing(
    lines: Seq<CssLine>,
    full: Seq<CssLine>,
    targets: Map<u32, Seq<char>>,
    more: Map<u32, Seq<char>>,
) -> bool {
    &&& lines.is_prefix_of(full)
    &&& lines.len() < full.len() ==> (full[lines.len() as int] matches CssLine::Assign(name, _)
        && exists|id: u32| #[trigger]
        more.contains_key(id) && more[id] == name && !targets.contains_key(id))
}

/// The number of first variables that have a custom property.
spec fn present(ids: Seq<u32>, targets: Map<u32, Seq<char>>) -> int
    decreases ids.len(),
{
    if ids.len() == 0 {
        0
    } else {
        let before = present(ids.drop_last(), targets);
        if before == ids.len() - 1 && targets.contains_key(ids.last()) {
            ids.len() as int
        } else {
            before
        }
    }
}

proof fn lemma_present(ids: Seq<u32>, targets: Map<u32, Seq<char>>)
    ensures
        0 <= present(ids, targets) <= ids.len(),
        forall|i: int| 0 <= i < present(ids, targets) ==> targets.contains_key(#[trigger] ids[i]),
        present(ids, targets) < ids.len() ==> !targets.contains_key(ids[present(ids, targets)]),
    decreases ids.len(),
{
    if ids.len() > 0 {
        let rest = ids.drop_last();
        lemma_present(rest, targets);
        let k = present(ids, targets);
        assert forall|i: int| 0 <= i < k implies targets.contains_key(#[trigger] ids[i]) by {
            if i < rest.len() {
                assert(rest[i] == ids[i]);
            }
        }
        let j = present(rest, targets);
        if j < rest.len() {
            assert(rest[j] == ids[j]);
        }
    }
}

proof fn lemma_stops(
    head: Seq<CssLine>,
    ids: Seq<u32>,
    values: Map<u32, CssValue>,
    targets: Map<u32, Seq<char>>,
    more: Map<u32, Seq<char>>,
    missing: Seq<char>,
)
    requires
        among(targets, more),
        assign_lines(ids, values, more, missing) is Ok,
    ensures
        stops_at_missing(
            head + assigned_lines(ids, values, targets),
            head + assign_lines(ids, values, more, missing)->Ok_0,
            targets,
            more,
        ),
{
    let k = present(ids, targets);
    let m = present(ids, more);
    lemma_present(ids, targets);
    lemma_present(ids, more);
    law_assignments_written(ids, k, values, targets, missing);
    law_assignments_written(ids, m, values, more, missing);
    assert(m == ids.len());
    let part = head + assigned_lines(ids, values, targets);
    let full = head + assign_lines(ids, values, more, missing)->Ok_0;
    assert forall|i: int| 0 <= i < part.len() implies part[i] == full[i] by {
        if i >= head.len() {
            let j = i - head.len();
            assert(targets.contains_key(ids[j]));
        }
    }
    assert(part == full.subrange(0, part.len() as int));
    if k < ids.len() {
        assert(full[part.len() as int] == CssLine::Assign(more[ids[k]], values[ids[k]]));
        assert(more.contains_key(ids[k]));
    }
}

/// Law: what is written for a statement of an `always_ff` block that would be accepted if further
/// variables were registers is the first part of what would be written then, up to the first
/// assignment to one of those.
pub proof fn law_ff_stops(
    stmt: Statement,
    names: Map<u32, Seq<char>>,
    next: Map<u32, Seq<char>>,
    more: Map<u32, Seq<char>>,
    n: nat,
)
    requires
        among(next, more),
        ff_statement_css(stmt, names, more, n) is Ok,
    ensures
        stops_at_missing(
            ff_statement_lines(stmt, names, next, n),
            ff_statement_css(stmt, names, more, n)->Ok_0.lines,
            next,
            more,
        ),
        ff_statement_css(stmt, names, next, n) matches Ok(block) ==> block.lines
            == ff_statement_lines(stmt, names, next, n),
{
    let full = ff_statement_css(stmt, names, more, n)->Ok_0.lines;
    match stmt {
        Statement::Assign(assign) => {
            let (id, value) = assign_css(assign, names)->Ok_0;
            assert(more.contains_key(id));
            assert(full == seq![CssLine::Assign(more[id], value)]);
        },
        Statement::If(s) => {
            let branch = if_css(s, names, n)->Ok_0;
            let ids = ascending(branch.values.dom());
            let missing = "if assigns to non-ff variable: "@;
            lemma_stops(cond_lines(n, branch.conds), ids, branch.values, next, more, missing);
            lemma_assigned_lines(ids, branch.values, next, missing);
        },
        Statement::IfReset(s) => {
            let reset = branch_css(s.true_side@, names, n)->Ok_0;
            let normal = branch_css(s.false_side@, names, n + reset.conds.len())->Ok_0;
            let ids = ascending(reset.values.dom() + normal.values.dom());
            let values = reset_values(reset.values, normal.values);
            let missing = "if_reset assigns to non-ff variable: "@;
            let conds = reset.conds + normal.conds;
            lemma_stops(cond_lines(n, conds), ids, values, next, more, missing);
            lemma_assigned_lines(ids, values, next, missing);
        },
        _ => {},
    }
}

/// Law: what is written for a conditional statement that would be accepted if further variables
/// could be assigned is the first part of what would be written then, up to the first assignment to
/// one of those.
pub proof fn law_if_stops(
    stmt: IfStatement,
    names: Map<u32, Seq<char>>,
    targets: Map<u32, Seq<char>>,
    more: Map<u32, Seq<char>>,
    missing: Seq<char>,
    n: nat,
)
    requires
        among(targets, more),
        if_block(stmt, names, more, missing, n) is Ok,
    ensures
        stops_at_missing(
            if_lines(stmt, names, targets, n),
            if_block(stmt, names, more, missing, n)->Ok_0.lines,
            targets,
            more,
        ),
        if_block(stmt, names, targets, missing, n) matches Ok(block) ==> block.lines == if_lines(
            stmt,
            names,
            targets,
            n,
        ),
{
    let branch = if_css(stmt, names, n)->Ok_0;
    let ids = ascending(branch.values.dom());
    lemma_stops(cond_lines(n, branch.conds), ids, branch.values, targets, more, missing);
    lemma_assigned_lines(ids, branch.values, targets, missing);
}

/// Law: what is written for an operation on two texts does not depend on what the texts hold: both
/// stand in it whole, in their order, between the same pieces.
pub proof fn law_operation_uniform(
    op: Op,
    a: Seq<char>,
    b: Seq<char>,
    c: Seq<char>,
    d: Seq<char>,
)
    requires
        op is Add || op is Sub || op is Mul || op is Div || op is Rem,
    ensures
        exists|head: Seq<char>, middle: Seq<char>, tail: Seq<char>|
            binary_text(op, a, b) == Ok::<_, Seq<char>>(
                #[trigger] (head + a + middle + b + tail),
            ) && binary_text(op, c, d) == Ok::<_, Seq<char>>(head + c + middle + d + tail),
{
    let (head, middle, tail) = match op {
        Op::Add => ("calc(("@, ") + ("@, "))"@),
        Op::Sub => ("calc(("@, ") - ("@, "))"@),
        Op::Mul => ("calc(("@, ") * ("@, "))"@),
        Op::Div => ("round(to-zero, calc(("@, ") / ("@, ")), 1)"@),
        _ => ("rem(("@, "), ("@, "))"@),
    };
    assert(binary_text(op, a, b) == Ok::<_, Seq<char>>(head + a + middle + b + tail));
    assert(binary_text(op, c, d) == Ok::<_, Seq<char>>(head + c + middle + d + tail));
}

/// Law: what is written for an operation on two written values, read as CSS, comes to the
/// operation on what the values come to; quotients are rounded toward zero. No other operator is
/// written.
pub proof fn law_written_operation(op: Op, l: CssValue, r: CssValue, env: Map<Seq<char>, int>)
    requires
        readable(l),
        readable(r),
    ensures
        match op {
            Op::Add => binary_text(op, l.text(), r.text()) matches Ok(text) && text_value(text, env)
                == Some(css_value(l, env) + css_value(r, env)),
            Op::Sub => binary_text(op, l.text(), r.text()) matches Ok(text) && text_value(text, env)
                == Some(css_value(l, env) - css_value(r, env)),
            Op::Mul => binary_text(op, l.text(), r.text()) matches Ok(text) && text_value(text, env)
                == Some(css_value(l, env) * css_value(r, env)),
            Op::Div => binary_text(op, l.text(), r.text()) matches Ok(text) && text_value(text, env)
                == Some(quotient(css_value(l, env), css_value(r, env))),
            Op::Rem => binary_text(op, l.text(), r.text()) matches Ok(text) && text_value(text, env)
                == Some(remainder(css_value(l, env), css_value(r, env))),
            _ => binary_text(op, l.text(), r.text()) is Err,
        },
{
    if let Ok(value) = binary_css(op, l, r) {
        law_written_value(value, env);
    }
}

} // verus!
