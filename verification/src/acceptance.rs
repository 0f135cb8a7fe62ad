//! Which designs have a style sheet.

use vstd::prelude::*;

use crate::branch::{branch_css, if_css, law_if_balanced};
use crate::constant::value_css;
use crate::css::CssValue;
use crate::cycle::{law_branch_assigns, law_if_assigns, lemma_single_dst};
use crate::expr::{condition_css, expr_css};
use crate::ir::{
    AssignStatement, Component, Declaration, Expression, Factor, IfStatement, Ir, Module, Statement,
};
use crate::module::{
    comb_css, declarations_css, ff_css, has_comb, has_ff, ir_css, module_css, modules_of,
    next_names,
};
use crate::naming::{distinct_ids, is_accepted, is_register, law_signal_map, public_name};
use crate::order::{ascending, lemma_ascending};
use crate::signal::{assigned_ids, ff_roles, law_ff_roles, signal_map, statement_ids};
use crate::statement::{assign_lines, comb_statement_css, ff_statement_css};

verus! {

/// Whether an expression is supported where the given variables have custom properties.
pub open spec fn expr_supported(expr: Expression, known: Set<u32>) -> bool
    decreases expr,
{
    match expr {
        Expression::Term(factor) => match *factor {
            Factor::Variable { id, dimension, select } => dimension == 0 && select@.len() == 0
                && known.contains(id),
            Factor::Value(Some(value)) => value_css(value) is Ok,
            _ => false,
        },
        Expression::Unary(op, inner) => (op is Add || op is Sub) && expr_supported(*inner, known),
        Expression::Binary(lhs, op, rhs) => (op is Add || op is Sub || op is Mul || op is Div
            || op is Rem) && expr_supported(*lhs, known) && expr_supported(*rhs, known),
        Expression::Other(_) => false,
    }
}

/// Whether a condition is supported: a comparison of two supported expressions.
pub open spec fn cond_supported(expr: Expression, known: Set<u32>) -> bool {
    match expr {
        Expression::Binary(lhs, op, rhs) => (op is Less || op is LessEq || op is Greater
            || op is GreaterEq || op is Eq || op is Ne) && expr_supported(*lhs, known)
            && expr_supported(*rhs, known),
        _ => false,
    }
}

/// Whether an assignment is supported: of a supported expression, to one whole variable.
pub open spec fn assign_supported(assign: AssignStatement, known: Set<u32>) -> bool {
    &&& assign.dst@.len() == 1
    &&& assign.dst@[0].dimension == 0
    &&& assign.dst@[0].select@.len() == 0
    &&& expr_supported(assign.expr, known)
}

/// Whether a statement inside another is supported: an assignment, a conditional statement both of
/// whose sides assign the same variables, or nothing.
pub open spec fn inner_supported(stmt: Statement, known: Set<u32>) -> bool
    decreases stmt,
{
    match stmt {
        Statement::Assign(assign) => assign_supported(assign, known),
        Statement::If(s) => cond_supported(s.cond, known) && branch_supported(s.true_side@, known)
            && branch_supported(s.false_side@, known) && assigned_ids(s.true_side@) == assigned_ids(
            s.false_side@,
        ),
        Statement::Null => true,
        _ => false,
    }
}

/// Whether all statements inside another are supported.
pub open spec fn branch_supported(stmts: Seq<Statement>, known: Set<u32>) -> bool
    decreases stmts,
{
    forall|i: int| 0 <= i < stmts.len() ==> inner_supported(#[trigger] stmts[i], known)
}

/// Whether a statement of an `always_comb` block is supported: all that it assigns are signals.
pub open spec fn comb_supported(stmt: Statement, known: Set<u32>) -> bool {
    inner_supported(stmt, known) && statement_ids(stmt).subset_of(known)
}

/// Whether a statement of an `always_ff` block is supported: all that it assigns can be registers.
pub open spec fn ff_supported(stmt: Statement, known: Set<u32>, registers: Set<u32>) -> bool {
    &&& statement_ids(stmt).subset_of(registers)
    &&& match stmt {
        Statement::IfReset(s) => branch_supported(s.true_side@, known) && branch_supported(
            s.false_side@,
            known,
        ),
        _ => inner_supported(stmt, known),
    }
}

/// Whether a declaration is supported.
pub open spec fn declaration_supported(
    decl: Declaration,
    known: Set<u32>,
    registers: Set<u32>,
) -> bool {
    match decl {
        Declaration::Comb(comb) => forall|i: int|
            0 <= i < comb.statements@.len() ==> #[trigger] comb_supported(
                comb.statements@[i],
                known,
            ),
        Declaration::Ff(ff) => forall|i: int|
            0 <= i < ff.statements@.len() ==> #[trigger] ff_supported(
                ff.statements@[i],
                known,
                registers,
            ),
        Declaration::Null => true,
        Declaration::Other(_) => false,
    }
}

/// Law: an expression has a CSS value if and only if it is supported.
pub proof fn law_expr_accepted(expr: Expression, names: Map<u32, Seq<char>>)
    ensures
        expr_css(expr, names) is Ok <==> expr_supported(expr, names.dom()),
    decreases expr,
{
    match expr {
        Expression::Unary(_, inner) => {
            law_expr_accepted(*inner, names);
        },
        Expression::Binary(lhs, _, rhs) => {
            law_expr_accepted(*lhs, names);
            law_expr_accepted(*rhs, names);
        },
        _ => {},
    }
}

proof fn lemma_cond_accepted(expr: Expression, text: Seq<char>, names: Map<u32, Seq<char>>)
    ensures
        condition_css(expr, text, names) is Ok <==> cond_supported(expr, names.dom()),
{
    if let Expression::Binary(lhs, _, rhs) = expr {
        law_expr_accepted(*lhs, names);
        law_expr_accepted(*rhs, names);
    }
}

/// Law: statements inside another are accepted, whatever the number of the first condition, if and
/// only if each of them is supported.
pub proof fn law_branch_accepted(stmts: Seq<Statement>, names: Map<u32, Seq<char>>, n: nat)
    ensures
        branch_css(stmts, names, n) is Ok <==> branch_supported(stmts, names.dom()),
    decreases stmts,
{
    let known = names.dom();
    if stmts.len() > 0 {
        let rest = stmts.drop_last();
        let last = stmts.last();
        let k = stmts.len() - 1;
        law_branch_accepted(rest, names, n);
        assert(stmts[k] == last);
        assert(branch_supported(stmts, known) <==> branch_supported(rest, known)
            && inner_supported(last, known)) by {
            if branch_supported(stmts, known) {
                assert forall|i: int| 0 <= i < rest.len() implies inner_supported(
                    #[trigger] rest[i],
                    known,
                ) by {
                    assert(inner_supported(stmts[i], known));
                }
                assert(inner_supported(stmts[k], known));
            }
            if branch_supported(rest, known) && inner_supported(last, known) {
                assert forall|i: int| 0 <= i < stmts.len() implies inner_supported(
                    #[trigger] stmts[i],
                    known,
                ) by {
                    if i < k {
                        assert(inner_supported(rest[i], known));
                    }
                }
            }
        }
        match last {
            Statement::Assign(assign) => {
                law_expr_accepted(assign.expr, names);
            },
            Statement::If(stmt) => {
                if let Ok(before) = branch_css(rest, names, n) {
                    lemma_if_accepted(stmt, names, n + before.conds.len());
                    assert(inner_supported(last, known) <==> inner_supported(
                        Statement::If(stmt),
                        known,
                    ));
                }
            },
            _ => {},
        }
    }
}

proof fn lemma_if_accepted(stmt: IfStatement, names: Map<u32, Seq<char>>, n: nat)
    ensures
        if_css(stmt, names, n) is Ok <==> inner_supported(Statement::If(stmt), names.dom()),
    decreases stmt,
{
    let known = names.dom();
    lemma_cond_accepted(stmt.cond, stmt.cond_text@, names);
    law_branch_accepted(stmt.true_side@, names, n + 1);
    if let Ok(t) = branch_css(stmt.true_side@, names, n + 1) {
        let m = n + 1 + t.conds.len();
        law_branch_accepted(stmt.false_side@, names, m);
        if condition_css(stmt.cond, stmt.cond_text@, names) is Ok && branch_css(
            stmt.false_side@,
            names,
            m,
        ) is Ok {
            law_if_balanced(stmt, names, n);
            law_branch_assigns(stmt.true_side@, names, n + 1);
            law_branch_assigns(stmt.false_side@, names, m);
        }
    }
}

proof fn lemma_assign_lines_accepted(
    ids: Seq<u32>,
    values: Map<u32, CssValue>,
    targets: Map<u32, Seq<char>>,
    missing: Seq<char>,
)
    ensures
        assign_lines(ids, values, targets, missing) is Ok <==> (forall|i: int|
            0 <= i < ids.len() ==> targets.contains_key(#[trigger] ids[i])),
    decreases ids.len(),
{
    if ids.len() > 0 {
        let rest = ids.drop_last();
        let k = ids.len() - 1;
        lemma_assign_lines_accepted(rest, values, targets, missing);
        assert(ids[k] == ids.last());
        if forall|i: int| 0 <= i < ids.len() ==> targets.contains_key(#[trigger] ids[i]) {
            assert forall|i: int| 0 <= i < rest.len() implies targets.contains_key(
                #[trigger] rest[i],
            ) by {
                assert(targets.contains_key(ids[i]));
            }
            assert(targets.contains_key(ids[k]));
        }
        if assign_lines(ids, values, targets, missing) is Ok {
            assert forall|i: int| 0 <= i < ids.len() implies targets.contains_key(
                #[trigger] ids[i],
            ) by {
                if i < k {
                    assert(targets.contains_key(rest[i]));
                }
            }
        }
    }
}

/// The variables of a set all have a target if and only if the set is part of the targets.
proof fn lemma_set_accepted(
    ids: Set<u32>,
    values: Map<u32, CssValue>,
    targets: Map<u32, Seq<char>>,
    missing: Seq<char>,
)
    ensures
        assign_lines(ascending(ids), values, targets, missing) is Ok <==> ids.subset_of(
            targets.dom(),
        ),
{
    lemma_ascending(ids);
    lemma_assign_lines_accepted(ascending(ids), values, targets, missing);
    let s = ascending(ids);
    if assign_lines(s, values, targets, missing) is Ok {
        assert forall|id: u32| ids.contains(id) implies targets.dom().contains(id) by {
            assert(s.contains(id));
            let i = s.index_of(id);
            assert(targets.contains_key(s[i]));
        }
    }
    if ids.subset_of(targets.dom()) {
        assert forall|i: int| 0 <= i < s.len() implies targets.contains_key(#[trigger] s[i]) by {
            assert(s.contains(s[i]));
            assert(ids.contains(s[i]));
            assert(targets.dom().contains(s[i]));
        }
    }
}

proof fn lemma_comb_accepted(stmt: Statement, names: Map<u32, Seq<char>>, n: nat)
    ensures
        comb_statement_css(stmt, names, n) is Ok <==> comb_supported(stmt, names.dom()),
{
    match stmt {
        Statement::Assign(assign) => {
            law_expr_accepted(assign.expr, names);
            if assign.dst@.len() == 1 {
                lemma_single_dst(assign);
                assert(set![assign.dst@[0].id].contains(assign.dst@[0].id));
            }
        },
        Statement::If(s) => {
            lemma_if_accepted(s, names, n);
            if let Ok(branch) = if_css(s, names, n) {
                law_if_assigns(s, names, n);
                lemma_set_accepted(
                    branch.values.dom(),
                    branch.values,
                    names,
                    "unknown variable in if branch: "@,
                );
            }
        },
        _ => {
            assert(stmt is Null ==> statement_ids(stmt) == Set::<u32>::empty());
        },
    }
}

proof fn lemma_ff_accepted(
    stmt: Statement,
    names: Map<u32, Seq<char>>,
    next: Map<u32, Seq<char>>,
    n: nat,
)
    ensures
        ff_statement_css(stmt, names, next, n) is Ok <==> ff_supported(
            stmt,
            names.dom(),
            next.dom(),
        ),
{
    match stmt {
        Statement::Assign(assign) => {
            law_expr_accepted(assign.expr, names);
            if assign.dst@.len() == 1 {
                lemma_single_dst(assign);
                assert(set![assign.dst@[0].id].contains(assign.dst@[0].id));
            }
        },
        Statement::If(s) => {
            lemma_if_accepted(s, names, n);
            if let Ok(branch) = if_css(s, names, n) {
                law_if_assigns(s, names, n);
                lemma_set_accepted(
                    branch.values.dom(),
                    branch.values,
                    next,
                    "if assigns to non-ff variable: "@,
                );
            }
        },
        Statement::IfReset(s) => {
            law_branch_accepted(s.true_side@, names, n);
            if let Ok(reset) = branch_css(s.true_side@, names, n) {
                let m = n + reset.conds.len();
                law_branch_accepted(s.false_side@, names, m);
                if let Ok(normal) = branch_css(s.false_side@, names, m) {
                    law_branch_assigns(s.true_side@, names, n);
                    law_branch_assigns(s.false_side@, names, m);
                    lemma_set_accepted(
                        reset.values.dom() + normal.values.dom(),
                        crate::statement::reset_values(reset.values, normal.values),
                        next,
                        "if_reset assigns to non-ff variable: "@,
                    );
                    assert(statement_ids(stmt) == reset.values.dom() + normal.values.dom());
                }
            }
        },
        _ => {
            assert(stmt is Null ==> statement_ids(stmt) == Set::<u32>::empty());
        },
    }
}

proof fn lemma_comb_block_accepted(stmts: Seq<Statement>, names: Map<u32, Seq<char>>, n: nat)
    ensures
        comb_css(stmts, names, n) is Ok <==> (forall|i: int|
            0 <= i < stmts.len() ==> #[trigger] comb_supported(stmts[i], names.dom())),
    decreases stmts.len(),
{
    if stmts.len() > 0 {
        let rest = stmts.drop_last();
        let k = stmts.len() - 1;
        let known = names.dom();
        lemma_comb_block_accepted(rest, names, n);
        if let Ok(before) = comb_css(rest, names, n) {
            lemma_comb_accepted(stmts.last(), names, n + before.conds.len());
        }
        assert(stmts[k] == stmts.last());
        if forall|i: int| 0 <= i < stmts.len() ==> #[trigger] comb_supported(stmts[i], known) {
            assert forall|i: int| 0 <= i < rest.len() implies #[trigger] comb_supported(
                rest[i],
                known,
            ) by {
                assert(comb_supported(stmts[i], known));
            }
            assert(comb_supported(stmts[k], known));
        }
        if comb_css(stmts, names, n) is Ok {
            assert forall|i: int| 0 <= i < stmts.len() implies #[trigger] comb_supported(
                stmts[i],
                known,
            ) by {
                if i < k {
                    assert(comb_supported(rest[i], known));
                }
            }
        }
    }
}

proof fn lemma_ff_block_accepted(
    stmts: Seq<Statement>,
    names: Map<u32, Seq<char>>,
    next: Map<u32, Seq<char>>,
    n: nat,
)
    ensures
        ff_css(stmts, names, next, n) is Ok <==> (forall|i: int|
            0 <= i < stmts.len() ==> #[trigger] ff_supported(stmts[i], names.dom(), next.dom())),
    decreases stmts.len(),
{
    if stmts.len() > 0 {
        let rest = stmts.drop_last();
        let k = stmts.len() - 1;
        let known = names.dom();
        let regs = next.dom();
        lemma_ff_block_accepted(rest, names, next, n);
        if let Ok(before) = ff_css(rest, names, next, n) {
            lemma_ff_accepted(stmts.last(), names, next, n + before.conds.len());
        }
        assert(stmts[k] == stmts.last());
        if forall|i: int| 0 <= i < stmts.len() ==> #[trigger] ff_supported(stmts[i], known, regs) {
            assert forall|i: int| 0 <= i < rest.len() implies #[trigger] ff_supported(
                rest[i],
                known,
                regs,
            ) by {
                assert(ff_supported(stmts[i], known, regs));
            }
            assert(ff_supported(stmts[k], known, regs));
        }
        if ff_css(stmts, names, next, n) is Ok {
            assert forall|i: int| 0 <= i < stmts.len() implies #[trigger] ff_supported(
                stmts[i],
                known,
                regs,
            ) by {
                if i < k {
                    assert(ff_supported(rest[i], known, regs));
                }
            }
        }
    }
}

proof fn lemma_declarations_accepted(
    decls: Seq<Declaration>,
    names: Map<u32, Seq<char>>,
    next: Map<u32, Seq<char>>,
)
    ensures
        declarations_css(decls, names, next) is Ok <==> (forall|i: int|
            0 <= i < decls.len() ==> #[trigger] declaration_supported(
                decls[i],
                names.dom(),
                next.dom(),
            )),
    decreases decls.len(),
{
    if decls.len() > 0 {
        let rest = decls.drop_last();
        let k = decls.len() - 1;
        let known = names.dom();
        let regs = next.dom();
        lemma_declarations_accepted(rest, names, next);
        if let Ok(before) = declarations_css(rest, names, next) {
            match decls.last() {
                Declaration::Comb(comb) => {
                    lemma_comb_block_accepted(comb.statements@, names, before.conds.len());
                },
                Declaration::Ff(ff) => {
                    lemma_ff_block_accepted(ff.statements@, names, next, before.conds.len());
                },
                _ => {},
            }
        }
        assert(decls[k] == decls.last());
        if forall|i: int|
            0 <= i < decls.len() ==> #[trigger] declaration_supported(decls[i], known, regs) {
            assert forall|i: int| 0 <= i < rest.len() implies #[trigger] declaration_supported(
                rest[i],
                known,
                regs,
            ) by {
                assert(declaration_supported(decls[i], known, regs));
            }
            assert(declaration_supported(decls[k], known, regs));
        }
        if declarations_css(decls, names, next) is Ok {
            assert forall|i: int| 0 <= i < decls.len() implies #[trigger] declaration_supported(
                decls[i],
                known,
                regs,
            ) by {
                if i < k {
                    assert(declaration_supported(rest[i], known, regs));
                }
            }
        }
    }
}

/// The variables of a module that have a custom property.
pub open spec fn signals(module: Module) -> Set<u32> {
    Set::new(
        |id: u32|
            exists|i: int|
                0 <= i < module.variables@.len() && (#[trigger] module.variables@[i]).0 == id
                    && public_name(
                    module.variables@[i],
                    module.name@,
                    ff_roles(module.declarations@),
                ) is Some,
    )
}

/// The variables of a module that can be registers: signals that are no resets.
pub open spec fn possible_registers(module: Module) -> Set<u32> {
    signals(module).difference(ff_roles(module.declarations@).resets)
}

proof fn lemma_statement_in_block(stmts: Seq<Statement>, i: int)
    requires
        0 <= i < stmts.len(),
    ensures
        statement_ids(stmts[i]).subset_of(assigned_ids(stmts)),
    decreases stmts.len(),
{
    if i < stmts.len() - 1 {
        lemma_statement_in_block(stmts.drop_last(), i);
        assert(stmts.drop_last()[i] == stmts[i]);
    } else {
        assert(stmts[i] == stmts.last());
    }
}

/// Law: a module has a style sheet if and only if each of its variables is accepted, it has an
/// `always_comb` or `always_ff` block, and all of its declarations are supported, where the
/// `always_ff` blocks may assign any signals but resets.
pub proof fn law_module_accepted(module: Module)
    requires
        distinct_ids(module.variables@),
    ensures
        module_css(module) is Ok <==> {
            &&& forall|i: int|
                0 <= i < module.variables@.len() ==> is_accepted(
                    #[trigger] module.variables@[i],
                    ff_roles(module.declarations@),
                )
            &&& forall|i: int|
                0 <= i < module.declarations@.len() ==> #[trigger] declaration_supported(
                    module.declarations@[i],
                    signals(module),
                    possible_registers(module),
                )
            &&& exists|i: int|
                0 <= i < module.declarations@.len() && (#[trigger] module.declarations@[i] is Comb
                    || module.declarations@[i] is Ff)
        },
{
    let variables = module.variables@;
    let decls = module.declarations@;
    let roles = ff_roles(decls);
    let known = signals(module);
    let regs = possible_registers(module);
    law_signal_map(variables, module.name@, roles);
    assert(has_ff(decls) || has_comb(decls) <==> exists|i: int|
        0 <= i < decls.len() && (#[trigger] decls[i] is Comb || decls[i] is Ff)) by {
        if exists|i: int| 0 <= i < decls.len() && (#[trigger] decls[i] is Comb || decls[i] is Ff) {
            let i = choose|i: int|
                0 <= i < decls.len() && (#[trigger] decls[i] is Comb || decls[i] is Ff);
            assert(decls[i] is Comb || decls[i] is Ff);
        }
    }
    if let Ok(map) = signal_map(variables, module.name@, roles) {
        let next = next_names(map.regs);
        lemma_declarations_accepted(decls, map.names, next);
        assert(map.names.dom() == known) by {
            assert forall|id: u32| map.names.dom().contains(id) <==> known.contains(id) by {
                if map.names.contains_key(id) {
                    let i = choose|i: int|
                        0 <= i < variables.len() && (#[trigger] variables[i]).0 == id
                            && public_name(variables[i], module.name@, roles) is Some;
                    assert(variables[i].0 == id);
                }
            }
        }
        assert forall|id: u32| #[trigger] next.dom().contains(id) <==> regs.contains(id)
            && roles.assigned.contains(id) by {
            if map.regs.contains_key(id) {
                assert(map.names.contains_key(id));
            }
            if map.names.contains_key(id) {
                let i = choose|i: int|
                    0 <= i < variables.len() && (#[trigger] variables[i]).0 == id && public_name(
                        variables[i],
                        module.name@,
                        roles,
                    ) is Some;
                assert(map.regs.contains_key(id) <==> is_register(id, roles));
            } else {
                assert(!known.contains(id));
            }
        }
        assert forall|k: int| 0 <= k < decls.len() implies (#[trigger] declaration_supported(
            decls[k],
            known,
            regs,
        ) <==> declaration_supported(decls[k], known, next.dom())) by {
            if let Declaration::Ff(ff) = decls[k] {
                let stmts = ff.statements@;
                assert forall|i: int| 0 <= i < stmts.len() implies (#[trigger] ff_supported(
                    stmts[i],
                    known,
                    regs,
                ) <==> ff_supported(stmts[i], known, next.dom())) by {
                    lemma_statement_in_block(stmts, i);
                    assert forall|id: u32| statement_ids(stmts[i]).contains(
                        id,
                    ) implies roles.assigned.contains(id) by {
                        law_ff_roles(decls, id);
                        assert(decls[k] is Ff);
                    }
                    assert(statement_ids(stmts[i]).subset_of(regs) <==> statement_ids(
                        stmts[i],
                    ).subset_of(next.dom())) by {
                        if statement_ids(stmts[i]).subset_of(next.dom()) {
                            assert forall|id: u32| statement_ids(stmts[i]).contains(
                                id,
                            ) implies regs.contains(id) by {
                                assert(next.dom().contains(id));
                            }
                        }
                    }
                }
                if declaration_supported(decls[k], known, regs) {
                    assert forall|i: int| 0 <= i < stmts.len() implies #[trigger] ff_supported(
                        stmts[i],
                        known,
                        next.dom(),
                    ) by {
                        assert(ff_supported(stmts[i], known, regs));
                    }
                }
                if declaration_supported(decls[k], known, next.dom()) {
                    assert forall|i: int| 0 <= i < stmts.len() implies #[trigger] ff_supported(
                        stmts[i],
                        known,
                        regs,
                    ) by {
                        assert(ff_supported(stmts[i], known, next.dom()));
                    }
                }
            }
        }
        if forall|k: int|
            0 <= k < decls.len() ==> #[trigger] declaration_supported(decls[k], known, regs) {
            assert forall|k: int| 0 <= k < decls.len() implies #[trigger] declaration_supported(
                decls[k],
                known,
                next.dom(),
            ) by {
                assert(declaration_supported(decls[k], known, regs));
            }
        }
        if forall|k: int|
            0 <= k < decls.len() ==> #[trigger] declaration_supported(decls[k], known, next.dom()) {
            assert forall|k: int| 0 <= k < decls.len() implies #[trigger] declaration_supported(
                decls[k],
                known,
                regs,
            ) by {
                assert(declaration_supported(decls[k], known, next.dom()));
            }
        }
    }
}

/// Law: the modules of joined designs are the joined modules, and a component on its own is a
/// module or none.
pub proof fn law_modules(a: Seq<Component>, b: Seq<Component>, component: Component)
    ensures
        modules_of(a + b) == modules_of(a) + modules_of(b),
        modules_of(seq![component]) == (match component {
            Component::Module(module) => seq![module],
            _ => Seq::empty(),
        }),
    decreases b.len(),
{
    if b.len() == 0 {
        assert(a + b == a);
        assert(modules_of(a) + modules_of(b) == modules_of(a));
    } else {
        law_modules(a, b.drop_last(), component);
        assert((a + b).drop_last() == a + b.drop_last());
        assert((a + b).last() == b.last());
        if let Component::Module(module) = b.last() {
            assert(modules_of(a + b) == modules_of(a) + modules_of(b));
        }
    }
    assert(seq![component].drop_last() == Seq::<Component>::empty());
    assert(modules_of(Seq::empty()) == Seq::<Module>::empty());
    if let Component::Module(module) = component {
        assert(modules_of(seq![component]) == seq![module]);
    }
}

proof fn lemma_no_module(components: Seq<Component>)
    ensures
        modules_of(components).len() == 0 <==> (forall|i: int|
            0 <= i < components.len() ==> !(#[trigger] components[i] is Module)),
    decreases components.len(),
{
    if components.len() > 0 {
        let rest = components.drop_last();
        let k = components.len() - 1;
        lemma_no_module(rest);
        assert(components[k] == components.last());
        if modules_of(components).len() == 0 {
            assert forall|i: int| 0 <= i < components.len() implies !(
            #[trigger] components[i] is Module) by {
                if i < k {
                    assert(!(rest[i] is Module));
                }
            }
        }
        if forall|i: int| 0 <= i < components.len() ==> !(#[trigger] components[i] is Module) {
            assert forall|i: int| 0 <= i < rest.len() implies !(#[trigger] rest[i] is Module) by {
                assert(!(components[i] is Module));
            }
            assert(!(components[k] is Module));
        }
    }
}

/// Law: a design whose only module stands at `top` has the style sheet of that module.
pub proof fn law_top_module(ir: Ir, top: int)
    requires
        0 <= top < ir.components@.len(),
        ir.components@[top] is Module,
        forall|i: int|
            0 <= i < ir.components@.len() && i != top ==> !(#[trigger] ir.components@[i] is Module),
    ensures
        ir_css(ir) == module_css(ir.components@[top]->Module_0),
{
    let components = ir.components@;
    let before = components.take(top);
    let after = components.skip(top + 1);
    let middle = components[top];
    assert forall|i: int| 0 <= i < before.len() implies !(#[trigger] before[i] is Module) by {
        assert(!(components[i] is Module));
    }
    assert forall|i: int| 0 <= i < after.len() implies !(#[trigger] after[i] is Module) by {
        assert(!(components[top + 1 + i] is Module));
    }
    lemma_no_module(before);
    lemma_no_module(after);
    law_modules(before, seq![middle], middle);
    law_modules(before + seq![middle], after, middle);
    assert(components == before + seq![middle] + after);
    assert(modules_of(components) == seq![middle->Module_0]);
}

/// Law: a design with no module, or with more than one, has no style sheet.
pub proof fn law_one_module(ir: Ir, i: int, j: int)
    requires
        (forall|k: int|
            0 <= k < ir.components@.len() ==> !(#[trigger] ir.components@[k] is Module)) || (0 <= i
            < j < ir.components@.len() && ir.components@[i] is Module
            && ir.components@[j] is Module),
    ensures
        ir_css(ir) is Err,
{
    let components = ir.components@;
    lemma_no_module(components);
    if 0 <= i < j < components.len() && components[i] is Module && components[j] is Module {
        let a = components.take(i + 1);
        let b = components.skip(i + 1);
        assert(components == a + b);
        law_modules(a, b, components[i]);
        lemma_no_module(a);
        lemma_no_module(b);
        assert(a[i] is Module);
        assert(b[j - i - 1] is Module);
    }
}

} // verus!
