//! What a style sheet computes in a clock cycle.

use vstd::prelude::*;

use crate::branch::{branch_css, if_css, law_if_balanced};
use crate::css::{cond_lines, cond_name, CssCond, CssLine, CssValue};
use crate::expr::assign_css;
use crate::ir::{
    AssignDestination, AssignStatement, Declaration, IfResetStatement, IfStatement, Module,
    Statement, Variable,
};
use crate::module::{
    comb_css, current_lines, declarations_css, ff_css, has_ff, module_css, next_names,
};
use crate::naming::{
    dashes, dashless, distinct_ids, law_signal_map, lemma_public_dashes, lemma_reg_dashes,
    public_name,
};
use crate::order::{ascending, is_ascending, lemma_ascending};
use crate::scope::law_conditions_fresh;
use crate::semantics::{
    agrees, cond_value, conds_set, css_value, css_values, law_branch_value, law_expr_value,
    law_if_value, lemma_conds_set_add, statement_exact, statement_writes, statements_exact, writes,
};
use crate::signal::{
    assigned_ids, dst_ids, ff_reg, ff_roles, last_segment, signal_map, statement_ids, FfReg,
    FfRoles, SignalMap,
};
use crate::statement::{
    assign_lines, comb_statement_css, ff_statement_css, if_block, if_reset_css, reset_values,
};

verus! {

/// The value that declarations give a custom property; the last one counts.
pub open spec fn declared(lines: Seq<CssLine>, name: Seq<char>) -> Option<CssValue>
    decreases lines.len(),
{
    if lines.len() == 0 {
        None
    } else {
        match lines.last() {
            CssLine::Assign(target, value) => if target == name {
                Some(value)
            } else {
                declared(lines.drop_last(), name)
            },
            CssLine::Cond(_, _) => declared(lines.drop_last(), name),
        }
    }
}

proof fn lemma_declared_add(a: Seq<CssLine>, b: Seq<CssLine>, name: Seq<char>)
    ensures
        declared(a + b, name) == (match declared(b, name) {
            Some(value) => Some(value),
            None => declared(a, name),
        }),
    decreases b.len(),
{
    if b.len() == 0 {
        assert(a + b == a);
    } else {
        assert((a + b).drop_last() == a + b.drop_last());
        assert((a + b).last() == b.last());
        lemma_declared_add(a, b.drop_last(), name);
    }
}

proof fn lemma_conds_declare_nothing(n: nat, conds: Seq<CssCond>, name: Seq<char>)
    ensures
        declared(cond_lines(n, conds), name) is None,
    decreases conds.len(),
{
    let lines = cond_lines(n, conds);
    if conds.len() > 0 {
        assert(lines.drop_last() == cond_lines(n, conds.drop_last()));
        lemma_conds_declare_nothing(n, conds.drop_last(), name);
    }
}

/// Whether different variables have different custom properties.
pub open spec fn injective(targets: Map<u32, Seq<char>>) -> bool {
    forall|a: u32, b: u32|
        #![trigger targets[a], targets[b]]
        targets.contains_key(a) && targets.contains_key(b) && targets[a] == targets[b] ==> a == b
}

/// Whether declarations give the custom properties in `targets` the given values, and set no
/// others.
pub open spec fn computes(
    lines: Seq<CssLine>,
    targets: Map<u32, Seq<char>>,
    env: Map<Seq<char>, int>,
    written: Map<u32, int>,
) -> bool {
    &&& forall|id: u32| #[trigger] written.contains_key(id) ==> targets.contains_key(id)
    &&& forall|id: u32| #[trigger]
        targets.contains_key(id) ==> match declared(lines, targets[id]) {
            Some(value) => written.contains_key(id) && css_value(value, env) == written[id],
            None => !written.contains_key(id),
        }
    &&& forall|name: Seq<char>|
        (#[trigger] declared(lines, name)) is Some ==> exists|id: u32| #[trigger]
            targets.contains_key(id) && targets[id] == name
}

proof fn lemma_computes_add(
    a: Seq<CssLine>,
    b: Seq<CssLine>,
    targets: Map<u32, Seq<char>>,
    env: Map<Seq<char>, int>,
    p: Map<u32, int>,
    q: Map<u32, int>,
)
    requires
        computes(a, targets, env, p),
        computes(b, targets, env, q),
    ensures
        computes(a + b, targets, env, p.union_prefer_right(q)),
{
    let c = a + b;
    let r = p.union_prefer_right(q);
    assert forall|id: u32| #[trigger] r.contains_key(id) implies targets.contains_key(id) by {
        if q.contains_key(id) {
        } else {
            assert(p.contains_key(id));
        }
    }
    assert forall|id: u32| #[trigger] targets.contains_key(id) implies match declared(
        c,
        targets[id],
    ) {
        Some(value) => r.contains_key(id) && css_value(value, env) == r[id],
        None => !r.contains_key(id),
    } by {
        lemma_declared_add(a, b, targets[id]);
    }
    assert forall|name: Seq<char>| (#[trigger] declared(c, name)) is Some implies exists|id: u32|
        #[trigger]
        targets.contains_key(id) && targets[id] == name by {
        lemma_declared_add(a, b, name);
        if declared(b, name) is Some {
        } else {
            assert(declared(a, name) is Some);
        }
    }
}

proof fn lemma_computes_nothing(targets: Map<u32, Seq<char>>, env: Map<Seq<char>, int>)
    ensures
        computes(Seq::empty(), targets, env, Map::empty()),
{
}

/// Assignments to ascending variables give these variables their values.
proof fn lemma_assign_declared(
    ids: Seq<u32>,
    values: Map<u32, CssValue>,
    targets: Map<u32, Seq<char>>,
    missing: Seq<char>,
)
    requires
        is_ascending(ids),
        injective(targets),
    ensures
        assign_lines(ids, values, targets, missing) matches Ok(lines) ==> {
            &&& forall|id: u32| #[trigger] ids.contains(id) ==> targets.contains_key(id)
            &&& forall|id: u32| #[trigger]
                targets.contains_key(id) ==> declared(lines, targets[id]) == (if ids.contains(id) {
                    Some(values[id])
                } else {
                    None
                })
            &&& forall|name: Seq<char>|
                (#[trigger] declared(lines, name)) is Some ==> exists|id: u32| #[trigger]
                    targets.contains_key(id) && targets[id] == name
        },
    decreases ids.len(),
{
    if ids.len() > 0 && assign_lines(ids, values, targets, missing) is Ok {
        let rest = ids.drop_last();
        let last = ids.last();
        lemma_assign_declared(rest, values, targets, missing);
        let before = assign_lines(rest, values, targets, missing)->Ok_0;
        let lines = assign_lines(ids, values, targets, missing)->Ok_0;
        assert(lines.drop_last() == before);
        assert forall|id: u32| #[trigger] ids.contains(id) <==> rest.contains(id) || id == last by {
            if ids.contains(id) {
                let k = ids.index_of(id);
                assert(k < rest.len() ==> rest[k] == id);
            }
            if rest.contains(id) {
                let k = rest.index_of(id);
                assert(ids[k] == id);
            }
            assert(ids[ids.len() - 1] == last);
        }
        assert forall|id: u32| #[trigger] targets.contains_key(id) implies declared(
            lines,
            targets[id],
        ) == (if ids.contains(id) {
            Some(values[id])
        } else {
            None
        }) by {
            if id == last {
            } else {
                assert(targets[id] != targets[last]);
            }
        }
        assert forall|name: Seq<char>| (#[trigger] declared(lines, name)) is Some implies exists|
            id: u32,
        |
            #[trigger] targets.contains_key(id) && targets[id] == name by {
            if name == targets[last] {
                assert(targets.contains_key(last));
            } else {
                assert(declared(before, name) is Some);
            }
        }
    }
}

/// Conditions, followed by assignments of the values of a set of variables, compute what these
/// values come to.
proof fn lemma_values_computed(
    n: nat,
    conds: Seq<CssCond>,
    values: Map<u32, CssValue>,
    targets: Map<u32, Seq<char>>,
    missing: Seq<char>,
    env: Map<Seq<char>, int>,
)
    requires
        injective(targets),
        assign_lines(ascending(values.dom()), values, targets, missing) is Ok,
    ensures
        computes(
            cond_lines(n, conds) + assign_lines(
                ascending(values.dom()),
                values,
                targets,
                missing,
            )->Ok_0,
            targets,
            env,
            css_values(values, env),
        ),
{
    let ids = ascending(values.dom());
    let lines = assign_lines(ids, values, targets, missing)->Ok_0;
    let head = cond_lines(n, conds);
    let written = css_values(values, env);
    lemma_ascending(values.dom());
    lemma_assign_declared(ids, values, targets, missing);
    assert(computes(lines, targets, env, written)) by {
        assert forall|id: u32| #[trigger] written.contains_key(id) implies targets.contains_key(
            id,
        ) by {
            assert(values.dom().contains(id));
            assert(ids.contains(id));
        }
        assert forall|id: u32| #[trigger] targets.contains_key(id) implies match declared(
            lines,
            targets[id],
        ) {
            Some(value) => written.contains_key(id) && css_value(value, env) == written[id],
            None => !written.contains_key(id),
        } by {
            assert(ids.contains(id) <==> values.dom().contains(id));
        }
    }
    assert(computes(head, targets, env, Map::empty())) by {
        assert forall|name: Seq<char>| (#[trigger] declared(head, name)) is None by {
            lemma_conds_declare_nothing(n, conds, name);
        }
    }
    lemma_computes_add(head, lines, targets, env, Map::empty(), written);
    assert(Map::<u32, int>::empty().union_prefer_right(written) == written);
}

/// Law: accepted statements assign exactly the variables on the left-hand sides inside them.
pub proof fn law_branch_assigns(stmts: Seq<Statement>, names: Map<u32, Seq<char>>, n: nat)
    requires
        branch_css(stmts, names, n) is Ok,
    ensures
        branch_css(stmts, names, n)->Ok_0.values.dom() == assigned_ids(stmts),
    decreases stmts,
{
    let all = branch_css(stmts, names, n)->Ok_0;
    if stmts.len() == 0 {
        assert(all.values.dom() == assigned_ids(stmts));
    } else {
        let before = branch_css(stmts.drop_last(), names, n)->Ok_0;
        law_branch_assigns(stmts.drop_last(), names, n);
        let last = statement_ids(stmts.last());
        match stmts.last() {
            Statement::Assign(assign) => {
                let id = assign.dst@[0].id;
                lemma_single_dst(assign);
                assert(all.values.dom() == assigned_ids(stmts));
            },
            Statement::If(stmt) => {
                let m = n + before.conds.len();
                let nested = if_css(stmt, names, m)->Ok_0;
                law_if_assigns(stmt, names, m);
                assert(all.values.dom() == before.values.dom() + nested.values.dom());
            },
            _ => {
                assert(all.values.dom() == assigned_ids(stmts));
            },
        }
    }
}

/// Law: an accepted conditional statement assigns exactly the variables on the left-hand sides
/// inside it.
pub proof fn law_if_assigns(stmt: IfStatement, names: Map<u32, Seq<char>>, n: nat)
    requires
        if_css(stmt, names, n) is Ok,
    ensures
        if_css(stmt, names, n)->Ok_0.values.dom() == statement_ids(Statement::If(stmt)),
    decreases stmt,
{
    let all = if_css(stmt, names, n)->Ok_0;
    let t = branch_css(stmt.true_side@, names, n + 1)->Ok_0;
    let f = branch_css(stmt.false_side@, names, n + 1 + t.conds.len())->Ok_0;
    law_if_balanced(stmt, names, n);
    law_branch_assigns(stmt.true_side@, names, n + 1);
    law_branch_assigns(stmt.false_side@, names, n + 1 + t.conds.len());
    assert(all.values.dom() == t.values.dom() + f.values.dom());
}

/// Law: the declarations of a statement of an `always_comb` block compute what the statement
/// assigns.
pub proof fn law_comb_statement(
    stmt: Statement,
    names: Map<u32, Seq<char>>,
    n: nat,
    env: Map<Seq<char>, int>,
    state: spec_fn(u32) -> int,
    reset: bool,
)
    requires
        comb_statement_css(stmt, names, n) is Ok,
        injective(names),
        statement_exact(stmt),
        agrees(env, names, state),
        conds_set(env, n, comb_statement_css(stmt, names, n)->Ok_0.conds),
    ensures
        computes(
            comb_statement_css(stmt, names, n)->Ok_0.lines,
            names,
            env,
            statement_writes(stmt, state, reset),
        ),
{
    lemma_target_statement(
        stmt,
        names,
        names,
        "unknown variable in if branch: "@,
        n,
        env,
        state,
        reset,
    );
}

/// The declarations of an assignment or a conditional statement compute what it assigns.
proof fn lemma_target_statement(
    stmt: Statement,
    names: Map<u32, Seq<char>>,
    targets: Map<u32, Seq<char>>,
    missing: Seq<char>,
    n: nat,
    env: Map<Seq<char>, int>,
    state: spec_fn(u32) -> int,
    reset: bool,
)
    requires
        injective(targets),
        statement_exact(stmt),
        agrees(env, names, state),
    ensures
        stmt matches Statement::Assign(assign) ==> (assign_css(assign, names) matches Ok((
            id,
            value,
        )) ==> targets.contains_key(id) ==> computes(
            seq![CssLine::Assign(targets[id], value)],
            targets,
            env,
            statement_writes(stmt, state, reset),
        )),
        stmt matches Statement::If(s) ==> (if_block(s, names, targets, missing, n) matches Ok(
            block,
        ) ==> conds_set(env, n, block.conds) ==> computes(
            block.lines,
            targets,
            env,
            statement_writes(stmt, state, reset),
        )),
        stmt is Null ==> computes(
            Seq::empty(),
            targets,
            env,
            statement_writes(stmt, state, reset),
        ),
{
    match stmt {
        Statement::Assign(assign) => {
            if assign_css(assign, names) is Ok {
                let (id, value) = assign_css(assign, names)->Ok_0;
                if targets.contains_key(id) {
                    law_expr_value(assign.expr, names, env, state);
                    let line = CssLine::Assign(targets[id], value);
                    let lines = seq![line];
                    assert(lines.drop_last() == Seq::<CssLine>::empty());
                    assert forall|name: Seq<char>| #[trigger] declared(lines, name) == (if name
                        == targets[id] {
                        Some(value)
                    } else {
                        None
                    }) by {
                        assert(declared(Seq::<CssLine>::empty(), name) is None);
                    }
                    let written = statement_writes(stmt, state, reset);
                    assert forall|x: u32| #[trigger] targets.contains_key(x) implies match declared(
                        lines,
                        targets[x],
                    ) {
                        Some(v) => written.contains_key(x) && css_value(v, env) == written[x],
                        None => !written.contains_key(x),
                    } by {
                        if targets[x] == targets[id] {
                            assert(x == id);
                        }
                    }
                }
            }
        },
        Statement::If(s) => {
            if if_block(s, names, targets, missing, n) is Ok {
                let block = if_block(s, names, targets, missing, n)->Ok_0;
                if conds_set(env, n, block.conds) {
                    let branch = if_css(s, names, n)->Ok_0;
                    law_if_value(s, names, n, env, state, reset);
                    lemma_values_computed(n, branch.conds, branch.values, targets, missing, env);
                }
            }
        },
        _ => {
            lemma_computes_nothing(targets, env);
        },
    }
}

/// Law: the declarations of a statement of an `always_ff` block compute what the statement
/// assigns, as the next states of the registers.
pub proof fn law_ff_statement(
    stmt: Statement,
    names: Map<u32, Seq<char>>,
    next: Map<u32, Seq<char>>,
    n: nat,
    env: Map<Seq<char>, int>,
    state: spec_fn(u32) -> int,
    reset: bool,
)
    requires
        ff_statement_css(stmt, names, next, n) is Ok,
        injective(next),
        statement_exact(stmt),
        agrees(env, names, state),
        reset <==> env["--rst"@] == 1,
        conds_set(env, n, ff_statement_css(stmt, names, next, n)->Ok_0.conds),
    ensures
        computes(
            ff_statement_css(stmt, names, next, n)->Ok_0.lines,
            next,
            env,
            statement_writes(stmt, state, reset),
        ),
{
    lemma_target_statement(
        stmt,
        names,
        next,
        "if assigns to non-ff variable: "@,
        n,
        env,
        state,
        reset,
    );
    if let Statement::IfReset(s) = stmt {
        let r = branch_css(s.true_side@, names, n)->Ok_0;
        let m = n + r.conds.len();
        let f = branch_css(s.false_side@, names, m)->Ok_0;
        lemma_conds_set_add(env, n, r.conds, f.conds);
        law_branch_value(s.true_side@, names, n, env, state, reset);
        law_branch_value(s.false_side@, names, m, env, state, reset);
        let values = reset_values(r.values, f.values);
        assert(values.dom() == r.values.dom() + f.values.dom());
        lemma_values_computed(
            n,
            r.conds + f.conds,
            values,
            next,
            "if_reset assigns to non-ff variable: "@,
            env,
        );
        let over = if reset {
            css_values(f.values, env).union_prefer_right(css_values(r.values, env))
        } else {
            css_values(r.values, env).union_prefer_right(css_values(f.values, env))
        };
        assert(css_values(values, env) == over);
    }
}

/// Law: where both sides of a reset assign the same variables, the side that the reset selects is
/// what is assigned.
pub proof fn law_reset_selects(
    stmt: IfResetStatement,
    names: Map<u32, Seq<char>>,
    next: Map<u32, Seq<char>>,
    n: nat,
    state: spec_fn(u32) -> int,
    reset: bool,
)
    requires
        if_reset_css(stmt, names, next, n) is Ok,
        assigned_ids(stmt.true_side@) == assigned_ids(stmt.false_side@),
    ensures
        statement_writes(Statement::IfReset(stmt), state, reset) == writes(
            if reset {
                stmt.true_side@
            } else {
                stmt.false_side@
            },
            state,
            reset,
        ),
{
    let r = branch_css(stmt.true_side@, names, n)->Ok_0;
    lemma_writes_assigned(stmt.true_side@, names, n, state, reset);
    lemma_writes_assigned(stmt.false_side@, names, n + r.conds.len(), state, reset);
    let t = writes(stmt.true_side@, state, reset);
    let f = writes(stmt.false_side@, state, reset);
    assert(t.dom() == f.dom());
    assert(f.union_prefer_right(t) == t);
    assert(t.union_prefer_right(f) == f);
}

/// Accepted statements give values to the variables on the left-hand sides inside them.
proof fn lemma_writes_assigned(
    stmts: Seq<Statement>,
    names: Map<u32, Seq<char>>,
    n: nat,
    state: spec_fn(u32) -> int,
    reset: bool,
)
    requires
        branch_css(stmts, names, n) is Ok,
    ensures
        writes(stmts, state, reset).dom() == assigned_ids(stmts),
    decreases stmts,
{
    if stmts.len() == 0 {
        assert(writes(stmts, state, reset).dom() == assigned_ids(stmts));
    } else {
        let before = branch_css(stmts.drop_last(), names, n)->Ok_0;
        let w = statement_writes(stmts.last(), state, reset);
        let last = statement_ids(stmts.last());
        lemma_writes_assigned(stmts.drop_last(), names, n, state, reset);
        assert(w.dom() == last) by {
            match stmts.last() {
                Statement::Assign(assign) => {
                    lemma_single_dst(assign);
                },
                Statement::If(stmt) => {
                    let m = n + before.conds.len();
                    let t = branch_css(stmt.true_side@, names, m + 1)->Ok_0;
                    assert(if_css(stmt, names, m) is Ok);
                    law_if_balanced(stmt, names, m);
                    law_branch_assigns(stmt.true_side@, names, m + 1);
                    law_branch_assigns(stmt.false_side@, names, m + 1 + t.conds.len());
                    lemma_writes_assigned(stmt.true_side@, names, m + 1, state, reset);
                    lemma_writes_assigned(
                        stmt.false_side@,
                        names,
                        m + 1 + t.conds.len(),
                        state,
                        reset,
                    );
                    assert(last == assigned_ids(stmt.true_side@));
                },
                _ => {
                    assert(w.dom() == Set::<u32>::empty());
                },
            }
        }
        assert(writes(stmts, state, reset).dom() == assigned_ids(stmts));
    }
}

/// An assignment to a single destination assigns that variable.
pub proof fn lemma_single_dst(assign: AssignStatement)
    requires
        assign.dst@.len() == 1,
    ensures
        dst_ids(assign.dst@) == set![assign.dst@[0].id],
{
    let id = assign.dst@[0].id;
    let written = assign.dst@.map_values(|d: AssignDestination| d.id);
    assert(written == seq![id]);
    assert forall|x: u32| written.to_set().contains(x) <==> set![id].contains(x) by {
        assert(written[0] == id);
    }
    assert(dst_ids(assign.dst@) == set![id]);
}

proof fn lemma_comb_computes(
    stmts: Seq<Statement>,
    names: Map<u32, Seq<char>>,
    n: nat,
    env: Map<Seq<char>, int>,
    state: spec_fn(u32) -> int,
    reset: bool,
)
    requires
        comb_css(stmts, names, n) is Ok,
        injective(names),
        statements_exact(stmts),
        agrees(env, names, state),
        conds_set(env, n, comb_css(stmts, names, n)->Ok_0.conds),
    ensures
        computes(comb_css(stmts, names, n)->Ok_0.lines, names, env, writes(stmts, state, reset)),
    decreases stmts.len(),
{
    if stmts.len() == 0 {
        lemma_computes_nothing(names, env);
    } else {
        let before = comb_css(stmts.drop_last(), names, n)->Ok_0;
        let m = n + before.conds.len();
        let block = comb_statement_css(stmts.last(), names, m)->Ok_0;
        assert(statement_exact(stmts.last()));
        lemma_conds_set_add(env, n, before.conds, block.conds);
        lemma_comb_computes(stmts.drop_last(), names, n, env, state, reset);
        law_comb_statement(stmts.last(), names, m, env, state, reset);
        lemma_computes_add(
            before.lines,
            block.lines,
            names,
            env,
            writes(stmts.drop_last(), state, reset),
            statement_writes(stmts.last(), state, reset),
        );
    }
}

proof fn lemma_ff_computes(
    stmts: Seq<Statement>,
    names: Map<u32, Seq<char>>,
    next: Map<u32, Seq<char>>,
    n: nat,
    env: Map<Seq<char>, int>,
    state: spec_fn(u32) -> int,
    reset: bool,
)
    requires
        ff_css(stmts, names, next, n) is Ok,
        injective(next),
        statements_exact(stmts),
        agrees(env, names, state),
        reset <==> env["--rst"@] == 1,
        conds_set(env, n, ff_css(stmts, names, next, n)->Ok_0.conds),
    ensures
        computes(
            ff_css(stmts, names, next, n)->Ok_0.lines,
            next,
            env,
            writes(stmts, state, reset),
        ),
    decreases stmts.len(),
{
    if stmts.len() == 0 {
        lemma_computes_nothing(next, env);
    } else {
        let rest = stmts.drop_last();
        let before = ff_css(rest, names, next, n)->Ok_0;
        let m = n + before.conds.len();
        let block = ff_statement_css(stmts.last(), names, next, m)->Ok_0;
        assert(statement_exact(stmts.last()));
        lemma_conds_set_add(env, n, before.conds, block.conds);
        lemma_ff_computes(rest, names, next, n, env, state, reset);
        law_ff_statement(stmts.last(), names, next, m, env, state, reset);
        lemma_computes_add(
            before.lines,
            block.lines,
            next,
            env,
            writes(rest, state, reset),
            statement_writes(stmts.last(), state, reset),
        );
    }
}

/// The values that the `always_comb` blocks among some declarations assign.
pub open spec fn comb_writes(
    decls: Seq<Declaration>,
    state: spec_fn(u32) -> int,
    reset: bool,
) -> Map<u32, int>
    decreases decls.len(),
{
    if decls.len() == 0 {
        Map::empty()
    } else {
        let before = comb_writes(decls.drop_last(), state, reset);
        match decls.last() {
            Declaration::Comb(comb) => before.union_prefer_right(
                writes(comb.statements@, state, reset),
            ),
            _ => before,
        }
    }
}

/// The values that the `always_ff` blocks among some declarations assign.
pub open spec fn ff_writes(
    decls: Seq<Declaration>,
    state: spec_fn(u32) -> int,
    reset: bool,
) -> Map<u32, int>
    decreases decls.len(),
{
    if decls.len() == 0 {
        Map::empty()
    } else {
        let before = ff_writes(decls.drop_last(), state, reset);
        match decls.last() {
            Declaration::Ff(ff) => before.union_prefer_right(writes(ff.statements@, state, reset)),
            _ => before,
        }
    }
}

/// Whether all constants in a declaration are exact.
pub open spec fn declaration_exact(decl: Declaration) -> bool {
    match decl {
        Declaration::Comb(comb) => statements_exact(comb.statements@),
        Declaration::Ff(ff) => statements_exact(ff.statements@),
        _ => true,
    }
}

/// Whether all constants in declarations are exact.
pub open spec fn declarations_exact(decls: Seq<Declaration>) -> bool {
    forall|i: int| 0 <= i < decls.len() ==> declaration_exact(#[trigger] decls[i])
}

proof fn lemma_declarations_compute(
    decls: Seq<Declaration>,
    names: Map<u32, Seq<char>>,
    next: Map<u32, Seq<char>>,
    env: Map<Seq<char>, int>,
    state: spec_fn(u32) -> int,
    reset: bool,
)
    requires
        declarations_css(decls, names, next) is Ok,
        injective(names),
        injective(next),
        declarations_exact(decls),
        agrees(env, names, state),
        reset <==> env["--rst"@] == 1,
        conds_set(env, 0, declarations_css(decls, names, next)->Ok_0.conds),
    ensures
        computes(
            declarations_css(decls, names, next)->Ok_0.comb,
            names,
            env,
            comb_writes(decls, state, reset),
        ),
        computes(
            declarations_css(decls, names, next)->Ok_0.ff,
            next,
            env,
            ff_writes(decls, state, reset),
        ),
    decreases decls.len(),
{
    if decls.len() == 0 {
        lemma_computes_nothing(names, env);
        lemma_computes_nothing(next, env);
    } else {
        let rest = decls.drop_last();
        let before = declarations_css(rest, names, next)->Ok_0;
        let n = before.conds.len();
        assert(declaration_exact(decls[decls.len() - 1]));
        assert forall|i: int| 0 <= i < rest.len() implies declaration_exact(#[trigger] rest[i]) by {
            assert(declaration_exact(decls[i]));
        }
        match decls.last() {
            Declaration::Comb(comb) => {
                let block = comb_css(comb.statements@, names, n)->Ok_0;
                lemma_conds_set_add(env, 0, before.conds, block.conds);
                lemma_declarations_compute(rest, names, next, env, state, reset);
                lemma_comb_computes(comb.statements@, names, n, env, state, reset);
                lemma_computes_add(
                    before.comb,
                    block.lines,
                    names,
                    env,
                    comb_writes(rest, state, reset),
                    writes(comb.statements@, state, reset),
                );
            },
            Declaration::Ff(ff) => {
                let block = ff_css(ff.statements@, names, next, n)->Ok_0;
                lemma_conds_set_add(env, 0, before.conds, block.conds);
                lemma_declarations_compute(rest, names, next, env, state, reset);
                lemma_ff_computes(ff.statements@, names, next, n, env, state, reset);
                lemma_computes_add(
                    before.ff,
                    block.lines,
                    next,
                    env,
                    ff_writes(rest, state, reset),
                    writes(ff.statements@, state, reset),
                );
            },
            _ => {
                lemma_declarations_compute(rest, names, next, env, state, reset);
            },
        }
    }
}

/// Whether custom properties have the values that declarations give them.
pub open spec fn solves(env: Map<Seq<char>, int>, lines: Seq<CssLine>) -> bool {
    &&& forall|i: int|
        0 <= i < lines.len() ==> (#[trigger] lines[i] matches CssLine::Cond(k, cond)
            ==> env[cond_name(k)] == cond_value(cond, env))
    &&& forall|name: Seq<char>|
        (#[trigger] declared(lines, name)) matches Some(value) ==> env.contains_key(name)
            && env[name] == css_value(value, env)
}

/// Whether no two signals of a module share a custom property, and none is public that stands for
/// the next state of a register.
pub open spec fn well_named(map: SignalMap) -> bool {
    &&& injective(map.names)
    &&& injective(next_names(map.regs))
    &&& injective(map.regs.map_values(|reg: FfReg| reg.captured))
    &&& injective(map.regs.map_values(|reg: FfReg| reg.hoist))
    &&& forall|a: u32, b: u32|
        #![trigger map.names[a], map.regs[b]]
        map.names.contains_key(a) && map.regs.contains_key(b) ==> map.names[a] != map.regs[b].next
}

/// Whether no two signals have the same last segment, and no name has a dash.
pub open spec fn distinct_signals(
    variables: Seq<(u32, Variable)>,
    module: Seq<char>,
    roles: FfRoles,
) -> bool {
    &&& dashless(variables, module)
    &&& forall|i: int, j: int|
        0 <= i < j < variables.len() && public_name(#[trigger] variables[i], module, roles) is Some
            && public_name(#[trigger] variables[j], module, roles) is Some ==> last_segment(
            variables[i].1.path@,
        ) != last_segment(variables[j].1.path@)
}

/// Texts with the same beginning are equal only if their ends are.
proof fn lemma_same_head(head: Seq<char>, a: Seq<char>, b: Seq<char>)
    requires
        head + a == head + b,
    ensures
        a == b,
{
    assert((head + a).skip(head.len() as int) == a);
    assert((head + b).skip(head.len() as int) == b);
}

/// Texts with the same end are equal only if their beginnings are.
proof fn lemma_same_tail(a: Seq<char>, b: Seq<char>, tail: Seq<char>)
    requires
        a + tail == b + tail,
    ensures
        a == b,
{
    assert((a + tail).len() == a.len() + tail.len());
    assert((b + tail).len() == b.len() + tail.len());
    assert((a + tail).take(a.len() as int) == a);
    assert((b + tail).take(b.len() as int) == b);
}

/// The public names of two variables of different last segments differ.
proof fn lemma_public_names_differ(
    variables: Seq<(u32, Variable)>,
    i: int,
    j: int,
    module: Seq<char>,
    roles: FfRoles,
)
    requires
        distinct_signals(variables, module, roles),
        0 <= i < variables.len(),
        0 <= j < variables.len(),
        public_name(variables[i], module, roles) is Some,
        public_name(variables[i], module, roles) == public_name(variables[j], module, roles),
    ensures
        i == j,
{
    let a = last_segment(variables[i].1.path@);
    let b = last_segment(variables[j].1.path@);
    lemma_shape_dashes(module, a);
    lemma_shape_dashes(module, b);
    let name = public_name(variables[i], module, roles)->0;
    assert(a == b) by {
        if name == "--"@ + a && name == "--"@ + b {
            lemma_same_head("--"@, a, b);
        } else {
            assert(name == "--"@ + module + "-"@ + a);
            lemma_same_head("--"@ + module + "-"@, a, b);
        }
    }
    if i < j {
        assert(last_segment(variables[i].1.path@) != last_segment(variables[j].1.path@));
    }
    if j < i {
        assert(last_segment(variables[j].1.path@) != last_segment(variables[i].1.path@));
    }
}

/// Law: no two signals of a module share a custom property where their last segments differ and no
/// name has a dash.
pub proof fn law_well_named(variables: Seq<(u32, Variable)>, module: Seq<char>, roles: FfRoles)
    requires
        distinct_ids(variables),
        distinct_signals(variables, module, roles),
        signal_map(variables, module, roles) is Ok,
    ensures
        well_named(signal_map(variables, module, roles)->Ok_0),
{
    let map = signal_map(variables, module, roles)->Ok_0;
    law_signal_map(variables, module, roles);
    assert forall|a: u32, b: u32|
        #![trigger map.names[a], map.names[b]]
        map.names.contains_key(a) && map.names.contains_key(b) && map.names[a]
            == map.names[b] implies a == b by {
        let i = entry_of(variables, module, roles, a);
        let j = entry_of(variables, module, roles, b);
        lemma_public_names_differ(variables, i, j, module, roles);
    }
    assert forall|a: u32, b: u32|
        #![trigger map.regs[a], map.regs[b]]
        map.regs.contains_key(a) && map.regs.contains_key(b) && (map.regs[a].next
            == map.regs[b].next || map.regs[a].captured == map.regs[b].captured
            || map.regs[a].hoist == map.regs[b].hoist) implies a == b by {
        assert(map.names.contains_key(a) && map.names.contains_key(b));
        let i = entry_of(variables, module, roles, a);
        let j = entry_of(variables, module, roles, b);
        let s = last_segment(variables[i].1.path@);
        let t = last_segment(variables[j].1.path@);
        let head = "--"@ + module + "-"@;
        if map.regs[a].next == map.regs[b].next {
            lemma_same_tail(head + s, head + t, "-next"@);
        } else if map.regs[a].captured == map.regs[b].captured {
            lemma_same_tail(head + s, head + t, "-captured"@);
        } else {
            lemma_same_tail(head + s, head + t, "-hoist"@);
        }
        lemma_same_head(head, s, t);
        if i < j {
            assert(last_segment(variables[i].1.path@) != last_segment(variables[j].1.path@));
        }
        if j < i {
            assert(last_segment(variables[j].1.path@) != last_segment(variables[i].1.path@));
        }
    }
    assert forall|a: u32, b: u32|
        #![trigger map.names[a], map.regs[b]]
        map.names.contains_key(a) && map.regs.contains_key(b) implies map.names[a]
        != map.regs[b].next by {
        assert(map.names.contains_key(b));
        let i = entry_of(variables, module, roles, a);
        let j = entry_of(variables, module, roles, b);
        lemma_public_dashes(variables, i, module, roles);
        lemma_reg_dashes(map.names[b], module, last_segment(variables[j].1.path@));
    }
}

/// The public state of a register is the signal's custom property.
pub proof fn lemma_reg_current(variables: Seq<(u32, Variable)>, module: Seq<char>, roles: FfRoles)
    requires
        distinct_ids(variables),
        signal_map(variables, module, roles) is Ok,
    ensures
        ({
            let map = signal_map(variables, module, roles)->Ok_0;
            forall|a: u32| #[trigger]
                map.regs.contains_key(a) ==> map.names.contains_key(a) && map.regs[a].current
                    == map.names[a]
        }),
{
    let map = signal_map(variables, module, roles)->Ok_0;
    law_signal_map(variables, module, roles);
    assert forall|a: u32| #[trigger] map.regs.contains_key(a) implies map.names.contains_key(a)
        && map.regs[a].current == map.names[a] by {
        assert(map.names.contains_key(a));
        let i = entry_of(variables, module, roles, a);
    }
}

/// Where a variable with a custom property stands in the list.
proof fn entry_of(
    variables: Seq<(u32, Variable)>,
    module: Seq<char>,
    roles: FfRoles,
    id: u32,
) -> (i: int)
    requires
        distinct_ids(variables),
        signal_map(variables, module, roles) is Ok,
        signal_map(variables, module, roles)->Ok_0.names.contains_key(id),
    ensures
        0 <= i < variables.len(),
        variables[i].0 == id,
        public_name(variables[i], module, roles) == Some(
            signal_map(variables, module, roles)->Ok_0.names[id],
        ),
        signal_map(variables, module, roles)->Ok_0.regs.contains_key(id) ==> signal_map(
            variables,
            module,
            roles,
        )->Ok_0.regs[id] == ff_reg(
            signal_map(variables, module, roles)->Ok_0.names[id],
            module,
            last_segment(variables[i].1.path@),
        ),
{
    law_signal_map(variables, module, roles);
    let i = choose|i: int|
        0 <= i < variables.len() && (#[trigger] variables[i]).0 == id && public_name(
            variables[i],
            module,
            roles,
        ) is Some;
    i
}

/// The dashes of the two shapes of public names.
proof fn lemma_shape_dashes(module: Seq<char>, signal: Seq<char>)
    requires
        dashes(module) == 0,
        dashes(signal) == 0,
    ensures
        dashes("--"@ + signal) == 2,
        dashes("--"@ + module + "-"@ + signal) == 3,
{
    crate::naming::lemma_literal_dashes();
    crate::naming::lemma_dashes_add("--"@, signal);
    crate::naming::lemma_dashes_add("--"@, module);
    crate::naming::lemma_dashes_add("--"@ + module, "-"@);
    crate::naming::lemma_dashes_add("--"@ + module + "-"@, signal);
}

/// Declarations of ascending variables, one for each, as assignments.
proof fn lemma_as_assignments(
    ids: Seq<u32>,
    values: Map<u32, CssValue>,
    targets: Map<u32, Seq<char>>,
    missing: Seq<char>,
)
    requires
        forall|i: int| 0 <= i < ids.len() ==> targets.contains_key(#[trigger] ids[i]),
    ensures
        assign_lines(ids, values, targets, missing) == Ok::<Seq<CssLine>, Seq<char>>(
            ids.map_values(|id: u32| CssLine::Assign(targets[id], values[id])),
        ),
    decreases ids.len(),
{
    let line = |id: u32| CssLine::Assign(targets[id], values[id]);
    if ids.len() == 0 {
        assert(ids.map_values(line) == Seq::<CssLine>::empty());
    } else {
        let rest = ids.drop_last();
        assert forall|i: int| 0 <= i < rest.len() implies targets.contains_key(
            #[trigger] rest[i],
        ) by {
            assert(rest[i] == ids[i]);
        }
        lemma_as_assignments(rest, values, targets, missing);
        assert(targets.contains_key(ids[ids.len() - 1]));
        assert(ids.map_values(line) == rest.map_values(line).push(line(ids.last())));
    }
}

/// What declarations of one assignment for each register declare.
pub proof fn lemma_reg_lines(
    regs: Map<u32, FfReg>,
    targets: Map<u32, Seq<char>>,
    values: Map<u32, CssValue>,
    lines: Seq<CssLine>,
)
    requires
        targets.dom() == regs.dom(),
        injective(targets),
        lines == ascending(regs.dom()).map_values(
            |id: u32| CssLine::Assign(targets[id], values[id]),
        ),
    ensures
        forall|id: u32| #[trigger]
            regs.contains_key(id) ==> declared(lines, targets[id]) == Some(values[id]),
        forall|name: Seq<char>|
            (#[trigger] declared(lines, name)) is Some ==> exists|id: u32| #[trigger]
                regs.contains_key(id) && targets[id] == name,
{
    let ids = ascending(regs.dom());
    lemma_ascending(regs.dom());
    assert forall|i: int| 0 <= i < ids.len() implies targets.contains_key(#[trigger] ids[i]) by {
        assert(ids.contains(ids[i]));
        assert(regs.dom().contains(ids[i]));
        assert(targets.dom().contains(ids[i]));
    }
    lemma_as_assignments(ids, values, targets, Seq::empty());
    lemma_assign_declared(ids, values, targets, Seq::empty());
    assert forall|id: u32| #[trigger] regs.contains_key(id) implies declared(lines, targets[id])
        == Some(values[id]) by {
        assert(regs.dom().contains(id));
        assert(ids.contains(id));
        assert(targets.contains_key(id));
    }
    assert forall|name: Seq<char>| (#[trigger] declared(lines, name)) is Some implies exists|id: u32|
        #[trigger]
        regs.contains_key(id) && targets[id] == name by {
        let id = choose|id: u32| #[trigger] targets.contains_key(id) && targets[id] == name;
        assert(targets.dom().contains(id));
        assert(regs.contains_key(id));
    }
}

/// The custom properties once declarations have taken effect, all at once.
pub open spec fn apply(lines: Seq<CssLine>, env: Map<Seq<char>, int>) -> Map<Seq<char>, int> {
    Map::new(
        |name: Seq<char>| env.contains_key(name) || declared(lines, name) is Some,
        |name: Seq<char>|
            match declared(lines, name) {
                Some(value) => css_value(value, env),
                None => env[name],
            },
    )
}

/// The custom properties of a module with a style sheet.
pub open spec fn module_signals(module: Module) -> SignalMap {
    signal_map(module.variables@, module.name@, ff_roles(module.declarations@))->Ok_0
}

/// Law: after the next states have been captured and the captured states brought up, the hoisted
/// state of every register is its next state before.
pub proof fn law_state_transfer(module: Module, env: Map<Seq<char>, int>, id: u32)
    requires
        module_css(module) is Ok,
        well_named(module_signals(module)),
        module_signals(module).regs.contains_key(id),
    ensures
        ({
            let sheet = module_css(module)->Ok_0;
            let reg = module_signals(module).regs[id];
            let after = apply(sheet.hoist, apply(sheet.capture, env));
            css_value(CssValue::VarOrZero(reg.hoist), after) == env[reg.next]
        }),
{
    let sheet = module_css(module)->Ok_0;
    let map = module_signals(module);
    let regs = map.regs;
    let captured = regs.map_values(|reg: FfReg| reg.captured);
    let hoist = regs.map_values(|reg: FfReg| reg.hoist);
    let to_capture = regs.map_values(|reg: FfReg| CssValue::Var(reg.next));
    let to_hoist = regs.map_values(|reg: FfReg| CssValue::VarOrZero(reg.captured));
    let ids = ascending(regs.dom());
    lemma_ascending(regs.dom());
    assert(sheet.capture == ids.map_values(
        |id: u32| CssLine::Assign(captured[id], to_capture[id]),
    )) by {
        assert forall|i: int| 0 <= i < ids.len() implies sheet.capture[i] == CssLine::Assign(
            captured[ids[i]],
            to_capture[ids[i]],
        ) by {
            assert(ids.contains(ids[i]));
            assert(regs.dom().contains(ids[i]));
        }
    }
    assert(sheet.hoist == ids.map_values(|id: u32| CssLine::Assign(hoist[id], to_hoist[id]))) by {
        assert forall|i: int| 0 <= i < ids.len() implies sheet.hoist[i] == CssLine::Assign(
            hoist[ids[i]],
            to_hoist[ids[i]],
        ) by {
            assert(ids.contains(ids[i]));
            assert(regs.dom().contains(ids[i]));
        }
    }
    assert(captured.dom() == regs.dom());
    assert(hoist.dom() == regs.dom());
    lemma_reg_lines(regs, captured, to_capture, sheet.capture);
    lemma_reg_lines(regs, hoist, to_hoist, sheet.hoist);
    let reg = regs[id];
    assert(declared(sheet.capture, captured[id]) == Some(to_capture[id]));
    assert(declared(sheet.hoist, hoist[id]) == Some(to_hoist[id]));
    let middle = apply(sheet.capture, env);
    assert(middle.contains_key(reg.captured));
    assert(middle[reg.captured] == env[reg.next]);
    let after = apply(sheet.hoist, middle);
    assert(after.contains_key(reg.hoist));
    assert(after[reg.hoist] == middle[reg.captured]);
}

/// The rule of a module declares the next states, the signals of `always_comb` blocks and the
/// public states of the registers.
proof fn lemma_body_declares(module: Module)
    requires
        module_css(module) is Ok,
        distinct_ids(module.variables@),
        well_named(module_signals(module)),
        ({
            let map = module_signals(module);
            let parts = declarations_css(
                module.declarations@,
                map.names,
                next_names(map.regs),
            )->Ok_0;
            forall|name: Seq<char>|
                {
                    &&& (#[trigger] declared(parts.comb, name)) is Some ==> exists|id: u32|
                        #[trigger]
                        map.names.contains_key(id) && map.names[id] == name
                    &&& declared(parts.ff, name) is Some ==> exists|id: u32| #[trigger]
                        next_names(map.regs).contains_key(id) && next_names(map.regs)[id] == name
                }
        }),
    ensures
        ({
            let map = module_signals(module);
            let body = module_css(module)->Ok_0.body;
            let parts = declarations_css(
                module.declarations@,
                map.names,
                next_names(map.regs),
            )->Ok_0;
            &&& forall|id: u32| #[trigger]
                map.regs.contains_key(id) && has_ff(module.declarations@) ==> declared(
                    body,
                    map.regs[id].next,
                ) == declared(parts.ff, map.regs[id].next)
            &&& forall|id: u32| #[trigger]
                map.names.contains_key(id) && declared(parts.comb, map.names[id]) is Some
                    ==> declared(body, map.names[id]) == declared(parts.comb, map.names[id])
            &&& forall|id: u32| #[trigger]
                map.regs.contains_key(id) && has_ff(module.declarations@) && declared(
                    parts.comb,
                    map.regs[id].current,
                ) is None ==> declared(body, map.regs[id].current) == Some(
                    CssValue::VarOrZero(map.regs[id].hoist),
                )
        }),
{
    let decls = module.declarations@;
    let map = module_signals(module);
    let regs = map.regs;
    let next = next_names(regs);
    let body = module_css(module)->Ok_0.body;
    let parts = declarations_css(decls, map.names, next)->Ok_0;
    lemma_reg_current(module.variables@, module.name@, ff_roles(decls));
    let head = current_lines(regs);
    let current = regs.map_values(|reg: FfReg| reg.current);
    let shown = regs.map_values(|reg: FfReg| CssValue::VarOrZero(reg.hoist));
    let ids = ascending(regs.dom());
    lemma_ascending(regs.dom());
    assert(head == ids.map_values(|id: u32| CssLine::Assign(current[id], shown[id]))) by {
        assert forall|i: int| 0 <= i < ids.len() implies head[i] == CssLine::Assign(
            current[ids[i]],
            shown[ids[i]],
        ) by {
            assert(ids.contains(ids[i]));
            assert(regs.dom().contains(ids[i]));
        }
    }
    assert(injective(current)) by {
        assert forall|a: u32, b: u32|
            #![trigger current[a], current[b]]
            current.contains_key(a) && current.contains_key(b) && current[a]
                == current[b] implies a == b by {
            assert(regs.contains_key(a) && regs.contains_key(b));
            assert(map.names[a] == map.names[b]);
        }
    }
    assert(current.dom() == regs.dom());
    lemma_reg_lines(regs, current, shown, head);
    if has_ff(decls) {
        assert forall|name: Seq<char>| #[trigger] declared(body, name) == (match declared(
            parts.ff,
            name,
        ) {
            Some(value) => Some(value),
            None => match declared(parts.comb, name) {
                Some(value) => Some(value),
                None => declared(head, name),
            },
        }) by {
            lemma_declared_add(head + parts.comb, parts.ff, name);
            lemma_declared_add(head, parts.comb, name);
        }
        // No public name is that of a next state.
        assert forall|id: u32| #[trigger] map.names.contains_key(id) implies declared(
            parts.ff,
            map.names[id],
        ) is None by {
            if declared(parts.ff, map.names[id]) is Some {
                assert(declared(parts.comb, map.names[id]) == declared(parts.comb, map.names[id]));
                let b = choose|b: u32| #[trigger]
                    next.contains_key(b) && next[b] == map.names[id];
                assert(regs.contains_key(b));
                assert(map.names[id] != map.regs[b].next);
            }
        }
        assert forall|id: u32| #[trigger] map.regs.contains_key(id) implies declared(
            parts.comb,
            map.regs[id].next,
        ) is None && declared(head, map.regs[id].next) is None by {
            let name = map.regs[id].next;
            if declared(parts.comb, name) is Some {
                let a = choose|a: u32| #[trigger]
                    map.names.contains_key(a) && map.names[a] == name;
                assert(map.names[a] != map.regs[id].next);
            }
            if declared(head, name) is Some {
                let a = choose|a: u32| #[trigger] regs.contains_key(a) && current[a] == name;
                assert(map.names.contains_key(a) && map.names[a] == name);
                assert(map.names[a] != map.regs[id].next);
            }
        }
        assert forall|id: u32| #[trigger]
            map.regs.contains_key(id) && has_ff(module.declarations@) && declared(
                parts.comb,
                map.regs[id].current,
            ) is None implies declared(body, map.regs[id].current) == Some(
            CssValue::VarOrZero(map.regs[id].hoist),
        ) by {
            assert(map.names.contains_key(id));
            assert(declared(head, current[id]) == Some(shown[id]));
        }
    }
}

/// Law: where custom properties have the values that the rule of a module's style sheet gives
/// them, every signal that the `always_comb` blocks assign has the value that they assign, and the
/// next state of every register that the `always_ff` blocks assign is what these assign.
pub proof fn law_module_values(
    module: Module,
    env: Map<Seq<char>, int>,
    state: spec_fn(u32) -> int,
    reset: bool,
)
    requires
        module_css(module) is Ok,
        distinct_ids(module.variables@),
        well_named(module_signals(module)),
        declarations_exact(module.declarations@),
        solves(env, module_css(module)->Ok_0.body),
        agrees(env, module_signals(module).names, state),
        reset <==> env["--rst"@] == 1,
    ensures
        forall|id: u32| #[trigger]
            comb_writes(module.declarations@, state, reset).contains_key(id) ==> {
                &&& module_signals(module).names.contains_key(id)
                &&& env[module_signals(module).names[id]] == comb_writes(
                    module.declarations@,
                    state,
                    reset,
                )[id]
            },
        forall|id: u32| #[trigger]
            ff_writes(module.declarations@, state, reset).contains_key(id) ==> {
                &&& module_signals(module).regs.contains_key(id)
                &&& env[module_signals(module).regs[id].next] == ff_writes(
                    module.declarations@,
                    state,
                    reset,
                )[id]
            },
        forall|id: u32| #[trigger]
            module_signals(module).regs.contains_key(id) && has_ff(module.declarations@)
                && !comb_writes(module.declarations@, state, reset).contains_key(id) ==> declared(
                module_css(module)->Ok_0.body,
                module_signals(module).regs[id].current,
            ) == Some(CssValue::VarOrZero(module_signals(module).regs[id].hoist)),
{
    let decls = module.declarations@;
    let map = module_signals(module);
    let next = next_names(map.regs);
    let body = module_css(module)->Ok_0.body;
    let parts = declarations_css(decls, map.names, next)->Ok_0;
    lemma_reg_current(module.variables@, module.name@, ff_roles(decls));
    law_conditions_fresh(module);
    assert(conds_set(env, 0, parts.conds)) by {
        assert forall|k: int| 0 <= k < parts.conds.len() implies env[cond_name((0 + k) as nat)]
            == cond_value(#[trigger] parts.conds[k], env) by {
            let line = CssLine::Cond((0 + k) as nat, parts.conds[k]);
            assert(body.contains(line));
            let i = body.index_of(line);
            assert(body[i] == line);
        }
    }
    lemma_declarations_compute(decls, map.names, next, env, state, reset);
    lemma_body_declares(module);
    let comb = comb_writes(decls, state, reset);
    let ff = ff_writes(decls, state, reset);
    assert forall|id: u32| #[trigger] comb.contains_key(id) implies map.names.contains_key(id)
        && env[map.names[id]] == comb[id] by {
        assert(map.names.contains_key(id));
        assert(declared(parts.comb, map.names[id]) is Some);
        assert(declared(body, map.names[id]) == declared(parts.comb, map.names[id]));
    }
    assert forall|id: u32| #[trigger] ff.contains_key(id) implies map.regs.contains_key(id)
        && env[map.regs[id].next] == ff[id] by {
        lemma_ff_writes_need_ff(decls, state, reset);
        assert(next.contains_key(id));
        assert(map.regs.contains_key(id));
        assert(declared(parts.ff, next[id]) is Some);
        assert(declared(body, map.regs[id].next) == declared(parts.ff, map.regs[id].next));
    }
    assert forall|id: u32| #[trigger]
        map.regs.contains_key(id) && has_ff(decls) && !comb.contains_key(id) implies declared(
        body,
        map.regs[id].current,
    ) == Some(CssValue::VarOrZero(map.regs[id].hoist)) by {
        assert(map.names.contains_key(id));
        assert(declared(parts.comb, map.names[id]) is None);
    }
}

/// Nothing is assigned by `always_ff` blocks where there are none.
pub proof fn lemma_ff_writes_need_ff(
    decls: Seq<Declaration>,
    state: spec_fn(u32) -> int,
    reset: bool,
)
    ensures
        !has_ff(decls) ==> ff_writes(decls, state, reset) == Map::<u32, int>::empty(),
    decreases decls.len(),
{
    if decls.len() > 0 && !has_ff(decls) {
        let rest = decls.drop_last();
        assert(!has_ff(rest)) by {
            if has_ff(rest) {
                let i = choose|i: int| 0 <= i < rest.len() && #[trigger] rest[i] is Ff;
                assert(decls[i] is Ff);
            }
        }
        assert(!(decls[decls.len() - 1] is Ff));
        lemma_ff_writes_need_ff(rest, state, reset);
    }
}

/// Law: a clock cycle. Where custom properties have the values that the rule of a module's style
/// sheet gives them, and then the next states are captured and the captured states brought up,
/// every register that the `always_ff` blocks assign shows the value that they assign.
pub proof fn law_clock_cycle(
    module: Module,
    env: Map<Seq<char>, int>,
    state: spec_fn(u32) -> int,
    reset: bool,
    id: u32,
)
    requires
        module_css(module) is Ok,
        distinct_ids(module.variables@),
        well_named(module_signals(module)),
        declarations_exact(module.declarations@),
        solves(env, module_css(module)->Ok_0.body),
        agrees(env, module_signals(module).names, state),
        reset <==> env["--rst"@] == 1,
        ff_writes(module.declarations@, state, reset).contains_key(id),
        !comb_writes(module.declarations@, state, reset).contains_key(id),
    ensures
        ({
            let sheet = module_css(module)->Ok_0;
            let after = apply(sheet.hoist, apply(sheet.capture, env));
            let current = module_signals(module).names[id];
            declared(sheet.body, current) matches Some(value) && css_value(value, after)
                == ff_writes(module.declarations@, state, reset)[id]
        }),
{
    law_module_values(module, env, state, reset);
    lemma_ff_writes_need_ff(module.declarations@, state, reset);
    lemma_reg_current(module.variables@, module.name@, ff_roles(module.declarations@));
    assert(module_signals(module).regs.contains_key(id));
    law_state_transfer(module, env, id);
}

} // verus!
