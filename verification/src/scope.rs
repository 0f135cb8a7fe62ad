//! What the declarations of a style sheet set and read.

use vstd::prelude::*;

use crate::branch::{branch_css, if_css, law_if_balanced, Branch};
use crate::css::{cond_lines, cond_name, CompFn, CssCond, CssLine, CssValue};
use crate::expr::{condition_css, expr_css};
use crate::ir::{
    Declaration, Expression, Factor, IfResetStatement, IfStatement, Module, Statement, Variable,
};
use crate::literal::{is_css_integer, law_css_integer};
use crate::value::value_text;
use crate::module::{comb_css, current_lines, declarations_css, ff_css, module_css, next_names};
use crate::order::{ascending, lemma_ascending};
use crate::signal::{ff_roles, signal_map, FfRoles};
use crate::statement::{
    assign_lines, assigned_lines, comb_statement_css, comb_statement_lines, ff_statement_css,
    ff_statement_lines, if_block, if_lines, if_reset_css, if_reset_lines, lemma_assigned_lines,
    reset_conds, reset_values, sides_accepted,
};
use crate::text::nat_text;

verus! {

/// Whether declarations set the given conditions, numbered from `lo` on, each of them once, and
/// no others.
pub open spec fn sets_conds(lines: Seq<CssLine>, lo: nat, conds: Seq<CssCond>) -> bool {
    &&& forall|i: int|
        0 <= i < lines.len() ==> (#[trigger] lines[i] matches CssLine::Cond(k, cond) ==> lo <= k
            < lo + conds.len() && cond == conds[k - lo])
    &&& forall|i: int, j: int|
        0 <= i < j < lines.len() && #[trigger] lines[i] is Cond && #[trigger] lines[j] is Cond
            ==> lines[i]->Cond_0 != lines[j]->Cond_0
    &&& forall|k: int|
        0 <= k < conds.len() ==> lines.contains(CssLine::Cond((lo + k) as nat, #[trigger] conds[k]))
}

/// Declarations that set further conditions may stand anywhere among others.
proof fn lemma_sets_insert(
    x: Seq<CssLine>,
    b: Seq<CssLine>,
    y: Seq<CssLine>,
    lo: nat,
    p: Seq<CssCond>,
    q: Seq<CssCond>,
)
    requires
        sets_conds(x + y, lo, p),
        sets_conds(b, lo + p.len(), q),
    ensures
        sets_conds(x + b + y, lo, p + q),
{
    let s = x + y;
    let t = x + b + y;
    let c = p + q;
    assert forall|i: int| 0 <= i < t.len() implies (#[trigger] t[i] matches CssLine::Cond(k, cond)
        ==> lo <= k < lo + c.len() && cond == c[k - lo]) by {
        if i < x.len() {
            assert(t[i] == s[i]);
        } else if i < x.len() + b.len() {
            assert(t[i] == b[i - x.len()]);
        } else {
            assert(t[i] == s[i - b.len()]);
        }
    }
    assert forall|i: int, j: int|
        0 <= i < j < t.len() && #[trigger] t[i] is Cond && #[trigger] t[j] is Cond implies t[i]->Cond_0
        != t[j]->Cond_0 by {
        let in_b_i = x.len() <= i < x.len() + b.len();
        let in_b_j = x.len() <= j < x.len() + b.len();
        let i2 = if i < x.len() {
            i
        } else {
            i - b.len()
        };
        let j2 = if j < x.len() {
            j
        } else {
            j - b.len()
        };
        if in_b_i {
            assert(t[i] == b[i - x.len()]);
        } else {
            assert(t[i] == s[i2]);
        }
        if in_b_j {
            assert(t[j] == b[j - x.len()]);
        } else {
            assert(t[j] == s[j2]);
        }
    }
    assert forall|k: int| 0 <= k < c.len() implies t.contains(
        CssLine::Cond((lo + k) as nat, #[trigger] c[k]),
    ) by {
        let line = CssLine::Cond((lo + k) as nat, c[k]);
        if k < p.len() {
            assert(c[k] == p[k]);
            assert(s.contains(line));
            let i = s.index_of(line);
            if i < x.len() {
                assert(t[i] == line);
            } else {
                assert(t[i + b.len()] == line);
            }
        } else {
            assert(c[k] == q[k - p.len()]);
            assert((lo + p.len() + (k - p.len())) as nat == (lo + k) as nat);
            assert(b.contains(line));
            let i = b.index_of(line);
            assert(t[x.len() + i] == line);
        }
    }
}

/// Declarations without conditions set none.
proof fn lemma_sets_none(lines: Seq<CssLine>, lo: nat)
    requires
        forall|i: int| 0 <= i < lines.len() ==> !(#[trigger] lines[i] is Cond),
    ensures
        sets_conds(lines, lo, Seq::empty()),
{
}

/// Joined declarations set what their parts set.
proof fn lemma_sets_add(
    a: Seq<CssLine>,
    b: Seq<CssLine>,
    lo: nat,
    p: Seq<CssCond>,
    q: Seq<CssCond>,
)
    requires
        sets_conds(a, lo, p),
        sets_conds(b, lo + p.len(), q),
    ensures
        sets_conds(a + b, lo, p + q),
{
    let none = Seq::<CssLine>::empty();
    assert(a + none == a);
    lemma_sets_insert(a, b, none, lo, p, q);
    assert(a + b + none == a + b);
}

/// The declarations of conditions, followed by assignments, set these conditions.
proof fn lemma_sets_preamble(n: nat, conds: Seq<CssCond>, lines: Seq<CssLine>)
    requires
        forall|i: int| 0 <= i < lines.len() ==> !(#[trigger] lines[i] is Cond),
    ensures
        sets_conds(cond_lines(n, conds) + lines, n, conds),
{
    let head = cond_lines(n, conds);
    assert(sets_conds(head, n, conds)) by {
        assert forall|k: int| 0 <= k < conds.len() implies head.contains(
            CssLine::Cond((n + k) as nat, #[trigger] conds[k]),
        ) by {
            assert(head[k] == CssLine::Cond((n + k) as nat, conds[k]));
        }
    }
    lemma_sets_none(lines, n + conds.len());
    lemma_sets_add(head, lines, n, conds, Seq::empty());
    assert(conds + Seq::<CssCond>::empty() == conds);
}

proof fn lemma_assign_lines_no_cond(
    ids: Seq<u32>,
    values: Map<u32, CssValue>,
    targets: Map<u32, Seq<char>>,
    missing: Seq<char>,
)
    ensures
        assign_lines(ids, values, targets, missing) matches Ok(lines) ==> forall|i: int|
            0 <= i < lines.len() ==> !(#[trigger] lines[i] is Cond),
    decreases ids.len(),
{
    if ids.len() > 0 {
        lemma_assign_lines_no_cond(ids.drop_last(), values, targets, missing);
    }
}

proof fn lemma_if_block_sets(
    stmt: IfStatement,
    names: Map<u32, Seq<char>>,
    targets: Map<u32, Seq<char>>,
    missing: Seq<char>,
    n: nat,
)
    ensures
        if_block(stmt, names, targets, missing, n) matches Ok(block) ==> sets_conds(
            block.lines,
            n,
            block.conds,
        ),
{
    if if_block(stmt, names, targets, missing, n) is Ok {
        let branch = if_css(stmt, names, n)->Ok_0;
        let ids = ascending(branch.values.dom());
        lemma_assign_lines_no_cond(ids, branch.values, targets, missing);
        let lines = assign_lines(ids, branch.values, targets, missing)->Ok_0;
        lemma_sets_preamble(n, branch.conds, lines);
    }
}

proof fn lemma_comb_statement_sets(stmt: Statement, names: Map<u32, Seq<char>>, n: nat)
    ensures
        comb_statement_css(stmt, names, n) matches Ok(block) ==> sets_conds(
            block.lines,
            n,
            block.conds,
        ),
{
    if let Statement::If(s) = stmt {
        lemma_if_block_sets(s, names, names, "unknown variable in if branch: "@, n);
    }
}

proof fn lemma_ff_statement_sets(
    stmt: Statement,
    names: Map<u32, Seq<char>>,
    next: Map<u32, Seq<char>>,
    n: nat,
)
    ensures
        ff_statement_css(stmt, names, next, n) matches Ok(block) ==> sets_conds(
            block.lines,
            n,
            block.conds,
        ),
{
    match stmt {
        Statement::If(s) => {
            lemma_if_block_sets(s, names, next, "if assigns to non-ff variable: "@, n);
        },
        Statement::IfReset(s) => {
            if if_reset_css(s, names, next, n) is Ok {
                let reset = branch_css(s.true_side@, names, n)->Ok_0;
                let normal = branch_css(s.false_side@, names, n + reset.conds.len())->Ok_0;
                let ids = ascending(reset.values.dom() + normal.values.dom());
                let values = reset_values(reset.values, normal.values);
                let missing = "if_reset assigns to non-ff variable: "@;
                lemma_assign_lines_no_cond(ids, values, next, missing);
                let lines = assign_lines(ids, values, next, missing)->Ok_0;
                lemma_sets_preamble(n, reset.conds + normal.conds, lines);
            }
        },
        _ => {},
    }
}

proof fn lemma_comb_sets(stmts: Seq<Statement>, names: Map<u32, Seq<char>>, n: nat)
    ensures
        comb_css(stmts, names, n) matches Ok(block) ==> sets_conds(block.lines, n, block.conds),
    decreases stmts.len(),
{
    if stmts.len() > 0 && comb_css(stmts, names, n) is Ok {
        let before = comb_css(stmts.drop_last(), names, n)->Ok_0;
        lemma_comb_sets(stmts.drop_last(), names, n);
        let m = n + before.conds.len();
        lemma_comb_statement_sets(stmts.last(), names, m);
        let block = comb_statement_css(stmts.last(), names, m)->Ok_0;
        lemma_sets_add(before.lines, block.lines, n, before.conds, block.conds);
    }
}

proof fn lemma_ff_sets(
    stmts: Seq<Statement>,
    names: Map<u32, Seq<char>>,
    next: Map<u32, Seq<char>>,
    n: nat,
)
    ensures
        ff_css(stmts, names, next, n) matches Ok(block) ==> sets_conds(
            block.lines,
            n,
            block.conds,
        ),
    decreases stmts.len(),
{
    if stmts.len() > 0 && ff_css(stmts, names, next, n) is Ok {
        let before = ff_css(stmts.drop_last(), names, next, n)->Ok_0;
        lemma_ff_sets(stmts.drop_last(), names, next, n);
        let m = n + before.conds.len();
        lemma_ff_statement_sets(stmts.last(), names, next, m);
        let block = ff_statement_css(stmts.last(), names, next, m)->Ok_0;
        lemma_sets_add(before.lines, block.lines, n, before.conds, block.conds);
    }
}

proof fn lemma_declarations_set(
    decls: Seq<Declaration>,
    names: Map<u32, Seq<char>>,
    next: Map<u32, Seq<char>>,
)
    ensures
        declarations_css(decls, names, next) matches Ok(body) ==> sets_conds(
            body.comb + body.ff,
            0,
            body.conds,
        ),
    decreases decls.len(),
{
    if decls.len() == 0 {
        let none = Seq::<CssLine>::empty();
        assert(none + none == none);
    } else if declarations_css(decls, names, next) is Ok {
        let before = declarations_css(decls.drop_last(), names, next)->Ok_0;
        lemma_declarations_set(decls.drop_last(), names, next);
        let n = before.conds.len();
        match decls.last() {
            Declaration::Comb(comb) => {
                lemma_comb_sets(comb.statements@, names, n);
                let block = comb_css(comb.statements@, names, n)->Ok_0;
                lemma_sets_insert(
                    before.comb,
                    block.lines,
                    before.ff,
                    0,
                    before.conds,
                    block.conds,
                );
            },
            Declaration::Ff(ff) => {
                lemma_ff_sets(ff.statements@, names, next, n);
                let block = ff_css(ff.statements@, names, next, n)->Ok_0;
                lemma_sets_add(
                    before.comb + before.ff,
                    block.lines,
                    0,
                    before.conds,
                    block.conds,
                );
                assert(before.comb + before.ff + block.lines == before.comb + (before.ff
                    + block.lines));
            },
            _ => {},
        }
    }
}

/// The declarations of `always_comb` blocks alone set conditions of a module without registers.
proof fn lemma_no_ff_lines(
    decls: Seq<Declaration>,
    names: Map<u32, Seq<char>>,
    next: Map<u32, Seq<char>>,
)
    requires
        !crate::module::has_ff(decls),
    ensures
        declarations_css(decls, names, next) matches Ok(body) ==> body.ff.len() == 0,
    decreases decls.len(),
{
    if decls.len() > 0 {
        let rest = decls.drop_last();
        assert(!crate::module::has_ff(rest)) by {
            if crate::module::has_ff(rest) {
                let i = choose|i: int| 0 <= i < rest.len() && #[trigger] rest[i] is Ff;
                assert(decls[i] is Ff);
            }
        }
        assert(!(decls[decls.len() - 1] is Ff));
        lemma_no_ff_lines(rest, names, next);
    }
}

/// The conditions of a module, in the order of their numbers.
pub open spec fn module_conds(module: Module) -> Seq<CssCond> {
    let map = signal_map(module.variables@, module.name@, ff_roles(module.declarations@))->Ok_0;
    declarations_css(module.declarations@, map.names, next_names(map.regs))->Ok_0.conds
}

/// Law: the rule of a style sheet sets each condition of the module once, under a number of its
/// own, counted from 0.
pub proof fn law_conditions_fresh(module: Module)
    requires
        module_css(module) is Ok,
    ensures
        sets_conds(module_css(module)->Ok_0.body, 0, module_conds(module)),
{
    let decls = module.declarations@;
    let map = signal_map(module.variables@, module.name@, ff_roles(decls))->Ok_0;
    let next = next_names(map.regs);
    let body = declarations_css(decls, map.names, next)->Ok_0;
    lemma_declarations_set(decls, map.names, next);
    if crate::module::has_ff(decls) {
        let head = current_lines(map.regs);
        lemma_sets_none(head, 0);
        lemma_sets_add(head, body.comb + body.ff, 0, Seq::empty(), body.conds);
        assert(Seq::<CssCond>::empty() + body.conds == body.conds);
        assert(head + (body.comb + body.ff) == head + body.comb + body.ff);
    } else {
        lemma_no_ff_lines(decls, map.names, next);
        assert(body.comb + body.ff == body.comb);
    }
}

/// Law: conditions of different numbers have different custom properties.
pub proof fn law_cond_names_differ(m: nat, n: nat)
    requires
        cond_name(m) == cond_name(n),
    ensures
        m == n,
{
    let head = "--veryl-cond-"@;
    assert(cond_name(m).skip(head.len() as int) == nat_text(m));
    assert(cond_name(n).skip(head.len() as int) == nat_text(n));
    crate::semantics::law_numeral_denotes(m as int);
    crate::semantics::law_numeral_denotes(n as int);
}

/// Law: a style sheet declares the function of a comparison if and only if a condition in its rule
/// uses that comparison.
pub proof fn law_functions_used(module: Module, f: CompFn)
    requires
        module_css(module) is Ok,
    ensures
        module_css(module)->Ok_0.functions.contains(f) <==> exists|i: int|
            0 <= i < module_css(module)->Ok_0.body.len() && (#[trigger] module_css(
                module,
            )->Ok_0.body[i] matches CssLine::Cond(_, cond) && cond.f == f),
{
    law_conditions_fresh(module);
    let body = module_css(module)->Ok_0.body;
    let conds = module_conds(module);
    let fns = conds.map_values(|cond: CssCond| cond.f);
    if fns.to_set().contains(f) {
        let k = fns.index_of(f);
        assert(conds[k].f == f);
        let line = CssLine::Cond((0 + k) as nat, conds[k]);
        assert(body.contains(line));
        let i = body.index_of(line);
        assert(body[i] == line);
    }
    if exists|i: int|
        0 <= i < body.len() && (#[trigger] body[i] matches CssLine::Cond(_, cond) && cond.f == f) {
        let i = choose|i: int|
            0 <= i < body.len() && (#[trigger] body[i] matches CssLine::Cond(_, cond) && cond.f
                == f);
        let k = body[i]->Cond_0;
        assert(fns[k as int] == f);
    }
}

/// What the declarations of a style sheet may read and set.
pub struct Scope {
    /// The registered custom properties.
    pub public: Set<Seq<char>>,
    /// The custom properties that hold the states of registers.
    pub hoisted: Set<Seq<char>>,
    /// How many conditions there are.
    pub conds: nat,
    /// The custom properties that may be set besides those of conditions.
    pub targets: Set<Seq<char>>,
}

/// Whether a value reads only what is in scope, and all integers in it are such.
pub open spec fn in_scope(value: CssValue, scope: Scope) -> bool
    decreases value,
{
    match value {
        CssValue::Int(numeral) => is_css_integer(numeral),
        CssValue::Var(name) => scope.public.contains(name),
        CssValue::VarOrZero(name) => scope.hoisted.contains(name),
        CssValue::Neg(x) => in_scope(*x, scope),
        CssValue::Add(l, r) => in_scope(*l, scope) && in_scope(*r, scope),
        CssValue::Sub(l, r) => in_scope(*l, scope) && in_scope(*r, scope),
        CssValue::Mul(l, r) => in_scope(*l, scope) && in_scope(*r, scope),
        CssValue::Div(l, r) => in_scope(*l, scope) && in_scope(*r, scope),
        CssValue::Rem(l, r) => in_scope(*l, scope) && in_scope(*r, scope),
        CssValue::IfCond(n, t, f) => n < scope.conds && in_scope(*t, scope) && in_scope(*f, scope),
        CssValue::IfReset(t, f) => in_scope(*t, scope) && in_scope(*f, scope),
    }
}

/// Whether a declaration reads and sets only what is in scope.
pub open spec fn line_in_scope(line: CssLine, scope: Scope) -> bool {
    match line {
        CssLine::Cond(n, cond) => n < scope.conds && in_scope(cond.l, scope) && in_scope(
            cond.r,
            scope,
        ),
        CssLine::Assign(name, value) => scope.targets.contains(name) && in_scope(value, scope),
    }
}

/// Whether all declarations read and set only what is in scope.
pub open spec fn lines_in_scope(lines: Seq<CssLine>, scope: Scope) -> bool {
    forall|i: int| 0 <= i < lines.len() ==> line_in_scope(#[trigger] lines[i], scope)
}

/// Whether all variables with a custom property have a registered one.
pub open spec fn names_in_scope(names: Map<u32, Seq<char>>, scope: Scope) -> bool {
    forall|id: u32| #[trigger] names.contains_key(id) ==> scope.public.contains(names[id])
}

/// Whether all variables with a target have one that may be set.
pub open spec fn targets_in_scope(targets: Map<u32, Seq<char>>, scope: Scope) -> bool {
    forall|id: u32| #[trigger] targets.contains_key(id) ==> scope.targets.contains(targets[id])
}

/// Whether a branch reads only what is in scope.
pub open spec fn branch_in_scope(branch: Branch, scope: Scope) -> bool {
    &&& forall|id: u32| #[trigger]
        branch.values.contains_key(id) ==> in_scope(branch.values[id], scope)
    &&& forall|i: int|
        0 <= i < branch.conds.len() ==> in_scope((#[trigger] branch.conds[i]).l, scope) && in_scope(
            branch.conds[i].r,
            scope,
        )
}

pub proof fn lemma_expr_scope(expr: Expression, names: Map<u32, Seq<char>>, scope: Scope)
    requires
        names_in_scope(names, scope),
    ensures
        expr_css(expr, names) matches Ok(value) ==> in_scope(value, scope),
    decreases expr,
{
    match expr {
        Expression::Unary(_, inner) => {
            lemma_expr_scope(*inner, names, scope);
        },
        Expression::Binary(lhs, _, rhs) => {
            lemma_expr_scope(*lhs, names, scope);
            lemma_expr_scope(*rhs, names, scope);
        },
        Expression::Term(factor) => {
            if let Factor::Value(Some(value)) = *factor {
                law_css_integer(value_text(value));
            }
        },
        _ => {},
    }
}

proof fn lemma_branch_scope(
    stmts: Seq<Statement>,
    names: Map<u32, Seq<char>>,
    n: nat,
    scope: Scope,
)
    requires
        names_in_scope(names, scope),
        branch_css(stmts, names, n) is Ok,
        n + branch_css(stmts, names, n)->Ok_0.conds.len() <= scope.conds,
    ensures
        branch_in_scope(branch_css(stmts, names, n)->Ok_0, scope),
    decreases stmts,
{
    if stmts.len() > 0 {
        let before = branch_css(stmts.drop_last(), names, n)->Ok_0;
        lemma_branch_scope(stmts.drop_last(), names, n, scope);
        match stmts.last() {
            Statement::Assign(assign) => {
                lemma_expr_scope(assign.expr, names, scope);
            },
            Statement::If(stmt) => {
                let nested = if_css(stmt, names, n + before.conds.len())->Ok_0;
                lemma_if_scope(stmt, names, n + before.conds.len(), scope);
                let all = before.conds + nested.conds;
                assert forall|i: int| 0 <= i < all.len() implies in_scope(
                    (#[trigger] all[i]).l,
                    scope,
                ) && in_scope(all[i].r, scope) by {
                    if i < before.conds.len() {
                        assert(all[i] == before.conds[i]);
                    } else {
                        assert(all[i] == nested.conds[i - before.conds.len()]);
                    }
                }
                let values = before.values.union_prefer_right(nested.values);
                assert forall|id: u32| #[trigger] values.contains_key(id) implies in_scope(
                    values[id],
                    scope,
                ) by {
                    if !nested.values.contains_key(id) {
                        assert(before.values.contains_key(id));
                    }
                }
            },
            _ => {},
        }
    }
}

proof fn lemma_if_scope(stmt: IfStatement, names: Map<u32, Seq<char>>, n: nat, scope: Scope)
    requires
        names_in_scope(names, scope),
        if_css(stmt, names, n) is Ok,
        n + if_css(stmt, names, n)->Ok_0.conds.len() <= scope.conds,
    ensures
        branch_in_scope(if_css(stmt, names, n)->Ok_0, scope),
    decreases stmt,
{
    let all = if_css(stmt, names, n)->Ok_0;
    let cond = condition_css(stmt.cond, stmt.cond_text@, names)->Ok_0;
    let t = branch_css(stmt.true_side@, names, n + 1)->Ok_0;
    let f = branch_css(stmt.false_side@, names, n + 1 + t.conds.len())->Ok_0;
    law_if_balanced(stmt, names, n);
    lemma_branch_scope(stmt.true_side@, names, n + 1, scope);
    lemma_branch_scope(stmt.false_side@, names, n + 1 + t.conds.len(), scope);
    if let Expression::Binary(lhs, _, rhs) = stmt.cond {
        lemma_expr_scope(*lhs, names, scope);
        lemma_expr_scope(*rhs, names, scope);
    }
    assert forall|i: int| 0 <= i < all.conds.len() implies in_scope(
        (#[trigger] all.conds[i]).l,
        scope,
    ) && in_scope(all.conds[i].r, scope) by {
        if i == 0 {
            assert(all.conds[i] == cond);
        } else if i < 1 + t.conds.len() {
            assert(all.conds[i] == t.conds[i - 1]);
        } else {
            assert(all.conds[i] == f.conds[i - 1 - t.conds.len()]);
        }
    }
    assert forall|id: u32| #[trigger] all.values.contains_key(id) implies in_scope(
        all.values[id],
        scope,
    ) by {
        assert(t.values.contains_key(id));
        assert(f.values.dom().contains(id));
        assert(f.values.contains_key(id));
    }
}

proof fn lemma_assigned_scope(
    ids: Seq<u32>,
    values: Map<u32, CssValue>,
    targets: Map<u32, Seq<char>>,
    scope: Scope,
)
    requires
        targets_in_scope(targets, scope),
        forall|i: int| 0 <= i < ids.len() ==> values.contains_key(#[trigger] ids[i]),
        forall|id: u32| #[trigger] values.contains_key(id) ==> in_scope(values[id], scope),
    ensures
        lines_in_scope(assigned_lines(ids, values, targets), scope),
    decreases ids.len(),
{
    if ids.len() > 0 {
        let rest = ids.drop_last();
        assert forall|i: int| 0 <= i < rest.len() implies values.contains_key(
            #[trigger] rest[i],
        ) by {
            assert(rest[i] == ids[i]);
        }
        lemma_assigned_scope(rest, values, targets, scope);
        assert(values.contains_key(ids[ids.len() - 1]));
    }
}

/// The declarations of conditions, followed by assignments, are in scope where their parts are.
proof fn lemma_preamble_scope(
    n: nat,
    branch: Branch,
    ids: Set<u32>,
    values: Map<u32, CssValue>,
    targets: Map<u32, Seq<char>>,
    scope: Scope,
)
    requires
        targets_in_scope(targets, scope),
        n + branch.conds.len() <= scope.conds,
        branch_in_scope(branch, scope),
        values.dom() == ids,
        forall|id: u32| #[trigger] values.contains_key(id) ==> in_scope(values[id], scope),
    ensures
        lines_in_scope(
            cond_lines(n, branch.conds) + assigned_lines(ascending(ids), values, targets),
            scope,
        ),
{
    lemma_ascending(ids);
    assert forall|i: int| 0 <= i < ascending(ids).len() implies values.contains_key(
        #[trigger] ascending(ids)[i],
    ) by {
        assert(ascending(ids).contains(ascending(ids)[i]));
        assert(ids.contains(ascending(ids)[i]));
    }
    lemma_assigned_scope(ascending(ids), values, targets, scope);
    let lines = assigned_lines(ascending(ids), values, targets);
    let head = cond_lines(n, branch.conds);
    let all = head + lines;
    assert forall|i: int| 0 <= i < all.len() implies line_in_scope(#[trigger] all[i], scope) by {
        if i < head.len() {
            assert(all[i] == CssLine::Cond((n + i) as nat, branch.conds[i]));
        } else {
            assert(all[i] == lines[i - head.len()]);
        }
    }
}

/// The declarations that are written for a conditional statement are in scope.
proof fn lemma_if_lines_scope(
    stmt: IfStatement,
    names: Map<u32, Seq<char>>,
    targets: Map<u32, Seq<char>>,
    n: nat,
    scope: Scope,
)
    requires
        targets_in_scope(targets, scope),
        names_in_scope(names, scope),
        if_css(stmt, names, n) matches Ok(branch) ==> n + branch.conds.len() <= scope.conds,
    ensures
        lines_in_scope(if_lines(stmt, names, targets, n), scope),
{
    if if_css(stmt, names, n) is Ok {
        let branch = if_css(stmt, names, n)->Ok_0;
        lemma_if_scope(stmt, names, n, scope);
        lemma_preamble_scope(n, branch, branch.values.dom(), branch.values, targets, scope);
    }
}

/// The declarations that are written for a statement that is conditional on the reset are in scope.
proof fn lemma_if_reset_lines_scope(
    stmt: IfResetStatement,
    names: Map<u32, Seq<char>>,
    next: Map<u32, Seq<char>>,
    n: nat,
    scope: Scope,
)
    requires
        targets_in_scope(next, scope),
        names_in_scope(names, scope),
        sides_accepted(stmt, names, n) ==> n + reset_conds(stmt, names, n).len() <= scope.conds,
    ensures
        lines_in_scope(if_reset_lines(stmt, names, next, n), scope),
{
    if sides_accepted(stmt, names, n) {
        let reset = branch_css(stmt.true_side@, names, n)->Ok_0;
        let normal = branch_css(stmt.false_side@, names, n + reset.conds.len())->Ok_0;
        lemma_branch_scope(stmt.true_side@, names, n, scope);
        lemma_branch_scope(stmt.false_side@, names, n + reset.conds.len(), scope);
        let values = reset_values(reset.values, normal.values);
        let both = Branch { conds: reset.conds + normal.conds, values };
        assert forall|id: u32| #[trigger] values.contains_key(id) implies in_scope(
            values[id],
            scope,
        ) by {
            if reset.values.contains_key(id) {
                assert(in_scope(reset.values[id], scope));
            }
            if normal.values.contains_key(id) {
                assert(in_scope(normal.values[id], scope));
            }
        }
        assert forall|i: int| 0 <= i < both.conds.len() implies in_scope(
            (#[trigger] both.conds[i]).l,
            scope,
        ) && in_scope(both.conds[i].r, scope) by {
            if i < reset.conds.len() {
                assert(both.conds[i] == reset.conds[i]);
            } else {
                assert(both.conds[i] == normal.conds[i - reset.conds.len()]);
            }
        }
        assert(values.dom() == reset.values.dom() + normal.values.dom());
        lemma_preamble_scope(
            n,
            both,
            reset.values.dom() + normal.values.dom(),
            values,
            next,
            scope,
        );
    }
}

proof fn lemma_if_block_scope(
    stmt: IfStatement,
    names: Map<u32, Seq<char>>,
    targets: Map<u32, Seq<char>>,
    missing: Seq<char>,
    n: nat,
    scope: Scope,
)
    requires
        targets_in_scope(targets, scope),
        names_in_scope(names, scope),
        if_block(stmt, names, targets, missing, n) is Ok,
        n + if_block(stmt, names, targets, missing, n)->Ok_0.conds.len() <= scope.conds,
    ensures
        lines_in_scope(if_block(stmt, names, targets, missing, n)->Ok_0.lines, scope),
{
    let branch = if_css(stmt, names, n)->Ok_0;
    lemma_assigned_lines(ascending(branch.values.dom()), branch.values, targets, missing);
    lemma_if_lines_scope(stmt, names, targets, n, scope);
}

pub proof fn lemma_comb_statement_scope(
    stmt: Statement,
    names: Map<u32, Seq<char>>,
    n: nat,
    scope: Scope,
)
    requires
        targets_in_scope(names, scope),
        names_in_scope(names, scope),
        comb_statement_css(stmt, names, n) is Ok,
        n + comb_statement_css(stmt, names, n)->Ok_0.conds.len() <= scope.conds,
    ensures
        lines_in_scope(comb_statement_css(stmt, names, n)->Ok_0.lines, scope),
{
    match stmt {
        Statement::Assign(assign) => {
            lemma_expr_scope(assign.expr, names, scope);
        },
        Statement::If(s) => {
            lemma_if_block_scope(
                s,
                names,
                names,
                "unknown variable in if branch: "@,
                n,
                scope,
            );
        },
        _ => {},
    }
}

pub proof fn lemma_ff_statement_scope(
    stmt: Statement,
    names: Map<u32, Seq<char>>,
    next: Map<u32, Seq<char>>,
    n: nat,
    scope: Scope,
)
    requires
        targets_in_scope(next, scope),
        names_in_scope(names, scope),
        ff_statement_css(stmt, names, next, n) is Ok,
        n + ff_statement_css(stmt, names, next, n)->Ok_0.conds.len() <= scope.conds,
    ensures
        lines_in_scope(ff_statement_css(stmt, names, next, n)->Ok_0.lines, scope),
{
    match stmt {
        Statement::Assign(assign) => {
            lemma_expr_scope(assign.expr, names, scope);
        },
        Statement::If(s) => {
            lemma_if_block_scope(s, names, next, "if assigns to non-ff variable: "@, n, scope);
        },
        Statement::IfReset(s) => {
            let reset = branch_css(s.true_side@, names, n)->Ok_0;
            let normal = branch_css(s.false_side@, names, n + reset.conds.len())->Ok_0;
            lemma_assigned_lines(
                ascending(reset.values.dom() + normal.values.dom()),
                reset_values(reset.values, normal.values),
                next,
                "if_reset assigns to non-ff variable: "@,
            );
            lemma_if_reset_lines_scope(s, names, next, n, scope);
        },
        _ => {},
    }
}

proof fn lemma_lines_scope_add(a: Seq<CssLine>, b: Seq<CssLine>, scope: Scope)
    requires
        lines_in_scope(a, scope),
        lines_in_scope(b, scope),
    ensures
        lines_in_scope(a + b, scope),
{
    let c = a + b;
    assert forall|i: int| 0 <= i < c.len() implies line_in_scope(#[trigger] c[i], scope) by {
        if i < a.len() {
            assert(c[i] == a[i]);
        } else {
            assert(c[i] == b[i - a.len()]);
        }
    }
}

proof fn lemma_comb_scope(stmts: Seq<Statement>, names: Map<u32, Seq<char>>, n: nat, scope: Scope)
    requires
        targets_in_scope(names, scope),
        names_in_scope(names, scope),
        comb_css(stmts, names, n) is Ok,
        n + comb_css(stmts, names, n)->Ok_0.conds.len() <= scope.conds,
    ensures
        lines_in_scope(comb_css(stmts, names, n)->Ok_0.lines, scope),
    decreases stmts.len(),
{
    if stmts.len() > 0 {
        let before = comb_css(stmts.drop_last(), names, n)->Ok_0;
        let m = n + before.conds.len();
        let block = comb_statement_css(stmts.last(), names, m)->Ok_0;
        lemma_comb_scope(stmts.drop_last(), names, n, scope);
        lemma_comb_statement_scope(stmts.last(), names, m, scope);
        lemma_lines_scope_add(before.lines, block.lines, scope);
    }
}

proof fn lemma_ff_scope(
    stmts: Seq<Statement>,
    names: Map<u32, Seq<char>>,
    next: Map<u32, Seq<char>>,
    n: nat,
    scope: Scope,
)
    requires
        targets_in_scope(next, scope),
        names_in_scope(names, scope),
        ff_css(stmts, names, next, n) is Ok,
        n + ff_css(stmts, names, next, n)->Ok_0.conds.len() <= scope.conds,
    ensures
        lines_in_scope(ff_css(stmts, names, next, n)->Ok_0.lines, scope),
    decreases stmts.len(),
{
    if stmts.len() > 0 {
        let before = ff_css(stmts.drop_last(), names, next, n)->Ok_0;
        let m = n + before.conds.len();
        let block = ff_statement_css(stmts.last(), names, next, m)->Ok_0;
        lemma_ff_scope(stmts.drop_last(), names, next, n, scope);
        lemma_ff_statement_scope(stmts.last(), names, next, m, scope);
        lemma_lines_scope_add(before.lines, block.lines, scope);
    }
}

proof fn lemma_declarations_scope(
    decls: Seq<Declaration>,
    names: Map<u32, Seq<char>>,
    next: Map<u32, Seq<char>>,
    scope: Scope,
)
    requires
        targets_in_scope(names, scope),
        targets_in_scope(next, scope),
        names_in_scope(names, scope),
        declarations_css(decls, names, next) is Ok,
        declarations_css(decls, names, next)->Ok_0.conds.len() <= scope.conds,
    ensures
        lines_in_scope(declarations_css(decls, names, next)->Ok_0.comb, scope),
        lines_in_scope(declarations_css(decls, names, next)->Ok_0.ff, scope),
    decreases decls.len(),
{
    if decls.len() > 0 {
        let before = declarations_css(decls.drop_last(), names, next)->Ok_0;
        let n = before.conds.len();
        lemma_declarations_scope(decls.drop_last(), names, next, scope);
        match decls.last() {
            Declaration::Comb(comb) => {
                lemma_comb_scope(comb.statements@, names, n, scope);
                let block = comb_css(comb.statements@, names, n)->Ok_0;
                lemma_lines_scope_add(before.comb, block.lines, scope);
            },
            Declaration::Ff(ff) => {
                lemma_ff_scope(ff.statements@, names, next, n, scope);
                let block = ff_css(ff.statements@, names, next, n)->Ok_0;
                lemma_lines_scope_add(before.ff, block.lines, scope);
            },
            _ => {},
        }
    }
}

proof fn lemma_names_public(variables: Seq<(u32, Variable)>, module: Seq<char>, roles: FfRoles)
    ensures
        signal_map(variables, module, roles) matches Ok(map) ==> {
            &&& forall|id: u32| #[trigger]
                map.names.contains_key(id) ==> map.public.contains(map.names[id])
            &&& forall|id: u32| #[trigger]
                map.regs.contains_key(id) ==> map.public.contains(map.regs[id].current)
        },
    decreases variables.len(),
{
    if variables.len() > 0 {
        lemma_names_public(variables.drop_last(), module, roles);
    }
}

/// What the rule of a module's style sheet may read: the public custom properties, the hoisted
/// states of the registers and the module's conditions. It may set the public custom properties and
/// the next states.
pub open spec fn module_scope(module: Module) -> Scope {
    let map = signal_map(module.variables@, module.name@, ff_roles(module.declarations@))->Ok_0;
    Scope {
        public: map.public,
        hoisted: Set::new(
            |name: Seq<char>|
                exists|id: u32| #[trigger] map.regs.contains_key(id) && map.regs[id].hoist == name,
        ),
        conds: module_conds(module).len(),
        targets: map.public + next_names(map.regs).values(),
    }
}

/// Law: the rule of a style sheet reads only custom properties that the module has: public ones,
/// the hoisted states of its registers and its conditions. It sets only public ones, next states
/// and its conditions.
pub proof fn law_scope(module: Module)
    requires
        module_css(module) is Ok,
    ensures
        lines_in_scope(module_css(module)->Ok_0.body, module_scope(module)),
{
    let decls = module.declarations@;
    let map = signal_map(module.variables@, module.name@, ff_roles(decls))->Ok_0;
    let scope = module_scope(module);
    let next = next_names(map.regs);
    let body = declarations_css(decls, map.names, next)->Ok_0;
    lemma_names_public(module.variables@, module.name@, ff_roles(decls));
    assert forall|id: u32| #[trigger] next.contains_key(id) implies scope.targets.contains(
        next[id],
    ) by {
        assert(next.values().contains(next[id]));
    }
    lemma_declarations_scope(decls, map.names, next, scope);
    let head = current_lines(map.regs);
    assert forall|i: int| 0 <= i < head.len() implies line_in_scope(#[trigger] head[i], scope) by {
        let ids = ascending(map.regs.dom());
        lemma_ascending(map.regs.dom());
        assert(ids.contains(ids[i]));
        assert(map.regs.contains_key(ids[i]));
        assert(scope.hoisted.contains(map.regs[ids[i]].hoist));
    }
    lemma_lines_scope_add(head, body.comb, scope);
    lemma_lines_scope_add(head + body.comb, body.ff, scope);
}

/// Whether declarations set nothing but conditions and the given custom properties.
pub open spec fn sets_only(lines: Seq<CssLine>, targets: Map<u32, Seq<char>>) -> bool {
    forall|i: int|
        0 <= i < lines.len() ==> (#[trigger] lines[i] matches CssLine::Assign(name, _)
            ==> targets.values().contains(name))
}

/// How many conditions a statement declares.
pub open spec fn cond_count(stmt: Statement, names: Map<u32, Seq<char>>, n: nat) -> nat {
    match stmt {
        Statement::If(s) => match if_css(s, names, n) {
            Ok(branch) => branch.conds.len(),
            Err(_) => 0,
        },
        Statement::IfReset(s) => if sides_accepted(s, names, n) {
            reset_conds(s, names, n).len()
        } else {
            0
        },
        _ => 0,
    }
}

/// What the declarations of a statement may read: the custom properties of the variables, and the
/// conditions up to those of the statement. They may set the given custom properties.
pub open spec fn statement_scope(
    stmt: Statement,
    names: Map<u32, Seq<char>>,
    targets: Map<u32, Seq<char>>,
    n: nat,
) -> Scope {
    Scope {
        public: names.values(),
        hoisted: Set::empty(),
        conds: n + cond_count(stmt, names, n),
        targets: targets.values(),
    }
}

/// Law: the declarations that are written for a statement of an `always_ff` block, accepted or
/// not, set only conditions and next states, and read only the current state.
pub proof fn law_ff_lines(
    stmt: Statement,
    names: Map<u32, Seq<char>>,
    next: Map<u32, Seq<char>>,
    n: nat,
)
    ensures
        sets_only(ff_statement_lines(stmt, names, next, n), next),
        lines_in_scope(
            ff_statement_lines(stmt, names, next, n),
            statement_scope(stmt, names, next, n),
        ),
{
    let scope = statement_scope(stmt, names, next, n);
    lemma_values_in_scope(names, next, scope);
    match stmt {
        Statement::Assign(assign) => {
            lemma_expr_scope(assign.expr, names, scope);
        },
        Statement::If(s) => {
            lemma_if_lines_scope(s, names, next, n, scope);
        },
        Statement::IfReset(s) => {
            lemma_if_reset_lines_scope(s, names, next, n, scope);
        },
        _ => {},
    }
    lemma_scope_sets_only(ff_statement_lines(stmt, names, next, n), next, scope);
}

/// Law: the declarations that are written for a statement of an `always_comb` block, accepted or
/// not, set only conditions and signals, and read only signals and conditions.
pub proof fn law_comb_lines(stmt: Statement, names: Map<u32, Seq<char>>, n: nat)
    ensures
        sets_only(comb_statement_lines(stmt, names, n), names),
        lines_in_scope(
            comb_statement_lines(stmt, names, n),
            statement_scope(stmt, names, names, n),
        ),
{
    let scope = statement_scope(stmt, names, names, n);
    lemma_values_in_scope(names, names, scope);
    match stmt {
        Statement::Assign(assign) => {
            lemma_expr_scope(assign.expr, names, scope);
        },
        Statement::If(s) => {
            lemma_if_lines_scope(s, names, names, n, scope);
        },
        _ => {},
    }
    lemma_scope_sets_only(comb_statement_lines(stmt, names, n), names, scope);
}

proof fn lemma_scope_sets_only(lines: Seq<CssLine>, targets: Map<u32, Seq<char>>, scope: Scope)
    requires
        lines_in_scope(lines, scope),
        scope.targets == targets.values(),
    ensures
        sets_only(lines, targets),
{
    assert forall|i: int| 0 <= i < lines.len() implies (#[trigger] lines[i] matches CssLine::Assign(
        name,
        _,
    ) ==> targets.values().contains(name)) by {
        assert(line_in_scope(lines[i], scope));
    }
}

pub proof fn lemma_values_in_scope(
    names: Map<u32, Seq<char>>,
    targets: Map<u32, Seq<char>>,
    scope: Scope,
)
    requires
        scope.public == names.values(),
        scope.targets == targets.values(),
    ensures
        names_in_scope(names, scope),
        targets_in_scope(targets, scope),
{
    assert forall|id: u32| #[trigger] names.contains_key(id) implies scope.public.contains(
        names[id],
    ) by {
        assert(names.values().contains(names[id]));
    }
    assert forall|id: u32| #[trigger] targets.contains_key(id) implies scope.targets.contains(
        targets[id],
    ) by {
        assert(targets.values().contains(targets[id]));
    }
}

} // verus!
