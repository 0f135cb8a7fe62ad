//! What the text of a module's style sheet computes.

use vstd::prelude::*;

use crate::css::{cond_name, CssLine, CssValue};
use crate::cycle::{
    apply, comb_writes, computes, declarations_exact, declared, ff_writes, injective,
    law_clock_cycle, law_comb_statement, law_ff_statement, law_module_values, law_reset_selects,
    lemma_ff_writes_need_ff, lemma_reg_current, lemma_reg_lines, module_signals, solves, well_named,
};
use crate::expr::{condition_css, expr_css};
use crate::ir::{Expression, IfResetStatement, Module, Statement, Variable};
use crate::lines::{lines_of, one_line, written_lines};
use crate::module::{current_lines, has_ff, module_css, next_names, Sheet};
use crate::naming::{
    dashless, distinct_ids, law_conditions_apart, law_registered, law_signal_map, public_name,
};
use crate::order::{ascending, lemma_ascending};
use crate::parts::{
    keyframe, law_keyframes_found, law_property_found, law_rule_found, property_selector,
    registration, rule, rule_selector,
};
use crate::reading::{
    is_delimiter, is_word, law_written_line, law_written_value, readable, text_value,
};
use crate::scope::{
    in_scope, law_conditions_fresh, law_functions_used, law_scope, lemma_comb_statement_scope,
    lemma_expr_scope, lemma_ff_statement_scope, lemma_values_in_scope, line_in_scope,
    lines_in_scope, module_conds, module_scope, names_in_scope, targets_in_scope, Scope,
};
use crate::semantics::{
    agrees, cond_holds, conds_set, expr_exact, expr_value, law_cond_value, law_expr_value,
    statement_exact, statement_writes, writes,
};
use crate::signal::{assigned_ids, ff_roles, last_segment, FfReg, FfRoles};
use crate::statement::{comb_statement_css, ff_statement_css, if_reset_css};
use crate::written::{
    law_condition_meaning, lemma_declared_line, lemma_findable, lemma_solves, lemma_text_declared,
    lemma_word_one_line, line_readable, lines_readable, meaning, sheet_readable, solves_text,
    text_declared,
};

verus! {

/// Whether all custom properties have names.
pub open spec fn all_words(names: Map<u32, Seq<char>>) -> bool {
    forall|id: u32| #[trigger] names.contains_key(id) ==> is_word(names[id])
}

/// Whether none of the custom properties is one of a condition.
pub open spec fn apart(targets: Map<u32, Seq<char>>) -> bool {
    forall|id: u32, n: nat|
        #![trigger targets[id], cond_name(n)]
        targets.contains_key(id) ==> targets[id] != cond_name(n)
}

/// Whether all custom properties in scope have names.
spec fn words_in_scope(scope: Scope) -> bool {
    &&& forall|name: Seq<char>| #[trigger] scope.public.contains(name) ==> is_word(name)
    &&& forall|name: Seq<char>| #[trigger] scope.hoisted.contains(name) ==> is_word(name)
    &&& forall|name: Seq<char>| #[trigger] scope.targets.contains(name) ==> is_word(name)
}

proof fn lemma_scope_readable(value: CssValue, scope: Scope)
    requires
        words_in_scope(scope),
        in_scope(value, scope),
    ensures
        readable(value),
    decreases value,
{
    match value {
        CssValue::Neg(x) => lemma_scope_readable(*x, scope),
        CssValue::Add(l, r) => {
            lemma_scope_readable(*l, scope);
            lemma_scope_readable(*r, scope);
        },
        CssValue::Sub(l, r) => {
            lemma_scope_readable(*l, scope);
            lemma_scope_readable(*r, scope);
        },
        CssValue::Mul(l, r) => {
            lemma_scope_readable(*l, scope);
            lemma_scope_readable(*r, scope);
        },
        CssValue::Div(l, r) => {
            lemma_scope_readable(*l, scope);
            lemma_scope_readable(*r, scope);
        },
        CssValue::Rem(l, r) => {
            lemma_scope_readable(*l, scope);
            lemma_scope_readable(*r, scope);
        },
        CssValue::IfCond(_, t, f) => {
            lemma_scope_readable(*t, scope);
            lemma_scope_readable(*f, scope);
        },
        CssValue::IfReset(t, f) => {
            lemma_scope_readable(*t, scope);
            lemma_scope_readable(*f, scope);
        },
        _ => {},
    }
}

proof fn lemma_scope_lines(lines: Seq<CssLine>, scope: Scope)
    requires
        words_in_scope(scope),
        lines_in_scope(lines, scope),
    ensures
        lines_readable(lines),
{
    assert forall|i: int| 0 <= i < lines.len() implies line_readable(#[trigger] lines[i]) by {
        assert(line_in_scope(lines[i], scope));
        match lines[i] {
            CssLine::Cond(_, cond) => {
                lemma_scope_readable(cond.l, scope);
                lemma_scope_readable(cond.r, scope);
            },
            CssLine::Assign(_, value) => lemma_scope_readable(value, scope),
        }
    }
}

/// What may be read and set by declarations over the given custom properties.
spec fn local_scope(names: Map<u32, Seq<char>>, targets: Map<u32, Seq<char>>, conds: nat) -> Scope {
    Scope { public: names.values(), hoisted: Set::empty(), conds, targets: targets.values() }
}

proof fn lemma_local_scope(names: Map<u32, Seq<char>>, targets: Map<u32, Seq<char>>, conds: nat)
    requires
        all_words(names),
        all_words(targets),
    ensures
        words_in_scope(local_scope(names, targets, conds)),
        names_in_scope(names, local_scope(names, targets, conds)),
        targets_in_scope(targets, local_scope(names, targets, conds)),
{
    let scope = local_scope(names, targets, conds);
    lemma_values_in_scope(names, targets, scope);
    assert forall|name: Seq<char>| #[trigger] scope.public.contains(name) implies is_word(name) by {
        let id = choose|id: u32| #[trigger] names.contains_key(id) && names[id] == name;
        assert(names.contains_key(id));
    }
    assert forall|name: Seq<char>| #[trigger] scope.targets.contains(name) implies is_word(
        name,
    ) by {
        let id = choose|id: u32| #[trigger] targets.contains_key(id) && targets[id] == name;
        assert(targets.contains_key(id));
    }
}

/// Law: the text that is written for an expression, read as CSS, comes to what the expression comes
/// to, where custom properties have the values of the variables that they stand for.
pub proof fn law_written_expr(
    expr: Expression,
    names: Map<u32, Seq<char>>,
    env: Map<Seq<char>, int>,
    state: spec_fn(u32) -> int,
)
    requires
        expr_css(expr, names) is Ok,
        expr_exact(expr),
        all_words(names),
        agrees(env, names, state),
    ensures
        text_value(expr_css(expr, names)->Ok_0.text(), env) == Some(expr_value(expr, state)),
{
    let value = expr_css(expr, names)->Ok_0;
    let scope = local_scope(names, names, 0);
    lemma_local_scope(names, names, 0);
    lemma_expr_scope(expr, names, scope);
    lemma_scope_readable(value, scope);
    law_written_value(value, env);
    law_expr_value(expr, names, env, state);
}

/// Law: the text that is written for a condition, in a style sheet that uses its comparison, comes
/// to 1 where the condition holds, and to 0 where it does not.
pub proof fn law_written_cond(
    expr: Expression,
    text: Seq<char>,
    names: Map<u32, Seq<char>>,
    sheet: Sheet,
    env: Map<Seq<char>, int>,
    state: spec_fn(u32) -> int,
)
    requires
        condition_css(expr, text, names) is Ok,
        expr_exact(expr),
        all_words(names),
        agrees(env, names, state),
        sheet_readable(sheet),
        sheet.functions.contains(condition_css(expr, text, names)->Ok_0.f),
    ensures
        meaning(lines_of(sheet.text()), condition_css(expr, text, names)->Ok_0.text(), env) == Some(
            if cond_holds(expr, state) {
                1int
            } else {
                0
            },
        ),
{
    let cond = condition_css(expr, text, names)->Ok_0;
    let scope = local_scope(names, names, 0);
    lemma_local_scope(names, names, 0);
    if let Expression::Binary(lhs, _, rhs) = expr {
        lemma_expr_scope(*lhs, names, scope);
        lemma_expr_scope(*rhs, names, scope);
    }
    lemma_scope_readable(cond.l, scope);
    lemma_scope_readable(cond.r, scope);
    law_condition_meaning(sheet, cond, env);
    law_cond_value(expr, text, names, env, state);
}

/// Whether written declarations set the given custom properties to texts that come to the given
/// values, and set none of the others.
pub open spec fn delivers(
    declarations: Seq<Seq<char>>,
    targets: Map<u32, Seq<char>>,
    env: Map<Seq<char>, int>,
    written: Map<u32, int>,
) -> bool {
    &&& forall|id: u32| #[trigger] written.contains_key(id) ==> targets.contains_key(id)
    &&& forall|id: u32| #[trigger]
        targets.contains_key(id) ==> match text_declared(declarations, targets[id]) {
            Some(text) => written.contains_key(id) && text_value(text, env) == Some(written[id]),
            None => !written.contains_key(id),
        }
}

proof fn lemma_delivers(
    lines: Seq<CssLine>,
    targets: Map<u32, Seq<char>>,
    env: Map<Seq<char>, int>,
    written: Map<u32, int>,
)
    requires
        lines_readable(lines),
        apart(targets),
        computes(lines, targets, env, written),
    ensures
        delivers(written_lines(lines), targets, env, written),
{
    assert forall|id: u32| #[trigger] targets.contains_key(id) implies match text_declared(
        written_lines(lines),
        targets[id],
    ) {
        Some(text) => written.contains_key(id) && text_value(text, env) == Some(written[id]),
        None => !written.contains_key(id),
    } by {
        let name = targets[id];
        assert forall|i: int| 0 <= i < lines.len() implies (
        #[trigger] lines[i] matches CssLine::Cond(n, _) ==> cond_name(n) != name) by {
            if let CssLine::Cond(n, _) = lines[i] {
                assert(targets[id] != cond_name(n));
            }
        }
        lemma_text_declared(lines, name);
        if let Some(value) = declared(lines, name) {
            lemma_declared_readable(lines, name);
            law_written_value(value, env);
        }
    }
}

proof fn lemma_declared_readable(lines: Seq<CssLine>, name: Seq<char>)
    requires
        lines_readable(lines),
        declared(lines, name) is Some,
    ensures
        readable(declared(lines, name)->0),
{
    lemma_declared_line(lines, name);
    let i = choose|i: int|
        0 <= i < lines.len() && (#[trigger] lines[i] matches CssLine::Assign(target, value)
            && target == name && Some(value) == declared(lines, name));
    assert(line_readable(lines[i]));
}

/// Law: the texts that are written for a statement of an `always_comb` block, read as CSS, give
/// each variable what the statement assigns to it, and the others nothing.
pub proof fn law_written_comb_statement(
    stmt: Statement,
    names: Map<u32, Seq<char>>,
    n: nat,
    env: Map<Seq<char>, int>,
    state: spec_fn(u32) -> int,
    reset: bool,
)
    requires
        comb_statement_css(stmt, names, n) is Ok,
        injective(names),
        all_words(names),
        apart(names),
        statement_exact(stmt),
        agrees(env, names, state),
        conds_set(env, n, comb_statement_css(stmt, names, n)->Ok_0.conds),
    ensures
        delivers(
            written_lines(comb_statement_css(stmt, names, n)->Ok_0.lines),
            names,
            env,
            statement_writes(stmt, state, reset),
        ),
{
    let block = comb_statement_css(stmt, names, n)->Ok_0;
    let scope = local_scope(names, names, n + block.conds.len());
    lemma_local_scope(names, names, n + block.conds.len());
    lemma_comb_statement_scope(stmt, names, n, scope);
    lemma_scope_lines(block.lines, scope);
    law_comb_statement(stmt, names, n, env, state, reset);
    lemma_delivers(block.lines, names, env, statement_writes(stmt, state, reset));
}

/// Law: the texts that are written for a statement of an `always_ff` block, read as CSS, give the
/// next state of each register what the statement assigns to it, and the others nothing.
pub proof fn law_written_ff_statement(
    stmt: Statement,
    names: Map<u32, Seq<char>>,
    next: Map<u32, Seq<char>>,
    n: nat,
    env: Map<Seq<char>, int>,
    state: spec_fn(u32) -> int,
    reset: bool,
)
    requires
        ff_statement_css(stmt, names, next, n) is Ok,
        injective(next),
        all_words(names),
        all_words(next),
        apart(next),
        statement_exact(stmt),
        agrees(env, names, state),
        reset <==> env["--rst"@] == 1,
        conds_set(env, n, ff_statement_css(stmt, names, next, n)->Ok_0.conds),
    ensures
        delivers(
            written_lines(ff_statement_css(stmt, names, next, n)->Ok_0.lines),
            next,
            env,
            statement_writes(stmt, state, reset),
        ),
{
    let block = ff_statement_css(stmt, names, next, n)->Ok_0;
    let scope = local_scope(names, next, n + block.conds.len());
    lemma_local_scope(names, next, n + block.conds.len());
    lemma_ff_statement_scope(stmt, names, next, n, scope);
    lemma_scope_lines(block.lines, scope);
    law_ff_statement(stmt, names, next, n, env, state, reset);
    lemma_delivers(block.lines, next, env, statement_writes(stmt, state, reset));
}

/// Law: where both sides of a reset assign the same registers, the text that is written for a
/// register, read as CSS, comes to what the reset side assigns to it where `--rst` is 1, and to
/// what the normal side assigns to it otherwise.
pub proof fn law_written_reset(
    stmt: IfResetStatement,
    names: Map<u32, Seq<char>>,
    next: Map<u32, Seq<char>>,
    n: nat,
    env: Map<Seq<char>, int>,
    state: spec_fn(u32) -> int,
    reset: bool,
)
    requires
        if_reset_css(stmt, names, next, n) is Ok,
        assigned_ids(stmt.true_side@) == assigned_ids(stmt.false_side@),
        injective(next),
        all_words(names),
        all_words(next),
        apart(next),
        statement_exact(Statement::IfReset(stmt)),
        agrees(env, names, state),
        reset <==> env["--rst"@] == 1,
        conds_set(env, n, if_reset_css(stmt, names, next, n)->Ok_0.conds),
    ensures
        delivers(
            written_lines(if_reset_css(stmt, names, next, n)->Ok_0.lines),
            next,
            env,
            writes(
                if reset {
                    stmt.true_side@
                } else {
                    stmt.false_side@
                },
                state,
                reset,
            ),
        ),
{
    law_written_ff_statement(Statement::IfReset(stmt), names, next, n, env, state, reset);
    law_reset_selects(stmt, names, next, n, state, reset);
}

/// Whether the names that custom properties are made of are such.
pub open spec fn worded(variables: Seq<(u32, Variable)>, module: Seq<char>) -> bool {
    &&& is_word(module)
    &&& forall|i: int|
        0 <= i < variables.len() ==> is_word(last_segment((#[trigger] variables[i]).1.path@))
}

proof fn lemma_word_add(a: Seq<char>, b: Seq<char>)
    requires
        is_word(a),
        is_word(b),
    ensures
        is_word(a + b),
{
    let c = a + b;
    assert forall|i: int| 0 <= i < c.len() implies !is_delimiter(#[trigger] c[i]) by {
        if i < a.len() {
            assert(c[i] == a[i]);
        } else {
            assert(c[i] == b[i - a.len()]);
        }
    }
}

proof fn lemma_public_word(
    variables: Seq<(u32, Variable)>,
    i: int,
    module: Seq<char>,
    roles: FfRoles,
)
    requires
        worded(variables, module),
        0 <= i < variables.len(),
    ensures
        is_word("--"@ + module + "-"@ + last_segment(variables[i].1.path@)),
        public_name(variables[i], module, roles) matches Some(name) ==> is_word(name),
{
    reveal_strlit("--");
    reveal_strlit("-");
    let signal = last_segment(variables[i].1.path@);
    lemma_word_add("--"@, module);
    lemma_word_add("--"@ + module, "-"@);
    lemma_word_add("--"@ + module + "-"@, signal);
    lemma_word_add("--"@, signal);
}

/// All custom properties of a module have names, if its signals have.
proof fn lemma_module_words(module: Module)
    requires
        module_css(module) is Ok,
        distinct_ids(module.variables@),
        worded(module.variables@, module.name@),
    ensures
        ({
            let map = module_signals(module);
            &&& all_words(map.names)
            &&& forall|name: Seq<char>| #[trigger] map.public.contains(name) ==> is_word(name)
            &&& forall|id: u32| #[trigger]
                map.regs.contains_key(id) ==> is_word(map.regs[id].current) && is_word(
                    map.regs[id].next,
                ) && is_word(map.regs[id].captured) && is_word(map.regs[id].hoist)
        }),
{
    let variables = module.variables@;
    let roles = ff_roles(module.declarations@);
    let map = module_signals(module);
    law_signal_map(variables, module.name@, roles);
    assert forall|name: Seq<char>| #[trigger] map.public.contains(name) implies is_word(name) by {
        let i = choose|i: int|
            0 <= i < variables.len() && public_name(#[trigger] variables[i], module.name@, roles)
                == Some(name);
        lemma_public_word(variables, i, module.name@, roles);
    }
    assert forall|id: u32| #[trigger] map.names.contains_key(id) implies is_word(
        map.names[id],
    ) by {
        let i = choose|i: int|
            0 <= i < variables.len() && (#[trigger] variables[i]).0 == id && public_name(
                variables[i],
                module.name@,
                roles,
            ) is Some;
        assert(map.public.contains(map.names[id]));
    }
    assert forall|id: u32| #[trigger] map.regs.contains_key(id) implies is_word(
        map.regs[id].current,
    ) && is_word(map.regs[id].next) && is_word(map.regs[id].captured) && is_word(
        map.regs[id].hoist,
    ) by {
        assert(map.names.contains_key(id));
        let i = choose|i: int|
            0 <= i < variables.len() && (#[trigger] variables[i]).0 == id && public_name(
                variables[i],
                module.name@,
                roles,
            ) is Some;
        lemma_public_word(variables, i, module.name@, roles);
        reveal_strlit("-next");
        reveal_strlit("-captured");
        reveal_strlit("-hoist");
        let base = "--"@ + module.name@ + "-"@ + last_segment(variables[i].1.path@);
        lemma_word_add(base, "-next"@);
        lemma_word_add(base, "-captured"@);
        lemma_word_add(base, "-hoist"@);
    }
}

/// Law: all that is written in the style sheet of a module can be read.
pub proof fn law_sheet_readable(module: Module)
    requires
        module_css(module) is Ok,
        distinct_ids(module.variables@),
        worded(module.variables@, module.name@),
    ensures
        sheet_readable(module_css(module)->Ok_0),
{
    let sheet = module_css(module)->Ok_0;
    let map = module_signals(module);
    let scope = module_scope(module);
    lemma_module_words(module);
    law_scope(module);
    assert(words_in_scope(scope)) by {
        assert forall|name: Seq<char>| #[trigger] scope.hoisted.contains(name) implies is_word(
            name,
        ) by {
            let id = choose|id: u32| #[trigger]
                map.regs.contains_key(id) && map.regs[id].hoist == name;
            assert(map.regs.contains_key(id));
        }
        assert forall|name: Seq<char>| #[trigger] scope.targets.contains(name) implies is_word(
            name,
        ) by {
            let next = next_names(map.regs);
            if !map.public.contains(name) {
                assert(next.values().contains(name));
                let id = choose|id: u32| #[trigger] next.contains_key(id) && next[id] == name;
                assert(map.regs.contains_key(id));
            }
        }
    }
    lemma_scope_lines(sheet.body, scope);
    let ids = ascending(map.regs.dom());
    lemma_ascending(map.regs.dom());
    assert forall|i: int| 0 <= i < ids.len() implies map.regs.contains_key(#[trigger] ids[i]) by {
        assert(ids.contains(ids[i]));
    }
    assert forall|i: int| 0 <= i < sheet.hoist.len() implies line_readable(
        #[trigger] sheet.hoist[i],
    ) by {
        assert(map.regs.contains_key(ids[i]));
    }
    assert forall|i: int| 0 <= i < sheet.capture.len() implies line_readable(
        #[trigger] sheet.capture[i],
    ) by {
        assert(map.regs.contains_key(ids[i]));
    }
    law_registered(module);
    law_signal_map(module.variables@, module.name@, ff_roles(module.declarations@));
    assert forall|i: int| 0 <= i < sheet.properties.len() implies one_line(
        #[trigger] sheet.properties[i],
    ) by {
        let name = sheet.properties[i];
        assert(sheet.properties.contains(name));
        let k = choose|k: int|
            0 <= k < module.variables@.len() && public_name(
                #[trigger] module.variables@[k],
                module.name@,
                ff_roles(module.declarations@),
            ) == Some(name);
        lemma_public_word(module.variables@, k, module.name@, ff_roles(module.declarations@));
        lemma_word_one_line(name);
    }
}

/// The lines of the style sheet of a module.
pub open spec fn sheet_lines(module: Module) -> Seq<Seq<char>> {
    lines_of(module_css(module)->Ok_0.text())
}

/// The declarations of the rule that computes, found in the lines of the style sheet.
pub open spec fn computing(module: Module) -> Seq<Seq<char>> {
    rule(sheet_lines(module), rule_selector(has_ff(module.declarations@)))
}

proof fn lemma_parts(module: Module)
    requires
        module_css(module) is Ok,
        distinct_ids(module.variables@),
        worded(module.variables@, module.name@),
    ensures
        sheet_readable(module_css(module)->Ok_0),
        computing(module) == written_lines(module_css(module)->Ok_0.body),
        has_ff(module.declarations@) ==> {
            &&& keyframe(sheet_lines(module), "hoist"@) == written_lines(
                module_css(module)->Ok_0.hoist,
            )
            &&& keyframe(sheet_lines(module), "capture"@) == written_lines(
                module_css(module)->Ok_0.capture,
            )
        },
{
    let sheet = module_css(module)->Ok_0;
    law_sheet_readable(module);
    lemma_findable(sheet.body);
    lemma_findable(sheet.hoist);
    lemma_findable(sheet.capture);
    law_rule_found(sheet);
    if sheet.has_ff {
        law_keyframes_found(sheet);
    }
}

/// Law: in the text of a module's style sheet a custom property is registered if and only if it is
/// that of a public signal, as an inherited integer that starts at 0.
pub proof fn law_text_registers(module: Module, name: Seq<char>)
    requires
        module_css(module) is Ok,
        distinct_ids(module.variables@),
        worded(module.variables@, module.name@),
    ensures
        sheet_lines(module).contains(property_selector(name) + " {"@) <==> exists|i: int|
            0 <= i < module.variables@.len() && public_name(
                #[trigger] module.variables@[i],
                module.name@,
                ff_roles(module.declarations@),
            ) == Some(name),
        sheet_lines(module).contains(property_selector(name) + " {"@) ==> rule(
            sheet_lines(module),
            property_selector(name),
        ) == registration(),
{
    let sheet = module_css(module)->Ok_0;
    law_sheet_readable(module);
    lemma_findable(sheet.body);
    lemma_findable(sheet.hoist);
    lemma_findable(sheet.capture);
    law_property_found(sheet, name);
    law_registered(module);
}

/// No custom property that a module's rule sets, but those of conditions, is one of a condition.
proof fn lemma_targets_apart(module: Module)
    requires
        module_css(module) is Ok,
        distinct_ids(module.variables@),
        dashless(module.variables@, module.name@),
    ensures
        forall|i: int, n: nat|
            0 <= i < module_css(module)->Ok_0.body.len() ==> (#[trigger] module_css(
                module,
            )->Ok_0.body[i] matches CssLine::Assign(name, _) ==> name != #[trigger] cond_name(n)),
{
    let body = module_css(module)->Ok_0.body;
    let map = module_signals(module);
    let scope = module_scope(module);
    law_scope(module);
    law_registered(module);
    law_signal_map(module.variables@, module.name@, ff_roles(module.declarations@));
    assert forall|i: int, n: nat| 0 <= i < body.len() implies (
    #[trigger] body[i] matches CssLine::Assign(name, _) ==> name != #[trigger] cond_name(n)) by {
        if let CssLine::Assign(name, _) = body[i] {
            assert(line_in_scope(body[i], scope));
            if map.public.contains(name) {
                law_conditions_apart(module, 0, n);
                assert(module_css(module)->Ok_0.properties.contains(name));
            } else {
                let next = next_names(map.regs);
                assert(next.values().contains(name));
                let id = choose|id: u32| #[trigger] next.contains_key(id) && next[id] == name;
                assert(map.regs.contains_key(id));
                law_conditions_apart(module, id, n);
            }
        }
    }
}

/// A solution of the text of a module's rule solves its declarations.
proof fn lemma_module_solves(module: Module, env: Map<Seq<char>, int>)
    requires
        module_css(module) is Ok,
        distinct_ids(module.variables@),
        dashless(module.variables@, module.name@),
        worded(module.variables@, module.name@),
        solves_text(env, computing(module), sheet_lines(module)),
    ensures
        solves(env, module_css(module)->Ok_0.body),
{
    let sheet = module_css(module)->Ok_0;
    lemma_parts(module);
    lemma_targets_apart(module);
    law_conditions_fresh(module);
    lemma_functions_declared(module);
    lemma_solves(env, sheet, module_conds(module));
}

proof fn lemma_functions_declared(module: Module)
    requires
        module_css(module) is Ok,
    ensures
        forall|i: int|
            0 <= i < module_css(module)->Ok_0.body.len() ==> (#[trigger] module_css(
                module,
            )->Ok_0.body[i] matches CssLine::Cond(_, cond) ==> module_css(
                module,
            )->Ok_0.functions.contains(cond.f)),
{
    let sheet = module_css(module)->Ok_0;
    assert forall|i: int| 0 <= i < sheet.body.len() implies (
    #[trigger] sheet.body[i] matches CssLine::Cond(_, cond) ==> sheet.functions.contains(
        cond.f,
    )) by {
        if let CssLine::Cond(_, cond) = sheet.body[i] {
            law_functions_used(module, cond.f);
        }
    }
}

/// Law: whatever the text of a module's rule sets has a value, whatever values the custom
/// properties have.
pub proof fn law_text_has_meaning(module: Module, env: Map<Seq<char>, int>, name: Seq<char>)
    requires
        module_css(module) is Ok,
        distinct_ids(module.variables@),
        worded(module.variables@, module.name@),
        text_declared(computing(module), name) is Some,
    ensures
        meaning(sheet_lines(module), text_declared(computing(module), name)->0, env) is Some,
{
    let sheet = module_css(module)->Ok_0;
    lemma_parts(module);
    lemma_functions_declared(module);
    lemma_text_has_meaning(sheet, sheet.body, env, name);
}

proof fn lemma_text_has_meaning(
    sheet: Sheet,
    lines: Seq<CssLine>,
    env: Map<Seq<char>, int>,
    name: Seq<char>,
)
    requires
        sheet_readable(sheet),
        lines_readable(lines),
        forall|i: int|
            0 <= i < lines.len() ==> (#[trigger] lines[i] matches CssLine::Cond(_, cond)
                ==> sheet.functions.contains(cond.f)),
        text_declared(written_lines(lines), name) is Some,
    ensures
        meaning(
            lines_of(sheet.text()),
            text_declared(written_lines(lines), name)->0,
            env,
        ) is Some,
    decreases lines.len(),
{
    if lines.len() > 0 {
        let rest = lines.drop_last();
        let last = lines[lines.len() - 1];
        assert forall|i: int| 0 <= i < rest.len() implies line_readable(#[trigger] rest[i]) by {
            assert(line_readable(lines[i]));
        }
        assert forall|i: int| 0 <= i < rest.len() implies (#[trigger] rest[i] matches CssLine::Cond(
            _,
            cond,
        ) ==> sheet.functions.contains(cond.f)) by {
            assert(rest[i] == lines[i]);
        }
        assert(line_readable(last));
        law_written_line(last);
        assert(written_lines(lines).drop_last() == written_lines(rest));
        assert(written_lines(lines).last() == last.text());
        match last {
            CssLine::Cond(_, cond) => law_condition_meaning(sheet, cond, env),
            CssLine::Assign(_, value) => law_written_value(value, env),
        }
        if text_declared(written_lines(rest), name) is Some {
            lemma_text_has_meaning(sheet, rest, env, name);
        }
    }
}

/// Law: where custom properties have the values that the text of a module's style sheet gives them,
/// every public signal and every next state that the module assigns has the value that the module
/// assigns to it.
pub proof fn law_text_computes(
    module: Module,
    env: Map<Seq<char>, int>,
    state: spec_fn(u32) -> int,
    reset: bool,
)
    requires
        module_css(module) is Ok,
        distinct_ids(module.variables@),
        dashless(module.variables@, module.name@),
        worded(module.variables@, module.name@),
        well_named(module_signals(module)),
        declarations_exact(module.declarations@),
        solves_text(env, computing(module), sheet_lines(module)),
        agrees(env, module_signals(module).names, state),
        reset <==> env["--rst"@] == 1,
    ensures
        forall|id: u32| #[trigger]
            comb_writes(module.declarations@, state, reset).contains_key(id) ==> {
                &&& module_signals(module).names.contains_key(id)
                &&& env[module_signals(module).names[id]] == comb_writes(
                    module.declarations@,
                    state,
                    reset,
                )[id]
            },
        forall|id: u32| #[trigger]
            ff_writes(module.declarations@, state, reset).contains_key(id) ==> {
                &&& module_signals(module).regs.contains_key(id)
                &&& env[module_signals(module).regs[id].next] == ff_writes(
                    module.declarations@,
                    state,
                    reset,
                )[id]
            },
{
    lemma_module_solves(module, env);
    law_module_values(module, env, state, reset);
}

/// The custom properties once written declarations have taken effect, all at once.
pub open spec fn apply_text(declarations: Seq<Seq<char>>, env: Map<Seq<char>, int>) -> Map<
    Seq<char>,
    int,
> {
    Map::new(
        |name: Seq<char>| env.contains_key(name) || text_declared(declarations, name) is Some,
        |name: Seq<char>|
            match text_declared(declarations, name) {
                Some(value) => text_value(value, env)->0,
                None => env[name],
            },
    )
}

proof fn lemma_apply_text(lines: Seq<CssLine>, env: Map<Seq<char>, int>)
    requires
        lines_readable(lines),
        forall|i: int| 0 <= i < lines.len() ==> #[trigger] lines[i] is Assign,
    ensures
        apply_text(written_lines(lines), env) == apply(lines, env),
{
    let a = apply_text(written_lines(lines), env);
    let b = apply(lines, env);
    assert forall|name: Seq<char>|
        #![trigger a.contains_key(name)]
        #![trigger a[name]]
        #![trigger b.contains_key(name)]
        a.contains_key(name) == b.contains_key(name) && (a.contains_key(name) ==> a[name]
            == b[name]) by {
        lemma_text_declared(lines, name);
        if let Some(value) = declared(lines, name) {
            lemma_declared_readable(lines, name);
            law_written_value(value, env);
        }
    }
    assert(a =~= b);
}

/// Law: where custom properties have the values that the text of a module's style sheet gives them,
/// and the animations that stand in that text capture the next states and bring them up, the text
/// that shows a register comes to what the module assigned to it.
pub proof fn law_text_cycle(
    module: Module,
    env: Map<Seq<char>, int>,
    state: spec_fn(u32) -> int,
    reset: bool,
    id: u32,
)
    requires
        module_css(module) is Ok,
        distinct_ids(module.variables@),
        dashless(module.variables@, module.name@),
        worded(module.variables@, module.name@),
        well_named(module_signals(module)),
        declarations_exact(module.declarations@),
        solves_text(env, computing(module), sheet_lines(module)),
        agrees(env, module_signals(module).names, state),
        reset <==> env["--rst"@] == 1,
        ff_writes(module.declarations@, state, reset).contains_key(id),
        !comb_writes(module.declarations@, state, reset).contains_key(id),
    ensures
        ({
            let lines = sheet_lines(module);
            let captured = apply_text(keyframe(lines, "capture"@), env);
            let after = apply_text(keyframe(lines, "hoist"@), captured);
            let current = module_signals(module).names[id];
            text_declared(computing(module), current) matches Some(text) && text_value(text, after)
                == Some(ff_writes(module.declarations@, state, reset)[id])
        }),
{
    let sheet = module_css(module)->Ok_0;
    let map = module_signals(module);
    lemma_parts(module);
    lemma_module_solves(module, env);
    lemma_ff_writes_need_ff(module.declarations@, state, reset);
    law_clock_cycle(module, env, state, reset, id);
    lemma_apply_text(sheet.capture, env);
    let captured = apply(sheet.capture, env);
    lemma_apply_text(sheet.hoist, captured);
    let after = apply(sheet.hoist, captured);
    law_module_values(module, env, state, reset);
    lemma_reg_current(module.variables@, module.name@, ff_roles(module.declarations@));
    let current = map.names[id];
    law_registered(module);
    law_signal_map(module.variables@, module.name@, ff_roles(module.declarations@));
    assert forall|i: int| 0 <= i < sheet.body.len() implies (
    #[trigger] sheet.body[i] matches CssLine::Cond(n, _) ==> cond_name(n) != current) by {
        if let CssLine::Cond(n, _) = sheet.body[i] {
            law_conditions_apart(module, id, n);
            assert(map.public.contains(current));
            assert(sheet.properties.contains(current));
        }
    }
    lemma_text_declared(sheet.body, current);
    lemma_declared_readable(sheet.body, current);
    law_written_value(declared(sheet.body, current)->0, after);
}

/// Law: in the text of a module with states every register has a declaration in either animation.
/// The one captures its next state. The other brings the captured state up, which is 0 as long as
/// none is captured. The rule that computes shows it, as 0 as long as none is brought up.
pub proof fn law_text_animations(module: Module, env: Map<Seq<char>, int>, id: u32)
    requires
        module_css(module) is Ok,
        distinct_ids(module.variables@),
        worded(module.variables@, module.name@),
        well_named(module_signals(module)),
        has_ff(module.declarations@),
        module_signals(module).regs.contains_key(id),
    ensures
        ({
            let lines = sheet_lines(module);
            let reg = module_signals(module).regs[id];
            let shown = "var("@ + reg.hoist + ", 0)"@;
            &&& text_declared(keyframe(lines, "capture"@), reg.captured) matches Some(text)
                && text_value(text, env) == Some(env[reg.next])
            &&& text_declared(keyframe(lines, "hoist"@), reg.hoist) matches Some(text)
                && text_value(text, env) == Some(
                if env.contains_key(reg.captured) {
                    env[reg.captured]
                } else {
                    0
                },
            )
            &&& computing(module).contains(reg.current + ": "@ + shown + ";"@)
            &&& text_value(shown, env) == Some(
                if env.contains_key(reg.hoist) {
                    env[reg.hoist]
                } else {
                    0
                },
            )
        }),
{
    let sheet = module_css(module)->Ok_0;
    let map = module_signals(module);
    let regs = map.regs;
    let reg = regs[id];
    lemma_parts(module);
    lemma_module_words(module);
    let ids = ascending(regs.dom());
    lemma_ascending(regs.dom());
    assert forall|i: int| 0 <= i < ids.len() implies regs.contains_key(#[trigger] ids[i]) by {
        assert(ids.contains(ids[i]));
    }
    let captured = regs.map_values(|reg: FfReg| reg.captured);
    let hoist = regs.map_values(|reg: FfReg| reg.hoist);
    let to_capture = regs.map_values(|reg: FfReg| CssValue::Var(reg.next));
    let to_hoist = regs.map_values(|reg: FfReg| CssValue::VarOrZero(reg.captured));
    assert(sheet.capture == ids.map_values(
        |id: u32| CssLine::Assign(captured[id], to_capture[id]),
    ));
    assert(sheet.hoist == ids.map_values(|id: u32| CssLine::Assign(hoist[id], to_hoist[id])));
    assert(captured.dom() == regs.dom());
    assert(hoist.dom() == regs.dom());
    lemma_reg_lines(regs, captured, to_capture, sheet.capture);
    lemma_reg_lines(regs, hoist, to_hoist, sheet.hoist);
    lemma_text_declared(sheet.capture, reg.captured);
    lemma_text_declared(sheet.hoist, reg.hoist);
    law_written_value(to_capture[id], env);
    law_written_value(to_hoist[id], env);
    let value = CssValue::VarOrZero(reg.hoist);
    law_written_value(value, env);
    assert(ids.contains(id));
    let i = ids.index_of(id);
    let line = CssLine::Assign(reg.current, value);
    assert(current_lines(regs)[i] == line);
    assert(sheet.body[i] == line);
    assert(written_lines(sheet.body)[i] == line.text());
}

} // verus!
