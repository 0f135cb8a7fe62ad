use std::collections::{BTreeMap, BTreeSet};

use veryl_css::branch::{eval_branch, eval_if_expr};
use veryl_css::context::Ctx;
use veryl_css::expr::{emit_condition, emit_expr};
use veryl_css::ir::{
    AssignDestination, AssignStatement, CombDeclaration, Component, Declaration, Expression,
    Factor, FfDeclaration, IfResetStatement, IfStatement, Ir, Module, Op, Statement, VarKind,
    Variable,
};
use veryl_css::module::{emit, emit_module};
use veryl_css::signal::{collect_assigned_ids, variable_css_name};
use veryl_css::statement::{emit_comb_if, emit_comb_statement, emit_ff_statement, emit_if_reset};
use veryl_css::value::Value;

const CLK: u32 = 0;
const RST: u32 = 1;
const A: u32 = 2;
const B: u32 = 3;
const O: u32 = 4;
const T: u32 = 5;

fn var(id: u32) -> Expression {
    Expression::Term(Box::new(Factor::Variable { id, dimension: 0, select: String::new() }))
}

fn num(n: u32) -> Expression {
    let value = Value { payload: vec![n], mask_xz: vec![], width: 32, signed: true, big: false };
    Expression::Term(Box::new(Factor::Value(Some(value))))
}

fn bin(l: Expression, op: Op, r: Expression) -> Expression {
    Expression::Binary(Box::new(l), op, Box::new(r))
}

fn dst(id: u32) -> AssignDestination {
    AssignDestination { id, dimension: 0, select: String::new() }
}

fn assign(id: u32, expr: Expression) -> Statement {
    Statement::Assign(AssignStatement { dst: vec![dst(id)], expr })
}

fn if_stmt(cond: Expression, t: Vec<Statement>, f: Vec<Statement>) -> IfStatement {
    IfStatement { cond, cond_text: "the condition".to_string(), true_side: t, false_side: f }
}

fn if_else(cond: Expression, t: Vec<Statement>, f: Vec<Statement>) -> Statement {
    Statement::If(if_stmt(cond, t, f))
}

fn if_reset(t: Vec<Statement>, f: Vec<Statement>) -> Statement {
    Statement::IfReset(IfResetStatement {
        true_side: t,
        false_side: f,
        text: "the reset".to_string(),
    })
}

fn variable(path: &str, kind: VarKind, type_text: &str) -> Variable {
    Variable { path: path.to_string(), kind, type_text: type_text.to_string() }
}

fn variables() -> Vec<(u32, Variable)> {
    let int = "signed bit<32>";
    vec![
        (CLK, variable("clk", VarKind::Input, "clock")),
        (RST, variable("rst", VarKind::Input, "reset")),
        (A, variable("a", VarKind::Input, int)),
        (B, variable("b", VarKind::Input, int)),
        (O, variable("o", VarKind::Output, int)),
        (T, variable("t", VarKind::Variable, int)),
    ]
}

fn data_variables() -> Vec<(u32, Variable)> {
    variables().into_iter().skip(2).collect()
}

fn comb(statements: Vec<Statement>) -> Declaration {
    Declaration::Comb(CombDeclaration { statements })
}

fn ff(statements: Vec<Statement>) -> Declaration {
    Declaration::Ff(FfDeclaration { clock: CLK, reset: Some(RST), statements })
}

fn module(variables: Vec<(u32, Variable)>, declarations: Vec<Declaration>) -> Module {
    Module { name: "Mod".to_string(), variables, declarations }
}

fn sheet(module: &Module) -> Result<String, String> {
    emit_module(module).map(|o| o.css).map_err(|e| e.message)
}

fn comb_sheet(statements: Vec<Statement>) -> Result<String, String> {
    sheet(&module(data_variables(), vec![comb(statements)]))
}

fn ff_sheet(statements: Vec<Statement>) -> Result<String, String> {
    sheet(&module(variables(), vec![ff(statements)]))
}

fn property(name: &str) -> String {
    format!(
        "@property {name} {{\n  syntax: \"<integer>\";\n  inherits: true;\n  initial-value: 0;\n}}\n\n"
    )
}

fn function(name: &str, body: &str) -> String {
    format!(
        "@function {name}(--a <number>, --b <number>) returns <integer> {{\n  result: {body};\n}}\n\n"
    )
}

const HEAD: &str = "/* generated by veryl-css */\n\n";

fn data_properties() -> String {
    property("--Mod-t") + &property("--a") + &property("--b") + &property("--o")
}

#[test]
fn a_combinational_module_computes_on_the_root() {
    let css = comb_sheet(vec![
        assign(T, bin(var(A), Op::Add, var(B))),
        Statement::Null,
        assign(O, bin(var(T), Op::Mul, num(2))),
    ]);
    let expected = HEAD.to_string()
        + &data_properties()
        + ":root {\n  --Mod-t: calc((var(--a)) + (var(--b)));\n  --o: calc((var(--Mod-t)) * (2));\n}\n\n";
    assert_eq!(css, Ok(expected));
}

#[test]
fn a_conditional_statement_declares_its_condition_first() {
    let css = comb_sheet(vec![if_else(
        bin(var(A), Op::Less, var(B)),
        vec![assign(O, var(A)), assign(T, num(1))],
        vec![assign(T, num(2)), assign(O, var(B))],
    )]);
    let expected = HEAD.to_string()
        + &function("--veryl-lt", "clamp(0, sign(calc(var(--b) - var(--a))), 1)")
        + &data_properties()
        + ":root {\n  --veryl-cond-0: --veryl-lt(var(--a), var(--b));\n"
        + "  --o: if(style(--veryl-cond-0: 1): var(--a); else: var(--b));\n"
        + "  --Mod-t: if(style(--veryl-cond-0: 1): 1; else: 2);\n}\n\n";
    assert_eq!(css, Ok(expected));
}

#[test]
fn nested_conditions_are_numbered_as_they_are_met() {
    let inner = if_else(
        bin(var(A), Op::Eq, num(3)),
        vec![assign(O, num(1))],
        vec![assign(O, num(2))],
    );
    let other = if_else(
        bin(var(B), Op::Ne, num(4)),
        vec![assign(O, num(3))],
        vec![assign(O, num(4))],
    );
    let css = comb_sheet(vec![if_else(
        bin(var(A), Op::GreaterEq, var(B)),
        vec![inner],
        vec![other],
    )]);
    let expected = HEAD.to_string()
        + &function("--veryl-gte", "clamp(0, calc(1 + sign(calc(var(--a) - var(--b)))), 1)")
        + &function("--veryl-eq", "clamp(0, calc(1 - abs(sign(calc(var(--a) - var(--b))))), 1)")
        + &function("--veryl-neq", "abs(sign(calc(var(--a) - var(--b))))")
        + &data_properties()
        + ":root {\n  --veryl-cond-0: --veryl-gte(var(--a), var(--b));\n"
        + "  --veryl-cond-1: --veryl-eq(var(--a), 3);\n"
        + "  --veryl-cond-2: --veryl-neq(var(--b), 4);\n"
        + "  --o: if(style(--veryl-cond-0: 1): if(style(--veryl-cond-1: 1): 1; else: 2); "
        + "else: if(style(--veryl-cond-2: 1): 3; else: 4));\n}\n\n";
    assert_eq!(css, Ok(expected));
}

#[test]
fn registers_pass_their_state_on() {
    let css = ff_sheet(vec![if_reset(
        vec![assign(O, num(0))],
        vec![assign(O, bin(var(O), Op::Add, num(1))), assign(T, var(A))],
    )]);
    let expected = HEAD.to_string()
        + &property("--Mod-t")
        + &property("--a")
        + &property("--b")
        + &property("--o")
        + &property("--rst")
        + "body {\n  --o: var(--Mod-o-hoist, 0);\n  --Mod-t: var(--Mod-t-hoist, 0);\n"
        + "  --Mod-o-next: if(style(--rst: 1): 0; else: calc((var(--o)) + (1)));\n"
        + "  --Mod-t-next: var(--a);\n}\n\n"
        + "@keyframes hoist {\n  0%, 100% {\n    --Mod-o-hoist: var(--Mod-o-captured, 0);\n"
        + "    --Mod-t-hoist: var(--Mod-t-captured, 0);\n  }\n}\n\n"
        + "@keyframes capture {\n  0%, 100% {\n    --Mod-o-captured: var(--Mod-o-next);\n"
        + "    --Mod-t-captured: var(--Mod-t-next);\n  }\n}\n\n";
    assert_eq!(css, Ok(expected));
}

#[test]
fn combinational_lines_precede_next_states() {
    let css = sheet(&module(
        variables(),
        vec![
            ff(vec![if_else(
                bin(var(A), Op::Greater, num(0)),
                vec![assign(O, num(1))],
                vec![assign(O, num(2))],
            )]),
            Declaration::Null,
            comb(vec![if_else(
                bin(var(A), Op::LessEq, num(0)),
                vec![assign(T, num(3))],
                vec![assign(T, num(4))],
            )]),
        ],
    ))
    .unwrap();
    let body = "body {\n  --o: var(--Mod-o-hoist, 0);\n\
                \x20 --veryl-cond-1: --veryl-lte(var(--a), 0);\n\
                \x20 --Mod-t: if(style(--veryl-cond-1: 1): 3; else: 4);\n\
                \x20 --veryl-cond-0: --veryl-gt(var(--a), 0);\n\
                \x20 --Mod-o-next: if(style(--veryl-cond-0: 1): 1; else: 2);\n}\n\n";
    assert!(css.contains(body), "{css}");
    let lte = css.find("@function --veryl-lte").unwrap();
    let gt = css.find("@function --veryl-gt(").unwrap();
    assert!(lte < gt);
    assert!(!css.contains("@function --veryl-eq"));
    for name in ["next", "captured", "hoist"] {
        assert!(!css.contains(&format!("@property --Mod-o-{name}")));
    }
}

#[test]
fn the_order_of_variables_does_not_matter() {
    let statements = || vec![assign(O, var(A)), assign(T, var(B))];
    let forward = sheet(&module(variables(), vec![ff(statements())]));
    let backward = sheet(&module(
        variables().into_iter().rev().collect(),
        vec![ff(statements())],
    ));
    assert!(forward.is_ok());
    assert_eq!(forward, backward);
}

#[test]
fn parameters_and_clocks_have_no_custom_property() {
    let mut all = variables();
    all.push((9, variable("P", VarKind::Param, "signed bit<32>")));
    all.push((10, variable("C", VarKind::Const, "signed bit<32>")));
    let css = sheet(&module(all, vec![ff(vec![assign(O, var(A))])])).unwrap();
    assert!(!css.contains("--clk") && !css.contains("--P ") && !css.contains("--C "));
    let v = variable("x.P", VarKind::Param, "signed bit<32>");
    assert!(matches!(variable_css_name(&v, "Mod"), Ok(None)));
    let v = variable("x.y", VarKind::Let, "signed bit<32>");
    assert!(matches!(variable_css_name(&v, "Mod"), Ok(Some(name)) if name == "--Mod-y"));
}

#[test]
fn other_types_are_refused() {
    let mut all = data_variables();
    all.push((9, variable("m.w", VarKind::Variable, "logic<8>")));
    assert_eq!(
        sheet(&module(all, vec![comb(vec![assign(O, var(A))])])),
        Err("only `signed bit<32>` variables are supported, got `logic<8>` for `m.w`".to_string())
    );
}

#[test]
fn a_reset_is_no_register() {
    assert_eq!(
        ff_sheet(vec![assign(RST, num(1))]),
        Err("ff assignment to non-ff variable: var1".to_string())
    );
}

#[test]
fn unsupported_declarations_are_refused() {
    let other = Declaration::Other("inst u {}".to_string());
    assert_eq!(
        sheet(&module(data_variables(), vec![other])),
        Err("unsupported declaration: inst u {}".to_string())
    );
    assert_eq!(
        sheet(&module(data_variables(), vec![Declaration::Null])),
        Err("no comb or ff declaration found".to_string())
    );
}

#[test]
fn unsupported_statements_are_refused() {
    let other = || Statement::Other("$display()".to_string());
    let cond = || bin(var(A), Op::Eq, var(B));
    assert_eq!(comb_sheet(vec![other()]), Err("unsupported statement: $display()".to_string()));
    assert_eq!(
        comb_sheet(vec![if_reset(vec![], vec![])]),
        Err("unsupported statement: the reset".to_string())
    );
    assert_eq!(ff_sheet(vec![other()]), Err("unsupported ff statement: $display()".to_string()));
    assert_eq!(
        comb_sheet(vec![if_else(cond(), vec![other()], vec![])]),
        Err("unsupported statement in branch: $display()".to_string())
    );
    assert_eq!(
        ff_sheet(vec![if_else(cond(), vec![if_reset(vec![], vec![])], vec![])]),
        Err("unsupported statement in branch: the reset".to_string())
    );
}

#[test]
fn both_sides_of_an_if_assign_the_same_variables() {
    let cond = || bin(var(A), Op::Eq, var(B));
    assert_eq!(
        comb_sheet(vec![if_else(cond(), vec![assign(O, num(1))], vec![])]),
        Err("variable var4 not assigned in false branch of if".to_string())
    );
    assert_eq!(
        comb_sheet(vec![if_else(cond(), vec![], vec![assign(T, num(1)), assign(O, num(1))])]),
        Err("variable var4 not assigned in true branch of if".to_string())
    );
}

#[test]
fn unknown_variables_are_refused() {
    let cond = || bin(var(A), Op::Eq, var(B));
    let both = |id| if_else(cond(), vec![assign(id, num(1))], vec![assign(id, num(2))]);
    assert_eq!(
        comb_sheet(vec![assign(O, var(77))]),
        Err("unknown variable id: var77".to_string())
    );
    assert_eq!(
        comb_sheet(vec![assign(77, var(A))]),
        Err("unknown assignment destination: var77".to_string())
    );
    assert_eq!(
        comb_sheet(vec![both(77)]),
        Err("unknown variable in if branch: var77".to_string())
    );
    assert_eq!(
        ff_sheet(vec![both(RST)]),
        Err("if assigns to non-ff variable: var1".to_string())
    );
    assert_eq!(
        ff_sheet(vec![if_reset(vec![assign(RST, num(1))], vec![])]),
        Err("if_reset assigns to non-ff variable: var1".to_string())
    );
}

#[test]
fn only_whole_single_destinations_are_supported() {
    let with = |dst| vec![Statement::Assign(AssignStatement { dst, expr: num(1) })];
    assert_eq!(
        comb_sheet(with(vec![dst(O), dst(T)])),
        Err("only single-destination assignments are supported".to_string())
    );
    assert_eq!(
        comb_sheet(with(vec![])),
        Err("only single-destination assignments are supported".to_string())
    );
    assert_eq!(
        comb_sheet(with(vec![AssignDestination { id: O, dimension: 1, select: String::new() }])),
        Err("array destination is unsupported".to_string())
    );
    assert_eq!(
        comb_sheet(with(vec![AssignDestination {
            id: O,
            dimension: 0,
            select: "[0]".to_string()
        }])),
        Err("bit/part-select destination is unsupported".to_string())
    );
}

fn names() -> BTreeMap<u32, String> {
    BTreeMap::from([(A, "--a".to_string()), (B, "--b".to_string())])
}

fn expr_css(expr: Expression) -> Result<String, String> {
    emit_expr(&expr, &names()).map_err(|e| e.message)
}

#[test]
fn expressions_are_written() {
    let ok = |s: &str| Ok(s.to_string());
    assert_eq!(expr_css(bin(var(A), Op::Sub, num(7))), ok("calc((var(--a)) - (7))"));
    assert_eq!(
        expr_css(bin(var(A), Op::Div, var(B))),
        ok("round(to-zero, calc((var(--a)) / (var(--b))), 1)")
    );
    assert_eq!(expr_css(bin(var(A), Op::Rem, var(B))), ok("rem((var(--a)), (var(--b)))"));
    assert_eq!(
        expr_css(Expression::Unary(Op::Sub, Box::new(num(0xffff_ffff)))),
        ok("calc(-1 * (-1))")
    );
    assert_eq!(expr_css(Expression::Unary(Op::Add, Box::new(var(B)))), ok("var(--b)"));
}

#[test]
fn unsupported_expressions_are_refused() {
    let err = |s: &str| Err(s.to_string());
    let term = |f| Expression::Term(Box::new(f));
    assert_eq!(
        expr_css(bin(var(A), Op::Less, var(B))),
        err("unsupported binary operator: <:")
    );
    assert_eq!(
        expr_css(bin(var(A), Op::Other("**".to_string()), var(B))),
        err("unsupported binary operator: **")
    );
    assert_eq!(
        expr_css(Expression::Unary(Op::Ne, Box::new(var(A)))),
        err("unsupported unary operator: !=")
    );
    assert_eq!(
        expr_css(Expression::Other("{a, b}".to_string())),
        err("unsupported expression: {a, b}")
    );
    assert_eq!(
        expr_css(term(Factor::Other("f()".to_string()))),
        err("unsupported factor: f()")
    );
    assert_eq!(expr_css(term(Factor::Value(None))), err("failed to evaluate literal value"));
    assert_eq!(
        expr_css(term(Factor::Variable { id: A, dimension: 2, select: String::new() })),
        err("array indexing is unsupported")
    );
    assert_eq!(
        expr_css(term(Factor::Variable { id: A, dimension: 0, select: "[1]".to_string() })),
        err("bit/part-select is unsupported")
    );
    let x = Value { payload: vec![0], mask_xz: vec![1], width: 1, signed: false, big: false };
    assert_eq!(
        expr_css(term(Factor::Value(Some(x)))),
        err("x/z literal is unsupported: 1'hx")
    );
}

#[test]
fn conditions_are_comparisons() {
    let names = names();
    let mut ctx = Ctx::new(&names);
    let css = emit_condition(&bin(var(A), Op::Ne, num(1)), "a != 1", &mut ctx);
    assert_eq!(css.map_err(|e| e.message), Ok("--veryl-neq(var(--a), 1)".to_string()));
    assert!(ctx.used_comp_fns.neq && !ctx.used_comp_fns.eq);
    let css = emit_condition(&var(A), "a", &mut ctx);
    assert_eq!(
        css.map_err(|e| e.message),
        Err("unsupported condition expression: a".to_string())
    );
    let css = emit_condition(&bin(var(A), Op::Add, num(1)), "a + 1", &mut ctx);
    assert_eq!(
        css.map_err(|e| e.message),
        Err("unsupported condition operator: +".to_string())
    );
}

#[test]
fn the_last_assignment_in_a_branch_counts() {
    let names = names();
    let mut ctx = Ctx::new(&names);
    let mut preamble = vec![];
    let map = eval_branch(&vec![assign(O, num(1)), assign(O, num(2))], &mut ctx, &mut preamble);
    assert_eq!(map.map_err(|e| e.message), Ok(BTreeMap::from([(O, "2".to_string())])));
    assert!(preamble.is_empty());
}

#[test]
fn conditional_values_are_chosen_by_the_condition() {
    let names = names();
    let mut ctx = Ctx::new(&names);
    let mut preamble = vec![];
    let stmt = if_stmt(
        bin(var(A), Op::Eq, var(B)),
        vec![assign(O, num(1))],
        vec![assign(O, num(2))],
    );
    let map = eval_if_expr(&stmt, &mut ctx, &mut preamble).map_err(|e| e.message);
    let value = "if(style(--veryl-cond-0: 1): 1; else: 2)".to_string();
    assert_eq!(map, Ok(BTreeMap::from([(O, value)])));
    assert_eq!(preamble, vec!["--veryl-cond-0: --veryl-eq(var(--a), var(--b));"]);
}

#[test]
fn assigned_variables_are_collected_from_all_branches() {
    let mut ids = BTreeSet::from([100]);
    let statements = vec![
        Statement::Assign(AssignStatement { dst: vec![dst(7), dst(8)], expr: num(0) }),
        if_else(var(A), vec![assign(1, num(0))], vec![if_reset(vec![assign(2, num(0))], vec![])]),
        if_reset(vec![], vec![assign(3, num(0)), Statement::Null]),
        Statement::Other("x".to_string()),
    ];
    collect_assigned_ids(&statements, &mut ids);
    assert_eq!(ids, BTreeSet::from([1, 2, 3, 7, 8, 100]));
}

#[test]
fn a_design_has_exactly_one_module() {
    let one = || Component::Module(module(data_variables(), vec![comb(vec![assign(O, var(A))])]));
    let outcome = |components| emit(&Ir { components }).map(|o| o.css).map_err(|e| e.message);
    assert_eq!(
        outcome(vec![Component::Interface]),
        Err("expected exactly one top module, found 0".to_string())
    );
    assert_eq!(
        outcome(vec![one(), one()]),
        Err("expected exactly one top module, found 2".to_string())
    );
    let css = outcome(vec![Component::SystemVerilog, one(), Component::Interface]).unwrap();
    assert!(css.ends_with(":root {\n  --o: var(--a);\n}\n\n"));
}

#[test]
fn refused_statements_leave_lines_and_state_alone() {
    let names = names();
    let next = BTreeMap::from([(A, "--Mod-a-next".to_string())]);
    let mut ctx = Ctx::new(&names);
    let mut out = vec!["--old: 1;".to_string()];
    for statement in [assign(B, num(1)), assign(A, var(77)), Statement::Other("x".to_string())] {
        assert!(emit_ff_statement(&statement, &mut ctx, &next, &mut out).is_err());
        assert_eq!(out, vec!["--old: 1;"]);
        assert_eq!(ctx.cond_counter.text(), "0");
    }
    for statement in [assign(77, num(1)), if_reset(vec![], vec![])] {
        assert!(emit_comb_statement(&statement, &mut ctx, &mut out).is_err());
        assert_eq!(out, vec!["--old: 1;"]);
        assert_eq!(ctx.cond_counter.text(), "0");
    }
    assert!(!ctx.used_comp_fns.eq);
}

#[test]
fn refused_branches_leave_the_lines_alone() {
    let names = names();
    let next = BTreeMap::from([(A, "--Mod-a-next".to_string())]);
    let mut ctx = Ctx::new(&names);
    let mut out = vec!["--old: 1;".to_string()];
    let nested = || {
        if_else(bin(var(A), Op::Eq, var(B)), vec![assign(A, num(1))], vec![assign(A, num(2))])
    };
    let bad = if_stmt(
        bin(var(A), Op::Less, var(B)),
        vec![nested(), assign(A, num(0))],
        vec![assign(A, var(77))],
    );
    assert!(emit_comb_if(&bad, &mut ctx, &mut out).is_err());
    assert_eq!(out, vec!["--old: 1;"]);
    let Statement::IfReset(reset) = if_reset(vec![nested()], vec![assign(A, var(77))]) else {
        unreachable!()
    };
    assert!(emit_if_reset(&reset, &mut ctx, &next, &mut out).is_err());
    assert_eq!(out, vec!["--old: 1;"]);
    assert!(ctx.used_comp_fns.lt && ctx.used_comp_fns.eq);
}

#[test]
fn lines_before_an_unknown_variable_stay_written() {
    let names = names();
    let next = BTreeMap::from([(A, "--Mod-a-next".to_string())]);
    let mut ctx = Ctx::new(&names);
    let mut out = vec!["--old: 1;".to_string()];
    let statement = if_else(
        bin(var(A), Op::Eq, var(B)),
        vec![assign(A, num(1)), assign(B, num(2))],
        vec![assign(A, num(3)), assign(B, num(4))],
    );
    let r = emit_ff_statement(&statement, &mut ctx, &next, &mut out).map_err(|e| e.message);
    assert_eq!(r, Err("if assigns to non-ff variable: var3".to_string()));
    assert_eq!(
        out,
        vec![
            "--old: 1;",
            "--veryl-cond-0: --veryl-eq(var(--a), var(--b));",
            "--Mod-a-next: if(style(--veryl-cond-0: 1): 1; else: 3);",
        ]
    );
}
