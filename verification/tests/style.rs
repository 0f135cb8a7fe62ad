use veryl_css::context::{Counter, Ctx};
use veryl_css::css::{
    css_block, css_comp_functions, css_keyframes, css_property, CompFn, CompFns,
};
use veryl_css::ir::{show_op, Op};
use veryl_css::names::insert_name;
use veryl_css::signal::last_path_segment;

#[test]
fn no_function_is_declared_unless_used() {
    assert_eq!(css_comp_functions(&CompFns::new()), "");
}

#[test]
fn functions_are_declared_in_a_fixed_order() {
    let mut used = CompFns::new();
    used.insert(CompFn::Neq);
    used.insert(CompFn::Lt);
    used.insert(CompFn::Lt);
    assert!(used.contains(CompFn::Lt) && !used.contains(CompFn::Eq));
    assert_eq!(
        css_comp_functions(&used),
        "@function --veryl-lt(--a <number>, --b <number>) returns <integer> {\n  \
         result: clamp(0, sign(calc(var(--b) - var(--a))), 1);\n}\n\n\
         @function --veryl-neq(--a <number>, --b <number>) returns <integer> {\n  \
         result: abs(sign(calc(var(--a) - var(--b))));\n}\n\n"
    );
}

#[test]
fn every_comparison_has_its_function() {
    for (f, name, body) in [
        (CompFn::Lte, "lte", "clamp(0, calc(1 + sign(calc(var(--b) - var(--a)))), 1)"),
        (CompFn::Gt, "gt", "clamp(0, sign(calc(var(--a) - var(--b))), 1)"),
        (CompFn::Gte, "gte", "clamp(0, calc(1 + sign(calc(var(--a) - var(--b)))), 1)"),
        (CompFn::Eq, "eq", "clamp(0, calc(1 - abs(sign(calc(var(--a) - var(--b))))), 1)"),
    ] {
        let mut used = CompFns::new();
        used.insert(f);
        assert_eq!(
            css_comp_functions(&used),
            format!(
                "@function --veryl-{name}(--a <number>, --b <number>) returns <integer> {{\n  result: {body};\n}}\n\n"
            )
        );
    }
}

#[test]
fn properties_are_registered_as_integers() {
    assert_eq!(
        css_property("--o"),
        "@property --o {\n  syntax: \"<integer>\";\n  inherits: true;\n  initial-value: 0;\n}\n\n"
    );
}

#[test]
fn rules_hold_indented_lines() {
    let lines = vec!["--a: 1;".to_string(), "--b: 2;".to_string()];
    assert_eq!(css_block(":root", &lines), ":root {\n  --a: 1;\n  --b: 2;\n}\n\n");
    assert_eq!(css_block("body", &vec![]), "body {\n}\n\n");
}

#[test]
fn keyframes_hold_joined_lines() {
    let lines = vec!["--a: 1;".to_string(), "--b: 2;".to_string()];
    assert_eq!(
        css_keyframes("hoist", &lines),
        "@keyframes hoist {\n  0%, 100% {\n    --a: 1;\n    --b: 2;\n  }\n}\n\n"
    );
    assert_eq!(css_keyframes("capture", &vec![]), "@keyframes capture {\n  0%, 100% {\n\n  }\n}\n\n");
}

#[test]
fn the_last_segment_follows_the_last_dot() {
    for (path, segment) in [("a", "a"), ("a.b", "b"), ("a.b.c", "c"), ("a.", ""), ("", "")] {
        assert_eq!(last_path_segment(path).map_err(|e| e.message), Ok(segment.to_string()));
    }
}

#[test]
fn condition_names_are_numbered() {
    let names = std::collections::BTreeMap::new();
    let mut ctx = Ctx::new(&names);
    for n in 0..1001 {
        assert_eq!(ctx.next_cond_var(), format!("--veryl-cond-{n}"));
    }
}

#[test]
fn the_counter_carries() {
    let mut counter = Counter { digits: vec![9, 9, 9] };
    assert_eq!(counter.text(), "999");
    counter.advance();
    assert_eq!(counter.text(), "1000");
}

#[test]
fn names_are_kept_in_order_once() {
    let mut names = Vec::new();
    for name in ["--b", "--a-x", "--a", "--b", "--A"] {
        insert_name(&mut names, name);
    }
    assert_eq!(names, vec!["--A", "--a", "--a-x", "--b"]);
}

#[test]
fn operators_are_shown_as_the_analyzer_shows_them() {
    let pairs = [
        (Op::Add, veryl_analyzer::ir::Op::Add, "+"),
        (Op::Sub, veryl_analyzer::ir::Op::Sub, "-"),
        (Op::Mul, veryl_analyzer::ir::Op::Mul, "*"),
        (Op::Div, veryl_analyzer::ir::Op::Div, "/"),
        (Op::Rem, veryl_analyzer::ir::Op::Rem, "%"),
        (Op::Less, veryl_analyzer::ir::Op::Less, "<:"),
        (Op::LessEq, veryl_analyzer::ir::Op::LessEq, "<="),
        (Op::Greater, veryl_analyzer::ir::Op::Greater, ">:"),
        (Op::GreaterEq, veryl_analyzer::ir::Op::GreaterEq, ">="),
        (Op::Eq, veryl_analyzer::ir::Op::Eq, "=="),
        (Op::Ne, veryl_analyzer::ir::Op::Ne, "!="),
    ];
    for (op, outside, text) in pairs {
        assert_eq!(show_op(&op), text);
        assert_eq!(outside.to_string(), text);
    }
    assert_eq!(show_op(&Op::Other("**".to_string())), "**");
}
