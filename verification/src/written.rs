//! What a written style sheet computes.

use vstd::prelude::*;

use crate::comparison::law_comparison_read;
use crate::css::{comp_body, comp_name, cond_name, CompFn, CssCond, CssLine, CssValue};
use crate::cycle::{declared, solves};
use crate::lines::{all_one_line, lemma_one_line_add, lines_of, one_line, written_lines};
use crate::literal::is_css_integer;
use crate::module::Sheet;
use crate::parts::{findable, flush, function_selector, law_function_found, rule};
use crate::reading::{
    is_delimiter, is_word, law_written_condition, law_written_line, law_written_value,
    lemma_comp_name_word, lemma_cond_name_word, lemma_read_line, read_call, read_line, readable,
    text_value,
};
use crate::scope::{law_cond_names_differ, sets_conds};
use crate::semantics::{cond_value, css_value, holds};

verus! {

/// What written declarations set a custom property to; the last one counts.
pub open spec fn text_declared(lines: Seq<Seq<char>>, name: Seq<char>) -> Option<Seq<char>>
    decreases lines.len(),
{
    if lines.len() == 0 {
        None
    } else {
        match read_line(lines.last()) {
            Some((target, value)) => if target == name {
                Some(value)
            } else {
                text_declared(lines.drop_last(), name)
            },
            None => text_declared(lines.drop_last(), name),
        }
    }
}

/// What a call of a function comes to that a style sheet with the given lines declares.
pub open spec fn call_value(lines: Seq<Seq<char>>, name: Seq<char>, a: int, b: int) -> Option<int> {
    match text_declared(rule(lines, function_selector(name)), "result"@) {
        Some(body) => text_value(body, map!["--a"@ => a, "--b"@ => b]),
        None => None,
    }
}

/// What a value or a call that is written in a style sheet with the given lines comes to, where
/// custom properties have the given values.
pub open spec fn meaning(
    lines: Seq<Seq<char>>,
    text: Seq<char>,
    env: Map<Seq<char>, int>,
) -> Option<int> {
    match text_value(text, env) {
        Some(x) => Some(x),
        None => match read_call(text, env) {
            Some((name, a, b)) => call_value(lines, name, a, b),
            None => None,
        },
    }
}

/// Whether custom properties have the values that declarations in a style sheet with the given
/// lines give them.
pub open spec fn solves_text(
    env: Map<Seq<char>, int>,
    declarations: Seq<Seq<char>>,
    lines: Seq<Seq<char>>,
) -> bool {
    forall|name: Seq<char>|
        (#[trigger] text_declared(declarations, name)) matches Some(value) ==> env.contains_key(
            name,
        ) && meaning(lines, value, env) == Some(env[name])
}

/// Whether all names in a declaration are such.
pub open spec fn line_readable(line: CssLine) -> bool {
    match line {
        CssLine::Cond(_, cond) => readable(cond.l) && readable(cond.r),
        CssLine::Assign(name, value) => is_word(name) && readable(value),
    }
}

/// Whether all names in declarations are such.
pub open spec fn lines_readable(lines: Seq<CssLine>) -> bool {
    forall|i: int| 0 <= i < lines.len() ==> line_readable(#[trigger] lines[i])
}

/// Whether what declarations read and set can be told apart in their lines.
pub open spec fn sheet_readable(sheet: Sheet) -> bool {
    &&& all_one_line(sheet.properties)
    &&& lines_readable(sheet.body)
    &&& lines_readable(sheet.hoist)
    &&& lines_readable(sheet.capture)
}

pub proof fn lemma_word_one_line(name: Seq<char>)
    requires
        is_word(name),
    ensures
        one_line(name),
        flush(name),
{
    if name.contains('\n') {
        assert(is_delimiter(name[name.index_of('\n')]));
    }
    assert(!is_delimiter(name[0]));
}

proof fn lemma_integer_one_line(numeral: Seq<char>)
    requires
        is_css_integer(numeral),
    ensures
        one_line(numeral),
{
    if numeral.contains('\n') {
        let i = numeral.index_of('\n');
        assert(numeral[i] == '\n');
        assert(i == 0 && numeral[0] == '-' || '0' <= numeral[i] <= '9');
    }
}

proof fn lemma_joined_one_line(
    a: Seq<char>,
    x: Seq<char>,
    b: Seq<char>,
    y: Seq<char>,
    c: Seq<char>,
)
    requires
        one_line(a),
        one_line(x),
        one_line(b),
        one_line(y),
        one_line(c),
    ensures
        one_line(a + x + b + y + c),
{
    lemma_one_line_add(a, x);
    lemma_one_line_add(a + x, b);
    lemma_one_line_add(a + x + b, y);
    lemma_one_line_add(a + x + b + y, c);
}

proof fn lemma_pieces_one_line()
    ensures
        one_line("var("@) && one_line(")"@) && one_line(", 0)"@) && one_line("calc(-1 * ("@),
        one_line("))"@) && one_line("calc(("@) && one_line(") + ("@) && one_line(") - ("@),
        one_line(") * ("@) && one_line(") / ("@) && one_line("), ("@) && one_line(")), 1)"@),
        one_line("round(to-zero, calc(("@) && one_line("rem(("@) && one_line("if(style("@),
        one_line(": 1): "@) && one_line("; else: "@) && one_line("if(style(--rst: 1): "@),
        one_line("("@) && one_line(", "@) && one_line(": "@) && one_line(";"@),
{
    reveal_strlit("var(");
    reveal_strlit(")");
    reveal_strlit(", 0)");
    reveal_strlit("calc(-1 * (");
    reveal_strlit("))");
    reveal_strlit("calc((");
    reveal_strlit(") + (");
    reveal_strlit(") - (");
    reveal_strlit(") * (");
    reveal_strlit(") / (");
    reveal_strlit("), (");
    reveal_strlit(")), 1)");
    reveal_strlit("round(to-zero, calc((");
    reveal_strlit("rem((");
    reveal_strlit("if(style(");
    reveal_strlit(": 1): ");
    reveal_strlit("; else: ");
    reveal_strlit("if(style(--rst: 1): ");
    reveal_strlit("(");
    reveal_strlit(", ");
    reveal_strlit(": ");
    reveal_strlit(";");
}

proof fn lemma_value_one_line(value: CssValue)
    requires
        readable(value),
    ensures
        one_line(value.text()),
    decreases value,
{
    lemma_pieces_one_line();
    match value {
        CssValue::Int(numeral) => lemma_integer_one_line(numeral),
        CssValue::Var(name) => {
            lemma_word_one_line(name);
            lemma_one_line_add("var("@, name);
            lemma_one_line_add("var("@ + name, ")"@);
        },
        CssValue::VarOrZero(name) => {
            lemma_word_one_line(name);
            lemma_one_line_add("var("@, name);
            lemma_one_line_add("var("@ + name, ", 0)"@);
        },
        CssValue::Neg(x) => {
            lemma_value_one_line(*x);
            lemma_one_line_add("calc(-1 * ("@, x.text());
            lemma_one_line_add("calc(-1 * ("@ + x.text(), "))"@);
        },
        CssValue::Add(l, r) => {
            lemma_value_one_line(*l);
            lemma_value_one_line(*r);
            lemma_joined_one_line("calc(("@, l.text(), ") + ("@, r.text(), "))"@);
        },
        CssValue::Sub(l, r) => {
            lemma_value_one_line(*l);
            lemma_value_one_line(*r);
            lemma_joined_one_line("calc(("@, l.text(), ") - ("@, r.text(), "))"@);
        },
        CssValue::Mul(l, r) => {
            lemma_value_one_line(*l);
            lemma_value_one_line(*r);
            lemma_joined_one_line("calc(("@, l.text(), ") * ("@, r.text(), "))"@);
        },
        CssValue::Div(l, r) => {
            lemma_value_one_line(*l);
            lemma_value_one_line(*r);
            lemma_joined_one_line(
                "round(to-zero, calc(("@,
                l.text(),
                ") / ("@,
                r.text(),
                ")), 1)"@,
            );
        },
        CssValue::Rem(l, r) => {
            lemma_value_one_line(*l);
            lemma_value_one_line(*r);
            lemma_joined_one_line("rem(("@, l.text(), "), ("@, r.text(), "))"@);
        },
        CssValue::IfCond(n, t, f) => {
            lemma_value_one_line(*t);
            lemma_value_one_line(*f);
            lemma_cond_name_word(n);
            lemma_word_one_line(cond_name(n));
            lemma_one_line_add("if(style("@, cond_name(n));
            lemma_one_line_add("if(style("@ + cond_name(n), ": 1): "@);
            lemma_joined_one_line(
                "if(style("@ + cond_name(n) + ": 1): "@,
                t.text(),
                "; else: "@,
                f.text(),
                ")"@,
            );
        },
        CssValue::IfReset(t, f) => {
            lemma_value_one_line(*t);
            lemma_value_one_line(*f);
            lemma_joined_one_line(
                "if(style(--rst: 1): "@,
                t.text(),
                "; else: "@,
                f.text(),
                ")"@,
            );
        },
    }
}

proof fn lemma_line_findable(line: CssLine)
    requires
        line_readable(line),
    ensures
        one_line(line.text()),
        flush(line.text()),
{
    lemma_pieces_one_line();
    match line {
        CssLine::Cond(n, cond) => {
            lemma_cond_name_word(n);
            lemma_word_one_line(cond_name(n));
            lemma_comp_name_word(cond.f);
            lemma_word_one_line(comp_name(cond.f));
            lemma_value_one_line(cond.l);
            lemma_value_one_line(cond.r);
            lemma_one_line_add(comp_name(cond.f), "("@);
            lemma_joined_one_line(
                comp_name(cond.f) + "("@,
                cond.l.text(),
                ", "@,
                cond.r.text(),
                ")"@,
            );
            lemma_one_line_add(cond_name(n), ": "@);
            lemma_one_line_add(cond_name(n) + ": "@, cond.text());
            lemma_one_line_add(cond_name(n) + ": "@ + cond.text(), ";"@);
            assert(line.text().first() == cond_name(n)[0]);
        },
        CssLine::Assign(name, value) => {
            lemma_word_one_line(name);
            lemma_value_one_line(value);
            lemma_one_line_add(name, ": "@);
            lemma_one_line_add(name + ": "@, value.text());
            lemma_one_line_add(name + ": "@ + value.text(), ";"@);
            assert(line.text().first() == name[0]);
        },
    }
}

pub proof fn lemma_findable(lines: Seq<CssLine>)
    requires
        lines_readable(lines),
    ensures
        findable(written_lines(lines)),
{
    let written = written_lines(lines);
    assert forall|i: int| 0 <= i < written.len() implies one_line(#[trigger] written[i]) && flush(
        written[i],
    ) by {
        assert(line_readable(lines[i]));
        lemma_line_findable(lines[i]);
    }
}

/// Law: a call of the function of a comparison, looked up in the lines of a style sheet that uses
/// the comparison, comes to 1 where the comparison holds, and to 0 where it does not.
pub proof fn law_call_value(sheet: Sheet, f: CompFn, a: int, b: int)
    requires
        sheet_readable(sheet),
        sheet.functions.contains(f),
    ensures
        call_value(lines_of(sheet.text()), comp_name(f), a, b) == Some(
            if holds(f, a, b) {
                1int
            } else {
                0
            },
        ),
{
    lemma_findable(sheet.body);
    lemma_findable(sheet.hoist);
    lemma_findable(sheet.capture);
    law_function_found(sheet, f);
    reveal_strlit("result");
    reveal_strlit("result: ");
    reveal_strlit(": ");
    let line = "result: "@ + comp_body(f) + ";"@;
    assert(line == "result"@ + ": "@ + comp_body(f) + ";"@);
    lemma_read_line("result"@, comp_body(f));
    assert(seq![line].last() == line);
    let env = map!["--a"@ => a, "--b"@ => b];
    assert("--a"@ != "--b"@) by {
        reveal_strlit("--a");
        reveal_strlit("--b");
        assert("--a"@[2] != "--b"@[2]);
    }
    law_comparison_read(f, env);
}

proof fn lemma_comp_name_dashes(f: CompFn)
    ensures
        comp_name(f).len() > 2,
        comp_name(f)[0] == '-',
        comp_name(f)[1] == '-',
{
    reveal_strlit("--veryl-lt");
    reveal_strlit("--veryl-lte");
    reveal_strlit("--veryl-gt");
    reveal_strlit("--veryl-gte");
    reveal_strlit("--veryl-eq");
    reveal_strlit("--veryl-neq");
}

/// Law: a written condition, in a style sheet that uses its comparison, comes to 1 where the
/// comparison of its two sides holds, and to 0 where it does not.
pub proof fn law_condition_meaning(sheet: Sheet, cond: CssCond, env: Map<Seq<char>, int>)
    requires
        sheet_readable(sheet),
        sheet.functions.contains(cond.f),
        readable(cond.l),
        readable(cond.r),
    ensures
        meaning(lines_of(sheet.text()), cond.text(), env) == Some(cond_value(cond, env)),
{
    law_written_condition(cond, env);
    let name = comp_name(cond.f);
    let text = cond.text();
    lemma_comp_name_dashes(cond.f);
    assert(text[0] == name[0] && text[1] == name[1]);
    assert(text.skip(1).first() == '-');
    assert(text_value(text, env) is None);
    law_call_value(sheet, cond.f, css_value(cond.l, env), css_value(cond.r, env));
}

/// What is declared for a custom property that is not one of a condition.
pub proof fn lemma_text_declared(lines: Seq<CssLine>, name: Seq<char>)
    requires
        lines_readable(lines),
        forall|i: int|
            0 <= i < lines.len() ==> (#[trigger] lines[i] matches CssLine::Cond(n, _) ==> cond_name(
                n,
            ) != name),
    ensures
        text_declared(written_lines(lines), name) == (match declared(lines, name) {
            Some(value) => Some(value.text()),
            None => None,
        }),
    decreases lines.len(),
{
    if lines.len() > 0 {
        let rest = lines.drop_last();
        let k = lines.len() - 1;
        assert forall|i: int| 0 <= i < rest.len() implies line_readable(#[trigger] rest[i]) by {
            assert(line_readable(lines[i]));
        }
        assert forall|i: int| 0 <= i < rest.len() implies (#[trigger] rest[i] matches CssLine::Cond(
            n,
            _,
        ) ==> cond_name(n) != name) by {
            assert(rest[i] == lines[i]);
        }
        lemma_text_declared(rest, name);
        assert(line_readable(lines[k]));
        law_written_line(lines[k]);
        assert(written_lines(lines).drop_last() == written_lines(rest));
        assert(written_lines(lines).last() == lines[k].text());
    }
}

/// What is declared for the custom property of a condition.
pub proof fn lemma_text_cond(lines: Seq<CssLine>, at: int)
    requires
        lines_readable(lines),
        0 <= at < lines.len(),
        lines[at] is Cond,
        forall|i: int|
            0 <= i < lines.len() ==> (#[trigger] lines[i] matches CssLine::Assign(name, _) ==> name
                != cond_name(lines[at]->Cond_0)),
        forall|i: int|
            at < i < lines.len() ==> (#[trigger] lines[i] matches CssLine::Cond(n, _) ==> n
                != lines[at]->Cond_0),
    ensures
        text_declared(written_lines(lines), cond_name(lines[at]->Cond_0)) == Some(
            lines[at]->Cond_1.text(),
        ),
    decreases lines.len(),
{
    let rest = lines.drop_last();
    let k = lines.len() - 1;
    let number = lines[at]->Cond_0;
    assert(line_readable(lines[k]));
    law_written_line(lines[k]);
    assert(written_lines(lines).drop_last() == written_lines(rest));
    assert(written_lines(lines).last() == lines[k].text());
    if at < k {
        assert forall|i: int| 0 <= i < rest.len() implies line_readable(#[trigger] rest[i]) by {
            assert(line_readable(lines[i]));
        }
        assert(rest[at] == lines[at]);
        assert forall|i: int| 0 <= i < rest.len() implies (
        #[trigger] rest[i] matches CssLine::Assign(name, _) ==> name != cond_name(
            rest[at]->Cond_0,
        )) by {
            assert(rest[i] == lines[i]);
        }
        assert forall|i: int| at < i < rest.len() implies (#[trigger] rest[i] matches CssLine::Cond(
            n,
            _,
        ) ==> n != rest[at]->Cond_0) by {
            assert(rest[i] == lines[i]);
        }
        lemma_text_cond(rest, at);
        if let CssLine::Cond(n, _) = lines[k] {
            assert(n != number);
            if cond_name(n) == cond_name(number) {
                law_cond_names_differ(n, number);
            }
        }
    }
}

/// Custom properties that solve written declarations solve the declarations.
pub proof fn lemma_solves(env: Map<Seq<char>, int>, sheet: Sheet, conds: Seq<CssCond>)
    requires
        sheet_readable(sheet),
        sets_conds(sheet.body, 0, conds),
        forall|i: int|
            0 <= i < sheet.body.len() ==> (#[trigger] sheet.body[i] matches CssLine::Cond(_, cond)
                ==> sheet.functions.contains(cond.f)),
        forall|i: int, n: nat|
            0 <= i < sheet.body.len() ==> (#[trigger] sheet.body[i] matches CssLine::Assign(name, _)
                ==> name != #[trigger] cond_name(n)),
        solves_text(env, written_lines(sheet.body), lines_of(sheet.text())),
    ensures
        solves(env, sheet.body),
{
    let lines = sheet.body;
    assert forall|i: int| 0 <= i < lines.len() implies (#[trigger] lines[i] matches CssLine::Cond(
        k,
        cond,
    ) ==> env[cond_name(k)] == cond_value(cond, env)) by {
        if let CssLine::Cond(k, cond) = lines[i] {
            assert forall|j: int| i < j < lines.len() implies (
            #[trigger] lines[j] matches CssLine::Cond(n, _) ==> n != lines[i]->Cond_0) by {
                if lines[j] is Cond {
                    assert(lines[i]->Cond_0 != lines[j]->Cond_0);
                }
            }
            lemma_text_cond(lines, i);
            assert(line_readable(lines[i]));
            law_condition_meaning(sheet, cond, env);
            assert(text_declared(written_lines(lines), cond_name(k)) == Some(cond.text()));
        }
    }
    assert forall|name: Seq<char>|
        (#[trigger] declared(lines, name)) matches Some(value) implies env.contains_key(name)
        && env[name] == css_value(declared(lines, name)->0, env) by {
        lemma_declared_line(lines, name);
        let i = choose|i: int|
            0 <= i < lines.len() && (#[trigger] lines[i] matches CssLine::Assign(target, value)
                && target == name && Some(value) == declared(lines, name));
        assert(line_readable(lines[i]));
        assert forall|j: int| 0 <= j < lines.len() implies (
        #[trigger] lines[j] matches CssLine::Cond(n, _) ==> cond_name(n) != name) by {
            if let CssLine::Cond(n, _) = lines[j] {
                assert(lines[i] matches CssLine::Assign(target, _) ==> target != cond_name(n));
            }
        }
        lemma_text_declared(lines, name);
        let value = declared(lines, name)->0;
        law_written_value(value, env);
        assert(text_declared(written_lines(lines), name) == Some(value.text()));
    }
}

/// What is declared stands in a line.
pub proof fn lemma_declared_line(lines: Seq<CssLine>, name: Seq<char>)
    requires
        declared(lines, name) is Some,
    ensures
        exists|i: int|
            0 <= i < lines.len() && (#[trigger] lines[i] matches CssLine::Assign(target, value)
                && target == name && Some(value) == declared(lines, name)),
    decreases lines.len(),
{
    let k = lines.len() - 1;
    let rest = lines.drop_last();
    assert(lines[k] == lines.last());
    if declared(rest, name) is Some && !(lines.last() matches CssLine::Assign(target, _) && target
        == name) {
        lemma_declared_line(rest, name);
        let i = choose|i: int|
            0 <= i < rest.len() && (#[trigger] rest[i] matches CssLine::Assign(target, value)
                && target == name && Some(value) == declared(rest, name));
        assert(lines[i] == rest[i]);
    }
}

} // verus!
