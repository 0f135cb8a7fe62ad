//! The lines of a written style sheet.

use vstd::prelude::*;

use crate::css::{
    block_css, block_lines, comp_body, comp_fns, comp_function_css, comp_functions_css, comp_name,
    comp_order, keyframe_lines, keyframes_css, line_texts, property_css, used_functions_css, CompFn,
    CssCond, CssLine,
};
use crate::module::{properties_css, Sheet};

verus! {

/// The lines of a text, without their line breaks.
pub open spec fn lines_of(text: Seq<char>) -> Seq<Seq<char>>
    decreases text.len(),
{
    if text.len() == 0 {
        Seq::empty()
    } else if text.contains('\n') {
        proof {
            lemma_first_break(text);
        }
        let at = first_break(text);
        seq![text.take(at)] + lines_of(text.skip(at + 1))
    } else {
        seq![text]
    }
}

/// Where the first line break of a text stands, or would stand behind its end.
pub open spec fn first_break(text: Seq<char>) -> int
    decreases text.len(),
{
    if text.len() == 0 || text.first() == '\n' {
        0
    } else {
        1 + first_break(text.drop_first())
    }
}

/// Whether a text is part of one line.
pub open spec fn one_line(text: Seq<char>) -> bool {
    !text.contains('\n')
}

/// Whether a text consists of whole lines.
pub open spec fn whole_lines(text: Seq<char>) -> bool {
    text.len() > 0 ==> text.last() == '\n'
}

pub proof fn lemma_first_break(text: Seq<char>)
    ensures
        0 <= first_break(text) <= text.len(),
        forall|i: int| 0 <= i < first_break(text) ==> #[trigger] text[i] != '\n',
        text.contains('\n') ==> first_break(text) < text.len() && text[first_break(text)] == '\n',
    decreases text.len(),
{
    if text.len() > 0 && text.first() != '\n' {
        let rest = text.drop_first();
        lemma_first_break(rest);
        assert forall|i: int| 0 <= i < first_break(text) implies #[trigger] text[i] != '\n' by {
            if i > 0 {
                assert(rest[i - 1] == text[i]);
            }
        }
        if text.contains('\n') {
            let k = text.index_of('\n');
            assert(rest[k - 1] == '\n');
        }
    }
}

/// A line in front of a text is its first line.
proof fn lemma_first_line(line: Seq<char>, rest: Seq<char>)
    requires
        one_line(line),
    ensures
        lines_of(line + seq!['\n'] + rest) == seq![line] + lines_of(rest),
{
    let text = line + seq!['\n'] + rest;
    lemma_first_break(text);
    assert(text[line.len() as int] == '\n');
    let at = first_break(text);
    assert(at == line.len()) by {
        if at < line.len() {
            assert(text[at] == line[at]);
            assert(line.contains('\n'));
        }
    }
    assert(text.take(at) == line);
    assert(text.skip(at + 1) == rest);
}

/// The lines of joined texts are the joined lines, where the first consists of whole lines.
pub proof fn lemma_lines_add(a: Seq<char>, b: Seq<char>)
    requires
        whole_lines(a),
    ensures
        lines_of(a + b) == lines_of(a) + lines_of(b),
    decreases a.len(),
{
    if a.len() == 0 {
        assert(a + b == b);
        assert(lines_of(a) + lines_of(b) == lines_of(b));
    } else {
        assert(a[a.len() - 1] == '\n');
        lemma_first_break(a);
        let at = first_break(a);
        let line = a.take(at);
        let rest = a.skip(at + 1);
        assert(one_line(line)) by {
            if line.contains('\n') {
                let k = line.index_of('\n');
                assert(a[k] != '\n');
            }
        }
        assert(whole_lines(rest)) by {
            if rest.len() > 0 {
                assert(rest.last() == a.last());
            }
        }
        lemma_lines_add(rest, b);
        assert(a == line + seq!['\n'] + rest);
        assert(a + b == line + seq!['\n'] + (rest + b));
        lemma_first_line(line, rest);
        lemma_first_line(line, rest + b);
        assert(lines_of(a + b) == lines_of(a) + lines_of(b));
    }
}

/// The lines of a text that starts with whole lines.
proof fn lemma_line(line: Seq<char>)
    requires
        one_line(line),
    ensures
        lines_of(line + seq!['\n']) == seq![line],
{
    lemma_first_line(line, Seq::empty());
    assert(line + seq!['\n'] + Seq::<char>::empty() == line + seq!['\n']);
    assert(seq![line] + Seq::<Seq<char>>::empty() == seq![line]);
}

pub proof fn lemma_one_line_add(a: Seq<char>, b: Seq<char>)
    requires
        one_line(a),
        one_line(b),
    ensures
        one_line(a + b),
{
    if (a + b).contains('\n') {
        let k = (a + b).index_of('\n');
        if k < a.len() {
            assert(a[k] == '\n');
        } else {
            assert(b[k - a.len()] == '\n');
        }
    }
}

/// A given line, indented by `indent`.
pub open spec fn indented(indent: Seq<char>, lines: Seq<Seq<char>>) -> Seq<Seq<char>> {
    Seq::new(lines.len(), |i: int| indent + lines[i])
}

/// Whether each text is part of one line.
pub open spec fn all_one_line(lines: Seq<Seq<char>>) -> bool {
    forall|i: int| 0 <= i < lines.len() ==> one_line(#[trigger] lines[i])
}

proof fn lemma_block_lines(lines: Seq<Seq<char>>)
    requires
        all_one_line(lines),
    ensures
        whole_lines(block_lines(lines)),
        lines_of(block_lines(lines)) == indented("  "@, lines),
    decreases lines.len(),
{
    reveal_strlit("  ");
    reveal_strlit("\n");
    if lines.len() == 0 {
        assert(indented("  "@, lines) == Seq::<Seq<char>>::empty());
    } else {
        let rest = lines.drop_last();
        assert forall|i: int| 0 <= i < rest.len() implies one_line(#[trigger] rest[i]) by {
            assert(one_line(lines[i]));
        }
        lemma_block_lines(rest);
        assert(one_line(lines[lines.len() - 1]));
        let last = "  "@ + lines.last();
        lemma_one_line_add("  "@, lines.last());
        lemma_line(last);
        assert(block_lines(lines) == block_lines(rest) + (last + seq!['\n']));
        lemma_lines_add(block_lines(rest), last + seq!['\n']);
        assert(indented("  "@, lines) == indented("  "@, rest) + seq![last]);
    }
}

/// Law: the lines of a rule are its selector with an opening brace, each given declaration in the
/// given order, indented, a closing brace and an empty line.
pub proof fn law_block_lines(selector: Seq<char>, lines: Seq<Seq<char>>)
    requires
        one_line(selector),
        all_one_line(lines),
    ensures
        whole_lines(block_css(selector, lines)),
        lines_of(block_css(selector, lines)) == seq![selector + " {"@] + indented("  "@, lines)
            + seq!["}"@, Seq::empty()],
{
    reveal_strlit(" {\n");
    reveal_strlit(" {");
    reveal_strlit("}\n\n");
    reveal_strlit("}");
    let head = selector + " {"@;
    lemma_one_line_add(selector, " {"@);
    lemma_block_lines(lines);
    let inner = block_lines(lines);
    let first = head + seq!['\n'];
    let close = "}"@ + seq!['\n'];
    let blank = Seq::<char>::empty() + seq!['\n'];
    let text = block_css(selector, lines);
    assert(text == first + (inner + (close + blank)));
    lemma_line(head);
    lemma_line("}"@);
    lemma_line(Seq::<char>::empty());
    lemma_lines_add(close, blank);
    lemma_lines_add(inner, close + blank);
    lemma_lines_add(first, inner + (close + blank));
    assert(lines_of(text) == seq![head] + indented("  "@, lines) + seq!["}"@, Seq::empty()]);
    assert(text.last() == '\n');
}

proof fn lemma_keyframe_lines(lines: Seq<Seq<char>>)
    requires
        all_one_line(lines),
    ensures
        lines_of(keyframe_lines(lines) + seq!['\n']) == (if lines.len() == 0 {
            seq![Seq::<char>::empty()]
        } else {
            indented("    "@, lines)
        }),
    decreases lines.len(),
{
    reveal_strlit("    ");
    reveal_strlit("\n");
    if lines.len() == 0 {
        lemma_line(Seq::<char>::empty());
        assert(keyframe_lines(lines) + seq!['\n'] == Seq::<char>::empty() + seq!['\n']);
    } else {
        let rest = lines.drop_last();
        assert forall|i: int| 0 <= i < rest.len() implies one_line(#[trigger] rest[i]) by {
            assert(one_line(lines[i]));
        }
        assert(one_line(lines[lines.len() - 1]));
        let last = "    "@ + lines.last();
        lemma_one_line_add("    "@, lines.last());
        lemma_line(last);
        if lines.len() == 1 {
            assert(indented("    "@, lines) == seq![last]);
        } else {
            lemma_keyframe_lines(rest);
            let before = keyframe_lines(rest) + seq!['\n'];
            assert(keyframe_lines(lines) + seq!['\n'] == before + (last + seq!['\n']));
            lemma_lines_add(before, last + seq!['\n']);
            assert(indented("    "@, lines) == indented("    "@, rest) + seq![last]);
        }
    }
}

/// Law: the lines of an animation are its name, the one keyframe that it holds throughout, in which
/// each given declaration stands on a line of its own, in the given order, the closing braces and
/// an empty line. Without declarations one empty line stands for them.
pub proof fn law_keyframes_lines(name: Seq<char>, lines: Seq<Seq<char>>)
    requires
        one_line(name),
        all_one_line(lines),
    ensures
        whole_lines(keyframes_css(name, lines)),
        lines_of(keyframes_css(name, lines)) == seq!["@keyframes "@ + name + " {"@, "  0%, 100% {"@]
            + (if lines.len() == 0 {
            seq![Seq::<char>::empty()]
        } else {
            indented("    "@, lines)
        }) + seq!["  }"@, "}"@, Seq::empty()],
{
    reveal_strlit("@keyframes ");
    reveal_strlit(" {");
    reveal_strlit("  0%, 100% {");
    reveal_strlit(" {\n  0%, 100% {\n");
    reveal_strlit("\n  }\n}\n\n");
    reveal_strlit("  }");
    reveal_strlit("}");
    let head = "@keyframes "@ + name + " {"@;
    lemma_one_line_add("@keyframes "@, name);
    lemma_one_line_add("@keyframes "@ + name, " {"@);
    lemma_keyframe_lines(lines);
    let text = keyframes_css(name, lines);
    let a = head + seq!['\n'];
    let b = "  0%, 100% {"@ + seq!['\n'];
    let inner = keyframe_lines(lines) + seq!['\n'];
    let c = "  }"@ + seq!['\n'];
    let d = "}"@ + seq!['\n'];
    let e = Seq::<char>::empty() + seq!['\n'];
    assert(text == a + (b + (inner + (c + (d + e)))));
    lemma_line(head);
    lemma_line("  0%, 100% {"@);
    lemma_line("  }"@);
    lemma_line("}"@);
    lemma_line(Seq::<char>::empty());
    lemma_lines_add(d, e);
    lemma_lines_add(c, d + e);
    lemma_lines_add(inner, c + (d + e));
    lemma_lines_add(b, inner + (c + (d + e)));
    lemma_lines_add(a, b + (inner + (c + (d + e))));
    let middle = lines_of(inner);
    assert(lines_of(text) == seq![head, "  0%, 100% {"@] + middle + seq![
        "  }"@,
        "}"@,
        Seq::empty(),
    ]);
    assert(text.last() == '\n');
}

/// The lines of a registration.
pub open spec fn property_lines(var: Seq<char>) -> Seq<Seq<char>> {
    seq![
        "@property "@ + var + " {"@,
        "  syntax: \"<integer>\";"@,
        "  inherits: true;"@,
        "  initial-value: 0;"@,
        "}"@,
        Seq::empty(),
    ]
}

pub proof fn lemma_property_lines(var: Seq<char>)
    requires
        one_line(var),
    ensures
        whole_lines(property_css(var)),
        lines_of(property_css(var)) == property_lines(var),
{
    reveal_strlit("@property ");
    reveal_strlit(" {");
    reveal_strlit("  syntax: \"<integer>\";");
    reveal_strlit("  inherits: true;");
    reveal_strlit("  initial-value: 0;");
    reveal_strlit("}");
    reveal_strlit(
        " {\n  syntax: \"<integer>\";\n  inherits: true;\n  initial-value: 0;\n}\n\n",
    );
    let head = "@property "@ + var + " {"@;
    lemma_one_line_add("@property "@, var);
    lemma_one_line_add("@property "@ + var, " {"@);
    let a = head + seq!['\n'];
    let b = "  syntax: \"<integer>\";"@ + seq!['\n'];
    let c = "  inherits: true;"@ + seq!['\n'];
    let d = "  initial-value: 0;"@ + seq!['\n'];
    let e = "}"@ + seq!['\n'];
    let f = Seq::<char>::empty() + seq!['\n'];
    assert(property_css(var) == a + (b + (c + (d + (e + f)))));
    lemma_line(head);
    lemma_line("  syntax: \"<integer>\";"@);
    lemma_line("  inherits: true;"@);
    lemma_line("  initial-value: 0;"@);
    lemma_line("}"@);
    lemma_line(Seq::<char>::empty());
    lemma_lines_add(e, f);
    lemma_lines_add(d, e + f);
    lemma_lines_add(c, d + (e + f));
    lemma_lines_add(b, c + (d + (e + f)));
    lemma_lines_add(a, b + (c + (d + (e + f))));
    assert(lines_of(property_css(var)) == property_lines(var));
    assert(property_css(var).last() == '\n');
}

/// Law: the lines of the registrations of custom properties are, for each of them in the given
/// order, the six lines of its registration as an inherited integer that starts at 0.
pub proof fn law_properties_lines(vars: Seq<Seq<char>>)
    requires
        all_one_line(vars),
    ensures
        whole_lines(properties_css(vars)),
        lines_of(properties_css(vars)) == Seq::new(
            6 * vars.len(),
            |k: int| property_lines(vars[k / 6])[k % 6],
        ),
    decreases vars.len(),
{
    let all = Seq::new(6 * vars.len(), |k: int| property_lines(vars[k / 6])[k % 6]);
    if vars.len() == 0 {
        assert(lines_of(properties_css(vars)) == all);
    } else {
        let rest = vars.drop_last();
        assert forall|i: int| 0 <= i < rest.len() implies one_line(#[trigger] rest[i]) by {
            assert(one_line(vars[i]));
        }
        law_properties_lines(rest);
        assert(one_line(vars[vars.len() - 1]));
        lemma_property_lines(vars.last());
        lemma_lines_add(properties_css(rest), property_css(vars.last()));
        let before = Seq::new(6 * rest.len(), |k: int| property_lines(rest[k / 6])[k % 6]);
        let last = property_lines(vars.last());
        assert forall|k: int| 0 <= k < all.len() implies all[k] == (before + last)[k] by {
            if k < before.len() {
                assert(rest[k / 6] == vars[k / 6]);
            } else {
                assert(k / 6 == vars.len() - 1);
                assert(k % 6 == k - before.len());
            }
        }
        assert(all == before + last);
        assert(properties_css(vars).last() == property_css(vars.last()).last());
    }
}

/// The lines of the declaration of a comparison's function.
pub open spec fn function_lines(f: CompFn) -> Seq<Seq<char>> {
    seq![
        "@function "@ + comp_name(f) + "(--a <number>, --b <number>) returns <integer> {"@,
        "  result: "@ + comp_body(f) + ";"@,
        "}"@,
        Seq::empty(),
    ]
}

proof fn lemma_comp_texts_one_line(f: CompFn)
    ensures
        one_line(comp_name(f)),
        one_line(comp_body(f)),
{
    match f {
        CompFn::Lt => {
            reveal_strlit("--veryl-lt");
            reveal_strlit("clamp(0, sign(calc(var(--b) - var(--a))), 1)");
        },
        CompFn::Lte => {
            reveal_strlit("--veryl-lte");
            reveal_strlit("clamp(0, calc(1 + sign(calc(var(--b) - var(--a)))), 1)");
        },
        CompFn::Gt => {
            reveal_strlit("--veryl-gt");
            reveal_strlit("clamp(0, sign(calc(var(--a) - var(--b))), 1)");
        },
        CompFn::Gte => {
            reveal_strlit("--veryl-gte");
            reveal_strlit("clamp(0, calc(1 + sign(calc(var(--a) - var(--b)))), 1)");
        },
        CompFn::Eq => {
            reveal_strlit("--veryl-eq");
            reveal_strlit("clamp(0, calc(1 - abs(sign(calc(var(--a) - var(--b))))), 1)");
        },
        CompFn::Neq => {
            reveal_strlit("--veryl-neq");
            reveal_strlit("abs(sign(calc(var(--a) - var(--b))))");
        },
    }
}

proof fn lemma_function_lines(f: CompFn)
    ensures
        whole_lines(comp_function_css(f)),
        comp_function_css(f).len() > 0,
        lines_of(comp_function_css(f)) == function_lines(f),
{
    reveal_strlit("@function ");
    reveal_strlit("(--a <number>, --b <number>) returns <integer> {");
    reveal_strlit("(--a <number>, --b <number>) returns <integer> {\n  result: ");
    reveal_strlit("  result: ");
    reveal_strlit(";");
    reveal_strlit(";\n}\n\n");
    reveal_strlit("}");
    lemma_comp_texts_one_line(f);
    let name = "@function "@ + comp_name(f);
    let head = name + "(--a <number>, --b <number>) returns <integer> {"@;
    let result = "  result: "@ + comp_body(f);
    let body = result + ";"@;
    lemma_one_line_add("@function "@, comp_name(f));
    lemma_one_line_add(name, "(--a <number>, --b <number>) returns <integer> {"@);
    lemma_one_line_add("  result: "@, comp_body(f));
    lemma_one_line_add(result, ";"@);
    let a = head + seq!['\n'];
    let b = body + seq!['\n'];
    let c = "}"@ + seq!['\n'];
    let d = Seq::<char>::empty() + seq!['\n'];
    assert(comp_function_css(f) == a + (b + (c + d)));
    lemma_line(head);
    lemma_line(body);
    lemma_line("}"@);
    lemma_line(Seq::<char>::empty());
    lemma_lines_add(c, d);
    lemma_lines_add(b, c + d);
    lemma_lines_add(a, b + (c + d));
    assert(lines_of(comp_function_css(f)) == function_lines(f));
    assert(comp_function_css(f).last() == '\n');
}

/// The lines of the declaration of a comparison's function where it is used, else none.
pub open spec fn function_lines_if(used: Set<CompFn>, f: CompFn) -> Seq<Seq<char>> {
    if used.contains(f) {
        function_lines(f)
    } else {
        Seq::empty()
    }
}

/// Law: the functions of the comparisons that are used are declared, each in four lines and
/// whatever other comparisons are used, in a fixed order.
pub proof fn law_functions_lines(used: Set<CompFn>)
    ensures
        whole_lines(comp_functions_css(used)),
        lines_of(comp_functions_css(used)) == function_lines_if(used, CompFn::Lt)
            + function_lines_if(used, CompFn::Lte) + function_lines_if(used, CompFn::Gt)
            + function_lines_if(used, CompFn::Gte) + function_lines_if(used, CompFn::Eq)
            + function_lines_if(used, CompFn::Neq),
{
    let order = comp_order();
    assert(order.take(0) == Seq::<CompFn>::empty());
    assert(order.take(6) == order);
    lemma_functions_step(used, 0);
    lemma_functions_step(used, 1);
    lemma_functions_step(used, 2);
    lemma_functions_step(used, 3);
    lemma_functions_step(used, 4);
    lemma_functions_step(used, 5);
}

pub proof fn lemma_functions_step(used: Set<CompFn>, k: int)
    requires
        0 <= k < 6,
    ensures
        whole_lines(used_functions_css(used, comp_order().take(k))) ==> whole_lines(
            used_functions_css(used, comp_order().take(k + 1)),
        ) && lines_of(used_functions_css(used, comp_order().take(k + 1))) == lines_of(
            used_functions_css(used, comp_order().take(k)),
        ) + function_lines_if(used, comp_order()[k]),
{
    let before = used_functions_css(used, comp_order().take(k));
    let f = comp_order()[k];
    assert(comp_order().take(k + 1).drop_last() == comp_order().take(k));
    assert(comp_order().take(k + 1).last() == f);
    lemma_function_lines(f);
    if whole_lines(before) {
        if used.contains(f) {
            let text = comp_function_css(f);
            lemma_lines_add(before, text);
            assert((before + text).last() == text.last());
        } else {
            assert(lines_of(before) + Seq::<Seq<char>>::empty() == lines_of(before));
        }
    }
}

/// Law: the functions that are declared for several comparisons are those that are declared for
/// each of them alone, and no text is written for none.
pub proof fn law_functions_apart(used: Set<CompFn>, f: CompFn)
    ensures
        comp_functions_css(used) == comp_functions_css(used.intersect(set![CompFn::Lt]))
            + comp_functions_css(used.intersect(set![CompFn::Lte])) + comp_functions_css(
            used.intersect(set![CompFn::Gt]),
        ) + comp_functions_css(used.intersect(set![CompFn::Gte])) + comp_functions_css(
            used.intersect(set![CompFn::Eq]),
        ) + comp_functions_css(used.intersect(set![CompFn::Neq])),
        comp_functions_css(Set::empty()) == Seq::<char>::empty(),
        comp_functions_css(set![f]).len() > 0,
{
    lemma_functions_unfold(used);
    lemma_functions_unfold(used.intersect(set![CompFn::Lt]));
    lemma_functions_unfold(used.intersect(set![CompFn::Lte]));
    lemma_functions_unfold(used.intersect(set![CompFn::Gt]));
    lemma_functions_unfold(used.intersect(set![CompFn::Gte]));
    lemma_functions_unfold(used.intersect(set![CompFn::Eq]));
    lemma_functions_unfold(used.intersect(set![CompFn::Neq]));
    lemma_functions_unfold(Set::empty());
    lemma_functions_unfold(set![f]);
    lemma_function_lines(f);
    assert(comp_functions_css(set![f]) == comp_function_css(f));
}

spec fn function_if(used: Set<CompFn>, f: CompFn) -> Seq<char> {
    if used.contains(f) {
        comp_function_css(f)
    } else {
        Seq::empty()
    }
}

proof fn lemma_functions_unfold(used: Set<CompFn>)
    ensures
        comp_functions_css(used) == function_if(used, CompFn::Lt) + function_if(used, CompFn::Lte)
            + function_if(used, CompFn::Gt) + function_if(used, CompFn::Gte) + function_if(
            used,
            CompFn::Eq,
        ) + function_if(used, CompFn::Neq),
{
    let order = comp_order();
    assert(order.take(6) == order);
    assert(order.take(0) == Seq::<CompFn>::empty());
    lemma_function_added(used, 0);
    lemma_function_added(used, 1);
    lemma_function_added(used, 2);
    lemma_function_added(used, 3);
    lemma_function_added(used, 4);
    lemma_function_added(used, 5);
    assert(Seq::<char>::empty() + function_if(used, CompFn::Lt) == function_if(used, CompFn::Lt));
}

proof fn lemma_function_added(used: Set<CompFn>, k: int)
    requires
        0 <= k < 6,
    ensures
        used_functions_css(used, comp_order().take(k + 1)) == used_functions_css(
            used,
            comp_order().take(k),
        ) + function_if(used, comp_order()[k]),
{
    let before = used_functions_css(used, comp_order().take(k));
    assert(comp_order().take(k + 1).drop_last() == comp_order().take(k));
    assert(comp_order().take(k + 1).last() == comp_order()[k]);
    assert(before + Seq::<char>::empty() == before);
}

/// The texts of declarations.
pub open spec fn written_lines(lines: Seq<CssLine>) -> Seq<Seq<char>> {
    Seq::new(lines.len(), |i: int| lines[i].text())
}

/// Law: the lines of a style sheet are a comment and an empty line, the lines of the functions that
/// are used, of the registered custom properties, of the rule that computes, and of the two
/// animations where the module has states. The rule and the animations hold all their
/// declarations, in order.
pub proof fn law_sheet_lines(sheet: Sheet)
    requires
        all_one_line(sheet.properties),
        all_one_line(written_lines(sheet.body)),
        all_one_line(written_lines(sheet.hoist)),
        all_one_line(written_lines(sheet.capture)),
    ensures
        lines_of(sheet.text()) == seq!["/* generated by veryl-css */"@, Seq::empty()] + lines_of(
            comp_functions_css(sheet.functions),
        ) + lines_of(properties_css(sheet.properties)) + (if sheet.has_ff {
            lines_of(block_css("body"@, written_lines(sheet.body))) + lines_of(
                keyframes_css("hoist"@, written_lines(sheet.hoist)),
            ) + lines_of(keyframes_css("capture"@, written_lines(sheet.capture)))
        } else {
            lines_of(block_css(":root"@, written_lines(sheet.body)))
        }),
{
    reveal_strlit("/* generated by veryl-css */");
    reveal_strlit("/* generated by veryl-css */\n\n");
    reveal_strlit("body");
    reveal_strlit(":root");
    reveal_strlit("hoist");
    reveal_strlit("capture");
    let body = written_lines(sheet.body);
    let hoist = written_lines(sheet.hoist);
    let capture = written_lines(sheet.capture);
    assert(body == line_texts(sheet.body));
    assert(hoist == line_texts(sheet.hoist));
    assert(capture == line_texts(sheet.capture));
    let a = "/* generated by veryl-css */"@ + seq!['\n'];
    let b = Seq::<char>::empty() + seq!['\n'];
    let top = a + b;
    assert(top == "/* generated by veryl-css */\n\n"@);
    lemma_line("/* generated by veryl-css */"@);
    lemma_line(Seq::<char>::empty());
    lemma_lines_add(a, b);
    let functions = comp_functions_css(sheet.functions);
    let properties = properties_css(sheet.properties);
    law_functions_lines(sheet.functions);
    law_properties_lines(sheet.properties);
    let head = top + functions;
    lemma_lines_add(top, functions);
    assert(whole_lines(head)) by {
        if functions.len() > 0 {
            assert(head.last() == functions.last());
        } else {
            assert(head == top);
        }
    }
    let front = head + properties;
    lemma_lines_add(head, properties);
    assert(whole_lines(front)) by {
        if properties.len() > 0 {
            assert(front.last() == properties.last());
        } else {
            assert(front == head);
        }
    }
    if sheet.has_ff {
        let x = block_css("body"@, body);
        let y = keyframes_css("hoist"@, hoist);
        let z = keyframes_css("capture"@, capture);
        law_block_lines("body"@, body);
        law_keyframes_lines("hoist"@, hoist);
        law_keyframes_lines("capture"@, capture);
        assert(sheet.text() == front + (x + (y + z)));
        lemma_lines_add(y, z);
        lemma_lines_add(x, y + z);
        lemma_lines_add(front, x + (y + z));
    } else {
        law_block_lines(":root"@, body);
        lemma_lines_add(front, block_css(":root"@, body));
    }
}

/// Law: declarations are written one by one, all of them, in their order.
pub proof fn law_line_texts(lines: Seq<CssLine>)
    ensures
        line_texts(lines) == written_lines(lines),
{
}

/// Law: the comparisons that conditions make are those of each of them.
pub proof fn law_comparisons_made(conds: Seq<CssCond>, f: CompFn)
    ensures
        comp_fns(conds).contains(f) <==> exists|i: int|
            0 <= i < conds.len() && (#[trigger] conds[i]).f == f,
{
    let fns = conds.map_values(|cond: CssCond| cond.f);
    if fns.contains(f) {
        let i = fns.index_of(f);
        assert(conds[i].f == f);
    }
    if exists|i: int| 0 <= i < conds.len() && (#[trigger] conds[i]).f == f {
        let i = choose|i: int| 0 <= i < conds.len() && (#[trigger] conds[i]).f == f;
        assert(fns[i] == f);
    }
}

} // verus!
