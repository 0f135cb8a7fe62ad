//! The parts of a style sheet, found again in its lines.

use vstd::prelude::*;

use crate::css::{
    block_css, comp_body, comp_functions_css, comp_name, comp_order, keyframes_css, property_css,
    used_functions_css, CompFn,
};
use crate::lines::{
    all_one_line, function_lines, function_lines_if, indented, law_block_lines, law_keyframes_lines,
    law_properties_lines, law_sheet_lines, lemma_functions_step, lemma_lines_add,
    lemma_property_lines, lines_of, one_line, property_lines, whole_lines, written_lines,
};
use crate::module::{properties_css, Sheet};

verus! {

/// A line without the spaces that it starts with.
pub open spec fn trimmed(line: Seq<char>) -> Seq<char>
    decreases line.len(),
{
    if line.len() > 0 && line.first() == ' ' {
        trimmed(line.drop_first())
    } else {
        line
    }
}

/// The lines behind the first one that is the given one.
pub open spec fn after(lines: Seq<Seq<char>>, head: Seq<char>) -> Seq<Seq<char>>
    decreases lines.len(),
{
    if lines.len() == 0 {
        Seq::empty()
    } else if lines.first() == head {
        lines.drop_first()
    } else {
        after(lines.drop_first(), head)
    }
}

/// The lines in front of the first one that is the given one.
pub open spec fn before(lines: Seq<Seq<char>>, end: Seq<char>) -> Seq<Seq<char>>
    decreases lines.len(),
{
    if lines.len() == 0 || lines.first() == end {
        Seq::empty()
    } else {
        seq![lines.first()] + before(lines.drop_first(), end)
    }
}

/// Lines without indentation, and without those that are empty then.
pub open spec fn unindented(lines: Seq<Seq<char>>) -> Seq<Seq<char>>
    decreases lines.len(),
{
    if lines.len() == 0 {
        Seq::empty()
    } else {
        let rest = unindented(lines.drop_last());
        if trimmed(lines.last()).len() == 0 {
            rest
        } else {
            rest.push(trimmed(lines.last()))
        }
    }
}

/// The declarations of the first rule with the given selector.
pub open spec fn rule(lines: Seq<Seq<char>>, selector: Seq<char>) -> Seq<Seq<char>> {
    unindented(before(after(lines, selector + " {"@), "}"@))
}

/// The declarations that the first animation of the given name holds throughout.
pub open spec fn keyframe(lines: Seq<Seq<char>>, name: Seq<char>) -> Seq<Seq<char>> {
    let inner = after(lines, "@keyframes "@ + name + " {"@);
    if inner.len() > 0 && inner.first() == "  0%, 100% {"@ {
        unindented(before(inner.drop_first(), "  }"@))
    } else {
        Seq::empty()
    }
}

/// Whether a line is neither empty nor indented.
pub open spec fn flush(line: Seq<char>) -> bool {
    line.len() > 0 && line.first() != ' '
}

proof fn lemma_trimmed(indent: Seq<char>, line: Seq<char>)
    requires
        forall|i: int| 0 <= i < indent.len() ==> #[trigger] indent[i] == ' ',
        flush(line),
    ensures
        trimmed(indent + line) == line,
    decreases indent.len(),
{
    let s = indent + line;
    if indent.len() == 0 {
        assert(s == line);
    } else {
        assert(s.first() == indent[0]);
        let rest = indent.drop_first();
        assert(s.drop_first() == rest + line);
        assert forall|i: int| 0 <= i < rest.len() implies #[trigger] rest[i] == ' ' by {
            assert(indent[i + 1] == ' ');
        }
        lemma_trimmed(rest, line);
    }
}

/// Indented lines are found again without their indentation.
pub proof fn lemma_unindented(indent: Seq<char>, lines: Seq<Seq<char>>)
    requires
        forall|i: int| 0 <= i < indent.len() ==> #[trigger] indent[i] == ' ',
        forall|i: int| 0 <= i < lines.len() ==> flush(#[trigger] lines[i]),
    ensures
        unindented(indented(indent, lines)) == lines,
    decreases lines.len(),
{
    let all = indented(indent, lines);
    if lines.len() > 0 {
        let rest = lines.drop_last();
        assert forall|i: int| 0 <= i < rest.len() implies flush(#[trigger] rest[i]) by {
            assert(flush(lines[i]));
        }
        lemma_unindented(indent, rest);
        assert(all.drop_last() == indented(indent, rest));
        let last = lines[lines.len() - 1];
        assert(flush(last));
        lemma_trimmed(indent, last);
        assert(all.last() == indent + last);
        assert(rest.push(last) == lines);
    }
}

/// Where the first line of a part is found in joined lines.
pub proof fn lemma_after_add(a: Seq<Seq<char>>, b: Seq<Seq<char>>, head: Seq<char>)
    ensures
        a.contains(head) ==> after(a + b, head) == after(a, head) + b,
        !a.contains(head) ==> after(a + b, head) == after(b, head),
    decreases a.len(),
{
    if a.len() == 0 {
        assert(a + b == b);
    } else {
        let rest = a.drop_first();
        assert((a + b).first() == a[0]);
        assert((a + b).drop_first() == rest + b);
        lemma_after_add(rest, b, head);
        if a.first() == head {
            assert(a.contains(a[0]));
        } else {
            if a.contains(head) {
                let i = a.index_of(head);
                assert(rest[i - 1] == head);
            }
            if rest.contains(head) {
                let i = rest.index_of(head);
                assert(a[i + 1] == head);
            }
        }
    }
}

/// Where the last line of a part is found in joined lines.
pub proof fn lemma_before_add(a: Seq<Seq<char>>, b: Seq<Seq<char>>, end: Seq<char>)
    ensures
        a.contains(end) ==> before(a + b, end) == before(a, end),
        !a.contains(end) ==> before(a + b, end) == a + before(b, end),
    decreases a.len(),
{
    if a.len() == 0 {
        assert(a + b == b);
        assert(a + before(b, end) == before(b, end));
    } else {
        let rest = a.drop_first();
        assert((a + b).first() == a[0]);
        assert((a + b).drop_first() == rest + b);
        lemma_before_add(rest, b, end);
        if a.first() == end {
            assert(a.contains(a[0]));
        } else {
            if a.contains(end) {
                let i = a.index_of(end);
                assert(rest[i - 1] == end);
            } else {
                if rest.contains(end) {
                    let i = rest.index_of(end);
                    assert(a[i + 1] == end);
                }
                assert(seq![a.first()] + (rest + before(b, end)) == a + before(b, end));
            }
        }
    }
}

/// Whether a rule that starts in lines ends in them.
pub open spec fn complete(lines: Seq<Seq<char>>, head: Seq<char>) -> bool {
    lines.contains(head) ==> after(lines, head).contains("}"@)
}

/// A rule of joined lines stands in the first or in the second of them.
pub proof fn lemma_rule_add(a: Seq<Seq<char>>, b: Seq<Seq<char>>, selector: Seq<char>)
    requires
        complete(a, selector + " {"@),
    ensures
        a.contains(selector + " {"@) ==> rule(a + b, selector) == rule(a, selector),
        !a.contains(selector + " {"@) ==> rule(a + b, selector) == rule(b, selector),
        (a + b).contains(selector + " {"@) <==> a.contains(selector + " {"@) || b.contains(
            selector + " {"@,
        ),
        complete(b, selector + " {"@) ==> complete(a + b, selector + " {"@),
{
    let head = selector + " {"@;
    lemma_after_add(a, b, head);
    lemma_contains_add(a, b, head);
    if a.contains(head) {
        lemma_before_add(after(a, head), b, "}"@);
        lemma_contains_add(after(a, head), b, "}"@);
    }
}

pub proof fn lemma_contains_add(a: Seq<Seq<char>>, b: Seq<Seq<char>>, x: Seq<char>)
    ensures
        (a + b).contains(x) <==> a.contains(x) || b.contains(x),
{
    if a.contains(x) {
        assert((a + b)[a.index_of(x)] == x);
    }
    if b.contains(x) {
        assert((a + b)[a.len() + b.index_of(x)] == x);
    }
    if (a + b).contains(x) {
        let i = (a + b).index_of(x);
        if i < a.len() {
            assert(a[i] == x);
        } else {
            assert(b[i - a.len()] == x);
        }
    }
}

/// What a text starts with, as far as it decides which part of a style sheet it starts.
pub open spec fn mark(line: Seq<char>) -> (char, char) {
    if line.len() < 2 {
        ('\n', '\n')
    } else {
        (line[0], line[1])
    }
}

/// Whether every line that starts a part starts like the given one.
pub open spec fn marked(lines: Seq<Seq<char>>, m: (char, char)) -> bool {
    forall|i: int|
        0 <= i < lines.len() ==> mark(#[trigger] lines[i]) == m || mark(lines[i]).0 == ' ' || mark(
            lines[i],
        ) == ('\n', '\n')
}

proof fn lemma_marked(lines: Seq<Seq<char>>, m: (char, char), head: Seq<char>)
    requires
        marked(lines, m),
        mark(head) != m,
        mark(head).0 != ' ',
        mark(head) != ('\n', '\n'),
    ensures
        !lines.contains(head),
{
    if lines.contains(head) {
        assert(lines[lines.index_of(head)] == head);
    }
}

proof fn lemma_marked_add(a: Seq<Seq<char>>, b: Seq<Seq<char>>, m: (char, char))
    requires
        marked(a, m),
        marked(b, m),
    ensures
        marked(a + b, m),
{
    let c = a + b;
    assert forall|i: int| 0 <= i < c.len() implies mark(#[trigger] c[i]) == m || mark(c[i]).0 == ' '
        || mark(c[i]) == ('\n', '\n') by {
        if i < a.len() {
            assert(c[i] == a[i]);
        } else {
            assert(c[i] == b[i - a.len()]);
        }
    }
}

/// What the function of the given name is declared behind.
pub open spec fn function_selector(name: Seq<char>) -> Seq<char> {
    "@function "@ + name + "(--a <number>, --b <number>) returns <integer>"@
}

/// Different comparisons have different functions.
pub proof fn lemma_comp_names_differ(f: CompFn, g: CompFn)
    requires
        comp_name(f) == comp_name(g),
    ensures
        f == g,
{
    reveal_strlit("--veryl-lt");
    reveal_strlit("--veryl-lte");
    reveal_strlit("--veryl-gt");
    reveal_strlit("--veryl-gte");
    reveal_strlit("--veryl-eq");
    reveal_strlit("--veryl-neq");
    let a = comp_name(f);
    let b = comp_name(g);
    assert(a.len() == b.len() && a[8] == b[8]);
}

proof fn lemma_function_heads(f: CompFn, g: CompFn)
    ensures
        function_lines(g)[0] == function_selector(comp_name(g)) + " {"@,
        function_lines(g)[0] == function_selector(comp_name(f)) + " {"@ ==> f == g,
        mark(function_selector(comp_name(f)) + " {"@) == ('@', 'f'),
{
    reveal_strlit("@function ");
    reveal_strlit("(--a <number>, --b <number>) returns <integer>");
    reveal_strlit("(--a <number>, --b <number>) returns <integer> {");
    reveal_strlit(" {");
    let a = function_selector(comp_name(f)) + " {"@;
    let b = function_lines(g)[0];
    let tail = "(--a <number>, --b <number>) returns <integer> {"@;
    assert(b == function_selector(comp_name(g)) + " {"@);
    assert(a == "@function "@ + comp_name(f) + tail);
    assert(b == "@function "@ + comp_name(g) + tail);
    if a == b {
        let k = comp_name(f).len() as int;
        assert(a.subrange(10, 10 + k) == comp_name(f));
        assert(b.subrange(10, 10 + k) == comp_name(g));
        lemma_comp_names_differ(f, g);
    }
}

proof fn lemma_function_rule(used: Set<CompFn>, f: CompFn, g: CompFn)
    ensures
        ({
            let lines = function_lines_if(used, g);
            let head = function_selector(comp_name(f)) + " {"@;
            &&& marked(lines, ('@', 'f'))
            &&& lines.contains(head) <==> used.contains(f) && f == g
            &&& complete(lines, head)
            &&& used.contains(f) && f == g ==> rule(lines, function_selector(comp_name(f)))
                == seq!["result: "@ + comp_body(f) + ";"@]
        }),
{
    lemma_function_heads(f, g);
    lemma_function_heads(g, g);
    let lines = function_lines_if(used, g);
    let head = function_selector(comp_name(f)) + " {"@;
    reveal_strlit("  result: ");
    reveal_strlit("result: ");
    reveal_strlit("}");
    reveal_strlit(";");
    reveal_strlit("  ");
    if used.contains(g) {
        let body = "result: "@ + comp_body(g) + ";"@;
        assert(lines[1] == "  "@ + body);
        assert(mark(lines[1]).0 == ' ');
        assert(marked(lines, ('@', 'f')));
        assert(lines[1] != "}"@) by {
            assert(lines[1][0] == ' ');
        }
        if lines.contains(head) {
            let i = lines.index_of(head);
            assert(mark(lines[i]) == ('@', 'f'));
            assert(mark(lines[1]).0 == ' ');
            assert(i == 0);
        }
        if f == g {
            assert(lines[0] == head);
            assert(lines.contains(lines[0]));
            let rest = lines.drop_first();
            assert(after(lines, head) == rest);
            assert(rest[1] == "}"@);
            assert(rest.contains(rest[1]));
            let inner = indented("  "@, seq![body]);
            let end = seq!["}"@, Seq::<char>::empty()];
            assert(rest == inner + end);
            assert(!inner.contains("}"@));
            lemma_before_add(inner, end, "}"@);
            assert(before(end, "}"@) == Seq::<Seq<char>>::empty());
            assert(inner + before(end, "}"@) == inner);
            lemma_unindented("  "@, seq![body]);
        }
    }
}

proof fn lemma_function_rules(used: Set<CompFn>, f: CompFn, k: int)
    requires
        0 <= k <= 6,
    ensures
        ({
            let lines = lines_of(used_functions_css(used, comp_order().take(k)));
            let head = function_selector(comp_name(f)) + " {"@;
            &&& whole_lines(used_functions_css(used, comp_order().take(k)))
            &&& marked(lines, ('@', 'f'))
            &&& lines.contains(head) <==> used.contains(f) && comp_order().take(k).contains(f)
            &&& complete(lines, head)
            &&& lines.contains(head) ==> rule(lines, function_selector(comp_name(f)))
                == seq!["result: "@ + comp_body(f) + ";"@]
        }),
    decreases k,
{
    let order = comp_order().take(k);
    if k == 0 {
        assert(order == Seq::<CompFn>::empty());
        assert(lines_of(used_functions_css(used, order)) == Seq::<Seq<char>>::empty());
    } else {
        let rest = comp_order().take(k - 1);
        let g = comp_order()[k - 1];
        lemma_function_rules(used, f, k - 1);
        lemma_functions_step(used, k - 1);
        lemma_function_rule(used, f, g);
        lemma_marked_add(
            lines_of(used_functions_css(used, rest)),
            function_lines_if(used, g),
            ('@', 'f'),
        );
        lemma_rule_add(
            lines_of(used_functions_css(used, rest)),
            function_lines_if(used, g),
            function_selector(comp_name(f)),
        );
        assert(order == rest.push(g));
        if order.contains(f) && f != g {
            let i = order.index_of(f);
            assert(rest[i] == f);
        }
        if rest.contains(f) {
            let i = rest.index_of(f);
            assert(order[i] == f);
        }
        assert(order[k - 1] == g);
    }
}

/// Law: among the lines of the functions that are declared, that of a comparison is found if and
/// only if the comparison is used, with its result.
pub proof fn law_functions_found(used: Set<CompFn>, f: CompFn)
    ensures
        ({
            let lines = lines_of(comp_functions_css(used));
            let head = function_selector(comp_name(f)) + " {"@;
            &&& marked(lines, ('@', 'f'))
            &&& lines.contains(head) <==> used.contains(f)
            &&& complete(lines, head)
            &&& used.contains(f) ==> rule(lines, function_selector(comp_name(f)))
                == seq!["result: "@ + comp_body(f) + ";"@]
        }),
{
    lemma_function_rules(used, f, 6);
    assert(comp_order().take(6) == comp_order());
    let i: int = match f {
        CompFn::Lt => 0,
        CompFn::Lte => 1,
        CompFn::Gt => 2,
        CompFn::Gte => 3,
        CompFn::Eq => 4,
        CompFn::Neq => 5,
    };
    assert(comp_order()[i] == f);
}

/// What registers a custom property.
pub open spec fn property_selector(var: Seq<char>) -> Seq<char> {
    "@property "@ + var
}

/// What a registration declares.
pub open spec fn registration() -> Seq<Seq<char>> {
    seq!["syntax: \"<integer>\";"@, "inherits: true;"@, "initial-value: 0;"@]
}

proof fn lemma_property_rule(var: Seq<char>, other: Seq<char>)
    ensures
        ({
            let lines = property_lines(other);
            let head = property_selector(var) + " {"@;
            &&& mark(head) == ('@', 'p')
            &&& marked(lines, ('@', 'p'))
            &&& lines.contains(head) <==> var == other
            &&& complete(lines, head)
            &&& var == other ==> rule(lines, property_selector(var)) == registration()
        }),
{
    reveal_strlit("@property ");
    reveal_strlit(" {");
    reveal_strlit("  syntax: \"<integer>\";");
    reveal_strlit("  inherits: true;");
    reveal_strlit("  initial-value: 0;");
    reveal_strlit("syntax: \"<integer>\";");
    reveal_strlit("inherits: true;");
    reveal_strlit("initial-value: 0;");
    reveal_strlit("}");
    reveal_strlit("  ");
    let lines = property_lines(other);
    let head = property_selector(var) + " {"@;
    let inner = indented("  "@, registration());
    let end = seq!["}"@, Seq::<char>::empty()];
    assert(inner[0] == lines[1]);
    assert(inner[1] == lines[2]);
    assert(inner[2] == lines[3]);
    assert(lines.drop_first() == inner + end);
    assert(mark(lines[0]) == ('@', 'p'));
    assert(marked(lines, ('@', 'p')));
    if lines.contains(head) {
        let i = lines.index_of(head);
        assert(i == 0);
        assert(head == "@property "@ + other + " {"@);
        let k = var.len() as int;
        assert(head.len() == 12 + other.len());
        assert(head.subrange(10, 10 + k) == var);
        assert(("@property "@ + other + " {"@).subrange(10, 10 + k) == other);
    }
    if var == other {
        assert(lines[0] == head);
        assert(lines.contains(lines[0]));
        let rest = lines.drop_first();
        assert(rest[3] == "}"@);
        assert(rest.contains(rest[3]));
        assert(!inner.contains("}"@));
        lemma_before_add(inner, end, "}"@);
        assert(before(end, "}"@) == Seq::<Seq<char>>::empty());
        assert(inner + before(end, "}"@) == inner);
        lemma_unindented("  "@, registration());
    }
}

/// Law: among the lines of registrations, that of a custom property is found if and only if it is
/// registered.
pub proof fn law_properties_found(vars: Seq<Seq<char>>, var: Seq<char>)
    requires
        all_one_line(vars),
    ensures
        ({
            let lines = lines_of(properties_css(vars));
            let head = property_selector(var) + " {"@;
            &&& marked(lines, ('@', 'p'))
            &&& lines.contains(head) <==> vars.contains(var)
            &&& complete(lines, head)
            &&& vars.contains(var) ==> rule(lines, property_selector(var)) == registration()
        }),
    decreases vars.len(),
{
    let lines = lines_of(properties_css(vars));
    if vars.len() == 0 {
        assert(lines == Seq::<Seq<char>>::empty());
    } else {
        let rest = vars.drop_last();
        let last = vars[vars.len() - 1];
        assert forall|i: int| 0 <= i < rest.len() implies one_line(#[trigger] rest[i]) by {
            assert(one_line(vars[i]));
        }
        assert(one_line(last));
        law_properties_found(rest, var);
        law_properties_lines(rest);
        lemma_property_lines(last);
        lemma_property_rule(var, last);
        lemma_lines_add(properties_css(rest), property_css(last));
        let first = lines_of(properties_css(rest));
        lemma_marked_add(first, property_lines(last), ('@', 'p'));
        lemma_rule_add(first, property_lines(last), property_selector(var));
        if vars.contains(var) && var != last {
            let i = vars.index_of(var);
            assert(rest[i] == var);
        }
        if rest.contains(var) {
            let i = rest.index_of(var);
            assert(vars[i] == var);
        }
    }
}

proof fn lemma_block_found(selector: Seq<char>, lines: Seq<Seq<char>>)
    requires
        selector == "body"@ || selector == ":root"@,
        all_one_line(lines),
        forall|i: int| 0 <= i < lines.len() ==> flush(#[trigger] lines[i]),
    ensures
        ({
            let all = lines_of(block_css(selector, lines));
            let head = selector + " {"@;
            &&& mark(head) == mark(selector)
            &&& mark(selector).0 != '@'
            &&& mark(selector).0 != '/'
            &&& mark(selector).0 != ' '
            &&& mark(selector).0 != '\n'
            &&& marked(all, mark(selector))
            &&& all.contains(head)
            &&& complete(all, head)
            &&& rule(all, selector) == lines
        }),
{
    reveal_strlit("body");
    reveal_strlit(":root");
    reveal_strlit(" {");
    reveal_strlit("}");
    reveal_strlit("  ");
    law_block_lines(selector, lines);
    let all = lines_of(block_css(selector, lines));
    let head = selector + " {"@;
    let inner = indented("  "@, lines);
    let end = seq!["}"@, Seq::<char>::empty()];
    assert(all[0] == head);
    assert(all.contains(all[0]));
    let rest = all.drop_first();
    assert(rest == inner + end);
    assert(rest[inner.len() as int] == "}"@);
    assert(rest.contains(rest[inner.len() as int]));
    assert forall|i: int| 0 <= i < inner.len() implies mark(#[trigger] inner[i]).0 == ' ' by {
        assert(flush(lines[i]));
        assert(inner[i] == "  "@ + lines[i]);
        assert(inner[i][0] == ' ');
    }
    if inner.contains("}"@) {
        let i = inner.index_of("}"@);
        assert(mark(inner[i]).0 == ' ');
    }
    assert forall|i: int| 0 <= i < all.len() implies mark(#[trigger] all[i]) == mark(selector)
        || mark(all[i]).0 == ' ' || mark(all[i]) == ('\n', '\n') by {
        if 0 < i <= inner.len() {
            assert(all[i] == inner[i - 1]);
        }
    }
    lemma_before_add(inner, end, "}"@);
    assert(before(end, "}"@) == Seq::<Seq<char>>::empty());
    assert(inner + before(end, "}"@) == inner);
    lemma_unindented("  "@, lines);
}

/// What an animation starts with.
spec fn keyframes_head(name: Seq<char>) -> Seq<char> {
    "@keyframes "@ + name + " {"@
}

proof fn lemma_keyframes_found(name: Seq<char>, lines: Seq<Seq<char>>, post: Seq<Seq<char>>)
    requires
        one_line(name),
        all_one_line(lines),
        forall|i: int| 0 <= i < lines.len() ==> flush(#[trigger] lines[i]),
    ensures
        ({
            let all = lines_of(keyframes_css(name, lines));
            &&& mark(keyframes_head(name)) == ('@', 'k')
            &&& marked(all, ('@', 'k'))
            &&& all.contains(keyframes_head(name))
            &&& forall|other: Seq<char>| #[trigger]
                all.contains(keyframes_head(other)) ==> other == name
            &&& keyframe(all + post, name) == lines
        }),
{
    reveal_strlit("@keyframes ");
    reveal_strlit(" {");
    reveal_strlit("  0%, 100% {");
    reveal_strlit("  }");
    reveal_strlit("}");
    reveal_strlit("    ");
    law_keyframes_lines(name, lines);
    let all = lines_of(keyframes_css(name, lines));
    let head = keyframes_head(name);
    let inner = if lines.len() == 0 {
        seq![Seq::<char>::empty()]
    } else {
        indented("    "@, lines)
    };
    let end = seq!["  }"@, "}"@, Seq::<char>::empty()];
    assert(all == seq![head, "  0%, 100% {"@] + inner + end);
    assert(all[0] == head);
    assert(all.contains(all[0]));
    assert forall|i: int| 0 <= i < inner.len() implies inner[i].len() == 0 || (inner[i].len() > 4
        && #[trigger] inner[i][0] == ' ' && inner[i][2] == ' ') by {
        if lines.len() > 0 {
            assert(flush(lines[i]));
            assert(inner[i] == "    "@ + lines[i]);
        }
    }
    if inner.contains("  }"@) {
        let i = inner.index_of("  }"@);
        assert(inner[i][2] == '}');
    }
    assert forall|i: int| 0 < i < all.len() implies mark(#[trigger] all[i]).0 == ' ' || mark(all[i])
        == ('\n', '\n') by {
        if 2 <= i < 2 + inner.len() {
            assert(all[i] == inner[i - 2]);
            assert(inner[i - 2].len() == 0 || inner[i - 2][0] == ' ');
        }
    }
    assert forall|other: Seq<char>| #[trigger] all.contains(keyframes_head(other)) implies other
        == name by {
        let h = keyframes_head(other);
        let i = all.index_of(h);
        assert(all[i] == h);
        assert(mark(h) == ('@', 'k'));
        assert(i == 0);
        let k = other.len() as int;
        assert(h.subrange(11, 11 + k) == other);
        assert(head.len() == 13 + name.len());
        assert(h.len() == 13 + other.len());
        assert(head.subrange(11, 11 + k) == name);
    }
    lemma_after_add(all, post, head);
    let rest = all.drop_first() + post;
    assert(after(all, head) == all.drop_first());
    assert(rest.first() == "  0%, 100% {"@);
    assert(rest.drop_first() == inner + (end + post));
    lemma_before_add(inner, end + post, "  }"@);
    assert((end + post).first() == "  }"@);
    assert(before(end + post, "  }"@) == Seq::<Seq<char>>::empty());
    assert(inner + before(end + post, "  }"@) == inner);
    if lines.len() == 0 {
        assert(inner.drop_last() == Seq::<Seq<char>>::empty());
        assert(unindented(inner.drop_last()) == Seq::<Seq<char>>::empty());
        assert(unindented(inner) == lines);
    } else {
        lemma_unindented("    "@, lines);
    }
}

/// Whether declarations can be found again in lines.
pub open spec fn findable(lines: Seq<Seq<char>>) -> bool {
    forall|i: int| 0 <= i < lines.len() ==> one_line(#[trigger] lines[i]) && flush(lines[i])
}

/// The selector of the rule that computes.
pub open spec fn rule_selector(has_ff: bool) -> Seq<char> {
    if has_ff {
        "body"@
    } else {
        ":root"@
    }
}

/// The lines in front of the rule that computes.
spec fn front(sheet: Sheet) -> Seq<Seq<char>> {
    seq!["/* generated by veryl-css */"@, Seq::empty()] + lines_of(
        comp_functions_css(sheet.functions),
    ) + lines_of(properties_css(sheet.properties))
}

/// The lines from the rule that computes on.
spec fn back(sheet: Sheet) -> Seq<Seq<char>> {
    if sheet.has_ff {
        lines_of(block_css("body"@, written_lines(sheet.body))) + (lines_of(
            keyframes_css("hoist"@, written_lines(sheet.hoist)),
        ) + lines_of(keyframes_css("capture"@, written_lines(sheet.capture))))
    } else {
        lines_of(block_css(":root"@, written_lines(sheet.body)))
    }
}

proof fn lemma_sheet_halves(sheet: Sheet)
    requires
        all_one_line(sheet.properties),
        findable(written_lines(sheet.body)),
        findable(written_lines(sheet.hoist)),
        findable(written_lines(sheet.capture)),
    ensures
        lines_of(sheet.text()) == front(sheet) + back(sheet),
{
    assert(all_one_line(written_lines(sheet.body)));
    assert(all_one_line(written_lines(sheet.hoist)));
    assert(all_one_line(written_lines(sheet.capture)));
    law_sheet_lines(sheet);
    assert(lines_of(sheet.text()) == front(sheet) + back(sheet));
}

/// The lines in front of the rule hold functions and registrations only.
proof fn lemma_front(sheet: Sheet, head: Seq<char>)
    requires
        all_one_line(sheet.properties),
        mark(head).0 != ' ',
        mark(head).0 != '\n',
        mark(head).0 != '/',
        mark(head) != ('@', 'f'),
        mark(head) != ('@', 'p'),
    ensures
        !front(sheet).contains(head),
{
    reveal_strlit("/* generated by veryl-css */");
    let top = seq!["/* generated by veryl-css */"@, Seq::<char>::empty()];
    assert(mark(top[0]) == ('/', '*'));
    assert(marked(top, ('/', '*')));
    law_functions_found(sheet.functions, CompFn::Lt);
    law_properties_found(sheet.properties, Seq::empty());
    lemma_marked(top, ('/', '*'), head);
    lemma_marked(lines_of(comp_functions_css(sheet.functions)), ('@', 'f'), head);
    lemma_marked(lines_of(properties_css(sheet.properties)), ('@', 'p'), head);
    lemma_contains_add(top, lines_of(comp_functions_css(sheet.functions)), head);
    lemma_contains_add(
        top + lines_of(comp_functions_css(sheet.functions)),
        lines_of(properties_css(sheet.properties)),
        head,
    );
}

/// The lines from the rule on hold no function and no registration.
proof fn lemma_back(sheet: Sheet, head: Seq<char>)
    requires
        findable(written_lines(sheet.body)),
        findable(written_lines(sheet.hoist)),
        findable(written_lines(sheet.capture)),
        mark(head) == ('@', 'f') || mark(head) == ('@', 'p'),
    ensures
        !back(sheet).contains(head),
{
    reveal_strlit("hoist");
    reveal_strlit("capture");
    let selector = rule_selector(sheet.has_ff);
    let body = lines_of(block_css(selector, written_lines(sheet.body)));
    assert(all_one_line(written_lines(sheet.body)));
    lemma_block_found(selector, written_lines(sheet.body));
    lemma_marked(body, mark(selector), head);
    if sheet.has_ff {
        let hoist = lines_of(keyframes_css("hoist"@, written_lines(sheet.hoist)));
        let capture = lines_of(keyframes_css("capture"@, written_lines(sheet.capture)));
        assert(all_one_line(written_lines(sheet.hoist)));
        assert(all_one_line(written_lines(sheet.capture)));
        lemma_keyframes_found("hoist"@, written_lines(sheet.hoist), Seq::empty());
        lemma_keyframes_found("capture"@, written_lines(sheet.capture), Seq::empty());
        lemma_marked(hoist, ('@', 'k'), head);
        lemma_marked(capture, ('@', 'k'), head);
        lemma_contains_add(hoist, capture, head);
        lemma_contains_add(body, hoist + capture, head);
    }
}

/// Law: in the lines of a style sheet the function of a comparison is found if and only if the
/// comparison is used, with its result.
pub proof fn law_function_found(sheet: Sheet, f: CompFn)
    requires
        all_one_line(sheet.properties),
        findable(written_lines(sheet.body)),
        findable(written_lines(sheet.hoist)),
        findable(written_lines(sheet.capture)),
    ensures
        ({
            let lines = lines_of(sheet.text());
            let selector = function_selector(comp_name(f));
            &&& lines.contains(selector + " {"@) <==> sheet.functions.contains(f)
            &&& sheet.functions.contains(f) ==> rule(lines, selector) == seq![
                "result: "@ + comp_body(f) + ";"@,
            ]
        }),
{
    let selector = function_selector(comp_name(f));
    let head = selector + " {"@;
    let top = seq!["/* generated by veryl-css */"@, Seq::<char>::empty()];
    let functions = lines_of(comp_functions_css(sheet.functions));
    let properties = lines_of(properties_css(sheet.properties));
    lemma_sheet_halves(sheet);
    lemma_function_heads(f, f);
    law_functions_found(sheet.functions, f);
    law_properties_found(sheet.properties, Seq::empty());
    assert(!top.contains(head)) by {
        reveal_strlit("/* generated by veryl-css */");
        assert(marked(top, ('/', '*')));
        lemma_marked(top, ('/', '*'), head);
    }
    lemma_marked(properties, ('@', 'p'), head);
    lemma_back(sheet, head);
    lemma_rule_add(top, functions, selector);
    lemma_rule_add(top + functions, properties, selector);
    lemma_rule_add(front(sheet), back(sheet), selector);
}

/// Law: in the lines of a style sheet the registration of a custom property is found if and only
/// if it is registered.
pub proof fn law_property_found(sheet: Sheet, var: Seq<char>)
    requires
        all_one_line(sheet.properties),
        findable(written_lines(sheet.body)),
        findable(written_lines(sheet.hoist)),
        findable(written_lines(sheet.capture)),
    ensures
        ({
            let lines = lines_of(sheet.text());
            let selector = property_selector(var);
            &&& lines.contains(selector + " {"@) <==> sheet.properties.contains(var)
            &&& sheet.properties.contains(var) ==> rule(lines, selector) == registration()
        }),
{
    let selector = property_selector(var);
    let head = selector + " {"@;
    let top = seq!["/* generated by veryl-css */"@, Seq::<char>::empty()];
    let functions = lines_of(comp_functions_css(sheet.functions));
    let properties = lines_of(properties_css(sheet.properties));
    lemma_sheet_halves(sheet);
    lemma_property_rule(var, var);
    law_functions_found(sheet.functions, CompFn::Lt);
    law_properties_found(sheet.properties, var);
    assert(!top.contains(head)) by {
        reveal_strlit("/* generated by veryl-css */");
        assert(marked(top, ('/', '*')));
        lemma_marked(top, ('/', '*'), head);
    }
    lemma_marked(functions, ('@', 'f'), head);
    lemma_back(sheet, head);
    lemma_rule_add(top, functions, selector);
    lemma_rule_add(top + functions, properties, selector);
    lemma_rule_add(front(sheet), back(sheet), selector);
}

/// Law: in the lines of a style sheet the rule that computes is found with all its declarations,
/// in order.
pub proof fn law_rule_found(sheet: Sheet)
    requires
        all_one_line(sheet.properties),
        findable(written_lines(sheet.body)),
        findable(written_lines(sheet.hoist)),
        findable(written_lines(sheet.capture)),
    ensures
        rule(lines_of(sheet.text()), rule_selector(sheet.has_ff)) == written_lines(sheet.body),
{
    let selector = rule_selector(sheet.has_ff);
    let head = selector + " {"@;
    lemma_sheet_halves(sheet);
    assert(all_one_line(written_lines(sheet.body)));
    lemma_block_found(selector, written_lines(sheet.body));
    lemma_front(sheet, head);
    lemma_rule_add(front(sheet), back(sheet), selector);
    if sheet.has_ff {
        lemma_rule_add(
            lines_of(block_css("body"@, written_lines(sheet.body))),
            lines_of(keyframes_css("hoist"@, written_lines(sheet.hoist))) + lines_of(
                keyframes_css("capture"@, written_lines(sheet.capture)),
            ),
            selector,
        );
    }
}

/// Law: in the lines of the style sheet of a module with states the two animations are found with
/// all their declarations, in order.
pub proof fn law_keyframes_found(sheet: Sheet)
    requires
        sheet.has_ff,
        all_one_line(sheet.properties),
        findable(written_lines(sheet.body)),
        findable(written_lines(sheet.hoist)),
        findable(written_lines(sheet.capture)),
    ensures
        keyframe(lines_of(sheet.text()), "hoist"@) == written_lines(sheet.hoist),
        keyframe(lines_of(sheet.text()), "capture"@) == written_lines(sheet.capture),
{
    reveal_strlit("hoist");
    reveal_strlit("capture");
    lemma_sheet_halves(sheet);
    let body = lines_of(block_css("body"@, written_lines(sheet.body)));
    let hoist = lines_of(keyframes_css("hoist"@, written_lines(sheet.hoist)));
    let capture = lines_of(keyframes_css("capture"@, written_lines(sheet.capture)));
    assert(all_one_line(written_lines(sheet.body)));
    assert(all_one_line(written_lines(sheet.hoist)));
    assert(all_one_line(written_lines(sheet.capture)));
    lemma_block_found("body"@, written_lines(sheet.body));
    lemma_keyframes_found("hoist"@, written_lines(sheet.hoist), capture);
    lemma_keyframes_found("capture"@, written_lines(sheet.capture), Seq::empty());
    let h = keyframes_head("hoist"@);
    let c = keyframes_head("capture"@);
    lemma_front(sheet, h);
    lemma_front(sheet, c);
    lemma_marked(body, mark("body"@), h);
    lemma_marked(body, mark("body"@), c);
    lemma_after_add(front(sheet), back(sheet), h);
    lemma_after_add(front(sheet), back(sheet), c);
    lemma_after_add(body, hoist + capture, h);
    lemma_after_add(body, hoist + capture, c);
    assert("hoist"@ != "capture"@);
    lemma_after_add(hoist, capture, c);
    assert(capture + Seq::<Seq<char>>::empty() == capture);
}

} // verus!
