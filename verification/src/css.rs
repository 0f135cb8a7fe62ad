//! The parts of a style sheet, and how they are written.

use vstd::prelude::*;

use crate::text::{nat_text, texts};

verus! {

/// A comparison, each of which has a CSS function of its own.
#[derive(Clone, Copy, Debug, PartialEq, Eq, Structural)]
pub enum CompFn {
    Lt,
    Lte,
    Gt,
    Gte,
    Eq,
    Neq,
}

/// The CSS function that makes a comparison.
pub open spec fn comp_name(f: CompFn) -> Seq<char> {
    match f {
        CompFn::Lt => "--veryl-lt"@,
        CompFn::Lte => "--veryl-lte"@,
        CompFn::Gt => "--veryl-gt"@,
        CompFn::Gte => "--veryl-gte"@,
        CompFn::Eq => "--veryl-eq"@,
        CompFn::Neq => "--veryl-neq"@,
    }
}

/// The result that the CSS function of a comparison declares, over `--a` and `--b`.
pub open spec fn comp_body(f: CompFn) -> Seq<char> {
    match f {
        CompFn::Lt => "clamp(0, sign(calc(var(--b) - var(--a))), 1)"@,
        CompFn::Lte => "clamp(0, calc(1 + sign(calc(var(--b) - var(--a)))), 1)"@,
        CompFn::Gt => "clamp(0, sign(calc(var(--a) - var(--b))), 1)"@,
        CompFn::Gte => "clamp(0, calc(1 + sign(calc(var(--a) - var(--b)))), 1)"@,
        CompFn::Eq => "clamp(0, calc(1 - abs(sign(calc(var(--a) - var(--b))))), 1)"@,
        CompFn::Neq => "abs(sign(calc(var(--a) - var(--b))))"@,
    }
}

/// The declaration of the CSS function of a comparison.
pub open spec fn comp_function_css(f: CompFn) -> Seq<char> {
    "@function "@ + comp_name(f) + "(--a <number>, --b <number>) returns <integer> {\n  result: "@
        + comp_body(f) + ";\n}\n\n"@
}

/// The comparisons, in the order in which their functions are declared.
pub open spec fn comp_order() -> Seq<CompFn> {
    seq![CompFn::Lt, CompFn::Lte, CompFn::Gt, CompFn::Gte, CompFn::Eq, CompFn::Neq]
}

/// The declarations of those functions among the given ones that are used.
pub open spec fn used_functions_css(used: Set<CompFn>, order: Seq<CompFn>) -> Seq<char>
    decreases order.len(),
{
    if order.len() == 0 {
        Seq::empty()
    } else {
        let before = used_functions_css(used, order.drop_last());
        if used.contains(order.last()) {
            before + comp_function_css(order.last())
        } else {
            before
        }
    }
}

/// The declarations of the functions of the comparisons that are used.
pub open spec fn comp_functions_css(used: Set<CompFn>) -> Seq<char> {
    used_functions_css(used, comp_order())
}

/// A set of comparisons.
pub struct CompFns {
    pub lt: bool,
    pub lte: bool,
    pub gt: bool,
    pub gte: bool,
    pub eq: bool,
    pub neq: bool,
}

impl View for CompFns {
    type V = Set<CompFn>;

    open spec fn view(&self) -> Set<CompFn> {
        Set::new(
            |f: CompFn|
                match f {
                    CompFn::Lt => self.lt,
                    CompFn::Lte => self.lte,
                    CompFn::Gt => self.gt,
                    CompFn::Gte => self.gte,
                    CompFn::Eq => self.eq,
                    CompFn::Neq => self.neq,
                },
        )
    }
}

impl CompFns {
    /// No comparison.
    pub fn new() -> (fns: CompFns)
        ensures
            fns@ == Set::<CompFn>::empty(),
    {
        let fns = CompFns { lt: false, lte: false, gt: false, gte: false, eq: false, neq: false };
        assert(fns@ == Set::<CompFn>::empty());
        fns
    }

    /// Adds a comparison.
    pub fn insert(&mut self, f: CompFn)
        ensures
            final(self)@ == old(self)@.insert(f),
    {
        match f {
            CompFn::Lt => self.lt = true,
            CompFn::Lte => self.lte = true,
            CompFn::Gt => self.gt = true,
            CompFn::Gte => self.gte = true,
            CompFn::Eq => self.eq = true,
            CompFn::Neq => self.neq = true,
        }
        assert(self@ == old(self)@.insert(f));
    }

    /// Whether a comparison is among them.
    pub fn contains(&self, f: CompFn) -> (b: bool)
        ensures
            b == self@.contains(f),
    {
        match f {
            CompFn::Lt => self.lt,
            CompFn::Lte => self.lte,
            CompFn::Gt => self.gt,
            CompFn::Gte => self.gte,
            CompFn::Eq => self.eq,
            CompFn::Neq => self.neq,
        }
    }
}

impl CompFn {
    /// The name of the CSS function.
    pub fn name(self) -> (name: &'static str)
        ensures
            name@ == comp_name(self),
    {
        match self {
            CompFn::Lt => "--veryl-lt",
            CompFn::Lte => "--veryl-lte",
            CompFn::Gt => "--veryl-gt",
            CompFn::Gte => "--veryl-gte",
            CompFn::Eq => "--veryl-eq",
            CompFn::Neq => "--veryl-neq",
        }
    }

    /// The result that the CSS function declares.
    pub fn body(self) -> (body: &'static str)
        ensures
            body@ == comp_body(self),
    {
        match self {
            CompFn::Lt => "clamp(0, sign(calc(var(--b) - var(--a))), 1)",
            CompFn::Lte => "clamp(0, calc(1 + sign(calc(var(--b) - var(--a)))), 1)",
            CompFn::Gt => "clamp(0, sign(calc(var(--a) - var(--b))), 1)",
            CompFn::Gte => "clamp(0, calc(1 + sign(calc(var(--a) - var(--b)))), 1)",
            CompFn::Eq => "clamp(0, calc(1 - abs(sign(calc(var(--a) - var(--b))))), 1)",
            CompFn::Neq => "abs(sign(calc(var(--a) - var(--b))))",
        }
    }
}

/// Declares the functions of the comparisons that are used.
pub fn css_comp_functions(used: &CompFns) -> (s: String)
    ensures
        s@ == comp_functions_css(used@),
{
    // The result is always 0 or 1, hence `<integer>`.
    let all: [CompFn; 6] = [
        CompFn::Lt,
        CompFn::Lte,
        CompFn::Gt,
        CompFn::Gte,
        CompFn::Eq,
        CompFn::Neq,
    ];
    assert(all@ == comp_order());
    let mut s = String::new();
    for i in 0..6usize
        invariant
            all@ == comp_order(),
            s@ == used_functions_css(used@, comp_order().take(i as int)),
    {
        let f = all[i];
        assert(comp_order().take(i + 1).drop_last() == comp_order().take(i as int));
        if used.contains(f) {
            let mut function = "@function ".to_owned();
            function.append(f.name());
            function.append("(--a <number>, --b <number>) returns <integer> {\n  result: ");
            function.append(f.body());
            function.append(";\n}\n\n");
            s.append(&function);
        }
    }
    assert(comp_order().take(6) == comp_order());
    s
}

/// The registration of a custom property as an integer.
pub open spec fn property_css(var: Seq<char>) -> Seq<char> {
    "@property "@ + var
        + " {\n  syntax: \"<integer>\";\n  inherits: true;\n  initial-value: 0;\n}\n\n"@
}

/// Registers a custom property as an integer.
pub fn css_property(var: &str) -> (s: String)
    ensures
        s@ == property_css(var@),
{
    let mut s = "@property ".to_owned();
    s.append(var);
    s.append(" {\n  syntax: \"<integer>\";\n  inherits: true;\n  initial-value: 0;\n}\n\n");
    s
}

/// The lines of a rule, each indented and on a line of its own.
pub open spec fn block_lines(lines: Seq<Seq<char>>) -> Seq<char>
    decreases lines.len(),
{
    if lines.len() == 0 {
        Seq::empty()
    } else {
        block_lines(lines.drop_last()) + "  "@ + lines.last() + "\n"@
    }
}

/// A rule.
pub open spec fn block_css(selector: Seq<char>, lines: Seq<Seq<char>>) -> Seq<char> {
    selector + " {\n"@ + block_lines(lines) + "}\n\n"@
}

/// Writes a rule.
pub fn css_block(selector: &str, lines: &[String]) -> (s: String)
    ensures
        s@ == block_css(selector@, texts(lines@)),
{
    let mut inner = String::new();
    let ghost all = texts(lines@);
    for i in 0..lines.len()
        invariant
            all == texts(lines@),
            inner@ == block_lines(all.take(i as int)),
    {
        assert(all.take(i + 1).drop_last() == all.take(i as int));
        inner.append("  ");
        inner.append(&lines[i]);
        inner.append("\n");
    }
    assert(all.take(lines.len() as int) == all);
    let mut s = selector.to_owned();
    s.append(" {\n");
    s.append(&inner);
    s.append("}\n\n");
    s
}

/// The lines of a keyframe, each indented, with line breaks between them.
pub open spec fn keyframe_lines(lines: Seq<Seq<char>>) -> Seq<char>
    decreases lines.len(),
{
    if lines.len() == 0 {
        Seq::empty()
    } else if lines.len() == 1 {
        "    "@ + lines.last()
    } else {
        keyframe_lines(lines.drop_last()) + "\n"@ + "    "@ + lines.last()
    }
}

/// An animation that holds the same declarations throughout.
pub open spec fn keyframes_css(name: Seq<char>, lines: Seq<Seq<char>>) -> Seq<char> {
    "@keyframes "@ + name + " {\n  0%, 100% {\n"@ + keyframe_lines(lines) + "\n  }\n}\n\n"@
}

/// Writes an animation that holds the same declarations throughout.
pub fn css_keyframes(name: &str, lines: &[String]) -> (s: String)
    ensures
        s@ == keyframes_css(name@, texts(lines@)),
{
    let mut inner = String::new();
    let ghost all = texts(lines@);
    for i in 0..lines.len()
        invariant
            all == texts(lines@),
            inner@ == keyframe_lines(all.take(i as int)),
    {
        assert(all.take(i + 1).drop_last() == all.take(i as int));
        if i > 0 {
            inner.append("\n");
        }
        inner.append("    ");
        inner.append(&lines[i]);
        assert(i == 0 ==> inner@ == "    "@ + all[0]);
    }
    assert(all.take(lines.len() as int) == all);
    let mut s = "@keyframes ".to_owned();
    s.append(name);
    s.append(" {\n  0%, 100% {\n");
    s.append(&inner);
    s.append("\n  }\n}\n\n");
    s
}

/// The name of a condition's custom property.
pub open spec fn cond_name(n: nat) -> Seq<char> {
    "--veryl-cond-"@ + nat_text(n)
}

/// A CSS value.
pub enum CssValue {
    /// An integer, by its numeral.
    Int(Seq<char>),
    /// What a custom property holds.
    Var(Seq<char>),
    /// What a custom property holds, 0 where it holds nothing.
    VarOrZero(Seq<char>),
    Neg(Box<CssValue>),
    Add(Box<CssValue>, Box<CssValue>),
    Sub(Box<CssValue>, Box<CssValue>),
    Mul(Box<CssValue>, Box<CssValue>),
    Div(Box<CssValue>, Box<CssValue>),
    Rem(Box<CssValue>, Box<CssValue>),
    /// The first value where the numbered condition is 1, else the second.
    IfCond(nat, Box<CssValue>, Box<CssValue>),
    /// The first value where the reset is 1, else the second.
    IfReset(Box<CssValue>, Box<CssValue>),
}

impl CssValue {
    /// How the value is written.
    pub open spec fn text(self) -> Seq<char>
        decreases self,
    {
        match self {
            CssValue::Int(numeral) => numeral,
            CssValue::Var(name) => "var("@ + name + ")"@,
            CssValue::VarOrZero(name) => "var("@ + name + ", 0)"@,
            CssValue::Neg(x) => "calc(-1 * ("@ + x.text() + "))"@,
            CssValue::Add(l, r) => "calc(("@ + l.text() + ") + ("@ + r.text() + "))"@,
            CssValue::Sub(l, r) => "calc(("@ + l.text() + ") - ("@ + r.text() + "))"@,
            CssValue::Mul(l, r) => "calc(("@ + l.text() + ") * ("@ + r.text() + "))"@,
            CssValue::Div(l, r) => "round(to-zero, calc(("@ + l.text() + ") / ("@ + r.text()
                + ")), 1)"@,
            CssValue::Rem(l, r) => "rem(("@ + l.text() + "), ("@ + r.text() + "))"@,
            CssValue::IfCond(n, t, f) => "if(style("@ + cond_name(n) + ": 1): "@ + t.text()
                + "; else: "@ + f.text() + ")"@,
            CssValue::IfReset(t, f) => "if(style(--rst: 1): "@ + t.text() + "; else: "@ + f.text()
                + ")"@,
        }
    }
}

/// A comparison of two values, which is 1 where it holds and 0 where it does not.
pub struct CssCond {
    pub f: CompFn,
    pub l: CssValue,
    pub r: CssValue,
}

impl CssCond {
    /// How the comparison is written.
    pub open spec fn text(self) -> Seq<char> {
        comp_name(self.f) + "("@ + self.l.text() + ", "@ + self.r.text() + ")"@
    }
}

/// A declaration in a rule.
pub enum CssLine {
    /// Sets the custom property of the numbered condition.
    Cond(nat, CssCond),
    /// Sets the named custom property.
    Assign(Seq<char>, CssValue),
}

impl CssLine {
    /// How the declaration is written.
    pub open spec fn text(self) -> Seq<char> {
        match self {
            CssLine::Cond(n, cond) => cond_name(n) + ": "@ + cond.text() + ";"@,
            CssLine::Assign(name, value) => name + ": "@ + value.text() + ";"@,
        }
    }
}

/// How a sequence of declarations is written.
pub open spec fn line_texts(lines: Seq<CssLine>) -> Seq<Seq<char>> {
    lines.map_values(|line: CssLine| line.text())
}

/// The declarations of conditions that are numbered from `n` on.
pub open spec fn cond_lines(n: nat, conds: Seq<CssCond>) -> Seq<CssLine> {
    Seq::new(conds.len(), |i: int| CssLine::Cond((n + i) as nat, conds[i]))
}

/// The comparisons that some conditions make.
pub open spec fn comp_fns(conds: Seq<CssCond>) -> Set<CompFn> {
    conds.map_values(|cond: CssCond| cond.f).to_set()
}

} // verus!
