//! What the functions of comparisons compute.

use vstd::prelude::*;

use crate::css::{comp_body, CompFn};
use crate::literal::is_css_integer;
use crate::reading::{expect, is_word, lemma_expect, lemma_read_int, lemma_word, read, text_value};
use crate::semantics::{holds, numeral_int, numeral_nat};

verus! {

/// A CSS value over the parameters `--a` and `--b`.
pub enum CompExpr {
    A,
    B,
    Sub(Box<CompExpr>, Box<CompExpr>),
    Sign(Box<CompExpr>),
    Abs(Box<CompExpr>),
    OnePlus(Box<CompExpr>),
    OneMinus(Box<CompExpr>),
    /// The value, brought into the range from 0 to 1.
    Clamp(Box<CompExpr>),
}

/// The sign of an integer: -1, 0 or 1.
pub open spec fn sign(x: int) -> int {
    if x < 0 {
        -1
    } else if x == 0 {
        0
    } else {
        1
    }
}

impl CompExpr {
    /// How the value is written.
    pub open spec fn text(self) -> Seq<char>
        decreases self,
    {
        match self {
            CompExpr::A => "var(--a)"@,
            CompExpr::B => "var(--b)"@,
            CompExpr::Sub(l, r) => "calc("@ + l.text() + " - "@ + r.text() + ")"@,
            CompExpr::Sign(x) => "sign("@ + x.text() + ")"@,
            CompExpr::Abs(x) => "abs("@ + x.text() + ")"@,
            CompExpr::OnePlus(x) => "calc(1 + "@ + x.text() + ")"@,
            CompExpr::OneMinus(x) => "calc(1 - "@ + x.text() + ")"@,
            CompExpr::Clamp(x) => "clamp(0, "@ + x.text() + ", 1)"@,
        }
    }

    /// What the value comes to for the given arguments.
    pub open spec fn value(self, a: int, b: int) -> int
        decreases self,
    {
        match self {
            CompExpr::A => a,
            CompExpr::B => b,
            CompExpr::Sub(l, r) => l.value(a, b) - r.value(a, b),
            CompExpr::Sign(x) => sign(x.value(a, b)),
            CompExpr::Abs(x) => vstd::math::abs(x.value(a, b)) as int,
            CompExpr::OnePlus(x) => 1 + x.value(a, b),
            CompExpr::OneMinus(x) => 1 - x.value(a, b),
            CompExpr::Clamp(x) => vstd::math::max(0, vstd::math::min(x.value(a, b), 1)),
        }
    }
}

/// The sign of the difference of two values.
pub open spec fn sign_of_difference(l: CompExpr, r: CompExpr) -> CompExpr {
    CompExpr::Sign(Box::new(CompExpr::Sub(Box::new(l), Box::new(r))))
}

/// The value that the function of a comparison declares.
pub open spec fn comp_expr(f: CompFn) -> CompExpr {
    let a_over_b = sign_of_difference(CompExpr::A, CompExpr::B);
    let b_over_a = sign_of_difference(CompExpr::B, CompExpr::A);
    match f {
        CompFn::Lt => CompExpr::Clamp(Box::new(b_over_a)),
        CompFn::Lte => CompExpr::Clamp(Box::new(CompExpr::OnePlus(Box::new(b_over_a)))),
        CompFn::Gt => CompExpr::Clamp(Box::new(a_over_b)),
        CompFn::Gte => CompExpr::Clamp(Box::new(CompExpr::OnePlus(Box::new(a_over_b)))),
        CompFn::Eq => CompExpr::Clamp(
            Box::new(CompExpr::OneMinus(Box::new(CompExpr::Abs(Box::new(a_over_b))))),
        ),
        CompFn::Neq => CompExpr::Abs(Box::new(a_over_b)),
    }
}

proof fn lemma_difference_text(l: CompExpr, r: CompExpr)
    requires
        (l == CompExpr::A && r == CompExpr::B) || (l == CompExpr::B && r == CompExpr::A),
    ensures
        l == CompExpr::A ==> sign_of_difference(l, r).text() == "sign(calc(var(--a) - var(--b)))"@,
        l == CompExpr::B ==> sign_of_difference(l, r).text() == "sign(calc(var(--b) - var(--a)))"@,
{
    reveal_with_fuel(CompExpr::text, 4);
    reveal_strlit("var(--a)");
    reveal_strlit("var(--b)");
    reveal_strlit("calc(");
    reveal_strlit(" - ");
    reveal_strlit(")");
    reveal_strlit("sign(");
    reveal_strlit("sign(calc(var(--a) - var(--b)))");
    reveal_strlit("sign(calc(var(--b) - var(--a)))");
    if l == CompExpr::A {
        assert(sign_of_difference(l, r).text() == "sign(calc(var(--a) - var(--b)))"@);
    } else {
        assert(sign_of_difference(l, r).text() == "sign(calc(var(--b) - var(--a)))"@);
    }
}

/// Law: the result that the function of a comparison declares is, as a CSS value, 1 where the
/// comparison holds and 0 where it does not.
pub proof fn law_comparison(f: CompFn, a: int, b: int)
    ensures
        comp_body(f) == comp_expr(f).text(),
        comp_expr(f).value(a, b) == (if holds(f, a, b) {
            1int
        } else {
            0
        }),
{
    lemma_difference_text(CompExpr::A, CompExpr::B);
    lemma_difference_text(CompExpr::B, CompExpr::A);
    reveal_with_fuel(CompExpr::value, 6);
    reveal_with_fuel(CompExpr::text, 4);
    reveal_strlit("sign(calc(var(--a) - var(--b)))");
    reveal_strlit("sign(calc(var(--b) - var(--a)))");
    reveal_strlit("clamp(0, ");
    reveal_strlit(", 1)");
    reveal_strlit("calc(1 + ");
    reveal_strlit("calc(1 - ");
    reveal_strlit("abs(");
    reveal_strlit(")");
    match f {
        CompFn::Lt => {
            reveal_strlit("clamp(0, sign(calc(var(--b) - var(--a))), 1)");
            assert(comp_body(f) == comp_expr(f).text());
        },
        CompFn::Lte => {
            reveal_strlit("clamp(0, calc(1 + sign(calc(var(--b) - var(--a)))), 1)");
            assert(comp_body(f) == comp_expr(f).text());
        },
        CompFn::Gt => {
            reveal_strlit("clamp(0, sign(calc(var(--a) - var(--b))), 1)");
            assert(comp_body(f) == comp_expr(f).text());
        },
        CompFn::Gte => {
            reveal_strlit("clamp(0, calc(1 + sign(calc(var(--a) - var(--b)))), 1)");
            assert(comp_body(f) == comp_expr(f).text());
        },
        CompFn::Eq => {
            reveal_strlit("clamp(0, calc(1 - abs(sign(calc(var(--a) - var(--b))))), 1)");
            assert(comp_body(f) == comp_expr(f).text());
        },
        CompFn::Neq => {
            reveal_strlit("abs(sign(calc(var(--a) - var(--b))))");
            assert(comp_body(f) == comp_expr(f).text());
        },
    }
}

/// How deep a value is nested.
spec fn comp_depth(x: CompExpr) -> nat
    decreases x,
{
    match x {
        CompExpr::A => 1,
        CompExpr::B => 1,
        CompExpr::Sub(l, r) => 1 + comp_depth(*l) + comp_depth(*r),
        CompExpr::Sign(x) => 1 + comp_depth(*x),
        CompExpr::Abs(x) => 1 + comp_depth(*x),
        CompExpr::OnePlus(x) => 2 + comp_depth(*x),
        CompExpr::OneMinus(x) => 2 + comp_depth(*x),
        CompExpr::Clamp(x) => 2 + comp_depth(*x),
    }
}

/// How the pieces of written values start and end.
proof fn lemma_comp_pieces()
    ensures
        "calc(1 + "@ == "calc("@ + ("1"@ + " + "@),
        "calc(1 - "@ == "calc("@ + ("1"@ + " - "@),
        "clamp(0, "@ == "clamp("@ + ("0"@ + ", "@),
        ", 1)"@ == ", "@ + ("1"@ + ")"@),
        "calc("@.len() == 5 && "calc("@[0] == 'c' && "calc("@[1] == 'a',
        "clamp("@.len() == 6 && "clamp("@[0] == 'c' && "clamp("@[1] == 'l',
        "sign("@.len() == 5 && "sign("@[0] == 's',
        "abs("@.len() == 4 && "abs("@[0] == 'a',
        " + "@.len() == 3 && " + "@[0] == ' ' && " + "@[1] == '+',
        " - "@.len() == 3 && " - "@[0] == ' ' && " - "@[1] == '-',
        ")"@.len() == 1 && ")"@[0] == ')',
        ", "@.len() == 2 && ", "@[0] == ',',
        "0"@.len() == 1 && "0"@[0] == '0',
        "1"@.len() == 1 && "1"@[0] == '1',
        is_css_integer("0"@) && numeral_int("0"@) == 0,
        is_css_integer("1"@) && numeral_int("1"@) == 1,
{
    reveal_strlit("calc(1 + ");
    reveal_strlit("calc(1 - ");
    reveal_strlit("clamp(0, ");
    reveal_strlit(", 1)");
    reveal_strlit("calc(");
    reveal_strlit("clamp(");
    reveal_strlit("sign(");
    reveal_strlit("abs(");
    reveal_strlit(" + ");
    reveal_strlit(" - ");
    reveal_strlit(")");
    reveal_strlit(", ");
    reveal_strlit("0");
    reveal_strlit("1");
    assert("0"@.drop_last() == Seq::<char>::empty());
    assert("1"@.drop_last() == Seq::<char>::empty());
    assert(numeral_nat(Seq::<char>::empty()) == 0);
    assert(numeral_nat("0"@) == 0);
    assert(numeral_nat("1"@) == 1);
}

/// A parameter is read as its argument.
proof fn lemma_read_parameter(
    text: Seq<char>,
    name: Seq<char>,
    env: Map<Seq<char>, int>,
    rest: Seq<char>,
    fuel: nat,
)
    requires
        text == "var("@ + name + ")"@,
        is_word(name),
        fuel > 0,
    ensures
        read(text + rest, env, fuel) == Some((env[name], rest)),
{
    reveal_strlit("var(");
    lemma_comp_pieces();
    let s = text + rest;
    let b = ")"@ + rest;
    let a = name + b;
    assert(s == "var("@ + a);
    assert(s.first() == 'v');
    lemma_expect("var("@, a);
    assert(b.first() == ')');
    lemma_word(name, b);
    assert(expect(b, ", "@) is None) by {
        if b.len() >= 2 {
            assert(b.take(2)[0] == ')');
        }
    }
    lemma_expect(")"@, rest);
}

/// A sum or difference of two values is read as such.
proof fn lemma_read_sum(
    g: Seq<char>,
    x: int,
    plus: bool,
    h: Seq<char>,
    y: int,
    env: Map<Seq<char>, int>,
    rest: Seq<char>,
    fuel: nat,
)
    requires
        fuel > 0,
        ({
            let mark = if plus {
                " + "@
            } else {
                " - "@
            };
            read(g, env, (fuel - 1) as nat) == Some((x, mark + h))
        }),
        read(h, env, (fuel - 1) as nat) == Some((y, ")"@ + rest)),
    ensures
        read("calc("@ + g, env, fuel) == Some(
            (
                if plus {
                    x + y
                } else {
                    x - y
                },
                rest,
            ),
        ),
{
    lemma_comp_pieces();
    let mark = if plus {
        " + "@
    } else {
        " - "@
    };
    let s = "calc("@ + g;
    assert(s.first() == 'c');
    lemma_expect("calc("@, g);
    lemma_expect(mark, h);
    let b = mark + h;
    assert(b.take(3)[1] == mark[1]);
    if !plus {
        assert(expect(b, " + "@) is None);
    }
    lemma_expect(")"@, rest);
}

/// A sum or difference whose first operand is 1 is read as such.
proof fn lemma_read_from_one(
    plus: bool,
    h: Seq<char>,
    y: int,
    env: Map<Seq<char>, int>,
    rest: Seq<char>,
    fuel: nat,
)
    requires
        fuel > 1,
        read(h, env, (fuel - 1) as nat) == Some((y, ")"@ + rest)),
    ensures
        ({
            let head = if plus {
                "calc(1 + "@
            } else {
                "calc(1 - "@
            };
            read(head + h, env, fuel) == Some(
                (
                    if plus {
                        1 + y
                    } else {
                        1 - y
                    },
                    rest,
                ),
            )
        }),
{
    lemma_comp_pieces();
    let mark = if plus {
        " + "@
    } else {
        " - "@
    };
    let g = "1"@ + (mark + h);
    assert(g.first() == '1');
    assert((mark + h).first() == ' ');
    lemma_read_int("1"@, mark + h);
    lemma_read_sum(g, 1, plus, h, y, env, rest, fuel);
    assert(plus ==> "calc(1 + "@ + h == "calc("@ + g);
    assert(!plus ==> "calc(1 - "@ + h == "calc("@ + g);
}

/// A sign or an absolute value is read as such.
proof fn lemma_read_unary(
    a: Seq<char>,
    x: int,
    env: Map<Seq<char>, int>,
    rest: Seq<char>,
    fuel: nat,
)
    requires
        fuel > 0,
        read(a, env, (fuel - 1) as nat) == Some((x, ")"@ + rest)),
    ensures
        read("sign("@ + a, env, fuel) == Some((sign(x), rest)),
        read("abs("@ + a, env, fuel) == Some((vstd::math::abs(x) as int, rest)),
{
    lemma_comp_pieces();
    assert(("sign("@ + a).first() == 's');
    lemma_expect("sign("@, a);
    assert(("abs("@ + a).first() == 'a');
    lemma_expect("abs("@, a);
    lemma_expect(")"@, rest);
}

/// A value that is kept between 0 and 1 is read as such.
proof fn lemma_read_clamp(
    b: Seq<char>,
    x: int,
    env: Map<Seq<char>, int>,
    rest: Seq<char>,
    fuel: nat,
)
    requires
        fuel > 1,
        read(b, env, (fuel - 1) as nat) == Some((x, ", 1)"@ + rest)),
    ensures
        read("clamp(0, "@ + b, env, fuel) == Some(
            (vstd::math::max(0, vstd::math::min(x, 1)), rest),
        ),
{
    lemma_comp_pieces();
    let d = ")"@ + rest;
    let c = "1"@ + d;
    let a = "0"@ + (", "@ + b);
    let s = "clamp("@ + a;
    assert("clamp(0, "@ + b == s);
    assert(", 1)"@ + rest == ", "@ + c);
    assert(s.first() == 'c');
    assert(expect(s, "calc("@) is None) by {
        assert(s.take(5)[1] == 'l');
    }
    lemma_expect("clamp("@, a);
    assert(a.first() == '0');
    assert((", "@ + b).first() == ',');
    lemma_read_int("0"@, ", "@ + b);
    let f = (fuel - 1) as nat;
    assert(read(a, env, f) == Some((0int, ", "@ + b)));
    lemma_expect(", "@, b);
    lemma_expect(", "@, c);
    assert(c.first() == '1');
    assert(d.first() == ')');
    lemma_read_int("1"@, d);
    assert(read(c, env, f) == Some((1int, d)));
    lemma_expect(")"@, rest);
}

/// A written value over the parameters is read as what it comes to for the arguments.
proof fn lemma_read_comp(x: CompExpr, env: Map<Seq<char>, int>, rest: Seq<char>, fuel: nat)
    requires
        fuel >= comp_depth(x),
    ensures
        read(x.text() + rest, env, fuel) == Some((x.value(env["--a"@], env["--b"@]), rest)),
    decreases x,
{
    let s = x.text() + rest;
    let f = (fuel - 1) as nat;
    let a = env["--a"@];
    let b = env["--b"@];
    let end = ")"@ + rest;
    match x {
        CompExpr::A => {
            reveal_strlit("var(--a)");
            reveal_strlit("var(");
            reveal_strlit("--a");
            reveal_strlit(")");
            assert(x.text() == "var("@ + "--a"@ + ")"@);
            lemma_read_parameter(x.text(), "--a"@, env, rest, fuel);
        },
        CompExpr::B => {
            reveal_strlit("var(--b)");
            reveal_strlit("var(");
            reveal_strlit("--b");
            reveal_strlit(")");
            assert(x.text() == "var("@ + "--b"@ + ")"@);
            lemma_read_parameter(x.text(), "--b"@, env, rest, fuel);
        },
        CompExpr::Sub(l, r) => {
            let h = r.text() + end;
            let g = l.text() + (" - "@ + h);
            assert(s == "calc("@ + g);
            lemma_read_comp(*l, env, " - "@ + h, f);
            lemma_read_comp(*r, env, end, f);
            lemma_read_sum(g, l.value(a, b), false, h, r.value(a, b), env, rest, fuel);
        },
        CompExpr::Sign(y) => {
            assert(s == "sign("@ + (y.text() + end));
            lemma_read_comp(*y, env, end, f);
            lemma_read_unary(y.text() + end, y.value(a, b), env, rest, fuel);
        },
        CompExpr::Abs(y) => {
            assert(s == "abs("@ + (y.text() + end));
            lemma_read_comp(*y, env, end, f);
            lemma_read_unary(y.text() + end, y.value(a, b), env, rest, fuel);
        },
        CompExpr::OnePlus(y) => {
            assert(s == "calc(1 + "@ + (y.text() + end));
            lemma_read_comp(*y, env, end, f);
            lemma_read_from_one(true, y.text() + end, y.value(a, b), env, rest, fuel);
        },
        CompExpr::OneMinus(y) => {
            assert(s == "calc(1 - "@ + (y.text() + end));
            lemma_read_comp(*y, env, end, f);
            lemma_read_from_one(false, y.text() + end, y.value(a, b), env, rest, fuel);
        },
        CompExpr::Clamp(y) => {
            let close = ", 1)"@ + rest;
            assert(s == "clamp(0, "@ + (y.text() + close));
            lemma_read_comp(*y, env, close, f);
            lemma_read_clamp(y.text() + close, y.value(a, b), env, rest, fuel);
        },
    }
}

proof fn lemma_comp_depth(x: CompExpr)
    ensures
        x.text().len() >= comp_depth(x),
    decreases x,
{
    lemma_comp_pieces();
    reveal_strlit("var(--a)");
    reveal_strlit("var(--b)");
    match x {
        CompExpr::Sub(l, r) => {
            lemma_comp_depth(*l);
            lemma_comp_depth(*r);
        },
        CompExpr::Sign(y) => lemma_comp_depth(*y),
        CompExpr::Abs(y) => lemma_comp_depth(*y),
        CompExpr::OnePlus(y) => lemma_comp_depth(*y),
        CompExpr::OneMinus(y) => lemma_comp_depth(*y),
        CompExpr::Clamp(y) => lemma_comp_depth(*y),
        _ => {},
    }
}

/// Law: the result that the function of a comparison declares, read as CSS, is 1 for arguments of
/// which the comparison holds, and 0 for all others.
pub proof fn law_comparison_read(f: CompFn, env: Map<Seq<char>, int>)
    ensures
        text_value(comp_body(f), env) == Some(
            if holds(f, env["--a"@], env["--b"@]) {
                1int
            } else {
                0
            },
        ),
{
    law_comparison(f, env["--a"@], env["--b"@]);
    let x = comp_expr(f);
    lemma_comp_depth(x);
    lemma_read_comp(x, env, Seq::empty(), x.text().len());
    assert(x.text() + Seq::<char>::empty() == x.text());
}

} // verus!
