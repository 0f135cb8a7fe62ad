//! How written values and declarations are read.

use vstd::prelude::*;

use crate::comparison::sign;
use crate::css::{comp_name, cond_name, CompFn, CssCond, CssLine, CssValue};
use crate::literal::is_css_integer;
use crate::semantics::{css_value, numeral_int, numeral_nat, quotient, remainder};
use crate::text::{lemma_nat_text_digits, nat_text};

verus! {

/// Whether a character ends a name.
pub open spec fn is_delimiter(c: char) -> bool {
    c == '(' || c == ')' || c == ',' || c == ':' || c == ';' || c == ' ' || c == '\n' || c == '{'
        || c == '}'
}

/// Whether a text is one name.
pub open spec fn is_word(s: Seq<char>) -> bool {
    s.len() > 0 && forall|i: int| 0 <= i < s.len() ==> !is_delimiter(#[trigger] s[i])
}

/// How long the name is that a text starts with.
pub open spec fn word_len(s: Seq<char>) -> int
    decreases s.len(),
{
    if s.len() == 0 || is_delimiter(s.first()) {
        0
    } else {
        1 + word_len(s.drop_first())
    }
}

/// How many digits a text starts with.
pub open spec fn digits_len(s: Seq<char>) -> int
    decreases s.len(),
{
    if s.len() == 0 || !('0' <= s.first() <= '9') {
        0
    } else {
        1 + digits_len(s.drop_first())
    }
}

/// What follows a given beginning of a text.
pub open spec fn expect(s: Seq<char>, lit: Seq<char>) -> Option<Seq<char>> {
    if lit.len() <= s.len() && s.take(lit.len() as int) == lit {
        Some(s.skip(lit.len() as int))
    } else {
        None
    }
}

/// A value, and what follows the end that it has to have.
pub open spec fn close(x: int, s: Seq<char>, lit: Seq<char>) -> Option<(int, Seq<char>)> {
    match expect(s, lit) {
        Some(rest) => Some((x, rest)),
        None => None,
    }
}

/// Reads an integer: an optional `-`, then digits.
pub open spec fn read_int(s: Seq<char>) -> Option<(int, Seq<char>)> {
    let sign: int = if s.len() > 0 && s.first() == '-' {
        1
    } else {
        0
    };
    let len = digits_len(s.skip(sign));
    if len == 0 {
        None
    } else {
        Some((numeral_int(s.take(sign + len)), s.skip(sign + len)))
    }
}

/// Reads `var(name)` or `var(name, default)`.
pub open spec fn read_var(s: Seq<char>, env: Map<Seq<char>, int>) -> Option<(int, Seq<char>)> {
    match expect(s, "var("@) {
        None => None,
        Some(a) => {
            let name = a.take(word_len(a));
            let b = a.skip(word_len(a));
            match expect(b, ", "@) {
                None => close(env[name], b, ")"@),
                Some(c) => match read_int(c) {
                    None => None,
                    Some((default, d)) => close(
                        if env.contains_key(name) {
                            env[name]
                        } else {
                            default
                        },
                        d,
                        ")"@,
                    ),
                },
            }
        },
    }
}

/// Reads a value where custom properties have the given values: an integer, a custom property, a
/// value in parentheses, a sum, difference or product, a quotient rounded toward zero, a remainder,
/// a choice by whether a custom property is 1, a sign, an absolute value, or a value that is kept
/// between two others.
pub open spec fn read(s: Seq<char>, env: Map<Seq<char>, int>, fuel: nat) -> Option<
    (int, Seq<char>),
>
    decreases fuel,
{
    if fuel == 0 || s.len() == 0 {
        None
    } else {
        let f = (fuel - 1) as nat;
        match s.first() {
            '(' => match read(s.skip(1), env, f) {
                None => None,
                Some((x, a)) => close(x, a, ")"@),
            },
            'v' => read_var(s, env),
            'c' => match expect(s, "calc("@) {
                None => match expect(s, "clamp("@) {
                    None => None,
                    Some(a) => match read(a, env, f) {
                        None => None,
                        Some((low, b)) => match expect(b, ", "@) {
                            None => None,
                            Some(c) => match read(c, env, f) {
                                None => None,
                                Some((x, d)) => match expect(d, ", "@) {
                                    None => None,
                                    Some(e) => match read(e, env, f) {
                                        None => None,
                                        Some((high, g)) => close(
                                            vstd::math::max(low, vstd::math::min(x, high)),
                                            g,
                                            ")"@,
                                        ),
                                    },
                                },
                            },
                        },
                    },
                },
                Some(a) => match read(a, env, f) {
                    None => None,
                    Some((x, b)) => match (expect(b, " + "@), expect(b, " - "@), expect(
                        b,
                        " * "@,
                    )) {
                        (Some(c), _, _) => match read(c, env, f) {
                            None => None,
                            Some((y, d)) => close(x + y, d, ")"@),
                        },
                        (_, Some(c), _) => match read(c, env, f) {
                            None => None,
                            Some((y, d)) => close(x - y, d, ")"@),
                        },
                        (_, _, Some(c)) => match read(c, env, f) {
                            None => None,
                            Some((y, d)) => close(x * y, d, ")"@),
                        },
                        _ => None,
                    },
                },
            },
            'r' => match (expect(s, "round(to-zero, calc("@), expect(s, "rem("@)) {
                (Some(a), _) => match read(a, env, f) {
                    None => None,
                    Some((x, b)) => match expect(b, " / "@) {
                        None => None,
                        Some(c) => match read(c, env, f) {
                            None => None,
                            Some((y, d)) => close(quotient(x, y), d, "), 1)"@),
                        },
                    },
                },
                (_, Some(a)) => match read(a, env, f) {
                    None => None,
                    Some((x, b)) => match expect(b, ", "@) {
                        None => None,
                        Some(c) => match read(c, env, f) {
                            None => None,
                            Some((y, d)) => close(remainder(x, y), d, ")"@),
                        },
                    },
                },
                _ => None,
            },
            'i' => match expect(s, "if(style("@) {
                None => None,
                Some(a) => match expect(a.skip(word_len(a)), ": 1): "@) {
                    None => None,
                    Some(b) => match read(b, env, f) {
                        None => None,
                        Some((x, c)) => match expect(c, "; else: "@) {
                            None => None,
                            Some(d) => match read(d, env, f) {
                                None => None,
                                Some((y, e)) => close(
                                    if env[a.take(word_len(a))] == 1 {
                                        x
                                    } else {
                                        y
                                    },
                                    e,
                                    ")"@,
                                ),
                            },
                        },
                    },
                },
            },
            's' => match expect(s, "sign("@) {
                None => None,
                Some(a) => match read(a, env, f) {
                    None => None,
                    Some((x, b)) => close(sign(x), b, ")"@),
                },
            },
            'a' => match expect(s, "abs("@) {
                None => None,
                Some(a) => match read(a, env, f) {
                    None => None,
                    Some((x, b)) => close(
                        if x < 0 {
                            -x
                        } else {
                            x
                        },
                        b,
                        ")"@,
                    ),
                },
            },
            _ => read_int(s),
        }
    }
}

/// What a written value comes to where custom properties have the given values.
pub open spec fn text_value(text: Seq<char>, env: Map<Seq<char>, int>) -> Option<int> {
    match read(text, env, text.len()) {
        Some((x, rest)) => if rest.len() == 0 {
            Some(x)
        } else {
            None
        },
        None => None,
    }
}

/// Whether all names and integers in a value are such.
pub open spec fn readable(value: CssValue) -> bool
    decreases value,
{
    match value {
        CssValue::Int(numeral) => is_css_integer(numeral),
        CssValue::Var(name) => is_word(name),
        CssValue::VarOrZero(name) => is_word(name),
        CssValue::Neg(x) => readable(*x),
        CssValue::Add(l, r) => readable(*l) && readable(*r),
        CssValue::Sub(l, r) => readable(*l) && readable(*r),
        CssValue::Mul(l, r) => readable(*l) && readable(*r),
        CssValue::Div(l, r) => readable(*l) && readable(*r),
        CssValue::Rem(l, r) => readable(*l) && readable(*r),
        CssValue::IfCond(_, t, f) => readable(*t) && readable(*f),
        CssValue::IfReset(t, f) => readable(*t) && readable(*f),
    }
}

/// How deep a value is nested.
spec fn depth(value: CssValue) -> nat
    decreases value,
{
    match value {
        CssValue::Int(_) => 1,
        CssValue::Var(_) => 1,
        CssValue::VarOrZero(_) => 1,
        CssValue::Neg(x) => 2 + depth(*x),
        CssValue::Add(l, r) => 2 + depth(*l) + depth(*r),
        CssValue::Sub(l, r) => 2 + depth(*l) + depth(*r),
        CssValue::Mul(l, r) => 2 + depth(*l) + depth(*r),
        CssValue::Div(l, r) => 2 + depth(*l) + depth(*r),
        CssValue::Rem(l, r) => 2 + depth(*l) + depth(*r),
        CssValue::IfCond(_, t, f) => 2 + depth(*t) + depth(*f),
        CssValue::IfReset(t, f) => 2 + depth(*t) + depth(*f),
    }
}

/// Whether a value can end where a text starts.
spec fn stops(rest: Seq<char>) -> bool {
    rest.len() > 0 ==> rest.first() == ')' || rest.first() == ';' || rest.first() == ','
}

pub proof fn lemma_expect(lit: Seq<char>, t: Seq<char>)
    ensures
        expect(lit + t, lit) == Some(t),
{
    assert((lit + t).take(lit.len() as int) == lit);
    assert((lit + t).skip(lit.len() as int) == t);
}

pub proof fn lemma_word(w: Seq<char>, t: Seq<char>)
    requires
        forall|i: int| 0 <= i < w.len() ==> !is_delimiter(#[trigger] w[i]),
        t.len() > 0 ==> is_delimiter(t.first()),
    ensures
        word_len(w + t) == w.len(),
        (w + t).take(word_len(w + t)) == w,
        (w + t).skip(word_len(w + t)) == t,
    decreases w.len(),
{
    let s = w + t;
    if w.len() == 0 {
        assert(s == t);
    } else {
        let v = w.drop_first();
        assert(s.drop_first() == v + t);
        assert(s.first() == w[0]);
        assert forall|i: int| 0 <= i < v.len() implies !is_delimiter(#[trigger] v[i]) by {
            assert(!is_delimiter(w[i + 1]));
        }
        lemma_word(v, t);
    }
    assert(s.take(w.len() as int) == w);
    assert(s.skip(w.len() as int) == t);
}

proof fn lemma_digits(d: Seq<char>, t: Seq<char>)
    requires
        forall|i: int| 0 <= i < d.len() ==> '0' <= #[trigger] d[i] <= '9',
        t.len() > 0 ==> !('0' <= t.first() <= '9'),
    ensures
        digits_len(d + t) == d.len(),
    decreases d.len(),
{
    let s = d + t;
    if d.len() == 0 {
        assert(s == t);
    } else {
        let v = d.drop_first();
        assert(s.drop_first() == v + t);
        assert(s.first() == d[0]);
        assert forall|i: int| 0 <= i < v.len() implies '0' <= #[trigger] v[i] <= '9' by {
            assert('0' <= d[i + 1] <= '9');
        }
        lemma_digits(v, t);
    }
}

pub proof fn lemma_read_int(numeral: Seq<char>, t: Seq<char>)
    requires
        is_css_integer(numeral),
        t.len() > 0 ==> !('0' <= t.first() <= '9'),
    ensures
        read_int(numeral + t) == Some((numeral_int(numeral), t)),
{
    let s = numeral + t;
    let sign: int = if numeral.first() == '-' {
        1
    } else {
        0
    };
    assert(s.first() == numeral[0]);
    let d = numeral.skip(sign);
    assert(s.skip(sign) == d + t);
    assert forall|i: int| 0 <= i < d.len() implies '0' <= #[trigger] d[i] <= '9' by {
        assert('0' <= numeral[i + sign] <= '9');
    }
    lemma_digits(d, t);
    assert(s.take(numeral.len() as int) == numeral);
    assert(s.skip(numeral.len() as int) == t);
}

/// The number of a condition makes a name.
pub proof fn lemma_cond_name_word(n: nat)
    ensures
        is_word(cond_name(n)),
{
    reveal_strlit("--veryl-cond-");
    lemma_nat_text_digits(n);
    let name = cond_name(n);
    assert forall|i: int| 0 <= i < name.len() implies !is_delimiter(#[trigger] name[i]) by {
        if i >= 13 {
            assert(name[i] == nat_text(n)[i - 13]);
        }
    }
}

/// How the pieces between written values start and end.
proof fn lemma_pieces()
    ensures
        "calc(("@ == "calc("@ + "("@,
        "calc(-1 * ("@ == "calc("@ + ("-1"@ + (" * "@ + "("@)),
        ") + ("@ == ")"@ + (" + "@ + "("@),
        ") - ("@ == ")"@ + (" - "@ + "("@),
        ") * ("@ == ")"@ + (" * "@ + "("@),
        ") / ("@ == ")"@ + (" / "@ + "("@),
        "), ("@ == ")"@ + (", "@ + "("@),
        "))"@ == ")"@ + ")"@,
        ")), 1)"@ == ")"@ + "), 1)"@,
        "round(to-zero, calc(("@ == "round(to-zero, calc("@ + "("@,
        "rem(("@ == "rem("@ + "("@,
        "if(style(--rst: 1): "@ == "if(style("@ + ("--rst"@ + ": 1): "@),
        ", 0)"@ == ", "@ + ("0"@ + ")"@),
        is_word("--rst"@),
        is_css_integer("-1"@),
        numeral_int("-1"@) == -1,
        is_css_integer("0"@),
        numeral_int("0"@) == 0,
        "calc("@.first() == 'c',
        "var("@.first() == 'v',
        "round(to-zero, calc("@.first() == 'r',
        "rem("@.first() == 'r',
        "if(style("@.first() == 'i',
        "("@.first() == '(' && "("@.len() == 1,
        ")"@.first() == ')',
        "), 1)"@.first() == ')',
        "; else: "@.first() == ';',
        ": 1): "@.first() == ':',
        ", "@.first() == ',',
        " + "@[1] == '+' && " - "@[1] == '-' && " * "@[1] == '*',
        " + "@.len() == 3 && " - "@.len() == 3 && " * "@.len() == 3,
        "rem("@[1] == 'e' && "round(to-zero, calc("@[1] == 'o',
        "calc("@.len() == 5 && "var("@.len() == 4 && "rem("@.len() == 4,
        "round(to-zero, calc("@.len() == 20 && "if(style("@.len() == 9,
        ")"@.len() == 1 && "), 1)"@.len() == 5 && "; else: "@.len() == 8,
        ": 1): "@.len() == 6 && ", "@.len() == 2,
{
    reveal_strlit("calc((");
    reveal_strlit("calc(");
    reveal_strlit("(");
    reveal_strlit(")");
    reveal_strlit("calc(-1 * (");
    reveal_strlit("-1");
    reveal_strlit("0");
    reveal_strlit(" + ");
    reveal_strlit(" - ");
    reveal_strlit(" * ");
    reveal_strlit(" / ");
    reveal_strlit(", ");
    reveal_strlit(") + (");
    reveal_strlit(") - (");
    reveal_strlit(") * (");
    reveal_strlit(") / (");
    reveal_strlit("), (");
    reveal_strlit("))");
    reveal_strlit(")), 1)");
    reveal_strlit("), 1)");
    reveal_strlit("round(to-zero, calc((");
    reveal_strlit("round(to-zero, calc(");
    reveal_strlit("rem((");
    reveal_strlit("rem(");
    reveal_strlit("if(style(--rst: 1): ");
    reveal_strlit("if(style(");
    reveal_strlit("--rst");
    reveal_strlit(": 1): ");
    reveal_strlit(", 0)");
    reveal_strlit("var(");
    reveal_strlit("; else: ");
    assert("-1"@.drop_first() == seq!['1']);
    assert(seq!['1'].drop_last() == Seq::<char>::empty());
    assert("0"@.drop_last() == Seq::<char>::empty());
    assert(numeral_nat(Seq::<char>::empty()) == 0);
    assert(numeral_nat(seq!['1']) == 1);
    assert(numeral_nat("0"@) == 0);
}

/// A written value in parentheses is read as that value.
proof fn lemma_group(value: CssValue, env: Map<Seq<char>, int>, t: Seq<char>, fuel: nat)
    requires
        readable(value),
        fuel >= 1 + depth(value),
    ensures
        read("("@ + value.text() + (")"@ + t), env, fuel) == Some((css_value(value, env), t)),
    decreases depth(value), 1nat,
{
    lemma_pieces();
    let s = "("@ + value.text() + (")"@ + t);
    let inner = value.text() + (")"@ + t);
    assert(s.first() == '(');
    assert(s.skip(1) == inner);
    assert((")"@ + t).first() == ')');
    lemma_read(value, env, ")"@ + t, (fuel - 1) as nat);
    lemma_expect(")"@, t);
}

/// What a sum, difference or product of two values in parentheses is read as.
proof fn lemma_calc(
    l: CssValue,
    op: char,
    r: CssValue,
    env: Map<Seq<char>, int>,
    rest: Seq<char>,
    fuel: nat,
)
    requires
        readable(l),
        readable(r),
        op == '+' || op == '-' || op == '*',
        fuel >= 2 + depth(l) + depth(r),
    ensures
        ({
            let mark = if op == '+' {
                " + "@
            } else if op == '-' {
                " - "@
            } else {
                " * "@
            };
            let x = css_value(l, env);
            let y = css_value(r, env);
            let z = if op == '+' {
                x + y
            } else if op == '-' {
                x - y
            } else {
                x * y
            };
            read(
                "calc("@ + ("("@ + l.text() + (")"@ + (mark + ("("@ + r.text() + (")"@ + (")"@
                    + rest)))))),
                env,
                fuel,
            ) == Some((z, rest))
        }),
    decreases depth(l) + depth(r), 2nat,
{
    lemma_pieces();
    let f = (fuel - 1) as nat;
    let mark = if op == '+' {
        " + "@
    } else if op == '-' {
        " - "@
    } else {
        " * "@
    };
    let h = "("@ + r.text() + (")"@ + (")"@ + rest));
    let g = "("@ + l.text() + (")"@ + (mark + h));
    let s = "calc("@ + g;
    assert(s.first() == 'c');
    lemma_expect("calc("@, g);
    lemma_group(l, env, mark + h, f);
    lemma_expect(mark, h);
    lemma_marks(mark, h);
    lemma_group(r, env, ")"@ + rest, f);
    lemma_expect(")"@, rest);
}

/// The three marks between operands are told apart.
proof fn lemma_marks(mark: Seq<char>, t: Seq<char>)
    requires
        mark == " + "@ || mark == " - "@ || mark == " * "@,
    ensures
        mark != " + "@ ==> expect(mark + t, " + "@) is None,
        mark != " - "@ ==> expect(mark + t, " - "@) is None,
        mark != " * "@ ==> expect(mark + t, " * "@) is None,
        " + "@ != " - "@ && " + "@ != " * "@ && " - "@ != " * "@,
{
    lemma_pieces();
    let s = mark + t;
    assert(s.take(3)[1] == mark[1]);
    assert(s[1] == mark[1]);
}

proof fn lemma_read_quotient(
    l: CssValue,
    r: CssValue,
    env: Map<Seq<char>, int>,
    rest: Seq<char>,
    fuel: nat,
)
    requires
        readable(l),
        readable(r),
        fuel >= 2 + depth(l) + depth(r),
    ensures
        read(
            "round(to-zero, calc("@ + ("("@ + l.text() + (")"@ + (" / "@ + ("("@ + r.text() + (")"@
                + ("), 1)"@ + rest)))))),
            env,
            fuel,
        ) == Some((quotient(css_value(l, env), css_value(r, env)), rest)),
    decreases depth(l) + depth(r), 2nat,
{
    lemma_pieces();
    let f = (fuel - 1) as nat;
    let h = "("@ + r.text() + (")"@ + ("), 1)"@ + rest));
    let g = "("@ + l.text() + (")"@ + (" / "@ + h));
    let s = "round(to-zero, calc("@ + g;
    assert(s.first() == 'r');
    lemma_expect("round(to-zero, calc("@, g);
    lemma_group(l, env, " / "@ + h, f);
    lemma_expect(" / "@, h);
    lemma_group(r, env, "), 1)"@ + rest, f);
    lemma_expect("), 1)"@, rest);
}

proof fn lemma_read_remainder(
    l: CssValue,
    r: CssValue,
    env: Map<Seq<char>, int>,
    rest: Seq<char>,
    fuel: nat,
)
    requires
        readable(l),
        readable(r),
        fuel >= 2 + depth(l) + depth(r),
    ensures
        read(
            "rem("@ + ("("@ + l.text() + (")"@ + (", "@ + ("("@ + r.text() + (")"@ + (")"@
                + rest)))))),
            env,
            fuel,
        ) == Some((remainder(css_value(l, env), css_value(r, env)), rest)),
    decreases depth(l) + depth(r), 2nat,
{
    lemma_pieces();
    let f = (fuel - 1) as nat;
    let h = "("@ + r.text() + (")"@ + (")"@ + rest));
    let g = "("@ + l.text() + (")"@ + (", "@ + h));
    let s = "rem("@ + g;
    assert(s.first() == 'r');
    lemma_expect("rem("@, g);
    assert(expect(s, "round(to-zero, calc("@) is None) by {
        assert(s[1] == 'e');
        if s.len() >= 20 {
            assert(s.take(20)[1] == 'e');
        }
    }
    lemma_group(l, env, ", "@ + h, f);
    lemma_expect(", "@, h);
    lemma_group(r, env, ")"@ + rest, f);
    lemma_expect(")"@, rest);
}

proof fn lemma_read_choice(
    name: Seq<char>,
    t: CssValue,
    e: CssValue,
    env: Map<Seq<char>, int>,
    rest: Seq<char>,
    fuel: nat,
)
    requires
        is_word(name),
        readable(t),
        readable(e),
        fuel >= 2 + depth(t) + depth(e),
    ensures
        read(
            "if(style("@ + (name + (": 1): "@ + (t.text() + ("; else: "@ + (e.text() + (")"@
                + rest)))))),
            env,
            fuel,
        ) == Some(
            (
                if env[name] == 1 {
                    css_value(t, env)
                } else {
                    css_value(e, env)
                },
                rest,
            ),
        ),
    decreases depth(t) + depth(e), 2nat,
{
    lemma_pieces();
    let f = (fuel - 1) as nat;
    let d = e.text() + (")"@ + rest);
    let c = "; else: "@ + d;
    let b = t.text() + c;
    let a = name + (": 1): "@ + b);
    let s = "if(style("@ + a;
    assert(s.first() == 'i');
    lemma_expect("if(style("@, a);
    assert((": 1): "@ + b).first() == ':');
    lemma_word(name, ": 1): "@ + b);
    lemma_expect(": 1): "@, b);
    assert(c.first() == ';');
    lemma_read(t, env, c, f);
    lemma_expect("; else: "@, d);
    assert((")"@ + rest).first() == ')');
    lemma_read(e, env, ")"@ + rest, f);
    lemma_expect(")"@, rest);
}

/// How a written operation on two values falls into pieces.
proof fn lemma_shape(
    open: Seq<char>,
    head: Seq<char>,
    l: Seq<char>,
    mark: Seq<char>,
    middle: Seq<char>,
    r: Seq<char>,
    end: Seq<char>,
    tail: Seq<char>,
    rest: Seq<char>,
)
    requires
        open == head + "("@,
        middle == ")"@ + (mark + "("@),
        end == ")"@ + tail,
    ensures
        open + l + middle + r + end + rest == head + ("("@ + l + (")"@ + (mark + ("("@ + r + (")"@
            + (tail + rest)))))),
{
}

/// How a written choice falls into pieces.
proof fn lemma_choice_shape(
    open: Seq<char>,
    t: Seq<char>,
    e: Seq<char>,
    name: Seq<char>,
    rest: Seq<char>,
)
    requires
        open == "if(style("@ + (name + ": 1): "@),
    ensures
        open + t + "; else: "@ + e + ")"@ + rest == "if(style("@ + (name + (": 1): "@ + (t
            + ("; else: "@ + (e + (")"@ + rest)))))),
{
}

proof fn lemma_read_plain(value: CssValue, env: Map<Seq<char>, int>, rest: Seq<char>, fuel: nat)
    requires
        readable(value),
        stops(rest),
        fuel >= 1,
        value is Int || value is Var || value is VarOrZero,
    ensures
        read(value.text() + rest, env, fuel) == Some((css_value(value, env), rest)),
{
    lemma_pieces();
    let s = value.text() + rest;
    match value {
        CssValue::Int(numeral) => {
            lemma_read_int(numeral, rest);
            assert(s.first() == numeral[0]);
            assert(numeral.first() == '-' || '0' <= numeral[0] <= '9');
        },
        CssValue::Var(name) => {
            let b = ")"@ + rest;
            let a = name + b;
            assert(s == "var("@ + a);
            assert(s.first() == 'v');
            lemma_expect("var("@, a);
            assert(b.first() == ')');
            lemma_word(name, b);
            assert(expect(b, ", "@) is None) by {
                if b.len() >= 2 {
                    assert(b.take(2)[0] == ')');
                }
            }
            lemma_expect(")"@, rest);
        },
        CssValue::VarOrZero(name) => {
            let d = ")"@ + rest;
            let c = "0"@ + d;
            let b = ", "@ + c;
            let a = name + b;
            assert(s == "var("@ + a);
            assert(s.first() == 'v');
            lemma_expect("var("@, a);
            assert(b.first() == ',');
            lemma_word(name, b);
            lemma_expect(", "@, c);
            assert(d.first() == ')');
            lemma_read_int("0"@, d);
            lemma_expect(")"@, rest);
        },
        _ => {},
    }
}

proof fn lemma_read_negation(x: CssValue, env: Map<Seq<char>, int>, rest: Seq<char>, fuel: nat)
    requires
        readable(x),
        fuel >= 2 + depth(x),
    ensures
        read("calc(-1 * ("@ + x.text() + "))"@ + rest, env, fuel) == Some(
            (-1 * css_value(x, env), rest),
        ),
    decreases depth(x), 2nat,
{
    lemma_pieces();
    let s = "calc(-1 * ("@ + x.text() + "))"@ + rest;
    let h = "("@ + x.text() + (")"@ + (")"@ + rest));
    let g = "-1"@ + (" * "@ + h);
    assert(s == "calc("@ + g);
    assert(s.first() == 'c');
    lemma_expect("calc("@, g);
    let f = (fuel - 1) as nat;
    assert(read(g, env, f) == Some((-1int, " * "@ + h))) by {
        reveal_strlit("-1");
        reveal_strlit(" * ");
        assert((" * "@ + h).first() == ' ');
        lemma_read_int("-1"@, " * "@ + h);
        assert(g.first() == '-');
    }
    lemma_expect(" * "@, h);
    lemma_marks(" * "@, h);
    lemma_group(x, env, ")"@ + rest, f);
    lemma_expect(")"@, rest);
}

proof fn lemma_read(value: CssValue, env: Map<Seq<char>, int>, rest: Seq<char>, fuel: nat)
    requires
        readable(value),
        stops(rest),
        fuel >= depth(value),
    ensures
        read(value.text() + rest, env, fuel) == Some((css_value(value, env), rest)),
    decreases depth(value), 0nat,
{
    lemma_pieces();
    match value {
        CssValue::Neg(x) => {
            lemma_read_negation(*x, env, rest, fuel);
        },
        CssValue::Add(l, r) => {
            lemma_shape(
                "calc(("@,
                "calc("@,
                l.text(),
                " + "@,
                ") + ("@,
                r.text(),
                "))"@,
                ")"@,
                rest,
            );
            lemma_calc(*l, '+', *r, env, rest, fuel);
        },
        CssValue::Sub(l, r) => {
            lemma_shape(
                "calc(("@,
                "calc("@,
                l.text(),
                " - "@,
                ") - ("@,
                r.text(),
                "))"@,
                ")"@,
                rest,
            );
            lemma_calc(*l, '-', *r, env, rest, fuel);
        },
        CssValue::Mul(l, r) => {
            lemma_shape(
                "calc(("@,
                "calc("@,
                l.text(),
                " * "@,
                ") * ("@,
                r.text(),
                "))"@,
                ")"@,
                rest,
            );
            lemma_calc(*l, '*', *r, env, rest, fuel);
        },
        CssValue::Div(l, r) => {
            lemma_shape(
                "round(to-zero, calc(("@,
                "round(to-zero, calc("@,
                l.text(),
                " / "@,
                ") / ("@,
                r.text(),
                ")), 1)"@,
                "), 1)"@,
                rest,
            );
            lemma_read_quotient(*l, *r, env, rest, fuel);
        },
        CssValue::Rem(l, r) => {
            lemma_shape("rem(("@, "rem("@, l.text(), ", "@, "), ("@, r.text(), "))"@, ")"@, rest);
            lemma_read_remainder(*l, *r, env, rest, fuel);
        },
        CssValue::IfCond(n, t, e) => {
            let name = cond_name(n);
            assert("if(style("@ + name + ": 1): "@ == "if(style("@ + (name + ": 1): "@));
            lemma_choice_shape("if(style("@ + name + ": 1): "@, t.text(), e.text(), name, rest);
            lemma_cond_name_word(n);
            lemma_read_choice(name, *t, *e, env, rest, fuel);
        },
        CssValue::IfReset(t, e) => {
            lemma_choice_shape("if(style(--rst: 1): "@, t.text(), e.text(), "--rst"@, rest);
            lemma_read_choice("--rst"@, *t, *e, env, rest, fuel);
        },
        _ => {
            lemma_read_plain(value, env, rest, fuel);
        },
    }
}

/// A value is no deeper nested than it is long.
proof fn lemma_depth(value: CssValue)
    requires
        readable(value),
    ensures
        1 <= depth(value) <= value.text().len(),
    decreases value,
{
    lemma_pieces();
    match value {
        CssValue::Neg(x) => {
            lemma_depth(*x);
        },
        CssValue::Add(l, r) => {
            lemma_depth(*l);
            lemma_depth(*r);
        },
        CssValue::Sub(l, r) => {
            lemma_depth(*l);
            lemma_depth(*r);
        },
        CssValue::Mul(l, r) => {
            lemma_depth(*l);
            lemma_depth(*r);
        },
        CssValue::Div(l, r) => {
            lemma_depth(*l);
            lemma_depth(*r);
        },
        CssValue::Rem(l, r) => {
            lemma_depth(*l);
            lemma_depth(*r);
        },
        CssValue::IfCond(_, t, e) => {
            lemma_depth(*t);
            lemma_depth(*e);
        },
        CssValue::IfReset(t, e) => {
            lemma_depth(*t);
            lemma_depth(*e);
        },
        _ => {},
    }
}

/// Law: a written value, read as CSS, comes to what the value comes to, whatever the custom
/// properties hold.
pub proof fn law_written_value(value: CssValue, env: Map<Seq<char>, int>)
    requires
        readable(value),
    ensures
        text_value(value.text(), env) == Some(css_value(value, env)),
{
    let text = value.text();
    lemma_depth(value);
    lemma_read(value, env, Seq::empty(), text.len());
    assert(text + Seq::<char>::empty() == text);
}

/// Reads a call with two arguments: the name of the function and what the arguments come to.
pub open spec fn read_call(text: Seq<char>, env: Map<Seq<char>, int>) -> Option<
    (Seq<char>, int, int),
> {
    let name = text.take(word_len(text));
    match expect(text.skip(word_len(text)), "("@) {
        None => None,
        Some(a) => match read(a, env, text.len()) {
            None => None,
            Some((x, b)) => match expect(b, ", "@) {
                None => None,
                Some(c) => match read(c, env, text.len()) {
                    None => None,
                    Some((y, d)) => if d == ")"@ {
                        Some((name, x, y))
                    } else {
                        None
                    },
                },
            },
        },
    }
}

/// The functions of comparisons have names.
pub proof fn lemma_comp_name_word(f: CompFn)
    ensures
        is_word(comp_name(f)),
{
    match f {
        CompFn::Lt => {
            reveal_strlit("--veryl-lt");
        },
        CompFn::Lte => {
            reveal_strlit("--veryl-lte");
        },
        CompFn::Gt => {
            reveal_strlit("--veryl-gt");
        },
        CompFn::Gte => {
            reveal_strlit("--veryl-gte");
        },
        CompFn::Eq => {
            reveal_strlit("--veryl-eq");
        },
        CompFn::Neq => {
            reveal_strlit("--veryl-neq");
        },
    }
}

/// Law: a written condition, read as CSS, calls the function of its comparison with what the two
/// sides come to, in their order.
pub proof fn law_written_condition(cond: CssCond, env: Map<Seq<char>, int>)
    requires
        readable(cond.l),
        readable(cond.r),
    ensures
        read_call(cond.text(), env) == Some(
            (comp_name(cond.f), css_value(cond.l, env), css_value(cond.r, env)),
        ),
{
    lemma_pieces();
    let text = cond.text();
    let name = comp_name(cond.f);
    let c = cond.r.text() + ")"@;
    let a = cond.l.text() + (", "@ + c);
    lemma_comp_name_word(cond.f);
    lemma_depth(cond.l);
    lemma_depth(cond.r);
    assert(text == name + ("("@ + a));
    assert(("("@ + a).first() == '(');
    lemma_word(name, "("@ + a);
    lemma_expect("("@, a);
    assert((", "@ + c).first() == ',');
    lemma_read(cond.l, env, ", "@ + c, text.len());
    lemma_expect(", "@, c);
    lemma_read(cond.r, env, ")"@, text.len());
}

/// Reads a declaration: the custom property that it sets, and what it sets it to.
pub open spec fn read_line(text: Seq<char>) -> Option<(Seq<char>, Seq<char>)> {
    let name = text.take(word_len(text));
    match expect(text.skip(word_len(text)), ": "@) {
        None => None,
        Some(value) => if value.len() > 0 && value.last() == ';' {
            Some((name, value.drop_last()))
        } else {
            None
        },
    }
}

pub proof fn lemma_read_line(name: Seq<char>, value: Seq<char>)
    requires
        is_word(name),
    ensures
        read_line(name + ": "@ + value + ";"@) == Some((name, value)),
{
    reveal_strlit(": ");
    reveal_strlit(";");
    let text = name + ": "@ + value + ";"@;
    let tail = value + ";"@;
    assert(text == name + (": "@ + tail));
    assert((": "@ + tail).first() == ':');
    lemma_word(name, ": "@ + tail);
    lemma_expect(": "@, tail);
    assert(tail.drop_last() == value);
    assert(tail.last() == ';');
}

/// Law: a written declaration, read as CSS, sets the custom property that it is for: that of the
/// numbered condition to the condition, a named one to its value.
pub proof fn law_written_line(line: CssLine)
    requires
        line matches CssLine::Assign(name, _) ==> is_word(name),
    ensures
        read_line(line.text()) == (match line {
            CssLine::Cond(n, cond) => Some((cond_name(n), cond.text())),
            CssLine::Assign(name, value) => Some((name, value.text())),
        }),
{
    match line {
        CssLine::Cond(n, cond) => {
            lemma_cond_name_word(n);
            lemma_read_line(cond_name(n), cond.text());
        },
        CssLine::Assign(name, value) => {
            lemma_read_line(name, value.text());
        },
    }
}

} // verus!
