//! Conditional statements, evaluated into one value per assigned variable.

use std::collections::{BTreeMap, BTreeSet};

use vstd::prelude::*;

use crate::context::Ctx;
use crate::css::{comp_fns, cond_lines, cond_name, line_texts, CompFn, CssCond, CssValue};
use crate::error::Error;
use crate::expr::{assign_css, condition_css, emit_condition, id_text, show_id, unpack_assign_expr};
use crate::ir::{IfStatement, Statement};
use crate::order::{ascending, lemma_ascending, sorted_keys, sorted_set, views};
use crate::text::texts;

verus! {

broadcast use vstd::std_specs::btree::group_btree_axioms;

/// What a branch comes to: the conditions it needs, in the order of their numbers, and the value
/// of each variable that it assigns.
pub struct Branch {
    pub conds: Seq<CssCond>,
    pub values: Map<u32, CssValue>,
}

/// How values are written.
pub open spec fn value_texts(values: Map<u32, CssValue>) -> Map<u32, Seq<char>> {
    values.map_values(|value: CssValue| value.text())
}

/// The values of the given variables, each chosen from two by the numbered condition. Every
/// variable has to have a value on both sides; the first that lacks one decides the error.
pub open spec fn select_values(
    ids: Seq<u32>,
    on_true: Map<u32, CssValue>,
    on_false: Map<u32, CssValue>,
    n: nat,
) -> Result<Map<u32, CssValue>, Seq<char>>
    decreases ids.len(),
{
    if ids.len() == 0 {
        Ok(Map::empty())
    } else {
        match select_values(ids.drop_last(), on_true, on_false, n) {
            Err(message) => Err(message),
            Ok(values) => {
                let id = ids.last();
                if !on_true.contains_key(id) {
                    Err("variable "@ + id_text(id) + " not assigned in true branch of if"@)
                } else if !on_false.contains_key(id) {
                    Err("variable "@ + id_text(id) + " not assigned in false branch of if"@)
                } else {
                    Ok(
                        values.insert(
                            id,
                            CssValue::IfCond(
                                n,
                                Box::new(on_true[id]),
                                Box::new(on_false[id]),
                            ),
                        ),
                    )
                }
            },
        }
    }
}

/// What a conditional statement comes to, its condition having the number `n`.
pub open spec fn if_css(stmt: IfStatement, names: Map<u32, Seq<char>>, n: nat) -> Result<
    Branch,
    Seq<char>,
>
    decreases stmt,
{
    match condition_css(stmt.cond, stmt.cond_text@, names) {
        Err(message) => Err(message),
        Ok(cond) => match branch_css(stmt.true_side@, names, n + 1) {
            Err(message) => Err(message),
            Ok(t) => match branch_css(stmt.false_side@, names, n + 1 + t.conds.len()) {
                Err(message) => Err(message),
                Ok(f) => match select_values(
                    ascending(t.values.dom() + f.values.dom()),
                    t.values,
                    f.values,
                    n,
                ) {
                    Err(message) => Err(message),
                    Ok(values) => Ok(Branch { conds: seq![cond] + t.conds + f.conds, values }),
                },
            },
        },
    }
}

/// What a list of statements comes to, conditions being numbered from `n` on. A later assignment
/// to a variable replaces an earlier one.
pub open spec fn branch_css(stmts: Seq<Statement>, names: Map<u32, Seq<char>>, n: nat) -> Result<
    Branch,
    Seq<char>,
>
    decreases stmts,
{
    if stmts.len() == 0 {
        Ok(Branch { conds: Seq::empty(), values: Map::empty() })
    } else {
        match branch_css(stmts.drop_last(), names, n) {
            Err(message) => Err(message),
            Ok(before) => match stmts.last() {
                Statement::Assign(assign) => match assign_css(assign, names) {
                    Err(message) => Err(message),
                    Ok((id, value)) => Ok(
                        Branch { conds: before.conds, values: before.values.insert(id, value) },
                    ),
                },
                Statement::If(stmt) => match if_css(stmt, names, n + before.conds.len()) {
                    Err(message) => Err(message),
                    Ok(nested) => Ok(
                        Branch {
                            conds: before.conds + nested.conds,
                            values: before.values.union_prefer_right(nested.values),
                        },
                    ),
                },
                Statement::Null => Ok(before),
                Statement::IfReset(stmt) => Err("unsupported statement in branch: "@ + stmt.text@),
                Statement::Other(text) => Err("unsupported statement in branch: "@ + text@),
            },
        }
    }
}

/// An error in some first statements is the error of all of them.
proof fn lemma_branch_error(stmts: Seq<Statement>, k: int, names: Map<u32, Seq<char>>, n: nat)
    requires
        0 <= k <= stmts.len(),
        branch_css(stmts.take(k), names, n) is Err,
    ensures
        branch_css(stmts, names, n) == branch_css(stmts.take(k), names, n),
    decreases stmts.len(),
{
    if k == stmts.len() {
        assert(stmts.take(k) == stmts);
    } else {
        assert(stmts.drop_last().take(k) == stmts.take(k));
        lemma_branch_error(stmts.drop_last(), k, names, n);
    }
}

/// An error at some first variables is the error of all of them.
proof fn lemma_select_error(
    ids: Seq<u32>,
    k: int,
    on_true: Map<u32, CssValue>,
    on_false: Map<u32, CssValue>,
    n: nat,
)
    requires
        0 <= k <= ids.len(),
        select_values(ids.take(k), on_true, on_false, n) is Err,
    ensures
        select_values(ids, on_true, on_false, n) == select_values(
            ids.take(k),
            on_true,
            on_false,
            n,
        ),
    decreases ids.len(),
{
    if k == ids.len() {
        assert(ids.take(k) == ids);
    } else {
        assert(ids.drop_last().take(k) == ids.take(k));
        lemma_select_error(ids.drop_last(), k, on_true, on_false, n);
    }
}

/// A choice succeeds if and only if all variables have values on both sides.
pub proof fn lemma_select(
    ids: Seq<u32>,
    on_true: Map<u32, CssValue>,
    on_false: Map<u32, CssValue>,
    n: nat,
)
    ensures
        select_values(ids, on_true, on_false, n) is Ok <==> (forall|id: u32| #[trigger]
            ids.contains(id) ==> on_true.contains_key(id) && on_false.contains_key(id)),
        select_values(ids, on_true, on_false, n) matches Ok(values) ==> values == Map::new(
            |id: u32| ids.contains(id),
            |id: u32| CssValue::IfCond(n, Box::new(on_true[id]), Box::new(on_false[id])),
        ),
    decreases ids.len(),
{
    if ids.len() > 0 {
        let rest = ids.drop_last();
        let last = ids.last();
        lemma_select(rest, on_true, on_false, n);
        assert(ids.contains(last)) by {
            assert(ids[ids.len() - 1] == last);
        }
        assert forall|id: u32| #[trigger] ids.contains(id) <==> rest.contains(id) || id == last by {
            if ids.contains(id) {
                let k = ids.index_of(id);
                assert(k < rest.len() ==> rest[k] == id);
            }
            if rest.contains(id) {
                let k = rest.index_of(id);
                assert(ids[k] == id);
            }
        }
        if select_values(ids, on_true, on_false, n) is Ok {
            assert forall|id: u32| #[trigger] ids.contains(id) implies on_true.contains_key(id)
                && on_false.contains_key(id) by {
                assert(rest.contains(id) || id == last);
            }
            let values = select_values(ids, on_true, on_false, n)->Ok_0;
            assert(values == Map::new(
                |id: u32| ids.contains(id),
                |id: u32| CssValue::IfCond(n, Box::new(on_true[id]), Box::new(on_false[id])),
            ));
        } else if forall|id: u32| #[trigger]
            ids.contains(id) ==> on_true.contains_key(id) && on_false.contains_key(id) {
            assert forall|id: u32| #[trigger] rest.contains(id) implies on_true.contains_key(id)
                && on_false.contains_key(id) by {
                assert(ids.contains(id));
            }
        }
    }
}

/// Law: a conditional statement whose parts are accepted is accepted if and only if both of its
/// sides assign the same variables. Its values then are those of its sides, chosen by its
/// condition.
pub proof fn law_if_balanced(stmt: IfStatement, names: Map<u32, Seq<char>>, n: nat)
    requires
        condition_css(stmt.cond, stmt.cond_text@, names) is Ok,
        branch_css(stmt.true_side@, names, n + 1) is Ok,
        ({
            let t = branch_css(stmt.true_side@, names, n + 1)->Ok_0;
            branch_css(stmt.false_side@, names, n + 1 + t.conds.len()) is Ok
        }),
    ensures
        ({
            let t = branch_css(stmt.true_side@, names, n + 1)->Ok_0;
            let f = branch_css(stmt.false_side@, names, n + 1 + t.conds.len())->Ok_0;
            &&& if_css(stmt, names, n) is Ok <==> t.values.dom() == f.values.dom()
            &&& if_css(stmt, names, n) matches Ok(branch) ==> branch.values == Map::new(
                |id: u32| t.values.contains_key(id),
                |id: u32| CssValue::IfCond(n, Box::new(t.values[id]), Box::new(f.values[id])),
            )
        }),
{
    let t = branch_css(stmt.true_side@, names, n + 1)->Ok_0;
    let f = branch_css(stmt.false_side@, names, n + 1 + t.conds.len())->Ok_0;
    let both = t.values.dom() + f.values.dom();
    let ids = ascending(both);
    lemma_ascending(both);
    lemma_select(ids, t.values, f.values, n);
    if if_css(stmt, names, n) is Ok {
        assert forall|id: u32| t.values.dom().contains(id) <==> f.values.dom().contains(id) by {
            if both.contains(id) {
                assert(ids.contains(id));
            }
        }
        assert(t.values.dom() == f.values.dom());
        let branch = if_css(stmt, names, n)->Ok_0;
        assert forall|id: u32| #[trigger] ids.contains(id) <==> t.values.contains_key(id) by {}
        assert(branch.values == Map::new(
            |id: u32| t.values.contains_key(id),
            |id: u32| CssValue::IfCond(n, Box::new(t.values[id]), Box::new(f.values[id])),
        ));
    }
    if t.values.dom() == f.values.dom() {
        assert forall|id: u32| #[trigger] ids.contains(id) implies t.values.contains_key(id)
            && f.values.contains_key(id) by {
            assert(both.contains(id));
        }
    }
}

/// Lines and comparisons of joined conditions are those of their parts.
pub proof fn lemma_conds_add(n: nat, a: Seq<CssCond>, b: Seq<CssCond>)
    ensures
        line_texts(cond_lines(n, a + b)) == line_texts(cond_lines(n, a)) + line_texts(
            cond_lines(n + a.len(), b),
        ),
        comp_fns(a + b) == comp_fns(a) + comp_fns(b),
{
    let fns = |cond: CssCond| cond.f;
    let x = (a + b).map_values(fns);
    let y = a.map_values(fns);
    let z = b.map_values(fns);
    assert(x == y + z);
    assert forall|f: CompFn| x.to_set().contains(f) <==> (y.to_set() + z.to_set()).contains(f) by {
        if x.contains(f) {
            let i = x.index_of(f);
            if i < y.len() {
                assert(y[i] == f);
            } else {
                assert(z[i - y.len()] == f);
            }
        }
        if y.contains(f) {
            let i = y.index_of(f);
            assert(x[i] == f);
        }
        if z.contains(f) {
            let i = z.index_of(f);
            assert(x[i + y.len()] == f);
        }
    }
    assert(x.to_set() == y.to_set() + z.to_set());
}

/// Puts all entries of a map into another, where they replace those of the same variables.
fn extend_values(map: &mut BTreeMap<u32, String>, from: &BTreeMap<u32, String>)
    ensures
        views(final(map)@) == views(old(map)@).union_prefer_right(views(from@)),
{
    let ids = sorted_keys(from);
    let ghost before = views(map@);
    proof {
        lemma_ascending(from@.dom());
    }
    assert(ids@.take(0).to_set() == Set::<u32>::empty());
    for i in 0..ids.len()
        invariant
            ids@ == ascending(from@.dom()),
            forall|id: u32| #[trigger] ids@.contains(id) <==> from@.contains_key(id),
            views(map@) == before.union_prefer_right(
                views(from@).restrict(ids@.take(i as int).to_set()),
            ),
    {
        let id: u32 = ids[i];
        assert(ids@.contains(id));
        let ghost prior = views(map@);
        if let Some(text) = from.get(&id) {
            map.insert(id, text.clone());
            assert(views(map@) == prior.insert(id, text@));
        }
        assert(views(map@) == prior.insert(id, views(from@)[id]));
        proof {
            let s = ids@.take(i as int);
            let t = ids@.take(i + 1);
            assert(t == s.push(id));
            s.lemma_push_to_set_commute(id);
            assert(views(from@).restrict(t.to_set()) == views(from@).restrict(s.to_set()).insert(
                id,
                views(from@)[id],
            ));
            assert(views(map@) == before.union_prefer_right(views(from@).restrict(t.to_set())));
        }
    }
    proof {
        assert(ids@.take(ids@.len() as int) == ids@);
        assert(views(from@).restrict(ids@.to_set()) == views(from@));
    }
}

/// Puts numbers into a set.
pub fn insert_all(set: &mut BTreeSet<u32>, ids: &Vec<u32>)
    ensures
        final(set)@ == old(set)@ + ids@.to_set(),
{
    let ghost before = set@;
    assert(ids@.take(0).to_set() == Set::<u32>::empty());
    assert(set@ == before + ids@.take(0).to_set());
    for i in 0..ids.len()
        invariant
            set@ == before + ids@.take(i as int).to_set(),
    {
        set.insert(ids[i]);
        proof {
            let s = ids@.take(i as int);
            let t = ids@.take(i + 1);
            assert(t == s.push(ids@[i as int]));
            s.lemma_push_to_set_commute(ids@[i as int]);
            assert(set@ == before + t.to_set());
        }
    }
    assert(ids@.take(ids@.len() as int) == ids@);
}

/// The variables that have a value in either of two maps, in ascending order.
pub fn union_keys(a: &BTreeMap<u32, String>, b: &BTreeMap<u32, String>) -> (ids: Vec<u32>)
    ensures
        ids@ == ascending(a@.dom() + b@.dom()),
{
    let mut all_ids: BTreeSet<u32> = BTreeSet::new();
    let a_ids = sorted_keys(a);
    let b_ids = sorted_keys(b);
    insert_all(&mut all_ids, &a_ids);
    insert_all(&mut all_ids, &b_ids);
    proof {
        lemma_ascending(a@.dom());
        lemma_ascending(b@.dom());
        assert(a_ids@.to_set() == a@.dom());
        assert(b_ids@.to_set() == b@.dom());
        assert(all_ids@ == a@.dom() + b@.dom());
    }
    sorted_set(&all_ids)
}

/// Lines at the beginning of lines at the beginning of others are at the beginning of these.
proof fn lemma_prefix_transitive(a: Seq<Seq<char>>, b: Seq<Seq<char>>, c: Seq<Seq<char>>)
    requires
        a.is_prefix_of(b),
        b.is_prefix_of(c),
    ensures
        a.is_prefix_of(c),
{
    assert forall|i: int| 0 <= i < a.len() implies a[i] == c[i] by {
        assert(a[i] == b[i]);
        assert(b[i] == c[i]);
    }
    assert(a == c.subrange(0, a.len() as int));
}

/// Evaluates a list of statements into the value of each variable that they assign.
///
/// Nested conditional statements become conditional values. The conditions they need are added to
/// `preamble`, in the order in which they are met.
pub fn eval_branch(stmts: &Vec<Statement>, ctx: &mut Ctx, preamble: &mut Vec<String>) -> (r: Result<
    BTreeMap<u32, String>,
    Error,
>)
    requires
        old(ctx).wf(),
    ensures
        final(ctx).wf(),
        final(ctx).names == old(ctx).names,
        texts(old(preamble)@).is_prefix_of(texts(final(preamble)@)),
        old(ctx).cond_counter@ <= final(ctx).cond_counter@,
        old(ctx).used_comp_fns@.subset_of(final(ctx).used_comp_fns@),
        match branch_css(stmts@, views(old(ctx).names@), old(ctx).cond_counter@) {
            Ok(branch) => {
                &&& r matches Ok(map) && views(map@) == value_texts(branch.values)
                &&& final(ctx).cond_counter@ == old(ctx).cond_counter@ + branch.conds.len()
                &&& final(ctx).used_comp_fns@ == old(ctx).used_comp_fns@ + comp_fns(branch.conds)
                &&& texts(final(preamble)@) == texts(old(preamble)@) + line_texts(
                    cond_lines(old(ctx).cond_counter@, branch.conds),
                )
            },
            Err(message) => r matches Err(error) && error.message@ == message,
        },
    decreases stmts,
{
    let ghost names = views(ctx.names@);
    let ghost n = ctx.cond_counter@;
    let ghost used = ctx.used_comp_fns@;
    let ghost lines = texts(preamble@);
    let mut map: BTreeMap<u32, String> = BTreeMap::new();
    let ghost mut done = Branch { conds: Seq::empty(), values: Map::empty() };
    proof {
        assert(stmts@.take(0) == Seq::<Statement>::empty());
        assert(views(map@) == value_texts(done.values));
        assert(comp_fns(done.conds) == Set::<CompFn>::empty());
        assert(used + comp_fns(done.conds) == used);
        assert(lines + line_texts(cond_lines(n, done.conds)) == lines);
    }
    for i in 0..stmts.len()
        invariant
            ctx.wf(),
            ctx.names == old(ctx).names,
            names == views(old(ctx).names@),
            n == old(ctx).cond_counter@,
            used == old(ctx).used_comp_fns@,
            lines == texts(old(preamble)@),
            branch_css(stmts@.take(i as int), names, n) == Ok::<Branch, Seq<char>>(done),
            views(map@) == value_texts(done.values),
            ctx.cond_counter@ == n + done.conds.len(),
            ctx.used_comp_fns@ == used + comp_fns(done.conds),
            texts(preamble@) == lines + line_texts(cond_lines(n, done.conds)),
    {
        let ghost upto = stmts@.take(i + 1);
        proof {
            assert(upto.drop_last() == stmts@.take(i as int));
            assert(upto.last() == stmts@[i as int]);
            if branch_css(upto, names, n) is Err {
                lemma_branch_error(stmts@, i + 1, names, n);
            }
            assert(lines.is_prefix_of(texts(preamble@)));
        }
        let ghost here = texts(preamble@);
        match &stmts[i] {
            Statement::Assign(assign) => {
                let (dst, expr) = unpack_assign_expr(assign, ctx.names)?;
                let ghost prior = views(map@);
                map.insert(dst.id, expr);
                proof {
                    let (id, value) = assign_css(*assign, names)->Ok_0;
                    assert(views(map@) == prior.insert(id, value.text()));
                    done = Branch { conds: done.conds, values: done.values.insert(id, value) };
                    assert(views(map@) == value_texts(done.values));
                }
            },
            Statement::If(stmt) => {
                let nested_map = match eval_if_expr(stmt, ctx, preamble) {
                    Ok(nested_map) => nested_map,
                    Err(error) => {
                        proof {
                            lemma_prefix_transitive(lines, here, texts(preamble@));
                        }
                        return Err(error);
                    },
                };
                extend_values(&mut map, &nested_map);
                proof {
                    let nested = if_css(*stmt, names, n + done.conds.len())->Ok_0;
                    lemma_conds_add(n, done.conds, nested.conds);
                    let values = done.values.union_prefer_right(nested.values);
                    assert(value_texts(values) == value_texts(done.values).union_prefer_right(
                        value_texts(nested.values),
                    ));
                    done = Branch { conds: done.conds + nested.conds, values };
                }
            },
            Statement::Null => {},
            Statement::IfReset(stmt) => {
                return Err(Error::about("unsupported statement in branch: ", &stmt.text));
            },
            Statement::Other(text) => {
                return Err(Error::about("unsupported statement in branch: ", text));
            },
        }
    }
    assert(stmts@.take(stmts@.len() as int) == stmts@);
    assert(lines.is_prefix_of(texts(preamble@)));
    Ok(map)
}

/// Evaluates a conditional statement into the value of each variable that it assigns.
///
/// The condition is added to `preamble`, before those of the statements inside.
pub fn eval_if_expr(if_stmt: &IfStatement, ctx: &mut Ctx, preamble: &mut Vec<String>) -> (r: Result<
    BTreeMap<u32, String>,
    Error,
>)
    requires
        old(ctx).wf(),
    ensures
        final(ctx).wf(),
        final(ctx).names == old(ctx).names,
        texts(old(preamble)@).is_prefix_of(texts(final(preamble)@)),
        old(ctx).cond_counter@ <= final(ctx).cond_counter@,
        old(ctx).used_comp_fns@.subset_of(final(ctx).used_comp_fns@),
        match if_css(*if_stmt, views(old(ctx).names@), old(ctx).cond_counter@) {
            Ok(branch) => {
                &&& r matches Ok(map) && views(map@) == value_texts(branch.values)
                &&& final(ctx).cond_counter@ == old(ctx).cond_counter@ + branch.conds.len()
                &&& final(ctx).used_comp_fns@ == old(ctx).used_comp_fns@ + comp_fns(branch.conds)
                &&& texts(final(preamble)@) == texts(old(preamble)@) + line_texts(
                    cond_lines(old(ctx).cond_counter@, branch.conds),
                )
            },
            Err(message) => r matches Err(error) && error.message@ == message,
        },
    decreases if_stmt,
{
    let ghost names = views(ctx.names@);
    let ghost n = ctx.cond_counter@;
    let cond_var = ctx.next_cond_var();
    let cond_css = emit_condition(&if_stmt.cond, &if_stmt.cond_text, ctx)?;
    let mut line = cond_var.clone();
    line.append(": ");
    line.append(&cond_css);
    line.append(";");
    preamble.push(line);
    let ghost cond = condition_css(if_stmt.cond, if_stmt.cond_text@, names)->Ok_0;
    proof {
        assert(texts(preamble@) == texts(old(preamble)@) + line_texts(cond_lines(n, seq![cond])));
        assert(comp_fns(seq![cond]) == set![cond.f]) by {
            assert(seq![cond].map_values(|cond: CssCond| cond.f) == seq![cond.f]);
            assert(seq![cond.f][0] == cond.f);
            assert forall|f: CompFn| seq![cond.f].to_set().contains(f) <==> set![cond.f].contains(
                f,
            ) by {
                if seq![cond.f].contains(f) {
                }
            }
        }
        assert(ctx.used_comp_fns@ == old(ctx).used_comp_fns@ + comp_fns(seq![cond]));
    }
    let ghost lines = texts(old(preamble)@);
    let ghost with_cond = texts(preamble@);
    assert(lines.is_prefix_of(with_cond));
    let true_exprs = match eval_branch(&if_stmt.true_side, ctx, preamble) {
        Ok(true_exprs) => true_exprs,
        Err(error) => {
            proof {
                lemma_prefix_transitive(lines, with_cond, texts(preamble@));
            }
            return Err(error);
        },
    };
    let ghost with_true = texts(preamble@);
    proof {
        lemma_prefix_transitive(lines, with_cond, with_true);
    }
    let false_exprs = match eval_branch(&if_stmt.false_side, ctx, preamble) {
        Ok(false_exprs) => false_exprs,
        Err(error) => {
            proof {
                lemma_prefix_transitive(lines, with_true, texts(preamble@));
            }
            return Err(error);
        },
    };
    proof {
        lemma_prefix_transitive(lines, with_true, texts(preamble@));
    }
    let ghost t = branch_css(if_stmt.true_side@, names, n + 1)->Ok_0;
    let ghost f = branch_css(if_stmt.false_side@, names, n + 1 + t.conds.len())->Ok_0;
    let ids = union_keys(&true_exprs, &false_exprs);
    proof {
        lemma_conds_add(n, seq![cond], t.conds);
        lemma_conds_add(n, seq![cond] + t.conds, f.conds);
        assert(true_exprs@.dom() == views(true_exprs@).dom());
        assert(value_texts(t.values).dom() == t.values.dom());
        assert(false_exprs@.dom() == views(false_exprs@).dom());
        assert(value_texts(f.values).dom() == f.values.dom());
    }
    let mut result: BTreeMap<u32, String> = BTreeMap::new();
    let ghost mut chosen: Map<u32, CssValue> = Map::empty();
    assert(views(result@) == value_texts(chosen));
    for i in 0..ids.len()
        invariant
            cond_var@ == cond_name(n),
            views(true_exprs@) == value_texts(t.values),
            views(false_exprs@) == value_texts(f.values),
            select_values(ids@.take(i as int), t.values, f.values, n) == Ok::<
                Map<u32, CssValue>,
                Seq<char>,
            >(chosen),
            views(result@) == value_texts(chosen),
            ids@ == ascending(t.values.dom() + f.values.dom()),
            if_css(*if_stmt, names, n) is Err <==> select_values(
                ids@,
                t.values,
                f.values,
                n,
            ) is Err,
            if_css(*if_stmt, names, n) is Err ==> if_css(*if_stmt, names, n)->Err_0
                == select_values(ids@, t.values, f.values, n)->Err_0,
            names == views(old(ctx).names@),
            n == old(ctx).cond_counter@,
            ctx.wf(),
            ctx.names == old(ctx).names,
            texts(old(preamble)@).is_prefix_of(texts(preamble@)),
            old(ctx).cond_counter@ <= ctx.cond_counter@,
            old(ctx).used_comp_fns@.subset_of(ctx.used_comp_fns@),
    {
        let id: u32 = ids[i];
        let ghost upto = ids@.take(i + 1);
        proof {
            assert(upto.drop_last() == ids@.take(i as int));
            assert(upto.last() == id);
            if select_values(upto, t.values, f.values, n) is Err {
                lemma_select_error(ids@, i + 1, t.values, f.values, n);
            }
            assert(true_exprs@.contains_key(id) == views(true_exprs@).contains_key(id));
            assert(false_exprs@.contains_key(id) == views(false_exprs@).contains_key(id));
        }
        let true_val = match true_exprs.get(&id) {
            Some(text) => text,
            None => {
                let mut message = "variable ".to_owned();
                message.append(&show_id(id));
                message.append(" not assigned in true branch of if");
                return Err(Error { message });
            },
        };
        let false_val = match false_exprs.get(&id) {
            Some(text) => text,
            None => {
                let mut message = "variable ".to_owned();
                message.append(&show_id(id));
                message.append(" not assigned in false branch of if");
                return Err(Error { message });
            },
        };
        let mut value = "if(style(".to_owned();
        value.append(&cond_var);
        value.append(": 1): ");
        value.append(true_val);
        value.append("; else: ");
        value.append(false_val);
        value.append(")");
        let ghost prior = views(result@);
        let ghost css = CssValue::IfCond(n, Box::new(t.values[id]), Box::new(f.values[id]));
        proof {
            assert(true_val@ == views(true_exprs@)[id]);
            assert(false_val@ == views(false_exprs@)[id]);
            assert(value@ == css.text());
        }
        result.insert(id, value);
        proof {
            assert(views(result@) == prior.insert(id, css.text()));
            chosen = chosen.insert(id, css);
            assert(views(result@) == value_texts(chosen));
        }
    }
    assert(ids@.take(ids@.len() as int) == ids@);
    Ok(result)
}

} // verus!
