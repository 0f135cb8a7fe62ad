//! The statements of `always_comb` and `always_ff` blocks, turned into declarations.

use std::collections::BTreeMap;

use vstd::prelude::*;

use crate::branch::{
    branch_css, eval_branch, eval_if_expr, if_css, lemma_conds_add, union_keys, value_texts,
};
use crate::context::Ctx;
use crate::css::{comp_fns, cond_lines, line_texts, CompFn, CssCond, CssLine, CssValue};
use crate::error::Error;
use crate::expr::{assign_css, id_text, show_id, unpack_assign_expr};
use crate::ir::{IfResetStatement, IfStatement, Statement};
use crate::order::{ascending, sorted_keys, views};
use crate::text::texts;

verus! {

broadcast use vstd::std_specs::btree::group_btree_axioms;

/// What a statement comes to: the conditions it needs, in the order of their numbers, and its
/// declarations, those of the conditions among them.
pub struct Block {
    pub conds: Seq<CssCond>,
    pub lines: Seq<CssLine>,
}

/// Declarations that give variables their values, by the custom properties in `targets`. The first
/// variable that has none there decides the error, which starts with `missing`.
pub open spec fn assign_lines(
    ids: Seq<u32>,
    values: Map<u32, CssValue>,
    targets: Map<u32, Seq<char>>,
    missing: Seq<char>,
) -> Result<Seq<CssLine>, Seq<char>>
    decreases ids.len(),
{
    if ids.len() == 0 {
        Ok(Seq::empty())
    } else {
        match assign_lines(ids.drop_last(), values, targets, missing) {
            Err(message) => Err(message),
            Ok(lines) => if targets.contains_key(ids.last()) {
                Ok(lines.push(CssLine::Assign(targets[ids.last()], values[ids.last()])))
            } else {
                Err(missing + id_text(ids.last()))
            },
        }
    }
}

/// The declarations before the first variable without a custom property in `targets`.
pub open spec fn assigned_lines(
    ids: Seq<u32>,
    values: Map<u32, CssValue>,
    targets: Map<u32, Seq<char>>,
) -> Seq<CssLine>
    decreases ids.len(),
{
    if ids.len() == 0 {
        Seq::empty()
    } else {
        let before = assigned_lines(ids.drop_last(), values, targets);
        if before.len() == ids.len() - 1 && targets.contains_key(ids.last()) {
            before.push(CssLine::Assign(targets[ids.last()], values[ids.last()]))
        } else {
            before
        }
    }
}

/// What a conditional statement comes to outside any other.
pub open spec fn if_block(
    stmt: IfStatement,
    names: Map<u32, Seq<char>>,
    targets: Map<u32, Seq<char>>,
    missing: Seq<char>,
    n: nat,
) -> Result<Block, Seq<char>> {
    match if_css(stmt, names, n) {
        Err(message) => Err(message),
        Ok(branch) => match assign_lines(
            ascending(branch.values.dom()),
            branch.values,
            targets,
            missing,
        ) {
            Err(message) => Err(message),
            Ok(lines) => Ok(
                Block { conds: branch.conds, lines: cond_lines(n, branch.conds) + lines },
            ),
        },
    }
}

/// The declarations that are written for a conditional statement, whether or not all of it is
/// accepted: none where it is refused as such, those before the first unknown variable otherwise.
pub open spec fn if_lines(
    stmt: IfStatement,
    names: Map<u32, Seq<char>>,
    targets: Map<u32, Seq<char>>,
    n: nat,
) -> Seq<CssLine> {
    match if_css(stmt, names, n) {
        Err(_) => Seq::empty(),
        Ok(branch) => cond_lines(n, branch.conds) + assigned_lines(
            ascending(branch.values.dom()),
            branch.values,
            targets,
        ),
    }
}

/// What an assignment comes to outside any conditional statement.
pub open spec fn assign_block(
    outcome: Result<(u32, CssValue), Seq<char>>,
    targets: Map<u32, Seq<char>>,
    missing: Seq<char>,
) -> Result<Block, Seq<char>> {
    match outcome {
        Err(message) => Err(message),
        Ok((id, value)) => if targets.contains_key(id) {
            Ok(
                Block {
                    conds: Seq::empty(),
                    lines: seq![CssLine::Assign(targets[id], value)],
                },
            )
        } else {
            Err(missing + id_text(id))
        },
    }
}

/// What a statement of an `always_comb` block comes to, conditions being numbered from `n` on.
pub open spec fn comb_statement_css(
    stmt: Statement,
    names: Map<u32, Seq<char>>,
    n: nat,
) -> Result<Block, Seq<char>> {
    match stmt {
        Statement::Assign(assign) => assign_block(
            assign_css(assign, names),
            names,
            "unknown assignment destination: "@,
        ),
        Statement::If(stmt) => if_block(stmt, names, names, "unknown variable in if branch: "@, n),
        Statement::Null => Ok(Block { conds: Seq::empty(), lines: Seq::empty() }),
        Statement::IfReset(stmt) => Err("unsupported statement: "@ + stmt.text@),
        Statement::Other(text) => Err("unsupported statement: "@ + text@),
    }
}

/// The declarations that are written for a statement of an `always_comb` block, whether or not all
/// of it is accepted.
pub open spec fn comb_statement_lines(
    stmt: Statement,
    names: Map<u32, Seq<char>>,
    n: nat,
) -> Seq<CssLine> {
    match stmt {
        Statement::If(stmt) => if_lines(stmt, names, names, n),
        _ => match comb_statement_css(stmt, names, n) {
            Ok(block) => block.lines,
            Err(_) => Seq::empty(),
        },
    }
}

/// The values of the variables that either side of a reset assigns. A variable that only one side
/// assigns has that side's value throughout.
pub open spec fn reset_values(reset: Map<u32, CssValue>, normal: Map<u32, CssValue>) -> Map<
    u32,
    CssValue,
> {
    Map::new(
        |id: u32| reset.contains_key(id) || normal.contains_key(id),
        |id: u32|
            if !normal.contains_key(id) {
                reset[id]
            } else if !reset.contains_key(id) {
                normal[id]
            } else {
                CssValue::IfReset(Box::new(reset[id]), Box::new(normal[id]))
            },
    )
}

/// What a statement that is conditional on the reset comes to.
pub open spec fn if_reset_css(
    stmt: IfResetStatement,
    names: Map<u32, Seq<char>>,
    next: Map<u32, Seq<char>>,
    n: nat,
) -> Result<Block, Seq<char>> {
    match branch_css(stmt.true_side@, names, n) {
        Err(message) => Err(message),
        Ok(reset) => match branch_css(stmt.false_side@, names, n + reset.conds.len()) {
            Err(message) => Err(message),
            Ok(normal) => match assign_lines(
                ascending(reset.values.dom() + normal.values.dom()),
                reset_values(reset.values, normal.values),
                next,
                "if_reset assigns to non-ff variable: "@,
            ) {
                Err(message) => Err(message),
                Ok(lines) => {
                    let conds = reset.conds + normal.conds;
                    Ok(Block { conds, lines: cond_lines(n, conds) + lines })
                },
            },
        },
    }
}

/// What a statement of an `always_ff` block comes to, by the custom properties of the next states.
pub open spec fn ff_statement_css(
    stmt: Statement,
    names: Map<u32, Seq<char>>,
    next: Map<u32, Seq<char>>,
    n: nat,
) -> Result<Block, Seq<char>> {
    match stmt {
        Statement::Assign(assign) => assign_block(
            assign_css(assign, names),
            next,
            "ff assignment to non-ff variable: "@,
        ),
        Statement::If(stmt) => if_block(stmt, names, next, "if assigns to non-ff variable: "@, n),
        Statement::IfReset(stmt) => if_reset_css(stmt, names, next, n),
        Statement::Null => Ok(Block { conds: Seq::empty(), lines: Seq::empty() }),
        Statement::Other(text) => Err("unsupported ff statement: "@ + text@),
    }
}

/// Whether both sides of a reset are accepted.
pub open spec fn sides_accepted(
    stmt: IfResetStatement,
    names: Map<u32, Seq<char>>,
    n: nat,
) -> bool {
    match branch_css(stmt.true_side@, names, n) {
        Err(_) => false,
        Ok(reset) => branch_css(stmt.false_side@, names, n + reset.conds.len()) is Ok,
    }
}

/// The conditions of both sides of a reset.
pub open spec fn reset_conds(stmt: IfResetStatement, names: Map<u32, Seq<char>>, n: nat) -> Seq<
    CssCond,
> {
    let reset = branch_css(stmt.true_side@, names, n)->Ok_0;
    reset.conds + branch_css(stmt.false_side@, names, n + reset.conds.len())->Ok_0.conds
}

/// The declarations that are written for a statement that is conditional on the reset, whether or
/// not all of it is accepted: none where a side is refused, those before the first variable that
/// is no register otherwise.
pub open spec fn if_reset_lines(
    stmt: IfResetStatement,
    names: Map<u32, Seq<char>>,
    next: Map<u32, Seq<char>>,
    n: nat,
) -> Seq<CssLine> {
    if sides_accepted(stmt, names, n) {
        let reset = branch_css(stmt.true_side@, names, n)->Ok_0;
        let normal = branch_css(stmt.false_side@, names, n + reset.conds.len())->Ok_0;
        cond_lines(n, reset_conds(stmt, names, n)) + assigned_lines(
            ascending(reset.values.dom() + normal.values.dom()),
            reset_values(reset.values, normal.values),
            next,
        )
    } else {
        Seq::empty()
    }
}

/// The declarations that are written for a statement of an `always_ff` block, whether or not all of
/// it is accepted.
pub open spec fn ff_statement_lines(
    stmt: Statement,
    names: Map<u32, Seq<char>>,
    next: Map<u32, Seq<char>>,
    n: nat,
) -> Seq<CssLine> {
    match stmt {
        Statement::If(stmt) => if_lines(stmt, names, next, n),
        Statement::IfReset(stmt) => if_reset_lines(stmt, names, next, n),
        _ => match ff_statement_css(stmt, names, next, n) {
            Ok(block) => block.lines,
            Err(_) => Seq::empty(),
        },
    }
}

/// Where all variables have custom properties, all declarations are written.
pub proof fn lemma_assigned_lines(
    ids: Seq<u32>,
    values: Map<u32, CssValue>,
    targets: Map<u32, Seq<char>>,
    missing: Seq<char>,
)
    ensures
        assigned_lines(ids, values, targets).len() <= ids.len(),
        match assign_lines(ids, values, targets, missing) {
            Ok(lines) => lines == assigned_lines(ids, values, targets) && lines.len() == ids.len(),
            Err(_) => assigned_lines(ids, values, targets).len() < ids.len(),
        },
    decreases ids.len(),
{
    if ids.len() > 0 {
        lemma_assigned_lines(ids.drop_last(), values, targets, missing);
    }
}

/// Nothing is written behind the first variable without a custom property.
proof fn lemma_assigned_stops(
    ids: Seq<u32>,
    k: int,
    values: Map<u32, CssValue>,
    targets: Map<u32, Seq<char>>,
)
    requires
        0 <= k < ids.len(),
        !targets.contains_key(ids[k]),
    ensures
        assigned_lines(ids, values, targets) == assigned_lines(ids.take(k), values, targets),
    decreases ids.len(),
{
    let rest = ids.drop_last();
    if k == ids.len() - 1 {
        assert(ids.take(k) == rest);
    } else {
        assert(rest.take(k) == ids.take(k));
        lemma_assigned_stops(rest, k, values, targets);
        lemma_assigned_lines(ids.take(k), values, targets, Seq::empty());
    }
}

proof fn lemma_assign_error(
    ids: Seq<u32>,
    k: int,
    values: Map<u32, CssValue>,
    targets: Map<u32, Seq<char>>,
    missing: Seq<char>,
)
    requires
        0 <= k <= ids.len(),
        assign_lines(ids.take(k), values, targets, missing) is Err,
    ensures
        assign_lines(ids, values, targets, missing) == assign_lines(
            ids.take(k),
            values,
            targets,
            missing,
        ),
    decreases ids.len(),
{
    if k == ids.len() {
        assert(ids.take(k) == ids);
    } else {
        assert(ids.drop_last().take(k) == ids.take(k));
        lemma_assign_error(ids.drop_last(), k, values, targets, missing);
    }
}

/// Writes a declaration.
pub fn declaration(name: &str, value: &str) -> (line: String)
    ensures
        line@ == name@ + ": "@ + value@ + ";"@,
{
    let mut line = name.to_owned();
    line.append(": ");
    line.append(value);
    line.append(";");
    line
}

/// Writes the declarations that give variables their values.
fn emit_values(
    vals: &BTreeMap<u32, String>,
    targets: &BTreeMap<u32, String>,
    missing: &str,
    out: &mut Vec<String>,
    Ghost(values): Ghost<Map<u32, CssValue>>,
) -> (r: Result<(), Error>)
    requires
        views(vals@) == value_texts(values),
    ensures
        texts(final(out)@) == texts(old(out)@) + line_texts(
            assigned_lines(ascending(values.dom()), values, views(targets@)),
        ),
        match assign_lines(ascending(values.dom()), values, views(targets@), missing@) {
            Ok(_) => r is Ok,
            Err(message) => r matches Err(error) && error.message@ == message,
        },
{
    let ids = sorted_keys(vals);
    let ghost before = texts(out@);
    let ghost mut done: Seq<CssLine> = Seq::empty();
    proof {
        assert(vals@.dom() == views(vals@).dom());
        assert(value_texts(values).dom() == values.dom());
        assert(before + line_texts(done) == before);
        crate::order::lemma_ascending(values.dom());
    }
    for i in 0..ids.len()
        invariant
            views(vals@) == value_texts(values),
            ids@ == ascending(values.dom()),
            forall|id: u32| #[trigger] ids@.contains(id) <==> values.contains_key(id),
            assign_lines(ids@.take(i as int), values, views(targets@), missing@) == Ok::<
                Seq<CssLine>,
                Seq<char>,
            >(done),
            texts(out@) == before + line_texts(done),
            before == texts(old(out)@),
    {
        let id: u32 = ids[i];
        let ghost upto = ids@.take(i + 1);
        proof {
            assert(upto.drop_last() == ids@.take(i as int));
            assert(upto.last() == id);
            if assign_lines(upto, values, views(targets@), missing@) is Err {
                lemma_assign_error(ids@, i + 1, values, views(targets@), missing@);
            }
            assert(ids@.contains(id));
            assert(values.contains_key(id));
            assert(views(vals@).contains_key(id));
            lemma_assigned_lines(ids@.take(i as int), values, views(targets@), missing@);
        }
        let name = match targets.get(&id) {
            Some(name) => name,
            None => {
                proof {
                    assert(!views(targets@).contains_key(id));
                    lemma_assigned_stops(ids@, i as int, values, views(targets@));
                }
                return Err(Error::about(missing, &show_id(id)));
            },
        };
        if let Some(text) = vals.get(&id) {
            let ghost css = CssLine::Assign(views(targets@)[id], values[id]);
            let line = declaration(name, text);
            proof {
                assert(name@ == views(targets@)[id]);
                assert(text@ == views(vals@)[id]);
                assert(line@ == css.text());
            }
            let ghost prior = texts(out@);
            out.push(line);
            proof {
                assert(texts(out@) == prior.push(css.text()));
                assert(line_texts(done.push(css)) == line_texts(done).push(css.text()));
                done = done.push(css);
                assert(texts(out@) == before + line_texts(done));
            }
        }
    }
    proof {
        assert(ids@.take(ids@.len() as int) == ids@);
        lemma_assigned_lines(ids@, values, views(targets@), missing@);
    }
    Ok(())
}

/// Writes a conditional statement, by the custom properties in `targets`.
fn emit_if(
    if_stmt: &IfStatement,
    ctx: &mut Ctx,
    targets: &BTreeMap<u32, String>,
    missing: &str,
    out: &mut Vec<String>,
) -> (r: Result<(), Error>)
    requires
        old(ctx).wf(),
    ensures
        final(ctx).wf(),
        final(ctx).names == old(ctx).names,
        texts(old(out)@).is_prefix_of(texts(final(out)@)),
        old(ctx).cond_counter@ <= final(ctx).cond_counter@,
        old(ctx).used_comp_fns@.subset_of(final(ctx).used_comp_fns@),
        texts(final(out)@) == texts(old(out)@) + line_texts(
            if_lines(
                *if_stmt,
                views(old(ctx).names@),
                views(targets@),
                old(ctx).cond_counter@,
            ),
        ),
        match if_css(*if_stmt, views(old(ctx).names@), old(ctx).cond_counter@) {
            Ok(branch) => {
                &&& final(ctx).cond_counter@ == old(ctx).cond_counter@ + branch.conds.len()
                &&& final(ctx).used_comp_fns@ == old(ctx).used_comp_fns@ + comp_fns(branch.conds)
            },
            Err(_) => final(out)@ == old(out)@,
        },
        match if_block(
            *if_stmt,
            views(old(ctx).names@),
            views(targets@),
            missing@,
            old(ctx).cond_counter@,
        ) {
            Ok(block) => {
                &&& r is Ok
                &&& final(ctx).cond_counter@ == old(ctx).cond_counter@ + block.conds.len()
                &&& final(ctx).used_comp_fns@ == old(ctx).used_comp_fns@ + comp_fns(block.conds)
                &&& texts(final(out)@) == texts(old(out)@) + line_texts(block.lines)
            },
            Err(message) => r matches Err(error) && error.message@ == message,
        },
{
    let ghost n = ctx.cond_counter@;
    let mut preamble: Vec<String> = Vec::new();
    assert(texts(out@) + line_texts(Seq::empty()) == texts(out@));
    let vals = eval_if_expr(if_stmt, ctx, &mut preamble)?;
    let ghost branch = if_css(*if_stmt, views(old(ctx).names@), n)->Ok_0;
    let ghost ids = ascending(branch.values.dom());
    let ghost head = cond_lines(n, branch.conds);
    assert(texts(preamble@) == line_texts(head));
    out.append(&mut preamble);
    proof {
        let lines = assigned_lines(ids, branch.values, views(targets@));
        assert(texts(out@) == texts(old(out)@) + line_texts(head));
        lemma_assigned_lines(ids, branch.values, views(targets@), missing@);
        assert(line_texts(head + lines) == line_texts(head) + line_texts(lines));
        assert(texts(out@) + line_texts(lines) == texts(old(out)@) + line_texts(head + lines));
        assert(texts(old(out)@).is_prefix_of(texts(old(out)@) + line_texts(head + lines)));
    }
    emit_values(&vals, targets, missing, out, Ghost(branch.values))
}

/// Writes a conditional statement of an `always_comb` block.
pub fn emit_comb_if(if_stmt: &IfStatement, ctx: &mut Ctx, out: &mut Vec<String>) -> (r: Result<
    (),
    Error,
>)
    requires
        old(ctx).wf(),
    ensures
        final(ctx).wf(),
        final(ctx).names == old(ctx).names,
        texts(old(out)@).is_prefix_of(texts(final(out)@)),
        old(ctx).cond_counter@ <= final(ctx).cond_counter@,
        old(ctx).used_comp_fns@.subset_of(final(ctx).used_comp_fns@),
        texts(final(out)@) == texts(old(out)@) + line_texts(
            if_lines(
                *if_stmt,
                views(old(ctx).names@),
                views(old(ctx).names@),
                old(ctx).cond_counter@,
            ),
        ),
        match if_css(*if_stmt, views(old(ctx).names@), old(ctx).cond_counter@) {
            Ok(branch) => {
                &&& final(ctx).cond_counter@ == old(ctx).cond_counter@ + branch.conds.len()
                &&& final(ctx).used_comp_fns@ == old(ctx).used_comp_fns@ + comp_fns(branch.conds)
            },
            Err(_) => final(out)@ == old(out)@,
        },
        match if_block(
            *if_stmt,
            views(old(ctx).names@),
            views(old(ctx).names@),
            "unknown variable in if branch: "@,
            old(ctx).cond_counter@,
        ) {
            Ok(block) => {
                &&& r is Ok
                &&& final(ctx).cond_counter@ == old(ctx).cond_counter@ + block.conds.len()
                &&& final(ctx).used_comp_fns@ == old(ctx).used_comp_fns@ + comp_fns(block.conds)
                &&& texts(final(out)@) == texts(old(out)@) + line_texts(block.lines)
            },
            Err(message) => r matches Err(error) && error.message@ == message,
        },
{
    let names = ctx.names;
    emit_if(if_stmt, ctx, names, "unknown variable in if branch: ", out)
}

/// Nothing is added by no condition and no declaration.
proof fn lemma_nothing_added(used: Set<CompFn>, lines: Seq<Seq<char>>)
    ensures
        used + comp_fns(Seq::empty()) == used,
        lines + line_texts(Seq::empty()) == lines,
{
    assert(comp_fns(Seq::empty()) == Set::<CompFn>::empty());
}

/// Writes a statement of an `always_comb` block.
pub fn emit_comb_statement(statement: &Statement, ctx: &mut Ctx, out: &mut Vec<String>) -> (r:
    Result<(), Error>)
    requires
        old(ctx).wf(),
    ensures
        final(ctx).wf(),
        final(ctx).names == old(ctx).names,
        texts(old(out)@).is_prefix_of(texts(final(out)@)),
        old(ctx).cond_counter@ <= final(ctx).cond_counter@,
        old(ctx).used_comp_fns@.subset_of(final(ctx).used_comp_fns@),
        texts(final(out)@) == texts(old(out)@) + line_texts(
            comb_statement_lines(*statement, views(old(ctx).names@), old(ctx).cond_counter@),
        ),
        match *statement {
            Statement::If(stmt) => match if_css(
                stmt,
                views(old(ctx).names@),
                old(ctx).cond_counter@,
            ) {
                Ok(branch) => {
                    &&& final(ctx).cond_counter@ == old(ctx).cond_counter@ + branch.conds.len()
                    &&& final(ctx).used_comp_fns@ == old(ctx).used_comp_fns@ + comp_fns(
                        branch.conds,
                    )
                },
                Err(_) => final(out)@ == old(out)@,
            },
            _ => *final(ctx) == *old(ctx) && (r is Err ==> final(out)@ == old(out)@),
        },
        match comb_statement_css(*statement, views(old(ctx).names@), old(ctx).cond_counter@) {
            Ok(block) => {
                &&& r is Ok
                &&& final(ctx).cond_counter@ == old(ctx).cond_counter@ + block.conds.len()
                &&& final(ctx).used_comp_fns@ == old(ctx).used_comp_fns@ + comp_fns(block.conds)
                &&& texts(final(out)@) == texts(old(out)@) + line_texts(block.lines)
            },
            Err(message) => r matches Err(error) && error.message@ == message,
        },
{
    proof {
        lemma_nothing_added(ctx.used_comp_fns@, texts(out@));
    }
    match statement {
        Statement::Assign(assign) => {
            let (dst, expr) = unpack_assign_expr(assign, ctx.names)?;
            match ctx.names.get(&dst.id) {
                Some(dst_name) => {
                    let line = declaration(dst_name, &expr);
                    proof {
                        let (id, value) = assign_css(*assign, views(ctx.names@))->Ok_0;
                        assert(views(ctx.names@)[id] == dst_name@);
                        assert(line_texts(seq![CssLine::Assign(dst_name@, value)]) == seq![line@]);
                    }
                    out.push(line);
                    assert(texts(out@) == texts(old(out)@) + seq![line@]);
                    Ok(())
                },
                None => Err(Error::about("unknown assignment destination: ", &show_id(dst.id))),
            }
        },
        Statement::If(if_stmt) => emit_comb_if(if_stmt, ctx, out),
        Statement::Null => Ok(()),
        Statement::IfReset(stmt) => Err(Error::about("unsupported statement: ", &stmt.text)),
        Statement::Other(text) => Err(Error::about("unsupported statement: ", text)),
    }
}

/// The written values of the variables that either side of a reset assigns.
fn merge_reset(reset: &BTreeMap<u32, String>, normal: &BTreeMap<u32, String>, Ghost(r): Ghost<
    Map<u32, CssValue>,
>, Ghost(n): Ghost<Map<u32, CssValue>>) -> (merged: BTreeMap<u32, String>)
    requires
        views(reset@) == value_texts(r),
        views(normal@) == value_texts(n),
    ensures
        views(merged@) == value_texts(reset_values(r, n)),
{
    let ids = union_keys(reset, normal);
    let mut merged: BTreeMap<u32, String> = BTreeMap::new();
    let ghost all = reset_values(r, n);
    proof {
        assert(reset@.dom() == views(reset@).dom());
        assert(value_texts(r).dom() == r.dom());
        assert(normal@.dom() == views(normal@).dom());
        assert(value_texts(n).dom() == n.dom());
        crate::order::lemma_ascending(r.dom() + n.dom());
        assert(ids@.take(0).to_set() == Set::<u32>::empty());
        assert(views(merged@) == value_texts(all).restrict(ids@.take(0).to_set()));
    }
    for i in 0..ids.len()
        invariant
            views(reset@) == value_texts(r),
            views(normal@) == value_texts(n),
            all == reset_values(r, n),
            forall|id: u32|
                #[trigger] ids@.contains(id) <==> (r.dom() + n.dom()).contains(id),
            views(merged@) == value_texts(all).restrict(ids@.take(i as int).to_set()),
    {
        let id: u32 = ids[i];
        let ghost css = all[id];
        proof {
            assert(ids@.contains(id));
            assert(reset@.contains_key(id) == views(reset@).contains_key(id));
            assert(normal@.contains_key(id) == views(normal@).contains_key(id));
        }
        let value: String = match (reset.get(&id), normal.get(&id)) {
            (Some(rv), Some(nv)) => {
                proof {
                    assert(rv@ == views(reset@)[id]);
                    assert(nv@ == views(normal@)[id]);
                }
                let mut s = "if(style(--rst: 1): ".to_owned();
                s.append(rv);
                s.append("; else: ");
                s.append(nv);
                s.append(")");
                assert(s@ == css.text());
                s
            },
            (Some(rv), None) => {
                assert(rv@ == views(reset@)[id]);
                rv.clone()
            },
            (None, Some(nv)) => {
                assert(nv@ == views(normal@)[id]);
                nv.clone()
            },
            (None, None) => String::new(),
        };
        assert(value@ == css.text());
        let ghost prior = views(merged@);
        merged.insert(id, value);
        proof {
            assert(views(merged@) == prior.insert(id, css.text()));
            let s = ids@.take(i as int);
            let t = ids@.take(i + 1);
            assert(t == s.push(id));
            s.lemma_push_to_set_commute(id);
            assert(value_texts(all).restrict(t.to_set()) == value_texts(all).restrict(
                s.to_set(),
            ).insert(id, css.text()));
        }
    }
    proof {
        assert(ids@.take(ids@.len() as int) == ids@);
        assert(value_texts(all).restrict(ids@.to_set()) == value_texts(all));
    }
    merged
}

/// Writes a statement that is conditional on the reset, by the custom properties of the next
/// states.
pub fn emit_if_reset(
    if_reset: &IfResetStatement,
    ctx: &mut Ctx,
    ff_next_names: &BTreeMap<u32, String>,
    out: &mut Vec<String>,
) -> (r: Result<(), Error>)
    requires
        old(ctx).wf(),
    ensures
        final(ctx).wf(),
        final(ctx).names == old(ctx).names,
        texts(old(out)@).is_prefix_of(texts(final(out)@)),
        old(ctx).cond_counter@ <= final(ctx).cond_counter@,
        old(ctx).used_comp_fns@.subset_of(final(ctx).used_comp_fns@),
        texts(final(out)@) == texts(old(out)@) + line_texts(
            if_reset_lines(
                *if_reset,
                views(old(ctx).names@),
                views(ff_next_names@),
                old(ctx).cond_counter@,
            ),
        ),
        if sides_accepted(*if_reset, views(old(ctx).names@), old(ctx).cond_counter@) {
            let conds = reset_conds(*if_reset, views(old(ctx).names@), old(ctx).cond_counter@);
            &&& final(ctx).cond_counter@ == old(ctx).cond_counter@ + conds.len()
            &&& final(ctx).used_comp_fns@ == old(ctx).used_comp_fns@ + comp_fns(conds)
        } else {
            final(out)@ == old(out)@
        },
        match if_reset_css(
            *if_reset,
            views(old(ctx).names@),
            views(ff_next_names@),
            old(ctx).cond_counter@,
        ) {
            Ok(block) => {
                &&& r is Ok
                &&& final(ctx).cond_counter@ == old(ctx).cond_counter@ + block.conds.len()
                &&& final(ctx).used_comp_fns@ == old(ctx).used_comp_fns@ + comp_fns(block.conds)
                &&& texts(final(out)@) == texts(old(out)@) + line_texts(block.lines)
            },
            Err(message) => r matches Err(error) && error.message@ == message,
        },
{
    let ghost names = views(ctx.names@);
    let ghost n = ctx.cond_counter@;
    let mut preamble: Vec<String> = Vec::new();
    assert(texts(out@) + line_texts(Seq::empty()) == texts(out@));
    let reset_exprs = eval_branch(&if_reset.true_side, ctx, &mut preamble)?;
    let normal_exprs = eval_branch(&if_reset.false_side, ctx, &mut preamble)?;
    let ghost reset = branch_css(if_reset.true_side@, names, n)->Ok_0;
    let ghost normal = branch_css(if_reset.false_side@, names, n + reset.conds.len())->Ok_0;
    let ghost head = cond_lines(n, reset.conds + normal.conds);
    proof {
        lemma_conds_add(n, reset.conds, normal.conds);
        assert(texts(preamble@) == line_texts(head));
    }
    out.append(&mut preamble);
    let ghost values = reset_values(reset.values, normal.values);
    let merged = merge_reset(
        &reset_exprs,
        &normal_exprs,
        Ghost(reset.values),
        Ghost(normal.values),
    );
    proof {
        let next = views(ff_next_names@);
        let ids = ascending(values.dom());
        let lines = assigned_lines(ids, values, next);
        assert(values.dom() == reset.values.dom() + normal.values.dom());
        assert(texts(out@) == texts(old(out)@) + line_texts(head));
        lemma_assigned_lines(ids, values, next, "if_reset assigns to non-ff variable: "@);
        assert(line_texts(head + lines) == line_texts(head) + line_texts(lines));
        assert(texts(out@) + line_texts(lines) == texts(old(out)@) + line_texts(head + lines));
        assert(texts(old(out)@).is_prefix_of(texts(old(out)@) + line_texts(head + lines)));
    }
    emit_values(
        &merged,
        ff_next_names,
        "if_reset assigns to non-ff variable: ",
        out,
        Ghost(values),
    )
}

/// Writes a statement of an `always_ff` block, by the custom properties of the next states.
pub fn emit_ff_statement(
    statement: &Statement,
    ctx: &mut Ctx,
    ff_next_names: &BTreeMap<u32, String>,
    out: &mut Vec<String>,
) -> (r: Result<(), Error>)
    requires
        old(ctx).wf(),
    ensures
        final(ctx).wf(),
        final(ctx).names == old(ctx).names,
        texts(old(out)@).is_prefix_of(texts(final(out)@)),
        old(ctx).cond_counter@ <= final(ctx).cond_counter@,
        old(ctx).used_comp_fns@.subset_of(final(ctx).used_comp_fns@),
        texts(final(out)@) == texts(old(out)@) + line_texts(
            ff_statement_lines(
                *statement,
                views(old(ctx).names@),
                views(ff_next_names@),
                old(ctx).cond_counter@,
            ),
        ),
        match *statement {
            Statement::If(stmt) => match if_css(
                stmt,
                views(old(ctx).names@),
                old(ctx).cond_counter@,
            ) {
                Ok(branch) => {
                    &&& final(ctx).cond_counter@ == old(ctx).cond_counter@ + branch.conds.len()
                    &&& final(ctx).used_comp_fns@ == old(ctx).used_comp_fns@ + comp_fns(
                        branch.conds,
                    )
                },
                Err(_) => final(out)@ == old(out)@,
            },
            Statement::IfReset(stmt) => if sides_accepted(
                stmt,
                views(old(ctx).names@),
                old(ctx).cond_counter@,
            ) {
                let conds = reset_conds(stmt, views(old(ctx).names@), old(ctx).cond_counter@);
                &&& final(ctx).cond_counter@ == old(ctx).cond_counter@ + conds.len()
                &&& final(ctx).used_comp_fns@ == old(ctx).used_comp_fns@ + comp_fns(conds)
            } else {
                final(out)@ == old(out)@
            },
            _ => *final(ctx) == *old(ctx) && (r is Err ==> final(out)@ == old(out)@),
        },
        match ff_statement_css(
            *statement,
            views(old(ctx).names@),
            views(ff_next_names@),
            old(ctx).cond_counter@,
        ) {
            Ok(block) => {
                &&& r is Ok
                &&& final(ctx).cond_counter@ == old(ctx).cond_counter@ + block.conds.len()
                &&& final(ctx).used_comp_fns@ == old(ctx).used_comp_fns@ + comp_fns(block.conds)
                &&& texts(final(out)@) == texts(old(out)@) + line_texts(block.lines)
            },
            Err(message) => r matches Err(error) && error.message@ == message,
        },
{
    proof {
        lemma_nothing_added(ctx.used_comp_fns@, texts(out@));
    }
    match statement {
        Statement::Assign(assign) => {
            let (dst, expr) = unpack_assign_expr(assign, ctx.names)?;
            match ff_next_names.get(&dst.id) {
                Some(next) => {
                    let line = declaration(next, &expr);
                    proof {
                        let (id, value) = assign_css(*assign, views(ctx.names@))->Ok_0;
                        assert(views(ff_next_names@)[id] == next@);
                        assert(line_texts(seq![CssLine::Assign(next@, value)]) == seq![line@]);
                    }
                    out.push(line);
                    assert(texts(out@) == texts(old(out)@) + seq![line@]);
                    Ok(())
                },
                None => Err(Error::about("ff assignment to non-ff variable: ", &show_id(dst.id))),
            }
        },
        Statement::If(if_stmt) => emit_if(
            if_stmt,
            ctx,
            ff_next_names,
            "if assigns to non-ff variable: ",
            out,
        ),
        Statement::IfReset(if_reset) => emit_if_reset(if_reset, ctx, ff_next_names, out),
        Statement::Null => Ok(()),
        Statement::Other(text) => Err(Error::about("unsupported ff statement: ", text)),
    }
}

} // verus!
